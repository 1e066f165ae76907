//! The diff planner: classifies each local file against the remote
//! manifest and derives the upload plan.
//!
//! A local file is `New` when its relative key is absent from the remote
//! manifest, `Modified` when the key is present with a different
//! fingerprint, and `Unmodified` when key and fingerprint both match.
//! The plan holds the `Modified` and `New` files, in inventory order;
//! `Unmodified` files are excluded entirely. Files present remotely but
//! not locally are never considered: nothing is ever deleted.

use vstd::prelude::*;
use crate::bytes::bytes_eq;
use crate::bytes::clone_bytes;
use crate::inventory::inv_view;
use crate::inventory::lemma_filter_push;
use crate::inventory::LocalFile;
use crate::manifest::lemma_map_of_value;
use crate::manifest::map_of;
use crate::manifest::Manifest;

verus! {

/// Classification of one local file relative to the remote manifest.
#[derive(PartialEq, Eq, Structural, Clone, Copy, Debug)]
pub enum FileStatus {
    New,
    Modified,
    Unmodified,
}

/// The status of a key/fingerprint pair under a remote mapping.
pub open spec fn spec_status(key: Seq<u8>, fp: Seq<u8>, remote: Map<Seq<u8>, Seq<u8>>) -> FileStatus {
    if !remote.contains_key(key) {
        FileStatus::New
    } else if remote[key] != fp {
        FileStatus::Modified
    } else {
        FileStatus::Unmodified
    }
}

/// Classifies one local file against the remote manifest.
pub fn classify(file: &LocalFile, remote: &Manifest) -> (status: FileStatus)
    ensures
        status == spec_status(file.relative_key@, file.fingerprint@, map_of(remote@)),
{
    match remote.lookup(&file.relative_key) {
        Option::None => FileStatus::New,
        Option::Some(fp) => {
            if bytes_eq(&fp, &file.fingerprint) {
                FileStatus::Unmodified
            } else {
                FileStatus::Modified
            }
        },
    }
}

/// The files a sync run must upload: the modified ones and the new ones,
/// each in inventory order.
pub struct UploadPlan {
    pub modified: Vec<LocalFile>,
    pub new_files: Vec<LocalFile>,
}

/// Whether a pair classifies as `Modified` under a remote mapping.
pub open spec fn modified_pred(remote: Map<Seq<u8>, Seq<u8>>) -> spec_fn((Seq<u8>, Seq<u8>)) -> bool {
    |p: (Seq<u8>, Seq<u8>)| spec_status(p.0, p.1, remote) == FileStatus::Modified
}

/// Whether a pair classifies as `New` under a remote mapping.
pub open spec fn new_pred(remote: Map<Seq<u8>, Seq<u8>>) -> spec_fn((Seq<u8>, Seq<u8>)) -> bool {
    |p: (Seq<u8>, Seq<u8>)| spec_status(p.0, p.1, remote) == FileStatus::New
}

/// Builds the upload plan: one pass over the inventory, each file looked
/// up by its relative key. `Unmodified` files are excluded.
pub fn build_plan(inventory: &Vec<LocalFile>, remote: &Manifest) -> (plan: UploadPlan)
    ensures
        inv_view(plan.modified@) == inv_view(inventory@).filter(modified_pred(map_of(remote@))),
        inv_view(plan.new_files@) == inv_view(inventory@).filter(new_pred(map_of(remote@))),
{
    let ghost pairs = inv_view(inventory@);
    let ghost rm = map_of(remote@);
    let mut modified: Vec<LocalFile> = Vec::new();
    let mut new_files: Vec<LocalFile> = Vec::new();
    let mut i: usize = 0;
    proof {
        assert(pairs.take(0) =~= Seq::<(Seq<u8>, Seq<u8>)>::empty());
        assert(inv_view(modified@) =~= pairs.take(0).filter(modified_pred(rm)));
        assert(inv_view(new_files@) =~= pairs.take(0).filter(new_pred(rm)));
        assert(Seq::<(Seq<u8>, Seq<u8>)>::empty().filter(modified_pred(rm)) =~= Seq::<(
            Seq<u8>,
            Seq<u8>,
        )>::empty()) by {
            reveal(Seq::filter);
        }
    }
    while i < inventory.len()
        invariant
            i <= inventory.len(),
            pairs == inv_view(inventory@),
            rm == map_of(remote@),
            inv_view(modified@) == pairs.take(i as int).filter(modified_pred(rm)),
            inv_view(new_files@) == pairs.take(i as int).filter(new_pred(rm)),
        decreases inventory.len() - i,
    {
        let ghost done = pairs.take(i as int);
        proof {
            assert(done.push(pairs[i as int]) =~= pairs.take(i + 1));
            lemma_filter_push(done, pairs[i as int], modified_pred(rm));
            lemma_filter_push(done, pairs[i as int], new_pred(rm));
            assert(pairs[i as int] == inventory@[i as int]@);
        }
        let status = classify(&inventory[i], remote);
        let file = &inventory[i];
        match status {
            FileStatus::Modified => {
                let copy = LocalFile {
                    relative_key: clone_bytes(&file.relative_key),
                    fingerprint: clone_bytes(&file.fingerprint),
                };
                proof {
                    assert(copy@ == pairs[i as int]);
                }
                modified.push(copy);
                proof {
                    assert(inv_view(modified@) =~= pairs.take(i + 1).filter(modified_pred(rm)));
                }
            },
            FileStatus::New => {
                let copy = LocalFile {
                    relative_key: clone_bytes(&file.relative_key),
                    fingerprint: clone_bytes(&file.fingerprint),
                };
                proof {
                    assert(copy@ == pairs[i as int]);
                }
                new_files.push(copy);
                proof {
                    assert(inv_view(new_files@) =~= pairs.take(i + 1).filter(new_pred(rm)));
                }
            },
            FileStatus::Unmodified => {},
        }
        i += 1;
    }
    proof {
        assert(pairs.take(inventory@.len() as int) =~= pairs);
    }
    UploadPlan { modified, new_files }
}

impl UploadPlan {
    /// Whether the plan calls for no upload at all.
    pub fn is_empty(&self) -> (r: bool)
        ensures
            r == (self.modified@.len() == 0 && self.new_files@.len() == 0),
    {
        self.modified.len() == 0 && self.new_files.len() == 0
    }
}

/// Nothing satisfies a predicate exactly when its filtered sequence is
/// empty.
pub proof fn lemma_filter_empty_iff<A>(s: Seq<A>, pred: spec_fn(A) -> bool)
    ensures
        s.filter(pred).len() == 0 <==> forall|i: int| 0 <= i < s.len() ==> !pred(#[trigger] s[i]),
    decreases s.len(),
{
    reveal(Seq::filter);
    if s.len() > 0 {
        lemma_filter_empty_iff(s.drop_last(), pred);
        if s.filter(pred).len() == 0 {
            assert forall|i: int| 0 <= i < s.len() implies !pred(#[trigger] s[i]) by {
                if i < s.len() - 1 {
                    assert(s.drop_last()[i] == s[i]);
                }
            }
        } else {
            if !pred(s.last()) {
                let j = choose|j: int| 0 <= j < s.drop_last().len() && pred(#[trigger] s.drop_last()[j]);
                assert(pred(s[j]));
            }
        }
    }
}

/// The plan is empty exactly when every local file is `Unmodified`: no
/// local file differs from what the remote manifest records.
pub proof fn lemma_plan_empty_iff(pairs: Seq<(Seq<u8>, Seq<u8>)>, remote: Map<Seq<u8>, Seq<u8>>)
    ensures
        (pairs.filter(modified_pred(remote)).len() == 0 && pairs.filter(new_pred(remote)).len()
            == 0) <==> forall|i: int|
            0 <= i < pairs.len() ==> spec_status((#[trigger] pairs[i]).0, pairs[i].1, remote)
                == FileStatus::Unmodified,
{
    lemma_filter_empty_iff(pairs, modified_pred(remote));
    lemma_filter_empty_iff(pairs, new_pred(remote));
    assert forall|i: int| 0 <= i < pairs.len() implies (!modified_pred(remote)(pairs[i])
        && !new_pred(remote)(pairs[i])) == (spec_status((#[trigger] pairs[i]).0, pairs[i].1, remote)
        == FileStatus::Unmodified) by {}
}

/// Unmodified exclusion: every file the plan carries classifies as
/// `Modified` or as `New`; a file whose key and fingerprint the remote
/// manifest already records appears in neither part of the plan.
pub proof fn lemma_unmodified_excluded(pairs: Seq<(Seq<u8>, Seq<u8>)>, remote: Map<Seq<u8>, Seq<u8>>)
    ensures
        forall|k: int|
            0 <= k < pairs.filter(modified_pred(remote)).len() ==> spec_status(
                (#[trigger] pairs.filter(modified_pred(remote))[k]).0,
                pairs.filter(modified_pred(remote))[k].1,
                remote,
            ) == FileStatus::Modified,
        forall|k: int|
            0 <= k < pairs.filter(new_pred(remote)).len() ==> spec_status(
                (#[trigger] pairs.filter(new_pred(remote))[k]).0,
                pairs.filter(new_pred(remote))[k].1,
                remote,
            ) == FileStatus::New,
{
    broadcast use vstd::seq_lib::group_filter_ensures;

}

/// Keys all distinct: no two entries of the list share a key.
pub open spec fn unique_keys(pairs: Seq<(Seq<u8>, Seq<u8>)>) -> bool {
    forall|i: int, j: int|
        0 <= i < j < pairs.len() ==> (#[trigger] pairs[i]).0 != (#[trigger] pairs[j]).0
}

/// Idempotence: against the manifest built from the inventory itself,
/// every file of that inventory is `Unmodified`, so a second run with no
/// local changes yields an empty plan.
pub proof fn lemma_second_run_empty(pairs: Seq<(Seq<u8>, Seq<u8>)>)
    requires
        unique_keys(pairs),
    ensures
        forall|i: int|
            0 <= i < pairs.len() ==> spec_status(
                (#[trigger] pairs[i]).0,
                pairs[i].1,
                map_of(pairs),
            ) == FileStatus::Unmodified,
        pairs.filter(modified_pred(map_of(pairs))).len() == 0,
        pairs.filter(new_pred(map_of(pairs))).len() == 0,
{
    assert forall|i: int| 0 <= i < pairs.len() implies spec_status(
        (#[trigger] pairs[i]).0,
        pairs[i].1,
        map_of(pairs),
    ) == FileStatus::Unmodified by {
        lemma_map_of_value(pairs, i);
    }
    lemma_plan_empty_iff(pairs, map_of(pairs));
}

/// Idempotence of the full cycle: publish the manifest built from the
/// inventory, read it back through the wire format, and diff the same
/// inventory against it — the plan is empty. Keys and fingerprints must
/// be representable on the wire (nonempty, no whitespace, no newline)
/// and keys unique.
pub proof fn lemma_cycle_idempotent(pairs: Seq<(Seq<u8>, Seq<u8>)>)
    requires
        unique_keys(pairs),
        crate::manifest::wf_entries(pairs),
    ensures
        pairs.filter(
            modified_pred(map_of(crate::manifest::parse_spec(crate::manifest::serialize_spec(pairs)))),
        ).len() == 0,
        pairs.filter(
            new_pred(map_of(crate::manifest::parse_spec(crate::manifest::serialize_spec(pairs)))),
        ).len() == 0,
{
    crate::manifest::lemma_parse_serialize(pairs);
    lemma_second_run_empty(pairs);
}

} // verus!

//! The local inventory: the complete list of files under the sync root,
//! each with its relative key and its content fingerprint.
//!
//! The enumeration of the directory tree is a collaborator: it hands in
//! one record per file found, with the file's path components relative to
//! the root and its content bytes, including everything under ignored
//! directories. This module applies the ignore rule — a file is excluded
//! exactly when one of its directory components matches an ignored name,
//! at any depth — joins the components into the relative key, and
//! fingerprints the content.

use vstd::prelude::*;
use crate::bytes::append_bytes;
use crate::bytes::bytes_eq;
use crate::fingerprint::fingerprint;
use crate::fingerprint::fingerprint_of;

verus! {

/// One file as the directory enumeration hands it in: path components
/// relative to the sync root (directories first, the file's own name
/// last) and the file's content bytes.
pub struct RawFile {
    pub components: Vec<Vec<u8>>,
    pub content: Vec<u8>,
}

impl View for RawFile {
    type V = (Seq<Seq<u8>>, Seq<u8>);

    open spec fn view(&self) -> (Seq<Seq<u8>>, Seq<u8>) {
        (self.components@.map_values(|c: Vec<u8>| c@), self.content@)
    }
}

/// A local file ready for comparison against the remote manifest.
pub struct LocalFile {
    pub relative_key: Vec<u8>,
    pub fingerprint: Vec<u8>,
}

impl View for LocalFile {
    type V = (Seq<u8>, Seq<u8>);

    open spec fn view(&self) -> (Seq<u8>, Seq<u8>) {
        (self.relative_key@, self.fingerprint@)
    }
}

/// The view of a list of local files as key/fingerprint pairs.
pub open spec fn inv_view(files: Seq<LocalFile>) -> Seq<(Seq<u8>, Seq<u8>)> {
    files.map_values(|f: LocalFile| f@)
}

/// The view of a list of raw files.
pub open spec fn raw_view(files: Seq<RawFile>) -> Seq<(Seq<Seq<u8>>, Seq<u8>)> {
    files.map_values(|f: RawFile| f@)
}

/// The view of a list of names.
pub open spec fn names_view(names: Seq<Vec<u8>>) -> Seq<Seq<u8>> {
    names.map_values(|n: Vec<u8>| n@)
}

/// Path components joined with forward slashes: the relative key.
pub open spec fn join_key(components: Seq<Seq<u8>>) -> Seq<u8>
    decreases components.len(),
{
    if components.len() == 0 {
        Seq::empty()
    } else if components.len() == 1 {
        components[0]
    } else {
        join_key(components.drop_last()) + seq![47u8] + components.last()
    }
}

/// Whether some directory component (every component but the last, which
/// is the file's own name) matches an ignored name. Matching is by exact
/// name, at any depth.
pub open spec fn has_ignored_dir(components: Seq<Seq<u8>>, ignored: Seq<Seq<u8>>) -> bool {
    exists|i: int, j: int|
        0 <= i < components.len() - 1 && 0 <= j < ignored.len() && (#[trigger] components[i])
            == (#[trigger] ignored[j])
}

/// Whether the ignore rule keeps a raw file.
pub open spec fn kept(ignored: Seq<Seq<u8>>) -> spec_fn((Seq<Seq<u8>>, Seq<u8>)) -> bool {
    |f: (Seq<Seq<u8>>, Seq<u8>)| !has_ignored_dir(f.0, ignored)
}

/// The inventory entry a kept raw file yields.
pub open spec fn to_local(f: (Seq<Seq<u8>>, Seq<u8>)) -> (Seq<u8>, Seq<u8>) {
    (join_key(f.0), fingerprint_of(f.1))
}

/// The inventory a snapshot and an ignore set determine: the kept files,
/// in enumeration order, keyed and fingerprinted.
pub open spec fn inventory_spec(files: Seq<(Seq<Seq<u8>>, Seq<u8>)>, ignored: Seq<Seq<u8>>) -> Seq<
    (Seq<u8>, Seq<u8>),
> {
    files.filter(kept(ignored)).map_values(|f: (Seq<Seq<u8>>, Seq<u8>)| to_local(f))
}

/// Filtering one more element keeps it exactly when the predicate holds.
pub proof fn lemma_filter_push<A>(s: Seq<A>, x: A, pred: spec_fn(A) -> bool)
    ensures
        pred(x) ==> s.push(x).filter(pred) == s.filter(pred).push(x),
        !pred(x) ==> s.push(x).filter(pred) == s.filter(pred),
{
    reveal(Seq::filter);
    let t = s.push(x);
    assert(t.drop_last() =~= s);
    assert(t.last() == x);
    assert(t.filter(pred) == if pred(t.last()) {
        t.drop_last().filter(pred).push(t.last())
    } else {
        t.drop_last().filter(pred)
    });
}

/// Every element of a filtered sequence occurs in the original and
/// satisfies the predicate.
pub proof fn lemma_filter_member<A>(s: Seq<A>, pred: spec_fn(A) -> bool, k: int)
    requires
        0 <= k < s.filter(pred).len(),
    ensures
        exists|i: int| 0 <= i < s.len() && #[trigger] s[i] == s.filter(pred)[k] && pred(s[i]),
    decreases s.len(),
{
    reveal(Seq::filter);
    let f = s.filter(pred);
    let sub = s.drop_last().filter(pred);
    if pred(s.last()) && k == sub.len() {
        assert(f[k] == s.last());
        assert(s[s.len() - 1] == f[k]);
    } else {
        lemma_filter_member(s.drop_last(), pred, k);
        let i = choose|i: int|
            0 <= i < s.drop_last().len() && #[trigger] s.drop_last()[i] == sub[k] && pred(
                s.drop_last()[i],
            );
        assert(s[i] == sub[k]);
    }
}

/// The relative key of a file: its components joined with `/`.
pub fn join_components(components: &Vec<Vec<u8>>) -> (out: Vec<u8>)
    ensures
        out@ == join_key(components@.map_values(|c: Vec<u8>| c@)),
{
    let ghost comps = components@.map_values(|c: Vec<u8>| c@);
    let mut out: Vec<u8> = Vec::new();
    let mut i: usize = 0;
    while i < components.len()
        invariant
            i <= components.len(),
            comps == components@.map_values(|c: Vec<u8>| c@),
            out@ == join_key(comps.take(i as int)),
        decreases components.len() - i,
    {
        if i > 0 {
            out.push(47);
        }
        append_bytes(&mut out, &components[i]);
        proof {
            assert(comps.take(i + 1).drop_last() =~= comps.take(i as int));
            assert(comps.take(i + 1).last() == comps[i as int]);
            if i == 0 {
                assert(join_key(comps.take(1)) == comps[0]);
                assert(out@ =~= comps[0]);
            } else {
                assert(join_key(comps.take(i + 1)) == join_key(comps.take(i as int)) + seq![47u8]
                    + comps[i as int]);
                assert(out@ =~= join_key(comps.take(i as int)) + seq![47u8] + comps[i as int]);
            }
        }
        i += 1;
    }
    proof {
        assert(comps.take(comps.len() as int) =~= comps);
    }
    out
}

/// Whether `name` occurs in `names`.
pub fn name_in(names: &Vec<Vec<u8>>, name: &Vec<u8>) -> (r: bool)
    ensures
        r == exists|j: int| 0 <= j < names@.len() && (#[trigger] names_view(names@)[j]) == name@,
{
    let mut j: usize = 0;
    while j < names.len()
        invariant
            j <= names.len(),
            forall|m: int| 0 <= m < j ==> (#[trigger] names_view(names@)[m]) != name@,
        decreases names.len() - j,
    {
        if bytes_eq(&names[j], name) {
            proof {
                assert(names_view(names@)[j as int] == name@);
            }
            return true;
        }
        j += 1;
    }
    false
}

/// Whether the ignore rule excludes a raw file: some directory component
/// of its path matches an ignored name.
pub fn is_excluded(file: &RawFile, ignored: &Vec<Vec<u8>>) -> (r: bool)
    ensures
        r == has_ignored_dir(file@.0, names_view(ignored@)),
{
    if file.components.len() == 0 {
        return false;
    }
    let dirs = file.components.len() - 1;
    let mut i: usize = 0;
    while i < dirs
        invariant
            i <= dirs,
            dirs == file.components.len() - 1,
            forall|m: int, j: int|
                0 <= m < i && 0 <= j < ignored@.len() ==> (#[trigger] file@.0[m])
                    != (#[trigger] names_view(ignored@)[j]),
        decreases dirs - i,
    {
        if name_in(ignored, &file.components[i]) {
            proof {
                let j = choose|j: int|
                    0 <= j < ignored@.len() && (#[trigger] names_view(ignored@)[j])
                        == file.components[i as int]@;
                assert(file@.0[i as int] == file.components[i as int]@);
                assert(has_ignored_dir(file@.0, names_view(ignored@)));
            }
            return true;
        }
        i += 1;
    }
    false
}

/// Builds the local inventory from a snapshot of the tree under the sync
/// root: drops every file with an ignored directory component, joins the
/// remaining files' components into relative keys, and fingerprints their
/// contents. Enumeration order is kept.
pub fn build_inventory(files: &Vec<RawFile>, ignored: &Vec<Vec<u8>>) -> (inv: Vec<LocalFile>)
    ensures
        inv_view(inv@) == inventory_spec(raw_view(files@), names_view(ignored@)),
{
    let ghost raws = raw_view(files@);
    let ghost names = names_view(ignored@);
    let mut inv: Vec<LocalFile> = Vec::new();
    let mut i: usize = 0;
    proof {
        assert(raws.take(0) =~= Seq::<(Seq<Seq<u8>>, Seq<u8>)>::empty());
        assert(inv_view(inv@) =~= inventory_spec(raws.take(0), names));
    }
    while i < files.len()
        invariant
            i <= files.len(),
            raws == raw_view(files@),
            names == names_view(ignored@),
            inv_view(inv@) == inventory_spec(raws.take(i as int), names),
        decreases files.len() - i,
    {
        let ghost done = raws.take(i as int);
        proof {
            assert(done.push(raws[i as int]) =~= raws.take(i + 1));
            lemma_filter_push(done, raws[i as int], kept(names));
            assert(raws[i as int] == files@[i as int]@);
        }
        if !is_excluded(&files[i], ignored) {
            let relative_key = join_components(&files[i].components);
            let fp = fingerprint(&files[i].content);
            let entry = LocalFile { relative_key, fingerprint: fp };
            proof {
                assert(entry@ == to_local(raws[i as int]));
            }
            inv.push(entry);
            proof {
                assert(inv_view(inv@) =~= inventory_spec(done, names).push(
                    to_local(raws[i as int]),
                ));
                assert(inventory_spec(raws.take(i + 1), names) =~= inventory_spec(done, names).push(
                    to_local(raws[i as int]),
                ));
            }
        } else {
            proof {
                assert(inventory_spec(raws.take(i + 1), names) =~= inventory_spec(done, names));
            }
        }
        i += 1;
    }
    proof {
        assert(raws.take(files@.len() as int) =~= raws);
    }
    inv
}

/// Whether an inventory entry stems from some file of the snapshot that
/// no ignored directory name excludes.
pub open spec fn from_kept_file(
    files: Seq<(Seq<Seq<u8>>, Seq<u8>)>,
    ignored: Seq<Seq<u8>>,
    p: (Seq<u8>, Seq<u8>),
) -> bool {
    exists|i: int|
        0 <= i < files.len() && !has_ignored_dir((#[trigger] files[i]).0, ignored) && p == to_local(
            files[i],
        )
}

/// Ignore semantics: every entry of the inventory stems from a file none
/// of whose directory components is ignored; a directory whose name is in
/// the ignore set, at whatever depth, contributes nothing to it.
pub proof fn lemma_ignored_excluded(files: Seq<(Seq<Seq<u8>>, Seq<u8>)>, ignored: Seq<Seq<u8>>)
    ensures
        forall|k: int|
            0 <= k < inventory_spec(files, ignored).len() ==> from_kept_file(
                files,
                ignored,
                #[trigger] inventory_spec(files, ignored)[k],
            ),
{
    let kept_files = files.filter(kept(ignored));
    assert forall|k: int| 0 <= k < inventory_spec(files, ignored).len() implies from_kept_file(
        files,
        ignored,
        inventory_spec(files, ignored)[k],
    ) by {
        lemma_filter_member(files, kept(ignored), k);
        let i = choose|i: int|
            0 <= i < files.len() && #[trigger] files[i] == kept_files[k] && kept(ignored)(files[i]);
        assert(inventory_spec(files, ignored)[k] == to_local(files[i]));
        assert(!has_ignored_dir(files[i].0, ignored));
    }
}

} // verus!

//! Relative keys. A file's identity for remote comparison is its path
//! relative to the sync root, with path separators normalized to forward
//! slashes. The key must not depend on the platform's separator
//! convention, so backslashes are rewritten to slashes.

use vstd::prelude::*;

verus! {

/// Path separators normalized: every backslash becomes a forward slash.
pub open spec fn norm_seps(s: Seq<u8>) -> Seq<u8> {
    s.map_values(
        |b: u8|
            if b == 92 {
                47u8
            } else {
                b
            },
    )
}

/// One leading path separator (slash or backslash) removed, if present.
pub open spec fn strip_lead_sep(s: Seq<u8>) -> Seq<u8> {
    if s.len() > 0 && (s[0] == 47 || s[0] == 92) {
        s.drop_first()
    } else {
        s
    }
}

/// Whether `root` is a prefix of `path`.
pub open spec fn is_prefix(root: Seq<u8>, path: Seq<u8>) -> bool {
    path.len() >= root.len() && path.subrange(0, root.len() as int) == root
}

/// The relative key of a path under a root: the root prefix removed, one
/// separator after it removed, the rest separator-normalized.
pub open spec fn rel_key_spec(path: Seq<u8>, root: Seq<u8>) -> Seq<u8> {
    norm_seps(strip_lead_sep(path.skip(root.len() as int)))
}

/// A backslash byte made a slash byte.
fn norm_byte(b: u8) -> (r: u8)
    ensures
        r == if b == 92 {
            47u8
        } else {
            b
        },
{
    if b == 92 {
        47
    } else {
        b
    }
}

/// Derives the relative key of `path` under `root`: strips the root
/// prefix and the separator that follows it, and normalizes the
/// remaining separators. Nothing is derived when `root` is not a prefix
/// of `path` at all.
pub fn relative_key(path: &Vec<u8>, root: &Vec<u8>) -> (r: Option<Vec<u8>>)
    ensures
        match r {
            Some(key) => is_prefix(root@, path@) && key@ == rel_key_spec(path@, root@),
            None => !is_prefix(root@, path@),
        },
{
    if path.len() < root.len() {
        return None;
    }
    let mut i: usize = 0;
    while i < root.len()
        invariant
            i <= root.len() <= path.len(),
            forall|m: int| 0 <= m < i ==> path@[m] == root@[m],
        decreases root.len() - i,
    {
        if path[i] != root[i] {
            proof {
                assert(path@.subrange(0, root@.len() as int)[i as int] != root@[i as int]);
            }
            return None;
        }
        i += 1;
    }
    proof {
        assert(path@.subrange(0, root@.len() as int) =~= root@);
    }
    let start = if root.len() < path.len() && (path[root.len()] == 47 || path[root.len()] == 92) {
        root.len() + 1
    } else {
        root.len()
    };
    proof {
        assert(path@.skip(start as int) =~= strip_lead_sep(path@.skip(root@.len() as int)));
    }
    let mut out: Vec<u8> = Vec::new();
    let mut j: usize = start;
    while j < path.len()
        invariant
            start <= j <= path@.len(),
            out@ == norm_seps(path@.subrange(start as int, j as int)),
        decreases path.len() - j,
    {
        out.push(norm_byte(path[j]));
        proof {
            assert(out@ =~= norm_seps(path@.subrange(start as int, j + 1)));
        }
        j += 1;
    }
    proof {
        assert(path@.subrange(start as int, path@.len() as int) =~= path@.skip(start as int));
    }
    Some(out)
}

/// Normalizes the separators of a path: backslashes become slashes.
pub fn normalize_separators(path: &Vec<u8>) -> (out: Vec<u8>)
    ensures
        out@ == norm_seps(path@),
{
    let mut out: Vec<u8> = Vec::new();
    let mut j: usize = 0;
    while j < path.len()
        invariant
            j <= path@.len(),
            out@ == norm_seps(path@.take(j as int)),
        decreases path.len() - j,
    {
        out.push(norm_byte(path[j]));
        proof {
            assert(out@ =~= norm_seps(path@.take(j + 1)));
        }
        j += 1;
    }
    proof {
        assert(path@.take(path@.len() as int) =~= path@);
    }
    out
}

} // verus!

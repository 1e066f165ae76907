//! The manifest: the record of `relative key -> fingerprint` that the
//! remote store holds, together with its line-oriented wire format.
//!
//! One line per entry, `<key> <fingerprint>` followed by a newline. Keys
//! containing whitespace are not representable in this format; a line with
//! fewer than two tokens is silently skipped when parsing (tolerance for
//! trailing blank lines), and when a key repeats the last occurrence wins.

use vstd::prelude::*;
use crate::bytes::{append_bytes, bytes_eq, copy_range};

verus! {

/// A single manifest entry: a relative key and the fingerprint recorded
/// for it.
pub struct ManifestEntry {
    pub key: Vec<u8>,
    pub fingerprint: Vec<u8>,
}

impl View for ManifestEntry {
    type V = (Seq<u8>, Seq<u8>);

    open spec fn view(&self) -> (Seq<u8>, Seq<u8>) {
        (self.key@, self.fingerprint@)
    }
}

/// The manifest as a list of entries, in serialization order. Duplicate
/// keys may occur in the list (a parsed body may repeat a key); the
/// mapping it denotes keeps the last occurrence, see [`map_of`].
pub struct Manifest {
    pub entries: Vec<ManifestEntry>,
}

impl View for Manifest {
    type V = Seq<(Seq<u8>, Seq<u8>)>;

    open spec fn view(&self) -> Seq<(Seq<u8>, Seq<u8>)> {
        self.entries@.map_values(|e: ManifestEntry| e@)
    }
}

/// The mapping a list of entries denotes: later occurrences of a key
/// override earlier ones.
pub open spec fn map_of(es: Seq<(Seq<u8>, Seq<u8>)>) -> Map<Seq<u8>, Seq<u8>>
    decreases es.len(),
{
    if es.len() == 0 {
        Map::empty()
    } else {
        map_of(es.drop_last()).insert(es.last().0, es.last().1)
    }
}

/// A key is in the mapping exactly when some entry carries it.
pub proof fn lemma_map_of_dom(es: Seq<(Seq<u8>, Seq<u8>)>, k: Seq<u8>)
    ensures
        map_of(es).contains_key(k) <==> exists|i: int| 0 <= i < es.len() && (#[trigger] es[i]).0 == k,
    decreases es.len(),
{
    if es.len() > 0 {
        lemma_map_of_dom(es.drop_last(), k);
        if es.last().0 == k {
            assert(es[es.len() - 1].0 == k);
        } else if map_of(es).contains_key(k) {
            let i = choose|i: int| 0 <= i < es.drop_last().len() && (#[trigger] es.drop_last()[i]).0 == k;
            assert(es[i].0 == k);
        } else {
            assert forall|i: int| 0 <= i < es.len() implies (#[trigger] es[i]).0 != k by {
                if i < es.len() - 1 {
                    assert(es.drop_last()[i] == es[i]);
                }
            }
        }
    }
}

/// The value the mapping gives a key is the one of its last occurrence.
pub proof fn lemma_map_of_value(es: Seq<(Seq<u8>, Seq<u8>)>, i: int)
    requires
        0 <= i < es.len(),
        forall|j: int| i < j < es.len() ==> (#[trigger] es[j]).0 != es[i].0,
    ensures
        map_of(es).contains_key(es[i].0),
        map_of(es)[es[i].0] == es[i].1,
    decreases es.len(),
{
    if i == es.len() - 1 {
    } else {
        assert(es.drop_last()[i] == es[i]);
        lemma_map_of_value(es.drop_last(), i);
    }
}

/// Appending an entry overrides the key in the mapping.
pub proof fn lemma_map_of_push(es: Seq<(Seq<u8>, Seq<u8>)>, e: (Seq<u8>, Seq<u8>))
    ensures
        map_of(es.push(e)) == map_of(es).insert(e.0, e.1),
{
    assert(es.push(e).drop_last() =~= es);
}

/// A whitespace byte for the purposes of the wire format: space, tab or
/// carriage return. The line separator (newline) is treated separately.
pub open spec fn is_space(b: u8) -> bool {
    b == 32 || b == 9 || b == 13
}

/// A byte sequence usable as a single token on a manifest line: nonempty,
/// no whitespace, no newline.
pub open spec fn wf_token(s: Seq<u8>) -> bool {
    s.len() > 0 && forall|i: int| 0 <= i < s.len() ==> !is_space(#[trigger] s[i]) && s[i] != 10
}

/// Entries whose keys and fingerprints the wire format can carry.
pub open spec fn wf_entries(es: Seq<(Seq<u8>, Seq<u8>)>) -> bool {
    forall|i: int| 0 <= i < es.len() ==> wf_token((#[trigger] es[i]).0) && wf_token(es[i].1)
}

/// The serialized form of one entry: key, space, fingerprint, newline.
pub open spec fn line_bytes(e: (Seq<u8>, Seq<u8>)) -> Seq<u8> {
    e.0 + seq![32u8] + e.1 + seq![10u8]
}

/// The serialized form of a list of entries, one line per entry, in order.
pub open spec fn serialize_spec(es: Seq<(Seq<u8>, Seq<u8>)>) -> Seq<u8>
    decreases es.len(),
{
    if es.len() == 0 {
        Seq::empty()
    } else {
        line_bytes(es[0]) + serialize_spec(es.drop_first())
    }
}

/// The longest whitespace prefix of `s`, removed.
pub open spec fn skip_spaces(s: Seq<u8>) -> Seq<u8>
    decreases s.len(),
{
    if s.len() > 0 && is_space(s[0]) {
        skip_spaces(s.drop_first())
    } else {
        s
    }
}

/// The longest non-whitespace prefix of `s`.
pub open spec fn token_of(s: Seq<u8>) -> Seq<u8>
    decreases s.len(),
{
    if s.len() > 0 && !is_space(s[0]) {
        seq![s[0]] + token_of(s.drop_first())
    } else {
        Seq::empty()
    }
}

/// What remains of `s` after its longest non-whitespace prefix.
pub open spec fn after_token(s: Seq<u8>) -> Seq<u8>
    decreases s.len(),
{
    if s.len() > 0 && !is_space(s[0]) {
        after_token(s.drop_first())
    } else {
        s
    }
}

/// The first line of `s`: everything before the first newline, or all of
/// `s` if it has none.
pub open spec fn line_of(s: Seq<u8>) -> Seq<u8>
    decreases s.len(),
{
    if s.len() > 0 && s[0] != 10 {
        seq![s[0]] + line_of(s.drop_first())
    } else {
        Seq::empty()
    }
}

/// What remains of `s` after its first line and the newline that ends it;
/// empty if `s` has no newline.
pub open spec fn after_line(s: Seq<u8>) -> Seq<u8>
    decreases s.len(),
{
    if s.len() == 0 {
        s
    } else if s[0] == 10 {
        s.drop_first()
    } else {
        after_line(s.drop_first())
    }
}

/// The entry a single line denotes: its first two whitespace-separated
/// tokens, or nothing if it has fewer than two. Tokens beyond the second
/// are ignored.
pub open spec fn line_entry(line: Seq<u8>) -> Option<(Seq<u8>, Seq<u8>)> {
    let first = token_of(skip_spaces(line));
    let rest = after_token(skip_spaces(line));
    let second = token_of(skip_spaces(rest));
    if first.len() > 0 && second.len() > 0 {
        Some((first, second))
    } else {
        None
    }
}

/// Consuming a line shortens the input.
proof fn lemma_after_line_len(s: Seq<u8>)
    ensures
        s.len() > 0 ==> after_line(s).len() < s.len(),
    decreases s.len(),
{
    if s.len() > 0 && s[0] != 10 {
        lemma_after_line_len(s.drop_first());
        assert(s.drop_first().len() == s.len() - 1);
        assert(after_line(s) == after_line(s.drop_first()));
        if s.drop_first().len() == 0 {
            assert(after_line(s.drop_first()).len() == 0);
        }
    }
}

/// The entries a manifest body denotes, line by line, in order. Lines with
/// fewer than two tokens contribute nothing.
pub open spec fn parse_spec(s: Seq<u8>) -> Seq<(Seq<u8>, Seq<u8>)>
    decreases s.len(),
    via parse_spec_decreases
{
    if s.len() == 0 {
        Seq::empty()
    } else {
        let head: Seq<(Seq<u8>, Seq<u8>)> = match line_entry(line_of(s)) {
            Some(e) => seq![e],
            None => Seq::empty(),
        };
        head + parse_spec(after_line(s))
    }
}

#[via_fn]
proof fn parse_spec_decreases(s: Seq<u8>) {
    lemma_after_line_len(s);
}

/// Tokenizing a whitespace-free prefix stops exactly at the whitespace
/// (or at the end) that follows it.
proof fn lemma_token_concat(k: Seq<u8>, rest: Seq<u8>)
    requires
        forall|i: int| 0 <= i < k.len() ==> !is_space(#[trigger] k[i]),
        rest.len() == 0 || is_space(rest[0]),
    ensures
        token_of(k + rest) == k,
        after_token(k + rest) == rest,
    decreases k.len(),
{
    if k.len() == 0 {
        assert(k + rest =~= rest);
    } else {
        assert((k + rest)[0] == k[0]);
        assert((k + rest).drop_first() =~= k.drop_first() + rest);
        lemma_token_concat(k.drop_first(), rest);
        assert(token_of(k + rest) =~= k);
    }
}

/// Splitting off the first line of `line + newline + rest` yields `line`
/// and `rest`, provided `line` holds no newline itself.
proof fn lemma_line_concat(line: Seq<u8>, rest: Seq<u8>)
    requires
        forall|i: int| 0 <= i < line.len() ==> (#[trigger] line[i]) != 10,
    ensures
        line_of(line + seq![10u8] + rest) == line,
        after_line(line + seq![10u8] + rest) == rest,
    decreases line.len(),
{
    let s = line + seq![10u8] + rest;
    if line.len() == 0 {
        assert(s[0] == 10);
        assert(s.drop_first() =~= rest);
    } else {
        assert(s[0] == line[0]);
        assert(s.drop_first() =~= line.drop_first() + seq![10u8] + rest);
        lemma_line_concat(line.drop_first(), rest);
        assert(line_of(s) =~= line);
    }
}

/// A line made of two well-formed tokens denotes exactly that pair.
proof fn lemma_line_entry_round(k: Seq<u8>, v: Seq<u8>)
    requires
        wf_token(k),
        wf_token(v),
    ensures
        line_entry(k + seq![32u8] + v) == Some((k, v)),
{
    let line = k + seq![32u8] + v;
    assert(!is_space(line[0]));
    assert(skip_spaces(line) == line);
    assert(line =~= k + (seq![32u8] + v));
    lemma_token_concat(k, seq![32u8] + v);
    let rest = seq![32u8] + v;
    assert(is_space(rest[0]));
    assert(skip_spaces(rest) == skip_spaces(rest.drop_first()));
    assert(rest.drop_first() =~= v);
    assert(!is_space(v[0]));
    assert(skip_spaces(v) == v);
    assert(v =~= v + Seq::<u8>::empty());
    lemma_token_concat(v, Seq::empty());
}

/// Round trip of the wire format: parsing a serialized entry list yields
/// the same list, entry for entry and in the same order, whenever every
/// key and fingerprint is nonempty and free of whitespace and newlines.
pub proof fn lemma_parse_serialize(es: Seq<(Seq<u8>, Seq<u8>)>)
    requires
        wf_entries(es),
    ensures
        parse_spec(serialize_spec(es)) == es,
    decreases es.len(),
{
    if es.len() == 0 {
    } else {
        let k = es[0].0;
        let v = es[0].1;
        let tail = serialize_spec(es.drop_first());
        let s = serialize_spec(es);
        let line = k + seq![32u8] + v;
        assert(s == line_bytes(es[0]) + tail);
        assert(s =~= line + seq![10u8] + tail);
        assert(forall|i: int| 0 <= i < line.len() ==> (#[trigger] line[i]) != 10);
        lemma_line_concat(line, tail);
        lemma_line_entry_round(k, v);
        assert(s.len() > 0);
        assert(wf_entries(es.drop_first())) by {
            assert(forall|i: int|
                0 <= i < es.drop_first().len() ==> (#[trigger] es.drop_first()[i]) == es[i + 1]);
        }
        lemma_parse_serialize(es.drop_first());
        assert(parse_spec(s) =~= es);
    }
}

/// Serializing one more entry appends one more line.
proof fn lemma_serialize_snoc(es: Seq<(Seq<u8>, Seq<u8>)>, e: (Seq<u8>, Seq<u8>))
    ensures
        serialize_spec(es.push(e)) == serialize_spec(es) + line_bytes(e),
    decreases es.len(),
{
    if es.len() == 0 {
        assert(es.push(e)[0] == e);
        assert(es.push(e).drop_first() =~= Seq::<(Seq<u8>, Seq<u8>)>::empty());
        assert(serialize_spec(es.push(e)) == line_bytes(e) + serialize_spec(
            Seq::<(Seq<u8>, Seq<u8>)>::empty(),
        ));
        assert(serialize_spec(Seq::<(Seq<u8>, Seq<u8>)>::empty()) == Seq::<u8>::empty());
        assert(line_bytes(e) + Seq::<u8>::empty() =~= Seq::<u8>::empty() + line_bytes(e));
    } else {
        assert(es.push(e)[0] == es[0]);
        assert(es.push(e).drop_first() =~= es.drop_first().push(e));
        lemma_serialize_snoc(es.drop_first(), e);
        assert(serialize_spec(es.push(e)) == line_bytes(es[0]) + serialize_spec(
            es.drop_first().push(e),
        ));
        assert(line_bytes(es[0]) + (serialize_spec(es.drop_first()) + line_bytes(e)) =~= (line_bytes(
            es[0],
        ) + serialize_spec(es.drop_first())) + line_bytes(e));
    }
}

/// A scan that stopped at the first newline at or past `i` identifies the
/// first line of the suffix starting at `i`, and what follows it.
proof fn lemma_scan_line(s: Seq<u8>, i: int, j: int)
    requires
        0 <= i <= j <= s.len(),
        forall|m: int| i <= m < j ==> (#[trigger] s[m]) != 10,
        j == s.len() || s[j] == 10,
    ensures
        line_of(s.skip(i)) == s.subrange(i, j),
        after_line(s.skip(i)) == if j < s.len() {
            s.skip(j + 1)
        } else {
            Seq::<u8>::empty()
        },
    decreases j - i,
{
    let t = s.skip(i);
    if i == j {
        if j == s.len() {
            assert(t.len() == 0);
            assert(line_of(t) =~= s.subrange(i, j));
        } else {
            assert(t[0] == s[i]);
            assert(line_of(t) =~= s.subrange(i, j));
            assert(t.drop_first() =~= s.skip(j + 1));
        }
    } else {
        assert(t[0] == s[i]);
        assert(t.drop_first() =~= s.skip(i + 1));
        lemma_scan_line(s, i + 1, j);
        assert(line_of(t) =~= s.subrange(i, j));
    }
}

/// A scan that stopped at the first non-whitespace byte at or past `i`
/// (within `limit`) identifies where the spaces of the range end.
proof fn lemma_scan_spaces(s: Seq<u8>, i: int, j: int, limit: int)
    requires
        0 <= i <= j <= limit <= s.len(),
        forall|m: int| i <= m < j ==> is_space(#[trigger] s[m]),
        j == limit || !is_space(s[j]),
    ensures
        skip_spaces(s.subrange(i, limit)) == s.subrange(j, limit),
    decreases j - i,
{
    let t = s.subrange(i, limit);
    if i == j {
        if i < limit {
            assert(t[0] == s[i]);
        }
        assert(skip_spaces(t) == t);
    } else {
        assert(t[0] == s[i]);
        assert(t.drop_first() =~= s.subrange(i + 1, limit));
        lemma_scan_spaces(s, i + 1, j, limit);
    }
}

/// A scan that stopped at the first whitespace byte at or past `i`
/// (within `limit`) identifies the token of the range and its remainder.
proof fn lemma_scan_token(s: Seq<u8>, i: int, j: int, limit: int)
    requires
        0 <= i <= j <= limit <= s.len(),
        forall|m: int| i <= m < j ==> !is_space(#[trigger] s[m]),
        j == limit || is_space(s[j]),
    ensures
        token_of(s.subrange(i, limit)) == s.subrange(i, j),
        after_token(s.subrange(i, limit)) == s.subrange(j, limit),
    decreases j - i,
{
    let t = s.subrange(i, limit);
    if i == j {
        if i < limit {
            assert(t[0] == s[i]);
        }
        assert(token_of(t) =~= s.subrange(i, j));
        assert(after_token(t) == t);
    } else {
        assert(t[0] == s[i]);
        assert(t.drop_first() =~= s.subrange(i + 1, limit));
        lemma_scan_token(s, i + 1, j, limit);
        assert(token_of(t) =~= s.subrange(i, j));
    }
}

/// Whether `b` counts as whitespace in the wire format.
fn is_space_byte(b: u8) -> (r: bool)
    ensures
        r == is_space(b),
{
    b == 32 || b == 9 || b == 13
}

/// The index of the first newline at or past `start`, or the length.
fn find_line_end(s: &Vec<u8>, start: usize) -> (end: usize)
    requires
        start <= s@.len(),
    ensures
        start <= end <= s@.len(),
        forall|m: int| start <= m < end ==> s@[m] != 10,
        end == s@.len() || s@[end as int] == 10,
{
    let mut i: usize = start;
    while i < s.len()
        invariant
            start <= i <= s@.len(),
            forall|m: int| start <= m < i ==> s@[m] != 10,
        decreases s@.len() - i,
    {
        if s[i] == 10 {
            return i;
        }
        i += 1;
    }
    i
}

/// The index of the first non-whitespace byte in `[start, limit)`, or
/// `limit`.
fn scan_spaces(s: &Vec<u8>, start: usize, limit: usize) -> (j: usize)
    requires
        start <= limit <= s@.len(),
    ensures
        start <= j <= limit,
        forall|m: int| start <= m < j ==> is_space(s@[m]),
        j == limit || !is_space(s@[j as int]),
{
    let mut i: usize = start;
    while i < limit
        invariant
            start <= i <= limit <= s@.len(),
            forall|m: int| start <= m < i ==> is_space(s@[m]),
        decreases limit - i,
    {
        if !is_space_byte(s[i]) {
            return i;
        }
        i += 1;
    }
    i
}

/// The index of the first whitespace byte in `[start, limit)`, or `limit`.
fn scan_token(s: &Vec<u8>, start: usize, limit: usize) -> (j: usize)
    requires
        start <= limit <= s@.len(),
    ensures
        start <= j <= limit,
        forall|m: int| start <= m < j ==> !is_space(s@[m]),
        j == limit || is_space(s@[j as int]),
{
    let mut i: usize = start;
    while i < limit
        invariant
            start <= i <= limit <= s@.len(),
            forall|m: int| start <= m < i ==> !is_space(s@[m]),
        decreases limit - i,
    {
        if is_space_byte(s[i]) {
            return i;
        }
        i += 1;
    }
    i
}

/// The view of a list of entries as a list of key/fingerprint pairs.
pub open spec fn entries_view(es: Seq<ManifestEntry>) -> Seq<(Seq<u8>, Seq<u8>)> {
    es.map_values(|e: ManifestEntry| e@)
}

impl Manifest {
    /// An empty manifest: no prior sync has recorded anything.
    pub fn new() -> (m: Manifest)
        ensures
            m@ == Seq::<(Seq<u8>, Seq<u8>)>::empty(),
    {
        let m = Manifest { entries: Vec::new() };
        proof {
            assert(m@ =~= Seq::<(Seq<u8>, Seq<u8>)>::empty());
        }
        m
    }

    /// Appends an entry; in the mapping the manifest denotes, the new
    /// value overrides any earlier one for the same key.
    pub fn insert(&mut self, key: Vec<u8>, fingerprint: Vec<u8>)
        ensures
            final(self)@ == old(self)@.push((key@, fingerprint@)),
            map_of(final(self)@) == map_of(old(self)@).insert(key@, fingerprint@),
    {
        let ghost k = key@;
        let ghost f = fingerprint@;
        self.entries.push(ManifestEntry { key, fingerprint });
        proof {
            assert(self@ =~= old(self)@.push((k, f)));
            lemma_map_of_push(old(self)@, (k, f));
        }
    }

    /// The fingerprint the manifest records for `key`, if any. When a key
    /// occurs more than once, the last occurrence wins.
    pub fn lookup(&self, key: &Vec<u8>) -> (r: Option<Vec<u8>>)
        ensures
            match r {
                Some(v) => map_of(self@).contains_key(key@) && v@ == map_of(self@)[key@],
                None => !map_of(self@).contains_key(key@),
            },
    {
        let n = self.entries.len();
        let mut i: usize = n;
        while i > 0
            invariant
                i <= n,
                n == self.entries.len(),
                forall|j: int| i <= j < n ==> (#[trigger] self@[j]).0 != key@,
            decreases i,
        {
            i -= 1;
            if bytes_eq(&self.entries[i].key, key) {
                proof {
                    assert(self@[i as int].0 == key@);
                    lemma_map_of_value(self@, i as int);
                }
                return Some(crate::bytes::clone_bytes(&self.entries[i].fingerprint));
            }
        }
        proof {
            lemma_map_of_dom(self@, key@);
        }
        None
    }

    /// The wire form of the manifest: one line per entry, in entry order.
    pub fn serialize(&self) -> (out: Vec<u8>)
        ensures
            out@ == serialize_spec(self@),
    {
        let mut out: Vec<u8> = Vec::new();
        let mut idx: usize = 0;
        while idx < self.entries.len()
            invariant
                idx <= self.entries.len(),
                out@ == serialize_spec(self@.take(idx as int)),
            decreases self.entries.len() - idx,
        {
            let ghost done = self@.take(idx as int);
            append_bytes(&mut out, &self.entries[idx].key);
            out.push(32);
            append_bytes(&mut out, &self.entries[idx].fingerprint);
            out.push(10);
            proof {
                lemma_serialize_snoc(done, self@[idx as int]);
                assert(done.push(self@[idx as int]) =~= self@.take(idx + 1));
                assert(out@ =~= serialize_spec(done) + line_bytes(self@[idx as int]));
            }
            idx += 1;
        }
        proof {
            assert(self@.take(self.entries.len() as int) =~= self@);
        }
        out
    }

    /// Parses a manifest body: splits it into lines, takes the first two
    /// whitespace-separated tokens of each line as key and fingerprint,
    /// and skips lines with fewer than two tokens.
    pub fn parse(input: &Vec<u8>) -> (m: Manifest)
        ensures
            m@ == parse_spec(input@),
    {
        let mut entries: Vec<ManifestEntry> = Vec::new();
        let mut pos: usize = 0;
        proof {
            assert(input@.skip(0) =~= input@);
            assert(entries_view(entries@) + parse_spec(input@) =~= parse_spec(input@));
        }
        while pos < input.len()
            invariant
                pos <= input@.len(),
                entries_view(entries@) + parse_spec(input@.skip(pos as int)) == parse_spec(input@),
            decreases input@.len() - pos,
        {
            let ghost done = entries_view(entries@);
            let ghost suffix = input@.skip(pos as int);
            let line_end = find_line_end(input, pos);
            let t1s = scan_spaces(input, pos, line_end);
            let t1e = scan_token(input, t1s, line_end);
            let t2s = scan_spaces(input, t1e, line_end);
            let t2e = scan_token(input, t2s, line_end);
            proof {
                lemma_scan_line(input@, pos as int, line_end as int);
                lemma_scan_spaces(input@, pos as int, t1s as int, line_end as int);
                lemma_scan_token(input@, t1s as int, t1e as int, line_end as int);
                lemma_scan_spaces(input@, t1e as int, t2s as int, line_end as int);
                lemma_scan_token(input@, t2s as int, t2e as int, line_end as int);
            }
            if t1e > t1s && t2e > t2s {
                let key = copy_range(input, t1s, t1e);
                let fingerprint = copy_range(input, t2s, t2e);
                let ghost e = (key@, fingerprint@);
                entries.push(ManifestEntry { key, fingerprint });
                proof {
                    assert(line_entry(line_of(suffix)) == Some(e));
                    assert(entries_view(entries@) =~= done.push(e));
                    assert(done.push(e) =~= done + seq![e]);
                }
            } else {
                proof {
                    assert(line_entry(line_of(suffix)) is None);
                }
            }
            let next = if line_end < input.len() {
                line_end + 1
            } else {
                line_end
            };
            proof {
                if line_end == input@.len() {
                    assert(input@.skip(next as int) =~= Seq::<u8>::empty());
                }
                assert(after_line(suffix) == input@.skip(next as int));
                assert(entries_view(entries@) + parse_spec(input@.skip(next as int)) =~= parse_spec(
                    input@,
                ));
            }
            pos = next;
        }
        proof {
            assert(input@.skip(input@.len() as int) =~= Seq::<u8>::empty());
            assert(entries_view(entries@) =~= parse_spec(input@));
        }
        let m = Manifest { entries };
        proof {
            assert(m@ =~= entries_view(m.entries@));
        }
        m
    }
}

} // verus!

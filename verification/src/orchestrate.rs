//! The sync run around a built plan: what is uploaded, in what order,
//! under which content type and visibility; the well-known manifest key;
//! and the interpretation of the confirmation answer.
//!
//! An empty plan short-circuits the run with no remote mutation. A
//! confirmed run uploads every modified file, then every new file, each
//! publicly readable under a content type derived from its extension;
//! then the new manifest — built from the complete inventory, not just
//! the uploaded subset — is serialized and uploaded privately under the
//! well-known key. The transport that performs the uploads is a
//! collaborator; it receives the sequence below and replays it in order.

use vstd::prelude::*;
use crate::bytes::bytes_eq;
use crate::bytes::clone_bytes;
use crate::bytes::copy_range;
use crate::inventory::inv_view;
use crate::inventory::LocalFile;
use crate::manifest::Manifest;
use crate::plan::UploadPlan;

verus! {

/// The extension of a relative key: the bytes after the last dot of its
/// last path component; nothing when that component has no dot.
pub open spec fn ext_of(key: Seq<u8>) -> Option<Seq<u8>>
    decreases key.len(),
{
    if key.len() == 0 {
        Option::None
    } else if key.last() == 46 {
        Option::Some(Seq::empty())
    } else if key.last() == 47 {
        Option::None
    } else {
        match ext_of(key.drop_last()) {
            Option::Some(e) => Option::Some(e + seq![key.last()]),
            Option::None => Option::None,
        }
    }
}

/// The content type an extension determines, from the fixed table.
pub open spec fn mime_of_ext(e: Seq<u8>) -> Seq<u8> {
    if e == seq![104u8, 116u8, 109u8, 108u8] {  // html
        seq![116u8, 101u8, 120u8, 116u8, 47u8, 104u8, 116u8, 109u8, 108u8]
    } else if e == seq![99u8, 115u8, 115u8] {  // css
        seq![116u8, 101u8, 120u8, 116u8, 47u8, 99u8, 115u8, 115u8]
    } else if e == seq![112u8, 110u8, 103u8] {  // png
        seq![105u8, 109u8, 97u8, 103u8, 101u8, 47u8, 112u8, 110u8, 103u8]
    } else if e == seq![103u8, 105u8, 102u8] {  // gif
        seq![105u8, 109u8, 97u8, 103u8, 101u8, 47u8, 103u8, 105u8, 102u8]
    } else if e == seq![106u8, 112u8, 103u8] {  // jpg
        seq![105u8, 109u8, 97u8, 103u8, 101u8, 47u8, 106u8, 112u8, 101u8, 103u8]
    } else if e == seq![120u8, 109u8, 108u8] {  // xml
        seq![97u8, 112u8, 112u8, 108u8, 105u8, 99u8, 97u8, 116u8, 105u8, 111u8, 110u8, 47u8, 120u8, 109u8, 108u8]
    } else if e == seq![116u8, 120u8, 116u8] {  // txt
        seq![116u8, 101u8, 120u8, 116u8, 47u8, 112u8, 108u8, 97u8, 105u8, 110u8]
    } else {
        octet_stream()
    }
}

/// The content type a key is uploaded under, from the fixed
/// extension table; `application/octet-stream` for unrecognized or
/// missing extensions.
pub open spec fn mime_of(key: Seq<u8>) -> Seq<u8> {
    match ext_of(key) {
        Option::Some(e) => mime_of_ext(e),
        Option::None => octet_stream(),
    }
}

/// The fallback content type.
pub open spec fn octet_stream() -> Seq<u8> {
    seq![
        97u8, 112u8, 112u8, 108u8, 105u8, 99u8, 97u8, 116u8, 105u8, 111u8, 110u8, 47u8, 111u8,
        99u8, 116u8, 101u8, 116u8, 45u8, 115u8, 116u8, 114u8, 101u8, 97u8, 109u8,
    ]
}

/// The dot the scan stopped at starts the extension.
proof fn lemma_ext_dot(key: Seq<u8>, d: int)
    requires
        0 <= d < key.len(),
        key[d] == 46,
        forall|m: int| d < m < key.len() ==> key[m] != 46 && (#[trigger] key[m]) != 47,
    ensures
        ext_of(key) == Option::Some(key.subrange(d + 1, key.len() as int)),
    decreases key.len(),
{
    if d == key.len() - 1 {
        assert(key.subrange(d + 1, key.len() as int) =~= Seq::<u8>::empty());
    } else {
        lemma_ext_dot(key.drop_last(), d);
        assert(key.drop_last().subrange(d + 1, key.len() - 1) =~= key.subrange(
            d + 1,
            key.len() - 1,
        ));
        assert(key.subrange(d + 1, key.len() - 1) + seq![key.last()] =~= key.subrange(
            d + 1,
            key.len() as int,
        ));
    }
}

/// A slash before any dot ends the scan: the last component has no
/// extension.
proof fn lemma_ext_stop(key: Seq<u8>, d: int)
    requires
        0 <= d < key.len(),
        key[d] == 47,
        forall|m: int| d < m < key.len() ==> key[m] != 46 && (#[trigger] key[m]) != 47,
    ensures
        ext_of(key) is None,
    decreases key.len(),
{
    if d < key.len() - 1 {
        lemma_ext_stop(key.drop_last(), d);
    }
}

/// A key with neither dot nor slash has no extension.
proof fn lemma_ext_absent(key: Seq<u8>)
    requires
        forall|m: int| 0 <= m < key.len() ==> key[m] != 46 && (#[trigger] key[m]) != 47,
    ensures
        ext_of(key) is None,
    decreases key.len(),
{
    if key.len() > 0 {
        lemma_ext_absent(key.drop_last());
    }
}

/// The content type for a relative key, from the fixed extension table.
pub fn mime_for(key: &Vec<u8>) -> (r: Vec<u8>)
    ensures
        r@ == mime_of(key@),
{
    let n = key.len();
    let mut j: usize = n;
    while j > 0
        invariant
            j <= n,
            n == key@.len(),
            forall|m: int| j <= m < n ==> key@[m] != 46 && (#[trigger] key@[m]) != 47,
        decreases j,
    {
        let b = key[j - 1];
        if b == 46 {
            proof {
                lemma_ext_dot(key@, j - 1);
            }
            let ext = copy_range(key, j, n);
            return mime_for_ext(&ext);
        }
        if b == 47 {
            proof {
                lemma_ext_stop(key@, j - 1);
            }
            return octet_stream_bytes();
        }
        j -= 1;
    }
    proof {
        lemma_ext_absent(key@);
    }
    octet_stream_bytes()
}

/// The fallback content type as bytes.
fn octet_stream_bytes() -> (r: Vec<u8>)
    ensures
        r@ == octet_stream(),
{
    let r: Vec<u8> = vec![
        97u8, 112u8, 112u8, 108u8, 105u8, 99u8, 97u8, 116u8, 105u8, 111u8, 110u8, 47u8, 111u8,
        99u8, 116u8, 101u8, 116u8, 45u8, 115u8, 116u8, 114u8, 101u8, 97u8, 109u8,
    ];
    proof {
        assert(r@ =~= octet_stream());
    }
    r
}

/// The content type for an already extracted extension.
fn mime_for_ext(ext: &Vec<u8>) -> (r: Vec<u8>)
    ensures
        r@ == mime_of_ext(ext@),
{
    let pat_html: Vec<u8> = vec![104u8, 116u8, 109u8, 108u8];
    let pat_css: Vec<u8> = vec![99u8, 115u8, 115u8];
    let pat_png: Vec<u8> = vec![112u8, 110u8, 103u8];
    let pat_gif: Vec<u8> = vec![103u8, 105u8, 102u8];
    let pat_jpg: Vec<u8> = vec![106u8, 112u8, 103u8];
    let pat_xml: Vec<u8> = vec![120u8, 109u8, 108u8];
    let pat_txt: Vec<u8> = vec![116u8, 120u8, 116u8];
    proof {
        assert(pat_html@ =~= seq![104u8, 116u8, 109u8, 108u8]);
        assert(pat_css@ =~= seq![99u8, 115u8, 115u8]);
        assert(pat_png@ =~= seq![112u8, 110u8, 103u8]);
        assert(pat_gif@ =~= seq![103u8, 105u8, 102u8]);
        assert(pat_jpg@ =~= seq![106u8, 112u8, 103u8]);
        assert(pat_xml@ =~= seq![120u8, 109u8, 108u8]);
        assert(pat_txt@ =~= seq![116u8, 120u8, 116u8]);
    }
    if bytes_eq(ext, &pat_html) {
        let r: Vec<u8> = vec![116u8, 101u8, 120u8, 116u8, 47u8, 104u8, 116u8, 109u8, 108u8];
        proof {
            assert(r@ =~= seq![116u8, 101u8, 120u8, 116u8, 47u8, 104u8, 116u8, 109u8, 108u8]);
        }
        r
    } else if bytes_eq(ext, &pat_css) {
        let r: Vec<u8> = vec![116u8, 101u8, 120u8, 116u8, 47u8, 99u8, 115u8, 115u8];
        proof {
            assert(r@ =~= seq![116u8, 101u8, 120u8, 116u8, 47u8, 99u8, 115u8, 115u8]);
        }
        r
    } else if bytes_eq(ext, &pat_png) {
        let r: Vec<u8> = vec![105u8, 109u8, 97u8, 103u8, 101u8, 47u8, 112u8, 110u8, 103u8];
        proof {
            assert(r@ =~= seq![105u8, 109u8, 97u8, 103u8, 101u8, 47u8, 112u8, 110u8, 103u8]);
        }
        r
    } else if bytes_eq(ext, &pat_gif) {
        let r: Vec<u8> = vec![105u8, 109u8, 97u8, 103u8, 101u8, 47u8, 103u8, 105u8, 102u8];
        proof {
            assert(r@ =~= seq![105u8, 109u8, 97u8, 103u8, 101u8, 47u8, 103u8, 105u8, 102u8]);
        }
        r
    } else if bytes_eq(ext, &pat_jpg) {
        let r: Vec<u8> = vec![105u8, 109u8, 97u8, 103u8, 101u8, 47u8, 106u8, 112u8, 101u8, 103u8];
        proof {
            assert(r@ =~= seq![105u8, 109u8, 97u8, 103u8, 101u8, 47u8, 106u8, 112u8, 101u8, 103u8]);
        }
        r
    } else if bytes_eq(ext, &pat_xml) {
        let r: Vec<u8> = vec![
            97u8, 112u8, 112u8, 108u8, 105u8, 99u8, 97u8, 116u8, 105u8, 111u8, 110u8, 47u8, 120u8,
            109u8, 108u8,
        ];
        proof {
            assert(r@ =~= seq![97u8, 112u8, 112u8, 108u8, 105u8, 99u8, 97u8, 116u8, 105u8, 111u8, 110u8, 47u8, 120u8, 109u8, 108u8]);
        }
        r
    } else if bytes_eq(ext, &pat_txt) {
        let r: Vec<u8> = vec![116u8, 101u8, 120u8, 116u8, 47u8, 112u8, 108u8, 97u8, 105u8, 110u8];
        proof {
            assert(r@ =~= seq![116u8, 101u8, 120u8, 116u8, 47u8, 112u8, 108u8, 97u8, 105u8, 110u8]);
        }
        r
    } else {
        octet_stream_bytes()
    }
}

/// The visibility string a file is uploaded with: data files are
/// publicly readable, the manifest is private.
pub open spec fn acl_spec(public_read: bool) -> Seq<u8> {
    if public_read {
        seq![112u8, 117u8, 98u8, 108u8, 105u8, 99u8, 45u8, 114u8, 101u8, 97u8, 100u8]
    } else {
        seq![112u8, 114u8, 105u8, 118u8, 97u8, 116u8, 101u8]
    }
}

/// The visibility string as bytes: `public-read` or `private`.
pub fn acl_name(public_read: bool) -> (r: Vec<u8>)
    ensures
        r@ == acl_spec(public_read),
{
    if public_read {
        let r: Vec<u8> = vec![112u8, 117u8, 98u8, 108u8, 105u8, 99u8, 45u8, 114u8, 101u8, 97u8, 100u8];
        proof {
            assert(r@ =~= acl_spec(true));
        }
        r
    } else {
        let r: Vec<u8> = vec![112u8, 114u8, 105u8, 118u8, 97u8, 116u8, 101u8];
        proof {
            assert(r@ =~= acl_spec(false));
        }
        r
    }
}

/// The well-known key of the manifest object.
pub open spec fn manifest_key_spec() -> Seq<u8> {
    seq![99u8, 104u8, 101u8, 99u8, 107u8, 115u8, 117u8, 109u8, 115u8, 46u8, 116u8, 120u8, 116u8]
}

/// The well-known key of the manifest object: `checksums.txt`.
pub fn manifest_object_key() -> (r: Vec<u8>)
    ensures
        r@ == manifest_key_spec(),
{
    let r: Vec<u8> = vec![99u8, 104u8, 101u8, 99u8, 107u8, 115u8, 117u8, 109u8, 115u8, 46u8, 116u8, 120u8, 116u8];
    proof {
        assert(r@ =~= manifest_key_spec());
    }
    r
}

/// The position of the manifest object in a listing of remote keys.
pub fn find_manifest_key(keys: &Vec<Vec<u8>>) -> (r: Option<usize>)
    ensures
        match r {
            Some(i) => i < keys@.len() && keys@[i as int]@ == manifest_key_spec(),
            None => forall|j: int| 0 <= j < keys@.len() ==> (#[trigger] keys@[j])@ != manifest_key_spec(),
        },
{
    let target = manifest_object_key();
    let mut i: usize = 0;
    while i < keys.len()
        invariant
            i <= keys@.len(),
            target@ == manifest_key_spec(),
            forall|j: int| 0 <= j < i ==> (#[trigger] keys@[j])@ != manifest_key_spec(),
        decreases keys.len() - i,
    {
        if bytes_eq(&keys[i], &target) {
            return Some(i);
        }
        i += 1;
    }
    None
}

/// A whitespace byte for the purposes of answer trimming: space, tab,
/// carriage return or newline.
pub open spec fn is_ws(b: u8) -> bool {
    b == 32 || b == 9 || b == 13 || b == 10
}

/// Leading whitespace removed.
pub open spec fn trim_front(s: Seq<u8>) -> Seq<u8>
    decreases s.len(),
{
    if s.len() > 0 && is_ws(s[0]) {
        trim_front(s.drop_first())
    } else {
        s
    }
}

/// Trailing whitespace removed.
pub open spec fn trim_back(s: Seq<u8>) -> Seq<u8>
    decreases s.len(),
{
    if s.len() > 0 && is_ws(s.last()) {
        trim_back(s.drop_last())
    } else {
        s
    }
}

/// ASCII uppercase letters made lowercase.
pub open spec fn lower(s: Seq<u8>) -> Seq<u8> {
    s.map_values(
        |b: u8|
            if 65 <= b <= 90 {
                (b + 32) as u8
            } else {
                b
            },
    )
}

/// What a confirmation answer means, after trimming and lowercasing:
/// an empty answer, `n` or `no` declines; `y` or `yes` accepts; anything
/// else is unrecognized and asks for the prompt again.
pub open spec fn answer_spec(s: Seq<u8>) -> Option<bool> {
    let t = lower(trim_back(trim_front(s)));
    if t.len() == 0 || t == seq![110u8] || t == seq![110u8, 111u8] {
        Option::Some(false)
    } else if t == seq![121u8] || t == seq![121u8, 101u8, 115u8] {
        Option::Some(true)
    } else {
        Option::None
    }
}

/// A scan past the leading whitespace identifies the trimmed front.
proof fn lemma_trim_front(s: Seq<u8>, a: int)
    requires
        0 <= a <= s.len(),
        forall|m: int| 0 <= m < a ==> is_ws(#[trigger] s[m]),
        a == s.len() || !is_ws(s[a]),
    ensures
        trim_front(s) == s.skip(a),
    decreases a,
{
    if a == 0 {
        assert(s.skip(0) =~= s);
    } else {
        assert(is_ws(s[0]));
        assert(s.drop_first() =~= s.skip(1));
        lemma_trim_front(s.skip(1), a - 1);
        assert(s.skip(1).skip(a - 1) =~= s.skip(a));
    }
}

/// A scan past the trailing whitespace identifies the trimmed back.
proof fn lemma_trim_back(s: Seq<u8>, b: int)
    requires
        0 <= b <= s.len(),
        forall|m: int| b <= m < s.len() ==> is_ws(#[trigger] s[m]),
        b == 0 || !is_ws(s[b - 1]),
    ensures
        trim_back(s) == s.take(b),
    decreases s.len(),
{
    if b == s.len() {
        assert(s.take(b) =~= s);
    } else {
        assert(is_ws(s.last()));
        assert(s.drop_last() =~= s.take(s.len() - 1));
        lemma_trim_back(s.take(s.len() - 1), b);
        assert(s.take(s.len() - 1).take(b) =~= s.take(b));
    }
}

/// Whether `b` counts as whitespace in an answer.
fn is_ws_byte(b: u8) -> (r: bool)
    ensures
        r == is_ws(b),
{
    b == 32 || b == 9 || b == 13 || b == 10
}

/// An ASCII uppercase letter made lowercase.
fn lower_byte(b: u8) -> (r: u8)
    ensures
        r == if 65 <= b <= 90 {
            (b + 32) as u8
        } else {
            b
        },
{
    if 65 <= b && b <= 90 {
        b + 32
    } else {
        b
    }
}

/// Interprets one line of answer to the confirmation prompt. Whitespace
/// around the answer is ignored and case does not matter: empty, `n` and
/// `no` decline, `y` and `yes` accept, anything else means the prompt
/// must be asked again.
pub fn parse_confirmation(input: &Vec<u8>) -> (r: Option<bool>)
    ensures
        r == answer_spec(input@),
{
    let mut a: usize = 0;
    while a < input.len() && is_ws_byte(input[a])
        invariant
            a <= input@.len(),
            forall|m: int| 0 <= m < a ==> is_ws(#[trigger] input@[m]),
        decreases input@.len() - a,
    {
        a += 1;
    }
    let mut b: usize = input.len();
    while b > a && is_ws_byte(input[b - 1])
        invariant
            a <= b <= input@.len(),
            forall|m: int| b <= m < input@.len() ==> is_ws(#[trigger] input@[m]),
        decreases b,
    {
        b -= 1;
    }
    proof {
        lemma_trim_front(input@, a as int);
        lemma_trim_back(input@.skip(a as int), b - a);
        assert(input@.skip(a as int).take(b - a) =~= input@.subrange(a as int, b as int));
    }
    let mut t: Vec<u8> = Vec::new();
    let mut k: usize = a;
    while k < b
        invariant
            a <= k <= b <= input@.len(),
            t@ == lower(input@.subrange(a as int, k as int)),
        decreases b - k,
    {
        t.push(lower_byte(input[k]));
        proof {
            assert(t@ =~= lower(input@.subrange(a as int, k + 1)));
        }
        k += 1;
    }
    proof {
        assert(t@ == lower(trim_back(trim_front(input@))));
    }
    let pat_n: Vec<u8> = vec![110u8];
    let pat_no: Vec<u8> = vec![110u8, 111u8];
    let pat_y: Vec<u8> = vec![121u8];
    let pat_yes: Vec<u8> = vec![121u8, 101u8, 115u8];
    proof {
        assert(pat_n@ =~= seq![110u8]);
        assert(pat_no@ =~= seq![110u8, 111u8]);
        assert(pat_y@ =~= seq![121u8]);
        assert(pat_yes@ =~= seq![121u8, 101u8, 115u8]);
    }
    if t.len() == 0 || bytes_eq(&t, &pat_n) || bytes_eq(&t, &pat_no) {
        Some(false)
    } else if bytes_eq(&t, &pat_y) || bytes_eq(&t, &pat_yes) {
        Some(true)
    } else {
        None
    }
}

/// One upload the run performs: the object key, the content type it is
/// sent under, and whether it is publicly readable.
pub struct UploadItem {
    pub relative_key: Vec<u8>,
    pub content_type: Vec<u8>,
    pub public_read: bool,
}

impl View for UploadItem {
    type V = (Seq<u8>, Seq<u8>, bool);

    open spec fn view(&self) -> (Seq<u8>, Seq<u8>, bool) {
        (self.relative_key@, self.content_type@, self.public_read)
    }
}

/// The view of a list of upload items.
pub open spec fn items_view(items: Seq<UploadItem>) -> Seq<(Seq<u8>, Seq<u8>, bool)> {
    items.map_values(|it: UploadItem| it@)
}

/// The uploads a list of data files yields: each under its key's content
/// type, publicly readable.
pub open spec fn items_of(pairs: Seq<(Seq<u8>, Seq<u8>)>) -> Seq<(Seq<u8>, Seq<u8>, bool)> {
    pairs.map_values(|p: (Seq<u8>, Seq<u8>)| (p.0, mime_of(p.0), true))
}

/// The data uploads of a confirmed run, in order: every modified file
/// first, then every new file, each publicly readable under the content
/// type its extension determines. The manifest upload follows them,
/// always last and always private; it is not part of this sequence.
pub fn upload_sequence(plan: &UploadPlan) -> (items: Vec<UploadItem>)
    ensures
        items_view(items@) == items_of(inv_view(plan.modified@)) + items_of(
            inv_view(plan.new_files@),
        ),
{
    let ghost mods = inv_view(plan.modified@);
    let ghost news = inv_view(plan.new_files@);
    let mut items: Vec<UploadItem> = Vec::new();
    let mut i: usize = 0;
    proof {
        assert(mods.take(0) =~= Seq::<(Seq<u8>, Seq<u8>)>::empty());
        assert(items_view(items@) =~= items_of(mods.take(0)));
    }
    while i < plan.modified.len()
        invariant
            i <= plan.modified.len(),
            mods == inv_view(plan.modified@),
            news == inv_view(plan.new_files@),
            items_view(items@) == items_of(mods.take(i as int)),
        decreases plan.modified.len() - i,
    {
        let key = clone_bytes(&plan.modified[i].relative_key);
        let content_type = mime_for(&key);
        let item = UploadItem { relative_key: key, content_type, public_read: true };
        proof {
            assert(mods[i as int] == plan.modified@[i as int]@);
            assert(item@ == (mods[i as int].0, mime_of(mods[i as int].0), true));
        }
        items.push(item);
        proof {
            assert(mods.take(i + 1)[i as int] == mods[i as int]);
            assert(items_view(items@) =~= items_of(mods.take(i as int)).push(
                (mods[i as int].0, mime_of(mods[i as int].0), true),
            ));
            assert(items_of(mods.take(i + 1)) =~= items_of(mods.take(i as int)).push(
                (mods[i as int].0, mime_of(mods[i as int].0), true),
            ));
        }
        i += 1;
    }
    proof {
        assert(mods.take(plan.modified@.len() as int) =~= mods);
    }
    let mut j: usize = 0;
    while j < plan.new_files.len()
        invariant
            j <= plan.new_files.len(),
            mods == inv_view(plan.modified@),
            news == inv_view(plan.new_files@),
            items_view(items@) == items_of(mods) + items_of(news.take(j as int)),
        decreases plan.new_files.len() - j,
    {
        let key = clone_bytes(&plan.new_files[j].relative_key);
        let content_type = mime_for(&key);
        let item = UploadItem { relative_key: key, content_type, public_read: true };
        proof {
            assert(news[j as int] == plan.new_files@[j as int]@);
            assert(item@ == (news[j as int].0, mime_of(news[j as int].0), true));
        }
        items.push(item);
        proof {
            assert(news.take(j + 1)[j as int] == news[j as int]);
            assert(items_view(items@) =~= (items_of(mods) + items_of(news.take(j as int))).push(
                (news[j as int].0, mime_of(news[j as int].0), true),
            ));
            assert(items_of(news.take(j + 1)) =~= items_of(news.take(j as int)).push(
                (news[j as int].0, mime_of(news[j as int].0), true),
            ));
            assert(items_of(mods) + items_of(news.take(j + 1)) =~= (items_of(mods) + items_of(
                news.take(j as int),
            )).push((news[j as int].0, mime_of(news[j as int].0), true)));
        }
        j += 1;
    }
    proof {
        assert(news.take(plan.new_files@.len() as int) =~= news);
    }
    items
}

/// The new manifest a successful run publishes: one entry per inventory
/// file — the complete inventory, not just the uploaded subset — in
/// inventory order.
pub fn build_new_manifest(inventory: &Vec<LocalFile>) -> (m: Manifest)
    ensures
        m@ == inv_view(inventory@),
{
    let ghost pairs = inv_view(inventory@);
    let mut m = Manifest::new();
    let mut i: usize = 0;
    proof {
        assert(pairs.take(0) =~= Seq::<(Seq<u8>, Seq<u8>)>::empty());
    }
    while i < inventory.len()
        invariant
            i <= inventory.len(),
            pairs == inv_view(inventory@),
            m@ == pairs.take(i as int),
        decreases inventory.len() - i,
    {
        let key = clone_bytes(&inventory[i].relative_key);
        let fp = clone_bytes(&inventory[i].fingerprint);
        m.insert(key, fp);
        proof {
            assert(m@ =~= pairs.take(i + 1));
        }
        i += 1;
    }
    proof {
        assert(pairs.take(inventory@.len() as int) =~= pairs);
    }
    m
}

} // verus!

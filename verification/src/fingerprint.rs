//! Content fingerprinting. A fingerprint is the MD5 digest of a file's
//! bytes, rendered as 32 lowercase hexadecimal characters. It serves only
//! for change detection between two points in time, never for security.

use vstd::prelude::*;

verus! {

/// The fingerprint of a byte sequence. The digest itself is computed by an
/// outside crate; this name stands for its result, which depends on the
/// input bytes alone.
pub uninterp spec fn fingerprint_of(bytes: Seq<u8>) -> Seq<u8>;

/// A lowercase ASCII hexadecimal digit.
pub open spec fn is_hex_digit(b: u8) -> bool {
    (48 <= b <= 57) || (97 <= b <= 102)
}

/// A well-formed fingerprint: 32 lowercase hexadecimal characters.
pub open spec fn is_fingerprint(s: Seq<u8>) -> bool {
    s.len() == 32 && forall|i: int| 0 <= i < s.len() ==> is_hex_digit(#[trigger] s[i])
}

/// Relies on crypto::md5::Md5 with crypto::digest::Digest::input and
/// result_str: the digest depends on the input bytes alone, and result_str
/// renders the 16-byte MD5 digest as 32 lowercase hexadecimal characters.
#[verifier::external_body]
pub fn fingerprint(bytes: &Vec<u8>) -> (r: Vec<u8>)
    ensures
        r@ == fingerprint_of(bytes@),
        is_fingerprint(r@),
{
    let mut digest = crypto::md5::Md5::new();
    crypto::digest::Digest::input(&mut digest, bytes.as_slice());
    crypto::digest::Digest::result_str(&mut digest).into_bytes()
}

} // verus!

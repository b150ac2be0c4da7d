//! Content digests: a fixed-size fingerprint of a file's bytes.
use vstd::prelude::*;
use vstd::string::*;

verus! {

/// The MD5 digest of `b`, written as lowercase hexadecimal.
pub uninterp spec fn md5_hex_of(b: Seq<u8>) -> Seq<char>;

/// A lowercase hexadecimal digit.
pub open spec fn is_hex_digit(c: char) -> bool {
    ('0' <= c && c <= '9') || ('a' <= c && c <= 'f')
}

/// Relies on rust-crypto's `Md5` (`input`, then `result_str`): the 16 bytes of
/// the MD5 digest of `bytes`, each written as two lowercase hex digits.
#[verifier::external_body]
fn md5_hex(bytes: &[u8]) -> (r: String)
    ensures
        r@ == md5_hex_of(bytes@),
        r@.len() == 32,
        forall|i: int| 0 <= i < r@.len() ==> is_hex_digit(#[trigger] r@[i]),
{
    let mut m = crypto::md5::Md5::new();
    crypto::digest::Digest::input(&mut m, bytes);
    crypto::digest::Digest::result_str(&mut m)
}

/// The digest of a file's full contents.
pub fn content_digest(bytes: &Vec<u8>) -> (r: String)
    ensures
        r@ == md5_hex_of(bytes@),
        r@.len() == 32,
        forall|i: int| 0 <= i < r@.len() ==> is_hex_digit(#[trigger] r@[i]),
{
    md5_hex(bytes.as_slice())
}

/// The short form of a digest shown beside each row: its first eight
/// characters, or all of it when it is shorter.
pub fn short_form(digest: &String) -> (r: String)
    ensures
        digest@.len() >= 8 ==> r@ == digest@.take(8),
        digest@.len() < 8 ==> r@ == digest@,
{
    let s = digest.as_str();
    let n = s.unicode_len();
    let end: usize = if n < 8 { n } else { 8 };
    let r = s.substring_char(0, end).to_owned();
    assert(digest@.len() < 8 ==> digest@.subrange(0, n as int) =~= digest@);
    r
}

} // verus!

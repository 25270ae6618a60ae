//! Short, stable identifiers made from text.

use vstd::prelude::*;

use crate::text;

verus! {

/// The SHA-256 digest of a text in UTF-8, in lower-case hexadecimal.
pub uninterp spec fn sha256_hex(s: Seq<char>) -> Seq<char>;

/// Calls `sha2::Sha256::digest` and writes its 32 bytes in lower-case
/// hexadecimal: 64 characters, named `sha256_hex`.
#[verifier::external_body]
pub(crate) fn sha256(s: &str) -> (hex: String)
    ensures
        hex@ == sha256_hex(s@),
        hex@.len() == 64,
{
    format!("{:x}", <sha2::Sha256 as sha2::Digest>::digest(s.as_bytes()))
}

/// The texts one behind the other, with a NUL between any two.
pub open spec fn key_of(parts: Seq<Seq<char>>) -> Seq<char> {
    text::joined(parts, "\0"@)
}

/// The identifier of a list of texts: the first 16 characters of the digest of
/// the texts with a NUL between any two.
pub open spec fn id_of(parts: Seq<Seq<char>>) -> Seq<char> {
    sha256_hex(key_of(parts)).take(16)
}

/// The identifier of a list of texts.
pub fn short_id(parts: &Vec<String>) -> (id: String)
    ensures
        id@ == id_of(text::views(parts@)),
{
    let key: String = text::join(parts, "\0");
    let hex: String = sha256(key.as_str());
    hex.as_str().substring_char(0, 16).to_owned()
}

} // verus!

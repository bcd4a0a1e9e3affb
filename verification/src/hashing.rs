//! Content hashes.

use vstd::prelude::*;
use vstd::string::StringSliceAdditionalSpecFns;
use vstd::utf8::encode_utf8;
use crate::text::is_digit;

verus! {

/// The BLAKE3 hash of some bytes, in lowercase hexadecimal.
pub uninterp spec fn blake3_hex(bytes: Seq<u8>) -> Seq<char>;

/// 64 lowercase hexadecimal digits.
pub open spec fn is_hex_hash(s: Seq<char>) -> bool {
    s.len() == 64 && forall|i: int| 0 <= i < 64 ==> is_digit(#[trigger] s[i]) || 'a' <= s[i] <= 'f'
}

/// `blake3::hash` and `blake3::Hash::to_hex`: the hash of the bytes, which
/// depends on nothing else, as 64 lowercase hexadecimal digits.
#[verifier::external_body]
fn hash_bytes(bytes: &[u8]) -> (r: String)
    ensures
        r@ == blake3_hex(bytes@),
        is_hex_hash(r@),
{
    blake3::hash(bytes).to_hex().to_string()
}

/// The hash of a text.
pub open spec fn text_hash(s: Seq<char>) -> Seq<char> {
    blake3_hex(encode_utf8(s))
}

/// The hash of a file's content.
pub fn hash_content(content: &str) -> (r: String)
    ensures
        r@ == text_hash(content@),
        is_hex_hash(r@),
{
    hash_bytes(content.as_bytes())
}

} // verus!

//! Content addresses: the BLAKE3 digest of a document's compact text.
//!
//! Object members keep the order in which they were written, so two
//! conditions that differ only in member order get different ids; callers
//! that want order-insensitive ids write members in a fixed order (sorted
//! by key, as a `serde_json::Map` without `preserve_order` yields them).
use vstd::prelude::*;
use crate::json::{Json, JsonV};
use crate::text::{text_of, to_text};

verus! {

/// The lower-case hexadecimal BLAKE3 digest of the UTF-8 encoding of a text.
pub uninterp spec fn blake3_hex(text: Seq<char>) -> Seq<char>;

/// A content address as `blake3` writes it: 64 lower-case hex digits.
pub open spec fn is_hex_id(s: Seq<char>) -> bool {
    s.len() == 64 && forall|i: int| 0 <= i < s.len() ==> is_hex_digit(#[trigger] s[i])
}

/// A lower-case hexadecimal digit.
pub open spec fn is_hex_digit(c: char) -> bool {
    ('0' <= c && c <= '9') || ('a' <= c && c <= 'f')
}

/// Relies on `blake3::hash` (256-bit BLAKE3 of the bytes) and on the `Display`
/// impl of `blake3::Hash`, which writes `to_hex`: 64 lower-case hex digits.
/// The result depends on the text alone.
#[verifier::external_body]
fn blake3_hex_of(text: &Vec<char>) -> (r: String)
    ensures
        r@ == blake3_hex(text@),
        r@.len() == 64,
        forall|i: int| 0 <= i < r@.len() ==> is_hex_digit(#[trigger] r@[i]),
{
    let s: String = text.iter().collect();
    blake3::hash(s.as_bytes()).to_string()
}

/// The content address of a document.
pub open spec fn hash_of(j: JsonV) -> Seq<char> {
    blake3_hex(text_of(j))
}

/// Computes the content address of `j`: the digest of its compact text.
pub fn content_hash(j: &Json) -> (r: String)
    ensures
        r@ == hash_of(j@),
        r@.len() == 64,
        forall|i: int| 0 <= i < r@.len() ==> is_hex_digit(#[trigger] r@[i]),
{
    let t = to_text(j);
    blake3_hex_of(&t)
}

} // verus!

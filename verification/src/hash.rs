//! Content hashing used for caching, replay and recording.
use sha2::Digest;
use vstd::prelude::*;
use vstd::string::*;
use vstd::utf8::encode_utf8;

use crate::json::{json_text, json_tree, value_text, JsonTree};

verus! {

/// The SHA-256 digest of `bytes`.
pub uninterp spec fn sha256(bytes: Seq<u8>) -> Seq<u8>;

/// `Sha256` of the crate `sha2`: fed `bytes` at once, it finishes with their
/// digest, which is 32 bytes long.
#[verifier::external_body]
fn digest(bytes: &[u8]) -> (r: Vec<u8>)
    ensures
        r@ == sha256(bytes@),
        r@.len() == 32,
{
    let mut h = sha2::Sha256::new();
    h.update(bytes);
    h.finalize().to_vec()
}

/// The lower-case hexadecimal digit of `d`.
pub open spec fn hex_digit(d: int) -> char {
    if d < 10 {
        (48 + d) as u8 as char
    } else {
        (87 + d) as u8 as char
    }
}

/// Two hexadecimal digits per byte, the high half first.
pub open spec fn hex_text(bytes: Seq<u8>) -> Seq<char> {
    Seq::new(
        2 * bytes.len(),
        |i: int|
            if i % 2 == 0 {
                hex_digit(bytes[i / 2] as int / 16)
            } else {
                hex_digit(bytes[i / 2] as int % 16)
            },
    )
}

/// `hex::encode` writes two lower-case digits per byte.
#[verifier::external_body]
fn hex_of(bytes: &[u8]) -> (r: String)
    ensures
        r@ == hex_text(bytes@),
{
    hex::encode(bytes)
}

/// The content hash of raw bytes: the hexadecimal SHA-256 digest.
pub open spec fn bytes_hash(bytes: Seq<u8>) -> Seq<char> {
    hex_text(sha256(bytes))
}

/// The content hash of a JSON value: that of its compact text.
pub open spec fn tree_hash(t: JsonTree) -> Seq<char> {
    bytes_hash(encode_utf8(json_text(t)))
}

/// Hex SHA-256 of the canonical (sorted-key) JSON encoding of a value.
pub fn hash_json(value: &serde_json::Value) -> (r: String)
    ensures
        r@ == tree_hash(json_tree(*value)),
        r@.len() == 64,
{
    let s = value_text(value);
    hash_bytes(s.as_str().as_bytes())
}

/// Hex SHA-256 of raw bytes.
pub fn hash_bytes(bytes: &[u8]) -> (r: String)
    ensures
        r@ == bytes_hash(bytes@),
        r@.len() == 64,
{
    let d = digest(bytes);
    hex_of(d.as_slice())
}

proof fn lemma_hex_digit(a: int, b: int)
    requires
        0 <= a < 16,
        0 <= b < 16,
        hex_digit(a) == hex_digit(b),
    ensures
        a == b,
{
}

/// Different bytes have different hexadecimal texts: a content hash loses
/// nothing of the digest.
pub proof fn hex_text_is_injective(a: Seq<u8>, b: Seq<u8>)
    requires
        hex_text(a) == hex_text(b),
    ensures
        a == b,
{
    assert(hex_text(a).len() == 2 * a.len());
    assert(hex_text(b).len() == 2 * b.len());
    assert forall|i: int| 0 <= i < a.len() implies a[i] == b[i] by {
        assert(hex_text(a)[2 * i] == hex_digit(a[i] as int / 16));
        assert(hex_text(b)[2 * i] == hex_digit(b[i] as int / 16));
        assert(hex_text(a)[2 * i + 1] == hex_digit(a[i] as int % 16));
        assert(hex_text(b)[2 * i + 1] == hex_digit(b[i] as int % 16));
        lemma_hex_digit(a[i] as int / 16, b[i] as int / 16);
        lemma_hex_digit(a[i] as int % 16, b[i] as int % 16);
    }
    assert(a =~= b);
}

/// The hash of a value is that of its whole compact text: the SHA-256 digest of
/// the text's UTF-8 bytes, two lower-case hexadecimal digits per byte. It goes
/// by what the value holds alone.
pub proof fn hash_is_of_the_whole_text(t: JsonTree, i: int)
    requires
        0 <= i < sha256(encode_utf8(json_text(t))).len(),
    ensures
        ({
            let d = sha256(encode_utf8(json_text(t)));
            let high = d[i] as int / 16;
            let low = d[i] as int % 16;
            &&& tree_hash(t) == bytes_hash(encode_utf8(json_text(t)))
            &&& tree_hash(t).len() == 2 * d.len()
            &&& tree_hash(t)[2 * i] as u32 == (if high < 10 {
                '0' as u32 + high
            } else {
                'a' as u32 + high - 10
            })
            &&& tree_hash(t)[2 * i + 1] as u32 == (if low < 10 {
                '0' as u32 + low
            } else {
                'a' as u32 + low - 10
            })
        }),
{
    let d = sha256(encode_utf8(json_text(t)));
    assert(tree_hash(t)[2 * i] == hex_digit(d[i] as int / 16));
    assert(tree_hash(t)[2 * i + 1] == hex_digit(d[i] as int % 16));
    lemma_hex_digit_value(d[i] as int / 16);
    lemma_hex_digit_value(d[i] as int % 16);
}

proof fn lemma_hex_digit_value(d: int)
    requires
        0 <= d < 16,
    ensures
        hex_digit(d) as u32 == (if d < 10 {
            48 + d
        } else {
            87 + d
        }),
{
    if d < 10 {
        assert(((48 + d) as u8 as char) as u32 == 48 + d);
    } else {
        assert(((87 + d) as u8 as char) as u32 == 87 + d);
    }
}

} // verus!

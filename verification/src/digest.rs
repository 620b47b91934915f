//! Digests and their text form. The hash function is Keccak-256; a digest is
//! written as the algorithm's name, a colon and the digest in lower-case hex.

use vstd::prelude::*;
use vstd::string::*;

verus! {

/// The Keccak-256 digest of `bytes`, as `ethers::utils::keccak256` computes it.
pub uninterp spec fn keccak256_digest(bytes: Seq<u8>) -> Seq<u8>;

/// The hex digit of a value below sixteen.
pub open spec fn hex_digit(n: int) -> char {
    seq!['0', '1', '2', '3', '4', '5', '6', '7', '8', '9', 'a', 'b', 'c', 'd', 'e', 'f'][n]
}

/// `bytes` in lower-case hex, two digits for each byte, the high one first.
pub open spec fn hex_text(bytes: Seq<u8>) -> Seq<char> {
    Seq::new(
        2 * bytes.len(),
        |i: int|
            if i % 2 == 0 {
                hex_digit(bytes[i / 2] as int / 16)
            } else {
                hex_digit(bytes[i / 2] as int % 16)
            },
    )
}

/// The value of a hex digit of either case; -1 for any other character.
pub open spec fn hex_value(c: char) -> int {
    let n = c as u32 as int;
    if 48 <= n <= 57 {
        n - 48
    } else if 97 <= n <= 102 {
        n - 87
    } else if 65 <= n <= 70 {
        n - 55
    } else {
        -1
    }
}

/// Whether `text` is an even number of hex digits.
pub open spec fn is_hex_text(text: Seq<char>) -> bool {
    text.len() % 2 == 0 && forall|i: int| 0 <= i < text.len() ==> hex_value(#[trigger] text[i]) >= 0
}

/// The bytes that the hex digits of `text` spell, two digits for each byte.
pub open spec fn hex_bytes(text: Seq<char>) -> Seq<u8> {
    Seq::new(
        text.len() / 2,
        |i: int| (hex_value(text[2 * i]) * 16 + hex_value(text[2 * i + 1])) as u8,
    )
}

/// The text form of the digest of `bytes`.
pub open spec fn hash_text(bytes: Seq<u8>) -> Seq<char> {
    "keccak256:"@ + hex_text(keccak256_digest(bytes))
}

/// Calls `ethers::utils::keccak256`: the result is the Keccak-256 digest of
/// `bytes`, which is 32 bytes long. Nothing more is claimed of the digest.
#[verifier::external_body]
pub(crate) fn keccak256(bytes: &[u8]) -> (digest: Vec<u8>)
    ensures
        digest@ == keccak256_digest(bytes@),
        digest@.len() == 32,
{
    ethers::utils::keccak256(bytes).to_vec()
}

/// Calls `hex::encode`: the result holds two lower-case hex digits for each
/// byte, in order, the high half of the byte first.
#[verifier::external_body]
pub(crate) fn hex_encode(bytes: &[u8]) -> (text: String)
    ensures
        text@ == hex_text(bytes@),
{
    hex::encode(bytes)
}

/// Calls `hex::decode`: it succeeds exactly on an even number of hex digits,
/// of either case, and then gives the byte that each pair of digits spells.
#[verifier::external_body]
pub(crate) fn hex_decode(text: &str) -> (bytes: Option<Vec<u8>>)
    ensures
        bytes.is_some() == is_hex_text(text@),
        bytes.is_some() ==> bytes.unwrap()@ == hex_bytes(text@),
{
    hex::decode(text).ok()
}

/// The digest of `bytes` in its text form: 74 characters.
pub fn hash(bytes: &[u8]) -> (text: String)
    ensures
        text@ == hash_text(bytes@),
        text@.len() == 74,
        text@.subrange(0, 10) == "keccak256:"@,
{
    let digest = keccak256(bytes);
    let hex = hex_encode(digest.as_slice());
    let text = String::from_str("keccak256:").concat(hex.as_str());
    proof {
        reveal_strlit("keccak256:");
        assert(text@.subrange(0, 10) =~= "keccak256:"@);
    }
    text
}

/// The bytes that `text` spells in hex; `None` unless `text` is an even
/// number of hex digits.
pub fn parse_hex(text: &str) -> (bytes: Option<Vec<u8>>)
    ensures
        bytes.is_some() == is_hex_text(text@),
        bytes.is_some() ==> bytes.unwrap()@ == hex_bytes(text@),
{
    hex_decode(text)
}

} // verus!

//! Random tokens, digests and their hexadecimal text.

use rand::RngCore;
use sha2::Digest;
use vstd::prelude::*;
use vstd::utf8::encode_utf8;

verus! {

/// The lower-case character of a hexadecimal digit.
pub open spec fn hex_digit(d: int) -> char {
    seq!['0', '1', '2', '3', '4', '5', '6', '7', '8', '9', 'a', 'b', 'c', 'd', 'e', 'f'][d]
}

/// Two lower-case hexadecimal digits for each byte, the high one first.
pub open spec fn hex_text(bytes: Seq<u8>) -> Seq<char> {
    Seq::new(
        2 * bytes.len(),
        |i: int|
            if i % 2 == 0 {
                hex_digit(bytes[i / 2] as int / 16)
            } else {
                hex_digit(bytes[i / 2] as int % 16)
            },
    )
}

/// A hexadecimal digit of either case, as a byte of text.
pub open spec fn hex_byte(b: u8) -> bool {
    ||| 48 <= b <= 57
    ||| 65 <= b <= 70
    ||| 97 <= b <= 102
}

/// `hex::encode` writes two lower-case digits for each byte, the high one first.
#[verifier::external_body]
fn hex_encode(bytes: &[u8]) -> (r: String)
    ensures
        r@ == hex_text(bytes@),
{
    hex::encode(bytes)
}

/// `hex::decode` succeeds on the texts of even length that hold hexadecimal digits of
/// either case and nothing else. The decoded bytes are not used.
#[verifier::external_body]
fn hex_decodes(s: &str) -> (r: bool)
    ensures
        r == (encode_utf8(s@).len() % 2 == 0 && forall|i: int|
            0 <= i < encode_utf8(s@).len() ==> hex_byte(#[trigger] encode_utf8(s@)[i])),
{
    hex::decode(s).is_ok()
}

/// What SHA-256 makes of some bytes.
pub uninterp spec fn sha256_digest(bytes: Seq<u8>) -> Seq<u8>;

/// `Sha256::digest` depends on the bytes alone: its result, 32 bytes long, is named
/// `sha256_digest`.
#[verifier::external_body]
fn sha256(bytes: &[u8]) -> (r: Vec<u8>)
    ensures
        r@ == sha256_digest(bytes@),
        r@.len() == 32,
{
    sha2::Sha256::digest(bytes).to_vec()
}

/// `OsRng::fill_bytes` fills `n` bytes with what the system's random source gives: of
/// the bytes nothing is claimed but their number. It panics where the system has no
/// such source.
#[verifier::external_body]
fn random_bytes(n: usize) -> (r: Vec<u8>)
    ensures
        r@.len() == n,
{
    let mut b = vec![0u8; n];
    rand::rngs::OsRng.fill_bytes(&mut b);
    b
}

/// The hexadecimal text of some `n` bytes.
pub open spec fn spells_bytes(s: Seq<char>, n: nat) -> bool {
    exists|bytes: Seq<u8>| bytes.len() == n && s == #[trigger] hex_text(bytes)
}

/// `n` random bytes, in hexadecimal.
pub fn rand_hex(n: usize) -> (r: String)
    ensures
        spells_bytes(r@, n as nat),
        r@.len() == 2 * n,
{
    let b = random_bytes(n);
    hex_encode(b.as_slice())
}

/// The digest that a secret is stored as: SHA-256 of its UTF-8 bytes, in hexadecimal.
pub open spec fn secret_hash(s: Seq<char>) -> Seq<char> {
    hex_text(sha256_digest(encode_utf8(s)))
}

/// The digest that a secret is stored as.
pub fn hash(s: &str) -> (r: String)
    ensures
        r@ == secret_hash(s@),
        r@.len() == 64,
{
    let d = sha256(s.as_bytes());
    hex_encode(d.as_slice())
}

/// A public key as text: 64 hexadecimal digits.
pub open spec fn public_key_text(s: Seq<char>) -> bool {
    &&& encode_utf8(s).len() == 64
    &&& forall|i: int| 0 <= i < 64 ==> hex_byte(#[trigger] encode_utf8(s)[i])
}

/// Whether the text is that of a public key.
pub fn is_public_key(s: &str) -> (r: bool)
    ensures
        r == public_key_text(s@),
{
    s.as_bytes().len() == 64 && hex_decodes(s)
}

} // verus!

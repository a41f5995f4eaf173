//! Trusted bindings to the outside cryptography and randomness: the SHA3-512
//! digest, lowercase base-16 rendering, and random identifier generation.

use vstd::prelude::*;

use rand::RngCore;
use sha3::{Digest, Sha3_512};

verus! {

/// The SHA3-512 digest of a byte sequence, 64 bytes; a function of the
/// input alone.
pub uninterp spec fn sha3_512_of(bytes: Seq<u8>) -> Seq<u8>;

/// One lowercase base-16 digit.
pub open spec fn hex_digit(n: u8) -> char {
    if n < 10 {
        (0x30 + n) as char
    } else {
        (0x57 + n) as char
    }
}

/// Lowercase base-16: two digits for each byte, high nibble first.
pub open spec fn hex_lower(bytes: Seq<u8>) -> Seq<char>
    decreases bytes,
{
    if bytes.len() == 0 {
        Seq::empty()
    } else {
        seq![hex_digit(bytes[0] / 16), hex_digit(bytes[0] % 16)] + hex_lower(bytes.drop_first())
    }
}

/// Whether `c` is a lowercase base-16 digit.
pub open spec fn is_hex_char(c: char) -> bool {
    ('0' <= c && c <= '9') || ('a' <= c && c <= 'f')
}

/// Relies on sha3::Sha3_512 of the sha3 crate: a 512-bit digest, so 64
/// output bytes, computed from the input bytes alone.
#[verifier::external_body]
pub(crate) fn sha3_512(bytes: &Vec<u8>) -> (r: Vec<u8>)
    ensures
        r@ == sha3_512_of(bytes@),
        r@.len() == 64,
{
    let mut hasher = Sha3_512::new();
    hasher.update(bytes.as_slice());
    hasher.finalize().to_vec()
}

/// Relies on base16ct::lower::encode_string: each input byte becomes two
/// lowercase base-16 digits, high nibble first.
#[verifier::external_body]
pub(crate) fn hex_encode(bytes: &Vec<u8>) -> (r: String)
    requires
        bytes@.len() * 2 <= usize::MAX,
    ensures
        r@ == hex_lower(bytes@),
{
    base16ct::lower::encode_string(bytes.as_slice())
}

/// Relies on rand's thread-local generator and base16ct: 64 random bytes
/// rendered as lowercase base-16.  Nothing is promised of which string
/// comes back — only its shape: 128 lowercase base-16 digits.
#[verifier::external_body]
pub fn generate_uuid() -> (r: String)
    ensures
        r@.len() == 128,
        forall|i: int| 0 <= i < r@.len() ==> is_hex_char(r@[i]),
{
    let mut data = [0u8; 64];
    rand::rng().fill_bytes(&mut data);
    base16ct::lower::encode_string(&data)
}

} // verus!

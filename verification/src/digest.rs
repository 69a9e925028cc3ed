use vstd::prelude::*;
use crypto::digest::Digest;
use crypto::sha3::Sha3;

verus! {

/// The SHA3-256 digest of a byte sequence (32 bytes).
pub uninterp spec fn sha3_256_digest(data: Seq<u8>) -> Seq<u8>;

/// The lower-case hexadecimal digit for a value below 16.
pub open spec fn hex_char(n: int) -> char {
    if n < 10 {
        (48 + n) as char
    } else {
        (87 + n) as char
    }
}

/// Lower-case hexadecimal text of a byte sequence, two digits per byte,
/// high nibble first.
pub open spec fn hex_lower(data: Seq<u8>) -> Seq<char>
    decreases data.len(),
{
    if data.len() == 0 {
        seq![]
    } else {
        seq![hex_char((data[0] / 16) as int), hex_char((data[0] % 16) as int)] + hex_lower(data.drop_first())
    }
}

/// The text that the hasher gives for `data`: the hexadecimal form of its
/// SHA3-256 digest.
pub open spec fn sha3_hex(data: Seq<u8>) -> Seq<char> {
    hex_lower(sha3_256_digest(data))
}

/// Hashes `data` with a fresh `crypto::sha3::Sha3::sha3_256()` hasher
/// (`input`, then `result_str`). Trusted: the text returned is the
/// lower-case hexadecimal form (`rustc_serialize`'s `to_hex`) of the
/// SHA3-256 digest of `data`, which is 32 bytes long, so 64 characters.
#[verifier::external_body]
pub(crate) fn sha3_256_hex(data: &[u8]) -> (res: String)
    ensures
        res@ == hex_lower(sha3_256_digest(data@)),
        res@.len() == 64,
{
    let mut hasher = Sha3::sha3_256();
    hasher.input(data);
    hasher.result_str()
}

} // verus!

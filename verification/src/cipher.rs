use vstd::prelude::*;
use crypto::aes::{cbc_decryptor, cbc_encryptor, KeySize};
use crypto::blockmodes::{NoPadding, PkcsPadding};
use crypto::buffer::{ReadBuffer, RefReadBuffer, RefWriteBuffer, WriteBuffer};
use rand::RngCore;

verus! {

/// PKCS#7 padding to the 16-byte AES block: `r = 16 - len % 16` bytes,
/// each of value `r`, so between 1 and 16 bytes are always added.
pub open spec fn pkcs_pad(data: Seq<u8>) -> Seq<u8> {
    let r = 16 - data.len() % 16;
    data + Seq::new(r as nat, |i: int| r as u8)
}

/// The plaintext that the encryptor enciphers: the data with PKCS#7
/// padding, except that empty data is left empty (the encryptor returns at
/// once on empty input and never pads it).
pub open spec fn cbc_padded(data: Seq<u8>) -> Seq<u8> {
    if data.len() == 0 {
        data
    } else {
        pkcs_pad(data)
    }
}

/// AES-256 in CBC mode with PKCS#7 padding, as `crypto::aes` computes it.
pub uninterp spec fn aes256_cbc_pkcs_encrypt(key: Seq<u8>, iv: Seq<u8>, data: Seq<u8>) -> Seq<u8>;

/// AES-256 CBC decryption of whole blocks, padding left in place.
pub uninterp spec fn aes256_cbc_decrypt_blocks(key: Seq<u8>, iv: Seq<u8>, ct: Seq<u8>) -> Seq<u8>;

/// Encrypts `data` with `crypto::aes::cbc_encryptor(KeySize256, key, iv,
/// PkcsPadding)`, in one `encrypt` call with an output buffer large enough
/// for the whole result. Trusted: the result is the name above applied to
/// the arguments, and CBC decryption of it with the same key and IV gives
/// back the enciphered plaintext `cbc_padded(data)`, of the same length
/// (so empty data gives an empty result). `key` must be an AES-256 key (32 bytes; the
/// crate panics or reads out of bounds otherwise) and `iv` one block.
#[verifier::external_body]
pub(crate) fn aes256_cbc_encrypt(key: &[u8], iv: &[u8], data: &[u8]) -> (ct: Vec<u8>)
    requires
        key@.len() == 32,
        iv@.len() == 16,
    ensures
        ct@ == aes256_cbc_pkcs_encrypt(key@, iv@, data@),
        ct@.len() == cbc_padded(data@).len(),
        aes256_cbc_decrypt_blocks(key@, iv@, ct@) == cbc_padded(data@),
{
    let mut encryptor = cbc_encryptor(KeySize::KeySize256, key, iv, PkcsPadding);
    let mut out = vec![0u8; data.len() + 32];
    let mut reader = RefReadBuffer::new(data);
    let mut writer = RefWriteBuffer::new(&mut out);
    let _ = encryptor.encrypt(&mut reader, &mut writer, true);
    writer.take_read_buffer().take_remaining().to_vec()
}

/// Decrypts `ct` with `crypto::aes::cbc_decryptor(KeySize256, key, iv,
/// NoPadding)`, in one `decrypt` call with an output buffer as long as the
/// input. Trusted: it fails exactly when `ct` is not a whole number of
/// blocks (`InvalidLength`); otherwise the plaintext has the length of
/// `ct` and is the name above applied to the arguments.
#[verifier::external_body]
pub(crate) fn aes256_cbc_decrypt(key: &[u8], iv: &[u8], ct: &[u8]) -> (pt: Option<Vec<u8>>)
    requires
        key@.len() == 32,
        iv@.len() == 16,
    ensures
        pt is Some <==> ct@.len() % 16 == 0,
        pt matches Some(p) ==> p@ == aes256_cbc_decrypt_blocks(key@, iv@, ct@),
        pt matches Some(p) ==> p@.len() == ct@.len(),
{
    let mut decryptor = cbc_decryptor(KeySize::KeySize256, key, iv, NoPadding);
    let mut out = vec![0u8; ct.len() + 16];
    let mut reader = RefReadBuffer::new(ct);
    let mut writer = RefWriteBuffer::new(&mut out);
    match decryptor.decrypt(&mut reader, &mut writer, true) {
        Ok(_) => Some(writer.take_read_buffer().take_remaining().to_vec()),
        Err(_) => None,
    }
}

/// Sixteen bytes from the operating system's generator
/// (`rand::rngs::OsRng::fill_bytes`). Trusted only for the length; the
/// bytes themselves are chance. `OsRng` panics if the system source fails.
#[verifier::external_body]
pub(crate) fn random_iv() -> (iv: Vec<u8>)
    ensures
        iv@.len() == 16,
{
    let mut iv = [0u8; 16];
    rand::rngs::OsRng.fill_bytes(&mut iv);
    iv.to_vec()
}

} // verus!

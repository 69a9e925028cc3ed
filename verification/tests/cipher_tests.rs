use crypto::aes::{cbc_encryptor, KeySize};
use crypto::blockmodes::NoPadding;
use crypto::buffer::{ReadBuffer, RefReadBuffer, RefWriteBuffer, WriteBuffer};
use merkle_store::client::{decrypt_data, encrypt_data, encrypt_data_with_iv, try_decrypt_data};

const PASSWORD: &str = "0123456789abcdef0123456789abcdef";

fn raw_encrypt(key: &[u8], iv: &[u8], data: &[u8]) -> Vec<u8> {
    let mut enc = cbc_encryptor(KeySize::KeySize256, key, iv, NoPadding);
    let mut out = vec![0u8; data.len() + 32];
    let mut r = RefReadBuffer::new(data);
    let mut w = RefWriteBuffer::new(&mut out);
    enc.encrypt(&mut r, &mut w, true).unwrap();
    w.take_read_buffer().take_remaining().to_vec()
}

#[test]
fn encrypt_then_decrypt_gives_data_back() {
    let password = PASSWORD.to_string();
    for data in [&b""[..], &b"x"[..], &b"exactly sixteen!"[..], &[7u8; 100][..]] {
        let ct = encrypt_data(data, &password);
        let expected = if data.is_empty() { 16 } else { (data.len() / 16 + 1) * 16 + 16 };
        assert_eq!(ct.len(), expected);
        assert_eq!(try_decrypt_data(ct.clone(), password.clone()), Some(data.to_vec()));
        assert_eq!(decrypt_data(ct, password.clone()), data.to_vec());
    }
}

#[test]
fn encryption_appends_the_iv() {
    let password = PASSWORD.to_string();
    let iv = [9u8; 16];
    let ct = encrypt_data_with_iv(b"hello", &password, &iv);
    assert_eq!(ct.len(), 32);
    assert_eq!(&ct[16..], &iv);
    let mut padded = b"hello".to_vec();
    padded.extend_from_slice(&[11u8; 11]);
    assert_eq!(&ct[..16], &raw_encrypt(PASSWORD.as_bytes(), &iv, &padded)[..]);
}

#[test]
fn random_ivs_differ() {
    let password = PASSWORD.to_string();
    let a = encrypt_data(b"same", &password);
    let b = encrypt_data(b"same", &password);
    assert_ne!(a, b);
}

#[test]
fn decrypt_rejects_partial_blocks() {
    let mut data = vec![0u8; 20];
    data.extend_from_slice(&[1u8; 16]);
    assert_eq!(try_decrypt_data(data, PASSWORD.to_string()), None);
}

#[test]
fn decrypt_of_iv_only_is_empty() {
    assert_eq!(try_decrypt_data(vec![3u8; 16], PASSWORD.to_string()), Some(vec![]));
    assert_eq!(decrypt_data(vec![3u8; 16], PASSWORD.to_string()), Vec::<u8>::new());
}

#[test]
fn decrypt_rejects_bad_padding() {
    let iv = [1u8; 16];
    let mut block = [0u8; 16];
    block[15] = 5;
    let mut ct = raw_encrypt(PASSWORD.as_bytes(), &iv, &block);
    ct.extend_from_slice(&iv);
    assert_eq!(try_decrypt_data(ct, PASSWORD.to_string()), None);
}

#[test]
fn decrypt_rejects_pad_length_above_a_block() {
    let iv = [2u8; 16];
    let block = [0x20u8; 16];
    let mut ct = raw_encrypt(PASSWORD.as_bytes(), &iv, &block);
    ct.extend_from_slice(&iv);
    assert_eq!(try_decrypt_data(ct, PASSWORD.to_string()), None);
}

#[test]
fn decrypt_accepts_full_block_of_padding() {
    let iv = [4u8; 16];
    let mut plain = b"0123456789ABCDEF".to_vec();
    plain.extend_from_slice(&[16u8; 16]);
    let mut ct = raw_encrypt(PASSWORD.as_bytes(), &iv, &plain);
    ct.extend_from_slice(&iv);
    assert_eq!(decrypt_data(ct, PASSWORD.to_string()), b"0123456789ABCDEF".to_vec());
}

#[test]
fn ciphertext_length_is_padded_length_plus_iv() {
    let password = PASSWORD.to_string();
    for (n, expected) in [(0usize, 16usize), (1, 32), (15, 32), (16, 48), (17, 48), (40, 64)] {
        let data = vec![5u8; n];
        assert_eq!(encrypt_data(&data, &password).len(), expected);
        assert_eq!(encrypt_data_with_iv(&data, &password, &[0u8; 16]).len(), expected);
    }
}

#[test]
fn decrypted_length_is_ciphertext_less_pad_byte() {
    let iv = [6u8; 16];
    let mut plain = vec![1u8; 29];
    plain.extend_from_slice(&[3u8; 3]);
    let mut ct = raw_encrypt(PASSWORD.as_bytes(), &iv, &plain);
    ct.extend_from_slice(&iv);
    assert_eq!(decrypt_data(ct, PASSWORD.to_string()).len(), 48 - 16 - 3);
    let mut zero_pad = vec![9u8; 15];
    zero_pad.push(0);
    let mut ct0 = raw_encrypt(PASSWORD.as_bytes(), &iv, &zero_pad);
    ct0.extend_from_slice(&iv);
    assert_eq!(decrypt_data(ct0, PASSWORD.to_string()), zero_pad);
}

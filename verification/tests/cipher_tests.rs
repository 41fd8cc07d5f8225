use block_modes::block_padding::Pkcs7;
use block_modes::{BlockMode, Ecb};
use des::Des;
use parcrypt::cipher::{apply, CipherError, Mode, ZERO_IV};
use parcrypt::key::{normalize, NormalizedKey};

fn textbook_key() -> NormalizedKey {
    NormalizedKey { bytes: [0x13, 0x34, 0x57, 0x79, 0x9b, 0xbc, 0xdf, 0xf1] }
}

#[test]
fn zero_iv_is_one_block_of_zero_bytes() {
    assert_eq!(ZERO_IV, [0u8; 8]);
}

#[test]
fn apply_encrypt_known_answer() {
    let plaintext = [0x01, 0x23, 0x45, 0x67, 0x89, 0xab, 0xcd, 0xef];
    let ciphertext = apply(Mode::Encrypt, &plaintext, &textbook_key()).unwrap();
    assert_eq!(ciphertext.len(), 16);
    assert_eq!(&ciphertext[..8], &[0x85, 0xe8, 0x13, 0x54, 0x0f, 0x0a, 0xb4, 0x05]);
}

#[test]
fn apply_encrypt_agrees_with_cipher_crates() {
    let key = normalize(b"abc");
    for len in 0..40usize {
        let data: Vec<u8> = (0..len).map(|i| (i * 7 + 3) as u8).collect();
        let direct = Ecb::<Des, Pkcs7>::new_var(&key.bytes, &[0u8; 8]).unwrap().encrypt_vec(&data);
        assert_eq!(apply(Mode::Encrypt, &data, &key), Ok(direct));
    }
}

#[test]
fn apply_encrypt_pads_to_next_multiple_of_block_size() {
    let key = normalize(b"12345678");
    for len in 0..50usize {
        let data = vec![0x5au8; len];
        let ciphertext = apply(Mode::Encrypt, &data, &key).unwrap();
        assert_eq!(ciphertext.len(), (len / 8 + 1) * 8);
        assert!(ciphertext.len() > len);
        assert!(ciphertext.len() <= len + 8);
    }
}

#[test]
fn apply_encrypt_changes_the_bytes() {
    let key = normalize(b"12345678");
    let data = b"sixteen byte msg".to_vec();
    let ciphertext = apply(Mode::Encrypt, &data, &key).unwrap();
    assert_ne!(&ciphertext[..16], &data[..]);
}

#[test]
fn apply_encrypt_aligned_input_grows_by_full_block() {
    let key = normalize(b"12345678");
    assert_eq!(apply(Mode::Encrypt, &[0u8; 8], &key).unwrap().len(), 16);
    assert_eq!(apply(Mode::Encrypt, &[0u8; 16], &key).unwrap().len(), 24);
    assert_eq!(apply(Mode::Encrypt, &[], &key).unwrap().len(), 8);
}

#[test]
fn apply_decrypt_known_answer() {
    let plaintext = [0x01, 0x23, 0x45, 0x67, 0x89, 0xab, 0xcd, 0xef];
    let ciphertext = apply(Mode::Encrypt, &plaintext, &textbook_key()).unwrap();
    assert_eq!(apply(Mode::Decrypt, &ciphertext, &textbook_key()), Ok(plaintext.to_vec()));
}

#[test]
fn apply_decrypt_undoes_encrypt() {
    let key = normalize(b"secret");
    for len in 0..40usize {
        let data: Vec<u8> = (0..len).map(|i| (i * 13 + 1) as u8).collect();
        let ciphertext = apply(Mode::Encrypt, &data, &key).unwrap();
        assert_eq!(apply(Mode::Decrypt, &ciphertext, &key), Ok(data));
    }
}

#[test]
fn apply_decrypt_refuses_length_that_is_no_multiple_of_block_size() {
    let key = normalize(b"12345678");
    for len in [1usize, 7, 9, 15, 17, 23] {
        assert_eq!(apply(Mode::Decrypt, &vec![0u8; len], &key), Err(CipherError));
    }
}

#[test]
fn apply_decrypt_refuses_empty_input() {
    let key = normalize(b"12345678");
    assert_eq!(apply(Mode::Decrypt, &[], &key), Err(CipherError));
}

#[test]
fn apply_decrypt_refuses_malformed_padding() {
    let key = normalize(b"12345678");
    // The first block deciphers to "ABCDEFGH", which ends in no padding.
    let ciphertext = apply(Mode::Encrypt, b"ABCDEFGH", &key).unwrap();
    assert_eq!(apply(Mode::Decrypt, &ciphertext[..8], &key), Err(CipherError));
}

#[test]
fn apply_decrypt_gives_fewer_bytes_than_it_takes() {
    let key = normalize(b"12345678");
    for len in 0..40usize {
        let ciphertext = apply(Mode::Encrypt, &vec![0x33u8; len], &key).unwrap();
        let plaintext = apply(Mode::Decrypt, &ciphertext, &key).unwrap();
        assert!(plaintext.len() < ciphertext.len());
        assert_eq!(plaintext.len(), len);
    }
}

#[test]
fn apply_decrypt_strips_padding_longer_than_a_block() {
    let key = normalize(b"12345678");
    // Two blocks of the byte 16 read as sixteen bytes of padding.
    let mut data = b"EIGHTBYT".to_vec();
    data.extend_from_slice(&[16u8; 16]);
    let ciphertext = apply(Mode::Encrypt, &data, &key).unwrap();
    assert_eq!(ciphertext.len(), 32);
    assert_eq!(apply(Mode::Decrypt, &ciphertext[..24], &key), Ok(b"EIGHTBYT".to_vec()));
    assert_eq!(apply(Mode::Decrypt, &ciphertext, &key), Ok(data));
}

#[test]
fn apply_decrypt_with_other_key_does_not_give_plaintext() {
    let data = b"HELLOHELLOHELLO!".to_vec();
    let ciphertext = apply(Mode::Encrypt, &data, &normalize(b"abc")).unwrap();
    assert_ne!(apply(Mode::Decrypt, &ciphertext, &normalize(b"abd")), Ok(data));
}

#[test]
fn apply_ciphers_equal_blocks_alike() {
    let key = normalize(b"12345678");
    let ciphertext = apply(Mode::Encrypt, b"SAMEDATASAMEDATA", &key).unwrap();
    assert_eq!(&ciphertext[..8], &ciphertext[8..16]);
}

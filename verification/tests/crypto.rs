use aes::cipher::{generic_array::GenericArray, BlockDecrypt, BlockEncrypt, KeyInit};
use aes::Aes128;
use rconn::crypto::{split_padding, CipherError, RCipher};
use sha2::{Digest, Sha256};

const KEY: [u8; 16] = *b"ABCDEFGHIJKLMNOP";

fn expected_aes(key: &[u8; 16], const_key: &str) -> Aes128 {
    let mut input = key.to_vec();
    input.extend_from_slice(const_key.as_bytes());
    let digest = Sha256::digest(&input);
    Aes128::new(GenericArray::from_slice(&digest[0..16]))
}

fn encrypt_by_hand(aes: &Aes128, plain: &[u8]) -> Vec<u8> {
    let mut out = plain.to_vec();
    for chunk in out.chunks_mut(16) {
        aes.encrypt_block(GenericArray::from_mut_slice(chunk));
    }
    out
}

fn decrypt_by_hand(aes: &Aes128, data: &[u8]) -> Vec<u8> {
    let mut out = data.to_vec();
    for chunk in out.chunks_mut(16) {
        aes.decrypt_block(GenericArray::from_mut_slice(chunk));
    }
    out
}

#[test]
fn gen_key_gives_upper_case_letters() {
    for _ in 0..20 {
        let key = RCipher::gen_key();
        assert_eq!(key.len(), 16);
        assert!(key.iter().all(|b| (b'A'..=b'Z').contains(b)));
    }
}

#[test]
fn new_always_succeeds() {
    assert!(RCipher::new(&KEY, "").is_ok());
    assert!(RCipher::new(&KEY, "secret").is_ok());
}

#[test]
fn encript_pads_and_encrypts_each_block() {
    let cipher = RCipher::new(&KEY, "secret").unwrap();
    let aes = expected_aes(&KEY, "secret");
    let data = b"hello world".to_vec();
    let out = cipher.encript_data(&data);
    let mut padded = data.clone();
    padded.extend_from_slice(&[5u8; 5]);
    assert_eq!(out.len(), 16);
    assert_eq!(out, encrypt_by_hand(&aes, &padded));
    assert_ne!(&out[..11], &data[..]);
}

#[test]
fn encript_adds_a_whole_block_to_full_blocks() {
    let cipher = RCipher::new(&KEY, "").unwrap();
    let aes = expected_aes(&KEY, "");
    let data = [7u8; 16];
    let out = cipher.encript_data(&data);
    assert_eq!(out.len(), 32);
    let mut padded = data.to_vec();
    padded.extend_from_slice(&[16u8; 16]);
    assert_eq!(out, encrypt_by_hand(&aes, &padded));
    assert_eq!(cipher.encript_data(&[]), encrypt_by_hand(&aes, &[16u8; 16]));
}

#[test]
fn const_key_changes_the_cipher() {
    let a = RCipher::new(&KEY, "one").unwrap();
    let b = RCipher::new(&KEY, "two").unwrap();
    let c = RCipher::new(&KEY, "one").unwrap();
    assert_ne!(a.encript_data(b"data"), b.encript_data(b"data"));
    assert_eq!(a.encript_data(b"data"), c.encript_data(b"data"));
}

#[test]
fn decript_keeps_the_tail_that_the_last_byte_counts() {
    let cipher = RCipher::new(&KEY, "k").unwrap();
    let sealed = cipher.encript_data(b"hello world");
    assert_eq!(cipher.decript_data(&sealed), Ok(vec![5u8; 5]));
    let sealed = cipher.encript_data(&[1u8; 16]);
    assert_eq!(cipher.decript_data(&sealed), Ok(vec![16u8; 16]));
}

#[test]
fn decript_decrypts_each_block() {
    let cipher = RCipher::new(&KEY, "k").unwrap();
    let aes = expected_aes(&KEY, "k");
    let mut plain = vec![0u8; 32];
    for (i, b) in plain.iter_mut().enumerate() {
        *b = i as u8;
    }
    plain[31] = 3;
    let sealed = encrypt_by_hand(&aes, &plain);
    assert_eq!(cipher.decript_data(&sealed), Ok(vec![29, 30, 3]));
    assert_eq!(decrypt_by_hand(&aes, &sealed), plain);
}

#[test]
fn decript_refuses_partial_blocks() {
    let cipher = RCipher::new(&KEY, "k").unwrap();
    assert_eq!(cipher.decript_data(&[1, 2, 3]), Err(CipherError::InvalidInput));
    assert_eq!(cipher.decript_data(&[0u8; 17]), Err(CipherError::InvalidInput));
    assert_eq!(CipherError::InvalidInput.message(), "Invalid data length");
}

#[test]
fn decript_refuses_empty_data() {
    let cipher = RCipher::new(&KEY, "k").unwrap();
    assert_eq!(cipher.decript_data(&[]), Err(CipherError::InvalidData));
    assert_eq!(CipherError::InvalidData.message(), "Invalid padding size");
}

#[test]
fn checked_decript_gives_none_when_the_count_is_too_large() {
    let cipher = RCipher::new(&KEY, "k").unwrap();
    let aes = expected_aes(&KEY, "k");
    let mut plain = [0u8; 16];
    plain[15] = 200;
    let sealed = encrypt_by_hand(&aes, &plain);
    assert_eq!(cipher.checked_decript_data(&sealed), None);
    plain[15] = 16;
    let sealed = encrypt_by_hand(&aes, &plain);
    assert_eq!(cipher.checked_decript_data(&sealed), Some(Ok(plain.to_vec())));
    assert_eq!(
        cipher.checked_decript_data(&[1, 2]),
        Some(Err(CipherError::InvalidInput))
    );
    assert_eq!(
        cipher.checked_decript_data(&[]),
        Some(Err(CipherError::InvalidData))
    );
}

#[test]
fn split_padding_cases() {
    assert_eq!(split_padding(vec![1, 2, 3, 2]), Ok(vec![3, 2]));
    assert_eq!(split_padding(vec![9, 0]), Ok(vec![]));
    assert_eq!(split_padding(vec![4, 4, 4, 4]), Ok(vec![4, 4, 4, 4]));
    assert_eq!(split_padding(vec![]), Err(CipherError::InvalidData));
}

#[test]
fn encryption_goes_block_by_block() {
    let cipher = RCipher::new(&KEY, "blocks").unwrap();
    let a = [9u8; 32];
    let b = b"tail bytes".to_vec();
    let mut ab = a.to_vec();
    ab.extend_from_slice(&b);
    let whole = cipher.encript_data(&ab);
    let mut expected = cipher.encript_data(&a)[..a.len()].to_vec();
    expected.extend_from_slice(&cipher.encript_data(&b));
    assert_eq!(whole, expected);
}

#[test]
fn encryption_is_deterministic_and_one_to_one() {
    let cipher = RCipher::new(&KEY, "inj").unwrap();
    assert_eq!(cipher.encript_data(b"same"), cipher.encript_data(b"same"));
    assert_ne!(cipher.encript_data(b"abc"), cipher.encript_data(b"abd"));
    assert_ne!(cipher.encript_data(&[]), cipher.encript_data(&[16u8; 16][..15]));
    assert_ne!(cipher.encript_data(&[1]), cipher.encript_data(&[1, 15]));
}

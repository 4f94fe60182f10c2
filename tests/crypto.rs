use ithos::crypto::{seal, unseal, AES256GCM_KEY_SIZE, AES256GCM_NONCE_SIZE};
use ithos::error::Error;
use ithos::object::EncryptionAlg;

const ENCRYPTION_KEY: [u8; AES256GCM_KEY_SIZE] = [0u8; AES256GCM_KEY_SIZE];
const NONCE: [u8; AES256GCM_NONCE_SIZE] = [0u8; AES256GCM_NONCE_SIZE];
const PLAINTEXT: &'static [u8] =
    b"BETWEEN SUBTLE SHADING AND THE ABSENCE OF LIGHT LIES THE NUANCE OF IQLUSION";

#[test]
fn test_sealing_and_unsealing() {
    let ciphertext = seal(EncryptionAlg::Aes256Gcm, &ENCRYPTION_KEY, &NONCE, PLAINTEXT).unwrap();

    let plaintext = unseal(EncryptionAlg::Aes256Gcm, &ENCRYPTION_KEY, &ciphertext).unwrap();

    assert_eq!(Vec::from(PLAINTEXT), plaintext);
}

#[test]
fn sealed_blob_layout() {
    let blob = seal(EncryptionAlg::Aes256Gcm, &ENCRYPTION_KEY, &NONCE, PLAINTEXT).unwrap();
    assert_eq!(blob.len(), AES256GCM_NONCE_SIZE + PLAINTEXT.len() + 16);
    assert_eq!(&blob[..AES256GCM_NONCE_SIZE], &NONCE[..]);
    assert_ne!(&blob[AES256GCM_NONCE_SIZE..AES256GCM_NONCE_SIZE + PLAINTEXT.len()], PLAINTEXT);
}

#[test]
fn flipped_bits_are_rejected() {
    let blob = seal(EncryptionAlg::Aes256Gcm, &ENCRYPTION_KEY, &NONCE, PLAINTEXT).unwrap();
    for i in 0..blob.len() {
        for bit in 0..8 {
            let mut tampered = blob.clone();
            tampered[i] ^= 1 << bit;
            assert_eq!(
                unseal(EncryptionAlg::Aes256Gcm, &ENCRYPTION_KEY, &tampered),
                Err(Error::CryptoFailure)
            );
        }
    }
}

#[test]
fn short_ciphertext_is_rejected() {
    assert_eq!(
        unseal(EncryptionAlg::Aes256Gcm, &ENCRYPTION_KEY, &[0u8; 11]),
        Err(Error::CryptoFailure)
    );
    assert_eq!(
        unseal(EncryptionAlg::Aes256Gcm, &ENCRYPTION_KEY, &[]),
        Err(Error::CryptoFailure)
    );
}

#[test]
fn wrong_nonce_length_is_rejected() {
    assert_eq!(
        seal(EncryptionAlg::Aes256Gcm, &ENCRYPTION_KEY, &[0u8; 11], PLAINTEXT),
        Err(Error::CryptoFailure)
    );
}

#[test]
fn wrong_key_is_rejected() {
    let blob = seal(EncryptionAlg::Aes256Gcm, &ENCRYPTION_KEY, &NONCE, PLAINTEXT).unwrap();
    assert_eq!(
        seal(EncryptionAlg::Aes256Gcm, &[0u8; 16], &NONCE, PLAINTEXT),
        Err(Error::CryptoFailure)
    );
    assert_eq!(
        unseal(EncryptionAlg::Aes256Gcm, &[1u8; 32], &blob),
        Err(Error::CryptoFailure)
    );
}

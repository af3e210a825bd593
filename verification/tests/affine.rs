use ciphers::affine::{decrypt, encrypt, modular_inverse};

#[test]
fn test_affine_encryption() {
    assert_eq!(encrypt("hello", 5, 8).unwrap(), "rclla");
    assert_eq!(encrypt("rust", 3, 4).unwrap(), "dmgj");
}

#[test]
fn test_affine_decryption() {
    assert_eq!(decrypt("rclla", 5, 8).unwrap(), "hello");
    assert_eq!(decrypt("dmgj", 3, 4).unwrap(), "rust");
}

#[test]
fn test_affine_modular_inverse() {
    assert_eq!(modular_inverse(5, 26), Some(21));
    assert_eq!(modular_inverse(3, 26), Some(9));
    assert_eq!(modular_inverse(4, 26), None); // 4 is not coprime with 26
}

#[test]
fn test_affine_decryption_fails_without_inverse() {
    assert!(decrypt("rclla", 4, 8).is_err());
    assert!(decrypt("rclla", 13, 8).is_err());
}

#[test]
fn test_affine_round_trip_mixed_text() {
    let plaintext = "attack at dawn!";
    let ciphertext = encrypt(plaintext, 7, 3).unwrap();
    assert_eq!(decrypt(&ciphertext, 7, 3).unwrap(), plaintext);
}

#[test]
fn test_affine_no_inverse_for_non_positive_keys() {
    assert_eq!(modular_inverse(-1, 26), None);
    assert_eq!(modular_inverse(0, 26), None);
    assert_eq!(modular_inverse(-3, 26), None);
    assert!(decrypt("rclla", -5, 8).is_err());
    assert!(decrypt("rclla", 0, 8).is_err());
}

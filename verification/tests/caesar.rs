use ciphers::caesar::{decrypt, encrypt};

#[test]
fn test_caesar_encryption() {
    let plaintext = "Hello";
    let encrypted = encrypt(plaintext, 3);
    assert_eq!(encrypted, "Khoor");
}

#[test]
fn test_caesar_decryption() {
    let ciphertext = "Khoor";
    let decrypted = decrypt(ciphertext, 3);
    assert_eq!(decrypted, "Hello");
}

#[test]
fn test_caesar_encryption_and_decryption() {
    let plaintext = "HelloWorld";
    let encrypted = encrypt(plaintext, 3);
    assert_eq!(encrypted, "KhoorZruog");

    let decrypted = decrypt(&encrypted, 3);
    assert_eq!(decrypted, plaintext);
}

#[test]
fn test_caesar_encryption_and_decryption_non_alpha_chars() {
    let plaintext = "Hello, World!";
    let encrypted = encrypt(plaintext, 3);
    assert_eq!(encrypted, "Khoor, Zruog!");

    let decrypted = decrypt(&encrypted, 3);
    assert_eq!(decrypted, plaintext);
}

#[test]
fn test_caesar_negative_key_wraps() {
    assert_eq!(encrypt("abc", -1), "zab");
    assert_eq!(decrypt("zab", -1), "abc");
}

use ciphers::vigenere::{decrypt, encipher, encrypt, extend_key, prepare_string, Operation};

#[test]
fn test_vigenere_encipher() {
    let data = "HELLO";
    let key = "KEY";

    // Test encryption
    let encrypted = encipher(
        &prepare_string(data),
        &prepare_string(key),
        Operation::Encrypt,
    );
    assert_eq!(encrypted, "RIJVS");

    // Test decryption
    let decrypted = encipher(&encrypted, &prepare_string(key), Operation::Decrypt);
    assert_eq!(decrypted, "HELLO");
}

#[test]
fn test_vigenere_encrypt() {
    let plaintext = "HELLO";
    let key = "KEY";
    let ciphertext = encrypt(&prepare_string(plaintext), &prepare_string(key));
    assert_eq!(ciphertext, "RIJVS");
}

#[test]
fn test_vigenere_decrypt() {
    let ciphertext = "RIJVS";
    let key = "KEY";
    let plaintext = decrypt(&ciphertext, &prepare_string(key));
    assert_eq!(plaintext, "HELLO");
}

#[test]
fn test_vigenere_prepare_string() {
    let input = "HeLlo WoRld";
    let output = prepare_string(input);
    assert_eq!(output, "HELLOWORLD");
}

#[test]
fn test_vigenere_extend_key() {
    let key = "KEY";
    let extended = extend_key(key, 5);
    assert_eq!(extended, "KEYKE");
}

#[test]
fn test_vigenere_encryption() {
    let plaintext = "HELLO";
    let key = "KEY";
    let ciphertext = encrypt(&prepare_string(plaintext), &prepare_string(key));
    assert_eq!(ciphertext, "RIJVS");
}

#[test]
fn test_vigenere_decryption() {
    let ciphertext = "RIJVS";
    let key = "KEY";
    let plaintext = decrypt(&ciphertext, &prepare_string(key));
    assert_eq!(plaintext, "HELLO");
}

#[test]
fn test_prepare_string() {
    let input = "HeLlo WoRld";
    let output = prepare_string(input);
    assert_eq!(output, "HELLOWORLD");
}

#[test]
fn test_extend_key() {
    let key = "KEY";
    let extended = extend_key(key, 5);
    assert_eq!(extended, "KEYKE");
}

#[test]
fn test_vigenere_empty_key_shifts_nothing() {
    assert_eq!(encrypt("HELLO", ""), "HELLO");
    assert_eq!(extend_key("", 5), "");
}

use ciphers::otp::{decrypt, encipher, encrypt, generate_key};

#[test]
fn test_otp_key_generation() {
    let key = generate_key(32);
    println!("Key: {:?}", &key);
    assert_eq!(key.len(), 32);
}

#[test]
fn test_otp_encryption_and_decryption() {
    let plaintext = "Hello";
    let key = generate_key(plaintext.len());
    let ciphertext = encrypt(plaintext, &key);

    println!(
        "Plaintext: {}, \nKey: {:?}, \nCiphertext: {:?}",
        plaintext, key, ciphertext
    );

    assert_eq!(plaintext.len(), key.len());
    assert_eq!(plaintext.len(), ciphertext.len());
    assert_eq!(key.len(), ciphertext.len());

    let decrypted_plaintext = decrypt(&ciphertext, &key);
    let decrypted_plaintext = String::from_utf8(decrypted_plaintext).unwrap();

    println!("\nDecrypted Plaintext: {}", decrypted_plaintext);

    assert_eq!(decrypted_plaintext.len(), plaintext.len());
    assert_eq!(decrypted_plaintext, plaintext);
}

#[test]
fn test_otp_encipherment() {
    let plaintext = "Hello";
    let key = generate_key(plaintext.len());
    let ciphertext = encipher(plaintext.as_bytes(), &key);

    println!(
        "Plaintext: {}, \nKey: {:?}, \nCiphertext: {:?}",
        plaintext, key, ciphertext
    );

    assert_eq!(plaintext.len(), key.len());
    assert_eq!(plaintext.len(), ciphertext.len());
    assert_eq!(key.len(), ciphertext.len());

    let decrypted_plaintext = encipher(&ciphertext, &key);
    let decrypted_plaintext = String::from_utf8(decrypted_plaintext).unwrap();

    println!("\nDecrypted Plaintext: {}", decrypted_plaintext);

    assert_eq!(decrypted_plaintext.len(), plaintext.len());
    assert_eq!(decrypted_plaintext, plaintext);
}

#[test]
fn test_otp_known_key_xor() {
    let key = [0xFFu8, 0x00, 0x0F, 0xF0];
    let ciphertext = encrypt("ABCD", &key);
    assert_eq!(ciphertext, vec![0xBE, 0x42, 0x4C, 0xB4]);
}

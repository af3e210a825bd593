use ciphers::otp_bits::{decrypt, encipher, encrypt, generate_key};

#[test]
fn test_generate_key() {
    let key = generate_key(32);
    println!("Key: {:?}", &key);
    assert_eq!(key.len(), 32);
}

#[test]
fn test_encrypt_decrypt() {
    let plaintext = "Hello";
    let key = generate_key(plaintext.len());
    let ciphertext = encrypt(plaintext.as_bytes(), &key);

    println!(
        "Plaintext: {}, \nKey: {:?}, \nCiphertext: {:?}",
        plaintext, key, ciphertext
    );

    assert_eq!(plaintext.len(), key.len());
    assert_eq!(plaintext.len(), ciphertext.len());
    assert_eq!(key.len(), ciphertext.len());

    let decrypted_plaintext = decrypt(&ciphertext, &key);
    let decrypted_plaintext = String::from_utf8(decrypted_plaintext).unwrap();

    println!("\nDecrypted Plaintext: {}", decrypted_plaintext);

    assert_eq!(decrypted_plaintext.len(), plaintext.len());
    assert_eq!(decrypted_plaintext, plaintext);
}

#[test]
fn test_encipher() {
    let plaintext = "Hello";
    let key = generate_key(plaintext.len());
    let ciphertext = encipher(plaintext.as_bytes(), &key);

    println!(
        "Plaintext: {}, \nKey: {:?}, \nCiphertext: {:?}",
        plaintext, key, ciphertext
    );

    assert_eq!(plaintext.len(), key.len());
    assert_eq!(plaintext.len(), ciphertext.len());
    assert_eq!(key.len(), ciphertext.len());

    let decrypted_plaintext = encipher(&ciphertext, &key);
    let decrypted_plaintext = String::from_utf8(decrypted_plaintext).unwrap();

    println!("\nDecrypted Plaintext: {}", decrypted_plaintext);

    assert_eq!(decrypted_plaintext.len(), plaintext.len());
    assert_eq!(decrypted_plaintext, plaintext);
}

#[test]
fn test_generated_key_holds_bits() {
    let key = generate_key(64);
    assert!(key.iter().all(|&b| b == 0 || b == 1));
}

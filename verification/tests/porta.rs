use ciphers::porta::{decrypt, encrypt, prepare_key};

#[test]
fn test_porta_encrypt_into_second_half() {
    // H+K, E+E, L+Y, L+K, O+E under the thirteen-letter halves
    assert_eq!(encrypt("HELLO", "KEY"), "RVWVS");
}

#[test]
fn test_porta_encrypt_drops_non_alphabetic() {
    // the space advances the key but leaves no output
    assert_eq!(encrypt("AB C", "A"), "NOP");
}

#[test]
fn test_porta_decrypt_halves() {
    // N decodes into the second half, A into the first
    assert_eq!(decrypt("N", "A"), "N");
    assert_eq!(decrypt("A", "A"), "A");
}

#[test]
fn test_porta_lowercase_key_matches_uppercase() {
    assert_eq!(encrypt("HELLO", "key"), encrypt("HELLO", "KEY"));
}

#[test]
fn test_porta_prepare_key() {
    assert_eq!(prepare_key("HELLO", "key"), "KEYKE");
    assert_eq!(prepare_key("HELLO", ""), "");
}

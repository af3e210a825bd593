use ciphers::rot13::rot13;

#[test]
fn test_rot13_with_lowercase() {
    assert_eq!(
        rot13("abcdefghijklmnopqrstuvwxyz"),
        "nopqrstuvwxyzabcdefghijklm"
    );
}

#[test]
fn test_rot13_with_uppercase() {
    assert_eq!(
        rot13("ABCDEFGHIJKLMNOPQRSTUVWXYZ"),
        "NOPQRSTUVWXYZABCDEFGHIJKLM"
    );
}

#[test]
fn test_rot13_with_mixed_case() {
    assert_eq!(rot13("Hello, World!"), "Uryyb, Jbeyq!");
}

#[test]
fn test_rot13_with_non_alphabetic() {
    assert_eq!(rot13("12345!@#$%^"), "12345!@#$%^");
}

#[test]
fn test_rot13_idempotent() {
    let input = "ROT13 is Idempotent!";
    assert_eq!(rot13(&rot13(input)), input);
}

use ciphers::polybius_square::{clean_input, decrypt, encrypt, find_char, find_coordinates};

#[test]
fn test_polybius_square_encrypt() {
    assert_eq!(encrypt("Hello World"), "2315313134 5234423114");
    assert_eq!(encrypt("Polybius Square"), "3534315412244543 434145114215");
    assert_eq!(encrypt("RUST"), "42454344");
}

#[test]
fn test_polybius_square_clean_input() {
    assert_eq!(clean_input("Hello% World!"), "Hello World");
    assert_eq!(
        clean_input("Polybius???????? Square%£@!±&*()"),
        "Polybius Square"
    );
    assert_eq!(
        clean_input("RUST Programming Language"),
        "RUST Programming Language"
    );
}

#[test]
fn test_polybius_square_find_coordinates() {
    assert_eq!(find_coordinates('H'), Some((1, 2, 'U')));
    assert_eq!(find_coordinates('e'), Some((0, 4, 'L')));
    assert_eq!(find_coordinates('l'), Some((2, 0, 'L')));
    assert_eq!(find_coordinates('o'), Some((2, 3, 'L')));
    assert_eq!(find_coordinates('W'), Some((4, 1, 'U')));
}

#[test]
fn test_polybius_square_find_char() {
    assert_eq!(find_char((1, 2), 'U'), Some('H'));
    assert_eq!(find_char((0, 4), 'L'), Some('e'));
    assert_eq!(find_char((2, 0), 'L'), Some('l'));
    assert_eq!(find_char((2, 3), 'L'), Some('o'));
    assert_eq!(find_char((4, 1), 'U'), Some('W'));
    assert_eq!(find_char((5, 5), 'U'), None);
}

#[test]
fn test_polybius_square_decrypt() {
    assert_eq!(
        decrypt("2315313134 5234423114"),
        Some("hello world".to_string())
    );
    assert_eq!(decrypt("42454344"), Some("rust".to_string()));
}

#[test]
fn test_polybius_square_decrypt_rejects_bad_input() {
    // a lone trailing digit
    assert_eq!(decrypt("424543441"), None);
    // zero is not a grid coordinate
    assert_eq!(decrypt("05"), None);
    // letters are not coordinates
    assert_eq!(decrypt("ab"), None);
}

#[test]
fn test_polybius_square_merges_j() {
    assert_eq!(encrypt("J"), encrypt("I"));
    assert_eq!(encrypt("j"), encrypt("i"));
}

#[test]
fn test_polybius_square_decode_buffer() {
    assert_eq!(ciphers::polybius_square::decode_buffer("23"), Some('h'));
    assert_eq!(ciphers::polybius_square::decode_buffer("11"), Some('a'));
    assert_eq!(ciphers::polybius_square::decode_buffer("06"), None);
    assert_eq!(ciphers::polybius_square::decode_buffer("2"), None);
    assert_eq!(ciphers::polybius_square::decode_buffer("234"), None);
}

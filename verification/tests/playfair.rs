use ciphers::playfair::{
    create_digraphs, create_matrix, decrypt, encrypt, find_position, prepare_text,
    process_digraph, Mode, PlayfairError,
};

#[test]
fn test_playfair_grid_keyed_by_playfair() {
    let square = create_matrix("PLAYFAIR");
    let expected: Vec<char> = "PLAYFIRBCDEGHKMNOQSTUVWXZ".chars().collect();
    assert_eq!(square.cells, expected);
}

#[test]
fn test_playfair_grid_is_permutation_of_alphabet() {
    let square = create_matrix("arbitrary keyword, with J and duplicates: JJKKLL");
    assert_eq!(square.cells.len(), 25);
    for c in "ABCDEFGHIKLMNOPQRSTUVWXYZ".chars() {
        assert_eq!(square.cells.iter().filter(|&&x| x == c).count(), 1);
    }
}

#[test]
fn test_playfair_grid_building_is_idempotent() {
    let first = create_matrix("Monarchy");
    let second = create_matrix("Monarchy");
    assert_eq!(first.cells, second.cells);
}

#[test]
fn test_playfair_prepare_text() {
    assert_eq!(prepare_text("Hide the Gold!"), "HIDETHEGOLD");
    assert_eq!(prepare_text("jazz"), "IAZZ");
    assert_eq!(prepare_text("123 ?!"), "");
}

#[test]
fn test_playfair_segment_hello() {
    let digraphs = create_digraphs("HELLO").unwrap();
    assert_eq!(digraphs, vec![('H', 'E'), ('L', 'X'), ('L', 'O')]);
}

#[test]
fn test_playfair_segment_doubled_filler_letter() {
    // a doubled 'X' is broken up by the alternate filler
    assert_eq!(create_digraphs("XX").unwrap(), vec![('X', 'Q'), ('X', 'Q')]);
    // a lone trailing 'X' is padded with the alternate filler too
    assert_eq!(create_digraphs("AXX").unwrap(), vec![('A', 'X'), ('X', 'Q')]);
}

#[test]
fn test_playfair_segment_empty() {
    assert_eq!(create_digraphs(""), Err(PlayfairError::InvalidText));
}

#[test]
fn test_playfair_encrypt_reference_vector() {
    assert_eq!(encrypt("PLAYFAIR", "HIDE THE GOLD").unwrap(), "EBIMQMGHVRCZ");
}

#[test]
fn test_playfair_decrypt_reference_vector() {
    assert_eq!(decrypt("PLAYFAIR", "EBIMQMGHVRCZ").unwrap(), "HIDETHEGOLDX");
}

#[test]
fn test_playfair_round_trip_well_formed_text() {
    let plaintext = "THEGOLDUNDER";
    let ciphertext = encrypt("PLAYFAIR", plaintext).unwrap();
    assert_eq!(decrypt("PLAYFAIR", &ciphertext).unwrap(), plaintext);
}

#[test]
fn test_playfair_empty_inputs() {
    assert_eq!(encrypt("KEY", ""), Err(PlayfairError::EmptyInput));
    assert_eq!(decrypt("KEY", ""), Err(PlayfairError::EmptyInput));
    assert_eq!(encrypt("", "SOME TEXT"), Err(PlayfairError::EmptyInput));
    assert_eq!(decrypt("", "SOME TEXT"), Err(PlayfairError::EmptyInput));
}

#[test]
fn test_playfair_text_without_valid_characters() {
    assert_eq!(encrypt("KEY", "123 !?"), Err(PlayfairError::InvalidText));
}

#[test]
fn test_playfair_find_position() {
    let square = create_matrix("PLAYFAIR");
    assert_eq!(find_position(&square, 'P'), Ok((0, 0)));
    assert_eq!(find_position(&square, 'Z'), Ok((4, 4)));
    assert_eq!(find_position(&square, 'J'), Err(PlayfairError::CharNotFound));
}

#[test]
fn test_playfair_rectangle_rule_is_self_inverse() {
    let square = create_matrix("PLAYFAIR");
    // 'H' and 'I' share neither row nor column in this square
    let once = process_digraph(&square, &('H', 'I'), &Mode::Encrypt).unwrap();
    assert_eq!(once, ('E', 'B'));
    let twice = process_digraph(&square, &once, &Mode::Encrypt).unwrap();
    assert_eq!(twice, ('H', 'I'));
}

#[test]
fn test_playfair_process_digraph_rejects_unknown_letter() {
    let square = create_matrix("PLAYFAIR");
    assert_eq!(
        process_digraph(&square, &('J', 'A'), &Mode::Encrypt),
        Err(PlayfairError::CharNotFound)
    );
}

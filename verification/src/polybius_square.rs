//! The Polybius square cipher: letters become pairs of coordinate digits
//! in a fixed 5x5 grid (I and J merged), with spaces passed through.
//!
//! There is one grid layout in two cases: uppercase letters are located
//! in the uppercase grid, lowercase letters in the lowercase grid, and
//! both give the same coordinates. Decryption reads digit pairs back and
//! prefers the lowercase grid, so decrypted letters are lowercase.

use vstd::prelude::*;
use vstd::arithmetic::div_mod::{lemma_fundamental_div_mod, lemma_mod_bound};
use crate::text::{is_letter, is_lower, is_upper, str_to_chars, chars_to_string};

verus! {

/// A letter of the uppercase grid: an uppercase ASCII letter other
/// than 'J'.
pub open spec fn in_upper_grid(c: char) -> bool {
    is_upper(c) && c != 'J'
}

/// A letter of the lowercase grid: a lowercase ASCII letter other
/// than 'j'.
pub open spec fn in_lower_grid(c: char) -> bool {
    is_lower(c) && c != 'j'
}

/// The letter of the uppercase grid at cell index `i`, row-major: the
/// uppercase alphabet in order with 'J' left out.
pub open spec fn upper_letter(i: int) -> char {
    if i < 9 {
        (65 + i) as char
    } else {
        (66 + i) as char
    }
}

/// The letter of the lowercase grid at cell index `i`, row-major.
pub open spec fn lower_letter(i: int) -> char {
    if i < 9 {
        (97 + i) as char
    } else {
        (98 + i) as char
    }
}

/// The cell index of an uppercase grid letter.
pub open spec fn upper_index(c: char) -> int {
    if c as int <= 73 {
        (c as int) - 65
    } else {
        (c as int) - 66
    }
}

/// The cell index of a lowercase grid letter.
pub open spec fn lower_index(c: char) -> int {
    if c as int <= 105 {
        (c as int) - 97
    } else {
        (c as int) - 98
    }
}

/// What cleaning keeps of one character: ASCII letters (with 'J' and 'j'
/// replaced by 'I' and 'i') and spaces; everything else is dropped.
pub open spec fn clean_char(c: char) -> Option<char> {
    if is_letter(c) {
        if c == 'J' {
            Some('I')
        } else if c == 'j' {
            Some('i')
        } else {
            Some(c)
        }
    } else if c == ' ' {
        Some(c)
    } else {
        None
    }
}

/// A whole string cleaned character by character.
pub open spec fn clean_spec(s: Seq<char>) -> Seq<char>
    decreases s.len(),
{
    if s.len() == 0 {
        Seq::empty()
    } else {
        clean_spec(s.drop_last()) + match clean_char(s.last()) {
            Some(c) => seq![c],
            None => Seq::empty(),
        }
    }
}

/// The coordinate digits of one cleaned character: a space stays a
/// space, and a grid letter becomes its one-based row and column digits.
pub open spec fn encrypt_char(c: char) -> Seq<char> {
    if c == ' ' {
        seq![' ']
    } else {
        let idx = if in_upper_grid(c) {
            upper_index(c)
        } else {
            lower_index(c)
        };
        seq![(49 + idx / 5) as char, (49 + idx % 5) as char]
    }
}

/// A whole cleaned string encrypted character by character.
pub open spec fn encrypt_spec(s: Seq<char>) -> Seq<char>
    decreases s.len(),
{
    if s.len() == 0 {
        Seq::empty()
    } else {
        encrypt_spec(s.drop_last()) + encrypt_char(s.last())
    }
}

/// What a pair of coordinate digits decodes to: the lowercase grid
/// letter at those one-based coordinates, or nothing when either
/// character is not a digit from one to five.
pub open spec fn decode_pair(p: char, c: char) -> Option<char> {
    if '1' <= p && p <= '5' && '1' <= c && c <= '5' {
        Some(lower_letter(5 * ((p as int) - 49) + ((c as int) - 49)))
    } else {
        None
    }
}

/// The decryption of the ciphertext from position `i` on, with at most
/// one pending coordinate digit carried in `pending`: spaces pass
/// through, other characters pair up into coordinates, and the whole
/// decryption fails when a pair does not decode or a digit is left over.
pub open spec fn decrypt_from(s: Seq<char>, i: int, pending: Option<char>) -> Option<Seq<char>>
    decreases s.len() - i when 0 <= i <= s.len()
{
    if i >= s.len() {
        match pending {
            None => Some(Seq::empty()),
            Some(_) => None,
        }
    } else if s[i] == ' ' {
        match decrypt_from(s, i + 1, pending) {
            Some(t) => Some(seq![' '] + t),
            None => None,
        }
    } else {
        match pending {
            None => decrypt_from(s, i + 1, Some(s[i])),
            Some(p) => match decode_pair(p, s[i]) {
                Some(ch) => match decrypt_from(s, i + 1, None) {
                    Some(t) => Some(seq![ch] + t),
                    None => None,
                },
                None => None,
            },
        }
    }
}

/// A prefix prepended to a decryption that may have failed.
pub open spec fn prepend_opt(pre: Seq<char>, rest: Option<Seq<char>>) -> Option<Seq<char>> {
    match rest {
        Some(t) => Some(pre + t),
        None => None,
    }
}

/// Cleans the input string: ASCII letters are kept with 'J' merged into
/// 'I' (and 'j' into 'i'), spaces are kept, everything else is dropped.
pub fn clean_input(input: &str) -> (r: String)
    ensures
        r@ == clean_spec(input@),
{
    let chars = str_to_chars(input);
    let mut out: Vec<char> = Vec::new();
    let mut i: usize = 0;
    while i < chars.len()
        invariant
            chars@ == input@,
            i <= chars@.len(),
            out@ == clean_spec(input@.take(i as int)),
        decreases chars@.len() - i,
    {
        proof {
            assert(input@.take(i + 1).drop_last() =~= input@.take(i as int));
            assert(input@.take(i + 1).last() == input@[i as int]);
        }
        let c = chars[i];
        if ('a' <= c && c <= 'z') || ('A' <= c && c <= 'Z') {
            if c == 'J' {
                out.push('I');
            } else if c == 'j' {
                out.push('i');
            } else {
                out.push(c);
            }
        } else if c == ' ' {
            out.push(c);
        }
        proof {
            assert(out@ =~= clean_spec(input@.take(i + 1)));
        }
        i = i + 1;
    }
    proof {
        assert(input@.take(input@.len() as int) =~= input@);
    }
    chars_to_string(&out)
}

/// Every cleaned character is a space or a grid letter.
proof fn lemma_clean_shape(s: Seq<char>)
    ensures
        forall|i: int|
            0 <= i < clean_spec(s).len() ==> (#[trigger] clean_spec(s)[i]) == ' ' || in_upper_grid(
                clean_spec(s)[i],
            ) || in_lower_grid(clean_spec(s)[i]),
    decreases s.len(),
{
    if s.len() > 0 {
        lemma_clean_shape(s.drop_last());
        let pre = clean_spec(s.drop_last());
        assert forall|i: int|
            0 <= i < clean_spec(s).len() implies (#[trigger] clean_spec(s)[i]) == ' '
            || in_upper_grid(clean_spec(s)[i]) || in_lower_grid(clean_spec(s)[i]) by {
            if i < pre.len() {
                assert(clean_spec(s)[i] == pre[i]);
            }
        }
    }
}

/// Finds the coordinates of a character in the grids, with `'U'` naming
/// the uppercase grid and `'L'` the lowercase one.
pub fn find_coordinates(ch: char) -> (r: Option<(usize, usize, char)>)
    ensures
        in_upper_grid(ch) ==> r == Some(
            ((upper_index(ch) / 5) as usize, (upper_index(ch) % 5) as usize, 'U'),
        ),
        in_lower_grid(ch) ==> r == Some(
            ((lower_index(ch) / 5) as usize, (lower_index(ch) % 5) as usize, 'L'),
        ),
        !in_upper_grid(ch) && !in_lower_grid(ch) ==> r is None,
{
    if 'A' <= ch && ch <= 'Z' && ch != 'J' {
        let code = ch as u32;
        let idx = (if code <= 73 {
            code - 65
        } else {
            code - 66
        }) as usize;
        Some((idx / 5, idx % 5, 'U'))
    } else if 'a' <= ch && ch <= 'z' && ch != 'j' {
        let code = ch as u32;
        let idx = (if code <= 105 {
            code - 97
        } else {
            code - 98
        }) as usize;
        Some((idx / 5, idx % 5, 'L'))
    } else {
        None
    }
}

/// The letter of a grid at given zero-based coordinates, with `'U'`
/// naming the uppercase grid and `'L'` the lowercase one; `None` for
/// coordinates off the grid or any other grid name.
pub fn find_char(coordinates: (usize, usize), grid_indicator: char) -> (r: Option<char>)
    ensures
        coordinates.0 < 5 && coordinates.1 < 5 && grid_indicator == 'U' ==> r == Some(
            upper_letter(5 * coordinates.0 + coordinates.1),
        ),
        coordinates.0 < 5 && coordinates.1 < 5 && grid_indicator == 'L' ==> r == Some(
            lower_letter(5 * coordinates.0 + coordinates.1),
        ),
        !(coordinates.0 < 5 && coordinates.1 < 5 && (grid_indicator == 'U' || grid_indicator
            == 'L')) ==> r is None,
{
    if coordinates.0 < 5 && coordinates.1 < 5 {
        let idx = 5 * coordinates.0 + coordinates.1;
        if grid_indicator == 'U' {
            Some(upper_letter_at(idx))
        } else if grid_indicator == 'L' {
            Some(lower_letter_at(idx))
        } else {
            None
        }
    } else {
        None
    }
}

/// The uppercase grid letter at a cell index, as executable code.
fn upper_letter_at(i: usize) -> (c: char)
    requires
        i < 25,
    ensures
        c == upper_letter(i as int),
{
    if i < 9 {
        ((65 + i) as u8) as char
    } else {
        ((66 + i) as u8) as char
    }
}

/// The lowercase grid letter at a cell index, as executable code.
fn lower_letter_at(i: usize) -> (c: char)
    requires
        i < 25,
    ensures
        c == lower_letter(i as int),
{
    if i < 9 {
        ((97 + i) as u8) as char
    } else {
        ((98 + i) as u8) as char
    }
}

/// Decodes a buffer of two coordinate digits to the lowercase grid
/// letter at those one-based coordinates; `None` for a buffer of any
/// other length or content.
pub fn decode_buffer(buffer: &str) -> (r: Option<char>)
    ensures
        buffer@.len() == 2 ==> r == decode_pair(buffer@[0], buffer@[1]),
        buffer@.len() != 2 ==> r is None,
{
    let chars = str_to_chars(buffer);
    if chars.len() != 2 {
        return None;
    }
    let p = chars[0];
    let c = chars[1];
    if '1' <= p && p <= '5' && '1' <= c && c <= '5' {
        let idx = 5 * ((p as u32 as usize) - 49) + ((c as u32 as usize) - 49);
        Some(lower_letter_at(idx))
    } else {
        None
    }
}

/// Encrypts a plaintext with the Polybius square.
///
/// The input is cleaned first; each letter then becomes its two
/// one-based coordinate digits and spaces pass through.
pub fn encrypt(plaintext: &str) -> (r: String)
    ensures
        r@ == encrypt_spec(clean_spec(plaintext@)),
{
    let cleaned_input = clean_input(plaintext);
    let chars = str_to_chars(cleaned_input.as_str());
    proof {
        lemma_clean_shape(plaintext@);
    }
    let ghost cs = clean_spec(plaintext@);
    let mut out: Vec<char> = Vec::new();
    let mut i: usize = 0;
    while i < chars.len()
        invariant
            chars@ == cs,
            cs == clean_spec(plaintext@),
            i <= cs.len(),
            forall|j: int|
                0 <= j < cs.len() ==> (#[trigger] cs[j]) == ' ' || in_upper_grid(cs[j])
                    || in_lower_grid(cs[j]),
            out@ == encrypt_spec(cs.take(i as int)),
        decreases chars@.len() - i,
    {
        proof {
            assert(cs.take(i + 1).drop_last() =~= cs.take(i as int));
            assert(cs.take(i + 1).last() == cs[i as int]);
        }
        let ch = chars[i];
        if ch == ' ' {
            out.push(' ');
        } else {
            match find_coordinates(ch) {
                Some((row, col, _)) => {
                    proof {
                        let idx = if in_upper_grid(cs[i as int]) {
                            upper_index(cs[i as int])
                        } else {
                            lower_index(cs[i as int])
                        };
                        lemma_fundamental_div_mod(idx, 5);
                        lemma_mod_bound(idx, 5);
                        assert(idx / 5 < 5) by {
                            if idx / 5 >= 5 {
                                assert(idx / 5 * 5 >= 25) by (nonlinear_arith)
                                    requires
                                        idx / 5 >= 5,
                                ;
                            }
                        }
                        assert(idx / 5 >= 0) by {
                            if idx / 5 < 0 {
                                assert(idx / 5 * 5 <= -5) by (nonlinear_arith)
                                    requires
                                        idx / 5 <= -1,
                                ;
                            }
                        }
                    }
                    out.push(((49 + row as u32) as u8) as char);
                    out.push(((49 + col as u32) as u8) as char);
                },
                None => {
                    proof {
                        assert(false);
                    }
                },
            }
        }
        proof {
            assert(out@ =~= encrypt_spec(cs.take(i + 1)));
        }
        i = i + 1;
    }
    proof {
        assert(cs.take(cs.len() as int) =~= cs);
    }
    chars_to_string(&out)
}

/// Decrypts a ciphertext with the Polybius square.
///
/// Digit pairs become lowercase grid letters and spaces pass through;
/// the result is `None` when a pair does not decode to a grid cell or a
/// lone digit is left over.
pub fn decrypt(ciphertext: &str) -> (r: Option<String>)
    ensures
        decrypt_from(ciphertext@, 0, None) matches Some(t) ==> (r matches Some(s) && s@ == t),
        decrypt_from(ciphertext@, 0, None) is None ==> r is None,
{
    let chars = str_to_chars(ciphertext);
    let mut plaintext: Vec<char> = Vec::new();
    let mut pending: Option<char> = None;
    let mut i: usize = 0;
    proof {
        assert(prepend_opt(plaintext@, decrypt_from(ciphertext@, 0, pending)) == decrypt_from(
            ciphertext@,
            0,
            None,
        )) by {
            match decrypt_from(ciphertext@, 0, None) {
                Some(t) => {
                    assert(plaintext@ + t =~= t);
                },
                None => {},
            }
        }
    }
    while i < chars.len()
        invariant
            chars@ == ciphertext@,
            i <= chars@.len(),
            prepend_opt(plaintext@, decrypt_from(ciphertext@, i as int, pending)) == decrypt_from(
                ciphertext@,
                0,
                None,
            ),
        decreases chars@.len() - i,
    {
        let ghost old_out = plaintext@;
        let ghost old_pending = pending;
        let c = chars[i];
        if c == ' ' {
            plaintext.push(' ');
            proof {
                lemma_prepend_push(
                    old_out,
                    ' ',
                    decrypt_from(ciphertext@, i + 1, old_pending),
                );
            }
        } else {
            match pending {
                None => {
                    pending = Some(c);
                },
                Some(p) => {
                    if '1' <= p && p <= '5' && '1' <= c && c <= '5' {
                        let idx = 5 * ((p as u32 as usize) - 49) + ((c as u32 as usize) - 49);
                        let letter = lower_letter_at(idx);
                        plaintext.push(letter);
                        pending = None;
                        proof {
                            assert(decode_pair(p, c) == Some(lower_letter(idx as int)));
                            lemma_prepend_push(
                                old_out,
                                letter,
                                decrypt_from(ciphertext@, i + 1, None),
                            );
                        }
                    } else {
                        proof {
                            assert(decode_pair(p, c) is None);
                            assert(decrypt_from(ciphertext@, i as int, old_pending) is None);
                        }
                        return None;
                    }
                },
            }
        }
        i = i + 1;
    }
    match pending {
        None => {
            proof {
                assert(decrypt_from(ciphertext@, i as int, None) == Some(Seq::<char>::empty()));
                match decrypt_from(ciphertext@, 0, None) {
                    Some(t) => {
                        assert(plaintext@ + Seq::<char>::empty() =~= plaintext@);
                    },
                    None => {},
                }
            }
            Some(chars_to_string(&plaintext))
        },
        Some(_) => {
            None
        },
    }
}

/// Pushing a decoded character onto the prefix absorbs one prepended
/// singleton.
proof fn lemma_prepend_push(pre: Seq<char>, c: char, rest: Option<Seq<char>>)
    ensures
        prepend_opt(pre.push(c), rest) == prepend_opt(
            pre,
            match rest {
                Some(t) => Some(seq![c] + t),
                None => None,
            },
        ),
{
    match rest {
        Some(t) => {
            assert(pre.push(c) + t =~= pre + (seq![c] + t));
        },
        None => {},
    }
}

} // verus!

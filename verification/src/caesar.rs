//! The Caesar cipher.

use vstd::prelude::*;
use crate::arith::rem_euclid_i64;
use crate::text::{is_lower, is_upper, str_to_chars, chars_to_string};

verus! {

/// Modes of operation for the Caesar cipher.
///
/// The two modes of operation are `Encrypt` for encryption and `Decrypt`
/// for decryption.
enum Mode {
    Encrypt,
    Decrypt,
}

/// One ASCII letter shifted by `key` places within its own case, forward
/// when encrypting and backward when decrypting, wrapping around the
/// alphabet; every other character is left unchanged.
pub open spec fn caesar_char(c: char, key: int, encrypting: bool) -> char {
    if is_upper(c) {
        if encrypting {
            (65 + (((c as int) - 65 + key) % 26)) as char
        } else {
            (65 + (((c as int) - 65 - key) % 26)) as char
        }
    } else if is_lower(c) {
        if encrypting {
            (97 + (((c as int) - 97 + key) % 26)) as char
        } else {
            (97 + (((c as int) - 97 - key) % 26)) as char
        }
    } else {
        c
    }
}

/// A whole string shifted character by character.
pub open spec fn caesar_spec(s: Seq<char>, key: int, encrypting: bool) -> Seq<char> {
    Seq::new(s.len(), |i: int| caesar_char(s[i], key, encrypting))
}

/// Encrypts a given plaintext string using the Caesar cipher.
pub fn encrypt(plaintext: &str, key: i32) -> (r: String)
    ensures
        r@ == caesar_spec(plaintext@, key as int, true),
{
    encipher(Mode::Encrypt, plaintext, key)
}

/// Decrypts a given ciphertext string using the Caesar cipher.
pub fn decrypt(ciphertext: &str, key: i32) -> (r: String)
    ensures
        r@ == caesar_spec(ciphertext@, key as int, false),
{
    encipher(Mode::Decrypt, ciphertext, key)
}

/// Encrypts or decrypts a given string based on the specified mode.
fn encipher(mode: Mode, data: &str, key: i32) -> (r: String)
    ensures
        r@ == caesar_spec(data@, key as int, mode is Encrypt),
{
    let ghost enc = mode is Encrypt;
    let chars = str_to_chars(data);
    let mut out: Vec<char> = Vec::new();
    let mut i: usize = 0;
    while i < chars.len()
        invariant
            chars@ == data@,
            i <= chars@.len(),
            out@.len() == i,
            enc == mode is Encrypt,
            forall|j: int| 0 <= j < i ==> out@[j] == caesar_char(data@[j], key as int, enc),
        decreases chars@.len() - i,
    {
        let c = chars[i];
        let t = if 'A' <= c && c <= 'Z' {
            process_char(c, &mode, key, 'A')
        } else if 'a' <= c && c <= 'z' {
            process_char(c, &mode, key, 'a')
        } else {
            c
        };
        out.push(t);
        i = i + 1;
    }
    proof {
        assert(out@ =~= caesar_spec(data@, key as int, enc));
    }
    chars_to_string(&out)
}

/// Transforms one letter based on the mode and key, relative to the base
/// letter of its case.
fn process_char(c: char, mode: &Mode, key: i32, offset: char) -> (r: char)
    requires
        offset == 'A' && is_upper(c) || offset == 'a' && is_lower(c),
    ensures
        r == caesar_char(c, key as int, *mode is Encrypt),
{
    let char_pos = (c as u32 - offset as u32) as i64;
    let shifted = match mode {
        Mode::Encrypt => rem_euclid_i64(char_pos + (key as i64), 26),
        Mode::Decrypt => rem_euclid_i64(char_pos - (key as i64), 26),
    };
    (((offset as u32) + (shifted as u32)) as u8) as char
}

} // verus!

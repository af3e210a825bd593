//! The Porta cipher: a reciprocal-style substitution driven by a cycled
//! key over thirteen alphabet halves.
//!
//! The key is cycled along the text, counting every character of the text
//! whether or not it is enciphered; characters outside the ASCII alphabet
//! are dropped from the output. Case folding of the key is ASCII-only, and
//! a key character contributes the offset of its code point from 'A', so a
//! key is normally a string of ASCII letters; an empty key contributes an
//! offset of zero.
//!
//! Enciphering maps every letter into the second half of the alphabet
//! (N to Z), while deciphering sends first-half letters into the first
//! half and second-half letters into the second. The pair is therefore
//! not mutually inverse: deciphering an enciphered text restores a
//! plaintext letter of the second half exactly, but returns a first-half
//! letter as its second-half counterpart thirteen places on.

use vstd::prelude::*;
use crate::arith::rem_euclid_i64;
use crate::text::{ascii_upper, is_letter, str_to_chars, chars_to_string, upper_char};

verus! {

/// Represents the mode of operation: encryption or decryption.
#[derive(Clone, Copy)]
enum Mode {
    Encrypt,
    Decrypt,
}

/// The offset of a character's ASCII-uppercased code point from 'A'.
pub open spec fn key_offset(c: char) -> int {
    (ascii_upper(c) as int) - 65
}

/// The key's offset at text position `i`, cycling the key; zero when the
/// key is empty.
pub open spec fn key_offset_at(key: Seq<char>, i: int) -> int {
    if key.len() == 0 {
        0
    } else {
        key_offset(key[i % (key.len() as int)])
    }
}

/// One ASCII letter enciphered under a key offset: the letter's index and
/// the offset are added modulo thirteen and the result is taken from the
/// second half of the alphabet.
pub open spec fn porta_enc_char(c: char, k: int) -> char {
    (78 + ((key_offset(c) + k) % 13)) as char
}

/// One ASCII letter deciphered under a key offset: letters of the first
/// half map into the first half, letters of the second half into the
/// second half, the offset subtracted modulo thirteen.
pub open spec fn porta_dec_char(c: char, k: int) -> char {
    if key_offset(c) < 13 {
        (65 + ((key_offset(c) - k) % 13)) as char
    } else {
        (78 + ((key_offset(c) - k) % 13)) as char
    }
}

/// A whole text enciphered from position `i` on: ASCII letters are
/// transformed under the key offset at their position, every other
/// character is dropped (but still advances the key).
pub open spec fn porta_spec(s: Seq<char>, key: Seq<char>, i: int, encrypting: bool) -> Seq<char>
    decreases s.len() - i when 0 <= i <= s.len()
{
    if i >= s.len() {
        Seq::empty()
    } else if is_letter(s[i]) {
        seq![
            if encrypting {
                porta_enc_char(s[i], key_offset_at(key, i))
            } else {
                porta_dec_char(s[i], key_offset_at(key, i))
            },
        ] + porta_spec(s, key, i + 1, encrypting)
    } else {
        porta_spec(s, key, i + 1, encrypting)
    }
}

/// Encrypts the provided plaintext using the Porta cipher and the
/// provided key.
pub fn encrypt(plaintext: &str, key: &str) -> (r: String)
    ensures
        r@ == porta_spec(plaintext@, key@, 0, true),
{
    encipher(plaintext, key, Mode::Encrypt)
}

/// Decrypts the provided ciphertext using the Porta cipher and the
/// provided key.
pub fn decrypt(ciphertext: &str, key: &str) -> (r: String)
    ensures
        r@ == porta_spec(ciphertext@, key@, 0, false),
{
    encipher(ciphertext, key, Mode::Decrypt)
}

/// Core logic for the encryption/decryption process.
fn encipher(text: &str, key: &str, mode: Mode) -> (r: String)
    ensures
        r@ == porta_spec(text@, key@, 0, mode is Encrypt),
{
    let ghost enc = mode is Encrypt;
    let chars = str_to_chars(text);
    let key_chars = str_to_chars(key);
    let mut out: Vec<char> = Vec::new();
    let mut i: usize = 0;
    while i < chars.len()
        invariant
            chars@ == text@,
            key_chars@ == key@,
            i <= chars@.len(),
            enc == mode is Encrypt,
            porta_spec(text@, key@, 0, enc) == out@ + porta_spec(text@, key@, i as int, enc),
        decreases chars@.len() - i,
    {
        let c = chars[i];
        if ('a' <= c && c <= 'z') || ('A' <= c && c <= 'Z') {
            let text_idx = char_to_index(upper_char(c)) as i64;
            let key_idx: i64 = if key_chars.len() == 0 {
                0
            } else {
                let kc = key_chars[i % key_chars.len()];
                (upper_char(kc) as u32 as i64) - 65
            };
            let t = match mode {
                Mode::Encrypt => {
                    let idx = rem_euclid_i64(text_idx + key_idx, 13);
                    index_to_char(idx as usize, true)
                },
                Mode::Decrypt => {
                    let idx = rem_euclid_i64(text_idx - key_idx, 13);
                    index_to_char(idx as usize, text_idx >= 13)
                },
            };
            out.push(t);
        }
        proof {
            assert(out@ + porta_spec(text@, key@, i + 1, enc) =~= porta_spec(
                text@,
                key@,
                0,
                enc,
            ));
        }
        i = i + 1;
    }
    chars_to_string(&out)
}

/// Prepares the key by cycling its uppercased characters to the byte
/// length of the text.
pub fn prepare_key(text: &str, key: &str) -> (r: String)
    ensures
        r@.len() == (if key@.len() == 0 {
            0int
        } else {
            text.len() as int
        }),
        forall|i: int|
            0 <= i < r@.len() ==> r@[i] == ascii_upper(key@[i % (key@.len() as int)]),
{
    let key_chars = str_to_chars(key);
    let mut out: Vec<char> = Vec::new();
    if key_chars.len() == 0 {
        return chars_to_string(&out);
    }
    let n = text.len();
    let mut i: usize = 0;
    while i < n
        invariant
            key_chars@ == key@,
            key_chars@.len() > 0,
            i <= n,
            out@.len() == i,
            forall|j: int|
                0 <= j < i ==> out@[j] == ascii_upper(key@[j % (key@.len() as int)]),
        decreases n - i,
    {
        out.push(upper_char(key_chars[i % key_chars.len()]));
        i = i + 1;
    }
    chars_to_string(&out)
}

/// Converts an uppercase ASCII letter to its index in the alphabet.
pub fn char_to_index(ch: char) -> (r: usize)
    requires
        'A' <= ch && ch <= 'Z',
    ensures
        r == (ch as int) - 65,
{
    (ch as u32 as usize) - 65
}

/// Converts an index within one half of the alphabet to its letter, in
/// the first or the second half.
pub fn index_to_char(index: usize, is_second_half: bool) -> (r: char)
    requires
        index < 13,
    ensures
        is_second_half ==> r == (78 + index as int) as char,
        !is_second_half ==> r == (65 + index as int) as char,
{
    let adjusted_index = if is_second_half {
        index + 13
    } else {
        index
    };
    ((adjusted_index + 65) as u8) as char
}

} // verus!

//! The Vigenère cipher: a polyalphabetic substitution over the uppercase
//! ASCII alphabet.
//!
//! The key is cycled along the text; each key character that is an
//! uppercase letter contributes its alphabet position as the shift, and
//! any other key character contributes a shift of zero. Text characters
//! outside the uppercase alphabet are treated as position zero, so inputs
//! are normally passed through [`prepare_string`] first.

use vstd::prelude::*;
use crate::text::{ascii_upper, is_letter, is_upper, str_to_chars, chars_to_string, upper_char};

verus! {

/// Enumeration for distinguishing encryption and decryption operations.
#[derive(Debug, Clone, Copy, PartialEq, Eq)]
pub enum Operation {
    Encrypt,
    Decrypt,
}

/// The alphabet position of an uppercase letter; zero for any other
/// character.
pub open spec fn alpha_pos(c: char) -> int {
    if is_upper(c) {
        (c as int) - 65
    } else {
        0
    }
}

/// The shift the cycled key contributes at text position `i`: the
/// alphabet position of the key character there, or zero for an empty key.
pub open spec fn key_shift(key: Seq<char>, i: int) -> int {
    if key.len() == 0 {
        0
    } else {
        alpha_pos(key[i % (key.len() as int)])
    }
}

/// One character shifted along the uppercase alphabet, forward when
/// encrypting and backward when decrypting.
pub open spec fn shifted_char(c: char, shift: int, encrypting: bool) -> char {
    if encrypting {
        (65 + ((alpha_pos(c) + shift) % 26)) as char
    } else {
        (65 + ((alpha_pos(c) - shift) % 26)) as char
    }
}

/// A whole string enciphered under the cycled key.
pub open spec fn vigenere_spec(s: Seq<char>, key: Seq<char>, encrypting: bool) -> Seq<char> {
    Seq::new(s.len(), |i: int| shifted_char(s[i], key_shift(key, i), encrypting))
}

/// The input uppercased with every character outside the ASCII alphabet
/// dropped.
pub open spec fn prepare_spec(s: Seq<char>) -> Seq<char>
    decreases s.len(),
{
    if s.len() == 0 {
        Seq::empty()
    } else {
        prepare_spec(s.drop_last()) + if is_letter(s.last()) {
            seq![ascii_upper(s.last())]
        } else {
            Seq::empty()
        }
    }
}

/// Encrypts the provided plaintext using the Vigenère cipher and the
/// given key.
pub fn encrypt(plaintext: &str, key: &str) -> (r: String)
    ensures
        r@ == vigenere_spec(plaintext@, key@, true),
{
    encipher(plaintext, key, Operation::Encrypt)
}

/// Decrypts the provided ciphertext using the Vigenère cipher and the
/// given key.
pub fn decrypt(ciphertext: &str, key: &str) -> (r: String)
    ensures
        r@ == vigenere_spec(ciphertext@, key@, false),
{
    encipher(ciphertext, key, Operation::Decrypt)
}

/// Transforms the provided text using the Vigenère cipher and the given
/// key based on the specified operation.
pub fn encipher(data: &str, key: &str, op: Operation) -> (r: String)
    ensures
        r@ == vigenere_spec(data@, key@, op is Encrypt),
{
    let ghost enc = op is Encrypt;
    let chars = str_to_chars(data);
    let key_chars = str_to_chars(key);
    let mut out: Vec<char> = Vec::new();
    let mut i: usize = 0;
    while i < chars.len()
        invariant
            chars@ == data@,
            key_chars@ == key@,
            i <= chars@.len(),
            out@.len() == i,
            enc == op is Encrypt,
            forall|j: int|
                0 <= j < i ==> out@[j] == shifted_char(data@[j], key_shift(key@, j), enc),
        decreases chars@.len() - i,
    {
        let shift: u32 = if key_chars.len() == 0 {
            0
        } else {
            let kc = key_chars[i % key_chars.len()];
            if 'A' <= kc && kc <= 'Z' {
                (kc as u32) - 65
            } else {
                0
            }
        };
        let t = shift_char(chars[i], shift, op);
        out.push(t);
        i = i + 1;
    }
    proof {
        assert(out@ =~= vigenere_spec(data@, key@, enc));
    }
    chars_to_string(&out)
}

/// Extends the key to the desired length by cycling it.
pub fn extend_key(key: &str, txt_len: usize) -> (r: String)
    ensures
        r@.len() == (if key@.len() == 0 {
            0int
        } else {
            txt_len as int
        }),
        forall|i: int| 0 <= i < r@.len() ==> r@[i] == key@[i % (key@.len() as int)],
{
    let key_chars = str_to_chars(key);
    let mut out: Vec<char> = Vec::new();
    if key_chars.len() == 0 {
        return chars_to_string(&out);
    }
    let mut i: usize = 0;
    while i < txt_len
        invariant
            key_chars@ == key@,
            key_chars@.len() > 0,
            i <= txt_len,
            out@.len() == i,
            forall|j: int| 0 <= j < i ==> out@[j] == key@[j % (key@.len() as int)],
        decreases txt_len - i,
    {
        out.push(key_chars[i % key_chars.len()]);
        i = i + 1;
    }
    chars_to_string(&out)
}

/// Shifts one character along the uppercase alphabet by `shift` places,
/// forward when encrypting and backward when decrypting. A character
/// outside the uppercase alphabet counts as position zero.
fn shift_char(c: char, shift: u32, op: Operation) -> (r: char)
    requires
        shift < 26,
    ensures
        r == shifted_char(c, shift as int, op is Encrypt),
{
    let position: u32 = if 'A' <= c && c <= 'Z' {
        (c as u32) - 65
    } else {
        0
    };
    let new_position = match op {
        Operation::Encrypt => (position + shift) % 26,
        Operation::Decrypt => (position + 26 - shift) % 26,
    };
    proof {
        if !(op is Encrypt) {
            vstd::arithmetic::div_mod::lemma_mod_multiples_vanish(
                1,
                alpha_pos(c) - shift,
                26,
            );
        }
    }
    ((65 + new_position) as u8) as char
}

/// Prepares a string by uppercasing it and dropping every character
/// outside the ASCII alphabet.
pub fn prepare_string(input_string: &str) -> (r: String)
    ensures
        r@ == prepare_spec(input_string@),
{
    let chars = str_to_chars(input_string);
    let mut out: Vec<char> = Vec::new();
    let mut i: usize = 0;
    while i < chars.len()
        invariant
            chars@ == input_string@,
            i <= chars@.len(),
            out@ == prepare_spec(input_string@.take(i as int)),
        decreases chars@.len() - i,
    {
        proof {
            assert(input_string@.take(i + 1).drop_last() =~= input_string@.take(i as int));
            assert(input_string@.take(i + 1).last() == input_string@[i as int]);
        }
        let c = chars[i];
        if ('a' <= c && c <= 'z') || ('A' <= c && c <= 'Z') {
            out.push(upper_char(c));
        }
        proof {
            assert(out@ =~= prepare_spec(input_string@.take(i + 1)));
        }
        i = i + 1;
    }
    proof {
        assert(input_string@.take(input_string@.len() as int) =~= input_string@);
    }
    chars_to_string(&out)
}

/// Deciphering with the same key inverts enciphering, character by
/// character, for every text and key.
pub proof fn lemma_vigenere_round_trip(s: Seq<char>, key: Seq<char>)
    requires
        forall|i: int| 0 <= i < s.len() ==> is_upper(#[trigger] s[i]),
    ensures
        vigenere_spec(vigenere_spec(s, key, true), key, false) == s,
{
    let ct = vigenere_spec(s, key, true);
    assert forall|i: int| 0 <= i < s.len() implies vigenere_spec(ct, key, false)[i] == s[i] by {
        let p = alpha_pos(s[i]);
        let k = key_shift(key, i);
        assert(0 <= p < 26);
        assert(ct[i] == (65 + ((p + k) % 26)) as char);
        assert(0 <= (p + k) % 26 < 26) by {
            vstd::arithmetic::div_mod::lemma_mod_bound(p + k, 26);
        }
        assert(alpha_pos(ct[i]) == (p + k) % 26);
        assert(((p + k) % 26 - k) % 26 == p) by {
            vstd::arithmetic::div_mod::lemma_sub_mod_noop(p + k, k, 26);
            assert((p + k - k) % 26 == p % 26);
            vstd::arithmetic::div_mod::lemma_small_mod(p as nat, 26);
        }
    }
    assert(vigenere_spec(ct, key, false) =~= s);
}

} // verus!

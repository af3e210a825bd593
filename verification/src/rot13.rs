//! The ROT13 cipher.

use vstd::prelude::*;
use crate::text::{is_lower, is_upper, str_to_chars, chars_to_string};

verus! {

/// One character rotated by thirteen places within its own case; every
/// character outside the ASCII alphabet is left unchanged.
pub open spec fn rot13_char(c: char) -> char {
    if is_lower(c) {
        (97 + (((c as int) - 97 + 13) % 26)) as char
    } else if is_upper(c) {
        (65 + (((c as int) - 65 + 13) % 26)) as char
    } else {
        c
    }
}

/// A whole string rotated character by character.
pub open spec fn rot13_spec(s: Seq<char>) -> Seq<char> {
    Seq::new(s.len(), |i: int| rot13_char(s[i]))
}

/// Performs a ROT13 transformation on a given string slice.
///
/// Each ASCII letter is rotated thirteen places within its own case;
/// everything else passes through unchanged. ROT13 is its own inverse, so
/// this one function both encrypts and decrypts.
pub fn rot13(input: &str) -> (r: String)
    ensures
        r@ == rot13_spec(input@),
{
    let chars = str_to_chars(input);
    let mut out: Vec<char> = Vec::new();
    let mut i: usize = 0;
    while i < chars.len()
        invariant
            chars@ == input@,
            i <= chars@.len(),
            out@.len() == i,
            forall|j: int| 0 <= j < i ==> out@[j] == rot13_char(input@[j]),
        decreases chars@.len() - i,
    {
        let c = chars[i];
        let code = c as u32;
        let t = if 'a' <= c && c <= 'z' {
            let off = (code - 97 + 13) % 26;
            ((97 + off) as u8) as char
        } else if 'A' <= c && c <= 'Z' {
            let off = (code - 65 + 13) % 26;
            ((65 + off) as u8) as char
        } else {
            c
        };
        out.push(t);
        i = i + 1;
    }
    proof {
        assert(out@ =~= rot13_spec(input@));
    }
    chars_to_string(&out)
}

/// Rotating twice returns every string to itself: ROT13 is an involution.
pub proof fn lemma_rot13_involution(s: Seq<char>)
    ensures
        rot13_spec(rot13_spec(s)) == s,
{
    assert forall|i: int| 0 <= i < s.len() implies rot13_char(rot13_char(s[i])) == s[i] by {
        let c = s[i];
        if is_lower(c) {
            assert(rot13_char(rot13_char(c)) == c);
        } else if is_upper(c) {
            assert(rot13_char(rot13_char(c)) == c);
        }
    }
    assert(rot13_spec(rot13_spec(s)) =~= s);
}

} // verus!

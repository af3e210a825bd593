//! The Affine cipher over the lowercase ASCII alphabet.
//!
//! Each lowercase letter at position `x` is mapped to `a * x + b` modulo
//! twenty-six; every other character passes through unchanged. Decryption
//! multiplies by the least modular inverse of `a`, and fails when `a` has
//! none. The inverse search takes the product's remainder with the
//! product's sign, as the executable `%` does, so no key that is not
//! positive ever has an inverse: decryption fails for every `a` at most
//! zero, as well as for every `a` sharing a factor with twenty-six.

use vstd::prelude::*;
use crate::arith::rem_euclid_i64;
use crate::text::{is_lower, str_to_chars, chars_to_string};

verus! {

/// The remainder as the executable `%` computes it: the magnitude of the
/// mathematical remainder of the dividend's absolute value, carrying the
/// dividend's sign.
pub open spec fn trunc_rem(x: int, d: int) -> int {
    if x >= 0 {
        x % d
    } else {
        -((-x) % d)
    }
}

/// Whether `i` inverts `a` modulo `m`, under the truncated remainder.
/// The product's remainder carries the product's sign, so a
/// non-positive `a` never has an inverse.
pub open spec fn is_inverse(a: int, i: int, m: int) -> bool {
    trunc_rem(a * i, m) == 1
}

/// Whether `a` has an inverse modulo `m` among `1 .. m`.
pub open spec fn has_inverse(a: int, m: int) -> bool {
    exists|i: int| 1 <= i < m && is_inverse(a, i, m)
}

/// The least inverse of `a` modulo `m` among `1 .. m`.
pub open spec fn least_inverse(a: int, m: int) -> int {
    choose|i: int|
        1 <= i < m && is_inverse(a, i, m) && (forall|j: int| 1 <= j < i ==> !is_inverse(a, j, m))
}

/// One character encrypted: a lowercase letter at alphabet position `x`
/// moves to position `a * x + b` modulo twenty-six; anything else is kept.
pub open spec fn affine_enc_char(c: char, a: int, b: int) -> char {
    if is_lower(c) {
        (97 + ((a * ((c as int) - 97) + b) % 26)) as char
    } else {
        c
    }
}

/// One character decrypted with the inverse `inv` of the multiplicative
/// key: a lowercase letter at position `x` moves to `inv * (x - b + 26)`
/// modulo twenty-six; anything else is kept.
pub open spec fn affine_dec_char(c: char, inv: int, b: int) -> char {
    if is_lower(c) {
        (97 + ((inv * (((c as int) - 97) - b + 26)) % 26)) as char
    } else {
        c
    }
}

/// A whole string encrypted character by character.
pub open spec fn affine_enc_spec(s: Seq<char>, a: int, b: int) -> Seq<char> {
    Seq::new(s.len(), |i: int| affine_enc_char(s[i], a, b))
}

/// A whole string decrypted character by character with the inverse `inv`.
pub open spec fn affine_dec_spec(s: Seq<char>, inv: int, b: int) -> Seq<char> {
    Seq::new(s.len(), |i: int| affine_dec_char(s[i], inv, b))
}

/// Encrypts a given plaintext using the Affine cipher.
///
/// `a` should be coprime with twenty-six for the result to be
/// decryptable; encryption itself accepts any keys and always succeeds.
pub fn encrypt(plaintext: &str, a: i32, b: i32) -> (r: Result<String, &'static str>)
    ensures
        r matches Ok(s) && s@ == affine_enc_spec(plaintext@, a as int, b as int),
{
    let chars = str_to_chars(plaintext);
    let mut ciphertext: Vec<char> = Vec::new();
    let mut i: usize = 0;
    while i < chars.len()
        invariant
            chars@ == plaintext@,
            i <= chars@.len(),
            ciphertext@.len() == i,
            forall|j: int|
                0 <= j < i ==> ciphertext@[j] == affine_enc_char(plaintext@[j], a as int, b as int),
        decreases chars@.len() - i,
    {
        let c = chars[i];
        if 'a' <= c && c <= 'z' {
            let x = ((c as u32) - 97) as i64;
            proof {
                assert(-0x1000000000i64 <= (a as int) * (x as int) <= 0x1000000000i64)
                    by (nonlinear_arith)
                    requires
                        -0x80000000 <= (a as int) && (a as int) <= 0x80000000,
                        0 <= (x as int) && (x as int) <= 25,
                ;
            }
            let y = rem_euclid_i64((a as i64) * x + (b as i64), 26);
            ciphertext.push(((97 + y) as u8) as char);
        } else {
            ciphertext.push(c);
        }
        i = i + 1;
    }
    proof {
        assert(ciphertext@ =~= affine_enc_spec(plaintext@, a as int, b as int));
    }
    Ok(chars_to_string(&ciphertext))
}

/// Decrypts a given ciphertext using the Affine cipher.
///
/// Fails when the multiplicative key has no inverse modulo twenty-six;
/// otherwise decrypts with the least inverse.
pub fn decrypt(ciphertext: &str, a: i32, b: i32) -> (r: Result<String, &'static str>)
    ensures
        has_inverse(a as int, 26) ==> (r matches Ok(s) && s@ == affine_dec_spec(
            ciphertext@,
            least_inverse(a as int, 26),
            b as int,
        )),
        !has_inverse(a as int, 26) ==> (r matches Err(e) && e@ == "Failed to find modular inverse"@),
{
    let inverse_a = match modular_inverse(a, 26) {
        Some(i) => i,
        None => {
            return Err("Failed to find modular inverse");
        },
    };
    let chars = str_to_chars(ciphertext);
    let mut plaintext: Vec<char> = Vec::new();
    let mut i: usize = 0;
    while i < chars.len()
        invariant
            chars@ == ciphertext@,
            i <= chars@.len(),
            plaintext@.len() == i,
            inverse_a == least_inverse(a as int, 26),
            0 <= inverse_a < 26,
            forall|j: int|
                0 <= j < i ==> plaintext@[j] == affine_dec_char(
                    ciphertext@[j],
                    inverse_a as int,
                    b as int,
                ),
        decreases chars@.len() - i,
    {
        let c = chars[i];
        if 'a' <= c && c <= 'z' {
            let x = ((c as u32) - 97) as i64;
            let d = x - (b as i64) + 26;
            proof {
                assert(-0x10000000000i64 <= (inverse_a as int) * (d as int) <= 0x10000000000i64)
                    by (nonlinear_arith)
                    requires
                        0 <= (inverse_a as int) && (inverse_a as int) < 26,
                        -0x100000000 <= (d as int) && (d as int) <= 0x100000000,
                ;
            }
            let y = rem_euclid_i64((inverse_a as i64) * d, 26);
            plaintext.push(((97 + y) as u8) as char);
        } else {
            plaintext.push(c);
        }
        i = i + 1;
    }
    proof {
        assert(plaintext@ =~= affine_dec_spec(ciphertext@, inverse_a as int, b as int));
    }
    Ok(chars_to_string(&plaintext))
}

/// Finds the least modular inverse of `a` modulo `m`, searching `1 .. m`.
///
/// Returns `None` when no inverse exists, in particular whenever `a` is
/// not positive, `a` and `m` are not coprime, or `m` is at most one.
pub fn modular_inverse(a: i32, m: i32) -> (r: Option<i32>)
    ensures
        has_inverse(a as int, m as int) ==> r == Some(least_inverse(a as int, m as int) as i32),
        !has_inverse(a as int, m as int) ==> r is None,
        r matches Some(i) ==> 1 <= i < m && is_inverse(a as int, i as int, m as int),
{
    if m <= 1 {
        return None;
    }
    if a <= 0 {
        proof {
            assert forall|j: int| 1 <= j < m implies !is_inverse(a as int, j, m as int) by {
                lemma_nonpositive_has_no_inverse(a as int, j, m as int);
            }
        }
        return None;
    }
    let mut i: i32 = 1;
    while i < m
        invariant
            1 <= a,
            1 <= i <= m,
            2 <= m,
            forall|j: int| 1 <= j < i ==> !is_inverse(a as int, j, m as int),
        decreases m - i,
    {
        proof {
            assert(1 <= (a as int) * (i as int) <= 0x4000000000000000i64)
                by (nonlinear_arith)
                requires
                    1 <= (a as int) && (a as int) <= 0x80000000,
                    1 <= (i as int) && (i as int) <= 0x80000000,
            ;
        }
        let p = rem_euclid_i64((a as i64) * (i as i64), m as i64);
        proof {
            assert(trunc_rem((a as int) * (i as int), m as int) == ((a as int) * (i as int)) % (
            m as int));
        }
        if p == 1 {
            proof {
                assert(is_inverse(a as int, i as int, m as int));
                let w = least_inverse(a as int, m as int);
                assert(1 <= w < m && is_inverse(a as int, w, m as int) && (forall|j: int|
                    1 <= j < w ==> !is_inverse(a as int, j, m as int))) by {
                    assert(1 <= i as int && (i as int) < m && is_inverse(
                        a as int,
                        i as int,
                        m as int,
                    ) && (forall|j: int|
                        1 <= j < i as int ==> !is_inverse(a as int, j, m as int)));
                }
                assert(w == i as int) by {
                    if w < i as int {
                        assert(!is_inverse(a as int, w, m as int));
                    }
                    if (i as int) < w {
                        assert(!is_inverse(a as int, i as int, m as int));
                    }
                }
            }
            return Some(i);
        }
        i = i + 1;
    }
    None
}

/// Decryption inverts encryption, character by character, whenever the
/// multiplicative key has a modular inverse.
pub proof fn lemma_affine_round_trip(s: Seq<char>, a: int, b: int)
    requires
        has_inverse(a, 26),
        0 <= b < 26,
    ensures
        affine_dec_spec(affine_enc_spec(s, a, b), least_inverse(a, 26), b) == s,
{
    let inv = least_inverse(a, 26);
    assert(1 <= inv < 26 && is_inverse(a, inv, 26)) by {
        let w = choose|i: int| 1 <= i < 26 && is_inverse(a, i, 26);
        lemma_least_inverse_exists(a, 26, w);
    }
    lemma_inverse_is_positive(a, inv, 26);
    let ct = affine_enc_spec(s, a, b);
    assert forall|i: int| 0 <= i < s.len() implies affine_dec_spec(ct, inv, b)[i] == s[i] by {
        let c = s[i];
        if is_lower(c) {
            let x = (c as int) - 97;
            let y = (a * x + b) % 26;
            assert(0 <= y < 26) by {
                vstd::arithmetic::div_mod::lemma_mod_bound(a * x + b, 26);
            }
            assert(ct[i] == (97 + y) as char);
            assert(is_lower(ct[i]));
            assert((ct[i] as int) - 97 == y);
            lemma_affine_cancel(a, b, inv, x);
            assert(affine_dec_char(ct[i], inv, b) == c);
        } else {
            assert(ct[i] == c);
        }
    }
    assert(affine_dec_spec(ct, inv, b) =~= s);
}

/// The witness found first in `1 .. m` is the least inverse.
proof fn lemma_least_inverse_exists(a: int, m: int, w: int)
    requires
        1 <= w < m,
        is_inverse(a, w, m),
    ensures
        1 <= least_inverse(a, m) < m,
        is_inverse(a, least_inverse(a, m), m),
    decreases w,
{
    if forall|j: int| 1 <= j < w ==> !is_inverse(a, j, m) {
        assert(1 <= w < m && is_inverse(a, w, m) && (forall|j: int|
            1 <= j < w ==> !is_inverse(a, j, m)));
        let l = least_inverse(a, m);
        assert(1 <= l < m && is_inverse(a, l, m));
    } else {
        let w2 = choose|j: int| 1 <= j < w && is_inverse(a, j, m);
        lemma_least_inverse_exists(a, m, w2);
    }
}

/// A non-positive `a` has no inverse: the product with a positive `i`
/// is non-positive, and so is its truncated remainder.
proof fn lemma_nonpositive_has_no_inverse(a: int, j: int, m: int)
    requires
        a <= 0,
        1 <= j < m,
    ensures
        !is_inverse(a, j, m),
{
    assert(a * j <= 0) by (nonlinear_arith)
        requires
            a <= 0,
            1 <= j,
    ;
    if a * j == 0 {
        vstd::arithmetic::div_mod::lemma_small_mod(0nat, m as nat);
    } else {
        vstd::arithmetic::div_mod::lemma_mod_bound(-(a * j), m);
    }
}

/// A member of the alphabet range inverts `a` only when `a` is positive,
/// and then the truncated and the mathematical remainder agree.
proof fn lemma_inverse_is_positive(a: int, i: int, m: int)
    requires
        1 <= i < m,
        is_inverse(a, i, m),
    ensures
        1 <= a,
        (a * i) % m == 1,
{
    if a <= 0 {
        lemma_nonpositive_has_no_inverse(a, i, m);
    }
    assert(a * i >= 0) by (nonlinear_arith)
        requires
            1 <= a,
            1 <= i,
    ;
}

/// Multiplying by `a` and then by an inverse of `a` returns every
/// alphabet position to itself.
proof fn lemma_affine_cancel(a: int, b: int, inv: int, x: int)
    requires
        0 <= x < 26,
        0 <= b < 26,
        (a * inv) % 26 == 1,
    ensures
        (inv * (((a * x + b) % 26) - b + 26)) % 26 == x,
{
    let y = (a * x + b) % 26;
    // inv * (y - b + 26) and inv * (a * x) agree modulo 26
    vstd::arithmetic::div_mod::lemma_mul_mod_noop_right(inv, y - b + 26, 26);
    assert((y - b + 26) % 26 == (a * x) % 26) by {
        vstd::arithmetic::div_mod::lemma_sub_mod_noop(a * x + b, b, 26);
        assert(((a * x + b) % 26 - b % 26) % 26 == (a * x) % 26);
        vstd::arithmetic::div_mod::lemma_small_mod(b as nat, 26);
        vstd::arithmetic::div_mod::lemma_mod_multiples_vanish(1, y - b, 26);
        vstd::arithmetic::div_mod::lemma_sub_mod_noop_right(y, b, 26);
        assert((y - b) % 26 == ((a * x + b) - b) % 26) by {
            vstd::arithmetic::div_mod::lemma_mod_twice(a * x + b, 26);
            vstd::arithmetic::div_mod::lemma_sub_mod_noop(a * x + b, b, 26);
        }
    }
    vstd::arithmetic::div_mod::lemma_mul_mod_noop_right(inv, a * x, 26);
    assert((inv * (a * x)) % 26 == ((inv * a) * x) % 26) by {
        vstd::arithmetic::mul::lemma_mul_is_associative(inv, a, x);
    }
    vstd::arithmetic::div_mod::lemma_mul_mod_noop_left(inv * a, x, 26);
    assert((inv * a) % 26 == 1) by {
        vstd::arithmetic::mul::lemma_mul_is_commutative(inv, a);
    }
    assert(((inv * a) % 26 * x) % 26 == x % 26);
    vstd::arithmetic::div_mod::lemma_small_mod(x as nat, 26);
}

} // verus!

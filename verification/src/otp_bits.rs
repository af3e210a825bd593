//! A one-time pad variant whose keys are single random bits, one byte
//! per bit, drawn from the operating system's random number generator.

use vstd::prelude::*;
use crate::random::random_u64;

verus! {

/// Each output byte is the XOR of the corresponding data and key bytes.
pub open spec fn xored(data: Seq<u8>, key: Seq<u8>, r: Seq<u8>) -> bool {
    r.len() == data.len() && forall|i: int| 0 <= i < data.len() ==> r[i] == (data[i] ^ key[i])
}

/// Generates a key of the given length whose bytes are random bits:
/// every byte is zero or one.
pub fn generate_key(len: usize) -> (r: Vec<u8>)
    ensures
        r@.len() == len,
        forall|i: int| 0 <= i < len ==> r@[i] < 2,
{
    let mut key: Vec<u8> = Vec::new();
    let mut i: usize = 0;
    while i < len
        invariant
            i <= len,
            key@.len() == i,
            forall|j: int| 0 <= j < i ==> key@[j] < 2,
        decreases len - i,
    {
        key.push(generate_random_bit());
        i = i + 1;
    }
    key
}

/// Encrypts the plaintext using the key, byte by byte.
pub fn encrypt(plaintext: &[u8], key: &[u8]) -> (r: Vec<u8>)
    requires
        plaintext@.len() == key@.len(),
    ensures
        xored(plaintext@, key@, r@),
{
    encipher(plaintext, key)
}

/// Decrypts the ciphertext using the key, byte by byte.
pub fn decrypt(ciphertext: &[u8], key: &[u8]) -> (r: Vec<u8>)
    requires
        ciphertext@.len() == key@.len(),
    ensures
        xored(ciphertext@, key@, r@),
{
    encipher(ciphertext, key)
}

/// Encrypts or decrypts the data using the given key; the XOR pad is the
/// same operation in both directions.
pub fn encipher(data: &[u8], key: &[u8]) -> (r: Vec<u8>)
    requires
        data@.len() == key@.len(),
    ensures
        xored(data@, key@, r@),
{
    let mut enciphered_data: Vec<u8> = Vec::new();
    let mut i: usize = 0;
    while i < data.len()
        invariant
            data@.len() == key@.len(),
            i <= data@.len(),
            enciphered_data@.len() == i,
            forall|j: int| 0 <= j < i ==> enciphered_data@[j] == (data@[j] ^ key@[j]),
        decreases data@.len() - i,
    {
        enciphered_data.push(data[i] ^ key[i]);
        i = i + 1;
    }
    enciphered_data
}

/// Draws one random bit from the operating system's random number
/// generator: the low bit of a random word.
fn generate_random_bit() -> (r: u8)
    ensures
        r < 2,
{
    let random_u64_value = random_u64();
    let bit = random_u64_value & 1;
    proof {
        assert(random_u64_value & 1 < 2) by (bit_vector);
    }
    bit as u8
}

} // verus!

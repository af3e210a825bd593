//! The one-time pad over bytes: encryption and decryption are the same
//! XOR of the data with a key of equal length.

use vstd::prelude::*;
use vstd::string::StringSliceAdditionalSpecFns;
use crate::random::random_bytes;

verus! {

/// Each output byte is the XOR of the corresponding data and key bytes.
pub open spec fn xored(data: Seq<u8>, key: Seq<u8>, r: Seq<u8>) -> bool {
    r.len() == data.len() && forall|i: int| 0 <= i < data.len() ==> r[i] == (data[i] ^ key[i])
}

/// Generates a key of the specified length from the operating system's
/// random number generator.
pub fn generate_key(len: usize) -> (r: Vec<u8>)
    ensures
        r@.len() == len,
{
    random_bytes(len)
}

/// Encrypts the given plaintext using the specified key, byte by byte.
pub fn encrypt(plaintext: &str, key: &[u8]) -> (r: Vec<u8>)
    requires
        plaintext.spec_bytes().len() == key@.len(),
    ensures
        xored(plaintext.spec_bytes(), key@, r@),
{
    encipher(plaintext.as_bytes(), key)
}

/// Decrypts the given ciphertext using the specified key, byte by byte.
pub fn decrypt(ciphertext: &[u8], key: &[u8]) -> (r: Vec<u8>)
    requires
        ciphertext@.len() == key@.len(),
    ensures
        xored(ciphertext@, key@, r@),
{
    encipher(ciphertext, key)
}

/// Encrypts or decrypts the data using the given key. The pad is
/// symmetrical, so one XOR serves both directions.
pub fn encipher(data: &[u8], key: &[u8]) -> (r: Vec<u8>)
    requires
        data@.len() == key@.len(),
    ensures
        xored(data@, key@, r@),
{
    let mut out: Vec<u8> = Vec::new();
    let mut i: usize = 0;
    while i < data.len()
        invariant
            data@.len() == key@.len(),
            i <= data@.len(),
            out@.len() == i,
            forall|j: int| 0 <= j < i ==> out@[j] == (data@[j] ^ key@[j]),
        decreases data@.len() - i,
    {
        out.push(data[i] ^ key[i]);
        i = i + 1;
    }
    out
}

/// Enciphering twice with the same key returns the data: the XOR pad is
/// an involution.
pub proof fn lemma_otp_round_trip(data: Seq<u8>, key: Seq<u8>, ct: Seq<u8>, pt: Seq<u8>)
    requires
        data.len() == key.len(),
        xored(data, key, ct),
        xored(ct, key, pt),
    ensures
        pt == data,
{
    assert forall|i: int| 0 <= i < data.len() implies pt[i] == data[i] by {
        let d = data[i];
        let k = key[i];
        assert(ct[i] == (d ^ k));
        assert(pt[i] == (ct[i] ^ k));
        assert((d ^ k) ^ k == d) by (bit_vector);
    }
    assert(pt =~= data);
}

} // verus!

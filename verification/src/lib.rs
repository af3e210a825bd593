//! Classical text ciphers, for demonstration rather than security.
//!
//! The centrepiece is the Playfair digraph cipher in [`playfair`]: a keyed
//! 5x5 letter square, a normaliser that folds text onto the square's
//! 25-letter alphabet, a segmenter that splits the text into letter pairs,
//! and the row / column / rectangle transformation rules. The remaining
//! modules are simple per-character ciphers.
//!
//! Every cipher treats the ASCII letters as its alphabet: case folding is
//! ASCII-only and characters outside the alphabet are passed through or
//! dropped as each cipher documents.

mod random;
pub mod affine;
pub mod arith;
pub mod caesar;
pub mod otp;
pub mod otp_bits;
pub mod playfair;
pub mod polybius_square;
pub mod porta;
pub mod rot13;
pub mod text;
pub mod vigenere;

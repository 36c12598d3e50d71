//! Exhaustive key search against a Vigenère-style cipher.
//!
//! A key is a point in the total order over all finite letter sequences
//! (`"A"` first, then `"B"`, …, `"Z"`, `"AA"`, `"AB"`, …); the engine owns a
//! ciphertext and keeps a full-size output buffer deciphered under the
//! active key, re-deciphering only the minimal part of the buffer when the
//! key advances by one. A scan walks a contiguous range of key identities
//! and surfaces every decipherment that decodes as printable base64 text.

pub mod base64_scan;
pub mod decipherer;
pub mod encrypt;
pub mod key;
pub mod table;
pub mod text;

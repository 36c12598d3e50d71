//! The 26-letter alphabet and the additive substitution on it.
//!
//! A letter is an ASCII byte in `'A'..='Z'` or `'a'..='z'`. Deciphering
//! subtracts the key letter's value from the cipher letter's value modulo 26,
//! keeping the cipher letter's case; the key letter's case is ignored.

use vstd::prelude::*;

verus! {

pub const ALPHABET_SIZE: u8 = 26;

/// ASCII `'A'`.
pub const UPPER_A: u8 = 65;

/// ASCII `'Z'`.
pub const UPPER_Z: u8 = 90;

/// ASCII `'a'`.
pub const LOWER_A: u8 = 97;

/// ASCII `'z'`.
pub const LOWER_Z: u8 = 122;

pub open spec fn is_upper_byte(b: u8) -> bool {
    UPPER_A <= b && b <= UPPER_Z
}

pub open spec fn is_lower_byte(b: u8) -> bool {
    LOWER_A <= b && b <= LOWER_Z
}

/// An ASCII alphabetic byte, the only bytes a key may hold and the only
/// bytes of a ciphertext that the substitution touches.
pub open spec fn is_letter(b: u8) -> bool {
    is_upper_byte(b) || is_lower_byte(b)
}

/// The position of a letter in the alphabet: 0 for `A` or `a`, 25 for `Z` or `z`.
pub open spec fn letter_val(b: u8) -> int
    recommends
        is_letter(b),
{
    if is_upper_byte(b) {
        b - UPPER_A
    } else {
        b - LOWER_A
    }
}

/// The decipherment of cipher letter `c` under key letter `k`: the letter
/// whose value is `letter_val(c) - letter_val(k)` modulo 26, in `c`'s case.
pub open spec fn decipher_byte(c: u8, k: u8) -> u8
    recommends
        is_letter(c),
        is_letter(k),
{
    let v = (letter_val(c) - letter_val(k) + 26) % 26;
    if is_lower_byte(c) {
        (LOWER_A + v) as u8
    } else {
        (UPPER_A + v) as u8
    }
}

/// The encipherment of plain letter `c` under key letter `k`: the letter
/// whose value is `letter_val(c) + letter_val(k)` modulo 26, in `c`'s case.
pub open spec fn encipher_byte(c: u8, k: u8) -> u8
    recommends
        is_letter(c),
        is_letter(k),
{
    let v = (letter_val(c) + letter_val(k)) % 26;
    if is_lower_byte(c) {
        (LOWER_A + v) as u8
    } else {
        (UPPER_A + v) as u8
    }
}

/// Deciphering undoes enciphering under the same key letter.
pub proof fn lemma_decipher_encipher(c: u8, k: u8)
    requires
        is_letter(c),
        is_letter(k),
    ensures
        decipher_byte(encipher_byte(c, k), k) == c,
{
}

/// The decipherment of a letter is a letter of the same case.
pub proof fn lemma_decipher_is_letter(c: u8, k: u8)
    requires
        is_letter(c),
        is_letter(k),
    ensures
        is_letter(decipher_byte(c, k)),
        is_lower_byte(c) ==> is_lower_byte(decipher_byte(c, k)),
        is_upper_byte(c) ==> is_upper_byte(decipher_byte(c, k)),
{
}

/// Runtime test for an ASCII alphabetic byte.
pub fn is_letter_byte(b: u8) -> (r: bool)
    ensures
        r == is_letter(b),
{
    (UPPER_A <= b && b <= UPPER_Z) || (LOWER_A <= b && b <= LOWER_Z)
}

/// Executable decipherment of one letter, as specified by `decipher_byte`.
pub fn decipher_letter(c: u8, k: u8) -> (r: u8)
    requires
        is_letter(c),
        is_letter(k),
    ensures
        r == decipher_byte(c, k),
{
    let cv: u8 = if c >= LOWER_A { c - LOWER_A } else { c - UPPER_A };
    let kv: u8 = if k >= LOWER_A { k - LOWER_A } else { k - UPPER_A };
    let v: u8 = (cv + 26 - kv) % 26;
    if c >= LOWER_A {
        LOWER_A + v
    } else {
        UPPER_A + v
    }
}

} // verus!

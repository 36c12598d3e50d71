//! The forward cipher direction: enciphering a plaintext under a key.
//!
//! This is the auxiliary counterpart of the decipherment engine; the scan
//! path never calls it, but it pins the sign convention the engine undoes
//! and gives tests a way to build ciphertexts.

use vstd::prelude::*;

use crate::decipherer::letters_of;
use crate::key::all_letters;
use crate::table::{encipher_byte, is_letter, is_letter_byte, LOWER_A, UPPER_A};

verus! {

/// The encipherment of `text` under the key letters `key`: every letter is
/// combined with the key letter cycling over the letters-only positions, and
/// every other byte passes through unchanged.
pub open spec fn encipher_output(text: Seq<u8>, key: Seq<u8>) -> Seq<u8>
    recommends
        key.len() >= 1,
{
    Seq::new(
        text.len(),
        |j: int|
            if is_letter(text[j]) {
                encipher_byte(text[j], key[letters_of(text.take(j)).len() as int % key.len() as int])
            } else {
                text[j]
            },
    )
}

/// One letter enciphered under one key letter: the letter values add
/// modulo 26, the plain letter keeps its case, the key letter's case is
/// ignored.
pub fn cipher_char(cipher: u8, key: u8) -> (r: u8)
    requires
        is_letter(cipher),
        is_letter(key),
    ensures
        r == encipher_byte(cipher, key),
{
    let kc: u8 = if key >= LOWER_A {
        key - 32
    } else {
        key
    };
    let cipher_is_lowercase = cipher >= LOWER_A;
    let cu: u8 = if cipher_is_lowercase {
        cipher - 32
    } else {
        cipher
    };
    let mut rem: u8 = (cu - UPPER_A) + (kc - UPPER_A);
    if rem >= 26 {
        rem -= 26;
    }
    let out = UPPER_A + rem;
    if cipher_is_lowercase {
        out + 32
    } else {
        out
    }
}

/// Encipher `plaintext` into `buf`: `buf` is first padded with `A`s up to
/// the plaintext's length, then overwritten byte by byte, each letter
/// enciphered under the cycling key and every other byte copied. An empty
/// key leaves the padded buffer as it is.
pub fn encrypt_slice_from(plaintext: &[u8], key: &Vec<u8>, buf: &mut Vec<u8>)
    requires
        all_letters(key@),
    ensures
        final(buf)@.len() == if old(buf)@.len() >= plaintext@.len() {
            old(buf)@.len()
        } else {
            plaintext@.len()
        },
        forall|j: int|
            plaintext@.len() <= j < final(buf)@.len() ==> final(buf)@[j] == if j < old(
                buf,
            )@.len() {
                old(buf)@[j]
            } else {
                UPPER_A
            },
        key@.len() == 0 ==> forall|j: int|
            0 <= j < plaintext@.len() ==> final(buf)@[j] == if j < old(buf)@.len() {
                old(buf)@[j]
            } else {
                UPPER_A
            },
        key@.len() >= 1 ==> final(buf)@.take(plaintext@.len() as int) == encipher_output(
            plaintext@,
            key@,
        ),
{
    let ghost pre: Seq<u8> = buf@;
    let ghost padded: Seq<u8> = Seq::new(
        if pre.len() >= plaintext@.len() {
            pre.len()
        } else {
            plaintext@.len()
        },
        |j: int|
            if j < pre.len() {
                pre[j]
            } else {
                UPPER_A
            },
    );
    while buf.len() < plaintext.len()
        invariant
            padded.len() == if pre.len() >= plaintext@.len() {
                pre.len()
            } else {
                plaintext@.len()
            },
            forall|j: int| 0 <= j < pre.len() ==> padded[j] == pre[j],
            forall|j: int| pre.len() <= j < padded.len() ==> padded[j] == UPPER_A,
            pre.len() <= buf@.len() <= padded.len(),
            buf@ =~= padded.take(buf@.len() as int),
        decreases plaintext@.len() - buf@.len(),
    {
        buf.push(UPPER_A);
        proof {
            assert(buf@ =~= padded.take(buf@.len() as int));
        }
    }
    proof {
        assert(buf@ =~= padded);
    }
    if key.len() == 0 {
        return ;
    }
    let klen = key.len();
    let mut counter: usize = 0;
    let ghost mut m: int = 0;
    let mut i: usize = 0;
    while i < plaintext.len()
        invariant
            all_letters(key@),
            klen == key@.len(),
            1 <= klen,
            i <= plaintext@.len(),
            plaintext@.len() <= buf@.len() == padded.len(),
            m == letters_of(plaintext@.take(i as int)).len(),
            counter <= klen,
            counter < klen ==> counter == m % klen as int,
            counter == klen ==> m % klen as int == 0,
            forall|j: int| 0 <= j < i ==> buf@[j] == encipher_output(plaintext@, key@)[j],
            forall|j: int| i <= j < padded.len() ==> buf@[j] == padded[j],
        decreases plaintext@.len() - i,
    {
        proof {
            assert(plaintext@.take(i + 1).drop_last() =~= plaintext@.take(i as int));
            assert(plaintext@.take(i + 1).last() == plaintext@[i as int]);
        }
        let c = plaintext[i];
        if is_letter_byte(c) {
            if counter >= klen {
                counter = 0;
            }
            let v = cipher_char(c, key[counter]);
            buf[i] = v;
            proof {
                vstd::arithmetic::div_mod::lemma_fundamental_div_mod(m, klen as int);
                let q = m / klen as int;
                assert(q * klen as int == klen as int * q) by (nonlinear_arith);
                if counter + 1 < klen {
                    vstd::arithmetic::div_mod::lemma_fundamental_div_mod_converse(
                        m + 1,
                        klen as int,
                        q,
                        counter as int + 1,
                    );
                } else {
                    assert(m + 1 == (q + 1) * klen as int + 0) by (nonlinear_arith)
                        requires
                            m == klen as int * q + counter as int,
                            counter + 1 == klen,
                    ;
                    vstd::arithmetic::div_mod::lemma_fundamental_div_mod_converse(
                        m + 1,
                        klen as int,
                        q + 1,
                        0,
                    );
                }
                m = m + 1;
            }
            counter += 1;
        } else {
            buf[i] = c;
        }
        i += 1;
    }
    proof {
        assert(buf@.take(plaintext@.len() as int) =~= encipher_output(plaintext@, key@));
    }
}

} // verus!

//! The incremental decipherment engine.
//!
//! The engine owns the ciphertext, a letters-only compacted projection of it,
//! a full-size output buffer, and a map from each compacted position back to
//! its slot in the output buffer. Non-letter bytes are copied into the output
//! once at construction and never touched again; letter positions always hold
//! the decipherment under the active key after a full or incremental pass.

use vstd::prelude::*;

use crate::key::{all_letters, canon, Id, Key};
use crate::table::{decipher_byte, decipher_letter, is_letter, is_letter_byte, is_upper_byte,
    UPPER_A};
use crate::text::{bytes_to_string, lemma_ascii_valid_utf8};

verus! {

/// The letters-only projection of `s`, in order.
pub open spec fn letters_of(s: Seq<u8>) -> Seq<u8>
    decreases s.len(),
{
    if s.len() == 0 {
        Seq::empty()
    } else if is_letter(s.last()) {
        letters_of(s.drop_last()).push(s.last())
    } else {
        letters_of(s.drop_last())
    }
}

/// The decipherment of `text` under the key digits `key`: every letter is
/// combined with the key digit cycling over the letters-only positions, and
/// every other byte passes through unchanged.
pub open spec fn decipher_output(text: Seq<u8>, key: Seq<u8>) -> Seq<u8>
    recommends
        key.len() >= 1,
{
    Seq::new(
        text.len(),
        |j: int|
            if is_letter(text[j]) {
                decipher_byte(text[j], key[letters_of(text.take(j)).len() as int % key.len() as int])
            } else {
                text[j]
            },
    )
}

/// The decipherment engine: the ciphertext, its letters-only projection, the
/// live output buffer, the compacted-to-output index map, and the active key.
pub struct Decipherer {
    pub key: Key,
    pub text: Vec<u8>,
    pub compact_text: Vec<u8>,
    pub buf: Vec<u8>,
    pub position_map: Vec<usize>,
}

impl Decipherer {
    /// Structural consistency: the compacted text is the letters of the text,
    /// the map sends compacted position `i` to the position of the `i`-th
    /// letter, every letter position is mapped, the output buffer has the
    /// text's length, and its non-letter positions hold the text's bytes.
    pub open spec fn wf(self) -> bool {
        &&& self.key.wf()
        &&& self.compact_text@ == letters_of(self.text@)
        &&& all_letters(self.compact_text@)
        &&& self.position_map@.len() == self.compact_text@.len()
        &&& self.buf@.len() == self.text@.len()
        &&& (forall|i: int|
            0 <= i < self.position_map@.len() ==> {
                &&& #[trigger] self.position_map@[i] < self.text@.len()
                &&& self.text@[self.position_map@[i] as int] == self.compact_text@[i]
                &&& letters_of(self.text@.take(self.position_map@[i] as int)).len() == i
            })
        &&& (forall|j: int|
            0 <= j < self.text@.len() && is_letter(#[trigger] self.text@[j]) ==> exists|i: int|
                0 <= i < self.position_map@.len() && self.position_map@[i] == j)
        &&& (forall|j: int|
            0 <= j < self.text@.len() && !is_letter(#[trigger] self.text@[j])
                ==> self.buf@[j] == self.text@[j])
    }

    /// The output buffer holds position by position the decipherment of each
    /// compacted letter under the active key.
    pub open spec fn map_deciphered(self) -> bool {
        forall|i: int|
            0 <= i < self.compact_text@.len()
                ==> #[trigger] self.buf@[self.position_map@[i] as int] == decipher_byte(
                self.compact_text@[i],
                self.key.buf@[i % self.key.buf@.len() as int],
            )
    }

    /// The output buffer is exactly the decipherment of the text under the
    /// active key.
    pub open spec fn deciphered(self) -> bool {
        self.buf@ == decipher_output(self.text@, self.key.buf@)
    }

    /// The two readings of "fully deciphered" agree: slot-by-slot through the
    /// position map, or as one whole-output equation.
    pub proof fn lemma_decipher_forms(self)
        requires
            self.wf(),
        ensures
            self.map_deciphered() <==> self.deciphered(),
    {
        let out = decipher_output(self.text@, self.key.buf@);
        if self.map_deciphered() {
            assert forall|j: int| 0 <= j < self.text@.len() implies self.buf@[j] == out[j] by {
                if is_letter(self.text@[j]) {
                    let i = choose|i: int|
                        0 <= i < self.position_map@.len() && self.position_map@[i] == j;
                    assert(self.buf@[self.position_map@[i] as int] == decipher_byte(
                        self.compact_text@[i],
                        self.key.buf@[i % self.key.buf@.len() as int],
                    ));
                }
            }
            assert(self.buf@ =~= out);
        }
        if self.buf@ == out {
            assert forall|i: int| 0 <= i < self.compact_text@.len() implies #[trigger] self.buf@[self.position_map@[i] as int]
                == decipher_byte(
                self.compact_text@[i],
                self.key.buf@[i % self.key.buf@.len() as int],
            ) by {
                let j = self.position_map@[i] as int;
                assert(self.buf@[j] == out[j]);
            }
        }
    }

    /// Build an engine over `text`: non-letter bytes are copied into the
    /// output buffer, letter positions are placeholder-initialized, and the
    /// compacted text and position map are filled in one pass. The active key
    /// starts at identity 0.
    pub fn from_slice(text: &[u8]) -> (r: Decipherer)
        ensures
            r.wf(),
            r.text@ == text@,
            r.key.id == 0,
            r.key.buf@ =~= seq![UPPER_A],
            forall|j: int|
                0 <= j < text@.len() && is_letter(#[trigger] text@[j]) ==> r.buf@[j] == UPPER_A,
    {
        let key = Key::first();
        let mut owned_text: Vec<u8> = Vec::new();
        let mut compact_text: Vec<u8> = Vec::new();
        let mut buf: Vec<u8> = Vec::new();
        let mut position_map: Vec<usize> = Vec::new();
        let mut j: usize = 0;
        while j < text.len()
            invariant
                j <= text@.len(),
                owned_text@ =~= text@.take(j as int),
                compact_text@ =~= letters_of(text@.take(j as int)),
                all_letters(compact_text@),
                position_map@.len() == compact_text@.len(),
                buf@.len() == j,
                forall|i: int|
                    0 <= i < position_map@.len() ==> {
                        &&& #[trigger] position_map@[i] < j
                        &&& text@[position_map@[i] as int] == compact_text@[i]
                        &&& letters_of(text@.take(position_map@[i] as int)).len() == i
                    },
                forall|j2: int|
                    0 <= j2 < j && is_letter(#[trigger] text@[j2]) ==> exists|i: int|
                        0 <= i < position_map@.len() && position_map@[i] == j2,
                forall|j2: int|
                    0 <= j2 < j && !is_letter(#[trigger] text@[j2]) ==> buf@[j2] == text@[j2],
                forall|j2: int|
                    0 <= j2 < j && is_letter(#[trigger] text@[j2]) ==> buf@[j2] == UPPER_A,
            decreases text@.len() - j,
        {
            let c = text[j];
            proof {
                assert(text@.take(j + 1).drop_last() =~= text@.take(j as int));
                assert(text@.take(j + 1).last() == text@[j as int]);
            }
            let ghost old_map = position_map@;
            if is_letter_byte(c) {
                buf.push(UPPER_A);
                compact_text.push(c);
                position_map.push(j);
                proof {
                    assert(position_map@[position_map@.len() - 1] == j as int);
                }
            } else {
                buf.push(c);
            }
            proof {
                assert forall|j2: int|
                    0 <= j2 < j && is_letter(#[trigger] text@[j2]) implies exists|i: int|
                    0 <= i < position_map@.len() && position_map@[i] == j2 by {
                    let i = choose|i: int| 0 <= i < old_map.len() && old_map[i] == j2;
                    assert(position_map@[i] == j2);
                }
                assert(owned_text@.push(text@[j as int]) =~= text@.take(j + 1));
            }
            owned_text.push(c);
            j += 1;
        }
        proof {
            assert(text@.take(text@.len() as int) =~= text@);
        }
        Decipherer { key, text: owned_text, compact_text, buf, position_map }
    }

    /// Decipher the whole text under the active key, writing each compacted
    /// letter's decipherment through the position map. Must run once before
    /// any incremental step.
    pub fn decipher_fully(&mut self)
        requires
            old(self).wf(),
        ensures
            final(self).wf(),
            final(self).deciphered(),
            final(self).key == old(self).key,
            final(self).text == old(self).text,
            final(self).compact_text == old(self).compact_text,
            final(self).position_map == old(self).position_map,
    {
        let n = self.compact_text.len();
        let klen = self.key.buf.len();
        let mut i: usize = 0;
        while i < n
            invariant
                old(self).wf(),
                self.key == old(self).key,
                self.text == old(self).text,
                self.compact_text == old(self).compact_text,
                self.position_map == old(self).position_map,
                self.buf@.len() == self.text@.len(),
                n == self.compact_text@.len(),
                klen == self.key.buf@.len(),
                i <= n,
                forall|idx: int|
                    0 <= idx < i ==> #[trigger] self.buf@[self.position_map@[idx] as int]
                        == decipher_byte(
                        self.compact_text@[idx],
                        self.key.buf@[idx % klen as int],
                    ),
                forall|j: int|
                    0 <= j < self.text@.len() && !is_letter(#[trigger] self.text@[j])
                        ==> self.buf@[j] == self.text@[j],
            decreases n - i,
        {
            let key_idx = i % klen;
            let c = self.compact_text[i];
            let k = self.key.buf[key_idx];
            proof {
                assert(is_upper_byte(self.key.buf@[key_idx as int]));
            }
            let d = decipher_letter(c, k);
            let p = self.position_map[i];
            self.buf[p] = d;
            proof {
                assert forall|idx: int|
                    0 <= idx < i implies self.position_map@[idx] != self.position_map@[i as int] by {
                    assert(letters_of(self.text@.take(self.position_map@[idx] as int)).len()
                        == idx);
                }
                assert(is_letter(self.text@[p as int]));
            }
            i += 1;
        }
        proof {
            self.lemma_decipher_forms();
        }
    }

    /// Advance the key by one and re-decipher only what that changed.
    ///
    /// Advancing the key changes its last `changed` digits, so only the
    /// compacted positions whose cycling key index falls in that suffix need
    /// new values; the engine walks the compacted text in blocks of the key
    /// length and rewrites just that sub-range of each block. Positions keyed
    /// by the unchanged leading digits keep their values from the previous
    /// pass. Assumes the buffer has already been fully deciphered.
    pub fn decipher_next_key(&mut self)
        requires
            old(self).wf(),
            old(self).deciphered(),
            old(self).key.id < Id::MAX,
        ensures
            final(self).wf(),
            final(self).deciphered(),
            final(self).key.id == old(self).key.id + 1,
            final(self).key.buf@ == canon(old(self).key.id as int + 1),
            final(self).text == old(self).text,
            final(self).compact_text == old(self).compact_text,
            final(self).position_map == old(self).position_map,
    {
        let ghost prev: Decipherer = *self;
        proof {
            prev.lemma_decipher_forms();
        }
        let changed = self.key.advance();
        let size = self.key.len();
        let modify_every = size - changed;
        let n = self.compact_text.len();
        let ghost old_key: Seq<u8> = prev.key.buf@;
        let ghost new_key: Seq<u8> = self.key.buf@;
        let mut start = modify_every;
        let ghost mut b: int = 0;
        proof {
            assert forall|idx: int|
                0 <= idx < n && (idx < start || idx % (size as int) < modify_every) implies #[trigger] self.buf@[self.position_map@[idx] as int]
                == decipher_byte(self.compact_text@[idx], new_key[idx % (size as int)]) by {
                if idx < start {
                    vstd::arithmetic::div_mod::lemma_small_mod(idx as nat, size as nat);
                }
                assert(modify_every > 0 ==> size == old_key.len());
                assert(self.buf@[self.position_map@[idx] as int] == decipher_byte(
                    self.compact_text@[idx],
                    old_key[idx % old_key.len() as int],
                ));
            }
        }
        while start < n
            invariant
                prev.wf(),
                prev.map_deciphered(),
                self.key.wf(),
                self.key.buf@ == new_key,
                self.key.id == prev.key.id + 1,
                self.key.buf@ == canon(prev.key.id as int + 1),
                self.text == prev.text,
                self.compact_text == prev.compact_text,
                self.position_map == prev.position_map,
                self.buf@.len() == self.text@.len(),
                n == self.compact_text@.len(),
                size == new_key.len(),
                1 <= changed <= size,
                modify_every == size - changed,
                b >= 0,
                start == modify_every + b * size,
                forall|j: int|
                    0 <= j < self.text@.len() && !is_letter(#[trigger] self.text@[j])
                        ==> self.buf@[j] == self.text@[j],
                forall|idx: int|
                    0 <= idx < n && (idx < start || idx % (size as int) < modify_every)
                        ==> #[trigger] self.buf@[self.position_map@[idx] as int] == decipher_byte(
                        self.compact_text@[idx],
                        new_key[idx % (size as int)],
                    ),
            ensures
                self.key.wf(),
                self.key.buf@ == new_key,
                self.key.id == prev.key.id + 1,
                self.key.buf@ == canon(prev.key.id as int + 1),
                self.text == prev.text,
                self.compact_text == prev.compact_text,
                self.position_map == prev.position_map,
                self.buf@.len() == self.text@.len(),
                forall|j: int|
                    0 <= j < self.text@.len() && !is_letter(#[trigger] self.text@[j])
                        ==> self.buf@[j] == self.text@[j],
                forall|idx: int|
                    0 <= idx < n ==> #[trigger] self.buf@[self.position_map@[idx] as int]
                        == decipher_byte(
                        self.compact_text@[idx],
                        new_key[idx % (size as int)],
                    ),
            decreases n - start,
        {
            let room = n - start;
            let cnt = if changed < room {
                changed
            } else {
                room
            };
            let end = start + cnt;
            let mut i = start;
            while i < end
                invariant
                    prev.wf(),
                    self.key.wf(),
                    self.key.buf@ == new_key,
                    self.text == prev.text,
                    self.compact_text == prev.compact_text,
                    self.position_map == prev.position_map,
                    self.buf@.len() == self.text@.len(),
                    n == self.compact_text@.len(),
                    size == new_key.len(),
                    1 <= changed <= size,
                    modify_every == size - changed,
                    b >= 0,
                    start == modify_every + b * size,
                    start <= i <= end,
                    end == start + cnt,
                    cnt <= changed,
                    end <= n,
                    forall|j: int|
                        0 <= j < self.text@.len() && !is_letter(#[trigger] self.text@[j])
                            ==> self.buf@[j] == self.text@[j],
                    forall|idx: int|
                        0 <= idx < n && (idx < i || idx % (size as int) < modify_every)
                            ==> #[trigger] self.buf@[self.position_map@[idx] as int]
                            == decipher_byte(
                            self.compact_text@[idx],
                            new_key[idx % (size as int)],
                        ),
                decreases end - i,
            {
                let key_idx = modify_every + (i - start);
                proof {
                    vstd::arithmetic::div_mod::lemma_fundamental_div_mod_converse(
                        i as int,
                        size as int,
                        b,
                        key_idx as int,
                    );
                    assert(is_upper_byte(new_key[key_idx as int]));
                }
                let c = self.compact_text[i];
                let k = self.key.buf[key_idx];
                let d = decipher_letter(c, k);
                let p = self.position_map[i];
                self.buf[p] = d;
                proof {
                    assert forall|idx: int|
                        0 <= idx < n && idx != i implies self.position_map@[idx]
                        != self.position_map@[i as int] by {
                        assert(letters_of(self.text@.take(self.position_map@[idx] as int)).len()
                            == idx);
                    }
                    assert(is_letter(self.text@[p as int]));
                }
                i += 1;
            }
            proof {
                assert forall|idx: int|
                    end <= idx < n && idx - start < size implies #[trigger] (idx % (size as int))
                    < modify_every by {
                    let t = idx - start;
                    assert(cnt == changed);
                    assert((b + 1) * (size as int) == b * (size as int) + size)
                        by (nonlinear_arith);
                    assert(idx == (b + 1) * (size as int) + (modify_every + t - size));
                    vstd::arithmetic::div_mod::lemma_fundamental_div_mod_converse(
                        idx,
                        size as int,
                        b + 1,
                        modify_every + t - size,
                    );
                }
            }
            if size < n - start {
                start += size;
                proof {
                    b = b + 1;
                    assert(b * (size as int) == (b - 1) * (size as int) + size)
                        by (nonlinear_arith);
                }
            } else {
                break;
            }
        }
        proof {
            self.lemma_decipher_forms();
        }
    }

    /// One letter deciphered under one key letter, by table lookup.
    pub fn decipher_char_using_table(cipher: u8, key: u8) -> (r: u8)
        requires
            is_letter(cipher),
            is_letter(key),
        ensures
            r == decipher_byte(cipher, key),
    {
        decipher_letter(cipher, key)
    }

    /// Only letters are ever altered: a deciphered buffer holds the text's
    /// own byte at every non-letter position, whatever the active key.
    pub proof fn lemma_non_letters_pass_through(self)
        requires
            self.wf(),
            self.deciphered(),
        ensures
            forall|j: int|
                0 <= j < self.text@.len() && !is_letter(#[trigger] self.text@[j])
                    ==> self.buf@[j] == self.text@[j],
    {
    }

    /// Incremental and full decipherment agree: two engines over the same
    /// text whose keys carry the same identity hold byte-for-byte the same
    /// output buffer, however those states were reached — stepping
    /// `decipher_next_key` or seeding the identity and running
    /// `decipher_fully`.
    pub proof fn lemma_incremental_matches_full(a: Decipherer, b: Decipherer)
        requires
            a.wf(),
            b.wf(),
            a.deciphered(),
            b.deciphered(),
            a.text@ == b.text@,
            a.key.id == b.key.id,
        ensures
            a.buf@ == b.buf@,
    {
        crate::key::lemma_rank_injective(a.key.buf@, b.key.buf@);
    }

    /// The buffer decoded as UTF-8, or a fixed marker when it is not text.
    pub fn try_convert_to_utf8(vec: &Vec<u8>) -> (r: String)
        ensures
            vstd::utf8::valid_utf8(vec@) ==> vstd::utf8::encode_utf8(r@) == vec@,
            !vstd::utf8::valid_utf8(vec@) ==> r@ == "<Not valid UTF-8>"@,
    {
        match bytes_to_string(vec.as_slice()) {
            Some(s) => s,
            None => "<Not valid UTF-8>".to_owned(),
        }
    }

    /// The output buffer as text, or the marker when it is not valid UTF-8.
    pub fn buf_to_string(&self) -> (r: String)
        ensures
            vstd::utf8::valid_utf8(self.buf@) ==> vstd::utf8::encode_utf8(r@) == self.buf@,
            !vstd::utf8::valid_utf8(self.buf@) ==> r@ == "<Not valid UTF-8>"@,
    {
        Decipherer::try_convert_to_utf8(&self.buf)
    }

    /// The letters-only projection as text.
    pub fn compact_to_string(&self) -> (r: String)
        requires
            self.wf(),
        ensures
            vstd::utf8::encode_utf8(r@) == self.compact_text@,
    {
        proof {
            lemma_ascii_valid_utf8(self.compact_text@);
        }
        Decipherer::try_convert_to_utf8(&self.compact_text)
    }
}

} // verus!

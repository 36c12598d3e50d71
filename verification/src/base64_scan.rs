//! Scanning a key range for base64 candidates.
//!
//! The scan walks a contiguous, inclusive range of key identities. For each
//! key it deciphers the text (incrementally after the first), decodes the
//! buffer as standard base64, and accepts the decode as a candidate when it
//! holds no unwanted control bytes and forms valid UTF-8. Small inputs decode
//! into one fixed-size reused buffer; large ones into a growable buffer; both
//! paths run the same decode and find the same candidates.

use vstd::prelude::*;
use vstd::slice::slice_subrange;
use vstd::utf8::{encode_utf8, valid_utf8};

use crate::decipherer::{decipher_output, letters_of, Decipherer};
use crate::key::{canon, Id};
use crate::text::bytes_to_string;

verus! {

/// Decode buffer size for the no-allocation path: inputs whose decoded
/// estimate stays under this bound reuse one fixed buffer.
pub const SLICE_BUFFER_SIZE: usize = 2 * 192;

/// What base64's standard-alphabet decode routine yields for an input: the
/// decoded bytes, or nothing when the input is not valid base64. The crate's
/// two entry points, `decode_config_buf` and `decode_config_slice`, route
/// every call through that one routine with the same chunk count and the
/// same character set, so one name describes both, and the result depends on
/// the input bytes alone.
pub uninterp spec fn b64_decode(s: Seq<u8>) -> Option<Seq<u8>>;

/// Relies on `base64::decode_config_buf`: with the standard character set it
/// appends the decoded bytes to the buffer and succeeds exactly when the
/// input is valid base64. It is one of the two entry points of the decode
/// routine that `b64_decode` names.
#[verifier::external_body]
fn decode_standard_buf(input: &Vec<u8>, buffer: &mut Vec<u8>) -> (ok: bool)
    requires
        input@.len() + 7 <= usize::MAX,
        old(buffer)@.len() + input@.len() + 21 <= usize::MAX,
    ensures
        ok == (b64_decode(input@) is Some),
        ok ==> final(buffer)@ == old(buffer)@ + b64_decode(input@).unwrap(),
{
    base64::decode_config_buf(input, base64::STANDARD, buffer).is_ok()
}

/// Relies on `base64::decode_config_slice`: with the standard character set
/// it decodes into the front of the output slice, never needing more than
/// `(input_len + 3) / 4 * 3` bytes of room, and succeeds exactly when the
/// input is valid base64. It is the other entry point of the decode routine
/// that `b64_decode` names.
#[verifier::external_body]
fn decode_standard_slice(input: &Vec<u8>, output: &mut Vec<u8>) -> (r: Option<usize>)
    requires
        input@.len() + 7 <= usize::MAX,
        (input@.len() + 3) / 4 * 3 <= old(output)@.len(),
    ensures
        final(output)@.len() == old(output)@.len(),
        r is Some <==> b64_decode(input@) is Some,
        r matches Some(n) ==> {
            &&& b64_decode(input@) is Some
            &&& n == b64_decode(input@).unwrap().len()
            &&& final(output)@.take(n as int) == b64_decode(input@).unwrap()
            &&& n <= (input@.len() + 3) / 4 * 3
        },
{
    match base64::decode_config_slice(input, base64::STANDARD, output.as_mut_slice()) {
        Ok(n) => Some(n),
        Err(_) => None,
    }
}

/// A byte that disqualifies a decode from being printable text: the ASCII
/// controls before newline, and the two between newline and carriage return.
/// The half-open ranges are deliberate: newline and carriage return
/// themselves are welcome.
pub open spec fn unwanted(c: u8) -> bool {
    c < 10 || (11 <= c && c < 13)
}

/// Some byte of `s` is unwanted.
pub open spec fn has_unwanted(s: Seq<u8>) -> bool {
    exists|i: int| 0 <= i < s.len() && unwanted(#[trigger] s[i])
}

/// Runtime test for an unwanted byte.
pub fn is_unwanted_character(c: u8) -> (r: bool)
    ensures
        r == unwanted(c),
{
    c < 10 || (11 <= c && c < 13)
}

/// The decoded bytes as text: the string whose bytes are `buf`, unless some
/// byte is unwanted or the buffer is not valid UTF-8.
pub fn does_slice_contain_unwanted_characters(buf: &[u8]) -> (r: Option<String>)
    ensures
        r is Some <==> (!has_unwanted(buf@) && valid_utf8(buf@)),
        r matches Some(s) ==> encode_utf8(s@) == buf@,
{
    let mut i: usize = 0;
    while i < buf.len()
        invariant
            i <= buf@.len(),
            forall|j: int| 0 <= j < i ==> !unwanted(#[trigger] buf@[j]),
        decreases buf@.len() - i,
    {
        if is_unwanted_character(buf[i]) {
            return None;
        }
        i += 1;
    }
    bytes_to_string(buf)
}

/// An upper bound on the decoded size of a base64 input of `input_size`
/// bytes: the integer arithmetic folds to the input size itself, and a
/// decode never yields more than three bytes for every four input bytes.
pub fn decoded_size(input_size: usize) -> (r: usize)
    ensures
        r == input_size,
{
    input_size + 3 / 4 * 3
}

/// A deciphered buffer is a candidate when it decodes as base64 and the
/// decode has no unwanted byte and is valid UTF-8.
pub open spec fn is_candidate(buf: Seq<u8>) -> bool {
    match b64_decode(buf) {
        Some(d) => !has_unwanted(d) && valid_utf8(d),
        None => false,
    }
}

/// Key identity `id` is a candidate for `text`.
pub open spec fn candidate_in(text: Seq<u8>, id: int) -> bool {
    is_candidate(decipher_output(text, canon(id)))
}

/// The candidate identities in `lo..=hi`, in increasing order.
pub open spec fn candidate_ids(text: Seq<u8>, lo: int, hi: int) -> Seq<int>
    decreases hi - lo + 1,
{
    if hi < lo {
        Seq::empty()
    } else if candidate_in(text, hi) {
        candidate_ids(text, lo, hi - 1).push(hi)
    } else {
        candidate_ids(text, lo, hi - 1)
    }
}

/// The candidate identities lie in `lo..=hi` and are strictly increasing:
/// a scan reports its candidates in strictly increasing key order.
pub proof fn lemma_candidate_ids_ordered(text: Seq<u8>, lo: int, hi: int)
    ensures
        forall|k: int|
            0 <= k < candidate_ids(text, lo, hi).len() ==> lo <= #[trigger] candidate_ids(
                text,
                lo,
                hi,
            )[k] <= hi,
        forall|k1: int, k2: int|
            0 <= k1 < k2 < candidate_ids(text, lo, hi).len() ==> candidate_ids(text, lo, hi)[k1]
                < candidate_ids(text, lo, hi)[k2],
    decreases hi - lo + 1,
{
    if hi >= lo {
        lemma_candidate_ids_ordered(text, lo, hi - 1);
        let prev = candidate_ids(text, lo, hi - 1);
        let s = candidate_ids(text, lo, hi);
        assert forall|k: int| 0 <= k < s.len() implies lo <= #[trigger] s[k] <= hi by {
            if k < prev.len() {
                assert(s[k] == prev[k]);
            }
        }
        assert forall|k1: int, k2: int| 0 <= k1 < k2 < s.len() implies s[k1] < s[k2] by {
            assert(s[k1] == prev[k1]);
            if k2 < prev.len() {
                assert(s[k2] == prev[k2]);
            } else {
                assert(s[k2] == hi);
                assert(prev[k1] <= hi - 1);
            }
        }
    }
}

/// The last identity a scan over `start..=end` visits: `end`, unless the
/// range is inverted, in which case only `start` is visited.
pub open spec fn scan_last(start: Id, end: Id) -> Id {
    if start <= end {
        end
    } else {
        start
    }
}

/// What a finished scan guarantees: the count and the collected strings
/// correspond one to one, in order, to the candidate identities of the
/// range, each string holding that identity's decoded bytes; earlier
/// collected strings are untouched.
pub open spec fn scan_post(
    text: Seq<u8>,
    start: Id,
    end: Id,
    old_candidates: Seq<String>,
    new_candidates: Seq<String>,
    r: Id,
) -> bool {
    let ids = candidate_ids(text, start as int, scan_last(start, end) as int);
    &&& r as nat == ids.len()
    &&& new_candidates.len() == old_candidates.len() + ids.len()
    &&& (forall|k: int| 0 <= k < old_candidates.len() ==> new_candidates[k] == old_candidates[k])
    &&& (forall|k: int|
        0 <= k < ids.len() ==> encode_utf8(#[trigger] new_candidates[old_candidates.len() + k]@)
            == b64_decode(decipher_output(text, canon(ids[k]))).unwrap())
}

/// The two backing-storage strategies agree: two finished scans of the same
/// text over the same range — one through the fixed-buffer entry point, one
/// through the growable-buffer entry point — return the same count and push
/// identical candidate strings, because both are held to `scan_post` over
/// the one decode routine.
pub proof fn lemma_dual_path_agreement(
    text: Seq<u8>,
    start: Id,
    end: Id,
    old1: Seq<String>,
    new1: Seq<String>,
    r1: Id,
    old2: Seq<String>,
    new2: Seq<String>,
    r2: Id,
)
    requires
        scan_post(text, start, end, old1, new1, r1),
        scan_post(text, start, end, old2, new2, r2),
    ensures
        r1 == r2,
        new1.len() - old1.len() == new2.len() - old2.len(),
        forall|k: int|
            0 <= k < r1 ==> #[trigger] new1[old1.len() + k]@ == new2[old2.len() + k]@,
{
    let ids = candidate_ids(text, start as int, scan_last(start, end) as int);
    assert forall|k: int| 0 <= k < r1 implies #[trigger] new1[old1.len() + k]@ == new2[old2.len()
        + k]@ by {
        let c1 = new1[old1.len() + k]@;
        let c2 = new2[old2.len() + k]@;
        assert(encode_utf8(c1) == encode_utf8(c2));
        vstd::utf8::encode_utf8_decode_utf8(c1);
        vstd::utf8::encode_utf8_decode_utf8(c2);
    }
}

/// A scan over a key range that surfaces base64 candidates.
pub trait DecipherBase64 {
    /// The scanner is in a fit state.
    spec fn scan_wf(&self) -> bool;

    /// The ciphertext the scanner works on.
    spec fn scan_text(&self) -> Seq<u8>;

    /// The identity of the scanner's active key.
    spec fn scan_id(&self) -> Id;

    /// Scan identities `start..=end`, preferring the fixed-buffer decode
    /// path when the text is small, and push each candidate's text onto
    /// `candidates`; the count of candidates is returned.
    fn check_for_candidates(&mut self, start: Id, end: Id, candidates: &mut Vec<String>) -> (r: Id)
        requires
            old(self).scan_wf(),
            old(self).scan_text().len() + 21 <= usize::MAX,
        ensures
            final(self).scan_wf(),
            final(self).scan_text() == old(self).scan_text(),
            final(self).scan_id() == scan_last(start, end),
            scan_post(
                old(self).scan_text(),
                start,
                end,
                old(candidates)@,
                final(candidates)@,
                r,
            ),
    ;

    /// Scan identities `start..=end` decoding into a growable buffer, and
    /// push each candidate's text onto `candidates`; the count of candidates
    /// is returned.
    fn check_for_candidates_vec(&mut self, start: Id, end: Id, candidates: &mut Vec<String>) -> (r:
        Id)
        requires
            old(self).scan_wf(),
            old(self).scan_text().len() + 21 <= usize::MAX,
        ensures
            final(self).scan_wf(),
            final(self).scan_text() == old(self).scan_text(),
            final(self).scan_id() == scan_last(start, end),
            scan_post(
                old(self).scan_text(),
                start,
                end,
                old(candidates)@,
                final(candidates)@,
                r,
            ),
    ;
}

impl DecipherBase64 for Decipherer {
    open spec fn scan_wf(&self) -> bool {
        self.wf()
    }

    open spec fn scan_text(&self) -> Seq<u8> {
        self.text@
    }

    open spec fn scan_id(&self) -> Id {
        self.key.id
    }

    #[verifier::rlimit(50)]
    fn check_for_candidates(&mut self, start: Id, end: Id, candidates: &mut Vec<String>) -> (r:
        Id) {
        let size_decoded_max = decoded_size(self.text.len());
        if size_decoded_max >= SLICE_BUFFER_SIZE {
            return self.check_for_candidates_vec(start, end, candidates);
        }
        let ghost text: Seq<u8> = self.text@;
        let ghost base_c: Seq<String> = candidates@;
        let base = candidates.len();
        self.key.set_id(start);
        proof {
            assert(self.key.wf());
            assert(self.compact_text@ == letters_of(self.text@));
            assert(crate::key::all_letters(self.compact_text@));
            assert(self.position_map@.len() == self.compact_text@.len());
            assert(self.buf@.len() == self.text@.len());
            assert(forall|i: int|
                0 <= i < self.position_map@.len() ==> {
                    &&& #[trigger] self.position_map@[i] < self.text@.len()
                    &&& self.text@[self.position_map@[i] as int] == self.compact_text@[i]
                    &&& letters_of(self.text@.take(self.position_map@[i] as int)).len() == i
                });
            assert(forall|j: int|
                0 <= j < self.text@.len() && crate::table::is_letter(#[trigger] self.text@[j])
                    ==> exists|i: int|
                    0 <= i < self.position_map@.len() && self.position_map@[i] == j);
            assert(forall|j: int|
                0 <= j < self.text@.len() && !crate::table::is_letter(#[trigger] self.text@[j])
                    ==> self.buf@[j] == self.text@[j]);
            assert(self.wf());
        }
        self.decipher_fully();
        let mut decode_buf: Vec<u8> = vec![0u8; SLICE_BUFFER_SIZE];
        loop
            invariant
                self.wf(),
                self.deciphered(),
                self.text@ == text,
                text == old(self).text@,
                base_c == old(candidates)@,
                text.len() < SLICE_BUFFER_SIZE as nat,
                self.key.buf@ == canon(self.key.id as int),
                start <= self.key.id <= scan_last(start, end),
                start > end ==> self.key.id == start,
                decode_buf@.len() == SLICE_BUFFER_SIZE as nat,
                base == base_c.len(),
                candidates@.len() == base_c.len() + candidate_ids(
                    text,
                    start as int,
                    self.key.id as int - 1,
                ).len(),
                forall|k: int| 0 <= k < base_c.len() ==> candidates@[k] == base_c[k],
                forall|k: int|
                    0 <= k < candidate_ids(text, start as int, self.key.id as int - 1).len()
                        ==> encode_utf8(#[trigger] candidates@[base_c.len() + k]@) == b64_decode(
                        decipher_output(
                            text,
                            canon(candidate_ids(text, start as int, self.key.id as int - 1)[k]),
                        ),
                    ).unwrap(),
            decreases scan_last(start, end) - self.key.id,
        {
            let ghost cur = self.key.id as int;
            match decode_standard_slice(&self.buf, &mut decode_buf) {
                Some(sz) => {
                    assert(sz < decode_buf.len());
                    let part = slice_subrange(decode_buf.as_slice(), 0, sz);
                    match does_slice_contain_unwanted_characters(part) {
                        Some(candidate) => {
                            candidates.push(candidate);
                        },
                        None => {},
                    }
                },
                None => {},
            }
            proof {
                assert(candidate_ids(text, start as int, cur) == if candidate_in(text, cur) {
                    candidate_ids(text, start as int, cur - 1).push(cur)
                } else {
                    candidate_ids(text, start as int, cur - 1)
                });
            }
            if self.key.id >= end {
                let found = candidates.len() - base;
                return found as Id;
            }
            self.decipher_next_key();
        }
    }

    #[verifier::rlimit(50)]
    fn check_for_candidates_vec(&mut self, start: Id, end: Id, candidates: &mut Vec<String>) -> (r:
        Id) {
        let ghost text: Seq<u8> = self.text@;
        let ghost base_c: Seq<String> = candidates@;
        let base = candidates.len();
        self.key.set_id(start);
        proof {
            assert(self.key.wf());
            assert(self.compact_text@ == letters_of(self.text@));
            assert(crate::key::all_letters(self.compact_text@));
            assert(self.position_map@.len() == self.compact_text@.len());
            assert(self.buf@.len() == self.text@.len());
            assert(forall|i: int|
                0 <= i < self.position_map@.len() ==> {
                    &&& #[trigger] self.position_map@[i] < self.text@.len()
                    &&& self.text@[self.position_map@[i] as int] == self.compact_text@[i]
                    &&& letters_of(self.text@.take(self.position_map@[i] as int)).len() == i
                });
            assert(forall|j: int|
                0 <= j < self.text@.len() && crate::table::is_letter(#[trigger] self.text@[j])
                    ==> exists|i: int|
                    0 <= i < self.position_map@.len() && self.position_map@[i] == j);
            assert(forall|j: int|
                0 <= j < self.text@.len() && !crate::table::is_letter(#[trigger] self.text@[j])
                    ==> self.buf@[j] == self.text@[j]);
            assert(self.wf());
        }
        self.decipher_fully();
        let mut decode_buf: Vec<u8> = Vec::new();
        loop
            invariant
                self.wf(),
                self.deciphered(),
                self.text@ == text,
                text == old(self).text@,
                base_c == old(candidates)@,
                text.len() + 21 <= usize::MAX,
                self.key.buf@ == canon(self.key.id as int),
                start <= self.key.id <= scan_last(start, end),
                start > end ==> self.key.id == start,
                base == base_c.len(),
                candidates@.len() == base_c.len() + candidate_ids(
                    text,
                    start as int,
                    self.key.id as int - 1,
                ).len(),
                forall|k: int| 0 <= k < base_c.len() ==> candidates@[k] == base_c[k],
                forall|k: int|
                    0 <= k < candidate_ids(text, start as int, self.key.id as int - 1).len()
                        ==> encode_utf8(#[trigger] candidates@[base_c.len() + k]@) == b64_decode(
                        decipher_output(
                            text,
                            canon(candidate_ids(text, start as int, self.key.id as int - 1)[k]),
                        ),
                    ).unwrap(),
            decreases scan_last(start, end) - self.key.id,
        {
            let ghost cur = self.key.id as int;
            decode_buf.clear();
            let ok = decode_standard_buf(&self.buf, &mut decode_buf);
            if ok {
                match does_slice_contain_unwanted_characters(decode_buf.as_slice()) {
                    Some(candidate) => {
                        candidates.push(candidate);
                    },
                    None => {},
                }
            }
            proof {
                assert(candidate_ids(text, start as int, cur) == if candidate_in(text, cur) {
                    candidate_ids(text, start as int, cur - 1).push(cur)
                } else {
                    candidate_ids(text, start as int, cur - 1)
                });
            }
            if self.key.id >= end {
                let found = candidates.len() - base;
                return found as Id;
            }
            self.decipher_next_key();
        }
    }
}

} // verus!

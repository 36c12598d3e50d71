//! The key counter: a key is a point in the total order over all finite
//! letter sequences, ordered first by length and then lexicographically.
//! `"A"` has identity 0, `"Z"` 25, `"AA"` 26, `"AB"` 27, and so on; the
//! digit sequence is read as a bijective base-26 numeral where `A` stands
//! for 1 and `Z` for 26, shifted down by one.

use vstd::prelude::*;

use crate::table::{is_letter, is_lower_byte, is_upper_byte, ALPHABET_SIZE, LOWER_A, LOWER_Z,
    UPPER_A, UPPER_Z};

verus! {

/// The rank of a key in the total order over all keys.
pub type Id = u128;

/// Every digit is an upper-case letter.
pub open spec fn all_upper(s: Seq<u8>) -> bool {
    forall|i: int| 0 <= i < s.len() ==> is_upper_byte(#[trigger] s[i])
}

/// Every byte of `s` is `b`.
pub open spec fn all_eq(s: Seq<u8>, b: u8) -> bool {
    forall|i: int| 0 <= i < s.len() ==> s[i] == b
}

/// One more than the rank of the digit sequence `s`: the digits read as a
/// bijective base-26 numeral, `A` standing for 1 and `Z` for 26.
pub open spec fn seq_val(s: Seq<u8>) -> int
    decreases s.len(),
{
    if s.len() == 0 {
        0
    } else {
        seq_val(s.drop_last()) * 26 + (s.last() - UPPER_A + 1)
    }
}

/// The identity of the key whose digits are `s`: `"A"` has rank 0,
/// `"Z"` rank 25, `"AA"` rank 26.
pub open spec fn rank(s: Seq<u8>) -> int {
    seq_val(s) - 1
}

/// The canonical digit sequence of the key with identity `id`.
pub open spec fn canon(id: int) -> Seq<u8>
    recommends
        id >= 0,
    decreases id,
{
    if id < 26 {
        seq![(UPPER_A + id) as u8]
    } else {
        canon(id / 26 - 1).push((UPPER_A + id % 26) as u8)
    }
}

/// 26 to the power `n`.
pub open spec fn pow26(n: nat) -> int
    decreases n,
{
    if n == 0 {
        1
    } else {
        26 * pow26((n - 1) as nat)
    }
}

/// `seq_val` of the digit sequence of length `n` whose digits are all `b`.
pub open spec fn rep_val(b: u8, n: nat) -> int
    decreases n,
{
    if n == 0 {
        0
    } else {
        rep_val(b, (n - 1) as nat) * 26 + (b - UPPER_A + 1)
    }
}

/// The value of a single digit.
pub proof fn lemma_seq_val_single(b: u8)
    ensures
        seq_val(seq![b]) == b - UPPER_A + 1,
{
    assert(seq![b].drop_last() =~= Seq::<u8>::empty());
    assert(seq_val(Seq::<u8>::empty()) == 0);
}

/// The canonical digits are upper-case letters and never empty.
pub proof fn lemma_canon_shape(id: int)
    requires
        id >= 0,
    ensures
        canon(id).len() >= 1,
        all_upper(canon(id)),
    decreases id,
{
    if id >= 26 {
        lemma_canon_shape(id / 26 - 1);
    }
}

/// Identity-to-digits round trip: the canonical digits of `id` rank back to `id`.
pub proof fn lemma_rank_canon(id: int)
    requires
        id >= 0,
    ensures
        rank(canon(id)) == id,
    decreases id,
{
    if id < 26 {
        assert(((UPPER_A + id) as u8) == UPPER_A + id);
        lemma_seq_val_single((UPPER_A + id) as u8);
    } else {
        lemma_rank_canon(id / 26 - 1);
        assert(((UPPER_A + id % 26) as u8) == UPPER_A + id % 26);
        assert(canon(id).drop_last() =~= canon(id / 26 - 1));
        assert(canon(id).last() == (UPPER_A + id % 26) as u8);
        assert(26 * (id / 26) + id % 26 == id) by (nonlinear_arith);
    }
}

/// Digits-to-identity round trip: any non-empty upper-case digit sequence
/// is the canonical display of its own rank, so the two conversions are
/// mutually inverse.
pub proof fn lemma_canon_rank(s: Seq<u8>)
    requires
        all_upper(s),
        s.len() >= 1,
    ensures
        canon(rank(s)) == s,
{
    lemma_seq_val_pos(s);
    lemma_rank_canon(rank(s));
    lemma_canon_shape(rank(s));
    lemma_rank_injective(s, canon(rank(s)));
}

/// The value of a non-empty upper-case digit sequence is at least 1.
pub proof fn lemma_seq_val_pos(s: Seq<u8>)
    requires
        all_upper(s),
    ensures
        seq_val(s) >= 0,
        s.len() >= 1 ==> seq_val(s) >= 1,
    decreases s.len(),
{
    if s.len() > 0 {
        lemma_seq_val_pos(s.drop_last());
    }
}

/// Digit sequences are a bijective numeration: equal ranks mean equal digits.
pub proof fn lemma_rank_injective(s1: Seq<u8>, s2: Seq<u8>)
    requires
        all_upper(s1),
        all_upper(s2),
        s1.len() >= 1,
        s2.len() >= 1,
        rank(s1) == rank(s2),
    ensures
        s1 == s2,
    decreases s1.len(),
{
    let d1 = s1.drop_last();
    let d2 = s2.drop_last();
    let q1 = seq_val(d1);
    let q2 = seq_val(d2);
    let v1 = s1.last() - UPPER_A + 1;
    let v2 = s2.last() - UPPER_A + 1;
    lemma_seq_val_pos(d1);
    lemma_seq_val_pos(d2);
    // seq_val(s1) - 1 == q1 * 26 + (v1 - 1) with 0 <= v1 - 1 < 26, and the
    // same for s2, so quotient and remainder agree.
    assert(q1 == q2 && v1 == v2);
    assert(s1.last() == s2.last());
    if d1.len() == 0 {
        assert(d2.len() == 0) by {
            if d2.len() >= 1 {
                lemma_seq_val_pos(d2);
            }
        }
        assert(s1 =~= d1.push(s1.last()));
        assert(s2 =~= d2.push(s2.last()));
    } else {
        assert(d2.len() >= 1) by {
            if d2.len() == 0 {
                lemma_seq_val_pos(d1);
            }
        }
        lemma_rank_injective(d1, d2);
        assert(s1 =~= d1.push(s1.last()));
        assert(s2 =~= d2.push(s2.last()));
    }
}

/// Splitting a digit sequence splits its value positionally.
pub proof fn lemma_seq_val_concat(x: Seq<u8>, y: Seq<u8>)
    ensures
        seq_val(x + y) == seq_val(x) * pow26(y.len()) + seq_val(y),
    decreases y.len(),
{
    if y.len() == 0 {
        assert(x + y =~= x);
    } else {
        lemma_seq_val_concat(x, y.drop_last());
        assert((x + y).drop_last() =~= x + y.drop_last());
        assert((x + y).last() == y.last());
        let n1 = (y.len() - 1) as nat;
        assert((seq_val(x) * pow26(n1) + seq_val(y.drop_last())) * 26 == seq_val(x) * (26 * pow26(
            n1,
        )) + seq_val(y.drop_last()) * 26) by (nonlinear_arith);
    }
}

/// A run of one repeated digit has value `rep_val` of its length.
pub proof fn lemma_seq_val_rep(s: Seq<u8>, b: u8)
    requires
        all_eq(s, b),
    ensures
        seq_val(s) == rep_val(b, s.len()),
    decreases s.len(),
{
    if s.len() > 0 {
        lemma_seq_val_rep(s.drop_last(), b);
    }
}

/// A run of `Z`s outranks a run of `A`s of the same length by `pow26 - 1`:
/// the amount a carry borrows when those `Z`s reset to `A`s.
pub proof fn lemma_rep_diff(n: nat)
    ensures
        rep_val(UPPER_Z, n) - rep_val(UPPER_A, n) == pow26(n) - 1,
    decreases n,
{
    if n > 0 {
        lemma_rep_diff((n - 1) as nat);
    }
}

/// The largest value of an upper-case digit sequence of length `n`
/// (all digits `Z`).
pub open spec fn max_val(n: nat) -> int
    decreases n,
{
    if n == 0 {
        0
    } else {
        max_val((n - 1) as nat) * 26 + 26
    }
}

/// The smallest value of an upper-case digit sequence of length `n`
/// (all digits `A`).
pub open spec fn min_val(n: nat) -> int
    decreases n,
{
    if n == 0 {
        0
    } else {
        min_val((n - 1) as nat) * 26 + 1
    }
}

/// The value of a digit sequence is bracketed by the all-`A` and all-`Z`
/// sequences of its length.
pub proof fn lemma_seq_val_bounds(s: Seq<u8>)
    requires
        all_upper(s),
    ensures
        min_val(s.len()) <= seq_val(s) <= max_val(s.len()),
    decreases s.len(),
{
    if s.len() > 0 {
        lemma_seq_val_bounds(s.drop_last());
    }
}

/// Both bounds grow with the length.
pub proof fn lemma_val_bounds_monotone(m: nat, n: nat)
    requires
        m <= n,
    ensures
        max_val(m) <= max_val(n),
        min_val(m) <= min_val(n),
    decreases n,
{
    if m < n {
        lemma_val_bounds_monotone(m, (n - 1) as nat);
        lemma_val_bounds_nonneg((n - 1) as nat);
    }
}

/// The bounds are never negative.
pub proof fn lemma_val_bounds_nonneg(n: nat)
    ensures
        max_val(n) >= 0,
        min_val(n) >= 0,
    decreases n,
{
    if n > 0 {
        lemma_val_bounds_nonneg((n - 1) as nat);
    }
}

/// Twenty-seven digits always fit a `u128` identity.
pub proof fn lemma_max_val_27()
    ensures
        max_val(27) < u128::MAX as int,
{
    reveal_with_fuel(max_val, 30);
}

/// Twenty-nine digits never fit a `u128` identity.
pub proof fn lemma_min_val_29()
    ensures
        min_val(29) > u128::MAX as int + 1,
{
    reveal_with_fuel(min_val, 32);
}

/// The all-`A` run is one short of a twenty-fifth of the next power of 26.
pub proof fn lemma_rep_a_pow(n: nat)
    ensures
        25 * rep_val(UPPER_A, n) == pow26(n) - 1,
    decreases n,
{
    if n > 0 {
        lemma_rep_a_pow((n - 1) as nat);
    }
}

/// The byte `b` with a lower-case letter raised to upper case.
pub open spec fn to_upper_byte(b: u8) -> u8 {
    if is_lower_byte(b) {
        (b - 32) as u8
    } else {
        b
    }
}

/// `s` with every lower-case letter raised to upper case.
pub open spec fn upper_seq(s: Seq<u8>) -> Seq<u8> {
    Seq::new(s.len(), |i: int| to_upper_byte(s[i]))
}

/// Every byte of `s` is an ASCII letter.
pub open spec fn all_letters(s: Seq<u8>) -> bool {
    forall|i: int| 0 <= i < s.len() ==> is_letter(#[trigger] s[i])
}

/// A key: its integer identity and its digit display, kept consistent.
pub struct Key {
    pub id: Id,
    pub buf: Vec<u8>,
}

impl Key {
    /// The digits are a non-empty upper-case sequence whose rank is exactly
    /// the stored identity.
    pub open spec fn wf(self) -> bool {
        &&& self.buf@.len() >= 1
        &&& all_upper(self.buf@)
        &&& rank(self.buf@) == self.id as int
    }

    /// The first key: identity 0, displayed as `"A"`.
    pub fn first() -> (k: Key)
        ensures
            k.id == 0,
            k.buf@ =~= seq![UPPER_A],
            k.wf(),
    {
        let mut buf: Vec<u8> = Vec::new();
        buf.push(UPPER_A);
        let k = Key { id: 0, buf };
        proof {
            assert(k.buf@ =~= seq![UPPER_A]);
            lemma_seq_val_single(UPPER_A);
        }
        k
    }

    /// Number of digits in the key.
    pub fn len(&self) -> (n: usize)
        ensures
            n == self.buf@.len(),
    {
        self.buf.len()
    }

    /// A copy of the digit bytes, most significant first.
    pub fn iter(&self) -> (r: Vec<u8>)
        ensures
            r@ == self.buf@,
    {
        let mut r: Vec<u8> = Vec::new();
        let mut i: usize = 0;
        while i < self.buf.len()
            invariant
                i <= self.buf@.len(),
                r@ == self.buf@.take(i as int),
            decreases self.buf@.len() - i,
        {
            r.push(self.buf[i]);
            proof {
                assert(r@ =~= self.buf@.take(i + 1));
            }
            i += 1;
        }
        proof {
            assert(r@ =~= self.buf@);
        }
        r
    }

    /// Replace this key by the key with identity `id`, recomputing the
    /// canonical digits: repeatedly divide by 26, each remainder naming a
    /// letter, the next quotient being one less than the division's (the
    /// off-by-one that bijective numeration demands).
    pub fn set_id(&mut self, id: Id)
        ensures
            final(self).id == id,
            final(self).buf@ == canon(id as int),
            final(self).wf(),
    {
        self.id = id;
        self.buf.clear();
        let mut v: Id = id;
        loop
            invariant_except_break
                canon(id as int) =~= canon(v as int) + self.buf@,
            invariant
                self.id == id,
            ensures
                self.buf@ =~= canon(id as int),
            decreases v,
        {
            let div = v / (ALPHABET_SIZE as Id);
            let rem = v % (ALPHABET_SIZE as Id);
            self.buf.insert(0, UPPER_A + (rem as u8));
            proof {
                if v < 26 {
                    assert(canon(v as int) =~= seq![(UPPER_A + v as int) as u8]);
                    assert(canon(id as int) =~= self.buf@);
                } else {
                    assert(canon(v as int) =~= canon(v as int / 26 - 1).push(
                        (UPPER_A + v as int % 26) as u8,
                    ));
                    assert(canon(id as int) =~= canon(div as int - 1) + self.buf@);
                }
            }
            if v < 26 {
                break;
            }
            v = div - 1;
        }
        proof {
            lemma_rank_canon(id as int);
            lemma_canon_shape(id as int);
        }
    }

    /// Build a key from a letter sequence, lower-case letters taken as their
    /// upper-case digits; any other byte is rejected. An empty sequence gives
    /// the first key.
    pub fn from_slice(key: &[u8]) -> (r: Result<Key, &'static str>)
        requires
            key@.len() <= 27,
        ensures
            match r {
                Ok(k) => {
                    &&& all_letters(key@)
                    &&& k.wf()
                    &&& k.buf@ == if key@.len() == 0 {
                        seq![UPPER_A]
                    } else {
                        upper_seq(key@)
                    }
                },
                Err(e) => {
                    &&& !all_letters(key@)
                    &&& e@ == "Invalid characters in key"@
                },
            },
    {
        if key.len() == 0 {
            return Ok(Key::first());
        }
        let mut buf: Vec<u8> = Vec::new();
        let mut i: usize = 0;
        while i < key.len()
            invariant
                i <= key@.len(),
                forall|j: int| 0 <= j < i ==> is_letter(#[trigger] key@[j]),
                buf@ =~= upper_seq(key@).take(i as int),
            decreases key@.len() - i,
        {
            let c = key[i];
            if !((UPPER_A <= c && c <= UPPER_Z) || (LOWER_A <= c && c <= LOWER_Z)) {
                return Err("Invalid characters in key");
            }
            let u: u8 = if c >= LOWER_A {
                c - 32
            } else {
                c
            };
            buf.push(u);
            proof {
                assert(u == to_upper_byte(key@[i as int]));
                assert(buf@ =~= upper_seq(key@).take(i + 1));
            }
            i += 1;
        }
        proof {
            assert(buf@ =~= upper_seq(key@));
            assert(all_upper(buf@));
        }
        let mut val: Id = 0;
        let mut j: usize = 0;
        while j < buf.len()
            invariant
                j <= buf@.len(),
                buf@.len() == key@.len() <= 27,
                all_upper(buf@),
                val == seq_val(buf@.take(j as int)),
            decreases buf@.len() - j,
        {
            proof {
                assert(buf@.take(j + 1).drop_last() =~= buf@.take(j as int));
                assert(buf@.take(j + 1).last() == buf@[j as int]);
                assert(all_upper(buf@.take(j + 1)));
                lemma_seq_val_bounds(buf@.take(j + 1));
                lemma_val_bounds_monotone((j + 1) as nat, 27);
                lemma_max_val_27();
                lemma_seq_val_pos(buf@.take(j as int));
            }
            val = val * 26 + ((buf[j] - UPPER_A) as Id + 1);
            j += 1;
        }
        proof {
            assert(buf@.take(buf@.len() as int) =~= buf@);
            lemma_seq_val_pos(buf@);
        }
        Ok(Key { id: val - 1, buf })
    }

    /// Advance the key to the next identity and return how many trailing
    /// digits changed: the first digit from the right that is not `Z` is
    /// incremented and every `Z` before it resets to `A`; when all digits
    /// are `Z`, a new leading `A` appears and every digit has changed.
    pub fn advance(&mut self) -> (r: usize)
        requires
            old(self).wf(),
            old(self).id < Id::MAX,
        ensures
            final(self).wf(),
            final(self).id == old(self).id + 1,
            final(self).buf@ == canon(old(self).id as int + 1),
            1 <= r <= final(self).buf@.len(),
            r <= old(self).buf@.len() ==> {
                &&& final(self).buf@.len() == old(self).buf@.len()
                &&& (forall|i: int|
                    0 <= i < old(self).buf@.len() - r
                        ==> final(self).buf@[i] == old(self).buf@[i])
                &&& final(self).buf@[old(self).buf@.len() - r]
                    == old(self).buf@[old(self).buf@.len() - r] + 1
                &&& (forall|i: int|
                    old(self).buf@.len() - r < i < old(self).buf@.len()
                        ==> final(self).buf@[i] == UPPER_A && old(self).buf@[i] == UPPER_Z)
            },
            r > old(self).buf@.len() ==> {
                &&& r == old(self).buf@.len() + 1
                &&& final(self).buf@.len() == r
                &&& all_eq(final(self).buf@, UPPER_A)
                &&& all_eq(old(self).buf@, UPPER_Z)
            },
    {
        proof {
            old(self).lemma_wf_len();
        }
        self.id = self.id + 1;
        let n = self.buf.len();
        let mut i: usize = 0;
        while i < n
            invariant
                old(self).wf(),
                n == old(self).buf@.len(),
                1 <= n <= 28,
                self.id == old(self).id + 1,
                self.buf@.len() == n,
                i <= n,
                forall|j: int| 0 <= j < n - i ==> self.buf@[j] == old(self).buf@[j],
                forall|j: int|
                    n - i <= j < n ==> self.buf@[j] == UPPER_A && old(self).buf@[j] == UPPER_Z,
            decreases n - i,
        {
            let pos = n - 1 - i;
            let c = self.buf[pos];
            if c != UPPER_Z {
                self.buf[pos] = c + 1;
                proof {
                    self.lemma_advance_in_place(*old(self), pos as int);
                }
                return i + 1;
            }
            self.buf[pos] = UPPER_A;
            i += 1;
        }
        self.buf.insert(0, UPPER_A);
        proof {
            self.lemma_advance_grow(*old(self));
        }
        n + 1
    }

    /// The carry arithmetic behind an in-place `advance`: incrementing the
    /// digit at `p` and resetting the `Z`s after it to `A`s raises the rank
    /// by exactly one.
    proof fn lemma_advance_in_place(self, prev: Key, p: int)
        requires
            prev.wf(),
            prev.id < Id::MAX,
            self.id == prev.id + 1,
            self.buf@.len() == prev.buf@.len(),
            0 <= p < prev.buf@.len(),
            forall|j: int| 0 <= j < p ==> self.buf@[j] == prev.buf@[j],
            prev.buf@[p] != UPPER_Z,
            self.buf@[p] == prev.buf@[p] + 1,
            forall|j: int|
                p < j < prev.buf@.len() ==> self.buf@[j] == UPPER_A && prev.buf@[j] == UPPER_Z,
        ensures
            self.wf(),
            self.buf@ == canon(prev.id as int + 1),
    {
        let m = prev.buf@.len() as int;
        let k = (m - p - 1) as nat;
        let pre = prev.buf@.subrange(0, p);
        let d = prev.buf@[p];
        let zs = prev.buf@.subrange(p + 1, m);
        let as_ = self.buf@.subrange(p + 1, m);
        assert(prev.buf@ =~= (pre + seq![d]) + zs);
        assert(self.buf@ =~= (pre + seq![(d + 1) as u8]) + as_);
        lemma_seq_val_concat(pre + seq![d], zs);
        lemma_seq_val_concat(pre + seq![(d + 1) as u8], as_);
        assert((pre + seq![d]).drop_last() =~= pre);
        assert((pre + seq![(d + 1) as u8]).drop_last() =~= pre);
        lemma_seq_val_rep(zs, UPPER_Z);
        lemma_seq_val_rep(as_, UPPER_A);
        lemma_rep_diff(k);
        let q = seq_val(pre);
        assert(seq_val(pre + seq![d]) == q * 26 + (d - UPPER_A + 1));
        assert(seq_val(pre + seq![(d + 1) as u8]) == q * 26 + (d + 1 - UPPER_A + 1));
        assert((q * 26 + (d - UPPER_A + 1) + 1) * pow26(k) == (q * 26 + (d - UPPER_A + 1)) * pow26(
            k,
        ) + pow26(k)) by (nonlinear_arith);
        assert(seq_val(self.buf@) == seq_val(prev.buf@) + 1);
        assert(all_upper(self.buf@));
        lemma_rank_canon(prev.id as int + 1);
        lemma_canon_shape(prev.id as int + 1);
        lemma_rank_injective(self.buf@, canon(prev.id as int + 1));
    }

    /// The carry arithmetic behind a growing `advance`: when every digit is
    /// `Z`, replacing them by one more `A` raises the rank by exactly one.
    proof fn lemma_advance_grow(self, prev: Key)
        requires
            prev.wf(),
            prev.id < Id::MAX,
            self.id == prev.id + 1,
            self.buf@.len() == prev.buf@.len() + 1,
            all_eq(prev.buf@, UPPER_Z),
            all_eq(self.buf@, UPPER_A),
        ensures
            self.wf(),
            self.buf@ == canon(prev.id as int + 1),
    {
        let m = prev.buf@.len();
        lemma_seq_val_rep(prev.buf@, UPPER_Z);
        lemma_seq_val_rep(self.buf@, UPPER_A);
        lemma_rep_diff(m);
        lemma_rep_a_pow(m);
        assert(seq_val(self.buf@) == rep_val(UPPER_A, m) * 26 + 1);
        assert(seq_val(self.buf@) == seq_val(prev.buf@) + 1);
        assert(all_upper(self.buf@));
        lemma_rank_canon(prev.id as int + 1);
        lemma_canon_shape(prev.id as int + 1);
        lemma_rank_injective(self.buf@, canon(prev.id as int + 1));
    }

    /// The key's digits as an owned string, e.g. `"AB"`.
    pub fn buf_to_string(&self) -> (r: String)
        requires
            self.wf(),
        ensures
            vstd::utf8::encode_utf8(r@) == self.buf@,
    {
        proof {
            crate::text::lemma_ascii_valid_utf8(self.buf@);
        }
        match crate::text::bytes_to_string(self.buf.as_slice()) {
            Some(s) => s,
            None => {
                proof {
                    assert(false);
                }
                String::new()
            },
        }
    }

    /// A well-formed key never has more than 28 digits.
    pub proof fn lemma_wf_len(self)
        requires
            self.wf(),
        ensures
            self.buf@.len() <= 28,
    {
        if self.buf@.len() > 28 {
            lemma_seq_val_bounds(self.buf@);
            lemma_val_bounds_monotone(29, self.buf@.len());
            lemma_min_val_29();
        }
    }
}

} // verus!

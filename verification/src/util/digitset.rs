use vstd::prelude::*;
use crate::util::bits::{
    bit16, lemma_bit16_and, lemma_bit16_and_not, lemma_bit16_bounds, lemma_bit16_ext,
    lemma_bit16_mask, lemma_bit16_or, lemma_bit16_set_small, lemma_bit16_single, lemma_bit16_zero,
};

verus! {

/// A set of sudoku digits `1..=9`, one bit per digit.
#[derive(Debug, Clone, Copy, PartialEq, Eq, Hash, Default, Structural)]
pub struct DigitSet(u16);

/// The digits held by the low nine bits of `m` (digit `v` is bit `v - 1`).
pub open spec fn digits_of(m: u16) -> Set<u8> {
    Set::new(|v: u8| has_digit(m, v))
}

/// Digit `v` is held by mask `m`.
pub open spec fn has_digit(m: u16, v: u8) -> bool {
    1 <= v <= 9 && bit16(m, (v - 1) as u16)
}

/// The digits `1..=n` held by `m`.
pub open spec fn digits_upto(m: u16, n: nat) -> Set<u8> {
    Set::new(|v: u8| v <= n && has_digit(m, v))
}

/// The number of bits among the `n` lowest bits of `m`.
pub open spec fn popcount16(m: u16, n: nat) -> nat
    decreases n,
{
    if n == 0 {
        0
    } else {
        popcount16(m, (n - 1) as nat) + if bit16(m, (n - 1) as u16) {
            1nat
        } else {
            0nat
        }
    }
}

/// All nine digits.
pub open spec fn all_digits() -> Set<u8> {
    Set::new(|v: u8| 1 <= v <= 9)
}

pub proof fn lemma_digits_upto(m: u16, n: nat)
    requires
        n <= 9,
    ensures
        digits_upto(m, n).finite(),
        digits_upto(m, n).len() == popcount16(m, n),
    decreases n,
{
    if n == 0 {
        assert(digits_upto(m, 0) =~= Set::<u8>::empty());
    } else {
        let k = (n - 1) as nat;
        lemma_digits_upto(m, k);
        let d = n as u8;
        if bit16(m, k as u16) {
            assert(digits_upto(m, n) =~= digits_upto(m, k).insert(d));
            assert(!digits_upto(m, k).contains(d));
        } else {
            assert(digits_upto(m, n) =~= digits_upto(m, k));
        }
    }
}

/// A set of digits is finite and its size is the number of its bits.
pub proof fn lemma_digits_len(m: u16)
    ensures
        digits_of(m).finite(),
        digits_of(m).len() == popcount16(m, 9),
        digits_of(m).len() <= 9,
{
    lemma_digits_upto(m, 9);
    assert(digits_of(m) =~= digits_upto(m, 9));
    lemma_popcount_le(m, 9);
}

pub proof fn lemma_popcount_le(m: u16, n: nat)
    ensures
        popcount16(m, n) <= n,
    decreases n,
{
    if n > 0 {
        lemma_popcount_le(m, (n - 1) as nat);
    }
}

impl View for DigitSet {
    type V = Set<u8>;

    closed spec fn view(&self) -> Set<u8> {
        digits_of(self.0)
    }
}

impl DigitSet {
    /// Only the nine low bits are ever used.
    #[verifier::type_invariant]
    pub closed spec fn wf(self) -> bool {
        self.0 < 512
    }

    /// Two sets with the same digits are the same value.
    pub proof fn lemma_view_eq(a: DigitSet, b: DigitSet)
        requires
            a.wf(),
            b.wf(),
            a@ == b@,
        ensures
            a == b,
    {
        assert forall|i: u16| i < 9 implies bit16(a.0, i) == bit16(b.0, i) by {
            let v = (i + 1) as u8;
            assert(a@.contains(v) == b@.contains(v));
            assert(a@.contains(v) == has_digit(a.0, v));
            assert(b@.contains(v) == has_digit(b.0, v));
            assert(has_digit(a.0, v) == bit16(a.0, i));
            assert(has_digit(b.0, v) == bit16(b.0, i));
        }
        lemma_bit16_ext(a.0, b.0);
    }

    /// Every digit of a set lies in `1..=9`, and a set has at most nine digits.
    pub proof fn lemma_bounds(a: DigitSet)
        ensures
            a@.finite(),
            a@.len() <= 9,
            forall|v: u8| #[trigger] a@.contains(v) ==> 1 <= v <= 9,
    {
        lemma_digits_len(a.0);
    }

    pub fn new_empty() -> (s: Self)
        ensures
            s@ == Set::<u8>::empty(),
    {
        proof {
            assert forall|v: u8| 1 <= v <= 9 implies !has_digit(0u16, v) by {
                lemma_bit16_zero((v - 1) as u16);
            }
        }
        let s = DigitSet(0);
        assert(s@ =~= Set::<u8>::empty());
        s
    }

    pub fn new_full() -> (s: Self)
        ensures
            s@ == all_digits(),
    {
        proof {
            assert forall|v: u8| 1 <= v <= 9 implies has_digit(0x1ffu16, v) by {
                let i = (v - 1) as u16;
                assert(((0x1ffu16 >> i) & 1u16) == 1u16) by (bit_vector)
                    requires
                        i < 9,
                ;
            }
        }
        let s = DigitSet(0x1ff);
        assert(s@ =~= all_digits());
        s
    }

    pub fn new_from_values(values: &[u8]) -> (s: Self)
        ensures
            s@ == Set::new(|v: u8| 1 <= v <= 9 && values@.contains(v)),
    {
        let mut set = DigitSet::new_empty();
        let mut i: usize = 0;
        while i < values.len()
            invariant
                i <= values.len(),
                set@ == Set::new(
                    |v: u8| 1 <= v <= 9 && exists|k: int| 0 <= k < i && values@[k] == v,
                ),
            decreases values.len() - i,
        {
            let ghost before = set@;
            set.add(values[i]);
            proof {
                assert forall|v: u8| set@.contains(v) == (1 <= v <= 9 && exists|k: int|
                    0 <= k < i + 1 && values@[k] == v) by {
                    if 1 <= v <= 9 && (exists|k: int| 0 <= k < i + 1 && values@[k] == v) {
                        let k = choose|k: int| 0 <= k < i + 1 && values@[k] == v;
                        if k < i {
                            assert(before.contains(v));
                        }
                    }
                }
                assert(set@ =~= Set::new(
                    |v: u8| 1 <= v <= 9 && exists|k: int| 0 <= k < i + 1 && values@[k] == v,
                ));
            }
            i = i + 1;
        }
        assert(set@ =~= Set::new(|v: u8| 1 <= v <= 9 && values@.contains(v)));
        set
    }

    pub fn intersect(&self, other: &DigitSet) -> (s: DigitSet)
        ensures
            s@ == self@.intersect(other@),
    {
        proof {
            use_type_invariant(self);
            lemma_bit16_bounds(self.0, other.0);
            assert forall|v: u8| 1 <= v <= 9 implies has_digit(self.0 & other.0, v) == (
            has_digit(self.0, v) && has_digit(other.0, v)) by {
                lemma_bit16_and(self.0, other.0, (v - 1) as u16);
            }
        }
        let s = DigitSet(self.0 & other.0);
        assert(s@ =~= self@.intersect(other@));
        s
    }

    pub fn union(&self, other: &DigitSet) -> (s: DigitSet)
        ensures
            s@ == self@.union(other@),
    {
        proof {
            let x = self.0 | other.0;
            assert(x & 0x1ffu16 < 512) by (bit_vector);
            assert forall|v: u8| 1 <= v <= 9 implies has_digit((self.0 | other.0) & 0x1ffu16, v) == (
            has_digit(self.0, v) || has_digit(other.0, v)) by {
                lemma_bit16_mask(self.0 | other.0, (v - 1) as u16);
                lemma_bit16_or(self.0, other.0, (v - 1) as u16);
            }
        }
        let s = DigitSet((self.0 | other.0) & 0x1ff);
        assert(s@ =~= self@.union(other@));
        s
    }

    pub fn is_empty(&self) -> (r: bool)
        ensures
            r == (self@ == Set::<u8>::empty()),
    {
        proof {
            use_type_invariant(self);
        }
        if self.0 == 0 {
            proof {
                assert forall|v: u8| 1 <= v <= 9 implies !has_digit(0u16, v) by {
                    lemma_bit16_zero((v - 1) as u16);
                }
                assert(self@ =~= Set::<u8>::empty());
            }
            true
        } else {
            proof {
                if self@ == Set::<u8>::empty() {
                    let e = DigitSet(0);
                    assert forall|v: u8| 1 <= v <= 9 implies !has_digit(0u16, v) by {
                        lemma_bit16_zero((v - 1) as u16);
                    }
                    assert(e@ =~= self@);
                    assert forall|i: u16| i < 9 implies bit16(e.0, i) == bit16(self.0, i) by {
                        let v = (i + 1) as u8;
                        assert(e@.contains(v) == self@.contains(v));
                    }
                    lemma_bit16_ext(e.0, self.0);
                }
            }
            false
        }
    }

    pub fn add(&mut self, v: u8)
        ensures
            final(self)@ == if 1 <= v <= 9 {
                old(self)@.insert(v)
            } else {
                old(self)@
            },
    {
        proof {
            use_type_invariant(&*self);
        }
        if 1 <= v && v <= 9 {
            let j: u16 = (v - 1) as u16;
            let nm = self.0 | (1u16 << j);
            proof {
                lemma_bit16_set_small(self.0, j);
                assert forall|w: u8| 1 <= w <= 9 implies #[trigger] has_digit(nm, w) == (has_digit(
                    self.0,
                    w,
                ) || w == v) by {
                    lemma_bit16_or(self.0, 1u16 << j, (w - 1) as u16);
                    lemma_bit16_single(j, (w - 1) as u16);
                }
                assert(digits_of(nm) =~= digits_of(self.0).insert(v));
            }
            self.0 = nm;
        }
    }

    pub fn clear(&mut self)
        ensures
            final(self)@ == Set::<u8>::empty(),
    {
        proof {
            assert forall|v: u8| 1 <= v <= 9 implies !has_digit(0u16, v) by {
                lemma_bit16_zero((v - 1) as u16);
            }
        }
        self.0 = 0;
        assert(self@ =~= Set::<u8>::empty());
    }

    pub fn remove(&mut self, v: u8)
        ensures
            final(self)@ == old(self)@.remove(v),
    {
        proof {
            use_type_invariant(&*self);
        }
        if !(1 <= v && v <= 9) {
            assert(self@ =~= old(self)@.remove(v));
            return;
        }
        let j: u16 = (v - 1) as u16;
        proof {
            lemma_bit16_bounds(self.0, 1u16 << j);
            assert forall|w: u8| 1 <= w <= 9 implies has_digit(self.0 & !(1u16 << j), w)
                == (has_digit(self.0, w) && w != v) by {
                lemma_bit16_and_not(self.0, 1u16 << j, (w - 1) as u16);
                lemma_bit16_single(j, (w - 1) as u16);
            }
        }
        let ghost before = self@;
        self.0 = self.0 & !(1u16 << j);
        assert(self@ =~= before.remove(v));
    }

    pub fn contains(&self, v: u8) -> (r: bool)
        ensures
            r == self@.contains(v),
    {
        if !(1 <= v && v <= 9) {
            return false;
        }
        let j: u16 = (v - 1) as u16;
        proof {
            lemma_bit16_and(self.0, 1u16 << j, j);
            lemma_bit16_single(j, j);
            let m = self.0;
            assert((m & (1u16 << j) != 0u16) == ((m >> j) & 1u16 == 1u16)) by (bit_vector)
                requires
                    j < 16,
            ;
        }
        self.0 & (1u16 << j) != 0
    }

    pub fn count(&self) -> (r: u8)
        ensures
            r as nat == self@.len(),
            r <= 9,
    {
        let mut c: u8 = 0;
        let mut i: u16 = 0;
        while i < 9
            invariant
                i <= 9,
                c as nat == popcount16(self.0, i as nat),
                c <= i,
            decreases 9 - i,
        {
            if (self.0 >> i) & 1 == 1 {
                c = c + 1;
            }
            i = i + 1;
        }
        proof {
            lemma_digits_len(self.0);
        }
        c
    }

    pub fn values(&self) -> (r: Vec<u8>)
        ensures
            forall|v: u8| r@.contains(v) <==> self@.contains(v),
            forall|i: int, j: int| 0 <= i < j < r@.len() ==> r@[i] < r@[j],
            r@.len() == self@.len(),
    {
        let mut values: Vec<u8> = Vec::new();
        let mut i: u16 = 0;
        while i < 9
            invariant
                i <= 9,
                forall|v: u8| values@.contains(v) <==> (1 <= v <= i && self@.contains(v)),
                forall|a: int, b: int| 0 <= a < b < values@.len() ==> values@[a] < values@[b],
                forall|a: int| 0 <= a < values@.len() ==> 1 <= #[trigger] values@[a] <= i,
                values@.len() == popcount16(self.0, i as nat),
            decreases 9 - i,
        {
            if (self.0 >> i) & 1 == 1 {
                let ghost before = values@;
                values.push((i + 1) as u8);
                proof {
                    assert(has_digit(self.0, (i + 1) as u8));
                    assert(self@.contains((i + 1) as u8));
                    assert forall|v: u8| values@.contains(v) <==> (1 <= v <= i + 1 && self@.contains(v)) by {
                        if v == (i + 1) as u8 {
                            assert(values@[values@.len() - 1] == v);
                        }
                        if values@.contains(v) && v != (i + 1) as u8 {
                            let k = choose|k: int| 0 <= k < values@.len() && values@[k] == v;
                            assert(k < before.len());
                            assert(before[k] == v);
                            assert(before.contains(v));
                        }
                        if 1 <= v <= i && self@.contains(v) {
                            assert(before.contains(v));
                            let k = choose|k: int| 0 <= k < before.len() && before[k] == v;
                            assert(values@[k] == v);
                        }
                    }
                }
            } else {
                proof {
                    assert(!has_digit(self.0, (i + 1) as u8));
                    assert(!self@.contains((i + 1) as u8));
                }
            }
            i = i + 1;
        }
        proof {
            lemma_digits_len(self.0);
        }
        values
    }

    pub fn difference(&self, other: &DigitSet) -> (s: DigitSet)
        ensures
            s@ == self@.difference(other@),
    {
        proof {
            use_type_invariant(self);
            lemma_bit16_bounds(self.0, other.0);
            assert forall|v: u8| 1 <= v <= 9 implies has_digit(self.0 & !other.0, v) == (
            has_digit(self.0, v) && !has_digit(other.0, v)) by {
                lemma_bit16_and_not(self.0, other.0, (v - 1) as u16);
            }
        }
        let s = DigitSet(self.0 & !other.0);
        assert(s@ =~= self@.difference(other@));
        s
    }

    pub fn iter(&self) -> (it: DigitSetItertor)
        ensures
            it@ == self@,
    {
        proof {
            use_type_invariant(self);
        }
        DigitSetItertor { data: self.0 }
    }
}

/// Walks the digits of a set from the smallest up.
pub struct DigitSetItertor {
    data: u16,
}

impl View for DigitSetItertor {
    type V = Set<u8>;

    closed spec fn view(&self) -> Set<u8> {
        digits_of(self.data)
    }
}

impl DigitSetItertor {
    #[verifier::type_invariant]
    pub closed spec fn wf(self) -> bool {
        self.data < 512
    }

    /// Yields the smallest remaining digit and drops it from the remaining set.
    pub fn next(&mut self) -> (r: Option<u8>)
        ensures
            old(self)@ == Set::<u8>::empty() ==> r is None && final(self)@ == old(self)@,
            old(self)@ != Set::<u8>::empty() ==> (r matches Some(v) && old(self)@.contains(v)
                && (forall|w: u8| old(self)@.contains(w) ==> v <= w) && final(self)@ == old(
                self,
            )@.remove(v)),
    {
        proof {
            use_type_invariant(&*self);
        }
        let mut i: u16 = 0;
        while i < 9
            invariant
                i <= 9,
                self.data == old(self).data,
                self.data < 512,
                forall|w: u8| 1 <= w <= i ==> !digits_of(self.data).contains(w),
            decreases 9 - i,
        {
            if (self.data >> i) & 1 == 1 {
                let v: u8 = (i + 1) as u8;
                let j = i;
                proof {
                    lemma_bit16_bounds(self.data, 1u16 << j);
                    assert forall|w: u8| 1 <= w <= 9 implies has_digit(self.data & !(1u16 << j), w)
                        == (has_digit(self.data, w) && w != v) by {
                        lemma_bit16_and_not(self.data, 1u16 << j, (w - 1) as u16);
                        lemma_bit16_single(j, (w - 1) as u16);
                    }
                }
                let ghost before = self@;
                self.data = self.data & !(1u16 << j);
                assert(self@ =~= before.remove(v));
                return Some(v);
            }
            i = i + 1;
        }
        assert(self@ =~= Set::<u8>::empty());
        None
    }
}

} // verus!

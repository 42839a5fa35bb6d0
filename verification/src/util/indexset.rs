use vstd::prelude::*;
use crate::util::bits::{
    bit128, full81, lemma_bit128_and, lemma_bit128_and_not, lemma_bit128_bounds, lemma_bit128_ext,
    lemma_bit128_full, lemma_bit128_or, lemma_bit128_set_small, lemma_bit128_single,
    lemma_bit128_small, lemma_bit128_zero,
};

verus! {

/// A set of cell indices `0..81`, one bit per cell.
#[derive(Debug, Clone, Copy, PartialEq, Eq, Hash, Default, Structural)]
pub struct IndexSet(u128);

/// Cell `c` is held by mask `m`.
pub open spec fn has_cell(m: u128, c: u8) -> bool {
    c < 81 && bit128(m, c as u128)
}

pub open spec fn cells_of(m: u128) -> Set<u8> {
    Set::new(|c: u8| has_cell(m, c))
}

pub open spec fn cells_upto(m: u128, n: nat) -> Set<u8> {
    Set::new(|c: u8| c < n && has_cell(m, c))
}

pub open spec fn popcount128(m: u128, n: nat) -> nat
    decreases n,
{
    if n == 0 {
        0
    } else {
        popcount128(m, (n - 1) as nat) + if bit128(m, (n - 1) as u128) {
            1nat
        } else {
            0nat
        }
    }
}

pub open spec fn limit81() -> u128 {
    0x2_0000_0000_0000_0000_0000u128
}

proof fn lemma_cells_upto(m: u128, n: nat)
    requires
        n <= 81,
    ensures
        cells_upto(m, n).finite(),
        cells_upto(m, n).len() == popcount128(m, n),
    decreases n,
{
    if n == 0 {
        assert(cells_upto(m, 0) =~= Set::<u8>::empty());
    } else {
        let k = (n - 1) as nat;
        lemma_cells_upto(m, k);
        let d = k as u8;
        if bit128(m, k as u128) {
            assert(cells_upto(m, n) =~= cells_upto(m, k).insert(d));
        } else {
            assert(cells_upto(m, n) =~= cells_upto(m, k));
        }
    }
}

proof fn lemma_cells_len(m: u128)
    ensures
        cells_of(m).finite(),
        cells_of(m).len() == popcount128(m, 81),
{
    lemma_cells_upto(m, 81);
    assert(cells_of(m) =~= cells_upto(m, 81));
}

impl View for IndexSet {
    type V = Set<u8>;

    closed spec fn view(&self) -> Set<u8> {
        cells_of(self.0)
    }
}

impl IndexSet {
    #[verifier::type_invariant]
    pub closed spec fn wf(self) -> bool {
        self.0 < limit81()
    }

    /// Two index sets with the same cells are the same value.
    pub proof fn lemma_view_eq(a: IndexSet, b: IndexSet)
        requires
            a.wf(),
            b.wf(),
            a@ == b@,
        ensures
            a == b,
    {
        assert forall|i: u128| i < 128 implies bit128(a.0, i) == bit128(b.0, i) by {
            if i < 81 {
                let c = i as u8;
                assert(a@.contains(c) == b@.contains(c));
                assert(a@.contains(c) == has_cell(a.0, c));
                assert(b@.contains(c) == has_cell(b.0, c));
            } else {
                lemma_bit128_small(a.0, i);
                lemma_bit128_small(b.0, i);
            }
        }
        lemma_bit128_ext(a.0, b.0);
    }

    /// Every cell of a set is below 81; a set is finite.
    pub proof fn lemma_bounds(a: IndexSet)
        ensures
            a@.finite(),
            a@.len() <= 81,
            forall|c: u8| #[trigger] a@.contains(c) ==> c < 81,
    {
        lemma_cells_len(a.0);
        lemma_popcount_le(a.0, 81);
    }

    pub fn new_empty() -> (s: Self)
        ensures
            s@ == Set::<u8>::empty(),
    {
        proof {
            assert forall|c: u8| c < 81 implies !#[trigger] has_cell(0u128, c) by {
                lemma_bit128_zero(c as u128);
            }
        }
        let s = IndexSet(0);
        assert(s@ =~= Set::<u8>::empty());
        s
    }

    pub fn new_full() -> (s: Self)
        ensures
            s@ == Set::new(|c: u8| c < 81),
    {
        proof {
            assert forall|c: u8| c < 81 implies #[trigger] has_cell(full81(), c) by {
                lemma_bit128_full(c as u128);
            }
            assert(full81() < limit81());
        }
        let s = IndexSet(0x1ffff_ffff_ffff_ffff_ffff);
        assert(s@ =~= Set::new(|c: u8| c < 81));
        s
    }

    pub fn new_from_values(values: &[u8]) -> (s: Self)
        ensures
            s@ == Set::new(|c: u8| c < 81 && values@.contains(c)),
    {
        let mut set = IndexSet::new_empty();
        let mut i: usize = 0;
        while i < values.len()
            invariant
                i <= values.len(),
                set@ == Set::new(
                    |c: u8| c < 81 && exists|k: int| 0 <= k < i && values@[k] == c,
                ),
            decreases values.len() - i,
        {
            let ghost before = set@;
            set.add(values[i]);
            proof {
                assert forall|v: u8| set@.contains(v) == (v < 81 && exists|k: int|
                    0 <= k < i + 1 && values@[k] == v) by {
                    if v < 81 && (exists|k: int| 0 <= k < i + 1 && values@[k] == v) {
                        let k = choose|k: int| 0 <= k < i + 1 && values@[k] == v;
                        if k < i {
                            assert(before.contains(v));
                        }
                    }
                }
                assert(set@ =~= Set::new(
                    |c: u8| c < 81 && exists|k: int| 0 <= k < i + 1 && values@[k] == c,
                ));
            }
            i = i + 1;
        }
        assert(set@ =~= Set::new(|c: u8| c < 81 && values@.contains(c)));
        set
    }

    pub fn intersect(&self, other: &IndexSet) -> (s: IndexSet)
        ensures
            s@ == self@.intersect(other@),
    {
        proof {
            use_type_invariant(self);
            lemma_bit128_bounds(self.0, other.0);
            assert forall|c: u8| c < 81 implies #[trigger] has_cell(self.0 & other.0, c) == (
            has_cell(self.0, c) && has_cell(other.0, c)) by {
                lemma_bit128_and(self.0, other.0, c as u128);
            }
        }
        let s = IndexSet(self.0 & other.0);
        assert(s@ =~= self@.intersect(other@));
        s
    }

    pub fn union(&self, other: &IndexSet) -> (s: IndexSet)
        ensures
            s@ == self@.union(other@),
    {
        proof {
            use_type_invariant(self);
            use_type_invariant(other);
            lemma_bit128_bounds(self.0, other.0);
            assert forall|c: u8| c < 81 implies #[trigger] has_cell(self.0 | other.0, c) == (
            has_cell(self.0, c) || has_cell(other.0, c)) by {
                lemma_bit128_or(self.0, other.0, c as u128);
            }
        }
        let s = IndexSet(self.0 | other.0);
        assert(s@ =~= self@.union(other@));
        s
    }

    pub fn difference(&self, other: &IndexSet) -> (s: IndexSet)
        ensures
            s@ == self@.difference(other@),
    {
        proof {
            use_type_invariant(self);
            lemma_bit128_bounds(self.0, other.0);
            assert forall|c: u8| c < 81 implies #[trigger] has_cell(self.0 & !other.0, c) == (
            has_cell(self.0, c) && !has_cell(other.0, c)) by {
                lemma_bit128_and_not(self.0, other.0, c as u128);
            }
        }
        let s = IndexSet(self.0 & !other.0);
        assert(s@ =~= self@.difference(other@));
        s
    }

    pub fn is_empty(&self) -> (r: bool)
        ensures
            r == (self@ == Set::<u8>::empty()),
    {
        proof {
            use_type_invariant(self);
            let e = IndexSet(0);
            assert forall|c: u8| c < 81 implies !#[trigger] has_cell(0u128, c) by {
                lemma_bit128_zero(c as u128);
            }
            assert(e@ =~= Set::<u8>::empty());
            if self@ == Set::<u8>::empty() {
                IndexSet::lemma_view_eq(*self, e);
            }
        }
        self.0 == 0
    }

    pub fn add(&mut self, c: u8)
        ensures
            final(self)@ == if c < 81 {
                old(self)@.insert(c)
            } else {
                old(self)@
            },
    {
        proof {
            use_type_invariant(&*self);
        }
        if c < 81 {
            let j: u128 = c as u128;
            let nm = self.0 | (1u128 << j);
            proof {
                lemma_bit128_set_small(self.0, j);
                assert forall|w: u8| w < 81 implies #[trigger] has_cell(nm, w) == (has_cell(self.0, w)
                    || w == c) by {
                    lemma_bit128_or(self.0, 1u128 << j, w as u128);
                    lemma_bit128_single(j, w as u128);
                }
                assert(cells_of(nm) =~= cells_of(self.0).insert(c));
            }
            self.0 = nm;
        }
    }

    pub fn remove(&mut self, c: u8)
        ensures
            final(self)@ == old(self)@.remove(c),
    {
        proof {
            use_type_invariant(&*self);
        }
        if c >= 81 {
            assert(self@ =~= old(self)@.remove(c));
            return;
        }
        let j: u128 = c as u128;
        let nm = self.0 & !(1u128 << j);
        proof {
            lemma_bit128_bounds(self.0, 1u128 << j);
            assert forall|w: u8| w < 81 implies #[trigger] has_cell(nm, w) == (has_cell(self.0, w)
                && w != c) by {
                lemma_bit128_and_not(self.0, 1u128 << j, w as u128);
                lemma_bit128_single(j, w as u128);
            }
            assert(cells_of(nm) =~= cells_of(self.0).remove(c));
        }
        self.0 = nm;
    }

    pub fn contains(&self, c: u8) -> (r: bool)
        ensures
            r == self@.contains(c),
    {
        if c >= 81 {
            return false;
        }
        let j: u128 = c as u128;
        let m = self.0;
        proof {
            assert((m & (1u128 << j) != 0u128) == ((m >> j) & 1u128 == 1u128)) by (bit_vector)
                requires
                    j < 128,
            ;
            assert(has_cell(m, c) == bit128(m, j));
        }
        m & (1u128 << j) != 0
    }

    pub fn count(&self) -> (r: u8)
        ensures
            r as nat == self@.len(),
            r <= 81,
    {
        let mut n: u8 = 0;
        let mut i: u128 = 0;
        while i < 81
            invariant
                i <= 81,
                n as nat == popcount128(self.0, i as nat),
                n <= i,
            decreases 81 - i,
        {
            if (self.0 >> i) & 1 == 1 {
                n = n + 1;
            }
            i = i + 1;
        }
        proof {
            lemma_cells_len(self.0);
        }
        n
    }

    /// The cells of the set in increasing order.
    pub fn values(&self) -> (r: Vec<u8>)
        ensures
            forall|c: u8| r@.contains(c) <==> self@.contains(c),
            forall|i: int, j: int| 0 <= i < j < r@.len() ==> r@[i] < r@[j],
            r@.len() == self@.len(),
    {
        let mut values: Vec<u8> = Vec::new();
        let mut i: u8 = 0;
        while i < 81
            invariant
                i <= 81,
                forall|c: u8| values@.contains(c) <==> (c < i && self@.contains(c)),
                forall|a: int, b: int| 0 <= a < b < values@.len() ==> values@[a] < values@[b],
                forall|a: int| 0 <= a < values@.len() ==> #[trigger] values@[a] < i,
                values@.len() == popcount128(self.0, i as nat),
            decreases 81 - i,
        {
            let m = self.0;
            let j: u128 = i as u128;
            if (m >> j) & 1 == 1 {
                let ghost before = values@;
                values.push(i);
                proof {
                    assert(has_cell(self.0, i));
                    assert(self@.contains(i));
                    assert forall|v: u8| values@.contains(v) <==> (v < i + 1 && self@.contains(v)) by {
                        if v == i {
                            assert(values@[values@.len() - 1] == v);
                        }
                        if values@.contains(v) && v != i {
                            let k = choose|k: int| 0 <= k < values@.len() && values@[k] == v;
                            assert(k < before.len());
                            assert(before[k] == v);
                            assert(before.contains(v));
                        }
                        if v < i && self@.contains(v) {
                            assert(before.contains(v));
                            let k = choose|k: int| 0 <= k < before.len() && before[k] == v;
                            assert(values@[k] == v);
                        }
                    }
                }
            } else {
                proof {
                    assert(!has_cell(self.0, i));
                    assert(!self@.contains(i));
                }
            }
            i = i + 1;
        }
        proof {
            lemma_cells_len(self.0);
        }
        values
    }

    /// The smallest cell of the set, if any.
    pub fn first(&self) -> (r: Option<u8>)
        ensures
            self@ == Set::<u8>::empty() ==> r is None,
            self@ != Set::<u8>::empty() ==> (r matches Some(c) && self@.contains(c) && (forall|d: u8|
                self@.contains(d) ==> c <= d)),
    {
        let mut i: u8 = 0;
        while i < 81
            invariant
                i <= 81,
                forall|d: u8| d < i ==> !self@.contains(d),
            decreases 81 - i,
        {
            if self.contains(i) {
                return Some(i);
            }
            i = i + 1;
        }
        proof {
            IndexSet::lemma_bounds(*self);
            assert(self@ =~= Set::<u8>::empty());
        }
        None
    }
}

proof fn lemma_popcount_le(m: u128, n: nat)
    ensures
        popcount128(m, n) <= n,
    decreases n,
{
    if n > 0 {
        lemma_popcount_le(m, (n - 1) as nat);
    }
}


/// A set of one element holds nothing else.
pub proof fn lemma_set_single(s: Set<u8>, a: u8, b: u8)
    requires
        s.finite(),
        s.len() == 1,
        s.contains(a),
        s.contains(b),
    ensures
        a == b,
{
    if a != b {
        assert(s.remove(a).contains(b));
        vstd::set::axiom_set_remove_len(s, a);
        s.remove(a).lemma_len0_is_empty();
        assert(!Set::<u8>::empty().contains(b));
    }
}

} // verus!

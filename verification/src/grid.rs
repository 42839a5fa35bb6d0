use vstd::prelude::*;
use crate::candidate::Candidate;
use crate::grid_constant::{
    block_of, col_of, get_cell_buddies, get_cell_house, get_house_cell_set, house_cells, in_house,
    peers, row_of, sees, cells_see, cell_in_house,
};
use crate::util::digitset::{all_digits, DigitSet};
use crate::util::indexset::IndexSet;
use crate::error::SudokuError;
use vstd::string::StringSliceAdditionalSpecFns;
pub use crate::difficulty::Difficulty;

verus! {

/// Kinds of houses.
#[derive(Debug, Clone, Copy, PartialEq, Eq, Structural)]
pub enum HouseType {
    Block,
    Row,
    Column,
}

impl HouseType {
    /// The nine house indices of this kind.
    pub fn houses(&self) -> (r: [u8; 9])
        ensures
            forall|i: int|
                0 <= i < 9 ==> #[trigger] r@[i] == match self {
                    HouseType::Row => i,
                    HouseType::Column => 9 + i,
                    HouseType::Block => 18 + i,
                },
    {
        match self {
            HouseType::Row => [0, 1, 2, 3, 4, 5, 6, 7, 8],
            HouseType::Column => [9, 10, 11, 12, 13, 14, 15, 16, 17],
            HouseType::Block => [18, 19, 20, 21, 22, 23, 24, 25, 26],
        }
    }
}

/// Number of cells `c < n` of house `h` whose candidate set (in `cs`) holds `v`.
pub open spec fn count_in_house(cs: Seq<Set<u8>>, h: int, v: u8, n: int) -> nat
    decreases n,
{
    if n <= 0 {
        0
    } else {
        count_in_house(cs, h, v, n - 1) + if in_house(n - 1, h) && cs[n - 1].contains(v) {
            1nat
        } else {
            0nat
        }
    }
}

/// Number of cells `c < n` whose value is zero.
pub open spec fn count_empty(vs: Seq<u8>, n: int) -> nat
    decreases n,
{
    if n <= 0 {
        0
    } else {
        count_empty(vs, n - 1) + if vs[n - 1] == 0 {
            1nat
        } else {
            0nat
        }
    }
}

/// Number of cells `c < n` whose value is not zero.
pub open spec fn count_filled(vs: Seq<u8>, n: int) -> nat
    decreases n,
{
    if n <= 0 {
        0
    } else {
        count_filled(vs, n - 1) + if vs[n - 1] != 0 {
            1nat
        } else {
            0nat
        }
    }
}

/// No cell that sees `c` holds the value `v` (in `vs`).
pub open spec fn no_peer_has(vs: Seq<u8>, c: int, v: u8) -> bool {
    forall|b: int| 0 <= b < 81 && sees(c, b) ==> vs[b] != v
}

pub proof fn lemma_count_in_house_update(cs: Seq<Set<u8>>, i: int, s: Set<u8>, h: int, v: u8, n: int)
    requires
        0 <= i < cs.len(),
        n <= cs.len(),
    ensures
        count_in_house(cs.update(i, s), h, v, n) + (if i < n && in_house(i, h) && cs[i].contains(v) {
            1nat
        } else {
            0nat
        }) == count_in_house(cs, h, v, n) + (if i < n && in_house(i, h) && s.contains(v) {
            1nat
        } else {
            0nat
        }),
    decreases n,
{
    if n > 0 {
        lemma_count_in_house_update(cs, i, s, h, v, n - 1);
    }
}

pub proof fn lemma_count_in_house_bounds(cs: Seq<Set<u8>>, h: int, v: u8, n: int)
    ensures
        count_in_house(cs, h, v, n) <= if n < 0 {
            0
        } else {
            n
        },
    decreases n,
{
    if n > 0 {
        lemma_count_in_house_bounds(cs, h, v, n - 1);
    }
}

pub proof fn lemma_count_in_house_pos(cs: Seq<Set<u8>>, h: int, v: u8, n: int, i: int)
    requires
        0 <= i < n,
        in_house(i, h),
        cs[i].contains(v),
    ensures
        count_in_house(cs, h, v, n) >= 1,
    decreases n,
{
    if i < n - 1 {
        lemma_count_in_house_pos(cs, h, v, n - 1, i);
    }
}

pub proof fn lemma_count_in_house_ext(a: Seq<Set<u8>>, b: Seq<Set<u8>>, h: int, v: u8, n: int)
    requires
        forall|c: int| 0 <= c < n && in_house(c, h) ==> a[c].contains(v) == b[c].contains(v),
    ensures
        count_in_house(a, h, v, n) == count_in_house(b, h, v, n),
    decreases n,
{
    if n > 0 {
        lemma_count_in_house_ext(a, b, h, v, n - 1);
    }
}

pub proof fn lemma_count_empty_update(vs: Seq<u8>, i: int, x: u8, n: int)
    requires
        0 <= i < vs.len(),
        n <= vs.len(),
    ensures
        count_empty(vs.update(i, x), n) + (if i < n && vs[i] == 0 {
            1nat
        } else {
            0nat
        }) == count_empty(vs, n) + (if i < n && x == 0 {
            1nat
        } else {
            0nat
        }),
    decreases n,
{
    if n > 0 {
        lemma_count_empty_update(vs, i, x, n - 1);
    }
}

pub proof fn lemma_count_empty_bounds(vs: Seq<u8>, n: int)
    requires
        0 <= n,
    ensures
        count_empty(vs, n) <= n,
        count_empty(vs, n) + count_filled(vs, n) == n,
    decreases n,
{
    if n > 0 {
        lemma_count_empty_bounds(vs, n - 1);
    }
}

pub proof fn lemma_count_empty_pos(vs: Seq<u8>, n: int, i: int)
    requires
        0 <= i < n,
        vs[i] == 0,
    ensures
        count_empty(vs, n) >= 1,
    decreases n,
{
    if i < n - 1 {
        lemma_count_empty_pos(vs, n - 1, i);
    }
}

pub proof fn lemma_count_empty_zero(vs: Seq<u8>, n: int)
    requires
        0 <= n,
    ensures
        count_empty(vs, n) == 0 <==> forall|i: int| 0 <= i < n ==> vs[i] != 0,
    decreases n,
{
    if n > 0 {
        lemma_count_empty_zero(vs, n - 1);
        if count_empty(vs, n) == 0 {
            assert forall|i: int| 0 <= i < n implies vs[i] != 0 by {
                if i < n - 1 {
                } else {
                }
            }
        }
    }
}

/// A sudoku grid: values, pencil marks, givens and per-house candidate counts.
#[derive(Debug, Clone)]
pub struct Grid {
    values: Vec<u8>,
    candidate_values: Vec<DigitSet>,
    is_given: Vec<bool>,
    house_candidate_count: Vec<u8>,
    unsolved_count: u8,
}

/// Index of the count of digit `v` in house `h`.
pub open spec fn hidx(h: int, v: int) -> int {
    h * 10 + v
}

impl Grid {
    /// Value of cell `c` (0 when empty).
    pub closed spec fn value(self, c: int) -> u8 {
        self.values@[c]
    }

    /// Candidates of cell `c`.
    pub closed spec fn cands(self, c: int) -> Set<u8> {
        self.candidate_values@[c]@
    }

    /// Whether cell `c` is marked as given.
    pub closed spec fn given(self, c: int) -> bool {
        self.is_given@[c]
    }

    /// All cell values.
    pub closed spec fn value_seq(self) -> Seq<u8> {
        self.values@
    }

    /// All candidate sets.
    pub closed spec fn cand_seq(self) -> Seq<Set<u8>> {
        Seq::new(81, |c: int| self.candidate_values@[c]@)
    }

    /// All given marks.
    pub closed spec fn given_seq(self) -> Seq<bool> {
        self.is_given@
    }

    /// The stored count of candidate `v` in house `h`.
    pub closed spec fn stored_count(self, h: int, v: int) -> u8 {
        self.house_candidate_count@[hidx(h, v)]
    }

    /// The stored number of empty cells.
    pub closed spec fn stored_unsolved(self) -> u8 {
        self.unsolved_count
    }

    /// Cell `c` is empty and has candidate `v`.
    pub open spec fn has_cand(self, c: int, v: u8) -> bool {
        self.value(c) == 0 && self.cands(c).contains(v)
    }

    /// Number of cells of house `h` with candidate `v`.
    pub open spec fn house_count(self, h: int, v: u8) -> nat {
        count_in_house(self.cand_seq(), h, v, 81)
    }

    /// Number of empty cells.
    pub open spec fn empty_count(self) -> nat {
        count_empty(self.value_seq(), 81)
    }

    pub closed spec fn shape_ok(self) -> bool {
        &&& self.values@.len() == 81
        &&& self.candidate_values@.len() == 81
        &&& self.is_given@.len() == 81
        &&& self.house_candidate_count@.len() == 270
        &&& forall|c: int| 0 <= c < 81 ==> #[trigger] self.values@[c] <= 9
    }

    pub closed spec fn counts_ok(self) -> bool {
        &&& forall|h: int, v: u8|
            0 <= h < 27 && 1 <= v <= 9 ==> #[trigger] self.house_candidate_count@[hidx(h, v as int)]
                == count_in_house(self.cand_seq(), h, v, 81)
        &&& forall|h: int| 0 <= h < 27 ==> #[trigger] self.house_candidate_count@[hidx(h, 0)] == 9
    }

    pub closed spec fn solved_cells_empty(self) -> bool {
        forall|c: int| 0 <= c < 81 && #[trigger] self.values@[c] != 0 ==> self.candidate_values@[c]@ == Set::<u8>::empty()
    }

    pub closed spec fn unsolved_ok(self) -> bool {
        self.unsolved_count as nat == count_empty(self.values@, 81)
    }

    /// The grid's internal bookkeeping is consistent: 81 cells with values `0..=9`,
    /// solved cells carry no candidates, house counts match the candidates, and the
    /// number of unsolved cells matches the values.
    pub closed spec fn wf(self) -> bool {
        &&& self.shape_ok()
        &&& self.counts_ok()
        &&& self.solved_cells_empty()
        &&& self.unsolved_ok()
    }

    /// The candidates of a cell form a finite set of at most nine digits.
    pub proof fn lemma_cands_finite(self, c: int)
        requires
            self.wf(),
            0 <= c < 81,
        ensures
            self.cands(c).finite(),
            self.cands(c).len() <= 9,
    {
        DigitSet::lemma_bounds(self.candidate_values@[c]);
    }

    /// Facts every well-formed grid offers its users.
    pub proof fn lemma_wf(self)
        requires
            self.wf(),
        ensures
            self.value_seq().len() == 81,
            self.cand_seq().len() == 81,
            self.given_seq().len() == 81,
            forall|c: int| 0 <= c < 81 ==> #[trigger] self.value(c) <= 9,
            forall|c: int| 0 <= c < 81 ==> #[trigger] self.value_seq()[c] == self.value(c),
            forall|c: int| 0 <= c < 81 ==> #[trigger] self.cand_seq()[c] == self.cands(c),
            forall|c: int| 0 <= c < 81 ==> #[trigger] self.given_seq()[c] == self.given(c),
            forall|c: int| 0 <= c < 81 && self.value(c) != 0 ==> #[trigger] self.cands(c) == Set::<u8>::empty(),
            forall|c: int, v: u8| 0 <= c < 81 && #[trigger] self.cands(c).contains(v) ==> 1 <= v <= 9,
            forall|c: int, v: u8| 0 <= c < 81 ==> #[trigger] self.has_cand(c, v) == self.cands(c).contains(v),
            self.stored_unsolved() as nat == self.empty_count(),
    {
        assert forall|c: int, v: u8| 0 <= c < 81 && #[trigger] self.cands(c).contains(v) implies 1 <= v <= 9 by {
            DigitSet::lemma_bounds(self.candidate_values@[c]);
        }
    }
}


impl Grid {
    /// Shifts the three house counts of `cell` for digit `value` by one, re-establishing
    /// the count bookkeeping after the candidate of `cell` changed.
    fn bump_house_counts(&mut self, cell: u8, value: u8, up: bool)
        requires
            old(self).shape_ok(),
            cell < 81,
            1 <= value <= 9,
            forall|h: int, v: u8|
                0 <= h < 27 && 1 <= v <= 9 ==> #[trigger] old(self).house_candidate_count@[hidx(h, v as int)]
                    + (if in_house(cell as int, h) && v == value {
                    if up {
                        1int
                    } else {
                        -1int
                    }
                } else {
                    0int
                }) == count_in_house(old(self).cand_seq(), h, v, 81),
            forall|h: int| 0 <= h < 27 ==> #[trigger] old(self).house_candidate_count@[hidx(h, 0)] == 9,
        ensures
            final(self).shape_ok(),
            final(self).counts_ok(),
            final(self).values@ == old(self).values@,
            final(self).candidate_values@ == old(self).candidate_values@,
            final(self).is_given@ == old(self).is_given@,
            final(self).unsolved_count == old(self).unsolved_count,
    {
        let hs = get_cell_house(cell);
        let ghost cs = self.cand_seq();
        proof {
            assert(in_house(cell as int, hs[0] as int));
            assert(in_house(cell as int, hs[1] as int));
            assert(in_house(cell as int, hs[2] as int));
            lemma_count_in_house_bounds(cs, hs[0] as int, value, 81);
            lemma_count_in_house_bounds(cs, hs[1] as int, value, 81);
            lemma_count_in_house_bounds(cs, hs[2] as int, value, 81);
        }
        let ghost old_hcc = self.house_candidate_count@;
        let i0 = (hs[0] as usize) * 10 + (value as usize);
        let i1 = (hs[1] as usize) * 10 + (value as usize);
        let i2 = (hs[2] as usize) * 10 + (value as usize);
        assert(i0 == hidx(hs[0] as int, value as int));
        assert(i1 == hidx(hs[1] as int, value as int));
        assert(i2 == hidx(hs[2] as int, value as int));
        if up {
            let x0 = self.house_candidate_count[i0] + 1;
            self.house_candidate_count.set(i0, x0);
            let x1 = self.house_candidate_count[i1] + 1;
            self.house_candidate_count.set(i1, x1);
            let x2 = self.house_candidate_count[i2] + 1;
            self.house_candidate_count.set(i2, x2);
        } else {
            let x0 = self.house_candidate_count[i0] - 1;
            self.house_candidate_count.set(i0, x0);
            let x1 = self.house_candidate_count[i1] - 1;
            self.house_candidate_count.set(i1, x1);
            let x2 = self.house_candidate_count[i2] - 1;
            self.house_candidate_count.set(i2, x2);
        }
        proof {
            assert(self.cand_seq() == cs);
            assert forall|h: int, v: u8|
                0 <= h < 27 && 1 <= v <= 9 implies #[trigger] self.house_candidate_count@[hidx(h, v as int)]
                == count_in_house(self.cand_seq(), h, v, 81) by {
                assert(old_hcc[hidx(h, v as int)] + (if in_house(cell as int, h) && v == value {
                    if up {
                        1int
                    } else {
                        -1int
                    }
                } else {
                    0int
                }) == count_in_house(cs, h, v, 81));
            }
            assert forall|h: int| 0 <= h < 27 implies #[trigger] self.house_candidate_count@[hidx(h, 0)] == 9 by {
                assert(old_hcc[hidx(h, 0)] == 9);
            }
        }
    }

    /// Removes candidate `value` from `cell`; reports whether it was there.
    fn remove_candidate_value(&mut self, cell: u8, value: u8) -> (r: bool)
        requires
            old(self).shape_ok(),
            old(self).counts_ok(),
        ensures
            final(self).shape_ok(),
            final(self).counts_ok(),
            r == (cell < 81 && old(self).cands(cell as int).contains(value)),
            final(self).values@ == old(self).values@,
            final(self).is_given@ == old(self).is_given@,
            final(self).unsolved_count == old(self).unsolved_count,
            r ==> final(self).cand_seq() == old(self).cand_seq().update(
                cell as int,
                old(self).cands(cell as int).remove(value),
            ),
            !r ==> final(self).candidate_values@ == old(self).candidate_values@,
    {
        if cell >= 81 {
            return false;
        }
        let mut d = self.candidate_values[cell as usize];
        if !d.contains(value) {
            return false;
        }
        proof {
            DigitSet::lemma_bounds(d);
        }
        let ghost cs = self.cand_seq();
        let ghost ns = d@.remove(value);
        d.remove(value);
        self.candidate_values.set(cell as usize, d);
        proof {
            assert(self.cand_seq() =~= cs.update(cell as int, ns));
            assert forall|h: int, v: u8|
                0 <= h < 27 && 1 <= v <= 9 implies #[trigger] self.house_candidate_count@[hidx(h, v as int)]
                + (if in_house(cell as int, h) && v == value {
                -1int
            } else {
                0int
            }) == count_in_house(self.cand_seq(), h, v, 81) by {
                lemma_count_in_house_update(cs, cell as int, ns, h, v, 81);
            }
        }
        self.bump_house_counts(cell, value, false);
        true
    }

    /// Adds candidate `value` to the empty `cell` when no peer holds it.
    fn add_candidate(&mut self, cell: u8, value: u8)
        requires
            old(self).shape_ok(),
            old(self).counts_ok(),
        ensures
            final(self).shape_ok(),
            final(self).counts_ok(),
            final(self).values@ == old(self).values@,
            final(self).is_given@ == old(self).is_given@,
            final(self).unsolved_count == old(self).unsolved_count,
            final(self).cand_seq() == if cell < 81 && 1 <= value <= 9 && old(self).values@[cell as int]
                == 0 && no_peer_has(old(self).values@, cell as int, value) {
                old(self).cand_seq().update(cell as int, old(self).cands(cell as int).insert(value))
            } else {
                old(self).cand_seq()
            },
    {
        if cell >= 81 || !(1 <= value && value <= 9) || self.values[cell as usize] != 0 {
            return;
        }
        let mut d = self.candidate_values[cell as usize];
        if d.contains(value) {
            proof {
                if no_peer_has(self.values@, cell as int, value) {
                    assert(self.cands(cell as int).insert(value) =~= self.cands(cell as int));
                    assert(self.cand_seq()[cell as int] == self.cands(cell as int));
                    assert(self.cand_seq() =~= self.cand_seq().update(cell as int, self.cands(cell as int).insert(value)));
                }
            }
            return;
        }
        let mut b: u8 = 0;
        while b < 81
            invariant
                b <= 81,
                cell < 81,
                self == old(self),
                self.shape_ok(),
                self.counts_ok(),
                forall|q: int| 0 <= q < b && sees(cell as int, q) ==> self.values@[q] != value,
            decreases 81 - b,
        {
            if cells_see(cell, b) && self.values[b as usize] == value {
                return;
            }
            b = b + 1;
        }
        let ghost cs = self.cand_seq();
        let ghost ns = d@.insert(value);
        d.add(value);
        self.candidate_values.set(cell as usize, d);
        proof {
            assert(self.cand_seq() =~= cs.update(cell as int, ns));
            assert forall|h: int, v: u8|
                0 <= h < 27 && 1 <= v <= 9 implies #[trigger] self.house_candidate_count@[hidx(h, v as int)]
                + (if in_house(cell as int, h) && v == value {
                1int
            } else {
                0int
            }) == count_in_house(self.cand_seq(), h, v, 81) by {
                lemma_count_in_house_update(cs, cell as int, ns, h, v, 81);
            }
        }
        self.bump_house_counts(cell, value, true);
    }
}

/// Candidates after `value` has been placed into the empty `cell`: the cell loses all of
/// its candidates and every peer loses `value`.
pub open spec fn cands_after_place(cs: Seq<Set<u8>>, cell: int, value: u8) -> Seq<Set<u8>> {
    Seq::new(
        81,
        |b: int|
            if b == cell {
                Set::<u8>::empty()
            } else if sees(cell, b) {
                cs[b].remove(value)
            } else {
                cs[b]
            },
    )
}

/// Candidate set of cell `b` once digit `d` may come back: `d` returns when `b` is
/// empty and no peer of `b` holds `d` (in values `vs`).
pub open spec fn restore_cand(vs: Seq<u8>, cs: Seq<Set<u8>>, b: int, d: u8) -> Set<u8> {
    if vs[b] == 0 && no_peer_has(vs, b, d) {
        cs[b].insert(d)
    } else {
        cs[b]
    }
}

/// The digits that no peer of `cell` holds (in values `vs`).
pub open spec fn free_digits(vs: Seq<u8>, cell: int) -> Set<u8> {
    Set::new(|p: u8| 1 <= p <= 9 && no_peer_has(vs, cell, p))
}

/// Candidates after the value `old` of `cell` has been cleared (`vs` are the values
/// after clearing): peers may regain `old`, and the cell gets every free digit.
pub open spec fn cands_after_clear(vs: Seq<u8>, cs: Seq<Set<u8>>, cell: int, old: u8) -> Seq<Set<u8>> {
    Seq::new(
        81,
        |b: int|
            if b == cell {
                free_digits(vs, cell)
            } else if sees(cell, b) {
                restore_cand(vs, cs, b, old)
            } else {
                cs[b]
            },
    )
}

/// Candidates after the value `old` of `cell` has been replaced by `value` (`vs` are the
/// values after the change): peers may regain `old` and lose `value`.
pub open spec fn cands_after_replace(vs: Seq<u8>, cs: Seq<Set<u8>>, cell: int, old: u8, value: u8) -> Seq<Set<u8>> {
    Seq::new(
        81,
        |b: int|
            if sees(cell, b) {
                restore_cand(vs, cs, b, old).remove(value)
            } else {
                cs[b]
            },
    )
}

impl Grid {
    /// Places `value` into the empty `cell` and propagates it to the peers.
    fn set_cell_value(&mut self, cell: u8, value: u8)
        requires
            old(self).wf(),
            cell < 81,
            1 <= value <= 9,
            old(self).values@[cell as int] == 0,
            no_peer_has(old(self).values@, cell as int, value),
        ensures
            final(self).wf(),
            final(self).values@ == old(self).values@.update(cell as int, value),
            final(self).cand_seq() == cands_after_place(old(self).cand_seq(), cell as int, value),
            final(self).is_given@ == old(self).is_given@,
    {
        let ghost cs = self.cand_seq();
        let ghost vs = self.values@;
        proof {
            lemma_count_empty_pos(vs, 81, cell as int);
            lemma_count_empty_update(vs, cell as int, value, 81);
        }
        self.values.set(cell as usize, value);
        let mut b: u8 = 0;
        while b < 81
            invariant
                b <= 81,
                cell < 81,
                self.shape_ok(),
                self.counts_ok(),
                self.values@ == vs.update(cell as int, value),
                self.is_given@ == old(self).is_given@,
                self.unsolved_count == old(self).unsolved_count,
                self.cand_seq() == Seq::new(
                    81,
                    |q: int|
                        if q < b && sees(cell as int, q) {
                            cs[q].remove(value)
                        } else {
                            cs[q]
                        },
                ),
            decreases 81 - b,
        {
            let ghost before = self.cand_seq();
            if cells_see(cell, b) {
                assert(before[b as int] == self.cands(b as int));
                let r = self.remove_candidate_value(b, value);
                proof {
                    if !r {
                        assert(before[b as int].remove(value) =~= before[b as int]);
                        assert(self.cand_seq() =~= before);
                    } else {
                        assert(self.cand_seq() == before.update(b as int, before[b as int].remove(value)));
                    }
                }
            }
            proof {
                assert(self.cand_seq() =~= Seq::new(
                    81,
                    |q: int|
                        if q < b + 1 && sees(cell as int, q) {
                            cs[q].remove(value)
                        } else {
                            cs[q]
                        },
                ));
            }
            b = b + 1;
        }
        let ghost cs2 = self.cand_seq();
        proof {
            DigitSet::lemma_bounds(self.candidate_values@[cell as int]);
            assert(cs2[cell as int] == self.candidate_values@[cell as int]@);
            assert(Set::new(|x: u8| cs2[cell as int].contains(x) && x >= 1) =~= cs2[cell as int]);
            assert(cs2.update(cell as int, cs2[cell as int]) =~= cs2);
        }
        let mut v: u8 = 1;
        while v <= 9
            invariant
                1 <= v <= 10,
                cell < 81,
                cs2.len() == 81,
                self.shape_ok(),
                self.counts_ok(),
                self.values@ == vs.update(cell as int, value),
                self.is_given@ == old(self).is_given@,
                self.unsolved_count == old(self).unsolved_count,
                self.cand_seq() == cs2.update(
                    cell as int,
                    Set::new(|x: u8| cs2[cell as int].contains(x) && x >= v),
                ),
            decreases 10 - v,
        {
            let ghost before = self.cand_seq();
            assert(before[cell as int] == self.cands(cell as int));
            let r = self.remove_candidate_value(cell, v);
            proof {
                assert(r == before[cell as int].contains(v));
                assert(before[cell as int] == Set::new(|x: u8| cs2[cell as int].contains(x) && x >= v));
                if !r {
                    assert(!cs2[cell as int].contains(v));
                    assert(self.cand_seq() =~= before);
                } else {
                    assert(self.cand_seq() == before.update(cell as int, before[cell as int].remove(v)));
                }
                assert(Set::new(|x: u8| cs2[cell as int].contains(x) && x >= v).remove(v) =~= Set::new(
                    |x: u8| cs2[cell as int].contains(x) && x >= v + 1,
                ));
                if !r {
                    assert(Set::new(|x: u8| cs2[cell as int].contains(x) && x >= v) =~= Set::new(
                        |x: u8| cs2[cell as int].contains(x) && x >= v + 1,
                    ));
                }
                assert(self.cand_seq() =~= cs2.update(
                    cell as int,
                    Set::new(|x: u8| cs2[cell as int].contains(x) && x >= v + 1),
                ));
            }
            v = v + 1;
        }
        proof {
            assert(cs2[cell as int] == cs[cell as int]);
            DigitSet::lemma_bounds(old(self).candidate_values@[cell as int]);
            assert(Set::new(|x: u8| cs2[cell as int].contains(x) && x >= 10) =~= Set::<u8>::empty());
            assert(self.cand_seq() =~= cands_after_place(cs, cell as int, value));
        }
        self.unsolved_count = self.unsolved_count - 1;
        proof {
            assert forall|c: int| 0 <= c < 81 && #[trigger] self.values@[c] != 0 implies self.candidate_values@[c]@
                == Set::<u8>::empty() by {
                assert(self.candidate_values@[c]@ == self.cand_seq()[c]);
                if c != cell {
                    assert(old(self).values@[c] != 0);
                    assert(cs[c] == Set::<u8>::empty());
                    assert(cs[c].remove(value) =~= Set::<u8>::empty());
                }
            }
        }
    }
}

impl Grid {
    /// Clears the value of the solved `cell`, restoring candidates around it.
    fn delete_cell_value(&mut self, cell: u8)
        requires
            old(self).wf(),
            cell < 81,
            old(self).values@[cell as int] != 0,
        ensures
            final(self).wf(),
            final(self).values@ == old(self).values@.update(cell as int, 0),
            final(self).cand_seq() == cands_after_clear(
                old(self).values@.update(cell as int, 0),
                old(self).cand_seq(),
                cell as int,
                old(self).values@[cell as int],
            ),
            final(self).is_given@ == old(self).is_given@,
    {
        let ghost cs = self.cand_seq();
        let ghost vs = self.values@;
        let old_value = self.values[cell as usize];
        proof {
            lemma_count_empty_update(vs, cell as int, 0, 81);
            lemma_count_empty_bounds(vs.update(cell as int, 0), 81);
        }
        self.values.set(cell as usize, 0);
        let ghost nvs = self.values@;
        let mut pential_set = DigitSet::new_full();
        let mut b: u8 = 0;
        while b < 81
            invariant
                b <= 81,
                cell < 81,
                1 <= old_value <= 9,
                nvs == vs.update(cell as int, 0),
                cs.len() == 81,
                self.shape_ok(),
                self.counts_ok(),
                self.values@ == nvs,
                self.is_given@ == old(self).is_given@,
                self.unsolved_count == old(self).unsolved_count,
                self.cand_seq() == Seq::new(
                    81,
                    |q: int|
                        if q < b && sees(cell as int, q) {
                            restore_cand(nvs, cs, q, old_value)
                        } else {
                            cs[q]
                        },
                ),
                pential_set@ == Set::new(
                    |p: u8| 1 <= p <= 9 && forall|q: int| 0 <= q < b && sees(cell as int, q) ==> nvs[q] != p,
                ),
            decreases 81 - b,
        {
            let ghost before = self.cand_seq();
            let ghost pbefore = pential_set@;
            if cells_see(cell, b) {
                assert(before[b as int] == self.cands(b as int));
                self.add_candidate(b, old_value);
                let buddy_value = self.values[b as usize];
                if buddy_value != 0 {
                    pential_set.remove(buddy_value);
                }
                proof {
                    assert(self.cand_seq() =~= before.update(b as int, restore_cand(nvs, cs, b as int, old_value)));
                }
            }
            proof {
                assert(self.cand_seq() =~= Seq::new(
                    81,
                    |q: int|
                        if q < b + 1 && sees(cell as int, q) {
                            restore_cand(nvs, cs, q, old_value)
                        } else {
                            cs[q]
                        },
                ));
                assert(pential_set@ =~= Set::new(
                    |p: u8| 1 <= p <= 9 && forall|q: int| 0 <= q < b + 1 && sees(cell as int, q) ==> nvs[q] != p,
                )) by {
                    assert forall|p: u8| pential_set@.contains(p) == (1 <= p <= 9 && forall|q: int|
                        0 <= q < b + 1 && sees(cell as int, q) ==> nvs[q] != p) by {
                        if 1 <= p <= 9 && pbefore.contains(p) && !(forall|q: int|
                            0 <= q < b + 1 && sees(cell as int, q) ==> nvs[q] != p) {
                            let q = choose|q: int| 0 <= q < b + 1 && sees(cell as int, q) && nvs[q] == p;
                            assert(q == b);
                        }
                    }
                }
            }
            b = b + 1;
        }
        proof {
            assert(pential_set@ =~= free_digits(nvs, cell as int));
            assert(self.cand_seq()[cell as int] == cs[cell as int]);
            assert(cs[cell as int] == Set::<u8>::empty());
        }
        let pential_values = pential_set.values();
        let ghost cs3 = self.cand_seq();
        proof {
            assert(Set::new(|p: u8| exists|i: int| 0 <= i < 0 && pential_values@[i] == p) =~= Set::<u8>::empty());
            assert(cs3.update(cell as int, Set::<u8>::empty()) =~= cs3);
        }
        let mut k: usize = 0;
        while k < pential_values.len()
            invariant
                k <= pential_values.len(),
                cell < 81,
                cs3.len() == 81,
                nvs[cell as int] == 0,
                self.shape_ok(),
                self.counts_ok(),
                self.values@ == nvs,
                self.is_given@ == old(self).is_given@,
                self.unsolved_count == old(self).unsolved_count,
                forall|p: u8| pential_values@.contains(p) <==> free_digits(nvs, cell as int).contains(p),
                forall|i: int, j: int|
                    0 <= i < j < pential_values@.len() ==> pential_values@[i] < pential_values@[j],
                cs3[cell as int] == Set::<u8>::empty(),
                self.cand_seq() == cs3.update(
                    cell as int,
                    Set::new(|p: u8| exists|i: int| 0 <= i < k && pential_values@[i] == p),
                ),
            decreases pential_values.len() - k,
        {
            let p = pential_values[k];
            let ghost before = self.cand_seq();
            assert(pential_values@.contains(p));
            assert(free_digits(nvs, cell as int).contains(p));
            self.add_candidate(cell, p);
            proof {
                assert(before[cell as int] == Set::new(|q: u8| exists|i: int| 0 <= i < k && pential_values@[i] == q));
                assert(before[cell as int].insert(p) =~= Set::new(|q: u8| exists|i: int| 0 <= i < k + 1 && pential_values@[i] == q)) by {
                    assert forall|q: u8| before[cell as int].insert(p).contains(q) == (exists|i: int| 0 <= i < k + 1 && pential_values@[i] == q) by {
                        if exists|i: int| 0 <= i < k + 1 && pential_values@[i] == q {
                            let i = choose|i: int| 0 <= i < k + 1 && pential_values@[i] == q;
                            if i < k {
                                assert(before[cell as int].contains(q));
                            }
                        }
                        if before[cell as int].contains(q) {
                            let i = choose|i: int| 0 <= i < k && pential_values@[i] == q;
                        }
                    }
                }
                assert(self.cand_seq() =~= cs3.update(
                    cell as int,
                    Set::new(|q: u8| exists|i: int| 0 <= i < k + 1 && pential_values@[i] == q),
                ));
            }
            k = k + 1;
        }
        proof {
            assert(Set::new(|q: u8| exists|i: int| 0 <= i < pential_values@.len() && pential_values@[i] == q)
                =~= free_digits(nvs, cell as int)) by {
                assert forall|q: u8| free_digits(nvs, cell as int).contains(q) implies exists|i: int|
                    0 <= i < pential_values@.len() && pential_values@[i] == q by {
                    assert(pential_values@.contains(q));
                }
            }
            assert(self.cand_seq() =~= cands_after_clear(nvs, cs, cell as int, old_value));
        }
        self.unsolved_count = self.unsolved_count + 1;
        proof {
            assert forall|c: int| 0 <= c < 81 && #[trigger] self.values@[c] != 0 implies self.candidate_values@[c]@
                == Set::<u8>::empty() by {
                assert(self.candidate_values@[c]@ == self.cand_seq()[c]);
                assert(c != cell);
                assert(vs[c] != 0);
                assert(cs[c] == Set::<u8>::empty());
            }
        }
    }

    /// Replaces the value of the solved `cell` by `value`.
    fn replace_cell_value(&mut self, cell: u8, value: u8)
        requires
            old(self).wf(),
            cell < 81,
            1 <= value <= 9,
            old(self).values@[cell as int] != 0,
        ensures
            final(self).wf(),
            final(self).values@ == old(self).values@.update(cell as int, value),
            final(self).cand_seq() == cands_after_replace(
                old(self).values@.update(cell as int, value),
                old(self).cand_seq(),
                cell as int,
                old(self).values@[cell as int],
                value,
            ),
            final(self).is_given@ == old(self).is_given@,
    {
        let ghost cs = self.cand_seq();
        let ghost vs = self.values@;
        let old_value = self.values[cell as usize];
        proof {
            lemma_count_empty_update(vs, cell as int, value, 81);
        }
        self.values.set(cell as usize, value);
        let ghost nvs = self.values@;
        let mut b: u8 = 0;
        while b < 81
            invariant
                b <= 81,
                cell < 81,
                1 <= old_value <= 9,
                nvs == vs.update(cell as int, value),
                cs.len() == 81,
                self.shape_ok(),
                self.counts_ok(),
                self.values@ == nvs,
                self.is_given@ == old(self).is_given@,
                self.unsolved_count == old(self).unsolved_count,
                self.cand_seq() == Seq::new(
                    81,
                    |q: int|
                        if q < b && sees(cell as int, q) {
                            restore_cand(nvs, cs, q, old_value).remove(value)
                        } else {
                            cs[q]
                        },
                ),
            decreases 81 - b,
        {
            let ghost before = self.cand_seq();
            if cells_see(cell, b) {
                assert(before[b as int] == self.cands(b as int));
                self.add_candidate(b, old_value);
                let ghost mid = self.cand_seq();
                assert(mid =~= before.update(b as int, restore_cand(nvs, cs, b as int, old_value)));
                assert(mid[b as int] == self.cands(b as int));
                let r = self.remove_candidate_value(b, value);
                proof {
                    if !r {
                        assert(mid[b as int].remove(value) =~= mid[b as int]);
                        assert(self.cand_seq() =~= mid);
                    }
                    assert(self.cand_seq() =~= before.update(b as int, restore_cand(nvs, cs, b as int, old_value).remove(value)));
                }
            }
            proof {
                assert(self.cand_seq() =~= Seq::new(
                    81,
                    |q: int|
                        if q < b + 1 && sees(cell as int, q) {
                            restore_cand(nvs, cs, q, old_value).remove(value)
                        } else {
                            cs[q]
                        },
                ));
            }
            b = b + 1;
        }
        proof {
            assert(self.cand_seq() =~= cands_after_replace(nvs, cs, cell as int, old_value, value));
            assert forall|c: int| 0 <= c < 81 && #[trigger] self.values@[c] != 0 implies self.candidate_values@[c]@
                == Set::<u8>::empty() by {
                assert(self.candidate_values@[c]@ == self.cand_seq()[c]);
                assert(vs[c] != 0);
                assert(cs[c] == Set::<u8>::empty());
                if sees(cell as int, c) {
                    assert(restore_cand(nvs, cs, c, old_value) == cs[c]);
                    assert(cs[c].remove(value) =~= Set::<u8>::empty());
                }
            }
        }
    }
}

/// Adds one to the count of digit `v` in each of the three houses of `cell`.
fn add_to_houses(hcc: &mut Vec<u8>, cell: u8, v: u8)
    requires
        old(hcc)@.len() == 270,
        cell < 81,
        1 <= v <= 9,
        forall|h: int| 0 <= h < 27 && in_house(cell as int, h) ==> #[trigger] old(hcc)@[hidx(h, v as int)] < 255,
    ensures
        final(hcc)@.len() == 270,
        forall|h: int, w: int|
            0 <= h < 27 && 0 <= w < 10 ==> #[trigger] final(hcc)@[hidx(h, w)] == old(hcc)@[hidx(h, w)] + if in_house(cell as int, h) && w == v {
                1int
            } else {
                0int
            },
{
    let hs = get_cell_house(cell);
    let ghost o = hcc@;
    let i0 = (hs[0] as usize) * 10 + (v as usize);
    let i1 = (hs[1] as usize) * 10 + (v as usize);
    let i2 = (hs[2] as usize) * 10 + (v as usize);
    assert(in_house(cell as int, hs[0] as int) && in_house(cell as int, hs[1] as int) && in_house(cell as int, hs[2] as int));
    assert(i0 == hidx(hs[0] as int, v as int));
    assert(i1 == hidx(hs[1] as int, v as int));
    assert(i2 == hidx(hs[2] as int, v as int));
    let x0 = hcc[i0] + 1;
    hcc.set(i0, x0);
    let x1 = hcc[i1] + 1;
    hcc.set(i1, x1);
    let x2 = hcc[i2] + 1;
    hcc.set(i2, x2);
}

impl Grid {
    /// Recomputes every house count from the candidates.
    fn rebuild_house_candidate_count(&mut self)
        requires
            old(self).values@.len() == 81,
            old(self).candidate_values@.len() == 81,
            old(self).is_given@.len() == 81,
            forall|c: int| 0 <= c < 81 ==> #[trigger] old(self).values@[c] <= 9,
        ensures
            final(self).shape_ok(),
            final(self).counts_ok(),
            final(self).values@ == old(self).values@,
            final(self).candidate_values@ == old(self).candidate_values@,
            final(self).is_given@ == old(self).is_given@,
            final(self).unsolved_count == old(self).unsolved_count,
    {
        let ghost cs = self.cand_seq();
        let mut hcc: Vec<u8> = Vec::new();
        let mut i: usize = 0;
        while i < 270
            invariant
                i <= 270,
                hcc@.len() == i,
                forall|j: int| 0 <= j < i ==> #[trigger] hcc@[j] == 0,
            decreases 270 - i,
        {
            hcc.push(0);
            i = i + 1;
        }
        let mut cell: u8 = 0;
        while cell < 81
            invariant
                cell <= 81,
                hcc@.len() == 270,
                cs == self.cand_seq(),
                self.candidate_values@.len() == 81,
                forall|h: int, w: u8|
                    0 <= h < 27 && 1 <= w <= 9 ==> #[trigger] hcc@[hidx(h, w as int)] == count_in_house(cs, h, w, cell as int),
                forall|h: int| 0 <= h < 27 ==> #[trigger] hcc@[hidx(h, 0)] == 0,
            decreases 81 - cell,
        {
            let d = self.candidate_values[cell as usize];
            assert(d@ == cs[cell as int]);
            let mut v: u8 = 1;
            while v <= 9
                invariant
                    1 <= v <= 10,
                    cell < 81,
                    hcc@.len() == 270,
                    d@ == cs[cell as int],
                    forall|h: int, w: u8|
                        0 <= h < 27 && 1 <= w <= 9 ==> #[trigger] hcc@[hidx(h, w as int)] == count_in_house(cs, h, w, cell as int)
                            + if in_house(cell as int, h) && d@.contains(w) && w < v {
                            1nat
                        } else {
                            0nat
                        },
                    forall|h: int| 0 <= h < 27 ==> #[trigger] hcc@[hidx(h, 0)] == 0,
                decreases 10 - v,
            {
                if d.contains(v) {
                    let ghost before = hcc@;
                    proof {
                        assert forall|h: int| 0 <= h < 27 && in_house(cell as int, h) implies #[trigger] hcc@[hidx(h, v as int)] < 255 by {
                            lemma_count_in_house_bounds(cs, h, v, cell as int);
                        }
                    }
                    add_to_houses(&mut hcc, cell, v);
                    proof {
                        assert forall|h: int, w: u8|
                            0 <= h < 27 && 1 <= w <= 9 implies #[trigger] hcc@[hidx(h, w as int)] == count_in_house(cs, h, w, cell as int)
                                + if in_house(cell as int, h) && d@.contains(w) && w < v + 1 {
                                1nat
                            } else {
                                0nat
                            } by {
                            assert(hcc@[hidx(h, w as int)] == before[hidx(h, w as int)] + if in_house(cell as int, h) && w == v {
                                1int
                            } else {
                                0int
                            });
                        }
                        assert forall|h: int| 0 <= h < 27 implies #[trigger] hcc@[hidx(h, 0)] == 0 by {
                            assert(hcc@[hidx(h, 0)] == before[hidx(h, 0)]);
                        }
                    }
                }
                v = v + 1;
            }
            proof {
                DigitSet::lemma_bounds(d);
            }
            cell = cell + 1;
        }
        let mut h: usize = 0;
        while h < 27
            invariant
                h <= 27,
                hcc@.len() == 270,
                forall|g: int, w: u8|
                    0 <= g < 27 && 1 <= w <= 9 ==> #[trigger] hcc@[hidx(g, w as int)] == count_in_house(cs, g, w, 81),
                forall|g: int| 0 <= g < h ==> #[trigger] hcc@[hidx(g, 0)] == 9,
            decreases 27 - h,
        {
            hcc.set(h * 10, 9);
            h = h + 1;
        }
        self.house_candidate_count = hcc;
    }
}

impl Default for Grid {
    fn default() -> (g: Self)
        ensures
            g.wf(),
            forall|c: int| 0 <= c < 81 ==> #[trigger] g.value(c) == 0,
            forall|c: int| 0 <= c < 81 ==> #[trigger] g.cands(c) == all_digits(),
            forall|c: int| 0 <= c < 81 ==> !#[trigger] g.given(c),
    {
        let mut values: Vec<u8> = Vec::new();
        let mut candidate_values: Vec<DigitSet> = Vec::new();
        let mut is_given: Vec<bool> = Vec::new();
        let mut i: usize = 0;
        while i < 81
            invariant
                i <= 81,
                values@.len() == i,
                candidate_values@.len() == i,
                is_given@.len() == i,
                forall|j: int| 0 <= j < i ==> #[trigger] values@[j] == 0,
                forall|j: int| 0 <= j < i ==> #[trigger] candidate_values@[j]@ == all_digits(),
                forall|j: int| 0 <= j < i ==> !#[trigger] is_given@[j],
            decreases 81 - i,
        {
            values.push(0);
            candidate_values.push(DigitSet::new_full());
            is_given.push(false);
            i = i + 1;
        }
        proof {
            assert forall|j: int| 0 <= j < 81 implies #[trigger] values@[j] != 0 ==> false by {}
            lemma_count_empty_bounds(values@, 81);
            lemma_count_all_empty(values@, 81);
        }
        let mut grid = Grid {
            values,
            candidate_values,
            is_given,
            house_candidate_count: Vec::new(),
            unsolved_count: 81,
        };
        grid.rebuild_house_candidate_count();
        grid
    }
}

proof fn lemma_count_all_empty(vs: Seq<u8>, n: int)
    requires
        0 <= n <= vs.len(),
        forall|j: int| 0 <= j < n ==> #[trigger] vs[j] == 0,
    ensures
        count_empty(vs, n) == n,
    decreases n,
{
    if n > 0 {
        lemma_count_all_empty(vs, n - 1);
    }
}

impl Grid {
    /// A copy of the grid.
    pub fn duplicate(&self) -> (g: Grid)
        requires
            self.wf(),
        ensures
            g.wf(),
            g.value_seq() == self.value_seq(),
            g.cand_seq() == self.cand_seq(),
            g.given_seq() == self.given_seq(),
            forall|h: int, v: int| 0 <= h < 27 && 0 <= v < 10 ==> #[trigger] g.stored_count(h, v) == self.stored_count(h, v),
    {
        let mut values: Vec<u8> = Vec::new();
        let mut candidate_values: Vec<DigitSet> = Vec::new();
        let mut is_given: Vec<bool> = Vec::new();
        let mut i: usize = 0;
        while i < 81
            invariant
                i <= 81,
                self.shape_ok(),
                values@ == self.values@.subrange(0, i as int),
                candidate_values@ == self.candidate_values@.subrange(0, i as int),
                is_given@ == self.is_given@.subrange(0, i as int),
            decreases 81 - i,
        {
            values.push(self.values[i]);
            candidate_values.push(self.candidate_values[i]);
            is_given.push(self.is_given[i]);
            proof {
                assert(values@ =~= self.values@.subrange(0, i + 1));
                assert(candidate_values@ =~= self.candidate_values@.subrange(0, i + 1));
                assert(is_given@ =~= self.is_given@.subrange(0, i + 1));
            }
            i = i + 1;
        }
        let mut hcc: Vec<u8> = Vec::new();
        let mut j: usize = 0;
        while j < 270
            invariant
                j <= 270,
                self.shape_ok(),
                hcc@ == self.house_candidate_count@.subrange(0, j as int),
            decreases 270 - j,
        {
            hcc.push(self.house_candidate_count[j]);
            proof {
                assert(hcc@ =~= self.house_candidate_count@.subrange(0, j + 1));
            }
            j = j + 1;
        }
        proof {
            assert(values@ =~= self.values@);
            assert(candidate_values@ =~= self.candidate_values@);
            assert(is_given@ =~= self.is_given@);
            assert(hcc@ =~= self.house_candidate_count@);
        }
        let g = Grid { values, candidate_values, is_given, house_candidate_count: hcc, unsolved_count: self.unsolved_count };
        assert(g.cand_seq() =~= self.cand_seq());
        g
    }

    /// Whether `value` may be written into `cell`: `0` (clearing) is allowed on cells that
    /// are not given, and a digit is allowed when no peer holds it.
    pub fn check_value_valid(&self, cell: u8, value: u8) -> (r: bool)
        requires
            self.wf(),
        ensures
            r == (cell < 81 && value <= 9 && (value == 0 ==> !self.given(cell as int)) && (value != 0
                ==> no_peer_has(self.value_seq(), cell as int, value))),
    {
        if cell >= 81 || value > 9 {
            return false;
        }
        if value == 0 {
            return !self.is_given[cell as usize];
        }
        let mut b: u8 = 0;
        while b < 81
            invariant
                b <= 81,
                cell < 81,
                1 <= value <= 9,
                self.shape_ok(),
                forall|q: int| 0 <= q < b && sees(cell as int, q) ==> self.values@[q] != value,
            decreases 81 - b,
        {
            if cells_see(cell, b) && self.values[b as usize] == value {
                proof {
                    assert(self.value_seq()[b as int] == value);
                    assert(!no_peer_has(self.value_seq(), cell as int, value));
                }
                return false;
            }
            b = b + 1;
        }
        true
    }

    /// Writes `value` into `cell` (`0` clears it) and keeps the candidates of the grid in
    /// step. Given cells keep their value: writing a given cell succeeds only with its own
    /// value and changes nothing. Returns whether the write was accepted.
    pub fn set_value(&mut self, cell: u8, value: u8, is_given: bool) -> (r: bool)
        requires
            old(self).wf(),
        ensures
            final(self).wf(),
            r == (cell < 81 && value <= 9 && if old(self).given(cell as int) {
                old(self).value(cell as int) == value
            } else {
                value == 0 || no_peer_has(old(self).value_seq(), cell as int, value)
            }),
            !r || old(self).given(cell as int) ==> final(self).value_seq() == old(self).value_seq()
                && final(self).cand_seq() == old(self).cand_seq() && final(self).given_seq() == old(
                self,
            ).given_seq(),
            r && !old(self).given(cell as int) ==> final(self).value_seq() == old(self).value_seq().update(
                cell as int,
                value,
            ) && final(self).given_seq() == old(self).given_seq().update(
                cell as int,
                if value == 0 && old(self).value(cell as int) == 0 {
                    false
                } else {
                    is_given
                },
            ) && final(self).cand_seq() == if value == 0 && old(self).value(cell as int) == 0 {
                old(self).cand_seq()
            } else if value == 0 {
                cands_after_clear(
                    old(self).value_seq().update(cell as int, 0),
                    old(self).cand_seq(),
                    cell as int,
                    old(self).value(cell as int),
                )
            } else if old(self).value(cell as int) == 0 {
                cands_after_place(old(self).cand_seq(), cell as int, value)
            } else {
                cands_after_replace(
                    old(self).value_seq().update(cell as int, value),
                    old(self).cand_seq(),
                    cell as int,
                    old(self).value(cell as int),
                    value,
                )
            },
    {
        if cell >= 81 || value > 9 {
            return false;
        }
        if self.is_given[cell as usize] {
            return self.values[cell as usize] == value;
        }
        if !self.check_value_valid(cell, value) {
            return false;
        }
        let current = self.values[cell as usize];
        if value == 0 && current != 0 {
            self.delete_cell_value(cell);
            self.is_given.set(cell as usize, is_given);
        } else if value != 0 && current != 0 {
            self.replace_cell_value(cell, value);
            self.is_given.set(cell as usize, is_given);
        } else if value == 0 && current == 0 {
            self.is_given.set(cell as usize, false);
            assert(self.values@ =~= old(self).values@.update(cell as int, value));
        } else {
            self.set_cell_value(cell, value);
            self.is_given.set(cell as usize, is_given);
        }
        true
    }

    /// Places the candidate's digit into its cell (not as a given).
    pub fn set_value_with_candidate(&mut self, candidate: &Candidate) -> (r: bool)
        requires
            old(self).wf(),
        ensures
            final(self).wf(),
            r == (candidate.0 < 81 && candidate.1 <= 9 && if old(self).given(candidate.0 as int) {
                old(self).value(candidate.0 as int) == candidate.1
            } else {
                candidate.1 == 0 || no_peer_has(old(self).value_seq(), candidate.0 as int, candidate.1)
            }),
            !r || old(self).given(candidate.0 as int) ==> final(self).value_seq() == old(self).value_seq()
                && final(self).cand_seq() == old(self).cand_seq() && final(self).given_seq() == old(
                self,
            ).given_seq(),
            r && !old(self).given(candidate.0 as int) && candidate.1 != 0 && old(self).value(candidate.0 as int) == 0
                ==> final(self).value_seq() == old(self).value_seq().update(candidate.0 as int, candidate.1)
                && final(self).given_seq() == old(self).given_seq().update(candidate.0 as int, false)
                && final(self).cand_seq() == cands_after_place(old(self).cand_seq(), candidate.0 as int, candidate.1),
    {
        self.set_value(candidate.cell(), candidate.value(), false)
    }

    /// Removes a candidate; reports whether the cell had it.
    pub fn remove_candidate(&mut self, candidate: &Candidate) -> (r: bool)
        requires
            old(self).wf(),
        ensures
            final(self).wf(),
            r == (candidate.0 < 81 && old(self).cands(candidate.0 as int).contains(candidate.1)),
            final(self).value_seq() == old(self).value_seq(),
            final(self).given_seq() == old(self).given_seq(),
            r ==> final(self).cand_seq() == old(self).cand_seq().update(
                candidate.0 as int,
                old(self).cands(candidate.0 as int).remove(candidate.1),
            ),
            !r ==> final(self).cand_seq() == old(self).cand_seq(),
    {
        let r = self.remove_candidate_value(candidate.cell(), candidate.value());
        proof {
            if r {
                assert forall|c: int| 0 <= c < 81 && #[trigger] self.values@[c] != 0 implies self.candidate_values@[c]@
                    == Set::<u8>::empty() by {
                    assert(self.candidate_values@[c]@ == self.cand_seq()[c]);
                    assert(old(self).candidate_values@[c]@ == old(self).cand_seq()[c]);
                    if c == candidate.0 {
                        assert(old(self).cands(c) == Set::<u8>::empty());
                    }
                }
            }
        }
        r
    }

    /// Older name of [`Grid::remove_candidate`].
    pub fn remvoe_candidate(&mut self, candidate: &Candidate) -> (r: bool)
        requires
            old(self).wf(),
        ensures
            final(self).wf(),
            r == (candidate.0 < 81 && old(self).cands(candidate.0 as int).contains(candidate.1)),
            final(self).value_seq() == old(self).value_seq(),
            final(self).given_seq() == old(self).given_seq(),
            r ==> final(self).cand_seq() == old(self).cand_seq().update(
                candidate.0 as int,
                old(self).cands(candidate.0 as int).remove(candidate.1),
            ),
            !r ==> final(self).cand_seq() == old(self).cand_seq(),
    {
        self.remove_candidate(candidate)
    }

    pub fn cell_is_given(&self, cell: u8) -> (r: bool)
        requires
            self.wf(),
            cell < 81,
        ensures
            r == self.given(cell as int),
    {
        self.is_given[cell as usize]
    }

    pub fn is_given(&self) -> (r: &Vec<bool>)
        requires
            self.wf(),
        ensures
            r@ == self.given_seq(),
    {
        &self.is_given
    }

    /// Whether every cell holds a value.
    pub fn is_solved(&self) -> (r: bool)
        requires
            self.wf(),
        ensures
            r == (forall|c: int| 0 <= c < 81 ==> #[trigger] self.value(c) != 0),
    {
        proof {
            lemma_count_empty_zero(self.values@, 81);
            assert((forall|c: int| 0 <= c < 81 ==> #[trigger] self.value(c) != 0) <==> (forall|i: int|
                0 <= i < 81 ==> self.values@[i] != 0)) by {
                if forall|i: int| 0 <= i < 81 ==> self.values@[i] != 0 {
                    assert forall|c: int| 0 <= c < 81 implies #[trigger] self.value(c) != 0 by {
                        assert(self.values@[c] != 0);
                    }
                }
                if forall|c: int| 0 <= c < 81 ==> #[trigger] self.value(c) != 0 {
                    assert forall|i: int| 0 <= i < 81 implies self.values@[i] != 0 by {
                        assert(self.value(i) != 0);
                    }
                }
            }
        }
        self.unsolved_count == 0
    }

    pub fn values(&self) -> (r: &Vec<u8>)
        requires
            self.wf(),
        ensures
            r@ == self.value_seq(),
            r@.len() == 81,
    {
        &self.values
    }

    pub fn get_value(&self, cell: u8) -> (r: u8)
        requires
            self.wf(),
            cell < 81,
        ensures
            r == self.value(cell as int),
    {
        self.values[cell as usize]
    }

    /// Number of empty cells.
    pub fn unsolved_count(&self) -> (r: u8)
        requires
            self.wf(),
        ensures
            r as nat == self.empty_count(),
    {
        self.unsolved_count
    }

    pub fn get_cell_candidate(&self, cell: u8) -> (r: DigitSet)
        requires
            self.wf(),
            cell < 81,
        ensures
            r@ == self.cands(cell as int),
    {
        self.candidate_values[cell as usize]
    }

    /// How many cells of `house` hold candidate `value` (9 for `value == 0`).
    pub fn get_house_candidate_count(&self, house: u8, value: u8) -> (r: u8)
        requires
            self.wf(),
            house < 27,
            value <= 9,
        ensures
            r as nat == if value == 0 {
                9
            } else {
                self.house_count(house as int, value)
            },
    {
        let i = (house as usize) * 10 + (value as usize);
        assert(i == hidx(house as int, value as int));
        self.house_candidate_count[i]
    }

    /// Older name of [`Grid::get_house_candidate_count`].
    pub fn get_house_pential_count(&self, house: u8, value: u8) -> (r: u8)
        requires
            self.wf(),
            house < 27,
            value <= 9,
        ensures
            r as nat == if value == 0 {
                9
            } else {
                self.house_count(house as int, value)
            },
    {
        self.get_house_candidate_count(house, value)
    }

    /// Number of cells holding a value.
    pub fn clue_count(&self) -> (r: usize)
        requires
            self.wf(),
        ensures
            r == count_filled(self.value_seq(), 81),
    {
        let mut n: usize = 0;
        let mut i: usize = 0;
        while i < 81
            invariant
                i <= 81,
                self.shape_ok(),
                n == count_filled(self.values@, i as int),
                n <= i,
            decreases 81 - i,
        {
            if self.values[i] != 0 {
                n = n + 1;
            }
            i = i + 1;
        }
        n
    }

    /// Older name of [`Grid::clue_count`].
    pub fn clude_count(&self) -> (r: usize)
        requires
            self.wf(),
        ensures
            r == count_filled(self.value_seq(), 81),
    {
        self.clue_count()
    }

    /// Whether the empty `cell` has candidate `value`.
    pub fn cell_has_candidate(&self, cell: u8, value: u8) -> (r: bool)
        requires
            self.wf(),
            cell < 81,
        ensures
            r == self.has_cand(cell as int, value),
    {
        if self.values[cell as usize] != 0 {
            return false;
        }
        self.candidate_values[cell as usize].contains(value)
    }

    /// The empty cells of `house`.
    pub fn house_empty_cells(&self, house: u8) -> (r: IndexSet)
        requires
            self.wf(),
        ensures
            r@ == Set::new(|c: u8| in_house(c as int, house as int) && self.value(c as int) == 0),
    {
        let mut r = IndexSet::new_empty();
        let mut c: u8 = 0;
        while c < 81
            invariant
                c <= 81,
                self.shape_ok(),
                r@ == Set::new(|x: u8| x < c && in_house(x as int, house as int) && self.values@[x as int] == 0),
            decreases 81 - c,
        {
            if cell_in_house(c, house) && self.values[c as usize] == 0 {
                r.add(c);
            }
            assert(r@ =~= Set::new(|x: u8| x < c + 1 && in_house(x as int, house as int) && self.values@[x as int] == 0));
            c = c + 1;
        }
        assert(r@ =~= Set::new(|x: u8| in_house(x as int, house as int) && self.value(x as int) == 0));
        r
    }

    /// All candidates of the empty cells of `house`.
    pub fn house_candidate_values(&self, house: u8) -> (r: DigitSet)
        requires
            self.wf(),
        ensures
            r@ == Set::new(|v: u8| exists|c: int| in_house(c, house as int) && #[trigger] self.has_cand(c, v)),
    {
        let mut r = DigitSet::new_empty();
        let mut c: u8 = 0;
        while c < 81
            invariant
                c <= 81,
                self.shape_ok(),
                r@ == Set::new(|v: u8| exists|x: int| 0 <= x < c && in_house(x, house as int) && #[trigger] self.has_cand(x, v)),
            decreases 81 - c,
        {
            if cell_in_house(c, house) && self.values[c as usize] == 0 {
                let ghost before = r@;
                r = r.union(&self.candidate_values[c as usize]);
                proof {
                    assert forall|v: u8| r@.contains(v) == exists|x: int| 0 <= x < c + 1 && in_house(x, house as int) && #[trigger] self.has_cand(x, v) by {
                        if r@.contains(v) && !before.contains(v) {
                            assert(self.has_cand(c as int, v));
                        }
                        if exists|x: int| 0 <= x < c + 1 && in_house(x, house as int) && #[trigger] self.has_cand(x, v) {
                            let x = choose|x: int| 0 <= x < c + 1 && in_house(x, house as int) && #[trigger] self.has_cand(x, v);
                            if x < c {
                                assert(before.contains(v));
                            }
                        }
                    }
                }
            } else {
                proof {
                    assert forall|v: u8| r@.contains(v) == exists|x: int| 0 <= x < c + 1 && in_house(x, house as int) && #[trigger] self.has_cand(x, v) by {
                        if exists|x: int| 0 <= x < c + 1 && in_house(x, house as int) && #[trigger] self.has_cand(x, v) {
                            let x = choose|x: int| 0 <= x < c + 1 && in_house(x, house as int) && #[trigger] self.has_cand(x, v);
                            assert(x < c);
                        }
                    }
                }
            }
            assert(r@ =~= Set::new(|v: u8| exists|x: int| 0 <= x < c + 1 && in_house(x, house as int) && #[trigger] self.has_cand(x, v)));
            c = c + 1;
        }
        assert(r@ =~= Set::new(|v: u8| exists|x: int| in_house(x, house as int) && #[trigger] self.has_cand(x, v)));
        r
    }

    /// Older name of [`Grid::house_candidate_values`].
    pub fn house_pential_values(&self, house: u8) -> (r: DigitSet)
        requires
            self.wf(),
        ensures
            r@ == Set::new(|v: u8| exists|c: int| in_house(c, house as int) && #[trigger] self.has_cand(c, v)),
    {
        self.house_candidate_values(house)
    }

    /// The cells of `house` with candidate `value`.
    pub fn candidate_cells_in_house(&self, house: u8, value: u8) -> (r: IndexSet)
        requires
            self.wf(),
        ensures
            r@ == Set::new(|c: u8| in_house(c as int, house as int) && self.has_cand(c as int, value)),
    {
        let mut r = IndexSet::new_empty();
        let mut c: u8 = 0;
        while c < 81
            invariant
                c <= 81,
                self.wf(),
                r@ == Set::new(|x: u8| x < c && in_house(x as int, house as int) && self.has_cand(x as int, value)),
            decreases 81 - c,
        {
            if cell_in_house(c, house) && self.candidate_values[c as usize].contains(value) {
                r.add(c);
            }
            proof {
                self.lemma_wf();
                assert(self.has_cand(c as int, value) == self.cands(c as int).contains(value));
            }
            assert(r@ =~= Set::new(|x: u8| x < c + 1 && in_house(x as int, house as int) && self.has_cand(x as int, value)));
            c = c + 1;
        }
        assert(r@ =~= Set::new(|x: u8| in_house(x as int, house as int) && self.has_cand(x as int, value)));
        r
    }

    /// Older name of [`Grid::candidate_cells_in_house`].
    pub fn pential_cells_in_house(&self, house: u8, value: u8) -> (r: IndexSet)
        requires
            self.wf(),
        ensures
            r@ == Set::new(|c: u8| in_house(c as int, house as int) && self.has_cand(c as int, value)),
    {
        self.candidate_cells_in_house(house, value)
    }
}

/// Appends a character to a string.
#[verifier::external_body]
pub(crate) fn push_char(s: &mut String, c: char)
    ensures
        final(s)@ == old(s)@.push(c),
{
    s.push(c);
}

impl Grid {
    /// No empty cell lacks candidates, no two peers share a value, and every house either
    /// holds each digit or still has a candidate for it.
    pub open spec fn consistent(self) -> bool {
        &&& forall|c: int| 0 <= c < 81 && #[trigger] self.value(c) == 0 ==> self.cands(c) != Set::<u8>::empty()
        &&& forall|c: int| 0 <= c < 81 && #[trigger] self.value(c) != 0 ==> no_peer_has(self.value_seq(), c, self.value(c))
        &&& forall|h: int, v: u8|
            0 <= h < 27 && 1 <= v <= 9 ==> (exists|c: int| in_house(c, h) && #[trigger] self.value(c) == v)
                || #[trigger] self.house_count(h, v) > 0
    }

    /// Candidates never repeat a peer's value, and peers never share a value.
    pub open spec fn state_valid(self) -> bool {
        &&& forall|c: int, b: int|
            0 <= c < 81 && self.value(c) == 0 && sees(c, b) && self.value(b) != 0 ==> !#[trigger] self.cands(c).contains(
                #[trigger] self.value(b),
            )
        &&& forall|c: int, b: int|
            0 <= c < 81 && #[trigger] self.value(c) != 0 && sees(c, b) ==> #[trigger] self.value(b) != self.value(c)
                && !self.cands(b).contains(self.value(c))
    }

    /// Taking a candidate away keeps a state-valid grid state-valid: values stay, and no
    /// cell gains a candidate.
    pub proof fn lemma_remove_keeps_state_valid(old: Grid, new: Grid, cell: int, v: u8)
        requires
            old.wf(),
            new.wf(),
            old.state_valid(),
            0 <= cell < 81,
            new.value_seq() == old.value_seq(),
            new.cand_seq() == old.cand_seq().update(cell, old.cands(cell).remove(v)),
        ensures
            new.state_valid(),
    {
        old.lemma_wf();
        new.lemma_wf();
        assert forall|c: int| 0 <= c < 81 implies #[trigger] new.value(c) == old.value(c) by {
            assert(new.value_seq()[c] == old.value_seq()[c]);
        }
        assert forall|c: int, x: u8| 0 <= c < 81 && #[trigger] new.cands(c).contains(x) implies old.cands(c).contains(x) by {
            assert(new.cand_seq()[c] == new.cands(c));
            assert(old.cand_seq()[c] == old.cands(c));
        }
    }

    /// Whether the grid is consistent (see [`Grid::consistent`]).
    pub fn is_consistent(&self) -> (r: bool)
        requires
            self.wf(),
        ensures
            r == self.consistent(),
    {
        proof {
            self.lemma_wf();
        }
        let mut cell: u8 = 0;
        while cell < 81
            invariant
                cell <= 81,
                self.wf(),
                forall|c: int| 0 <= c < cell && #[trigger] self.value(c) == 0 ==> self.cands(c) != Set::<u8>::empty(),
                forall|c: int| 0 <= c < cell && #[trigger] self.value(c) != 0 ==> no_peer_has(self.value_seq(), c, self.value(c)),
            decreases 81 - cell,
        {
            let value = self.values[cell as usize];
            assert(value == self.value(cell as int));
            if value == 0 {
                if self.candidate_values[cell as usize].is_empty() {
                    proof {
                        assert(self.cands(cell as int) == Set::<u8>::empty());
                    }
                    return false;
                }
            } else {
                let mut b: u8 = 0;
                while b < 81
                    invariant
                        b <= 81,
                        cell < 81,
                        self.wf(),
                        value == self.value(cell as int),
                        value != 0,
                        forall|q: int| 0 <= q < b && sees(cell as int, q) ==> self.value_seq()[q] != value,
                    decreases 81 - b,
                {
                    if cells_see(cell, b) && self.values[b as usize] == value {
                        proof {
                            assert(self.value_seq()[b as int] == value);
                            assert(!no_peer_has(self.value_seq(), cell as int, self.value(cell as int)));
                        }
                        return false;
                    }
                    b = b + 1;
                }
            }
            cell = cell + 1;
        }
        let mut house: u8 = 0;
        while house < 27
            invariant
                house <= 27,
                self.wf(),
                forall|c: int| 0 <= c < 81 && #[trigger] self.value(c) == 0 ==> self.cands(c) != Set::<u8>::empty(),
                forall|c: int| 0 <= c < 81 && #[trigger] self.value(c) != 0 ==> no_peer_has(self.value_seq(), c, self.value(c)),
                forall|h: int, v: u8|
                    0 <= h < house && 1 <= v <= 9 ==> (exists|c: int| in_house(c, h) && #[trigger] self.value(c) == v)
                        || #[trigger] self.house_count(h, v) > 0,
            decreases 27 - house,
        {
            let mut value: u8 = 1;
            while value <= 9
                invariant
                    1 <= value <= 10,
                    house < 27,
                    self.wf(),
                    forall|h: int, v: u8|
                        0 <= h < house && 1 <= v <= 9 ==> (exists|c: int| in_house(c, h) && #[trigger] self.value(c) == v)
                            || #[trigger] self.house_count(h, v) > 0,
                    forall|v: u8|
                        1 <= v < value ==> (exists|c: int| in_house(c, house as int) && #[trigger] self.value(c) == v)
                            || #[trigger] self.house_count(house as int, v) > 0,
                decreases 10 - value,
            {
                let mut is_solved = false;
                let mut c: u8 = 0;
                while c < 81
                    invariant
                        c <= 81,
                        self.wf(),
                        is_solved == exists|x: int| 0 <= x < c && in_house(x, house as int) && #[trigger] self.value(x) == value,
                    decreases 81 - c,
                {
                    assert(self.values@[c as int] == self.value(c as int));
                    if cell_in_house(c, house) && self.values[c as usize] == value {
                        is_solved = true;
                    }
                    c = c + 1;
                }
                if !is_solved && self.get_house_candidate_count(house, value) == 0 {
                    proof {
                        assert(!((exists|c: int| in_house(c, house as int) && #[trigger] self.value(c) == value)
                            || self.house_count(house as int, value) > 0)) by {
                            if exists|c: int| in_house(c, house as int) && #[trigger] self.value(c) == value {
                                let c = choose|c: int| in_house(c, house as int) && #[trigger] self.value(c) == value;
                                assert(0 <= c < 81);
                            }
                        }
                    }
                    return false;
                }
                value = value + 1;
            }
            house = house + 1;
        }
        proof {
            assert forall|h: int, v: u8| 0 <= h < 27 && 1 <= v <= 9 implies (exists|c: int| in_house(c, h) && #[trigger] self.value(c) == v)
                || #[trigger] self.house_count(h, v) > 0 by {}
        }
        true
    }

    /// Cell `i` agrees with `solution`: its value (if any) is the solution's digit, and its
    /// candidates (if any) include that digit.
    pub open spec fn agrees_at(self, solution: Seq<u8>, i: int) -> bool {
        &&& self.value(i) != 0 ==> solution[i] == self.value(i)
        &&& self.cands(i) != Set::<u8>::empty() ==> self.cands(i).contains(solution[i])
    }

    /// Whether every recorded value of the grid agrees with `solution`, and every
    /// non-empty candidate set holds the solution's digit.
    pub fn check_grid_valid(&self, solution: &[u8]) -> (r: bool)
        requires
            self.wf(),
            solution@.len() >= 81,
        ensures
            r == forall|i: int| 0 <= i < 81 ==> #[trigger] self.agrees_at(solution@, i),
    {
        let mut i: usize = 0;
        while i < 81
            invariant
                i <= 81,
                self.wf(),
                solution@.len() >= 81,
                forall|j: int| 0 <= j < i ==> (#[trigger] self.value(j) != 0 ==> solution@[j] == self.value(j)),
            decreases 81 - i,
        {
            let v = self.values[i];
            assert(v == self.value(i as int));
            if v != 0 && solution[i] != v {
                proof {
                    assert(!self.agrees_at(solution@, i as int));
                }
                return false;
            }
            i = i + 1;
        }
        let mut i: usize = 0;
        while i < 81
            invariant
                i <= 81,
                self.wf(),
                solution@.len() >= 81,
                forall|j: int| 0 <= j < 81 ==> (#[trigger] self.value(j) != 0 ==> solution@[j] == self.value(j)),
                forall|j: int| 0 <= j < i ==> #[trigger] self.agrees_at(solution@, j),
            decreases 81 - i,
        {
            let cand_set = self.candidate_values[i];
            assert(cand_set@ == self.cands(i as int));
            if !cand_set.is_empty() {
                let expected = solution[i];
                if !cand_set.contains(expected) {
                    proof {
                        assert(!self.agrees_at(solution@, i as int));
                    }
                    return false;
                }
            }
            i = i + 1;
        }
        true
    }

    /// The first empty cell with the fewest candidates, if any cell is empty.
    pub fn get_min_candidate_cell(&self) -> (r: Option<u8>)
        requires
            self.wf(),
        ensures
            r is None <==> forall|c: int| 0 <= c < 81 ==> #[trigger] self.value(c) != 0,
            r matches Some(c) ==> c < 81 && self.value(c as int) == 0 && (forall|d: int|
                0 <= d < 81 && #[trigger] self.value(d) == 0 ==> self.cands(c as int).len() <= self.cands(d).len())
                && (forall|d: int| 0 <= d < c && #[trigger] self.value(d) == 0 ==> self.cands(c as int).len()
                < self.cands(d).len()),
    {
        let mut least_cell: u8 = 82;
        let mut min_count: u8 = 10;
        let mut cell: u8 = 0;
        while cell < 81
            invariant
                cell <= 81,
                self.wf(),
                least_cell == 82 <==> forall|d: int| 0 <= d < cell ==> #[trigger] self.value(d) != 0,
                least_cell != 82 ==> least_cell < cell && self.value(least_cell as int) == 0 && (min_count as nat)
                    == self.cands(least_cell as int).len() && (forall|d: int|
                    0 <= d < cell && #[trigger] self.value(d) == 0 ==> (min_count as nat) <= self.cands(d).len())
                    && (forall|d: int| 0 <= d < least_cell && #[trigger] self.value(d) == 0 ==> (min_count as nat)
                    < self.cands(d).len()),
                least_cell == 82 ==> min_count == 10,
            decreases 81 - cell,
        {
            assert(self.values@[cell as int] == self.value(cell as int));
            if self.values[cell as usize] != 0 {
                cell = cell + 1;
                continue;
            }
            let candidate_set = self.get_cell_candidate(cell);
            if candidate_set.count() < min_count {
                min_count = candidate_set.count();
                least_cell = cell;
            }
            cell = cell + 1;
        }
        if least_cell > 81 {
            None
        } else {
            Some(least_cell)
        }
    }

    /// Checks [`Grid::state_valid`]; the error names the first violation.
    pub fn check_state_valid(&self) -> (r: Result<(), SudokuError>)
        requires
            self.wf(),
        ensures
            r is Ok <==> self.state_valid(),
            r matches Err(e) ==> e is GridStateError,
    {
        proof {
            self.lemma_wf();
        }
        let mut cell: u8 = 0;
        while cell < 81
            invariant
                cell <= 81,
                self.wf(),
                forall|c: int, b: int|
                    0 <= c < cell && self.value(c) == 0 && sees(c, b) && self.value(b) != 0 ==> !#[trigger] self.cands(c).contains(
                        #[trigger] self.value(b),
                    ),
                forall|c: int, b: int|
                    0 <= c < cell && #[trigger] self.value(c) != 0 && sees(c, b) ==> #[trigger] self.value(b) != self.value(c)
                        && !self.cands(b).contains(self.value(c)),
            decreases 81 - cell,
        {
            let v = self.values[cell as usize];
            let mut b: u8 = 0;
            while b < 81
                invariant
                    b <= 81,
                    cell < 81,
                    self.wf(),
                    v == self.value(cell as int),
                    v == 0 ==> forall|q: int| 0 <= q < b && sees(cell as int, q) && self.value(q) != 0 ==> !#[trigger] self.cands(cell as int).contains(
                        #[trigger] self.value(q),
                    ),
                    v != 0 ==> forall|q: int| 0 <= q < b && sees(cell as int, q) ==> #[trigger] self.value(q) != v
                        && !self.cands(q).contains(v),
                decreases 81 - b,
            {
                assert(self.values@[b as int] == self.value(b as int));
                assert(self.candidate_values@[b as int]@ == self.cands(b as int));
                assert(self.candidate_values@[cell as int]@ == self.cands(cell as int));
                if cells_see(cell, b) {
                    let buddy_value = self.values[b as usize];
                    if v == 0 {
                        if buddy_value != 0 && self.candidate_values[cell as usize].contains(buddy_value) {
                            return Err(SudokuError::grid_state("a candidate repeats the value of a peer"));
                        }
                    } else {
                        if buddy_value == v {
                            return Err(SudokuError::grid_state("two peers share a value"));
                        }
                        if self.candidate_values[b as usize].contains(v) {
                            return Err(SudokuError::grid_state("a peer has the value of a cell as candidate"));
                        }
                    }
                }
                proof {
                    if v != 0 {
                        assert forall|q: int| 0 <= q < b + 1 && sees(cell as int, q) implies #[trigger] self.value(q) != v
                            && !self.cands(q).contains(v) by {
                            if q == b {
                                assert(self.values@[b as int] == self.value(b as int));
                            }
                        }
                    }
                }
                b = b + 1;
            }
            proof {
                assert forall|c: int, b: int|
                    0 <= c < cell + 1 && #[trigger] self.value(c) != 0 && sees(c, b) implies #[trigger] self.value(b)
                    != self.value(c) && !self.cands(b).contains(self.value(c)) by {
                    if c == cell {
                        assert(0 <= b < 81);
                        assert(v == self.value(c));
                        assert(v != 0);
                        assert(self.value(b) != v && !self.cands(b).contains(v));
                    } else {
                        assert(c < cell);
                    }
                }
            }
            cell = cell + 1;
        }
        Ok(())
    }

    /// The values as a line of 81 digits.
    pub fn to_digit_line(&self) -> (r: String)
        requires
            self.wf(),
        ensures
            r@ == digit_line_text(self.value_seq()),
    {
        proof {
            self.lemma_wf();
        }
        let mut digits = String::new();
        let mut i: usize = 0;
        while i < 81
            invariant
                i <= 81,
                self.wf(),
                digits@ == Seq::new(i as nat, |j: int| ((self.value(j) + 48) as u8) as char),
            decreases 81 - i,
        {
            let value = self.values[i];
            push_char(&mut digits, ((value + 48) as u8) as char);
            assert(digits@ =~= Seq::new((i + 1) as nat, |j: int| ((self.value(j) + 48) as u8) as char));
            i = i + 1;
        }
        digits
    }
}

/// The text [`Grid::to_digit_line`] writes for values `d`.
pub open spec fn digit_line_text(d: Seq<u8>) -> Seq<char> {
    Seq::new(81, |i: int| ((d[i] + 48) as u8) as char)
}

/// Reading back the digit line of a grid without conflicts gives its values: the line
/// is one that [`Grid::new_from_singline_digit`] accepts, and it stands for the grid's
/// values.
pub proof fn lemma_digit_line_reads_back(g: Grid)
    requires
        g.wf(),
        conflict_free(g.value_seq()),
    ensures
        ({
            let b = vstd::utf8::encode_utf8(digit_line_text(g.value_seq()));
            &&& b.len() == 81
            &&& forall|i: int| 0 <= i < 81 ==> #[trigger] line_byte_ok(b[i])
            &&& line_values(b) == g.value_seq()
        }),
{
    g.lemma_wf();
    let t = digit_line_text(g.value_seq());
    assert(vstd::utf8::is_ascii_chars(t)) by {
        assert forall|i: int| 0 <= i < t.len() implies '\0' <= #[trigger] t[i] <= '\u{7f}' by {
            assert(g.value_seq()[i] == g.value(i));
        }
    }
    vstd::utf8::is_ascii_chars_encode_utf8(t);
    let b = vstd::utf8::encode_utf8(t);
    assert forall|i: int| 0 <= i < 81 implies #[trigger] line_byte_ok(b[i]) && line_values(b)[i] == g.value_seq()[i] by {
        assert(t[i] as u8 == b[i]);
        assert(g.value_seq()[i] == g.value(i));
    }
    assert(line_values(b) =~= g.value_seq());
}

/// No two peers hold the same digit.
pub open spec fn conflict_free(d: Seq<u8>) -> bool {
    forall|a: int, b: int| 0 <= a < 81 && sees(a, b) && #[trigger] d[a] != 0 ==> #[trigger] d[b] != d[a]
}

/// Candidates of a grid built from values `d`: a filled cell has none, an empty cell
/// has every digit no peer holds.
pub open spec fn fresh_cands(d: Seq<u8>) -> Seq<Set<u8>> {
    Seq::new(
        81,
        |c: int|
            if d[c] != 0 {
                Set::<u8>::empty()
            } else {
                free_digits(d, c)
            },
    )
}

/// The first `i` values of `d`, the rest empty.
pub open spec fn prefix_values(d: Seq<u8>, i: int) -> Seq<u8> {
    Seq::new(
        81,
        |c: int|
            if c < i {
                d[c]
            } else {
                0
            },
    )
}

impl Grid {
    /// The grid holds exactly the values `d` with givens `flags` on filled cells and the
    /// candidates implied by the values.
    pub open spec fn built_from(self, d: Seq<u8>, flags: Seq<bool>) -> bool {
        &&& self.value_seq() == d
        &&& self.cand_seq() == fresh_cands(d)
        &&& self.given_seq() == Seq::new(81, |c: int| d[c] != 0 && flags[c])
    }
}

/// Builds a grid by writing the values `d` in cell order, each marked given per `flags`;
/// `None` when two peers share a digit.
pub(crate) fn grid_from_cells(d: &Vec<u8>, flags: &Vec<bool>) -> (r: Option<Grid>)
    requires
        d@.len() == 81,
        flags@.len() == 81,
        forall|i: int| 0 <= i < 81 ==> #[trigger] d@[i] <= 9,
    ensures
        r is Some <==> conflict_free(d@),
        r matches Some(g) ==> g.wf() && g.built_from(d@, flags@),
{
    let mut grid = Grid::default();
    proof {
        grid.lemma_wf();
        assert(prefix_values(d@, 0) =~= grid.value_seq());
        assert forall|c: int| 0 <= c < 81 implies #[trigger] free_digits(prefix_values(d@, 0), c) == all_digits() by {
            assert(free_digits(prefix_values(d@, 0), c) =~= all_digits());
        }
        assert(grid.cand_seq() =~= fresh_cands(prefix_values(d@, 0)));
        assert(grid.given_seq() =~= Seq::new(81, |c: int| c < 0 && d@[c] != 0 && flags@[c]));
    }
    let mut i: usize = 0;
    while i < 81
        invariant
            i <= 81,
            d@.len() == 81,
            flags@.len() == 81,
            forall|j: int| 0 <= j < 81 ==> #[trigger] d@[j] <= 9,
            grid.wf(),
            grid.value_seq() == prefix_values(d@, i as int),
            grid.cand_seq() == fresh_cands(prefix_values(d@, i as int)),
            grid.given_seq() == Seq::new(81, |c: int| c < i && d@[c] != 0 && flags@[c]),
            forall|a: int, b: int| 0 <= a < i && 0 <= b < i && sees(a, b) && #[trigger] d@[a] != 0 ==> #[trigger] d@[b] != d@[a],
        decreases 81 - i,
    {
        let v = d[i];
        let ghost pv = prefix_values(d@, i as int);
        proof {
            grid.lemma_wf();
            assert(grid.value(i as int) == 0);
            assert(!grid.given(i as int));
        }
        if v != 0 {
            if !grid.set_value(i as u8, v, flags[i]) {
                proof {
                    let b = choose|b: int| 0 <= b < 81 && sees(i as int, b) && pv[b] == v;
                    assert(b < i);
                    assert(!conflict_free(d@)) by {
                        assert(sees(b, i as int));
                        assert(d@[b] != 0);
                    }
                }
                return None;
            }
            proof {
                let npv = prefix_values(d@, i + 1);
                assert(pv.update(i as int, v) =~= npv);
                assert forall|b: int| 0 <= b < 81 implies #[trigger] grid.cand_seq()[b] == fresh_cands(npv)[b] by {
                    if b != i && sees(i as int, b) && pv[b] == 0 {
                        assert(free_digits(pv, b).remove(v) =~= free_digits(npv, b)) by {
                            assert forall|p: u8| free_digits(npv, b).contains(p) implies free_digits(pv, b).contains(p) by {
                                assert forall|q: int| 0 <= q < 81 && sees(b, q) implies pv[q] != p by {
                                    if q != i {
                                        assert(npv[q] == pv[q]);
                                    }
                                }
                            }
                            assert forall|p: u8| free_digits(pv, b).contains(p) && p != v implies free_digits(npv, b).contains(p) by {
                                assert forall|q: int| 0 <= q < 81 && sees(b, q) implies npv[q] != p by {
                                    if q != i {
                                        assert(npv[q] == pv[q]);
                                    }
                                }
                            }
                            assert(sees(b, i as int));
                            assert(npv[i as int] == v);
                        }
                    }
                    if b != i && !sees(i as int, b) && pv[b] == 0 {
                        assert(free_digits(pv, b) =~= free_digits(npv, b)) by {
                            assert forall|p: u8| free_digits(npv, b).contains(p) implies free_digits(pv, b).contains(p) by {
                                assert forall|q: int| 0 <= q < 81 && sees(b, q) implies pv[q] != p by {
                                    if q != i {
                                        assert(npv[q] == pv[q]);
                                    } else {
                                        assert(sees(i as int, b));
                                    }
                                }
                            }
                            assert forall|p: u8| free_digits(pv, b).contains(p) implies free_digits(npv, b).contains(p) by {
                                assert forall|q: int| 0 <= q < 81 && sees(b, q) implies npv[q] != p by {
                                    if q == i {
                                        assert(sees(i as int, b));
                                    }
                                }
                            }
                        }
                    }
                    if b != i && pv[b] != 0 {
                        assert(Set::<u8>::empty().remove(v) =~= Set::<u8>::empty());
                    }
                }
                assert(grid.cand_seq() =~= fresh_cands(npv));
                assert(grid.given_seq() =~= Seq::new(81, |c: int| c < i + 1 && d@[c] != 0 && flags@[c]));
                assert forall|a: int, b: int| 0 <= a < i + 1 && 0 <= b < i + 1 && sees(a, b) && #[trigger] d@[a] != 0 implies #[trigger] d@[b] != d@[a] by {
                    if a == i {
                        assert(pv[b] == d@[b]);
                    } else if b == i {
                        assert(sees(b, a));
                        assert(pv[a] == d@[a]);
                    }
                }
            }
        } else {
            proof {
                assert(pv =~= prefix_values(d@, i + 1));
                assert(grid.given_seq() =~= Seq::new(81, |c: int| c < i + 1 && d@[c] != 0 && flags@[c]));
            }
        }
        i = i + 1;
    }
    proof {
        assert(prefix_values(d@, 81) =~= d@);
        assert(grid.given_seq() =~= Seq::new(81, |c: int| d@[c] != 0 && flags@[c]));
        assert forall|a: int, b: int| 0 <= a < 81 && sees(a, b) && #[trigger] d@[a] != 0 implies #[trigger] d@[b] != d@[a] by {
            assert(0 <= b < 81);
        }
    }
    Some(grid)
}

/// A byte of the single-line format: `.` or a decimal digit.
pub open spec fn line_byte_ok(b: u8) -> bool {
    b == 46 || 48 <= b <= 57
}

/// The value a single-line byte stands for (`.` and `0` are empty).
pub open spec fn line_byte_value(b: u8) -> u8 {
    if b == 46 {
        0
    } else {
        (b - 48) as u8
    }
}

/// The values a single line stands for.
pub open spec fn line_values(s: Seq<u8>) -> Seq<u8> {
    Seq::new(s.len(), |i: int| line_byte_value(s[i]))
}

/// The grid described by a line of candidates per cell: cells with a pencil mark list get
/// exactly those digits, the others keep the candidates implied by the values.
pub open spec fn cands_with_marks(d: Seq<u8>, pms: Seq<Seq<u8>>) -> Seq<Set<u8>> {
    Seq::new(
        81,
        |c: int|
            if pms[c].len() > 0 {
                pms[c].to_set()
            } else {
                fresh_cands(d)[c]
            },
    )
}

/// The pencil marks `pms` fit the values `d`: every non-empty list belongs to an empty
/// cell and only names free digits.
pub open spec fn marks_fit(d: Seq<u8>, pms: Seq<Seq<u8>>) -> bool {
    forall|c: int|
        0 <= c < 81 && #[trigger] pms[c].len() > 0 ==> d[c] == 0 && forall|k: int|
            0 <= k < pms[c].len() ==> 1 <= #[trigger] pms[c][k] <= 9 && free_digits(d, c).contains(pms[c][k])
}

impl Grid {
    /// Reads a line of 81 cells, `1`..`9` for givens and `.` or `0` for empty cells.
    pub fn new_from_singline_digit(digits: &str) -> (r: Result<Grid, SudokuError>)
        ensures
            r is Ok <==> digits.spec_bytes().len() == 81 && (forall|i: int|
                0 <= i < 81 ==> #[trigger] line_byte_ok(digits.spec_bytes()[i])) && conflict_free(
                line_values(digits.spec_bytes()),
            ),
            r matches Ok(g) ==> g.wf() && g.built_from(
                line_values(digits.spec_bytes()),
                Seq::new(81, |i: int| true),
            ),
            r matches Err(e) ==> e is InvalidInput,
    {
        let bytes = digits.as_bytes();
        if bytes.len() != 81 {
            return Err(SudokuError::invalid_input("input digit need 81 character"));
        }
        let mut d: Vec<u8> = Vec::new();
        let mut flags: Vec<bool> = Vec::new();
        let mut i: usize = 0;
        while i < 81
            invariant
                i <= 81,
                bytes@ == digits.spec_bytes(),
                bytes@.len() == 81,
                d@.len() == i,
                flags@.len() == i,
                forall|j: int| 0 <= j < i ==> #[trigger] line_byte_ok(bytes@[j]),
                forall|j: int| 0 <= j < i ==> #[trigger] d@[j] == line_byte_value(bytes@[j]),
                forall|j: int| 0 <= j < i ==> #[trigger] d@[j] <= 9,
                forall|j: int| 0 <= j < i ==> #[trigger] flags@[j],
            decreases 81 - i,
        {
            let c = bytes[i];
            if c == 46 || c == 48 {
                d.push(0);
            } else if 49 <= c && c <= 57 {
                d.push(c - 48);
            } else {
                proof {
                    assert(!line_byte_ok(digits.spec_bytes()[i as int]));
                }
                return Err(SudokuError::invalid_input("got invalid character"));
            }
            flags.push(true);
            i = i + 1;
        }
        proof {
            assert(d@ =~= line_values(digits.spec_bytes()));
            assert(flags@ =~= Seq::new(81, |i: int| true));
        }
        match grid_from_cells(&d, &flags) {
            Some(g) => Ok(g),
            None => Err(SudokuError::invalid_input("digit conflicts with another value")),
        }
    }

    /// Builds a grid from 81 values, 81 pencil-mark lists and 81 given marks.
    pub fn new_from_digit_and_pms(digits: &[u8], pms: Vec<Vec<u8>>, is_given: Vec<bool>) -> (r: Result<Grid, SudokuError>)
        ensures
            r is Ok <==> digits@.len() == 81 && pms@.len() == 81 && is_given@.len() == 81
                && (forall|i: int| 0 <= i < 81 ==> #[trigger] digits@[i] <= 9)
                && (forall|i: int| 0 <= i < 81 ==> #[trigger] digits@[i] != 0 || !is_given@[i])
                && conflict_free(digits@)
                && marks_fit(digits@, pms@.map_values(|m: Vec<u8>| m@)),
            r matches Ok(g) ==> g.wf() && g.value_seq() == digits@ && g.given_seq() == Seq::new(
                81,
                |c: int| digits@[c] != 0 && is_given@[c],
            ) && g.cand_seq() == cands_with_marks(digits@, pms@.map_values(|m: Vec<u8>| m@)),
            r matches Err(e) ==> e is InvalidInput,
    {
        let ghost pm = pms@.map_values(|m: Vec<u8>| m@);
        if digits.len() != 81 || pms.len() != 81 || is_given.len() != 81 {
            return Err(SudokuError::invalid_input("input needs 81 digits, 81 pms, and 81 given flags"));
        }
        let mut d: Vec<u8> = Vec::new();
        let mut i: usize = 0;
        while i < 81
            invariant
                i <= 81,
                digits@.len() == 81,
                is_given@.len() == 81,
                d@ == digits@.subrange(0, i as int),
                forall|j: int| 0 <= j < i ==> #[trigger] digits@[j] <= 9,
                forall|j: int| 0 <= j < i ==> #[trigger] digits@[j] != 0 || !is_given@[j],
            decreases 81 - i,
        {
            let v = digits[i];
            if v > 9 {
                return Err(SudokuError::invalid_input("digit is out of range"));
            }
            if v == 0 && is_given[i] {
                return Err(SudokuError::invalid_input("empty cell cannot be marked as given"));
            }
            d.push(v);
            assert(d@ =~= digits@.subrange(0, i + 1));
            i = i + 1;
        }
        assert(d@ =~= digits@);
        let mut grid = match grid_from_cells(&d, &is_given) {
            Some(g) => g,
            None => {
                return Err(SudokuError::invalid_input("digit conflicts with another value"));
            },
        };
        proof {
            grid.lemma_wf();
        }
        let ghost g0 = grid;
        let mut cell: usize = 0;
        while cell < 81
            invariant
                cell <= 81,
                pms@.len() == 81,
                pm == pms@.map_values(|m: Vec<u8>| m@),
                digits@.len() == 81,
                g0.wf(),
                g0.built_from(digits@, is_given@),
                grid.shape_ok(),
                grid.values@ == g0.values@,
                grid.is_given@ == g0.is_given@,
                grid.unsolved_count == g0.unsolved_count,
                grid.solved_cells_empty(),
                forall|c: int| 0 <= c < cell && #[trigger] pm[c].len() > 0 ==> digits@[c] == 0 && forall|k: int|
                    0 <= k < pm[c].len() ==> 1 <= #[trigger] pm[c][k] <= 9 && free_digits(digits@, c).contains(pm[c][k]),
                grid.cand_seq() == Seq::new(
                    81,
                    |c: int|
                        if c < cell && pm[c].len() > 0 {
                            pm[c].to_set()
                        } else {
                            fresh_cands(digits@)[c]
                        },
                ),
            decreases 81 - cell,
        {
            let m = &pms[cell];
            assert(m@ == pm[cell as int]);
            if m.len() > 0 {
                if grid.values[cell] != 0 {
                    proof {
                        assert(g0.value(cell as int) != 0);
                        assert(pm[cell as int].len() > 0);
                        assert(!marks_fit(digits@, pm));
                    }
                    return Err(SudokuError::invalid_input("solved cell cannot have candidates"));
                }
                let mut k: usize = 0;
                #[verifier::loop_isolation(false)]
                while k < m.len()
                    invariant
                        k <= m@.len(),
                        cell < 81,
                        forall|j: int| 0 <= j < k ==> 1 <= #[trigger] m@[j] <= 9,
                    decreases m@.len() - k,
                {
                    if !(1 <= m[k] && m[k] <= 9) {
                        proof {
                            assert(pm[cell as int][k as int] == m@[k as int]);
                            assert(pm[cell as int].len() > 0);
                            assert(!marks_fit(digits@, pm));
                        }
                        return Err(SudokuError::invalid_input("cell has invalid candidates"));
                    }
                    k = k + 1;
                }
                let candidates = DigitSet::new_from_values(m.as_slice());
                let current = grid.candidate_values[cell];
                assert(current@ == grid.cand_seq()[cell as int]);
                assert(g0.value(cell as int) == 0);
                let mut k: usize = 0;
                #[verifier::loop_isolation(false)]
                while k < m.len()
                    invariant
                        k <= m@.len(),
                        cell < 81,
                        current@ == fresh_cands(digits@)[cell as int],
                        forall|j: int| 0 <= j < k ==> #[trigger] current@.contains(m@[j]),
                    decreases m@.len() - k,
                {
                    if !current.contains(m[k]) {
                        proof {
                            assert(pm[cell as int][k as int] == m@[k as int]);
                            assert(pm[cell as int].len() > 0);
                            assert(!free_digits(digits@, cell as int).contains(m@[k as int]));
                            assert(!marks_fit(digits@, pm));
                        }
                        return Err(SudokuError::invalid_input("cell has invalid candidates"));
                    }
                    k = k + 1;
                }
                proof {
                    assert(candidates@ =~= pm[cell as int].to_set()) by {
                        assert forall|v: u8| pm[cell as int].to_set().contains(v) implies 1 <= v <= 9 by {
                            let j = choose|j: int| 0 <= j < m@.len() && m@[j] == v;
                        }
                    }
                    assert(g0.value(cell as int) == 0);
                    assert forall|j: int| 0 <= j < pm[cell as int].len() implies 1 <= #[trigger] pm[cell as int][j] <= 9
                        && free_digits(digits@, cell as int).contains(pm[cell as int][j]) by {
                        assert(current@.contains(m@[j]));
                    }
                }
                let ghost before = grid.cand_seq();
                grid.candidate_values.set(cell, candidates);
                proof {
                    assert(grid.cand_seq() =~= before.update(cell as int, pm[cell as int].to_set()));
                }
            }
            proof {
                assert(grid.cand_seq() =~= Seq::new(
                    81,
                    |c: int|
                        if c < cell + 1 && pm[c].len() > 0 {
                            pm[c].to_set()
                        } else {
                            fresh_cands(digits@)[c]
                        },
                ));
            }
            cell = cell + 1;
        }
        grid.rebuild_house_candidate_count();
        proof {
            assert(grid.cand_seq() =~= cands_with_marks(digits@, pm));
        }
        Ok(grid)
    }
}

/// Number of `:` bytes among the first `i` bytes of `s`.
pub open spec fn colons_before(s: Seq<u8>, i: int) -> nat
    decreases i,
{
    if i <= 0 {
        0
    } else {
        colons_before(s, i - 1) + if s[i - 1] == 58 {
            1nat
        } else {
            0nat
        }
    }
}

/// `a` is where the fourth `:`-separated field of `s` starts.
pub open spec fn is_field_start(s: Seq<u8>, a: int) -> bool {
    1 <= a <= s.len() && s[a - 1] == 58 && colons_before(s, a) == 3
}

/// `b` is where the field starting at `a` ends.
pub open spec fn is_field_end(s: Seq<u8>, a: int, b: int) -> bool {
    a <= b <= s.len() && (b == s.len() || s[b] == 58) && forall|j: int| a <= j < b ==> s[j] != 58
}

/// The fourth `:`-separated field of a HoDoKu line (the cells), if there is one.
pub open spec fn hodoku_field(s: Seq<u8>) -> Option<Seq<u8>> {
    if exists|a: int| is_field_start(s, a) {
        let a = choose|a: int| is_field_start(s, a);
        let b = choose|b: int| is_field_end(s, a, b);
        Some(s.subrange(a, b))
    } else {
        None
    }
}

/// The cells of a HoDoKu cell field: `+d` is a placed digit, `d` a given digit, `.` an
/// empty cell, and a space ends the field; anything else is an error.
pub open spec fn hodoku_cells(f: Seq<u8>) -> Option<Seq<(u8, bool)>>
    decreases f.len(),
{
    if f.len() == 0 {
        Some(Seq::empty())
    } else if f[0] == 43 {
        if f.len() >= 2 && 49 <= f[1] <= 57 {
            match hodoku_cells(f.subrange(2, f.len() as int)) {
                Some(rest) => Some(seq![(((f[1] - 48) as u8), false)] + rest),
                None => None,
            }
        } else {
            None
        }
    } else if 49 <= f[0] <= 57 {
        match hodoku_cells(f.subrange(1, f.len() as int)) {
            Some(rest) => Some(seq![(((f[0] - 48) as u8), true)] + rest),
            None => None,
        }
    } else if f[0] == 46 {
        match hodoku_cells(f.subrange(1, f.len() as int)) {
            Some(rest) => Some(seq![(0u8, false)] + rest),
            None => None,
        }
    } else if f[0] == 32 {
        Some(Seq::empty())
    } else {
        None
    }
}

pub open spec fn cell_values(cells: Seq<(u8, bool)>) -> Seq<u8> {
    cells.map_values(|p: (u8, bool)| p.0)
}

pub open spec fn cell_flags(cells: Seq<(u8, bool)>) -> Seq<bool> {
    cells.map_values(|p: (u8, bool)| p.1)
}

/// Prefixes `acc` to a parse result.
pub open spec fn join_cells(acc: Seq<(u8, bool)>, rest: Option<Seq<(u8, bool)>>) -> Option<Seq<(u8, bool)>> {
    match rest {
        Some(r) => Some(acc + r),
        None => None,
    }
}

proof fn lemma_colons_before_step(s: Seq<u8>, i: int)
    requires
        0 <= i,
    ensures
        colons_before(s, i + 1) == colons_before(s, i) + if s[i] == 58 {
            1nat
        } else {
            0nat
        },
{
}

proof fn lemma_colons_mono(s: Seq<u8>, i: int, j: int)
    requires
        0 <= i <= j,
    ensures
        colons_before(s, i) <= colons_before(s, j),
    decreases j - i,
{
    if i < j {
        lemma_colons_mono(s, i, j - 1);
    }
}

/// Finds the fourth `:`-separated field of `s`.
fn find_hodoku_field(s: &[u8]) -> (r: Option<(usize, usize)>)
    ensures
        r is None <==> !exists|a: int| is_field_start(s@, a),
        r matches Some(p) ==> is_field_start(s@, p.0 as int) && is_field_end(s@, p.0 as int, p.1 as int),
{
    let mut count: usize = 0;
    let mut i: usize = 0;
    while i < s.len() && count < 3
        invariant
            i <= s@.len(),
            count == colons_before(s@, i as int),
            count <= 3,
            count < 3 ==> forall|a: int| 1 <= a <= i ==> colons_before(s@, a) < 3,
            count == 3 ==> is_field_start(s@, i as int),
        decreases s@.len() - i,
    {
        proof {
            lemma_colons_before_step(s@, i as int);
        }
        if s[i] == 58 {
            count = count + 1;
        }
        i = i + 1;
    }
    if count < 3 {
        proof {
            assert forall|a: int| !is_field_start(s@, a) by {
                if 1 <= a <= s@.len() {
                    lemma_colons_mono(s@, a, s@.len() as int);
                }
            }
        }
        return None;
    }
    let start = i;
    let mut end = i;
    while end < s.len() && s[end] != 58
        invariant
            start <= end <= s@.len(),
            forall|j: int| start <= j < end ==> s@[j] != 58,
        decreases s@.len() - end,
    {
        end = end + 1;
    }
    Some((start, end))
}

proof fn lemma_field_unique(s: Seq<u8>, a: int, b: int)
    requires
        is_field_start(s, a),
        is_field_end(s, a, b),
    ensures
        hodoku_field(s) == Some(s.subrange(a, b)),
{
    let a2 = choose|a: int| is_field_start(s, a);
    if a2 != a {
        if a2 < a {
            lemma_colons_mono(s, a2, a - 1);
            lemma_colons_before_step(s, a - 1);
        } else {
            lemma_colons_mono(s, a, a2 - 1);
            lemma_colons_before_step(s, a2 - 1);
        }
    }
    let b2 = choose|b: int| is_field_end(s, a, b);
    if b2 != b {
        if b2 < b {
            assert(s[b2] == 58);
        } else {
            assert(s[b] == 58);
        }
    }
}

impl Grid {
    /// Reads the cells of a HoDoKu line (`:type:technique:cells:...`).
    pub fn new_from_hodoku_line(input: &str) -> (r: Result<Grid, SudokuError>)
        ensures
            r is Ok <==> (hodoku_field(input.spec_bytes()) matches Some(f) && hodoku_cells(f) matches Some(cells)
                && cells.len() == 81 && conflict_free(cell_values(cells))),
            r matches Ok(g) ==> g.wf() && (hodoku_field(input.spec_bytes()) matches Some(f)
                && hodoku_cells(f) matches Some(cells) && g.built_from(cell_values(cells), cell_flags(cells))),
            r matches Err(e) ==> e is InvalidInput,
    {
        let bytes = input.as_bytes();
        let (start, end) = match find_hodoku_field(bytes) {
            Some(p) => p,
            None => {
                return Err(SudokuError::invalid_input("invalid HoDoKu input"));
            },
        };
        proof {
            lemma_field_unique(bytes@, start as int, end as int);
        }
        let ghost f = bytes@.subrange(start as int, end as int);
        assert(input.spec_bytes() == bytes@);
        let mut d: Vec<u8> = Vec::new();
        let mut flags: Vec<bool> = Vec::new();
        let ghost mut acc: Seq<(u8, bool)> = Seq::empty();
        let mut i = start;
        let mut stop = false;
        proof {
            assert(bytes@.subrange(start as int, end as int) == f);
            assert(Seq::<(u8, bool)>::empty() + Seq::<(u8, bool)>::empty() =~= Seq::<(u8, bool)>::empty());
            if let Some(r) = hodoku_cells(f) {
                assert(Seq::<(u8, bool)>::empty() + r =~= r);
            }
        }
        while i < end && !stop
            invariant
                start <= i <= end <= bytes@.len(),
                f == bytes@.subrange(start as int, end as int),
                d@.len() == acc.len(),
                flags@.len() == acc.len(),
                d@ == cell_values(acc),
                flags@ == cell_flags(acc),
                acc.len() <= 81,
                forall|j: int| 0 <= j < d@.len() ==> #[trigger] d@[j] <= 9,
                hodoku_field(input.spec_bytes()) == Some(f),
                !stop ==> hodoku_cells(f) == join_cells(acc, hodoku_cells(bytes@.subrange(i as int, end as int))),
                stop ==> hodoku_cells(f) == Some(acc),
            decreases end - i + if stop { 0usize } else { 1usize },
        {
            let c = bytes[i];
            let ghost rest = bytes@.subrange(i as int, end as int);
            assert(rest[0] == c);
            if c == 43 {
                if i + 1 < end && 49 <= bytes[i + 1] && bytes[i + 1] <= 57 {
                    let ghost t = seq![(((rest[1] - 48) as u8), false)];
                    proof {
                        assert(rest[1] == bytes@[i + 1]);
                        assert(rest.subrange(2, rest.len() as int) =~= bytes@.subrange(i + 2, end as int));
                        assert(hodoku_cells(rest) == join_cells(t, hodoku_cells(bytes@.subrange(i + 2, end as int))));
                    }
                    if d.len() >= 81 {
                        proof {
                            lemma_join_len(acc, t, hodoku_cells(bytes@.subrange(i + 2, end as int)));
                        }
                        return Err(SudokuError::invalid_input("conflicting HoDoKu value"));
                    }
                    d.push(bytes[i + 1] - 48);
                    flags.push(false);
                    proof {
                        lemma_join_assoc(acc, t, hodoku_cells(bytes@.subrange(i + 2, end as int)));
                        acc = acc + t;
                        assert(d@ =~= cell_values(acc));
                        assert(flags@ =~= cell_flags(acc));
                    }
                    i = i + 2;
                } else {
                    proof {
                        if i + 1 < end {
                            assert(rest[1] == bytes@[i + 1]);
                        }
                        assert(hodoku_cells(rest) is None);
                    }
                    return Err(SudokuError::invalid_input("invalid HoDoKu value"));
                }
            } else if 49 <= c && c <= 57 {
                let ghost t = seq![(((c - 48) as u8), true)];
                proof {
                    assert(rest.subrange(1, rest.len() as int) =~= bytes@.subrange(i + 1, end as int));
                    assert(hodoku_cells(rest) == join_cells(t, hodoku_cells(bytes@.subrange(i + 1, end as int))));
                }
                if d.len() >= 81 {
                    proof {
                        lemma_join_len(acc, t, hodoku_cells(bytes@.subrange(i + 1, end as int)));
                    }
                    return Err(SudokuError::invalid_input("conflicting HoDoKu given"));
                }
                d.push(c - 48);
                flags.push(true);
                proof {
                    lemma_join_assoc(acc, t, hodoku_cells(bytes@.subrange(i + 1, end as int)));
                    acc = acc + t;
                    assert(d@ =~= cell_values(acc));
                    assert(flags@ =~= cell_flags(acc));
                }
                i = i + 1;
            } else if c == 46 {
                let ghost t = seq![(0u8, false)];
                proof {
                    assert(rest.subrange(1, rest.len() as int) =~= bytes@.subrange(i + 1, end as int));
                    assert(hodoku_cells(rest) == join_cells(t, hodoku_cells(bytes@.subrange(i + 1, end as int))));
                }
                if d.len() >= 81 {
                    proof {
                        lemma_join_len(acc, t, hodoku_cells(bytes@.subrange(i + 1, end as int)));
                    }
                    return Err(SudokuError::invalid_input("HoDoKu input has more than 81 cells"));
                }
                d.push(0);
                flags.push(false);
                proof {
                    lemma_join_assoc(acc, t, hodoku_cells(bytes@.subrange(i + 1, end as int)));
                    acc = acc + t;
                    assert(d@ =~= cell_values(acc));
                    assert(flags@ =~= cell_flags(acc));
                }
                i = i + 1;
            } else if c == 32 {
                proof {
                    assert(hodoku_cells(rest) == Some(Seq::<(u8, bool)>::empty()));
                    assert(acc + Seq::<(u8, bool)>::empty() =~= acc);
                }
                stop = true;
            } else {
                proof {
                    assert(hodoku_cells(rest) is None);
                }
                return Err(SudokuError::invalid_input("invalid input char in input"));
            }
        }
        proof {
            if !stop {
                assert(bytes@.subrange(i as int, end as int) =~= Seq::<u8>::empty());
                assert(acc + Seq::<(u8, bool)>::empty() =~= acc);
            }
            assert(hodoku_cells(f) == Some(acc));
            assert(input.spec_bytes() == bytes@);
        }
        if d.len() != 81 {
            return Err(SudokuError::invalid_input("HoDoKu input needs 81 cells"));
        }
        match grid_from_cells(&d, &flags) {
            Some(g) => Ok(g),
            None => Err(SudokuError::invalid_input("conflicting HoDoKu value")),
        }
    }
}

proof fn lemma_join_assoc(acc: Seq<(u8, bool)>, t: Seq<(u8, bool)>, rest: Option<Seq<(u8, bool)>>)
    ensures
        join_cells(acc, join_cells(t, rest)) == join_cells(acc + t, rest),
{
    if let Some(r) = rest {
        assert(acc + (t + r) =~= (acc + t) + r);
    }
}

proof fn lemma_join_len(acc: Seq<(u8, bool)>, t: Seq<(u8, bool)>, rest: Option<Seq<(u8, bool)>>)
    requires
        acc.len() >= 81,
        t.len() >= 1,
    ensures
        join_cells(acc, join_cells(t, rest)) matches Some(r) ==> r.len() > 81,
{
}

/// ASCII whitespace.
pub open spec fn is_ws(b: u8) -> bool {
    b == 32 || 9 <= b <= 13
}

/// Separates the cells of a matrix row: whitespace or `|`.
pub open spec fn is_sep(b: u8) -> bool {
    is_ws(b) || b == 124
}

/// Stops a run: a newline when `nl`, else a separator.
pub open spec fn stops(b: u8, nl: bool) -> bool {
    if nl {
        b == 10
    } else {
        is_sep(b)
    }
}

/// Length of the longest prefix of `s` in which no byte stops a run.
pub open spec fn run_len(s: Seq<u8>, nl: bool) -> int
    decreases s.len(),
{
    if s.len() == 0 || stops(s[0], nl) {
        0
    } else {
        1 + run_len(s.subrange(1, s.len() as int), nl)
    }
}

proof fn lemma_run_len_bounds(s: Seq<u8>, nl: bool)
    ensures
        0 <= run_len(s, nl) <= s.len(),
        run_len(s, nl) < s.len() ==> stops(s[run_len(s, nl)], nl),
        forall|j: int| 0 <= j < run_len(s, nl) ==> !stops(#[trigger] s[j], nl),
    decreases s.len(),
{
    if s.len() > 0 && !stops(s[0], nl) {
        let t = s.subrange(1, s.len() as int);
        lemma_run_len_bounds(t, nl);
        assert forall|j: int| 0 <= j < run_len(s, nl) implies !stops(#[trigger] s[j], nl) by {
            if j > 0 {
                assert(s[j] == t[j - 1]);
            }
        }
    }
}

/// End of the first line of `s`.
pub open spec fn line_end(s: Seq<u8>) -> int {
    run_len(s, true)
}

/// End of the first cell text of `s`.
pub open spec fn token_end(s: Seq<u8>) -> int {
    run_len(s, false)
}

/// The cell texts of a line: maximal runs of bytes that are neither whitespace nor `|`.
pub open spec fn line_tokens(l: Seq<u8>) -> Seq<Seq<u8>>
    decreases l.len(),
{
    if l.len() == 0 {
        Seq::empty()
    } else if is_sep(l[0]) {
        line_tokens(l.subrange(1, l.len() as int))
    } else {
        let k = token_end(l);
        if 0 < k <= l.len() {
            seq![l.subrange(0, k)] + line_tokens(l.subrange(k, l.len() as int))
        } else {
            Seq::empty()
        }
    }
}

/// Number of whitespace bytes that open `l`.
pub open spec fn ws_len(l: Seq<u8>) -> int
    decreases l.len(),
{
    if l.len() == 0 || !is_ws(l[0]) {
        0
    } else {
        1 + ws_len(l.subrange(1, l.len() as int))
    }
}

/// A matrix row: its first byte that is not whitespace is `|`.
pub open spec fn is_matrix_row(l: Seq<u8>) -> bool {
    ws_len(l) < l.len() && l[ws_len(l)] == 124
}

proof fn lemma_ws_len_bounds(l: Seq<u8>)
    ensures
        0 <= ws_len(l) <= l.len(),
    decreases l.len(),
{
    if l.len() > 0 && is_ws(l[0]) {
        lemma_ws_len_bounds(l.subrange(1, l.len() as int));
    }
}

/// Items joined onto the items read so far.
pub open spec fn prepend_items(acc: Seq<Seq<u8>>, rest: Option<Seq<Seq<u8>>>) -> Option<Seq<Seq<u8>>> {
    match rest {
        Some(b) => Some(acc + b),
        None => None,
    }
}

/// A cell text made only of digits `1..=9`.
pub open spec fn is_digit_token(t: Seq<u8>) -> bool {
    forall|j: int| 0 <= j < t.len() ==> 49 <= #[trigger] t[j] <= 57
}

/// The cell texts of a matrix printout, line by line; `None` when a row does not hold
/// exactly nine cells of digits.
pub open spec fn matrix_items(s: Seq<u8>) -> Option<Seq<Seq<u8>>>
    decreases s.len(),
{
    let e = line_end(s);
    if 0 <= e <= s.len() {
        let l = s.subrange(0, e);
        let here: Option<Seq<Seq<u8>>> = if is_matrix_row(l) {
            let t = line_tokens(l);
            if t.len() == 9 && forall|j: int| 0 <= j < 9 ==> is_digit_token(#[trigger] t[j]) {
                Some(t)
            } else {
                None
            }
        } else {
            Some(Seq::empty())
        };
        let rest: Option<Seq<Seq<u8>>> = if e < s.len() {
            matrix_items(s.subrange(e + 1, s.len() as int))
        } else {
            Some(Seq::empty())
        };
        match (here, rest) {
            (Some(a), Some(b)) => Some(a + b),
            _ => None,
        }
    } else {
        None
    }
}

/// Value of a matrix cell text: its digit when it has one, else empty.
pub open spec fn token_value(t: Seq<u8>) -> u8 {
    if t.len() == 1 {
        (t[0] - 48) as u8
    } else {
        0
    }
}

/// Candidates of a matrix cell text: its digits when it has several.
pub open spec fn token_cands(t: Seq<u8>) -> Set<u8> {
    if t.len() == 1 {
        Set::empty()
    } else {
        Set::new(|v: u8| 1 <= v <= 9 && t.contains((v + 48) as u8))
    }
}

/// The grid seqs are consistent (see [`Grid::consistent`]).
pub open spec fn seqs_consistent(vs: Seq<u8>, cs: Seq<Set<u8>>) -> bool {
    &&& forall|c: int| 0 <= c < 81 && #[trigger] vs[c] == 0 ==> cs[c] != Set::<u8>::empty()
    &&& forall|c: int| 0 <= c < 81 && #[trigger] vs[c] != 0 ==> no_peer_has(vs, c, vs[c])
    &&& forall|h: int, v: u8|
        0 <= h < 27 && 1 <= v <= 9 ==> (exists|c: int| in_house(c, h) && #[trigger] vs[c] == v)
            || #[trigger] count_in_house(cs, h, v, 81) > 0
}

impl Grid {
    pub proof fn lemma_consistent_seqs(self)
        requires
            self.wf(),
        ensures
            self.consistent() == seqs_consistent(self.value_seq(), self.cand_seq()),
    {
        self.lemma_wf();
        let vs = self.value_seq();
        let cs = self.cand_seq();
        if self.consistent() {
            assert forall|h: int, v: u8| 0 <= h < 27 && 1 <= v <= 9 implies (exists|c: int| in_house(c, h) && #[trigger] vs[c] == v)
                || #[trigger] count_in_house(cs, h, v, 81) > 0 by {
                assert(self.house_count(h, v) == count_in_house(cs, h, v, 81));
                if exists|c: int| in_house(c, h) && #[trigger] self.value(c) == v {
                    let c = choose|c: int| in_house(c, h) && #[trigger] self.value(c) == v;
                    assert(vs[c] == v);
                }
            }
        }
        if seqs_consistent(vs, cs) {
            assert forall|h: int, v: u8| 0 <= h < 27 && 1 <= v <= 9 implies (exists|c: int| in_house(c, h) && #[trigger] self.value(c) == v)
                || #[trigger] self.house_count(h, v) > 0 by {
                if exists|c: int| in_house(c, h) && #[trigger] vs[c] == v {
                    let c = choose|c: int| in_house(c, h) && #[trigger] vs[c] == v;
                    assert(self.value(c) == v);
                }
            }
            assert forall|c: int| 0 <= c < 81 && #[trigger] self.value(c) == 0 implies self.cands(c) != Set::<u8>::empty() by {
                assert(vs[c] == 0);
            }
            assert forall|c: int| 0 <= c < 81 && #[trigger] self.value(c) != 0 implies no_peer_has(self.value_seq(), c, self.value(c)) by {
                assert(vs[c] != 0);
            }
        }
    }
}

fn stops_at(c: u8, nl: bool) -> (r: bool)
    ensures
        r == stops(c, nl),
{
    if nl {
        c == 10
    } else {
        c == 32 || (9 <= c && c <= 13) || c == 124
    }
}

/// Finds the end of the run starting at `a` (up to `b`): the first newline, or the first
/// separator when `nl` is false.
fn run_end(s: &[u8], a: usize, b: usize, nl: bool) -> (e: usize)
    requires
        a <= b <= s@.len(),
    ensures
        e - a == run_len(s@.subrange(a as int, b as int), nl),
        a <= e <= b,
{
    let mut e = a;
    while e < b && !stops_at(s[e], nl)
        invariant
            a <= e <= b <= s@.len(),
            run_len(s@.subrange(a as int, b as int), nl) == (e - a) + run_len(s@.subrange(e as int, b as int), nl),
        decreases b - e,
    {
        proof {
            let t = s@.subrange(e as int, b as int);
            assert(t[0] == s@[e as int]);
            assert(t.subrange(1, t.len() as int) =~= s@.subrange(e + 1, b as int));
        }
        e = e + 1;
    }
    proof {
        let t = s@.subrange(e as int, b as int);
        if e < b {
            assert(t[0] == s@[e as int]);
        }
    }
    e
}

/// The cell texts of the line `s[a..b]`, as ranges into `s`.
fn tokens_of_line(s: &[u8], a: usize, b: usize) -> (r: Vec<(usize, usize)>)
    requires
        a <= b <= s@.len(),
    ensures
        r@.len() == line_tokens(s@.subrange(a as int, b as int)).len(),
        forall|k: int|
            0 <= k < r@.len() ==> a <= (#[trigger] r@[k]).0 < r@[k].1 <= b && s@.subrange(r@[k].0 as int, r@[k].1 as int)
                == line_tokens(s@.subrange(a as int, b as int))[k],
{
    let ghost l = s@.subrange(a as int, b as int);
    let mut r: Vec<(usize, usize)> = Vec::new();
    let mut i = a;
    while i < b
        invariant
            a <= i <= b <= s@.len(),
            l == s@.subrange(a as int, b as int),
            line_tokens(l) == Seq::new(r@.len() as nat, |k: int| s@.subrange(r@[k].0 as int, r@[k].1 as int)) + line_tokens(
                s@.subrange(i as int, b as int),
            ),
            forall|k: int| 0 <= k < r@.len() ==> a <= (#[trigger] r@[k]).0 < r@[k].1 <= i,
        decreases b - i,
    {
        let ghost rest = s@.subrange(i as int, b as int);
        let ghost before = r@;
        let c = s[i];
        if c == 32 || (9 <= c && c <= 13) || c == 124 {
            proof {
                assert(rest[0] == c);
                assert(rest.subrange(1, rest.len() as int) =~= s@.subrange(i + 1, b as int));
            }
            i = i + 1;
        } else {
            let e = run_end(s, i, b, false);
            proof {
                assert(rest[0] == c);
                assert(token_end(rest) == e - i);
                assert(e - i > 0) by {
                    lemma_run_len_bounds(rest.subrange(1, rest.len() as int), false);
                }
                assert(rest.subrange(0, e - i) =~= s@.subrange(i as int, e as int));
                assert(rest.subrange(e - i, rest.len() as int) =~= s@.subrange(e as int, b as int));
            }
            r.push((i, e));
            proof {
                let prefix = Seq::new(r@.len() as nat, |k: int| s@.subrange(r@[k].0 as int, r@[k].1 as int));
                let old_prefix = Seq::new(before.len() as nat, |k: int| s@.subrange(before[k].0 as int, before[k].1 as int));
                assert(prefix =~= old_prefix.push(s@.subrange(i as int, e as int)));
                assert(old_prefix + (seq![s@.subrange(i as int, e as int)] + line_tokens(s@.subrange(e as int, b as int)))
                    =~= prefix + line_tokens(s@.subrange(e as int, b as int)));
            }
            i = e;
        }
    }
    proof {
        assert(s@.subrange(b as int, b as int) =~= Seq::<u8>::empty());
        let prefix = Seq::new(r@.len() as nat, |k: int| s@.subrange(r@[k].0 as int, r@[k].1 as int));
        assert(prefix + Seq::<Seq<u8>>::empty() =~= prefix);
        assert forall|k: int| 0 <= k < r@.len() implies a <= (#[trigger] r@[k]).0 < r@[k].1 <= b && s@.subrange(r@[k].0 as int, r@[k].1 as int)
            == line_tokens(l)[k] by {
            assert(prefix[k] == s@.subrange(r@[k].0 as int, r@[k].1 as int));
        }
    }
    r
}

fn is_ws_byte(c: u8) -> (r: bool)
    ensures
        r == is_ws(c),
{
    c == 32 || (9 <= c && c <= 13)
}

/// Whether the line `s[a..b]` is a matrix row.
fn line_is_matrix_row(s: &[u8], a: usize, b: usize) -> (r: bool)
    requires
        a <= b <= s@.len(),
    ensures
        r == is_matrix_row(s@.subrange(a as int, b as int)),
{
    let mut i = a;
    while i < b && is_ws_byte(s[i])
        invariant
            a <= i <= b <= s@.len(),
            ws_len(s@.subrange(a as int, b as int)) == (i - a) + ws_len(s@.subrange(i as int, b as int)),
        decreases b - i,
    {
        proof {
            let t = s@.subrange(i as int, b as int);
            assert(t[0] == s@[i as int]);
            assert(t.subrange(1, t.len() as int) =~= s@.subrange(i + 1, b as int));
        }
        i = i + 1;
    }
    proof {
        let t = s@.subrange(i as int, b as int);
        if i < b {
            assert(t[0] == s@[i as int]);
        }
        if i < b {
            assert(s@.subrange(a as int, b as int)[i - a] == s@[i as int]);
        }
    }
    i < b && s[i] == 124
}

/// Whether `s[a..b]` holds only the digits `1..=9`.
fn is_digit_range(s: &[u8], a: usize, b: usize) -> (r: bool)
    requires
        a <= b <= s@.len(),
    ensures
        r == is_digit_token(s@.subrange(a as int, b as int)),
{
    let ghost t = s@.subrange(a as int, b as int);
    let mut i = a;
    while i < b
        invariant
            a <= i <= b <= s@.len(),
            t == s@.subrange(a as int, b as int),
            forall|j: int| 0 <= j < i - a ==> 49 <= #[trigger] t[j] <= 57,
        decreases b - i,
    {
        if s[i] < 49 || s[i] > 57 {
            assert(t[i - a] == s@[i as int]);
            return false;
        }
        assert(t[i - a] == s@[i as int]);
        i = i + 1;
    }
    true
}

/// The value and the candidates of the matrix cell text `s[a..b]`.
fn token_cell(s: &[u8], a: usize, b: usize) -> (r: (u8, DigitSet))
    requires
        a < b <= s@.len(),
        is_digit_token(s@.subrange(a as int, b as int)),
    ensures
        r.0 == token_value(s@.subrange(a as int, b as int)),
        r.1@ == token_cands(s@.subrange(a as int, b as int)),
        r.0 <= 9,
{
    let ghost t = s@.subrange(a as int, b as int);
    if b - a == 1 {
        assert(t[0] == s@[a as int]);
        assert(49 <= t[0] <= 57);
        let mut e = DigitSet::new_empty();
        return (s[a] - 48, e);
    }
    let mut set = DigitSet::new_empty();
    let mut i = a;
    while i < b
        invariant
            a <= i <= b <= s@.len(),
            b - a != 1,
            t == s@.subrange(a as int, b as int),
            is_digit_token(t),
            set@ == Set::new(|v: u8| 1 <= v <= 9 && t.subrange(0, i - a).contains((v + 48) as u8)),
        decreases b - i,
    {
        assert(t[i - a] == s@[i as int]);
        let ghost before = set@;
        set.add(s[i] - 48);
        proof {
            assert forall|v: u8| set@.contains(v) <==> 1 <= v <= 9 && t.subrange(0, i + 1 - a).contains((v + 48) as u8) by {
                if 1 <= v <= 9 && t.subrange(0, i + 1 - a).contains((v + 48) as u8) {
                    let j = choose|j: int| 0 <= j < i + 1 - a && #[trigger] t.subrange(0, i + 1 - a)[j] == (v + 48) as u8;
                    if j < i - a {
                        assert(t.subrange(0, i - a)[j] == (v + 48) as u8);
                    }
                }
                if before.contains(v) {
                    let j = choose|j: int| 0 <= j < i - a && #[trigger] t.subrange(0, i - a)[j] == (v + 48) as u8;
                    assert(t.subrange(0, i + 1 - a)[j] == (v + 48) as u8);
                }
                if v == s@[i as int] - 48 {
                    assert(t.subrange(0, i + 1 - a)[i - a] == (v + 48) as u8);
                }
            }
            assert(set@ =~= Set::new(|v: u8| 1 <= v <= 9 && t.subrange(0, i + 1 - a).contains((v + 48) as u8)));
        }
        i = i + 1;
    }
    assert(t.subrange(0, b - a) =~= t);
    assert(set@ =~= token_cands(t));
    (0, set)
}

/// Values of matrix cell texts.
pub open spec fn matrix_values(items: Seq<Seq<u8>>) -> Seq<u8> {
    items.map_values(|t: Seq<u8>| token_value(t))
}

/// Candidates of matrix cell texts.
pub open spec fn matrix_cands(items: Seq<Seq<u8>>) -> Seq<Set<u8>> {
    items.map_values(|t: Seq<u8>| token_cands(t))
}

impl Grid {
    /// Reads a candidate matrix printout: every line whose first non-blank character is
    /// `|` is a row of nine cells separated by blanks and `|`; a cell with one digit is
    /// solved, a cell with several digits lists its candidates. The grid must hold 81
    /// cells and be consistent. No cell is given.
    pub fn new_from_matrix_str(s: &str) -> (r: Result<Grid, SudokuError>)
        ensures
            r is Ok <==> (matrix_items(s.spec_bytes()) matches Some(items) && items.len() == 81
                && seqs_consistent(matrix_values(items), matrix_cands(items))),
            r matches Ok(g) ==> g.wf() && (matrix_items(s.spec_bytes()) matches Some(items)
                && g.value_seq() == matrix_values(items) && g.cand_seq() == matrix_cands(items)
                && g.given_seq() == Seq::new(81, |c: int| false)),
            r matches Err(e) ==> e is InvalidInput,
    {
        let bytes = s.as_bytes();
        let n = bytes.len();
        assert(s.spec_bytes() == bytes@);
        let mut vals: Vec<u8> = Vec::new();
        let mut cells: Vec<DigitSet> = Vec::new();
        let ghost mut acc: Seq<Seq<u8>> = Seq::empty();
        let mut pos: usize = 0;
        proof {
            assert(bytes@.subrange(0, n as int) =~= bytes@);
            if let Some(b) = matrix_items(bytes@) {
                assert(acc + b =~= b);
            }
        }
        while pos < n
            invariant
                pos <= n == bytes@.len(),
                s.spec_bytes() == bytes@,
                vals@.len() == acc.len(),
                cells@.len() == acc.len(),
                acc.len() <= 81,
                vals@ == matrix_values(acc),
                forall|k: int| 0 <= k < acc.len() ==> (#[trigger] cells@[k])@ == token_cands(acc[k]),
                forall|k: int| 0 <= k < acc.len() ==> #[trigger] vals@[k] <= 9,
                matrix_items(bytes@) == prepend_items(acc, matrix_items(bytes@.subrange(pos as int, n as int))),
            decreases n - pos,
        {
            let e = run_end(bytes, pos, n, true);
            let ghost rem = bytes@.subrange(pos as int, n as int);
            let ghost l = bytes@.subrange(pos as int, e as int);
            let ghost next = if e < n {
                bytes@.subrange(e + 1, n as int)
            } else {
                bytes@.subrange(n as int, n as int)
            };
            proof {
                assert(rem.subrange(0, e - pos) =~= l);
                if e < n {
                    assert(rem.subrange(e - pos + 1, rem.len() as int) =~= next);
                } else {
                    assert(next =~= Seq::<u8>::empty());
                    assert(matrix_items(next) == Some(Seq::<Seq<u8>>::empty()));
                }
            }
            let ghost rest = matrix_items(next);
            if line_is_matrix_row(bytes, pos, e) {
                let toks = tokens_of_line(bytes, pos, e);
                let ghost t = line_tokens(l);
                proof {
                    assert(line_end(rem) == e - pos);
                    assert(is_matrix_row(rem.subrange(0, line_end(rem))));
                }
                if toks.len() != 9 {
                    proof {
                        assert(matrix_items(rem) is None);
                        assert(matrix_items(bytes@) is None);
                    }
                    return Err(SudokuError::invalid_input("matrix row needs 9 cells"));
                }
                if vals.len() + 9 > 81 {
                    proof {
                        if let Some(all) = matrix_items(bytes@) {
                            if forall|j: int| 0 <= j < 9 ==> is_digit_token(#[trigger] t[j]) {
                                assert(matrix_items(rem) == prepend_items(t, rest));
                                if let Some(b) = rest {
                                    assert(all.len() == acc.len() + 9 + b.len());
                                }
                            }
                        }
                    }
                    return Err(SudokuError::invalid_input("matrix contains an invalid cell"));
                }
                proof {
                    if forall|j: int| 0 <= j < 9 ==> is_digit_token(#[trigger] t[j]) {
                        assert(matrix_items(rem) == prepend_items(t, rest));
                    } else {
                        assert(matrix_items(rem) is None);
                    }
                }
                let mut k: usize = 0;
                let ghost acc0 = acc;
                while k < 9
                    invariant
                        k <= 9,
                        toks@.len() == 9,
                        t.len() == 9,
                        acc0.len() + 9 <= 81,
                        acc.len() == acc0.len() + k,
                        acc == acc0 + t.subrange(0, k as int),
                        vals@.len() == acc.len(),
                        cells@.len() == acc.len(),
                        vals@ == matrix_values(acc),
                        forall|q: int| 0 <= q < acc.len() ==> (#[trigger] cells@[q])@ == token_cands(acc[q]),
                        forall|q: int| 0 <= q < acc.len() ==> #[trigger] vals@[q] <= 9,
                        forall|q: int| 0 <= q < k ==> is_digit_token(#[trigger] t[q]),
                        forall|q: int|
                            0 <= q < toks@.len() ==> pos <= (#[trigger] toks@[q]).0 < toks@[q].1 <= e && bytes@.subrange(
                                toks@[q].0 as int,
                                toks@[q].1 as int,
                            ) == t[q],
                        pos <= e <= n == bytes@.len(),
                        s.spec_bytes() == bytes@,
                        matrix_items(bytes@) == prepend_items(acc0, matrix_items(rem)),
                        (forall|j: int| 0 <= j < 9 ==> is_digit_token(#[trigger] t[j])) ==> matrix_items(rem)
                            == prepend_items(t, rest),
                        !(forall|j: int| 0 <= j < 9 ==> is_digit_token(#[trigger] t[j])) ==> matrix_items(rem) is None,
                    decreases 9 - k,
                {
                    let (a, b) = toks[k];
                    if !is_digit_range(bytes, a, b) {
                        proof {
                            assert(!is_digit_token(t[k as int]));
                            assert(matrix_items(rem) is None);
                            assert(matrix_items(bytes@) is None);
                        }
                        return Err(SudokuError::invalid_input("matrix contains an invalid cell"));
                    }
                    let (v, c) = token_cell(bytes, a, b);
                    vals.push(v);
                    cells.push(c);
                    proof {
                        let old_acc = acc;
                        acc = acc.push(t[k as int]);
                        assert(acc =~= acc0 + t.subrange(0, k + 1));
                        assert(vals@ =~= matrix_values(acc));
                        assert forall|q: int| 0 <= q < acc.len() implies (#[trigger] cells@[q])@ == token_cands(acc[q]) by {
                            if q < old_acc.len() {
                                assert(acc[q] == old_acc[q]);
                            }
                        }
                    }
                    k = k + 1;
                }
                proof {
                    assert(t.subrange(0, 9) =~= t);
                    assert(forall|j: int| 0 <= j < 9 ==> is_digit_token(#[trigger] t[j]));
                    if let Some(b) = rest {
                        assert(acc0 + (t + b) =~= acc + b);
                    }
                }
            } else {
                proof {
                    assert(matrix_items(rem) == prepend_items(Seq::<Seq<u8>>::empty(), rest));
                    if let Some(b) = rest {
                        assert(acc + (Seq::<Seq<u8>>::empty() + b) =~= acc + b);
                    }
                }
            }
            pos = if e < n {
                e + 1
            } else {
                n
            };
        }
        proof {
            assert(bytes@.subrange(pos as int, n as int) =~= Seq::<u8>::empty());
            assert(matrix_items(Seq::<u8>::empty()) == Some(Seq::<Seq<u8>>::empty()));
            assert(acc + Seq::<Seq<u8>>::empty() =~= acc);
        }
        if vals.len() != 81 {
            return Err(SudokuError::invalid_input("matrix needs 81 cells"));
        }
        let mut given: Vec<bool> = Vec::new();
        let mut unsolved: u8 = 0;
        let mut i: usize = 0;
        while i < 81
            invariant
                i <= 81,
                vals@.len() == 81,
                given@.len() == i,
                forall|q: int| 0 <= q < i ==> !#[trigger] given@[q],
                unsolved as nat == count_empty(vals@, i as int),
                unsolved <= i,
            decreases 81 - i,
        {
            given.push(false);
            if vals[i] == 0 {
                unsolved = unsolved + 1;
            }
            i = i + 1;
        }
        let mut grid = Grid {
            values: vals,
            candidate_values: cells,
            is_given: given,
            house_candidate_count: Vec::new(),
            unsolved_count: unsolved,
        };
        grid.rebuild_house_candidate_count();
        proof {
            assert(grid.cand_seq() =~= matrix_cands(acc));
            assert forall|c: int| 0 <= c < 81 && #[trigger] grid.values@[c] != 0 implies grid.candidate_values@[c]@
                == Set::<u8>::empty() by {
                assert(grid.values@[c] == token_value(acc[c]));
                assert(grid.candidate_values@[c]@ == token_cands(acc[c]));
            }
            assert(grid.wf());
            assert(grid.given_seq() =~= Seq::new(81, |c: int| false));
            grid.lemma_consistent_seqs();
        }
        if !grid.is_consistent() {
            return Err(SudokuError::invalid_input("matrix contains conflicting values"));
        }
        Ok(grid)
    }
}
} // verus!

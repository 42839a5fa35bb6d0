use vstd::prelude::*;
use crate::candidate::Candidate;
use crate::solver::step::{removable, removed, remove_all};
use crate::solver::common::cand_list;
use crate::solver::naked_set::{sorted_cands, seen_before, clone_cand_list};
use crate::solver::wings::fresh;
use crate::solver::step::Step;
use crate::solver::step_accumulator::StepAccumulator;
use crate::solver::common::{grows, report, progressed};
use crate::grid::Grid;
use crate::grid_constant::{in_house, sees, peers, get_cell_buddies};
use crate::util::digitset::DigitSet;
use crate::util::indexset::IndexSet;
use crate::util::permutations::{increasing, picks};
use itertools::Itertools;

verus! {

/// The largest number of cells with which almost locked sets are searched.
pub const DEFAULT_MAX_ALS_SIZE: usize = 5;

/// The digits that the cells hold as candidates.
pub open spec fn digits_in(g: Grid, cells: Set<u8>) -> Set<u8> {
    Set::new(|v: u8| exists|c: u8| cells.contains(c) && #[trigger] g.cands(c as int).contains(v))
}

/// Every cell of `cells` lies in house `h`.
pub open spec fn spans(cells: Set<u8>, h: int) -> bool {
    forall|c: u8| cells.contains(c) ==> #[trigger] in_house(c as int, h)
}

/// `cells` are between one and `max` empty cells of house `h` that together hold exactly
/// one candidate more than there are cells.
pub open spec fn als_in(g: Grid, h: int, cells: Set<u8>, max: nat) -> bool {
    &&& 0 <= h < 27
    &&& cells.finite()
    &&& 1 <= cells.len() <= max
    &&& spans(cells, h)
    &&& forall|c: u8| cells.contains(c) ==> #[trigger] g.value(c as int) == 0
    &&& digits_in(g, cells).len() == cells.len() + 1
}

/// `q` lists the elements of `s` in increasing order.
pub open spec fn lists(q: Seq<u8>, s: Set<u8>) -> bool {
    increasing(q) && q.to_set() == s
}

/// The elements of `s` in increasing order.
pub open spec fn cells_key(s: Set<u8>) -> Seq<u8> {
    choose|q: Seq<u8>| lists(q, s)
}

/// `a` comes before `b` in lexicographic order: they agree up to a position where `a`
/// ends while `b` goes on, or where `a` holds the smaller element.
pub open spec fn seq_before(a: Seq<u8>, b: Seq<u8>) -> bool {
    exists|k: int|
        0 <= k <= a.len() && k <= b.len() && #[trigger] a.take(k) == b.take(k) && ((k == a.len() && k < b.len()) || (k
            < a.len() && k < b.len() && a[k] < b[k]))
}

/// Two increasing sequences with the same elements are equal.
pub proof fn lemma_lists_unique(p: Seq<u8>, q: Seq<u8>)
    requires
        increasing(p),
        increasing(q),
        p.to_set() == q.to_set(),
    ensures
        p == q,
    decreases p.len(),
{
    if p.len() == 0 {
        if q.len() > 0 {
            assert(q.to_set().contains(q[0]));
        }
        assert(p =~= q);
    } else {
        if q.len() == 0 {
            assert(p.to_set().contains(p[0]));
            assert(false);
        }
        assert(q.to_set().contains(p[0]));
        assert(p.to_set().contains(q[0]));
        let i = choose|i: int| 0 <= i < q.len() && q[i] == p[0];
        let j = choose|j: int| 0 <= j < p.len() && p[j] == q[0];
        assert(p[0] == q[0]) by {
            if i > 0 {
                assert(q[0] < q[i]);
            }
            if j > 0 {
                assert(p[0] < p[j]);
            }
        }
        let pr = p.drop_first();
        let qr = q.drop_first();
        assert forall|x: u8| pr.to_set().contains(x) <==> qr.to_set().contains(x) by {
            if pr.to_set().contains(x) {
                let a = choose|a: int| 0 <= a < pr.len() && pr[a] == x;
                assert(p[a + 1] == x);
                assert(p.to_set().contains(x));
                let b = choose|b: int| 0 <= b < q.len() && q[b] == x;
                assert(b != 0);
                assert(qr[b - 1] == x);
            }
            if qr.to_set().contains(x) {
                let a = choose|a: int| 0 <= a < qr.len() && qr[a] == x;
                assert(q[a + 1] == x);
                assert(q.to_set().contains(x));
                let b = choose|b: int| 0 <= b < p.len() && p[b] == x;
                assert(b != 0);
                assert(pr[b - 1] == x);
            }
        }
        assert(pr.to_set() =~= qr.to_set());
        lemma_lists_unique(pr, qr);
        assert(p =~= q) by {
            assert forall|k: int| 0 <= k < p.len() implies p[k] == q[k] by {
                if k > 0 {
                    assert(p[k] == pr[k - 1]);
                    assert(q[k] == qr[k - 1]);
                }
            }
        }
    }
}

/// The elements of `s` below `n`, in increasing order.
pub proof fn lemma_listing(s: Set<u8>, n: nat) -> (q: Seq<u8>)
    requires
        n <= 256,
    ensures
        increasing(q),
        q.to_set() == Set::new(|c: u8| s.contains(c) && c < n),
        forall|i: int| 0 <= i < q.len() ==> q[i] < n,
    decreases n,
{
    if n == 0 {
        let q = Seq::<u8>::empty();
        assert(q.to_set() =~= Set::new(|c: u8| s.contains(c) && c < n));
        q
    } else {
        let p = lemma_listing(s, (n - 1) as nat);
        let d = (n - 1) as u8;
        if s.contains(d) {
            let q = p.push(d);
            assert forall|x: u8| q.to_set().contains(x) <==> (s.contains(x) && x < n) by {
                if x == d {
                    assert(q[q.len() - 1] == d);
                }
                if q.to_set().contains(x) && x != d {
                    let a = choose|a: int| 0 <= a < q.len() && q[a] == x;
                    assert(a < p.len());
                    assert(p[a] == x);
                    assert(p.to_set().contains(x));
                }
                if s.contains(x) && x < n && x != d {
                    assert(p.to_set().contains(x));
                    let a = choose|a: int| 0 <= a < p.len() && p[a] == x;
                    assert(q[a] == x);
                }
            }
            assert(q.to_set() =~= Set::new(|c: u8| s.contains(c) && c < n));
            q
        } else {
            assert forall|x: u8| p.to_set().contains(x) <==> (s.contains(x) && x < n) by {
                if p.to_set().contains(x) {
                    let a = choose|a: int| 0 <= a < p.len() && p[a] == x;
                    assert(p[a] < n - 1);
                }
            }
            assert(p.to_set() =~= Set::new(|c: u8| s.contains(c) && c < n));
            p
        }
    }
}

/// An increasing sequence has as many distinct elements as it is long.
pub proof fn lemma_increasing_len(q: Seq<u8>)
    requires
        increasing(q),
    ensures
        q.to_set().finite(),
        q.to_set().len() == q.len(),
{
    q.unique_seq_to_set();
    vstd::seq_lib::seq_to_set_is_finite(q);
}

/// A finite set of cells is listed by its key, which is as long as the set is large.
pub proof fn lemma_cells_key(s: Set<u8>)
    ensures
        lists(cells_key(s), s),
        s.finite() ==> cells_key(s).len() == s.len(),
{
    let q = lemma_listing(s, 256);
    assert(q.to_set() =~= s);
    assert(lists(q, s));
    lemma_increasing_len(cells_key(s));
}

/// The key of a set is the one sequence that lists it.
pub proof fn lemma_key_of_listing(q: Seq<u8>, s: Set<u8>)
    requires
        lists(q, s),
    ensures
        cells_key(s) == q,
{
    lemma_cells_key(s);
    lemma_lists_unique(cells_key(s), q);
}

/// Lexicographic order never puts a sequence before itself.
pub proof fn lemma_before_irreflexive(a: Seq<u8>)
    ensures
        !seq_before(a, a),
{
}

/// Lexicographic order is transitive.
pub proof fn lemma_before_transitive(a: Seq<u8>, b: Seq<u8>, c: Seq<u8>)
    requires
        seq_before(a, b),
        seq_before(b, c),
    ensures
        seq_before(a, c),
{
    let k1 = choose|k: int|
        0 <= k <= a.len() && k <= b.len() && #[trigger] a.take(k) == b.take(k) && ((k == a.len() && k < b.len()) || (k
            < a.len() && k < b.len() && a[k] < b[k]));
    let k2 = choose|k: int|
        0 <= k <= b.len() && k <= c.len() && #[trigger] b.take(k) == c.take(k) && ((k == b.len() && k < c.len()) || (k
            < b.len() && k < c.len() && b[k] < c[k]));
    if k1 < k2 {
        assert(a.take(k1) == c.take(k1)) by {
            assert forall|i: int| 0 <= i < k1 implies #[trigger] a.take(k1)[i] == c.take(k1)[i] by {
                assert(a.take(k1)[i] == b.take(k1)[i]);
                assert(b.take(k2)[i] == c.take(k2)[i]);
            }
            assert(a.take(k1) =~= c.take(k1));
        }
        assert(b.take(k2)[k1] == c.take(k2)[k1]);
        assert(k1 < c.len());
    } else if k1 > k2 {
        assert(a.take(k2) == c.take(k2)) by {
            assert forall|i: int| 0 <= i < k2 implies #[trigger] a.take(k2)[i] == c.take(k2)[i] by {
                assert(a.take(k1)[i] == b.take(k1)[i]);
                assert(b.take(k2)[i] == c.take(k2)[i]);
            }
            assert(a.take(k2) =~= c.take(k2));
        }
        assert(a.take(k1)[k2] == b.take(k1)[k2]);
    } else {
        assert(a.take(k1) == c.take(k1)) by {
            assert forall|i: int| 0 <= i < k1 implies #[trigger] a.take(k1)[i] == c.take(k1)[i] by {
                assert(a.take(k1)[i] == b.take(k1)[i]);
                assert(b.take(k2)[i] == c.take(k2)[i]);
            }
            assert(a.take(k1) =~= c.take(k1));
        }
    }
}

/// Of two sequences that agree on their first `k` elements and differ, one comes before
/// the other.
proof fn lemma_before_total_from(a: Seq<u8>, b: Seq<u8>, k: int)
    requires
        0 <= k <= a.len(),
        k <= b.len(),
        a.take(k) == b.take(k),
        a != b,
    ensures
        seq_before(a, b) || seq_before(b, a),
    decreases a.len() - k,
{
    if k == a.len() && k == b.len() {
        assert(a.take(k) =~= a);
        assert(b.take(k) =~= b);
    } else if k == a.len() || k == b.len() {
        assert(b.take(k) == a.take(k));
    } else if a[k] != b[k] {
        assert(b.take(k) == a.take(k));
    } else {
        assert(a.take(k + 1) =~= b.take(k + 1)) by {
            assert forall|i: int| 0 <= i < k + 1 implies #[trigger] a.take(k + 1)[i] == b.take(k + 1)[i] by {
                if i < k {
                    assert(a.take(k)[i] == b.take(k)[i]);
                }
            }
        }
        lemma_before_total_from(a, b, k + 1);
    }
}

/// Of two different sequences, one comes before the other.
pub proof fn lemma_before_total(a: Seq<u8>, b: Seq<u8>)
    requires
        a != b,
    ensures
        seq_before(a, b) || seq_before(b, a),
{
    assert(a.take(0) =~= b.take(0));
    lemma_before_total_from(a, b, 0);
}

/// Whether `a` comes before `b` in lexicographic order.
fn key_before(a: &Vec<u8>, b: &Vec<u8>) -> (r: bool)
    ensures
        r == seq_before(a@, b@),
{
    let mut k: usize = 0;
    while k < a.len() && k < b.len()
        invariant
            k <= a@.len(),
            k <= b@.len(),
            a@.take(k as int) == b@.take(k as int),
        decreases a@.len() - k,
    {
        if a[k] != b[k] {
            let r = a[k] < b[k];
            proof {
                if !r {
                    assert forall|j: int|
                        0 <= j <= a@.len() && j <= b@.len() && #[trigger] a@.take(j) == b@.take(j) implies !((j == a@.len()
                            && j < b@.len()) || (j < a@.len() && j < b@.len() && a@[j] < b@[j])) by {
                        if j > k {
                            assert(a@.take(j)[k as int] == b@.take(j)[k as int]);
                        } else if j < k {
                            assert(a@.take(k as int)[j] == b@.take(k as int)[j]);
                        }
                    }
                }
            }
            return r;
        }
        assert(a@.take(k + 1) =~= b@.take(k + 1)) by {
            assert forall|i: int| 0 <= i < k + 1 implies #[trigger] a@.take(k + 1)[i] == b@.take(k + 1)[i] by {
                if i < k {
                    assert(a@.take(k as int)[i] == b@.take(k as int)[i]);
                }
            }
        }
        k = k + 1;
    }
    let r = k == a.len() && k < b.len();
    proof {
        if !r {
            assert forall|j: int|
                0 <= j <= a@.len() && j <= b@.len() && #[trigger] a@.take(j) == b@.take(j) implies !((j == a@.len() && j
                    < b@.len()) || (j < a@.len() && j < b@.len() && a@[j] < b@[j])) by {
                if j < k {
                    assert(a@.take(k as int)[j] == b@.take(k as int)[j]);
                }
            }
        }
    }
    r
}

/// Whether the two sequences are equal.
fn same_key(a: &Vec<u8>, b: &Vec<u8>) -> (r: bool)
    ensures
        r == (a@ == b@),
{
    if a.len() != b.len() {
        return false;
    }
    let mut k: usize = 0;
    while k < a.len()
        invariant
            k <= a@.len() == b@.len(),
            forall|i: int| 0 <= i < k ==> a@[i] == b@[i],
        decreases a@.len() - k,
    {
        if a[k] != b[k] {
            return false;
        }
        k = k + 1;
    }
    assert(a@ =~= b@);
    true
}

/// A set of empty cells of one house that hold, together, one candidate more than there
/// are cells.
#[derive(Debug, Clone, Copy, PartialEq, Eq, Hash)]
pub struct AlmostLockedSet {
    pub house: u8,
    pub cells: IndexSet,
    pub values: DigitSet,
}

impl AlmostLockedSet {
    /// The set is an almost locked set of `g` with at most `max` cells, its digits are the
    /// candidates of its cells, and `house` is the first house that holds all its cells.
    pub open spec fn found_in(self, g: Grid, max: nat) -> bool {
        &&& als_in(g, self.house as int, self.cells@, max)
        &&& self.values@ == digits_in(g, self.cells@)
        &&& forall|h: int| 0 <= h < self.house ==> !spans(self.cells@, h)
    }

    /// The cells of the set that hold candidate `value`.
    pub fn candidate_cells(&self, grid: &Grid, value: u8) -> (r: IndexSet)
        requires
            grid.wf(),
        ensures
            r@ == Set::new(|c: u8| self.cells@.contains(c) && grid.has_cand(c as int, value)),
    {
        let cells = self.cells.values();
        let mut r = IndexSet::new_empty();
        let mut i: usize = 0;
        proof {
            IndexSet::lemma_bounds(self.cells);
        }
        while i < cells.len()
            invariant
                i <= cells@.len(),
                grid.wf(),
                forall|c: u8| cells@.contains(c) <==> self.cells@.contains(c),
                forall|c: u8| #[trigger] self.cells@.contains(c) ==> c < 81,
                r@ == Set::new(
                    |c: u8| (exists|k: int| 0 <= k < i && cells@[k] == c) && grid.has_cand(c as int, value),
                ),
            decreases cells@.len() - i,
        {
            let c = cells[i];
            assert(cells@.contains(c));
            let ghost before = r@;
            if grid.cell_has_candidate(c, value) {
                r.add(c);
            }
            assert(r@ =~= Set::new(
                |x: u8| (exists|k: int| 0 <= k < i + 1 && cells@[k] == x) && grid.has_cand(x as int, value),
            )) by {
                assert forall|x: u8| r@.contains(x) <==> ((exists|k: int| 0 <= k < i + 1 && cells@[k] == x)
                    && grid.has_cand(x as int, value)) by {
                    if (exists|k: int| 0 <= k < i + 1 && cells@[k] == x) && grid.has_cand(x as int, value) {
                        let k = choose|k: int| 0 <= k < i + 1 && cells@[k] == x;
                        if k < i {
                            assert(before.contains(x));
                        }
                    }
                    if before.contains(x) {
                        let k = choose|k: int| 0 <= k < i && cells@[k] == x;
                        assert(0 <= k < i + 1 && cells@[k] == x);
                    }
                }
            }
            i = i + 1;
        }
        assert(r@ =~= Set::new(|c: u8| self.cells@.contains(c) && grid.has_cand(c as int, value))) by {
            assert forall|x: u8| r@.contains(x) <==> (self.cells@.contains(x) && grid.has_cand(x as int, value)) by {
                if self.cells@.contains(x) {
                    assert(cells@.contains(x));
                    let k = choose|k: int| 0 <= k < cells@.len() && cells@[k] == x;
                }
                if r@.contains(x) {
                    let k = choose|k: int| 0 <= k < i && cells@[k] == x;
                    assert(cells@.contains(x));
                }
            }
        }
        r
    }
}

/// `itertools::Itertools::combinations` on the cells: every `k`-element selection of
/// `cells` (given in increasing order), each in increasing order, and no other list.
#[verifier::external_body]
fn cell_combinations(cells: &Vec<u8>, k: usize) -> (r: Vec<Vec<u8>>)
    requires
        increasing(cells@),
    ensures
        forall|j: int| 0 <= j < r@.len() ==> picks(cells@, #[trigger] r@[j]@, k as int),
        forall|c: Seq<u8>| picks(cells@, c, k as int) ==> exists|j: int| 0 <= j < r@.len() && #[trigger] r@[j]@ == c,
{
    cells.iter().copied().combinations(k).collect()
}

/// The candidates of the cells of `sel`.
fn selection_digits(grid: &Grid, sel: &Vec<u8>) -> (r: DigitSet)
    requires
        grid.wf(),
        forall|i: int| 0 <= i < sel@.len() ==> #[trigger] sel@[i] < 81,
    ensures
        r@ == digits_in(*grid, sel@.to_set()),
{
    let mut values = DigitSet::new_empty();
    let mut i: usize = 0;
    while i < sel.len()
        invariant
            i <= sel@.len(),
            grid.wf(),
            forall|i: int| 0 <= i < sel@.len() ==> #[trigger] sel@[i] < 81,
            values@ == digits_in(*grid, sel@.take(i as int).to_set()),
        decreases sel@.len() - i,
    {
        let ghost before = values@;
        values = values.union(&grid.get_cell_candidate(sel[i]));
        proof {
            let t = sel@.take(i + 1);
            assert forall|v: u8| values@.contains(v) <==> digits_in(*grid, t.to_set()).contains(v) by {
                if before.contains(v) {
                    let c = choose|c: u8| sel@.take(i as int).to_set().contains(c) && #[trigger] grid.cands(c as int).contains(v);
                    let k = choose|k: int| 0 <= k < i && sel@.take(i as int)[k] == c;
                    assert(t[k] == c);
                    assert(t.to_set().contains(c));
                }
                if grid.cands(sel@[i as int] as int).contains(v) {
                    assert(t[i as int] == sel@[i as int]);
                    assert(t.to_set().contains(sel@[i as int]));
                }
                if digits_in(*grid, t.to_set()).contains(v) {
                    let c = choose|c: u8| t.to_set().contains(c) && #[trigger] grid.cands(c as int).contains(v);
                    let k = choose|k: int| 0 <= k < i + 1 && t[k] == c;
                    if k < i {
                        assert(sel@.take(i as int)[k] == c);
                        assert(sel@.take(i as int).to_set().contains(c));
                    }
                }
            }
            assert(values@ =~= digits_in(*grid, t.to_set()));
        }
        i = i + 1;
    }
    assert(sel@.take(sel@.len() as int) =~= sel@);
    values
}

/// Some set of `sets` has exactly the cells `s`.
pub open spec fn holds_cells(sets: Seq<AlmostLockedSet>, s: Set<u8>) -> bool {
    exists|j: int| 0 <= j < sets.len() && (#[trigger] sets[j]).cells@ == s
}

/// The sets are found in `g`, listed by `keys`, and in increasing order of their keys.
pub open spec fn sorted_sets(g: Grid, max: nat, sets: Seq<AlmostLockedSet>, keys: Seq<Vec<u8>>) -> bool {
    &&& sets.len() == keys.len()
    &&& forall|j: int| 0 <= j < sets.len() ==> (#[trigger] sets[j]).found_in(g, max) && lists(keys[j]@, sets[j].cells@)
    &&& forall|i: int, j: int| 0 <= i < j < keys.len() ==> seq_before((#[trigger] keys[i])@, (#[trigger] keys[j])@)
}

/// Puts `set`, listed by `key`, into its place in the sorted list, unless a set with the
/// same cells is there already.
fn insert_set(
    sets: &mut Vec<AlmostLockedSet>,
    keys: &mut Vec<Vec<u8>>,
    set: AlmostLockedSet,
    key: Vec<u8>,
    Ghost(g): Ghost<Grid>,
    Ghost(max): Ghost<nat>,
)
    requires
        sorted_sets(g, max, old(sets)@, old(keys)@),
        lists(key@, set.cells@),
        holds_cells(old(sets)@, set.cells@) || set.found_in(g, max),
    ensures
        sorted_sets(g, max, final(sets)@, final(keys)@),
        forall|s: Set<u8>| holds_cells(final(sets)@, s) <==> (holds_cells(old(sets)@, s) || s == set.cells@),
{
    let mut i: usize = 0;
    while i < keys.len() && key_before(&keys[i], &key)
        invariant
            i <= keys@.len(),
            sorted_sets(g, max, sets@, keys@),
            forall|j: int| 0 <= j < i ==> seq_before((#[trigger] keys@[j])@, key@),
        decreases keys@.len() - i,
    {
        i = i + 1;
    }
    if i < keys.len() && same_key(&keys[i], &key) {
        proof {
            lemma_lists_unique(keys@[i as int]@, key@);
            assert(sets@[i as int].cells@ == set.cells@);
        }
        return;
    }
    proof {
        if holds_cells(sets@, set.cells@) {
            let j = choose|j: int| 0 <= j < sets@.len() && (#[trigger] sets@[j]).cells@ == set.cells@;
            lemma_lists_unique(keys@[j]@, key@);
            if j < i {
                lemma_before_irreflexive(key@);
            } else if j > i {
                lemma_before_total(keys@[i as int]@, key@);
                lemma_before_transitive(key@, keys@[i as int]@, keys@[j]@);
                lemma_before_irreflexive(key@);
            }
            assert(false);
        }
        if i < keys@.len() {
            lemma_before_total(keys@[i as int]@, key@);
            assert(seq_before(key@, keys@[i as int]@));
        }
    }
    let ghost old_sets = sets@;
    let ghost old_keys = keys@;
    sets.insert(i, set);
    keys.insert(i, key);
    proof {
        assert forall|a: int, b: int| 0 <= a < b < keys@.len() implies seq_before((#[trigger] keys@[a])@, (#[trigger] keys@[b])@) by {
            if b < i {
                assert(keys@[a] == old_keys[a]);
                assert(keys@[b] == old_keys[b]);
            } else if b == i {
                assert(keys@[a] == old_keys[a]);
            } else if a == i {
                assert(keys@[b] == old_keys[b - 1]);
                if b - 1 > i {
                    lemma_before_transitive(key@, old_keys[i as int]@, old_keys[b - 1]@);
                }
            } else if a < i {
                assert(keys@[a] == old_keys[a]);
                assert(keys@[b] == old_keys[b - 1]);
            } else {
                assert(keys@[a] == old_keys[a - 1]);
                assert(keys@[b] == old_keys[b - 1]);
            }
        }
        assert forall|j: int| 0 <= j < sets@.len() implies (#[trigger] sets@[j]).found_in(g, max) && lists(keys@[j]@, sets@[j].cells@) by {
            if j < i {
                assert(sets@[j] == old_sets[j]);
                assert(keys@[j] == old_keys[j]);
            } else if j > i {
                assert(sets@[j] == old_sets[j - 1]);
                assert(keys@[j] == old_keys[j - 1]);
            }
        }
        assert forall|s: Set<u8>| holds_cells(sets@, s) <==> (holds_cells(old_sets, s) || s == set.cells@) by {
            if holds_cells(sets@, s) {
                let j = choose|j: int| 0 <= j < sets@.len() && (#[trigger] sets@[j]).cells@ == s;
                if j < i {
                    assert(sets@[j] == old_sets[j]);
                } else if j > i {
                    assert(sets@[j] == old_sets[j - 1]);
                }
            }
            if holds_cells(old_sets, s) {
                let j = choose|j: int| 0 <= j < old_sets.len() && (#[trigger] old_sets[j]).cells@ == s;
                if j < i {
                    assert(sets@[j] == old_sets[j]);
                } else {
                    assert(sets@[j + 1] == old_sets[j]);
                }
            }
            if s == set.cells@ {
                assert(sets@[i as int] == set);
            }
        }
    }
}

/// A copy of the list.
fn copy_cells(v: &Vec<u8>) -> (r: Vec<u8>)
    ensures
        r@ == v@,
{
    let mut r: Vec<u8> = Vec::new();
    let mut i: usize = 0;
    while i < v.len()
        invariant
            i <= v@.len(),
            r@ == v@.take(i as int),
        decreases v@.len() - i,
    {
        r.push(v[i]);
        assert(r@ =~= v@.take(i + 1));
        i = i + 1;
    }
    assert(v@.take(v@.len() as int) =~= v@);
    r
}

/// Every almost locked set of the grid with at most `max_size` cells, once each: with the
/// first house that holds all its cells and with its digits, in increasing lexicographic
/// order of its cells.
pub fn find_almost_locked_sets(grid: &Grid, max_size: usize) -> (r: Vec<AlmostLockedSet>)
    requires
        grid.wf(),
    ensures
        forall|j: int| 0 <= j < r@.len() ==> (#[trigger] r@[j]).found_in(*grid, max_size as nat),
        forall|i: int, j: int|
            0 <= i < j < r@.len() ==> seq_before(cells_key((#[trigger] r@[i]).cells@), cells_key((#[trigger] r@[j]).cells@)),
        forall|h: int, s: Set<u8>| #[trigger] als_in(*grid, h, s, max_size as nat) ==> holds_cells(r@, s),
{
    let ghost max = max_size as nat;
    let mut sets: Vec<AlmostLockedSet> = Vec::new();
    let mut keys: Vec<Vec<u8>> = Vec::new();
    let mut house: u8 = 0;
    while house < 27
        invariant
            house <= 27,
            grid.wf(),
            max == max_size as nat,
            sorted_sets(*grid, max, sets@, keys@),
            forall|h: int, s: Set<u8>| 0 <= h < house && #[trigger] als_in(*grid, h, s, max) ==> holds_cells(sets@, s),
        decreases 27 - house,
    {
        let empty = grid.house_empty_cells(house);
        let cells = empty.values();
        proof {
            IndexSet::lemma_bounds(empty);
        }
        let bound = if max_size < cells.len() {
            max_size
        } else {
            cells.len()
        };
        let mut size: usize = 1;
        while size <= bound
            invariant
                1 <= size <= bound + 1,
                bound <= max_size,
                bound <= cells@.len() <= 81,
                house < 27,
                grid.wf(),
                max == max_size as nat,
                increasing(cells@),
                forall|c: u8| cells@.contains(c) <==> (in_house(c as int, house as int) && grid.value(c as int) == 0),
                sorted_sets(*grid, max, sets@, keys@),
                forall|h: int, s: Set<u8>| 0 <= h < house && #[trigger] als_in(*grid, h, s, max) ==> holds_cells(sets@, s),
                forall|s: Set<u8>| #[trigger] als_in(*grid, house as int, s, max) && s.len() < size ==> holds_cells(sets@, s),
            decreases bound + 1 - size,
        {
            let combos = cell_combinations(&cells, size);
            let mut j: usize = 0;
            while j < combos.len()
                invariant
                    j <= combos@.len(),
                    1 <= size <= bound,
                    bound <= max_size,
                    bound <= cells@.len() <= 81,
                    house < 27,
                    grid.wf(),
                    max == max_size as nat,
                    increasing(cells@),
                    forall|c: u8| cells@.contains(c) <==> (in_house(c as int, house as int) && grid.value(c as int) == 0),
                    forall|t: int| 0 <= t < combos@.len() ==> picks(cells@, #[trigger] combos@[t]@, size as int),
                    sorted_sets(*grid, max, sets@, keys@),
                    forall|h: int, s: Set<u8>| 0 <= h < house && #[trigger] als_in(*grid, h, s, max) ==> holds_cells(sets@, s),
                    forall|s: Set<u8>| #[trigger] als_in(*grid, house as int, s, max) && s.len() < size ==> holds_cells(sets@, s),
                    forall|t: int|
                        0 <= t < j && als_in(*grid, house as int, (#[trigger] combos@[t])@.to_set(), max) ==> holds_cells(
                            sets@,
                            combos@[t]@.to_set(),
                        ),
                decreases combos@.len() - j,
            {
                let sel = &combos[j];
                let ghost sq = sel@;
                proof {
                    assert(picks(cells@, combos@[j as int]@, size as int));
                    lemma_increasing_len(sq);
                    assert forall|i: int| 0 <= i < sq.len() implies #[trigger] sq[i] < 81 && in_house(sq[i] as int, house as int)
                        && grid.value(sq[i] as int) == 0 by {
                        assert(combos@[j as int]@ == sq);
                        assert(cells@.contains(combos@[j as int]@[i]));
                        assert(cells@.contains(sq[i]));
                        assert(in_house(sq[i] as int, house as int));
                    }
                }
                let set_cells = IndexSet::new_from_values(sel.as_slice());
                let values = selection_digits(grid, sel);
                proof {
                    assert(set_cells@ =~= sq.to_set()) by {
                        assert forall|c: u8| sq.contains(c) implies c < 81 by {
                            let i = choose|i: int| 0 <= i < sq.len() && sq[i] == c;
                        }
                    }
                }
                if values.count() as usize == size + 1 {
                    let ghost t = sq.to_set();
                    proof {
                        assert forall|c: u8| t.contains(c) implies #[trigger] in_house(c as int, house as int) && grid.value(
                            c as int,
                        ) == 0 by {
                            let i = choose|i: int| 0 <= i < sq.len() && sq[i] == c;
                        }
                        assert(spans(t, house as int));
                        assert(als_in(*grid, house as int, t, max));
                        if !holds_cells(sets@, t) {
                            assert forall|h: int| 0 <= h < house implies !spans(t, h) by {
                                if spans(t, h) {
                                    assert(als_in(*grid, h, t, max));
                                }
                            }
                        }
                    }
                    let set = AlmostLockedSet { house, cells: set_cells, values };
                    let key = copy_cells(sel);
                    insert_set(&mut sets, &mut keys, set, key, Ghost(*grid), Ghost(max));
                } else {
                    proof {
                        assert(!als_in(*grid, house as int, sq.to_set(), max));
                    }
                }
                j = j + 1;
            }
            proof {
                assert forall|s: Set<u8>| #[trigger] als_in(*grid, house as int, s, max) && s.len() < size + 1 implies holds_cells(
                    sets@,
                    s,
                ) by {
                    if s.len() == size {
                        lemma_cells_key(s);
                        let q = cells_key(s);
                        assert forall|i: int| 0 <= i < q.len() implies cells@.contains(#[trigger] q[i]) by {
                            assert(q.to_set().contains(q[i]));
                            assert(s.contains(q[i]));
                            assert(in_house(q[i] as int, house as int));
                            assert(grid.value(q[i] as int) == 0);
                        }
                        assert(picks(cells@, q, size as int));
                        let t = choose|t: int| 0 <= t < combos@.len() && #[trigger] combos@[t]@ == q;
                        assert(combos@[t]@.to_set() == s);
                    }
                }
            }
            size = size + 1;
        }
        proof {
            assert forall|s: Set<u8>| #[trigger] als_in(*grid, house as int, s, max) implies holds_cells(sets@, s) by {
                assert(s.subset_of(empty@)) by {
                    assert forall|c: u8| s.contains(c) implies empty@.contains(c) by {
                        assert(in_house(c as int, house as int));
                        assert(grid.value(c as int) == 0);
                    }
                }
                vstd::set_lib::lemma_len_subset(s, empty@);
            }
        }
        house = house + 1;
    }
    proof {
        assert forall|j: int| 0 <= j < sets@.len() implies cells_key((#[trigger] sets@[j]).cells@) == keys@[j]@ by {
            lemma_key_of_listing(keys@[j]@, sets@[j].cells@);
        }
        assert forall|i: int, j: int|
            0 <= i < j < sets@.len() implies seq_before(cells_key((#[trigger] sets@[i]).cells@), cells_key((#[trigger] sets@[j]).cells@)) by {
            assert(cells_key(sets@[i].cells@) == keys@[i]@);
            assert(cells_key(sets@[j].cells@) == keys@[j]@);
        }
    }
    sets
}

/// A digit that two almost locked sets share and that can stand in only one of them: the
/// cells of each set that hold it.
#[derive(Debug, Clone, Copy, PartialEq, Eq, Hash)]
pub struct RestrictedCommonCandidate {
    pub value: u8,
    pub left_cells: IndexSet,
    pub right_cells: IndexSet,
}

/// The cells of `cells` with candidate `v`.
pub open spec fn value_cells(g: Grid, cells: Set<u8>, v: u8) -> Set<u8> {
    Set::new(|c: u8| cells.contains(c) && g.has_cand(c as int, v))
}

/// Every cell of `a` sees every cell of `b`.
pub open spec fn all_see(a: Set<u8>, b: Set<u8>) -> bool {
    forall|x: u8, y: u8| a.contains(x) && b.contains(y) ==> #[trigger] sees(x as int, y as int)
}

/// Digit `v` is a restricted common candidate of the two sets: both list it, no cell of
/// both sets holds it, each set has a cell that holds it, and every such cell of the one
/// sees every such cell of the other.
pub open spec fn restricted(g: Grid, left: AlmostLockedSet, right: AlmostLockedSet, v: u8) -> bool {
    let lc = value_cells(g, left.cells@, v);
    let rc = value_cells(g, right.cells@, v);
    &&& left.values@.contains(v)
    &&& right.values@.contains(v)
    &&& forall|c: u8| #[trigger] left.cells@.contains(c) && right.cells@.contains(c) ==> !lc.contains(c) && !rc.contains(c)
    &&& lc != Set::<u8>::empty()
    &&& rc != Set::<u8>::empty()
    &&& all_see(lc, rc)
}

/// Whether every cell of `a` sees every cell of `b`.
fn sets_see(a: &IndexSet, b: &IndexSet) -> (r: bool)
    ensures
        r == all_see(a@, b@),
{
    let av = a.values();
    proof {
        IndexSet::lemma_bounds(*a);
    }
    let mut i: usize = 0;
    while i < av.len()
        invariant
            i <= av@.len(),
            forall|c: u8| av@.contains(c) <==> a@.contains(c),
            forall|c: u8| #[trigger] a@.contains(c) ==> c < 81,
            forall|k: int, y: u8| 0 <= k < i && b@.contains(y) ==> #[trigger] sees(av@[k] as int, y as int),
        decreases av@.len() - i,
    {
        let x = av[i];
        assert(av@.contains(x));
        let outside = b.difference(&get_cell_buddies(x));
        if !outside.is_empty() {
            proof {
                let y = choose|y: u8| outside@.contains(y);
                assert(!outside@.is_empty() ==> exists|y: u8| outside@.contains(y)) by {
                    if !(exists|y: u8| outside@.contains(y)) {
                        assert(outside@ =~= Set::<u8>::empty());
                    }
                }
                assert(b@.contains(y) && !sees(x as int, y as int));
            }
            return false;
        }
        proof {
            assert forall|y: u8| b@.contains(y) implies #[trigger] sees(x as int, y as int) by {
                if !sees(x as int, y as int) {
                    assert(outside@.contains(y));
                }
            }
        }
        i = i + 1;
    }
    proof {
        assert forall|x: u8, y: u8| a@.contains(x) && b@.contains(y) implies #[trigger] sees(x as int, y as int) by {
            assert(av@.contains(x));
            let k = choose|k: int| 0 <= k < av@.len() && av@[k] == x;
        }
    }
    true
}

/// The restricted common candidates of two sets, by increasing digit, with the cells of
/// each set that hold them.
pub fn restricted_common_candidates(grid: &Grid, left: &AlmostLockedSet, right: &AlmostLockedSet) -> (r: Vec<
    RestrictedCommonCandidate,
>)
    requires
        grid.wf(),
    ensures
        forall|i: int|
            0 <= i < r@.len() ==> restricted(*grid, *left, *right, (#[trigger] r@[i]).value) && r@[i].left_cells@
                == value_cells(*grid, left.cells@, r@[i].value) && r@[i].right_cells@ == value_cells(
                *grid,
                right.cells@,
                r@[i].value,
            ),
        forall|i: int, j: int| 0 <= i < j < r@.len() ==> (#[trigger] r@[i]).value < (#[trigger] r@[j]).value,
        forall|v: u8| restricted(*grid, *left, *right, v) ==> exists|i: int| 0 <= i < r@.len() && (#[trigger] r@[i]).value == v,
{
    let common = left.values.intersect(&right.values).values();
    let overlap = left.cells.intersect(&right.cells);
    let mut r: Vec<RestrictedCommonCandidate> = Vec::new();
    let mut i: usize = 0;
    while i < common.len()
        invariant
            i <= common@.len(),
            grid.wf(),
            overlap@ == left.cells@.intersect(right.cells@),
            forall|v: u8| common@.contains(v) <==> (left.values@.contains(v) && right.values@.contains(v)),
            forall|a: int, b: int| 0 <= a < b < common@.len() ==> common@[a] < common@[b],
            forall|k: int|
                0 <= k < r@.len() ==> restricted(*grid, *left, *right, (#[trigger] r@[k]).value) && r@[k].left_cells@
                    == value_cells(*grid, left.cells@, r@[k].value) && r@[k].right_cells@ == value_cells(
                    *grid,
                    right.cells@,
                    r@[k].value,
                ),
            forall|k: int| 0 <= k < r@.len() ==> exists|a: int| 0 <= a < i && common@[a] == (#[trigger] r@[k]).value,
            forall|k: int, l: int| 0 <= k < l < r@.len() ==> (#[trigger] r@[k]).value < (#[trigger] r@[l]).value,
            forall|a: int|
                0 <= a < i && restricted(*grid, *left, *right, #[trigger] common@[a]) ==> exists|k: int|
                    0 <= k < r@.len() && (#[trigger] r@[k]).value == common@[a],
        decreases common@.len() - i,
    {
        let value = common[i];
        let left_cells = left.candidate_cells(grid, value);
        let right_cells = right.candidate_cells(grid, value);
        assert(left_cells@ =~= value_cells(*grid, left.cells@, value));
        assert(right_cells@ =~= value_cells(*grid, right.cells@, value));
        let ok = overlap.intersect(&left_cells.union(&right_cells)).is_empty() && !left_cells.is_empty()
            && !right_cells.is_empty() && sets_see(&left_cells, &right_cells);
        proof {
            assert(common@.contains(value));
            let shared = overlap@.intersect(left_cells@.union(right_cells@));
            if ok {
                assert forall|c: u8| #[trigger] left.cells@.contains(c) && right.cells@.contains(c) implies !left_cells@.contains(c)
                    && !right_cells@.contains(c) by {
                    if left_cells@.contains(c) || right_cells@.contains(c) {
                        assert(shared.contains(c));
                    }
                }
                assert(restricted(*grid, *left, *right, value));
            } else {
                if shared != Set::<u8>::empty() {
                    let c = choose|c: u8| shared.contains(c);
                    assert(shared.contains(c)) by {
                        if !(exists|c: u8| shared.contains(c)) {
                            assert(shared =~= Set::<u8>::empty());
                        }
                    }
                    assert(left.cells@.contains(c) && right.cells@.contains(c));
                }
                assert(!restricted(*grid, *left, *right, value));
            }
        }
        if ok {
            let ghost before = r@;
            r.push(RestrictedCommonCandidate { value, left_cells, right_cells });
            proof {
                assert forall|k: int| 0 <= k < r@.len() implies exists|a: int|
                    0 <= a < i + 1 && common@[a] == (#[trigger] r@[k]).value by {
                    if k < before.len() {
                        assert(r@[k] == before[k]);
                        let a = choose|a: int| 0 <= a < i && common@[a] == before[k].value;
                    } else {
                        assert(common@[i as int] == r@[k].value);
                    }
                }
                assert forall|k: int, l: int| 0 <= k < l < r@.len() implies (#[trigger] r@[k]).value < (#[trigger] r@[l]).value by {
                    if l == before.len() {
                        assert(r@[k] == before[k]);
                        let a = choose|a: int| 0 <= a < i && common@[a] == before[k].value;
                    } else {
                        assert(r@[k] == before[k]);
                        assert(r@[l] == before[l]);
                    }
                }
                assert forall|a: int|
                    0 <= a < i + 1 && restricted(*grid, *left, *right, #[trigger] common@[a]) implies exists|k: int|
                        0 <= k < r@.len() && (#[trigger] r@[k]).value == common@[a] by {
                    if a < i {
                        let k = choose|k: int| 0 <= k < before.len() && (#[trigger] before[k]).value == common@[a];
                        assert(r@[k] == before[k]);
                    } else {
                        assert(r@[before.len() as int].value == common@[a]);
                    }
                }
            }
        }
        i = i + 1;
    }
    proof {
        assert forall|v: u8| restricted(*grid, *left, *right, v) implies exists|k: int| 0 <= k < r@.len() && (#[trigger] r@[k]).value == v by {
            assert(common@.contains(v));
            let a = choose|a: int| 0 <= a < common@.len() && common@[a] == v;
            assert(restricted(*grid, *left, *right, common@[a]));
        }
    }
    r
}

/// How a step of almost locked sets is built.
#[derive(Debug, Clone, Copy, PartialEq, Eq, Hash, Structural)]
pub enum AlsType {
    Xz,
    XYWing,
    Chain,
    DeathBlossom,
    WxyzWing,
}

/// A step built from almost locked sets: the sets, the restricted common candidates that
/// link them, the candidates of each set, and the candidates it removes.
#[derive(Debug, Clone, PartialEq, Eq, Hash)]
pub struct AlsStep {
    pub als_type: AlsType,
    pub sets: Vec<AlmostLockedSet>,
    pub rccs: Vec<RestrictedCommonCandidate>,
    pub highlight_candidates: Vec<Vec<Candidate>>,
    pub remove_candidates: Vec<Candidate>,
}

/// Digit `v` is a restricted common candidate of the two sets, taken either way round.
pub open spec fn linked(g: Grid, a: AlmostLockedSet, b: AlmostLockedSet, v: u8) -> bool {
    restricted(g, a, b, v) || restricted(g, b, a, v)
}

/// The cells with candidate `z` that lie outside every set and see every cell of the sets
/// that holds `z`.
pub open spec fn targets(g: Grid, sets: Seq<AlmostLockedSet>, z: u8) -> Set<u8> {
    Set::new(
        |c: u8|
            c < 81 && g.has_cand(c as int, z) && (forall|k: int| 0 <= k < sets.len() ==> !(#[trigger] sets[k]).cells@.contains(c))
                && (forall|k: int, d: u8|
                0 <= k < sets.len() && #[trigger] value_cells(g, sets[k].cells@, z).contains(d) ==> sees(d as int, c as int)),
    )
}

/// `l` lists, ordered by cell and digit, every candidate of the cells of `cells`.
pub open spec fn lists_candidates(g: Grid, l: Seq<Candidate>, cells: Set<u8>) -> bool {
    &&& sorted_cands(l)
    &&& forall|i: int| 0 <= i < l.len() ==> cells.contains((#[trigger] l[i]).0) && g.cands(l[i].0 as int).contains(l[i].1)
    &&& forall|c: u8, v: u8| cells.contains(c) && #[trigger] g.cands(c as int).contains(v) ==> l.contains(Candidate(c, v))
}

/// Each set is linked to the next by its restricted common candidate, and two links in a
/// row use different digits.
pub open spec fn chained(g: Grid, sets: Seq<AlmostLockedSet>, rccs: Seq<RestrictedCommonCandidate>) -> bool {
    &&& sets.len() >= 2
    &&& rccs.len() == sets.len() - 1
    &&& forall|i: int| 0 <= i < rccs.len() ==> linked(g, sets[i], sets[i + 1], (#[trigger] rccs[i]).value)
    &&& forall|i: int| 0 < i < rccs.len() ==> (#[trigger] rccs[i]).value != rccs[i - 1].value
}

/// Digit `z` lies in both end sets and differs from the digits of the first and last
/// links; `rm` removes it from every cell outside the ends that sees all their `z` cells.
pub open spec fn end_removal(g: Grid, sets: Seq<AlmostLockedSet>, rccs: Seq<RestrictedCommonCandidate>, rm: Seq<Candidate>, z: u8) -> bool {
    &&& sets[0].values@.contains(z)
    &&& sets.last().values@.contains(z)
    &&& z != rccs[0].value
    &&& z != rccs.last().value
    &&& cand_list(rm, z, targets(g, seq![sets[0], sets.last()], z))
}

/// `stem` is an empty cell with two to four candidates; the `k`-th set holds the `k`-th
/// of them (in increasing order) in some cells, and all of those see the stem; `z` lies
/// in every set and not in the stem.
pub open spec fn blossom(g: Grid, sets: Seq<AlmostLockedSet>, stem: u8, z: u8) -> bool {
    let digits = cells_key(g.cands(stem as int));
    &&& stem < 81
    &&& g.value(stem as int) == 0
    &&& 2 <= g.cands(stem as int).len() <= 4
    &&& sets.len() == digits.len()
    &&& forall|k: int|
        0 <= k < sets.len() ==> value_cells(g, (#[trigger] sets[k]).cells@, digits[k]) != Set::<u8>::empty() && forall|c: u8|
            value_cells(g, sets[k].cells@, digits[k]).contains(c) ==> #[trigger] sees(stem as int, c as int)
    &&& forall|k: int| 0 <= k < sets.len() ==> (#[trigger] sets[k]).values@.contains(z)
    &&& !g.cands(stem as int).contains(z)
}

impl AlsStep {
    /// The sets are almost locked sets of `g` with their candidates listed, and the
    /// removals are not empty. A death blossom has a stem and removes a digit of all its
    /// petals from the cells outside them that see all their cells with it; the other
    /// kinds chain two (XZ and WXYZ-Wing, which has four cells in all), three (XY-Wing)
    /// or at least three (chain) sets by restricted common candidates and remove a digit
    /// of both ends from the cells outside them that see all their cells with it.
    pub open spec fn pattern(self, g: Grid) -> bool {
        let sets = self.sets@;
        let rccs = self.rccs@;
        let rm = self.remove_candidates@;
        &&& rm.len() > 0
        &&& forall|k: int| 0 <= k < sets.len() ==> (#[trigger] sets[k]).found_in(g, DEFAULT_MAX_ALS_SIZE as nat)
        &&& self.highlight_candidates@.len() == sets.len()
        &&& forall|k: int| 0 <= k < sets.len() ==> lists_candidates(g, (#[trigger] self.highlight_candidates@[k])@, sets[k].cells@)
        &&& match self.als_type {
            AlsType::DeathBlossom => exists|stem: u8, z: u8|
                #[trigger] blossom(g, sets, stem, z) && cand_list(rm, z, targets(g, sets, z)),
            _ => {
                &&& chained(g, sets, rccs)
                &&& exists|z: u8| #[trigger] end_removal(g, sets, rccs, rm, z)
                &&& match self.als_type {
                    AlsType::Xz => sets.len() == 2 && sets[0].cells@.union(sets[1].cells@).len() != 4,
                    AlsType::WxyzWing => sets.len() == 2 && sets[0].cells@.union(sets[1].cells@).len() == 4,
                    AlsType::XYWing => sets.len() == 3,
                    _ => sets.len() >= 3,
                }
            },
        }
    }

    pub open spec fn title(self) -> Seq<char> {
        match self.als_type {
            AlsType::Xz => "ALS-XZ"@,
            AlsType::XYWing => "ALS-XY-Wing"@,
            AlsType::Chain => "ALS Chain"@,
            AlsType::DeathBlossom => "Death Blossom"@,
            AlsType::WxyzWing => "WXYZ-Wing"@,
        }
    }

    pub open spec fn rating(self) -> u32 {
        match self.als_type {
            AlsType::Xz => 360,
            AlsType::XYWing => 380,
            AlsType::Chain => 420,
            AlsType::DeathBlossom => 460,
            AlsType::WxyzWing => 300,
        }
    }

    /// Removes the candidates.
    pub fn apply(&self, grid: &mut Grid)
        requires
            old(grid).wf(),
            self.remove_candidates@.len() > 0,
            removable(*old(grid), self.remove_candidates@),
        ensures
            final(grid).wf(),
            removed(*old(grid), *final(grid), self.remove_candidates@),
    {
        remove_all(grid, &self.remove_candidates);
    }

    /// The technique's name.
    pub fn name(&self) -> (r: &'static str)
        ensures
            r@ == self.title(),
    {
        match self.als_type {
            AlsType::Xz => "ALS-XZ",
            AlsType::XYWing => "ALS-XY-Wing",
            AlsType::Chain => "ALS Chain",
            AlsType::DeathBlossom => "Death Blossom",
            AlsType::WxyzWing => "WXYZ-Wing",
        }
    }

    /// The technique's rating.
    pub fn difficulty(&self) -> (r: u32)
        ensures
            r == self.rating(),
    {
        match self.als_type {
            AlsType::Xz => 360,
            AlsType::XYWing => 380,
            AlsType::Chain => 420,
            AlsType::DeathBlossom => 460,
            AlsType::WxyzWing => 300,
        }
    }
}

/// Every candidate of the cells of the set, ordered by cell and digit.
fn als_candidates(grid: &Grid, set: &AlmostLockedSet) -> (r: Vec<Candidate>)
    requires
        grid.wf(),
    ensures
        lists_candidates(*grid, r@, set.cells@),
{
    let cells = set.cells.values();
    proof {
        IndexSet::lemma_bounds(set.cells);
    }
    let mut r: Vec<Candidate> = Vec::new();
    let mut i: usize = 0;
    while i < cells.len()
        invariant
            i <= cells@.len(),
            grid.wf(),
            forall|c: u8| cells@.contains(c) <==> set.cells@.contains(c),
            forall|c: u8| #[trigger] set.cells@.contains(c) ==> c < 81,
            forall|a: int, b: int| 0 <= a < b < cells@.len() ==> cells@[a] < cells@[b],
            sorted_cands(r@),
            forall|k: int| 0 <= k < r@.len() ==> set.cells@.contains((#[trigger] r@[k]).0) && grid.cands(r@[k].0 as int).contains(r@[k].1),
            forall|k: int| 0 <= k < r@.len() ==> exists|a: int| 0 <= a < i && cells@[a] == (#[trigger] r@[k]).0,
            forall|a: int, v: u8| 0 <= a < i && #[trigger] grid.cands(cells@[a] as int).contains(v) ==> r@.contains(Candidate(cells@[a], v)),
        decreases cells@.len() - i,
    {
        let c = cells[i];
        assert(cells@.contains(c));
        let digits = grid.get_cell_candidate(c).values();
        let ghost start = r@;
        assert forall|k: int| 0 <= k < start.len() implies (#[trigger] start[k]).0 < c by {
            assert(start[k] == r@[k]);
            let a = choose|a: int| 0 <= a < i && cells@[a] == r@[k].0;
        }
        let mut t: usize = 0;
        while t < digits.len()
            invariant
                t <= digits@.len(),
                i < cells@.len(),
                c == cells@[i as int],
                c < 81,
                set.cells@.contains(c),
                forall|v: u8| digits@.contains(v) <==> grid.cands(c as int).contains(v),
                forall|a: int, b: int| 0 <= a < b < digits@.len() ==> digits@[a] < digits@[b],
                forall|a: int, b: int| 0 <= a < b < cells@.len() ==> cells@[a] < cells@[b],
                start.len() <= r@.len(),
                r@.subrange(0, start.len() as int) == start,
                forall|k: int| 0 <= k < start.len() ==> (#[trigger] start[k]).0 < c,
                forall|k: int| start.len() <= k < r@.len() ==> (#[trigger] r@[k]).0 == c && exists|a: int| 0 <= a < t && digits@[a] == r@[k].1,
                forall|a: int| 0 <= a < t ==> r@.contains(Candidate(c, #[trigger] digits@[a])),
                sorted_cands(r@),
                forall|k: int| 0 <= k < r@.len() ==> set.cells@.contains((#[trigger] r@[k]).0) && grid.cands(r@[k].0 as int).contains(r@[k].1),
            decreases digits@.len() - t,
        {
            let v = digits[t];
            assert(digits@.contains(v));
            let ghost before = r@;
            r.push(Candidate::new(c, v));
            proof {
                assert forall|a: int, b: int| 0 <= a < b < r@.len() implies crate::solver::naked_set::cand_before(#[trigger] r@[a], #[trigger] r@[b]) by {
                    if b == r@.len() - 1 {
                        if a < start.len() {
                            assert(r@[a] == before.subrange(0, start.len() as int)[a]);
                            assert(r@[a] == start[a]);
                        } else {
                            assert(r@[a] == before[a]);
                            let x = choose|x: int| 0 <= x < t && digits@[x] == before[a].1;
                        }
                    } else {
                        assert(r@[a] == before[a]);
                        assert(r@[b] == before[b]);
                    }
                }
                assert(r@.subrange(0, start.len() as int) =~= before.subrange(0, start.len() as int));
                assert forall|k: int| start.len() <= k < r@.len() implies (#[trigger] r@[k]).0 == c && exists|a: int|
                    0 <= a < t + 1 && digits@[a] == r@[k].1 by {
                    if k < before.len() {
                        assert(r@[k] == before[k]);
                        let a = choose|a: int| 0 <= a < t && digits@[a] == before[k].1;
                    } else {
                        assert(digits@[t as int] == r@[k].1);
                    }
                }
                assert forall|a: int| 0 <= a < t + 1 implies r@.contains(Candidate(c, #[trigger] digits@[a])) by {
                    if a < t {
                        let k = choose|k: int| 0 <= k < before.len() && before[k] == Candidate(c, digits@[a]);
                        assert(r@[k] == before[k]);
                    } else {
                        assert(r@[r@.len() - 1] == Candidate(c, digits@[a]));
                    }
                }
            }
            t = t + 1;
        }
        proof {
            assert forall|k: int| 0 <= k < r@.len() implies exists|a: int| 0 <= a < i + 1 && cells@[a] == (#[trigger] r@[k]).0 by {
                if k < start.len() {
                    assert(r@[k] == r@.subrange(0, start.len() as int)[k]);
                    let x = choose|x: int| 0 <= x < i && cells@[x] == start[k].0;
                } else {
                    assert(cells@[i as int] == r@[k].0);
                }
            }
            assert forall|a: int, v: u8| 0 <= a < i + 1 && #[trigger] grid.cands(cells@[a] as int).contains(v) implies r@.contains(Candidate(cells@[a], v)) by {
                if a < i {
                    assert(start.contains(Candidate(cells@[a], v)));
                    let k = choose|k: int| 0 <= k < start.len() && start[k] == Candidate(cells@[a], v);
                    assert(r@[k] == r@.subrange(0, start.len() as int)[k]);
                } else {
                    assert(digits@.contains(v));
                    let x = choose|x: int| 0 <= x < digits@.len() && digits@[x] == v;
                    assert(r@.contains(Candidate(c, digits@[x])));
                }
            }
        }
        i = i + 1;
    }
    proof {
        assert forall|c: u8, v: u8| set.cells@.contains(c) && #[trigger] grid.cands(c as int).contains(v) implies r@.contains(Candidate(c, v)) by {
            assert(cells@.contains(c));
            let a = choose|a: int| 0 <= a < cells@.len() && cells@[a] == c;
            assert(grid.cands(cells@[a] as int).contains(v));
        }
    }
    r
}

/// The candidate `z` of every cell outside the sets that sees all their cells holding
/// `z`, by increasing cell.
fn removals_for(grid: &Grid, sets: &Vec<AlmostLockedSet>, z: u8) -> (r: Vec<Candidate>)
    requires
        grid.wf(),
    ensures
        cand_list(r@, z, targets(*grid, sets@, z)),
{
    let mut zcells: Vec<IndexSet> = Vec::new();
    let mut k: usize = 0;
    while k < sets.len()
        invariant
            k <= sets@.len(),
            grid.wf(),
            zcells@.len() == k,
            forall|j: int| 0 <= j < k ==> (#[trigger] zcells@[j])@ == value_cells(*grid, sets@[j].cells@, z),
        decreases sets@.len() - k,
    {
        let cs = sets[k].candidate_cells(grid, z);
        assert(cs@ =~= value_cells(*grid, sets@[k as int].cells@, z));
        zcells.push(cs);
        k = k + 1;
    }
    let ghost tg = targets(*grid, sets@, z);
    let mut r: Vec<Candidate> = Vec::new();
    let mut c: u8 = 0;
    while c < 81
        invariant
            c <= 81,
            grid.wf(),
            zcells@.len() == sets@.len(),
            forall|j: int| 0 <= j < sets@.len() ==> (#[trigger] zcells@[j])@ == value_cells(*grid, sets@[j].cells@, z),
            tg == targets(*grid, sets@, z),
            forall|i: int| 0 <= i < r@.len() ==> (#[trigger] r@[i]).1 == z && tg.contains(r@[i].0) && r@[i].0 < c,
            forall|i: int, j: int| 0 <= i < j < r@.len() ==> (#[trigger] r@[i]).0 < (#[trigger] r@[j]).0,
            forall|d: u8| d < c && tg.contains(d) ==> exists|i: int| 0 <= i < r@.len() && (#[trigger] r@[i]).0 == d,
        decreases 81 - c,
    {
        let peers = get_cell_buddies(c);
        let mut ok = grid.cell_has_candidate(c, z);
        let mut j: usize = 0;
        while j < sets.len()
            invariant
                j <= sets@.len(),
                c < 81,
                zcells@.len() == sets@.len(),
                peers@ == crate::grid_constant::peers(c as int),
                forall|i: int| 0 <= i < sets@.len() ==> (#[trigger] zcells@[i])@ == value_cells(*grid, sets@[i].cells@, z),
                ok == (grid.has_cand(c as int, z) && (forall|i: int| 0 <= i < j ==> !(#[trigger] sets@[i]).cells@.contains(c))
                    && (forall|i: int, d: u8|
                    0 <= i < j && #[trigger] value_cells(*grid, sets@[i].cells@, z).contains(d) ==> sees(d as int, c as int))),
            decreases sets@.len() - j,
        {
            let inside = sets[j].cells.contains(c);
            let outside = zcells[j].difference(&peers);
            let fine = !inside && outside.is_empty();
            proof {
                let zc = value_cells(*grid, sets@[j as int].cells@, z);
                if fine {
                    assert forall|d: u8| zc.contains(d) implies sees(d as int, c as int) by {
                        if !peers@.contains(d) {
                            assert(outside@.contains(d));
                        }
                    }
                } else if !inside {
                    assert(!(outside@ =~= Set::<u8>::empty()));
                    let d = choose|d: u8| !(outside@.contains(d) == Set::<u8>::empty().contains(d));
                    assert(zc.contains(d) && !sees(c as int, d as int));
                }
            }
            ok = ok && fine;
            proof {
                assert(ok == (grid.has_cand(c as int, z) && (forall|i: int| 0 <= i < j + 1 ==> !(#[trigger] sets@[i]).cells@.contains(c))
                    && (forall|i: int, d: u8|
                    0 <= i < j + 1 && #[trigger] value_cells(*grid, sets@[i].cells@, z).contains(d) ==> sees(d as int, c as int)))) by {
                    if !fine {
                        if sets@[j as int].cells@.contains(c) {
                        } else {
                            let zc = value_cells(*grid, sets@[j as int].cells@, z);
                            let d = choose|d: u8| zc.contains(d) && !sees(c as int, d as int);
                            assert(value_cells(*grid, sets@[j as int].cells@, z).contains(d));
                        }
                    }
                }
            }
            j = j + 1;
        }
        if ok {
            let ghost before = r@;
            r.push(Candidate::new(c, z));
            proof {
                assert(tg.contains(c));
                assert forall|d: u8| d < c + 1 && tg.contains(d) implies exists|i: int| 0 <= i < r@.len() && (#[trigger] r@[i]).0 == d by {
                    if d < c {
                        let i = choose|i: int| 0 <= i < before.len() && (#[trigger] before[i]).0 == d;
                        assert(r@[i] == before[i]);
                    } else {
                        assert(r@[r@.len() - 1].0 == d);
                    }
                }
            }
        } else {
            proof {
                assert(!tg.contains(c));
            }
        }
        c = c + 1;
    }
    r
}

/// The candidate `value` of every cell outside both sets that sees all their cells
/// holding it, by increasing cell.
fn endpoint_removals(grid: &Grid, left: &AlmostLockedSet, right: &AlmostLockedSet, value: u8) -> (r: Vec<Candidate>)
    requires
        grid.wf(),
    ensures
        cand_list(r@, value, targets(*grid, seq![*left, *right], value)),
{
    let mut ends: Vec<AlmostLockedSet> = Vec::new();
    ends.push(*left);
    ends.push(*right);
    assert(ends@ =~= seq![*left, *right]);
    removals_for(grid, &ends, value)
}

/// The sets are the almost locked sets of `g` searched with the default size.
pub open spec fn all_found(g: Grid, sets: Seq<AlmostLockedSet>) -> bool {
    forall|k: int| 0 <= k < sets.len() ==> (#[trigger] sets[k]).found_in(g, DEFAULT_MAX_ALS_SIZE as nat)
}

/// For each set, the other sets it is linked to, each with the restricted common
/// candidate of the link.
pub open spec fn links_ok(g: Grid, sets: Seq<AlmostLockedSet>, links: Seq<Vec<(usize, RestrictedCommonCandidate)>>) -> bool {
    &&& links.len() == sets.len()
    &&& forall|m: int, e: int|
        0 <= m < links.len() && 0 <= e < links[m]@.len() ==> (#[trigger] links[m]@[e]).0 < sets.len() && linked(
            g,
            sets[m],
            sets[links[m]@[e].0 as int],
            links[m]@[e].1.value,
        )
}

/// Set `m` has a link to set `o` with restricted common candidate `v`.
pub open spec fn has_link(links: Seq<Vec<(usize, RestrictedCommonCandidate)>>, m: int, o: int, v: u8) -> bool {
    exists|e: int| 0 <= e < links[m]@.len() && (#[trigger] links[m]@[e]).0 == o && links[m]@[e].1.value == v
}

/// `b` keeps every link of `a`, in place.
pub open spec fn links_grow(a: Seq<Vec<(usize, RestrictedCommonCandidate)>>, b: Seq<Vec<(usize, RestrictedCommonCandidate)>>) -> bool {
    &&& a.len() == b.len()
    &&& forall|m: int| 0 <= m < a.len() ==> (#[trigger] a[m])@.len() <= b[m]@.len()
    &&& forall|m: int, e: int| 0 <= m < a.len() && 0 <= e < a[m]@.len() ==> #[trigger] b[m]@[e] == a[m]@[e]
}

/// A link stays as links are added.
proof fn lemma_link_kept(
    a: Seq<Vec<(usize, RestrictedCommonCandidate)>>,
    b: Seq<Vec<(usize, RestrictedCommonCandidate)>>,
    m: int,
    o: int,
    v: u8,
)
    requires
        links_grow(a, b),
        0 <= m < a.len(),
        has_link(a, m, o, v),
    ensures
        has_link(b, m, o, v),
{
    let e = choose|e: int| 0 <= e < a[m]@.len() && (#[trigger] a[m]@[e]).0 == o && a[m]@[e].1.value == v;
    assert(b[m]@[e] == a[m]@[e]);
}

/// Adding links to adding links is adding links.
proof fn lemma_links_grow_trans(
    a: Seq<Vec<(usize, RestrictedCommonCandidate)>>,
    b: Seq<Vec<(usize, RestrictedCommonCandidate)>>,
    c: Seq<Vec<(usize, RestrictedCommonCandidate)>>,
)
    requires
        links_grow(a, b),
        links_grow(b, c),
    ensures
        links_grow(a, c),
{
    assert forall|m: int, e: int| 0 <= m < a.len() && 0 <= e < a[m]@.len() implies #[trigger] c[m]@[e] == a[m]@[e] by {
        assert(b[m]@[e] == a[m]@[e]);
        assert(a[m]@.len() <= b[m]@.len());
    }
}

/// For each set, the links to the sets after it and before it, with their restricted
/// common candidates, in the order the pairs of sets are met; every restricted common
/// candidate of two sets gives a link each way.
fn als_links(grid: &Grid, sets: &Vec<AlmostLockedSet>) -> (r: Vec<Vec<(usize, RestrictedCommonCandidate)>>)
    requires
        grid.wf(),
    ensures
        links_ok(*grid, sets@, r@),
        forall|l: int, o: int, v: u8|
            0 <= l < o < sets@.len() && #[trigger] restricted(*grid, sets@[l], sets@[o], v) ==> has_link(r@, l, o, v) && has_link(r@, o, l, v),
{
    let n = sets.len();
    let mut links: Vec<Vec<(usize, RestrictedCommonCandidate)>> = Vec::new();
    let mut k: usize = 0;
    while k < n
        invariant
            k <= n == sets@.len(),
            links@.len() == k,
            forall|j: int| 0 <= j < k ==> (#[trigger] links@[j])@.len() == 0,
        decreases n - k,
    {
        links.push(Vec::new());
        k = k + 1;
    }
    let mut left: usize = 0;
    while left < n
        invariant
            left <= n == sets@.len(),
            grid.wf(),
            links_ok(*grid, sets@, links@),
            forall|l: int, o: int, v: u8|
                0 <= l < left && l < o < n && #[trigger] restricted(*grid, sets@[l], sets@[o], v) ==> has_link(links@, l, o, v) && has_link(links@, o, l, v),
        decreases n - left,
    {
        let ghost l0 = links@;
        let mut right: usize = left + 1;
        while right < n
            invariant
                left < n == sets@.len(),
                left < right <= n,
                grid.wf(),
                links_ok(*grid, sets@, links@),
                links_grow(l0, links@),
                forall|o: int, v: u8|
                    left < o < right && #[trigger] restricted(*grid, sets@[left as int], sets@[o], v) ==> has_link(links@, left as int, o, v) && has_link(links@, o, left as int, v),
            decreases n - right,
        {
            let ghost l1 = links@;
            let rccs = restricted_common_candidates(grid, &sets[left], &sets[right]);
            let mut t: usize = 0;
            while t < rccs.len()
                invariant
                    t <= rccs@.len(),
                    left < right < n == sets@.len(),
                    grid.wf(),
                    links_ok(*grid, sets@, links@),
                    links_grow(l1, links@),
                    forall|i: int| 0 <= i < rccs@.len() ==> restricted(*grid, sets@[left as int], sets@[right as int], (#[trigger] rccs@[i]).value),
                    forall|i: int| 0 <= i < t ==> has_link(links@, left as int, right as int, (#[trigger] rccs@[i]).value) && has_link(links@, right as int, left as int, rccs@[i].value),
                decreases rccs@.len() - t,
            {
                let rcc = rccs[t];
                assert(restricted(*grid, sets@[left as int], sets@[right as int], rccs@[t as int].value));
                let ghost before = links@;
                links[left].push((right, rcc));
                let ghost middle = links@;
                links[right].push((left, rcc));
                proof {
                    assert forall|m: int, e: int|
                        0 <= m < links@.len() && 0 <= e < links@[m]@.len() implies (#[trigger] links@[m]@[e]).0 < sets@.len() && linked(
                            *grid,
                            sets@[m],
                            sets@[links@[m]@[e].0 as int],
                            links@[m]@[e].1.value,
                        ) by {
                        if m == right as int {
                            if e < middle[m]@.len() {
                                assert(links@[m]@[e] == middle[m]@[e]);
                                assert(middle[m] == before[m]);
                            }
                        } else if m == left as int {
                            assert(links@[m] == middle[m]);
                            if e < before[m]@.len() {
                                assert(middle[m]@[e] == before[m]@[e]);
                            }
                        } else {
                            assert(links@[m] == before[m]);
                        }
                    }
                    assert(links_grow(before, links@)) by {
                        assert forall|m: int, e: int| 0 <= m < before.len() && 0 <= e < before[m]@.len() implies #[trigger] links@[m]@[e] == before[m]@[e] by {
                            if m == right as int {
                                assert(middle[m] == before[m]);
                                assert(links@[m]@[e] == middle[m]@[e]);
                            } else if m == left as int {
                                assert(links@[m] == middle[m]);
                                assert(middle[m]@[e] == before[m]@[e]);
                            } else {
                                assert(links@[m] == before[m]);
                            }
                        }
                        assert forall|m: int| 0 <= m < before.len() implies (#[trigger] before[m])@.len() <= links@[m]@.len() by {
                            if m == right as int {
                                assert(middle[m] == before[m]);
                            } else if m == left as int {
                                assert(links@[m] == middle[m]);
                            } else {
                                assert(links@[m] == before[m]);
                            }
                        }
                    }
                    lemma_links_grow_trans(l1, before, links@);
                    assert forall|i: int| 0 <= i < t + 1 implies has_link(links@, left as int, right as int, (#[trigger] rccs@[i]).value) && has_link(links@, right as int, left as int, rccs@[i].value) by {
                        if i < t {
                            lemma_link_kept(before, links@, left as int, right as int, rccs@[i].value);
                            lemma_link_kept(before, links@, right as int, left as int, rccs@[i].value);
                        } else {
                            assert(links@[left as int] == middle[left as int]);
                            assert(links@[left as int]@[before[left as int]@.len() as int] == (right, rcc));
                            assert(links@[right as int]@[middle[right as int]@.len() as int] == (left, rcc));
                        }
                    }
                }
                t = t + 1;
            }
            proof {
                lemma_links_grow_trans(l0, l1, links@);
                assert forall|o: int, v: u8|
                    left < o < right + 1 && #[trigger] restricted(*grid, sets@[left as int], sets@[o], v) implies has_link(links@, left as int, o, v) && has_link(links@, o, left as int, v) by {
                    if o < right {
                        lemma_link_kept(l1, links@, left as int, o, v);
                        lemma_link_kept(l1, links@, o, left as int, v);
                    } else {
                        let i = choose|i: int| 0 <= i < rccs@.len() && (#[trigger] rccs@[i]).value == v;
                    }
                }
            }
            right = right + 1;
        }
        proof {
            assert forall|l: int, o: int, v: u8|
                0 <= l < left + 1 && l < o < n && #[trigger] restricted(*grid, sets@[l], sets@[o], v) implies has_link(links@, l, o, v) && has_link(links@, o, l, v) by {
                if l < left {
                    lemma_link_kept(l0, links@, l, o, v);
                    lemma_link_kept(l0, links@, o, l, v);
                }
            }
        }
        left = left + 1;
    }
    links
}

/// `step` has the removals of the `k`-th list of `seen`.
pub open spec fn recorded_removals(steps: Seq<AlsStep>, seen: Seq<Vec<Candidate>>) -> bool {
    &&& steps.len() == seen.len()
    &&& forall|k: int| 0 <= k < steps.len() ==> (#[trigger] seen[k])@ == steps[k].remove_candidates@
}

/// Keeps `step` unless it removes nothing or a kept step removes the same candidates.
fn keep_step(steps: &mut Vec<AlsStep>, seen: &mut Vec<Vec<Candidate>>, step: AlsStep)
    requires
        recorded_removals(old(steps)@, old(seen)@),
    ensures
        recorded_removals(final(steps)@, final(seen)@),
        final(steps)@ == if fresh(old(seen)@, step.remove_candidates@) {
            old(steps)@.push(step)
        } else {
            old(steps)@
        },
        !fresh(old(seen)@, step.remove_candidates@) ==> final(seen)@ == old(seen)@,
{
    if step.remove_candidates.len() == 0 || seen_before(seen, &step.remove_candidates) {
        return;
    }
    seen.push(clone_cand_list(&step.remove_candidates));
    steps.push(step);
}

/// An ALS-XZ of `g`: two different almost locked sets found with the default size, linked
/// by the restricted common candidate `x`, both holding another digit `z` that some cell
/// outside them loses.
pub open spec fn xz_found(g: Grid, a: AlmostLockedSet, b: AlmostLockedSet, x: u8, z: u8) -> bool {
    &&& a.found_in(g, DEFAULT_MAX_ALS_SIZE as nat)
    &&& b.found_in(g, DEFAULT_MAX_ALS_SIZE as nat)
    &&& a.cells@ != b.cells@
    &&& restricted(g, a, b, x)
    &&& a.values@.contains(z)
    &&& b.values@.contains(z)
    &&& z != x
    &&& targets(g, seq![a, b], z) != Set::<u8>::empty()
}

/// `l` and `r` have the cells of `a` and `b`, in either order.
pub open spec fn same_pair(l: AlmostLockedSet, r: AlmostLockedSet, a: AlmostLockedSet, b: AlmostLockedSet) -> bool {
    (l.cells@ == a.cells@ && r.cells@ == b.cells@) || (l.cells@ == b.cells@ && r.cells@ == a.cells@)
}

/// The cells a digit is removed from do not depend on the order of two sets.
proof fn lemma_pair_targets(g: Grid, l: AlmostLockedSet, r: AlmostLockedSet, a: AlmostLockedSet, b: AlmostLockedSet, z: u8)
    requires
        same_pair(l, r, a, b),
    ensures
        targets(g, seq![l, r], z) == targets(g, seq![a, b], z),
{
    let s1 = seq![l, r];
    let s2 = seq![a, b];
    assert(s1[0] == l && s1[1] == r && s2[0] == a && s2[1] == b);
    if l.cells@ == a.cells@ && r.cells@ == b.cells@ {
        assert forall|k: int| 0 <= k < s1.len() implies (#[trigger] s1[k]).cells@ == s2[k].cells@ by {}
        lemma_targets_same_cells(g, s1, s2, z);
    } else {
        assert forall|c: u8| targets(g, s1, z).contains(c) implies targets(g, s2, z).contains(c) by {
            assert forall|k: int| 0 <= k < s2.len() implies !(#[trigger] s2[k]).cells@.contains(c) by {
                if k == 0 {
                    assert(!s1[1].cells@.contains(c));
                } else {
                    assert(!s1[0].cells@.contains(c));
                }
            }
            assert forall|k: int, d: u8| 0 <= k < s2.len() && #[trigger] value_cells(g, s2[k].cells@, z).contains(d) implies sees(d as int, c as int) by {
                if k == 0 {
                    assert(value_cells(g, s1[1].cells@, z).contains(d));
                } else {
                    assert(value_cells(g, s1[0].cells@, z).contains(d));
                }
            }
        }
        assert forall|c: u8| targets(g, s2, z).contains(c) implies targets(g, s1, z).contains(c) by {
            assert forall|k: int| 0 <= k < s1.len() implies !(#[trigger] s1[k]).cells@.contains(c) by {
                if k == 0 {
                    assert(!s2[1].cells@.contains(c));
                } else {
                    assert(!s2[0].cells@.contains(c));
                }
            }
            assert forall|k: int, d: u8| 0 <= k < s1.len() && #[trigger] value_cells(g, s1[k].cells@, z).contains(d) implies sees(d as int, c as int) by {
                if k == 0 {
                    assert(value_cells(g, s2[1].cells@, z).contains(d));
                } else {
                    assert(value_cells(g, s2[0].cells@, z).contains(d));
                }
            }
        }
        assert(targets(g, s1, z) =~= targets(g, s2, z));
    }
}

/// A restricted common candidate of two sets links them the other way round too.
proof fn lemma_restricted_swap(g: Grid, a: AlmostLockedSet, b: AlmostLockedSet, l: AlmostLockedSet, r: AlmostLockedSet, v: u8)
    requires
        restricted(g, a, b, v),
        l.cells@ == b.cells@,
        r.cells@ == a.cells@,
        l.values@ == b.values@,
        r.values@ == a.values@,
    ensures
        restricted(g, l, r, v),
{
    let lc = value_cells(g, l.cells@, v);
    let rc = value_cells(g, r.cells@, v);
    assert forall|p: u8, q: u8| lc.contains(p) && rc.contains(q) implies #[trigger] sees(p as int, q as int) by {
        assert(value_cells(g, a.cells@, v).contains(q));
        assert(value_cells(g, b.cells@, v).contains(p));
        assert(sees(q as int, p as int));
    }
    assert forall|c: u8| #[trigger] l.cells@.contains(c) && r.cells@.contains(c) implies !lc.contains(c) && !rc.contains(c) by {
        assert(a.cells@.contains(c) && b.cells@.contains(c));
    }
}

/// Two sets found with the same cells hold the same digits.
proof fn lemma_found_values(g: Grid, a: AlmostLockedSet, b: AlmostLockedSet)
    requires
        a.found_in(g, DEFAULT_MAX_ALS_SIZE as nat),
        b.found_in(g, DEFAULT_MAX_ALS_SIZE as nat),
        a.cells@ == b.cells@,
    ensures
        a.values@ == b.values@,
{
}

/// The ALS-XZ steps of one pair of sets: for each restricted common candidate and each
/// other shared digit, the removal of that digit from the cells seeing all its cells in
/// both sets; a list of removals is kept once.
#[verifier::rlimit(60)]
fn add_xz_pair(
    grid: &Grid,
    left: AlmostLockedSet,
    right: AlmostLockedSet,
    steps: &mut Vec<AlsStep>,
    seen: &mut Vec<Vec<Candidate>>,
)
    requires
        grid.wf(),
        left.found_in(*grid, DEFAULT_MAX_ALS_SIZE as nat),
        right.found_in(*grid, DEFAULT_MAX_ALS_SIZE as nat),
        recorded_removals(old(steps)@, old(seen)@),
        forall|i: int| 0 <= i < old(steps)@.len() ==> (#[trigger] old(steps)@[i]).pattern(*grid) && (old(steps)@[i].als_type
            == AlsType::Xz || old(steps)@[i].als_type == AlsType::WxyzWing),
    ensures
        recorded_removals(final(steps)@, final(seen)@),
        forall|i: int| 0 <= i < final(steps)@.len() ==> (#[trigger] final(steps)@[i]).pattern(*grid) && (final(steps)@[i].als_type
            == AlsType::Xz || final(steps)@[i].als_type == AlsType::WxyzWing),
        extends(old(steps)@, final(steps)@),
        forall|a: AlmostLockedSet, b: AlmostLockedSet, x: u8, z: u8|
            #[trigger] xz_found(*grid, a, b, x, z) && same_pair(left, right, a, b) ==> removal_listed(*grid, final(steps)@, seq![a, b], z),
{
    let rccs = restricted_common_candidates(grid, &left, &right);
    let common = left.values.intersect(&right.values).values();
    let four = left.cells.union(&right.cells).count() == 4;
    let mut t: usize = 0;
    while t < rccs.len()
        invariant
            t <= rccs@.len(),
            grid.wf(),
            left.found_in(*grid, DEFAULT_MAX_ALS_SIZE as nat),
            right.found_in(*grid, DEFAULT_MAX_ALS_SIZE as nat),
            four == (left.cells@.union(right.cells@).len() == 4),
            forall|v: u8| common@.contains(v) <==> (left.values@.contains(v) && right.values@.contains(v)),
            forall|i: int| 0 <= i < rccs@.len() ==> restricted(*grid, left, right, (#[trigger] rccs@[i]).value),
            forall|v: u8| restricted(*grid, left, right, v) ==> exists|i: int| 0 <= i < rccs@.len() && (#[trigger] rccs@[i]).value == v,
            recorded_removals(steps@, seen@),
            forall|i: int| 0 <= i < steps@.len() ==> (#[trigger] steps@[i]).pattern(*grid) && (steps@[i].als_type
                == AlsType::Xz || steps@[i].als_type == AlsType::WxyzWing),
            extends(old(steps)@, steps@),
            forall|a: AlmostLockedSet, b: AlmostLockedSet, x: u8, z: u8|
                #[trigger] xz_found(*grid, a, b, x, z) && same_pair(left, right, a, b) && (exists|i: int|
                    0 <= i < t && (#[trigger] rccs@[i]).value == x) ==> removal_listed(*grid, steps@, seq![a, b], z),
        decreases rccs@.len() - t,
    {
        let rcc = rccs[t];
        assert(restricted(*grid, left, right, rccs@[t as int].value));
        let ghost st = steps@;
        let mut zi: usize = 0;
        while zi < common.len()
            invariant
                zi <= common@.len(),
                grid.wf(),
                left.found_in(*grid, DEFAULT_MAX_ALS_SIZE as nat),
                right.found_in(*grid, DEFAULT_MAX_ALS_SIZE as nat),
                four == (left.cells@.union(right.cells@).len() == 4),
                forall|v: u8| common@.contains(v) <==> (left.values@.contains(v) && right.values@.contains(v)),
                restricted(*grid, left, right, rcc.value),
                recorded_removals(steps@, seen@),
                forall|i: int| 0 <= i < steps@.len() ==> (#[trigger] steps@[i]).pattern(*grid) && (steps@[i].als_type
                    == AlsType::Xz || steps@[i].als_type == AlsType::WxyzWing),
                extends(st, steps@),
                forall|a: AlmostLockedSet, b: AlmostLockedSet, z: u8|
                    #[trigger] xz_found(*grid, a, b, rcc.value, z) && same_pair(left, right, a, b) && (exists|i: int|
                        0 <= i < zi && common@[i] == z) ==> removal_listed(*grid, steps@, seq![a, b], z),
            decreases common@.len() - zi,
        {
            let z = common[zi];
            assert(common@.contains(z));
            let ghost sb = steps@;
            if z != rcc.value {
                let removals = endpoint_removals(grid, &left, &right, z);
                if removals.len() > 0 {
                    let ghost rm = removals@;
                    let ghost seen_b = seen@;
                    let mut pair: Vec<AlmostLockedSet> = Vec::new();
                    pair.push(left);
                    pair.push(right);
                    let mut links: Vec<RestrictedCommonCandidate> = Vec::new();
                    links.push(rcc);
                    let mut highlight: Vec<Vec<Candidate>> = Vec::new();
                    highlight.push(als_candidates(grid, &left));
                    highlight.push(als_candidates(grid, &right));
                    let step = AlsStep {
                        als_type: if four {
                            AlsType::WxyzWing
                        } else {
                            AlsType::Xz
                        },
                        sets: pair,
                        rccs: links,
                        highlight_candidates: highlight,
                        remove_candidates: removals,
                    };
                    proof {
                        let sq = step.sets@;
                        assert(sq =~= seq![left, right]);
                        assert(sq.last() == right);
                        assert(chained(*grid, sq, step.rccs@)) by {
                            assert(step.rccs@[0] == rcc);
                        }
                        assert(end_removal(*grid, sq, step.rccs@, step.remove_candidates@, z));
                        assert(forall|k: int| 0 <= k < 2 ==> lists_candidates(*grid, (#[trigger] step.highlight_candidates@[k])@, sq[k].cells@));
                        assert(step.pattern(*grid));
                        assert(step.remove_candidates@ == rm);
                    }
                    keep_step(steps, seen, step);
                    proof {
                        assert forall|i: int| 0 <= i < steps@.len() implies (#[trigger] steps@[i]).pattern(*grid) && (steps@[i].als_type
                            == AlsType::Xz || steps@[i].als_type == AlsType::WxyzWing) by {
                            if i < sb.len() {
                                assert(steps@[i] == sb[i]);
                            }
                        }
                        assert forall|a: AlmostLockedSet, b: AlmostLockedSet|
                            #[trigger] xz_found(*grid, a, b, rcc.value, z) && same_pair(left, right, a, b) implies removal_listed(
                            *grid,
                            steps@,
                            seq![a, b],
                            z,
                        ) by {
                            lemma_pair_targets(*grid, left, right, a, b, z);
                            if fresh(seen_b, rm) {
                                assert(steps@[sb.len() as int].remove_candidates@ == rm);
                                assert(cand_list(steps@[sb.len() as int].remove_candidates@, z, targets(*grid, seq![a, b], z)));
                            } else {
                                let i = choose|i: int| 0 <= i < seen_b.len() && (#[trigger] seen_b[i])@ == rm;
                                assert(sb[i].remove_candidates@ == seen_b[i]@);
                                assert(steps@[i] == sb[i]);
                                assert(cand_list(steps@[i].remove_candidates@, z, targets(*grid, seq![a, b], z)));
                            }
                        }
                    }
                } else {
                    proof {
                        assert forall|a: AlmostLockedSet, b: AlmostLockedSet|
                            #[trigger] xz_found(*grid, a, b, rcc.value, z) && same_pair(left, right, a, b) implies false by {
                            lemma_pair_targets(*grid, left, right, a, b, z);
                            assert forall|c: u8| !targets(*grid, seq![a, b], z).contains(c) by {
                                if targets(*grid, seq![a, b], z).contains(c) {
                                    let i = choose|i: int| 0 <= i < removals@.len() && (#[trigger] removals@[i]).0 == c;
                                }
                            }
                            assert(targets(*grid, seq![a, b], z) =~= Set::<u8>::empty());
                        }
                    }
                }
            }
            proof {
                assert forall|a: AlmostLockedSet, b: AlmostLockedSet, z2: u8|
                    #[trigger] xz_found(*grid, a, b, rcc.value, z2) && same_pair(left, right, a, b) && (exists|i: int|
                        0 <= i < zi + 1 && common@[i] == z2) implies removal_listed(*grid, steps@, seq![a, b], z2) by {
                    let i = choose|i: int| 0 <= i < zi + 1 && common@[i] == z2;
                    if i < zi {
                        lemma_listed_extends(*grid, sb, steps@, seq![a, b], z2);
                    }
                }
            }
            zi = zi + 1;
        }
        proof {
            assert forall|a: AlmostLockedSet, b: AlmostLockedSet, x: u8, z: u8|
                #[trigger] xz_found(*grid, a, b, x, z) && same_pair(left, right, a, b) && (exists|i: int|
                    0 <= i < t + 1 && (#[trigger] rccs@[i]).value == x) implies removal_listed(*grid, steps@, seq![a, b], z) by {
                let i = choose|i: int| 0 <= i < t + 1 && (#[trigger] rccs@[i]).value == x;
                if i < t {
                    lemma_listed_extends(*grid, st, steps@, seq![a, b], z);
                } else {
                    if left.cells@ == a.cells@ {
                        lemma_found_values(*grid, left, a);
                        lemma_found_values(*grid, right, b);
                    } else {
                        lemma_found_values(*grid, left, b);
                        lemma_found_values(*grid, right, a);
                    }
                    assert(left.values@.contains(z) && right.values@.contains(z));
                    assert(common@.contains(z));
                    let j = choose|j: int| 0 <= j < common@.len() && common@[j] == z;
                }
            }
        }
        t = t + 1;
    }
    proof {
        assert forall|a: AlmostLockedSet, b: AlmostLockedSet, x: u8, z: u8|
            #[trigger] xz_found(*grid, a, b, x, z) && same_pair(left, right, a, b) implies removal_listed(*grid, steps@, seq![a, b], z) by {
            if left.cells@ == a.cells@ {
                lemma_found_values(*grid, left, a);
                lemma_found_values(*grid, right, b);
                assert(restricted(*grid, left, right, x));
            } else {
                lemma_found_values(*grid, left, b);
                lemma_found_values(*grid, right, a);
                lemma_restricted_swap(*grid, a, b, left, right, x);
            }
            let i = choose|i: int| 0 <= i < rccs@.len() && (#[trigger] rccs@[i]).value == x;
        }
    }
}

/// ALS-XZ steps (WXYZ-Wings where the two sets have four cells): for each pair of sets,
/// each restricted common candidate and each other shared digit, the removal of that digit
/// from the cells seeing all its cells in both sets; a list of removals is kept once.
/// Every ALS-XZ gets its removals listed.
fn find_als_xz_steps(grid: &Grid) -> (r: Vec<AlsStep>)
    requires
        grid.wf(),
    ensures
        forall|i: int| 0 <= i < r@.len() ==> (#[trigger] r@[i]).pattern(*grid) && (r@[i].als_type == AlsType::Xz || r@[i].als_type
            == AlsType::WxyzWing),
        forall|a: AlmostLockedSet, b: AlmostLockedSet, x: u8, z: u8|
            #[trigger] xz_found(*grid, a, b, x, z) ==> removal_listed(*grid, r@, seq![a, b], z),
{
    let sets = find_almost_locked_sets(grid, DEFAULT_MAX_ALS_SIZE);
    let mut steps: Vec<AlsStep> = Vec::new();
    let mut seen: Vec<Vec<Candidate>> = Vec::new();
    let mut li: usize = 0;
    while li < sets.len()
        invariant
            li <= sets@.len(),
            grid.wf(),
            all_found(*grid, sets@),
            forall|h: int, s: Set<u8>| #[trigger] als_in(*grid, h, s, DEFAULT_MAX_ALS_SIZE as nat) ==> holds_cells(sets@, s),
            recorded_removals(steps@, seen@),
            forall|i: int| 0 <= i < steps@.len() ==> (#[trigger] steps@[i]).pattern(*grid) && (steps@[i].als_type == AlsType::Xz
                || steps@[i].als_type == AlsType::WxyzWing),
            forall|a: AlmostLockedSet, b: AlmostLockedSet, x: u8, z: u8|
                #[trigger] xz_found(*grid, a, b, x, z) && (exists|i: int, j: int|
                    0 <= i < li && i < j < sets@.len() && same_pair(sets@[i], sets@[j], a, b)) ==> removal_listed(*grid, steps@, seq![a, b], z),
        decreases sets@.len() - li,
    {
        let ghost sl = steps@;
        let mut ri: usize = li + 1;
        while ri < sets.len()
            invariant
                li < sets@.len(),
                li < ri <= sets@.len(),
                grid.wf(),
                all_found(*grid, sets@),
                recorded_removals(steps@, seen@),
                forall|i: int| 0 <= i < steps@.len() ==> (#[trigger] steps@[i]).pattern(*grid) && (steps@[i].als_type == AlsType::Xz
                    || steps@[i].als_type == AlsType::WxyzWing),
                extends(sl, steps@),
                forall|a: AlmostLockedSet, b: AlmostLockedSet, x: u8, z: u8|
                    #[trigger] xz_found(*grid, a, b, x, z) && (exists|j: int|
                        li < j < ri && same_pair(sets@[li as int], sets@[j], a, b)) ==> removal_listed(*grid, steps@, seq![a, b], z),
            decreases sets@.len() - ri,
        {
            let left = sets[li];
            let right = sets[ri];
            assert(left.found_in(*grid, DEFAULT_MAX_ALS_SIZE as nat));
            assert(right.found_in(*grid, DEFAULT_MAX_ALS_SIZE as nat));
            let ghost sr = steps@;
            add_xz_pair(grid, left, right, &mut steps, &mut seen);
            proof {
                assert forall|a: AlmostLockedSet, b: AlmostLockedSet, x: u8, z: u8|
                    #[trigger] xz_found(*grid, a, b, x, z) && (exists|j: int|
                        li < j < ri + 1 && same_pair(sets@[li as int], sets@[j], a, b)) implies removal_listed(*grid, steps@, seq![a, b], z) by {
                    let j = choose|j: int| li < j < ri + 1 && same_pair(sets@[li as int], sets@[j], a, b);
                    if j < ri {
                        lemma_listed_extends(*grid, sr, steps@, seq![a, b], z);
                    }
                }
            }
            ri = ri + 1;
        }
        proof {
            assert forall|a: AlmostLockedSet, b: AlmostLockedSet, x: u8, z: u8|
                #[trigger] xz_found(*grid, a, b, x, z) && (exists|i: int, j: int|
                    0 <= i < li + 1 && i < j < sets@.len() && same_pair(sets@[i], sets@[j], a, b)) implies removal_listed(*grid, steps@, seq![a, b], z) by {
                let (i, j) = choose|i: int, j: int| 0 <= i < li + 1 && i < j < sets@.len() && same_pair(sets@[i], sets@[j], a, b);
                if i < li {
                    lemma_listed_extends(*grid, sl, steps@, seq![a, b], z);
                }
            }
        }
        li = li + 1;
    }
    proof {
        assert forall|a: AlmostLockedSet, b: AlmostLockedSet, x: u8, z: u8|
            #[trigger] xz_found(*grid, a, b, x, z) implies removal_listed(*grid, steps@, seq![a, b], z) by {
            assert(als_in(*grid, a.house as int, a.cells@, DEFAULT_MAX_ALS_SIZE as nat));
            assert(als_in(*grid, b.house as int, b.cells@, DEFAULT_MAX_ALS_SIZE as nat));
            let ia = choose|m: int| 0 <= m < sets@.len() && (#[trigger] sets@[m]).cells@ == a.cells@;
            let ib = choose|m: int| 0 <= m < sets@.len() && (#[trigger] sets@[m]).cells@ == b.cells@;
            if ia < ib {
                assert(same_pair(sets@[ia], sets@[ib], a, b));
            } else {
                assert(ia != ib);
                assert(same_pair(sets@[ib], sets@[ia], a, b));
            }
        }
    }
    steps
}

/// Two almost locked sets found with the default size both hold `z`, and some cell
/// outside them loses `z`.
pub open spec fn ends_found(g: Grid, l: AlmostLockedSet, r: AlmostLockedSet, z: u8) -> bool {
    &&& l.found_in(g, DEFAULT_MAX_ALS_SIZE as nat)
    &&& r.found_in(g, DEFAULT_MAX_ALS_SIZE as nat)
    &&& l.values@.contains(z)
    &&& r.values@.contains(z)
    &&& targets(g, seq![l, r], z) != Set::<u8>::empty()
}

/// An ALS-XY-Wing of `g`: three different almost locked sets found with the default size,
/// the middle one linked to the two others by different restricted common candidates `x`
/// and `y`, and another digit `z` of both ends that some cell outside them loses.
pub open spec fn xy_found(g: Grid, l: AlmostLockedSet, m: AlmostLockedSet, r: AlmostLockedSet, x: u8, y: u8, z: u8) -> bool {
    &&& ends_found(g, l, r, z)
    &&& m.found_in(g, DEFAULT_MAX_ALS_SIZE as nat)
    &&& l.cells@ != m.cells@
    &&& r.cells@ != m.cells@
    &&& l.cells@ != r.cells@
    &&& linked(g, m, l, x)
    &&& linked(g, m, r, y)
    &&& x != y
    &&& z != x
    &&& z != y
}

/// The links `ea` and `eb` of set `im` lead to sets with the cells of `l` and `r` (in
/// either order, the lower index first) by the candidates `x` and `y`.
pub open spec fn xy_at(
    sets: Seq<AlmostLockedSet>,
    links: Seq<Vec<(usize, RestrictedCommonCandidate)>>,
    im: int,
    ea: int,
    eb: int,
    l: AlmostLockedSet,
    m: AlmostLockedSet,
    r: AlmostLockedSet,
    x: u8,
    y: u8,
) -> bool {
    &&& 0 <= im < links.len()
    &&& 0 <= ea < links[im]@.len()
    &&& 0 <= eb < links[im]@.len()
    &&& links[im]@[ea].0 < links[im]@[eb].0
    &&& sets[im].cells@ == m.cells@
    &&& ((sets[links[im]@[ea].0 as int].cells@ == l.cells@ && sets[links[im]@[eb].0 as int].cells@ == r.cells@
        && links[im]@[ea].1.value == x && links[im]@[eb].1.value == y) || (sets[links[im]@[ea].0 as int].cells@ == r.cells@
        && sets[links[im]@[eb].0 as int].cells@ == l.cells@ && links[im]@[ea].1.value == y && links[im]@[eb].1.value == x))
}

/// A link between two sets shows in the links of the first, by the sets' indices.
proof fn lemma_link_between(
    g: Grid,
    sets: Seq<AlmostLockedSet>,
    links: Seq<Vec<(usize, RestrictedCommonCandidate)>>,
    m: AlmostLockedSet,
    o: AlmostLockedSet,
    v: u8,
    im: int,
    io: int,
)
    requires
        forall|l: int, o2: int, w: u8|
            0 <= l < o2 < sets.len() && #[trigger] restricted(g, sets[l], sets[o2], w) ==> has_link(links, l, o2, w) && has_link(links, o2, l, w),
        0 <= im < sets.len(),
        0 <= io < sets.len(),
        im != io,
        sets[im].cells@ == m.cells@,
        sets[io].cells@ == o.cells@,
        sets[im].values@ == m.values@,
        sets[io].values@ == o.values@,
        linked(g, m, o, v),
    ensures
        has_link(links, im, io, v),
{
    if restricted(g, m, o, v) {
        if im < io {
            assert(restricted(g, sets[im], sets[io], v));
        } else {
            lemma_restricted_swap(g, m, o, sets[io], sets[im], v);
        }
    } else {
        if io < im {
            assert(restricted(g, sets[io], sets[im], v));
        } else {
            lemma_restricted_swap(g, o, m, sets[im], sets[io], v);
        }
    }
}

/// The ALS-XY-Wings of one choice of end sets and links: for each other digit of both
/// ends, the removal of that digit from the cells seeing all their cells with it; a list
/// of removals is kept once.
#[verifier::rlimit(60)]
fn add_xy_wings(
    grid: &Grid,
    ls: AlmostLockedSet,
    ms: AlmostLockedSet,
    rs: AlmostLockedSet,
    lrcc: RestrictedCommonCandidate,
    rrcc: RestrictedCommonCandidate,
    steps: &mut Vec<AlsStep>,
    seen: &mut Vec<Vec<Candidate>>,
)
    requires
        grid.wf(),
        ls.found_in(*grid, DEFAULT_MAX_ALS_SIZE as nat),
        ms.found_in(*grid, DEFAULT_MAX_ALS_SIZE as nat),
        rs.found_in(*grid, DEFAULT_MAX_ALS_SIZE as nat),
        linked(*grid, ms, ls, lrcc.value),
        linked(*grid, ms, rs, rrcc.value),
        lrcc.value != rrcc.value,
        recorded_removals(old(steps)@, old(seen)@),
        forall|i: int| 0 <= i < old(steps)@.len() ==> (#[trigger] old(steps)@[i]).pattern(*grid) && old(steps)@[i].als_type == AlsType::XYWing,
    ensures
        recorded_removals(final(steps)@, final(seen)@),
        forall|i: int| 0 <= i < final(steps)@.len() ==> (#[trigger] final(steps)@[i]).pattern(*grid) && final(steps)@[i].als_type == AlsType::XYWing,
        extends(old(steps)@, final(steps)@),
        forall|l: AlmostLockedSet, r: AlmostLockedSet, z: u8|
            #[trigger] ends_found(*grid, l, r, z) && same_pair(ls, rs, l, r) && z != lrcc.value && z != rrcc.value ==> removal_listed(
                *grid,
                final(steps)@,
                seq![l, r],
                z,
            ),
{
    let common = ls.values.intersect(&rs.values).values();
    let mut zi: usize = 0;
    while zi < common.len()
        invariant
            zi <= common@.len(),
            grid.wf(),
            ls.found_in(*grid, DEFAULT_MAX_ALS_SIZE as nat),
            ms.found_in(*grid, DEFAULT_MAX_ALS_SIZE as nat),
            rs.found_in(*grid, DEFAULT_MAX_ALS_SIZE as nat),
            linked(*grid, ms, ls, lrcc.value),
            linked(*grid, ms, rs, rrcc.value),
            lrcc.value != rrcc.value,
            forall|v: u8| common@.contains(v) <==> (ls.values@.contains(v) && rs.values@.contains(v)),
            recorded_removals(steps@, seen@),
            forall|i: int| 0 <= i < steps@.len() ==> (#[trigger] steps@[i]).pattern(*grid) && steps@[i].als_type == AlsType::XYWing,
            extends(old(steps)@, steps@),
            forall|l: AlmostLockedSet, r: AlmostLockedSet, z: u8|
                #[trigger] ends_found(*grid, l, r, z) && same_pair(ls, rs, l, r) && z != lrcc.value && z != rrcc.value && (exists|i: int|
                    0 <= i < zi && common@[i] == z) ==> removal_listed(*grid, steps@, seq![l, r], z),
        decreases common@.len() - zi,
    {
        let z = common[zi];
        assert(common@.contains(z));
        let ghost sb = steps@;
        if z != lrcc.value && z != rrcc.value {
            let removals = endpoint_removals(grid, &ls, &rs, z);
            if removals.len() > 0 {
                let ghost rm = removals@;
                let ghost seen_b = seen@;
                let mut three: Vec<AlmostLockedSet> = Vec::new();
                three.push(ls);
                three.push(ms);
                three.push(rs);
                let mut two: Vec<RestrictedCommonCandidate> = Vec::new();
                two.push(lrcc);
                two.push(rrcc);
                let mut highlight: Vec<Vec<Candidate>> = Vec::new();
                highlight.push(als_candidates(grid, &ls));
                highlight.push(als_candidates(grid, &ms));
                highlight.push(als_candidates(grid, &rs));
                let step = AlsStep {
                    als_type: AlsType::XYWing,
                    sets: three,
                    rccs: two,
                    highlight_candidates: highlight,
                    remove_candidates: removals,
                };
                proof {
                    let sq = step.sets@;
                    assert(sq =~= seq![ls, ms, rs]);
                    assert(sq.last() == rs);
                    assert(chained(*grid, sq, step.rccs@)) by {
                        assert(step.rccs@[0] == lrcc);
                        assert(step.rccs@[1] == rrcc);
                    }
                    assert(step.rccs@.last() == rrcc);
                    assert(end_removal(*grid, sq, step.rccs@, step.remove_candidates@, z));
                    assert(forall|k: int|
                        0 <= k < 3 ==> lists_candidates(*grid, (#[trigger] step.highlight_candidates@[k])@, sq[k].cells@));
                    assert(step.pattern(*grid));
                    assert(step.remove_candidates@ == rm);
                }
                keep_step(steps, seen, step);
                proof {
                    assert forall|i: int| 0 <= i < steps@.len() implies (#[trigger] steps@[i]).pattern(*grid)
                        && steps@[i].als_type == AlsType::XYWing by {
                        if i < sb.len() {
                            assert(steps@[i] == sb[i]);
                        }
                    }
                    assert forall|l: AlmostLockedSet, r: AlmostLockedSet|
                        #[trigger] ends_found(*grid, l, r, z) && same_pair(ls, rs, l, r) implies removal_listed(*grid, steps@, seq![l, r], z) by {
                        lemma_pair_targets(*grid, ls, rs, l, r, z);
                        if fresh(seen_b, rm) {
                            assert(steps@[sb.len() as int].remove_candidates@ == rm);
                            assert(cand_list(steps@[sb.len() as int].remove_candidates@, z, targets(*grid, seq![l, r], z)));
                        } else {
                            let i = choose|i: int| 0 <= i < seen_b.len() && (#[trigger] seen_b[i])@ == rm;
                            assert(sb[i].remove_candidates@ == seen_b[i]@);
                            assert(steps@[i] == sb[i]);
                            assert(cand_list(steps@[i].remove_candidates@, z, targets(*grid, seq![l, r], z)));
                        }
                    }
                }
            } else {
                proof {
                    assert forall|l: AlmostLockedSet, r: AlmostLockedSet|
                        #[trigger] ends_found(*grid, l, r, z) && same_pair(ls, rs, l, r) implies false by {
                        lemma_pair_targets(*grid, ls, rs, l, r, z);
                        assert forall|c: u8| !targets(*grid, seq![l, r], z).contains(c) by {
                            if targets(*grid, seq![l, r], z).contains(c) {
                                let i = choose|i: int| 0 <= i < removals@.len() && (#[trigger] removals@[i]).0 == c;
                            }
                        }
                        assert(targets(*grid, seq![l, r], z) =~= Set::<u8>::empty());
                    }
                }
            }
        }
        proof {
            assert forall|l: AlmostLockedSet, r: AlmostLockedSet, z2: u8|
                #[trigger] ends_found(*grid, l, r, z2) && same_pair(ls, rs, l, r) && z2 != lrcc.value && z2 != rrcc.value && (exists|i: int|
                    0 <= i < zi + 1 && common@[i] == z2) implies removal_listed(*grid, steps@, seq![l, r], z2) by {
                let i = choose|i: int| 0 <= i < zi + 1 && common@[i] == z2;
                if i < zi {
                    lemma_listed_extends(*grid, sb, steps@, seq![l, r], z2);
                }
            }
        }
        zi = zi + 1;
    }
    proof {
        assert forall|l: AlmostLockedSet, r: AlmostLockedSet, z: u8|
            #[trigger] ends_found(*grid, l, r, z) && same_pair(ls, rs, l, r) && z != lrcc.value && z != rrcc.value implies removal_listed(
            *grid,
            steps@,
            seq![l, r],
            z,
        ) by {
            if ls.cells@ == l.cells@ {
                lemma_found_values(*grid, ls, l);
                lemma_found_values(*grid, rs, r);
            } else {
                lemma_found_values(*grid, ls, r);
                lemma_found_values(*grid, rs, l);
            }
            assert(common@.contains(z));
            let i = choose|i: int| 0 <= i < common@.len() && common@[i] == z;
        }
    }
}

/// ALS-XY-Wings: for each set linked to two others by different restricted common
/// candidates, the removal of another digit shared by the two others from the cells
/// seeing all their cells with it; a list of removals is kept once. Every ALS-XY-Wing gets
/// its removals listed.
fn find_als_xy_wing_steps(grid: &Grid) -> (r: Vec<AlsStep>)
    requires
        grid.wf(),
    ensures
        forall|i: int| 0 <= i < r@.len() ==> (#[trigger] r@[i]).pattern(*grid) && r@[i].als_type == AlsType::XYWing,
        forall|l: AlmostLockedSet, m: AlmostLockedSet, rt: AlmostLockedSet, x: u8, y: u8, z: u8|
            #[trigger] xy_found(*grid, l, m, rt, x, y, z) ==> removal_listed(*grid, r@, seq![l, rt], z),
{
    let sets = find_almost_locked_sets(grid, DEFAULT_MAX_ALS_SIZE);
    let links = als_links(grid, &sets);
    let mut steps: Vec<AlsStep> = Vec::new();
    let mut seen: Vec<Vec<Candidate>> = Vec::new();
    let mut middle: usize = 0;
    while middle < links.len()
        invariant
            middle <= links@.len(),
            grid.wf(),
            all_found(*grid, sets@),
            links_ok(*grid, sets@, links@),
            forall|h: int, s: Set<u8>| #[trigger] als_in(*grid, h, s, DEFAULT_MAX_ALS_SIZE as nat) ==> holds_cells(sets@, s),
            forall|l: int, o: int, v: u8|
                0 <= l < o < sets@.len() && #[trigger] restricted(*grid, sets@[l], sets@[o], v) ==> has_link(links@, l, o, v) && has_link(links@, o, l, v),
            recorded_removals(steps@, seen@),
            forall|i: int| 0 <= i < steps@.len() ==> (#[trigger] steps@[i]).pattern(*grid) && steps@[i].als_type == AlsType::XYWing,
            forall|l: AlmostLockedSet, m: AlmostLockedSet, r: AlmostLockedSet, x: u8, y: u8, z: u8|
                #[trigger] xy_found(*grid, l, m, r, x, y, z) && (exists|im: int, ea: int, eb: int|
                    0 <= im < middle && xy_at(sets@, links@, im, ea, eb, l, m, r, x, y)) ==> removal_listed(*grid, steps@, seq![l, r], z),
        decreases links@.len() - middle,
    {
        let ghost s0 = steps@;
        let ml = &links[middle];
        let mut a: usize = 0;
        while a < ml.len()
            invariant
                middle < links@.len(),
                ml == links@[middle as int],
                a <= ml@.len(),
                grid.wf(),
                all_found(*grid, sets@),
                links_ok(*grid, sets@, links@),
                recorded_removals(steps@, seen@),
                forall|i: int| 0 <= i < steps@.len() ==> (#[trigger] steps@[i]).pattern(*grid) && steps@[i].als_type == AlsType::XYWing,
                extends(s0, steps@),
                forall|l: AlmostLockedSet, m: AlmostLockedSet, r: AlmostLockedSet, x: u8, y: u8, z: u8|
                    #[trigger] xy_found(*grid, l, m, r, x, y, z) && (exists|ea: int, eb: int|
                        0 <= ea < a && xy_at(sets@, links@, middle as int, ea, eb, l, m, r, x, y)) ==> removal_listed(*grid, steps@, seq![l, r], z),
            decreases ml@.len() - a,
        {
            let ghost s1 = steps@;
            let mut b: usize = 0;
            while b < ml.len()
                invariant
                    middle < links@.len(),
                    ml == links@[middle as int],
                    a < ml@.len(),
                    b <= ml@.len(),
                    grid.wf(),
                    all_found(*grid, sets@),
                    links_ok(*grid, sets@, links@),
                    recorded_removals(steps@, seen@),
                    forall|i: int| 0 <= i < steps@.len() ==> (#[trigger] steps@[i]).pattern(*grid) && steps@[i].als_type == AlsType::XYWing,
                    extends(s1, steps@),
                    forall|l: AlmostLockedSet, m: AlmostLockedSet, r: AlmostLockedSet, x: u8, y: u8, z: u8|
                        #[trigger] xy_found(*grid, l, m, r, x, y, z) && (exists|eb: int|
                            0 <= eb < b && xy_at(sets@, links@, middle as int, a as int, eb, l, m, r, x, y)) ==> removal_listed(*grid, steps@, seq![l, r], z),
                decreases ml@.len() - b,
            {
                let (left, lrcc) = ml[a];
                let (right, rrcc) = ml[b];
                assert(links@[middle as int]@[a as int].0 < sets@.len());
                assert(links@[middle as int]@[b as int].0 < sets@.len());
                let ghost s2 = steps@;
                if left < right && lrcc.value != rrcc.value {
                    let ls = sets[left];
                    let ms = sets[middle];
                    let rs = sets[right];
                    assert(ls.found_in(*grid, DEFAULT_MAX_ALS_SIZE as nat));
                    assert(ms.found_in(*grid, DEFAULT_MAX_ALS_SIZE as nat));
                    assert(rs.found_in(*grid, DEFAULT_MAX_ALS_SIZE as nat));
                    assert(linked(*grid, ms, ls, lrcc.value));
                    assert(linked(*grid, ms, rs, rrcc.value));
                    add_xy_wings(grid, ls, ms, rs, lrcc, rrcc, &mut steps, &mut seen);
                    proof {
                        assert forall|l: AlmostLockedSet, m: AlmostLockedSet, r: AlmostLockedSet, x: u8, y: u8, z: u8|
                            #[trigger] xy_found(*grid, l, m, r, x, y, z) && (exists|eb: int|
                                0 <= eb < b + 1 && xy_at(sets@, links@, middle as int, a as int, eb, l, m, r, x, y)) implies removal_listed(*grid, steps@, seq![l, r], z) by {
                            let eb = choose|eb: int| 0 <= eb < b + 1 && xy_at(sets@, links@, middle as int, a as int, eb, l, m, r, x, y);
                            if eb < b {
                                lemma_listed_extends(*grid, s2, steps@, seq![l, r], z);
                            } else {
                                assert(ends_found(*grid, l, r, z));
                                assert(same_pair(ls, rs, l, r));
                            }
                        }
                    }
                } else {
                    proof {
                        assert forall|l: AlmostLockedSet, m: AlmostLockedSet, r: AlmostLockedSet, x: u8, y: u8, z: u8|
                            #[trigger] xy_found(*grid, l, m, r, x, y, z) && (exists|eb: int|
                                0 <= eb < b + 1 && xy_at(sets@, links@, middle as int, a as int, eb, l, m, r, x, y)) implies removal_listed(*grid, steps@, seq![l, r], z) by {
                            let eb = choose|eb: int| 0 <= eb < b + 1 && xy_at(sets@, links@, middle as int, a as int, eb, l, m, r, x, y);
                            assert(eb < b);
                        }
                    }
                }
                b = b + 1;
            }
            proof {
                assert forall|l: AlmostLockedSet, m: AlmostLockedSet, r: AlmostLockedSet, x: u8, y: u8, z: u8|
                    #[trigger] xy_found(*grid, l, m, r, x, y, z) && (exists|ea: int, eb: int|
                        0 <= ea < a + 1 && xy_at(sets@, links@, middle as int, ea, eb, l, m, r, x, y)) implies removal_listed(*grid, steps@, seq![l, r], z) by {
                    let (ea, eb) = choose|ea: int, eb: int| 0 <= ea < a + 1 && xy_at(sets@, links@, middle as int, ea, eb, l, m, r, x, y);
                    if ea < a {
                        lemma_listed_extends(*grid, s1, steps@, seq![l, r], z);
                    }
                }
            }
            a = a + 1;
        }
        proof {
            assert forall|l: AlmostLockedSet, m: AlmostLockedSet, r: AlmostLockedSet, x: u8, y: u8, z: u8|
                #[trigger] xy_found(*grid, l, m, r, x, y, z) && (exists|im: int, ea: int, eb: int|
                    0 <= im < middle + 1 && xy_at(sets@, links@, im, ea, eb, l, m, r, x, y)) implies removal_listed(*grid, steps@, seq![l, r], z) by {
                let (im, ea, eb) = choose|im: int, ea: int, eb: int| 0 <= im < middle + 1 && xy_at(sets@, links@, im, ea, eb, l, m, r, x, y);
                if im < middle {
                    lemma_listed_extends(*grid, s0, steps@, seq![l, r], z);
                }
            }
        }
        middle = middle + 1;
    }
    proof {
        assert forall|l: AlmostLockedSet, m: AlmostLockedSet, r: AlmostLockedSet, x: u8, y: u8, z: u8|
            #[trigger] xy_found(*grid, l, m, r, x, y, z) implies removal_listed(*grid, steps@, seq![l, r], z) by {
            assert(als_in(*grid, l.house as int, l.cells@, DEFAULT_MAX_ALS_SIZE as nat));
            assert(als_in(*grid, m.house as int, m.cells@, DEFAULT_MAX_ALS_SIZE as nat));
            assert(als_in(*grid, r.house as int, r.cells@, DEFAULT_MAX_ALS_SIZE as nat));
            let il = choose|k: int| 0 <= k < sets@.len() && (#[trigger] sets@[k]).cells@ == l.cells@;
            let im = choose|k: int| 0 <= k < sets@.len() && (#[trigger] sets@[k]).cells@ == m.cells@;
            let ir = choose|k: int| 0 <= k < sets@.len() && (#[trigger] sets@[k]).cells@ == r.cells@;
            lemma_found_values(*grid, sets@[il], l);
            lemma_found_values(*grid, sets@[im], m);
            lemma_found_values(*grid, sets@[ir], r);
            lemma_link_between(*grid, sets@, links@, m, l, x, im, il);
            lemma_link_between(*grid, sets@, links@, m, r, y, im, ir);
            let e1 = choose|e: int| 0 <= e < links@[im]@.len() && (#[trigger] links@[im]@[e]).0 == il && links@[im]@[e].1.value == x;
            let e2 = choose|e: int| 0 <= e < links@[im]@.len() && (#[trigger] links@[im]@[e]).0 == ir && links@[im]@[e].1.value == y;
            if il < ir {
                assert(xy_at(sets@, links@, im, e1, e2, l, m, r, x, y));
            } else {
                assert(il != ir);
                assert(xy_at(sets@, links@, im, e2, e1, l, m, r, x, y));
            }
        }
    }
    steps
}

/// A path of set indices with the restricted common candidates between consecutive sets:
/// each set is linked to the next, and two links in a row use different digits.
pub open spec fn path_ok(g: Grid, sets: Seq<AlmostLockedSet>, path: Seq<usize>, rccs: Seq<RestrictedCommonCandidate>) -> bool {
    &&& path.len() >= 2
    &&& rccs.len() == path.len() - 1
    &&& forall|k: int| 0 <= k < path.len() ==> #[trigger] path[k] < sets.len()
    &&& forall|i: int| 0 <= i < rccs.len() ==> linked(g, sets[path[i] as int], sets[path[i + 1] as int], (#[trigger] rccs[i]).value)
    &&& forall|i: int| 0 < i < rccs.len() ==> (#[trigger] rccs[i]).value != rccs[i - 1].value
}

/// A copy of the list.
fn copy_list<T: Copy>(v: &Vec<T>) -> (r: Vec<T>)
    ensures
        r@ == v@,
{
    let mut r: Vec<T> = Vec::new();
    let mut i: usize = 0;
    while i < v.len()
        invariant
            i <= v@.len(),
            r@ == v@.take(i as int),
        decreases v@.len() - i,
    {
        r.push(v[i]);
        assert(r@ =~= v@.take(i + 1));
        i = i + 1;
    }
    assert(v@.take(v@.len() as int) =~= v@);
    r
}

/// Whether `x` is on the path.
fn on_path(path: &Vec<usize>, x: usize) -> (r: bool)
    ensures
        r == path@.contains(x),
{
    let mut i: usize = 0;
    while i < path.len()
        invariant
            i <= path@.len(),
            forall|k: int| 0 <= k < i ==> path@[k] != x,
        decreases path@.len() - i,
    {
        if path[i] == x {
            return true;
        }
        i = i + 1;
    }
    false
}

/// Digit `z` is held by both end sets, is neither link digit at the ends of `rccs`, and
/// some cell sees all its cells in both ends.
pub open spec fn chain_ends(g: Grid, first: AlmostLockedSet, last: AlmostLockedSet, rccs: Seq<RestrictedCommonCandidate>, z: u8) -> bool {
    &&& first.values@.contains(z)
    &&& last.values@.contains(z)
    &&& z != rccs[0].value
    &&& z != rccs.last().value
    &&& targets(g, seq![first, last], z) != Set::<u8>::empty()
}

/// Digit `z` is held by both end sets, is neither link digit at the ends of `rccs`,
/// some cell sees all its cells in both ends, and no list of `seen` gives that removal.
pub open spec fn chain_removal_new(
    g: Grid,
    seen: Seq<Vec<Candidate>>,
    first: AlmostLockedSet,
    last: AlmostLockedSet,
    rccs: Seq<RestrictedCommonCandidate>,
    z: u8,
) -> bool {
    &&& first.values@.contains(z)
    &&& last.values@.contains(z)
    &&& z != rccs[0].value
    &&& z != rccs.last().value
    &&& targets(g, seq![first, last], z) != Set::<u8>::empty()
    &&& forall|i: int| 0 <= i < seen.len() ==> !cand_list((#[trigger] seen[i])@, z, targets(g, seq![first, last], z))
}

/// The steps of one chain of sets: for each digit of both end sets other than the digits
/// of the first and last links, the removal of it from the cells seeing all its cells in
/// both ends.
fn chain_steps(
    grid: &Grid,
    sets: &Vec<AlmostLockedSet>,
    path: &Vec<usize>,
    rccs: &Vec<RestrictedCommonCandidate>,
    steps: &mut Vec<AlsStep>,
    seen: &mut Vec<Vec<Candidate>>,
)
    requires
        grid.wf(),
        all_found(*grid, sets@),
        path_ok(*grid, sets@, path@, rccs@),
        path@.len() >= 3,
        recorded_removals(old(steps)@, old(seen)@),
        forall|i: int| 0 <= i < old(steps)@.len() ==> (#[trigger] old(steps)@[i]).pattern(*grid) && old(steps)@[i].als_type == AlsType::Chain,
    ensures
        recorded_removals(final(steps)@, final(seen)@),
        forall|i: int| 0 <= i < final(steps)@.len() ==> (#[trigger] final(steps)@[i]).pattern(*grid) && final(steps)@[i].als_type == AlsType::Chain,
        old(steps)@.len() <= final(steps)@.len(),
        forall|i: int| 0 <= i < old(steps)@.len() ==> #[trigger] final(steps)@[i] == old(steps)@[i],
        (exists|z: u8| #[trigger] chain_removal_new(*grid, old(seen)@, sets@[path@[0] as int], sets@[path@.last() as int], rccs@, z))
            ==> final(steps)@.len() > old(steps)@.len(),
        forall|z: u8| #[trigger] chain_ends(*grid, sets@[path@[0] as int], sets@[path@.last() as int], rccs@, z) ==> removal_listed(
            *grid,
            final(steps)@,
            seq![sets@[path@[0] as int], sets@[path@.last() as int]],
            z,
        ),
{
    let ghost steps0 = steps@;
    let ghost seen0 = seen@;
    let n = path.len();
    let first = sets[path[0]];
    assert(path@[0] < sets@.len());
    assert(path@[n - 1] < sets@.len());
    let last = sets[path[n - 1]];
    let first_value = rccs[0].value;
    let last_value = rccs[rccs.len() - 1].value;
    let mut chain: Vec<AlmostLockedSet> = Vec::new();
    let mut highlight: Vec<Vec<Candidate>> = Vec::new();
    let mut k: usize = 0;
    while k < n
        invariant
            k <= n == path@.len(),
            grid.wf(),
            all_found(*grid, sets@),
            path_ok(*grid, sets@, path@, rccs@),
            chain@.len() == k,
            highlight@.len() == k,
            forall|j: int| 0 <= j < k ==> (#[trigger] chain@[j]) == sets@[path@[j] as int],
            forall|j: int| 0 <= j < k ==> lists_candidates(*grid, (#[trigger] highlight@[j])@, chain@[j].cells@),
        decreases n - k,
    {
        assert(path@[k as int] < sets@.len());
        let set = sets[path[k]];
        chain.push(set);
        highlight.push(als_candidates(grid, &set));
        proof {
            assert forall|j: int| 0 <= j < k + 1 implies lists_candidates(*grid, (#[trigger] highlight@[j])@, chain@[j].cells@) by {
                if j == k {
                    assert(chain@[j] == set);
                }
            }
        }
        k = k + 1;
    }
    let common = first.values.intersect(&last.values).values();
    let mut zi: usize = 0;
    while zi < common.len()
        invariant
            zi <= common@.len(),
            grid.wf(),
            all_found(*grid, sets@),
            path_ok(*grid, sets@, path@, rccs@),
            path@.len() >= 3,
            n == path@.len(),
            first == sets@[path@[0] as int],
            last == sets@[path@[n - 1] as int],
            first_value == rccs@[0].value,
            last_value == rccs@.last().value,
            chain@.len() == n,
            highlight@.len() == n,
            forall|j: int| 0 <= j < n ==> (#[trigger] chain@[j]) == sets@[path@[j] as int],
            forall|j: int| 0 <= j < n ==> lists_candidates(*grid, (#[trigger] highlight@[j])@, chain@[j].cells@),
            forall|v: u8| common@.contains(v) <==> (first.values@.contains(v) && last.values@.contains(v)),
            recorded_removals(steps@, seen@),
            forall|i: int| 0 <= i < steps@.len() ==> (#[trigger] steps@[i]).pattern(*grid) && steps@[i].als_type == AlsType::Chain,
            steps0 == old(steps)@,
            seen0 == old(seen)@,
            steps0.len() <= steps@.len(),
            forall|i: int| 0 <= i < steps0.len() ==> #[trigger] steps@[i] == steps0[i],
            steps@.len() == steps0.len() ==> seen@ == seen0,
            forall|v: u8| #[trigger] common@.contains(v) ==> exists|q: int| 0 <= q < common@.len() && common@[q] == v,
            steps@.len() == steps0.len() ==> forall|q: int|
                0 <= q < zi ==> !#[trigger] chain_removal_new(*grid, seen0, first, last, rccs@, common@[q]),
            forall|z: u8| (exists|q: int| 0 <= q < zi && common@[q] == z) && #[trigger] chain_ends(*grid, first, last, rccs@, z)
                ==> removal_listed(*grid, steps@, seq![first, last], z),
        decreases common@.len() - zi,
    {
        let z = common[zi];
        assert(common@.contains(z));
        let ghost sb = steps@;
        let ghost seen_b = seen@;
        if z != first_value && z != last_value {
            let removals = endpoint_removals(grid, &first, &last, z);
            proof {
                let t = targets(*grid, seq![first, last], z);
                if removals@.len() == 0 && t != Set::<u8>::empty() {
                    let c = t.choose();
                    assert(t.contains(c)) by {
                        if !(exists|c: u8| t.contains(c)) {
                            assert(t =~= Set::<u8>::empty());
                        }
                    }
                }
                if exists|i: int| 0 <= i < seen@.len() && (#[trigger] seen@[i])@ == removals@ {
                    let i = choose|i: int| 0 <= i < seen@.len() && (#[trigger] seen@[i])@ == removals@;
                    assert(cand_list(seen@[i]@, z, t));
                }
            }
            if removals.len() > 0 {
                let step = AlsStep {
                    als_type: AlsType::Chain,
                    sets: copy_list(&chain),
                    rccs: copy_list(rccs),
                    highlight_candidates: clone_lists(&highlight),
                    remove_candidates: removals,
                };
                proof {
                    let sq = step.sets@;
                    assert(sq[0] == first);
                    assert(sq.last() == chain@[n - 1]);
                    assert(sq.last() == last);
                    assert(chained(*grid, sq, step.rccs@)) by {
                        assert forall|i: int| 0 <= i < step.rccs@.len() implies linked(*grid, sq[i], sq[i + 1], (#[trigger] step.rccs@[i]).value) by {
                            assert(sq[i] == chain@[i]);
                            assert(sq[i + 1] == chain@[i + 1]);
                            assert(rccs@[i] == step.rccs@[i]);
                        }
                    }
                    assert(end_removal(*grid, sq, step.rccs@, step.remove_candidates@, z));
                    assert forall|j: int| 0 <= j < sq.len() implies (#[trigger] sq[j]).found_in(*grid, DEFAULT_MAX_ALS_SIZE as nat) by {
                        assert(sq[j] == chain@[j]);
                        assert(path@[j] < sets@.len());
                    }
                    assert forall|j: int| 0 <= j < sq.len() implies lists_candidates(*grid, (#[trigger] step.highlight_candidates@[j])@, sq[j].cells@) by {
                        assert(sq[j] == chain@[j]);
                        assert(step.highlight_candidates@[j]@ == highlight@[j]@);
                    }
                    assert(step.pattern(*grid));
                }
                let ghost before = steps@;
                keep_step(steps, seen, step);
                proof {
                    assert forall|i: int| 0 <= i < steps@.len() implies (#[trigger] steps@[i]).pattern(*grid) && steps@[i].als_type
                        == AlsType::Chain by {
                        if i < before.len() {
                            assert(steps@[i] == before[i]);
                        }
                    }
                    assert forall|i: int| 0 <= i < steps0.len() implies #[trigger] steps@[i] == steps0[i] by {
                        assert(steps@[i] == before[i]);
                    }
                    if chain_ends(*grid, first, last, rccs@, z) {
                        if fresh(seen_b, removals@) {
                            assert(steps@[sb.len() as int].remove_candidates@ == removals@);
                            assert(cand_list(steps@[sb.len() as int].remove_candidates@, z, targets(*grid, seq![first, last], z)));
                        } else {
                            let i = choose|i: int| 0 <= i < seen_b.len() && (#[trigger] seen_b[i])@ == removals@;
                            assert(sb[i].remove_candidates@ == seen_b[i]@);
                            assert(steps@[i] == sb[i]);
                            assert(cand_list(steps@[i].remove_candidates@, z, targets(*grid, seq![first, last], z)));
                        }
                    }
                }
            } else {
                proof {
                    if chain_ends(*grid, first, last, rccs@, z) {
                        let c = targets(*grid, seq![first, last], z).choose();
                        assert(targets(*grid, seq![first, last], z).contains(c)) by {
                            if !(exists|c: u8| targets(*grid, seq![first, last], z).contains(c)) {
                                assert(targets(*grid, seq![first, last], z) =~= Set::<u8>::empty());
                            }
                        }
                        let i = choose|i: int| 0 <= i < removals@.len() && (#[trigger] removals@[i]).0 == c;
                    }
                }
            }
        }
        proof {
            assert(extends(sb, steps@));
            assert forall|z2: u8| (exists|q: int| 0 <= q < zi + 1 && common@[q] == z2) && #[trigger] chain_ends(*grid, first, last, rccs@, z2)
                implies removal_listed(*grid, steps@, seq![first, last], z2) by {
                let q = choose|q: int| 0 <= q < zi + 1 && common@[q] == z2;
                if q < zi {
                    lemma_listed_extends(*grid, sb, steps@, seq![first, last], z2);
                }
            }
        }
        zi = zi + 1;
    }
    proof {
        assert forall|z: u8| #[trigger] chain_ends(*grid, sets@[path@[0] as int], sets@[path@.last() as int], rccs@, z) implies removal_listed(
            *grid,
            steps@,
            seq![sets@[path@[0] as int], sets@[path@.last() as int]],
            z,
        ) by {
            assert(common@.contains(z));
            let q = choose|q: int| 0 <= q < common@.len() && common@[q] == z;
        }
        if exists|z: u8| #[trigger] chain_removal_new(*grid, old(seen)@, sets@[path@[0] as int], sets@[path@.last() as int], rccs@, z) {
            let z = choose|z: u8| #[trigger] chain_removal_new(*grid, old(seen)@, sets@[path@[0] as int], sets@[path@.last() as int], rccs@, z);
            assert(common@.contains(z));
            let q = choose|q: int| 0 <= q < common@.len() && common@[q] == z;
        }
    }
}

/// A copy of each list.
fn clone_lists(v: &Vec<Vec<Candidate>>) -> (r: Vec<Vec<Candidate>>)
    ensures
        r@.len() == v@.len(),
        forall|i: int| 0 <= i < v@.len() ==> (#[trigger] r@[i])@ == v@[i]@,
{
    let mut r: Vec<Vec<Candidate>> = Vec::new();
    let mut i: usize = 0;
    while i < v.len()
        invariant
            i <= v@.len(),
            r@.len() == i,
            forall|k: int| 0 <= k < i ==> (#[trigger] r@[k])@ == v@[k]@,
        decreases v@.len() - i,
    {
        r.push(clone_cand_list(&v[i]));
        i = i + 1;
    }
    r
}

/// The digits of the links.
pub open spec fn link_digits(rs: Seq<RestrictedCommonCandidate>) -> Seq<u8> {
    rs.map_values(|r: RestrictedCommonCandidate| r.value)
}

/// `p` lists different sets by index, each with a link to the next by the digit `vs`
/// gives, two links in a row by different digits.
pub open spec fn index_path(links: Seq<Vec<(usize, RestrictedCommonCandidate)>>, p: Seq<usize>, vs: Seq<u8>) -> bool {
    &&& p.len() >= 2
    &&& vs.len() == p.len() - 1
    &&& forall|k: int| 0 <= k < p.len() ==> #[trigger] p[k] < links.len()
    &&& forall|a: int, b: int| 0 <= a < b < p.len() ==> #[trigger] p[a] != #[trigger] p[b]
    &&& forall|i: int| 0 <= i < vs.len() ==> has_link(links, p[i] as int, p[i + 1] as int, #[trigger] vs[i])
    &&& forall|i: int| 0 < i < vs.len() ==> #[trigger] vs[i] != vs[i - 1]
}

/// Some entry of `level` is path `p` with link digits `vs`.
pub open spec fn level_has(level: Seq<(Vec<usize>, Vec<RestrictedCommonCandidate>)>, p: Seq<usize>, vs: Seq<u8>) -> bool {
    exists|j: int| 0 <= j < level.len() && (#[trigger] level[j]).0@ == p && link_digits(level[j].1@) == vs
}

/// Digit `z` is held by both end sets, differs from the first and last link digits, and
/// some cell outside the ends loses it.
pub open spec fn chain_ends_v(g: Grid, first: AlmostLockedSet, last: AlmostLockedSet, vs: Seq<u8>, z: u8) -> bool {
    &&& first.values@.contains(z)
    &&& last.values@.contains(z)
    &&& z != vs[0]
    &&& z != vs.last()
    &&& targets(g, seq![first, last], z) != Set::<u8>::empty()
}

/// An ALS chain of `g`: different almost locked sets found with the default size, each
/// linked to the next by the digit `vs` gives, two links in a row by different digits,
/// and a digit `z` of both ends, neither end link's digit, that some cell outside the ends
/// loses.
pub open spec fn chain_found(g: Grid, sq: Seq<AlmostLockedSet>, vs: Seq<u8>, z: u8) -> bool {
    &&& sq.len() >= 2
    &&& vs.len() == sq.len() - 1
    &&& forall|k: int| 0 <= k < sq.len() ==> (#[trigger] sq[k]).found_in(g, DEFAULT_MAX_ALS_SIZE as nat)
    &&& forall|a: int, b: int| 0 <= a < b < sq.len() ==> (#[trigger] sq[a]).cells@ != (#[trigger] sq[b]).cells@
    &&& forall|i: int| 0 <= i < vs.len() ==> linked(g, sq[i], sq[i + 1], #[trigger] vs[i])
    &&& forall|i: int| 0 < i < vs.len() ==> #[trigger] vs[i] != vs[i - 1]
    &&& chain_ends_v(g, sq[0], sq.last(), vs, z)
}

/// The first sets of a path make a path.
proof fn lemma_index_prefix(links: Seq<Vec<(usize, RestrictedCommonCandidate)>>, p: Seq<usize>, vs: Seq<u8>, k: int)
    requires
        index_path(links, p, vs),
        2 <= k <= p.len(),
    ensures
        index_path(links, p.take(k), vs.take(k - 1)),
{
    let q = p.take(k);
    let ws = vs.take(k - 1);
    assert forall|a: int, b: int| 0 <= a < b < q.len() implies #[trigger] q[a] != #[trigger] q[b] by {
        assert(q[a] == p[a] && q[b] == p[b]);
    }
    assert forall|i: int| 0 <= i < ws.len() implies has_link(links, q[i] as int, q[i + 1] as int, #[trigger] ws[i]) by {
        assert(ws[i] == vs[i] && q[i] == p[i] && q[i + 1] == p[i + 1]);
    }
    assert forall|i: int| 0 < i < ws.len() implies #[trigger] ws[i] != ws[i - 1] by {
        assert(ws[i] == vs[i] && ws[i - 1] == vs[i - 1]);
    }
}

/// ALS chains of `min_sets` to `max_sets` sets, shortest first: paths of linked sets,
/// each set on a path once and two links in a row with different digits, each removing a
/// digit of both ends (other than the digits of the first and last links) from the cells
/// seeing all its cells in both ends; a list of removals is kept once. Every such chain
/// gets its removals listed.
#[verifier::rlimit(80)]
fn find_als_chain_steps(grid: &Grid, min_sets: usize, max_sets: usize) -> (r: Vec<AlsStep>)
    requires
        grid.wf(),
        min_sets >= 3,
        max_sets < usize::MAX,
    ensures
        forall|i: int| 0 <= i < r@.len() ==> (#[trigger] r@[i]).pattern(*grid) && r@[i].als_type == AlsType::Chain,
        forall|sq: Seq<AlmostLockedSet>, vs: Seq<u8>, z: u8|
            #[trigger] chain_found(*grid, sq, vs, z) && min_sets <= sq.len() <= max_sets ==> removal_listed(*grid, r@, seq![sq[0], sq.last()], z),
{
    let sets = find_almost_locked_sets(grid, DEFAULT_MAX_ALS_SIZE);
    let links = als_links(grid, &sets);
    let mut level: Vec<(Vec<usize>, Vec<RestrictedCommonCandidate>)> = Vec::new();
    let mut left: usize = 0;
    while left < links.len()
        invariant
            left <= links@.len(),
            links_ok(*grid, sets@, links@),
            forall|j: int| 0 <= j < level@.len() ==> path_ok(*grid, sets@, (#[trigger] level@[j]).0@, level@[j].1@) && level@[j].0@.len() == 2,
            forall|p: Seq<usize>, vs: Seq<u8>|
                #[trigger] index_path(links@, p, vs) && p.len() == 2 && p[0] < left ==> level_has(level@, p, vs),
        decreases links@.len() - left,
    {
        let mut e: usize = 0;
        while e < links[left].len()
            invariant
                left < links@.len(),
                e <= links@[left as int]@.len(),
                links_ok(*grid, sets@, links@),
                forall|j: int| 0 <= j < level@.len() ==> path_ok(*grid, sets@, (#[trigger] level@[j]).0@, level@[j].1@) && level@[j].0@.len() == 2,
                forall|p: Seq<usize>, vs: Seq<u8>|
                    #[trigger] index_path(links@, p, vs) && p.len() == 2 && p[0] < left ==> level_has(level@, p, vs),
                forall|p: Seq<usize>, vs: Seq<u8>|
                    #[trigger] index_path(links@, p, vs) && p.len() == 2 && p[0] == left && (exists|f: int|
                        0 <= f < e && (#[trigger] links@[left as int]@[f]).0 == p[1] && links@[left as int]@[f].1.value == vs[0]) ==> level_has(level@, p, vs),
            decreases links@[left as int]@.len() - e,
        {
            let (right, rcc) = links[left][e];
            assert(links@[left as int]@[e as int].0 < sets@.len());
            let mut path: Vec<usize> = Vec::new();
            path.push(left);
            path.push(right);
            let mut rs: Vec<RestrictedCommonCandidate> = Vec::new();
            rs.push(rcc);
            proof {
                assert(path_ok(*grid, sets@, path@, rs@)) by {
                    assert(path@[0] == left && path@[1] == right);
                    assert(rs@[0] == rcc);
                }
            }
            let ghost before = level@;
            let ghost pe = path@;
            let ghost re = rs@;
            level.push((path, rs));
            proof {
                assert forall|j: int| 0 <= j < level@.len() implies path_ok(*grid, sets@, (#[trigger] level@[j]).0@, level@[j].1@) && level@[j].0@.len() == 2 by {
                    if j < before.len() {
                        assert(level@[j] == before[j]);
                    }
                }
                assert forall|p: Seq<usize>, vs: Seq<u8>|
                    #[trigger] index_path(links@, p, vs) && p.len() == 2 && (p[0] < left || (p[0] == left && (exists|f: int|
                        0 <= f < e + 1 && (#[trigger] links@[left as int]@[f]).0 == p[1] && links@[left as int]@[f].1.value == vs[0])))
                        implies level_has(level@, p, vs) by {
                    if p[0] == left && !(exists|f: int|
                        0 <= f < e && (#[trigger] links@[left as int]@[f]).0 == p[1] && links@[left as int]@[f].1.value == vs[0]) {
                        let f = choose|f: int| 0 <= f < e + 1 && (#[trigger] links@[left as int]@[f]).0 == p[1] && links@[left as int]@[f].1.value == vs[0];
                        assert(f == e);
                        let j = before.len() as int;
                        assert(level@[j].0@ == pe);
                        assert(pe =~= p);
                        assert(link_digits(level@[j].1@) =~= vs);
                    } else {
                        let j = choose|j: int| 0 <= j < before.len() && (#[trigger] before[j]).0@ == p && link_digits(before[j].1@) == vs;
                        assert(level@[j] == before[j]);
                    }
                }
            }
            e = e + 1;
        }
        proof {
            assert forall|p: Seq<usize>, vs: Seq<u8>|
                #[trigger] index_path(links@, p, vs) && p.len() == 2 && p[0] < left + 1 implies level_has(level@, p, vs) by {
                if p[0] == left {
                    assert(has_link(links@, p[0] as int, p[1] as int, vs[0]));
                }
            }
        }
        left = left + 1;
    }
    let mut steps: Vec<AlsStep> = Vec::new();
    let mut seen: Vec<Vec<Candidate>> = Vec::new();
    let mut len: usize = 2;
    while len <= max_sets && level.len() > 0
        invariant
            2 <= len,
            grid.wf(),
            min_sets >= 3,
            max_sets < usize::MAX,
            all_found(*grid, sets@),
            links_ok(*grid, sets@, links@),
            forall|j: int| 0 <= j < level@.len() ==> path_ok(*grid, sets@, (#[trigger] level@[j]).0@, level@[j].1@) && level@[j].0@.len() == len,
            len <= max_sets ==> forall|p: Seq<usize>, vs: Seq<u8>| #[trigger] index_path(links@, p, vs) && p.len() == len ==> level_has(level@, p, vs),
            recorded_removals(steps@, seen@),
            forall|i: int| 0 <= i < steps@.len() ==> (#[trigger] steps@[i]).pattern(*grid) && steps@[i].als_type == AlsType::Chain,
            forall|p: Seq<usize>, vs: Seq<u8>, z: u8|
                #[trigger] index_path(links@, p, vs) && min_sets <= p.len() < len && #[trigger] chain_ends_v(*grid, sets@[p[0] as int], sets@[p.last() as int], vs, z)
                    ==> removal_listed(*grid, steps@, seq![sets@[p[0] as int], sets@[p.last() as int]], z),
        decreases max_sets + 1 - len,
    {
        let mut next: Vec<(Vec<usize>, Vec<RestrictedCommonCandidate>)> = Vec::new();
        let ghost s0 = steps@;
        let mut p: usize = 0;
        while p < level.len()
            invariant
                p <= level@.len(),
                2 <= len <= max_sets,
                grid.wf(),
                min_sets >= 3,
                all_found(*grid, sets@),
                links_ok(*grid, sets@, links@),
                forall|j: int| 0 <= j < level@.len() ==> path_ok(*grid, sets@, (#[trigger] level@[j]).0@, level@[j].1@) && level@[j].0@.len() == len,
                forall|j: int| 0 <= j < next@.len() ==> path_ok(*grid, sets@, (#[trigger] next@[j]).0@, next@[j].1@) && next@[j].0@.len() == len + 1,
                recorded_removals(steps@, seen@),
                forall|i: int| 0 <= i < steps@.len() ==> (#[trigger] steps@[i]).pattern(*grid) && steps@[i].als_type == AlsType::Chain,
                extends(s0, steps@),
                forall|q: Seq<usize>, ws: Seq<u8>, z: u8|
                    #[trigger] index_path(links@, q, ws) && min_sets <= q.len() == len && (exists|j: int|
                        0 <= j < p && (#[trigger] level@[j]).0@ == q && link_digits(level@[j].1@) == ws) && #[trigger] chain_ends_v(
                        *grid,
                        sets@[q[0] as int],
                        sets@[q.last() as int],
                        ws,
                        z,
                    ) ==> removal_listed(*grid, steps@, seq![sets@[q[0] as int], sets@[q.last() as int]], z),
                len < max_sets ==> forall|q: Seq<usize>, ws: Seq<u8>|
                    #[trigger] index_path(links@, q, ws) && q.len() == len + 1 && (exists|j: int|
                        0 <= j < p && (#[trigger] level@[j]).0@ == q.take(len as int) && link_digits(level@[j].1@) == ws.take(len - 1))
                        ==> level_has(next@, q, ws),
            decreases level@.len() - p,
        {
            let path = &level[p].0;
            let rccs = &level[p].1;
            assert(path_ok(*grid, sets@, level@[p as int].0@, level@[p as int].1@));
            let ghost s1 = steps@;
            if len >= min_sets {
                chain_steps(grid, &sets, path, rccs, &mut steps, &mut seen);
            }
            proof {
                assert(extends(s1, steps@));
                assert forall|q: Seq<usize>, ws: Seq<u8>, z: u8|
                    #[trigger] index_path(links@, q, ws) && min_sets <= q.len() == len && (exists|j: int|
                        0 <= j < p + 1 && (#[trigger] level@[j]).0@ == q && link_digits(level@[j].1@) == ws) && #[trigger] chain_ends_v(
                        *grid,
                        sets@[q[0] as int],
                        sets@[q.last() as int],
                        ws,
                        z,
                    ) implies removal_listed(*grid, steps@, seq![sets@[q[0] as int], sets@[q.last() as int]], z) by {
                    let j = choose|j: int| 0 <= j < p + 1 && (#[trigger] level@[j]).0@ == q && link_digits(level@[j].1@) == ws;
                    if j < p {
                        lemma_listed_extends(*grid, s1, steps@, seq![sets@[q[0] as int], sets@[q.last() as int]], z);
                    } else {
                        assert(path@ == q);
                        assert(rccs@.len() == ws.len());
                        assert(rccs@[0].value == link_digits(rccs@)[0]);
                        assert(rccs@.last().value == link_digits(rccs@)[rccs@.len() - 1]);
                        assert(chain_ends(*grid, sets@[path@[0] as int], sets@[path@.last() as int], rccs@, z));
                    }
                }
            }
            if len < max_sets {
                let last = path[path.len() - 1];
                assert(path@[path@.len() - 1] < sets@.len());
                let last_value = rccs[rccs.len() - 1].value;
                let ghost n0 = next@;
                let mut e: usize = 0;
                while e < links[last].len()
                    invariant
                        last < links@.len(),
                        e <= links@[last as int]@.len(),
                        2 <= len < max_sets,
                        path_ok(*grid, sets@, path@, rccs@),
                        path@.len() == len,
                        last == path@[len - 1],
                        last_value == rccs@[rccs@.len() - 1].value,
                        links_ok(*grid, sets@, links@),
                        forall|j: int| 0 <= j < next@.len() ==> path_ok(*grid, sets@, (#[trigger] next@[j]).0@, next@[j].1@) && next@[j].0@.len() == len + 1,
                        n0.len() <= next@.len(),
                        forall|j: int| 0 <= j < n0.len() ==> #[trigger] next@[j] == n0[j],
                        forall|q: Seq<usize>, ws: Seq<u8>|
                            #[trigger] index_path(links@, q, ws) && q.len() == len + 1 && q.take(len as int) == path@ && ws.take(len - 1) == link_digits(rccs@)
                                && (exists|f: int|
                                0 <= f < e && (#[trigger] links@[last as int]@[f]).0 == q[len as int] && links@[last as int]@[f].1.value == ws[len - 1])
                                ==> level_has(next@, q, ws),
                    decreases links@[last as int]@.len() - e,
                {
                    let (nx, rcc) = links[last][e];
                    assert(links@[last as int]@[e as int].0 < sets@.len());
                    let ghost nb = next@;
                    let on = on_path(path, nx);
                    if !on && rcc.value != last_value {
                        let mut longer = copy_list(path);
                        longer.push(nx);
                        let mut more = copy_list(rccs);
                        more.push(rcc);
                        proof {
                            assert(path_ok(*grid, sets@, longer@, more@)) by {
                                assert forall|k: int| 0 <= k < longer@.len() implies #[trigger] longer@[k] < sets@.len() by {
                                    if k < len {
                                        assert(longer@[k] == path@[k]);
                                    }
                                }
                                assert forall|i: int| 0 <= i < more@.len() implies linked(*grid, sets@[longer@[i] as int], sets@[longer@[i + 1] as int], (#[trigger] more@[i]).value) by {
                                    if i < more@.len() - 1 {
                                        assert(more@[i] == rccs@[i]);
                                        assert(longer@[i] == path@[i]);
                                        assert(longer@[i + 1] == path@[i + 1]);
                                    } else {
                                        assert(longer@[i] == last);
                                        assert(longer@[i + 1] == nx);
                                        assert(more@[i] == rcc);
                                    }
                                }
                                assert forall|i: int| 0 < i < more@.len() implies (#[trigger] more@[i]).value != more@[i - 1].value by {
                                    if i < more@.len() - 1 {
                                        assert(more@[i] == rccs@[i]);
                                        assert(more@[i - 1] == rccs@[i - 1]);
                                    } else {
                                        assert(more@[i - 1] == rccs@[i - 1]);
                                    }
                                }
                            }
                        }
                        let ghost lg = longer@;
                        let ghost mr = more@;
                        next.push((longer, more));
                        proof {
                            assert forall|j: int| 0 <= j < next@.len() implies path_ok(*grid, sets@, (#[trigger] next@[j]).0@, next@[j].1@) && next@[j].0@.len() == len + 1 by {
                                if j < nb.len() {
                                    assert(next@[j] == nb[j]);
                                }
                            }
                            assert forall|j: int| 0 <= j < n0.len() implies #[trigger] next@[j] == n0[j] by {
                                assert(next@[j] == nb[j]);
                            }
                            assert forall|q: Seq<usize>, ws: Seq<u8>|
                                #[trigger] index_path(links@, q, ws) && q.len() == len + 1 && q.take(len as int) == path@ && ws.take(len - 1) == link_digits(rccs@)
                                    && (exists|f: int|
                                    0 <= f < e + 1 && (#[trigger] links@[last as int]@[f]).0 == q[len as int] && links@[last as int]@[f].1.value == ws[len - 1])
                                    implies level_has(next@, q, ws) by {
                                if exists|f: int|
                                    0 <= f < e && (#[trigger] links@[last as int]@[f]).0 == q[len as int] && links@[last as int]@[f].1.value == ws[len - 1] {
                                    let j = choose|j: int| 0 <= j < nb.len() && (#[trigger] nb[j]).0@ == q && link_digits(nb[j].1@) == ws;
                                    assert(next@[j] == nb[j]);
                                } else {
                                    let f = choose|f: int|
                                        0 <= f < e + 1 && (#[trigger] links@[last as int]@[f]).0 == q[len as int] && links@[last as int]@[f].1.value == ws[len - 1];
                                    assert(f == e);
                                    let j = nb.len() as int;
                                    assert(next@[j].0@ == lg);
                                    assert(lg =~= q) by {
                                        assert forall|k: int| 0 <= k < q.len() implies lg[k] == q[k] by {
                                            if k < len {
                                                assert(q.take(len as int)[k] == q[k]);
                                            }
                                        }
                                    }
                                    assert(link_digits(mr) =~= ws) by {
                                        assert forall|k: int| 0 <= k < ws.len() implies link_digits(mr)[k] == ws[k] by {
                                            if k < len - 1 {
                                                assert(ws.take(len - 1)[k] == ws[k]);
                                                assert(link_digits(rccs@)[k] == rccs@[k].value);
                                                assert(mr[k] == rccs@[k]);
                                            }
                                        }
                                    }
                                }
                            }
                        }
                    } else {
                        proof {
                            assert forall|q: Seq<usize>, ws: Seq<u8>|
                                #[trigger] index_path(links@, q, ws) && q.len() == len + 1 && q.take(len as int) == path@ && ws.take(len - 1) == link_digits(rccs@)
                                    && (exists|f: int|
                                    0 <= f < e + 1 && (#[trigger] links@[last as int]@[f]).0 == q[len as int] && links@[last as int]@[f].1.value == ws[len - 1])
                                    implies level_has(next@, q, ws) by {
                                if !(exists|f: int|
                                    0 <= f < e && (#[trigger] links@[last as int]@[f]).0 == q[len as int] && links@[last as int]@[f].1.value == ws[len - 1]) {
                                    let f = choose|f: int|
                                        0 <= f < e + 1 && (#[trigger] links@[last as int]@[f]).0 == q[len as int] && links@[last as int]@[f].1.value == ws[len - 1];
                                    assert(f == e);
                                    assert(links@[last as int]@[e as int].0 == q[len as int]);
                                    if on {
                                        let k = choose|k: int| 0 <= k < path@.len() && path@[k] == nx;
                                        assert(q[k] == path@[k]) by {
                                            assert(q.take(len as int)[k] == q[k]);
                                        }
                                    } else {
                                        assert(ws[len - 2] == last_value) by {
                                            assert(ws.take(len - 1)[len - 2] == ws[len - 2]);
                                            assert(link_digits(rccs@)[len - 2] == rccs@[len - 2].value);
                                        }
                                    }
                                }
                            }
                        }
                    }
                    e = e + 1;
                }
                proof {
                    assert forall|q: Seq<usize>, ws: Seq<u8>|
                        #[trigger] index_path(links@, q, ws) && q.len() == len + 1 && (exists|j: int|
                            0 <= j < p + 1 && (#[trigger] level@[j]).0@ == q.take(len as int) && link_digits(level@[j].1@) == ws.take(len - 1))
                            implies level_has(next@, q, ws) by {
                        let j = choose|j: int| 0 <= j < p + 1 && (#[trigger] level@[j]).0@ == q.take(len as int) && link_digits(level@[j].1@) == ws.take(len - 1);
                        if j < p {
                            let i = choose|i: int| 0 <= i < n0.len() && (#[trigger] n0[i]).0@ == q && link_digits(n0[i].1@) == ws;
                            assert(next@[i] == n0[i]);
                        } else {
                            assert(has_link(links@, q[len - 1] as int, q[len as int] as int, ws[len - 1]));
                            assert(q[len - 1] == q.take(len as int)[len - 1]);
                        }
                    }
                }
            }
            p = p + 1;
        }
        proof {
            assert forall|q: Seq<usize>, ws: Seq<u8>, z: u8|
                #[trigger] index_path(links@, q, ws) && min_sets <= q.len() < len + 1 && #[trigger] chain_ends_v(*grid, sets@[q[0] as int], sets@[q.last() as int], ws, z)
                    implies removal_listed(*grid, steps@, seq![sets@[q[0] as int], sets@[q.last() as int]], z) by {
                if q.len() < len {
                    lemma_listed_extends(*grid, s0, steps@, seq![sets@[q[0] as int], sets@[q.last() as int]], z);
                } else {
                    let j = choose|j: int| 0 <= j < level@.len() && (#[trigger] level@[j]).0@ == q && link_digits(level@[j].1@) == ws;
                }
            }
            if len < max_sets {
                assert forall|q: Seq<usize>, ws: Seq<u8>| #[trigger] index_path(links@, q, ws) && q.len() == len + 1 implies level_has(next@, q, ws) by {
                    lemma_index_prefix(links@, q, ws, len as int);
                    let j = choose|j: int| 0 <= j < level@.len() && (#[trigger] level@[j]).0@ == q.take(len as int) && link_digits(level@[j].1@) == ws.take(len - 1);
                }
            }
        }
        level = next;
        len = len + 1;
    }
    proof {
        assert forall|q: Seq<usize>, ws: Seq<u8>, z: u8|
            #[trigger] index_path(links@, q, ws) && min_sets <= q.len() <= max_sets && #[trigger] chain_ends_v(*grid, sets@[q[0] as int], sets@[q.last() as int], ws, z)
                implies removal_listed(*grid, steps@, seq![sets@[q[0] as int], sets@[q.last() as int]], z) by {
            if q.len() >= len {
                lemma_index_prefix(links@, q, ws, len as int);
                let j = choose|j: int| 0 <= j < level@.len() && (#[trigger] level@[j]).0@ == q.take(len as int) && link_digits(level@[j].1@) == ws.take(len - 1);
            }
        }
        assert forall|sq: Seq<AlmostLockedSet>, vs: Seq<u8>, z: u8|
            #[trigger] chain_found(*grid, sq, vs, z) && min_sets <= sq.len() <= max_sets implies removal_listed(*grid, steps@, seq![sq[0], sq.last()], z) by {
            let q = Seq::new(sq.len(), |k: int| choose|m: usize| (m as int) < sets@.len() && sets@[m as int].cells@ == sq[k].cells@);
            assert forall|k: int| 0 <= k < q.len() implies (#[trigger] q[k]) < sets@.len() && sets@[q[k] as int].cells@ == sq[k].cells@
                && sets@[q[k] as int].values@ == sq[k].values@ by {
                assert(sq[k].found_in(*grid, DEFAULT_MAX_ALS_SIZE as nat));
                assert(als_in(*grid, sq[k].house as int, sq[k].cells@, DEFAULT_MAX_ALS_SIZE as nat));
                let m = choose|m: int| 0 <= m < sets@.len() && (#[trigger] sets@[m]).cells@ == sq[k].cells@;
                assert(sets.len() == sets@.len());
                assert((m as usize) as int == m);
                assert(sets@[(m as usize) as int].cells@ == sq[k].cells@);
                lemma_found_values(*grid, sets@[q[k] as int], sq[k]);
            }
            assert forall|a: int, b: int| 0 <= a < b < q.len() implies #[trigger] q[a] != #[trigger] q[b] by {
                assert(sq[a].cells@ != sq[b].cells@);
            }
            assert forall|i: int| 0 <= i < vs.len() implies has_link(links@, q[i] as int, q[i + 1] as int, #[trigger] vs[i]) by {
                assert(q[i] != q[i + 1]);
                lemma_link_between(*grid, sets@, links@, sq[i], sq[i + 1], vs[i], q[i] as int, q[i + 1] as int);
            }
            assert(index_path(links@, q, vs));
            let first = sets@[q[0] as int];
            let last = sets@[q.last() as int];
            assert(q.last() == q[q.len() - 1]);
            lemma_pair_targets(*grid, first, last, sq[0], sq.last(), z);
            assert(chain_ends_v(*grid, first, last, vs, z));
            assert(removal_listed(*grid, steps@, seq![first, last], z));
        }
    }
    steps
}

/// `c` takes one entry from each list, the `k`-th entry from the `k`-th list.
pub open spec fn choice_of(lists: Seq<Vec<usize>>, c: Seq<usize>) -> bool {
    &&& c.len() == lists.len()
    &&& forall|k: int| 0 <= k < lists.len() ==> #[trigger] lists[k]@.contains(c[k])
}

/// `itertools::Itertools::multi_cartesian_product` on the lists: choices of one entry
/// from each list, the `k`-th entry from the `k`-th list, every such choice (one empty
/// choice when there are no lists).
#[verifier::external_body]
fn index_choices(lists: &Vec<Vec<usize>>) -> (r: Vec<Vec<usize>>)
    ensures
        forall|j: int|
            0 <= j < r@.len() ==> (#[trigger] r@[j])@.len() == lists@.len() && forall|k: int|
                0 <= k < lists@.len() ==> lists@[k]@.contains(r@[j]@[k]),
        forall|c: Seq<usize>| #[trigger] choice_of(lists@, c) ==> exists|j: int| 0 <= j < r@.len() && r@[j]@ == c,
{
    lists.iter().map(|l| l.iter().copied()).multi_cartesian_product().collect()
}

/// Whether some index occurs twice in the list.
fn has_repeat(l: &Vec<usize>) -> (r: bool)
    ensures
        r == exists|i: int, j: int| 0 <= i < j < l@.len() && l@[i] == l@[j],
{
    let mut i: usize = 0;
    while i < l.len()
        invariant
            i <= l@.len(),
            forall|a: int, b: int| 0 <= a < b < l@.len() && a < i ==> l@[a] != l@[b],
        decreases l@.len() - i,
    {
        let mut j: usize = i + 1;
        while j < l.len()
            invariant
                i < j <= l@.len(),
                forall|a: int, b: int| 0 <= a < b < l@.len() && a < i ==> l@[a] != l@[b],
                forall|b: int| i < b < j ==> l@[i as int] != l@[b],
            decreases l@.len() - j,
        {
            if l[i] == l[j] {
                return true;
            }
            j = j + 1;
        }
        i = i + 1;
    }
    false
}

/// The cells of `set` holding digit `d` are some, and all see cell `stem`.
pub open spec fn petal(g: Grid, set: AlmostLockedSet, stem: u8, d: u8) -> bool {
    &&& value_cells(g, set.cells@, d) != Set::<u8>::empty()
    &&& forall|c: u8| value_cells(g, set.cells@, d).contains(c) ==> #[trigger] sees(stem as int, c as int)
}

/// The sets of `sets` whose cells holding digit `d` are some and all see cell `stem`,
/// by index.
fn petals_for(grid: &Grid, sets: &Vec<AlmostLockedSet>, stem: u8, d: u8) -> (r: Vec<usize>)
    requires
        grid.wf(),
        stem < 81,
    ensures
        forall|i: int|
            0 <= i < r@.len() ==> #[trigger] r@[i] < sets@.len() && value_cells(*grid, sets@[r@[i] as int].cells@, d) != Set::<u8>::empty()
                && forall|c: u8| value_cells(*grid, sets@[r@[i] as int].cells@, d).contains(c) ==> #[trigger] sees(stem as int, c as int),
        forall|k: int| 0 <= k < sets@.len() && #[trigger] petal(*grid, sets@[k], stem, d) ==> r@.contains(k as usize),
        forall|a: int, b: int| 0 <= a < b < r@.len() ==> r@[a] < r@[b],
{
    let buddies = get_cell_buddies(stem);
    let mut r: Vec<usize> = Vec::new();
    let mut idx: usize = 0;
    while idx < sets.len()
        invariant
            idx <= sets@.len(),
            grid.wf(),
            buddies@ == peers(stem as int),
            forall|i: int|
                0 <= i < r@.len() ==> #[trigger] r@[i] < sets@.len() && value_cells(*grid, sets@[r@[i] as int].cells@, d)
                    != Set::<u8>::empty() && forall|c: u8|
                    value_cells(*grid, sets@[r@[i] as int].cells@, d).contains(c) ==> #[trigger] sees(stem as int, c as int),
            forall|k: int| 0 <= k < idx && #[trigger] petal(*grid, sets@[k], stem, d) ==> r@.contains(k as usize),
            forall|a: int, b: int| 0 <= a < b < r@.len() ==> r@[a] < r@[b],
            forall|a: int| 0 <= a < r@.len() ==> r@[a] < idx,
        decreases sets@.len() - idx,
    {
        let cells = sets[idx].candidate_cells(grid, d);
        proof {
            let vc = value_cells(*grid, sets@[idx as int].cells@, d);
            assert(cells@ =~= vc);
            if petal(*grid, sets@[idx as int], stem, d) {
                assert(cells@.difference(buddies@) =~= Set::<u8>::empty());
            }
        }
        if !cells.is_empty() && cells.difference(&buddies).is_empty() {
            proof {
                let vc = value_cells(*grid, sets@[idx as int].cells@, d);
                assert(cells@ =~= vc);
                assert forall|c: u8| vc.contains(c) implies #[trigger] sees(stem as int, c as int) by {
                    if !buddies@.contains(c) {
                        assert(cells@.difference(buddies@).contains(c));
                    }
                }
            }
            let ghost before = r@;
            r.push(idx);
            proof {
                assert forall|i: int|
                    0 <= i < r@.len() implies #[trigger] r@[i] < sets@.len() && value_cells(*grid, sets@[r@[i] as int].cells@, d)
                        != Set::<u8>::empty() && forall|c: u8|
                        value_cells(*grid, sets@[r@[i] as int].cells@, d).contains(c) ==> #[trigger] sees(stem as int, c as int) by {
                    if i < before.len() {
                        assert(r@[i] == before[i]);
                    }
                }
                assert forall|k: int| 0 <= k < idx + 1 && #[trigger] petal(*grid, sets@[k], stem, d) implies r@.contains(k as usize) by {
                    if k < idx {
                        let j = choose|j: int| 0 <= j < before.len() && before[j] == k as usize;
                        assert(r@[j] == before[j]);
                    } else {
                        assert(r@[before.len() as int] == idx);
                    }
                }
            }
        }
        idx = idx + 1;
    }
    r
}

/// The digits every chosen set holds.
fn shared_digits(sets: &Vec<AlmostLockedSet>, chosen: &Vec<usize>) -> (r: DigitSet)
    requires
        chosen@.len() > 0,
        forall|k: int| 0 <= k < chosen@.len() ==> #[trigger] chosen@[k] < sets@.len(),
    ensures
        forall|v: u8| r@.contains(v) <==> forall|k: int| 0 <= k < chosen@.len() ==> sets@[(#[trigger] chosen@[k]) as int].values@.contains(v),
{
    let mut common = sets[chosen[0]].values;
    let mut k: usize = 1;
    while k < chosen.len()
        invariant
            1 <= k <= chosen@.len(),
            forall|k: int| 0 <= k < chosen@.len() ==> #[trigger] chosen@[k] < sets@.len(),
            forall|v: u8| common@.contains(v) <==> forall|j: int| 0 <= j < k ==> sets@[(#[trigger] chosen@[j]) as int].values@.contains(v),
        decreases chosen@.len() - k,
    {
        let ghost before = common@;
        common = common.intersect(&sets[chosen[k]].values);
        proof {
            assert forall|v: u8| common@.contains(v) <==> forall|j: int| 0 <= j < k + 1 ==> sets@[(#[trigger] chosen@[j]) as int].values@.contains(v) by {
                if common@.contains(v) {
                    assert forall|j: int| 0 <= j < k + 1 implies sets@[(#[trigger] chosen@[j]) as int].values@.contains(v) by {
                        if j < k {
                            assert(before.contains(v));
                        }
                    }
                }
                if forall|j: int| 0 <= j < k + 1 ==> sets@[(#[trigger] chosen@[j]) as int].values@.contains(v) {
                    assert(before.contains(v));
                    assert(sets@[chosen@[k as int] as int].values@.contains(v));
                }
            }
        }
        k = k + 1;
    }
    common
}

/// A death blossom of `g`: its petals are different almost locked sets found with the
/// default size, and some cell outside them loses `z`.
pub open spec fn blossom_found(g: Grid, sets: Seq<AlmostLockedSet>, stem: u8, z: u8) -> bool {
    &&& blossom(g, sets, stem, z)
    &&& forall|k: int| 0 <= k < sets.len() ==> (#[trigger] sets[k]).found_in(g, DEFAULT_MAX_ALS_SIZE as nat)
    &&& forall|a: int, b: int| 0 <= a < b < sets.len() ==> (#[trigger] sets[a]).cells@ != (#[trigger] sets[b]).cells@
    &&& targets(g, sets, z) != Set::<u8>::empty()
}

/// No set of `sets` is a petal for digit `d` of the stem.
pub open spec fn no_petal(g: Grid, sets: Seq<AlmostLockedSet>, stem: u8, d: u8) -> bool {
    forall|m: int| 0 <= m < sets.len() ==> !#[trigger] petal(g, sets[m], stem, d)
}

/// Some step of `steps` removes `z` from exactly the cells outside `sets` that see all
/// their cells with `z`.
pub open spec fn removal_listed(g: Grid, steps: Seq<AlsStep>, sets: Seq<AlmostLockedSet>, z: u8) -> bool {
    exists|m: int| 0 <= m < steps.len() && #[trigger] cand_list(steps[m].remove_candidates@, z, targets(g, sets, z))
}

/// `b` starts with `a`.
pub open spec fn extends(a: Seq<AlsStep>, b: Seq<AlsStep>) -> bool {
    &&& a.len() <= b.len()
    &&& forall|i: int| 0 <= i < a.len() ==> #[trigger] b[i] == a[i]
}

/// The `k`-th index of `c` points to a set of `sets` with the cells of the `k`-th set of
/// `sq`.
pub open spec fn picked(sets: Seq<AlmostLockedSet>, c: Seq<usize>, sq: Seq<AlmostLockedSet>) -> bool {
    &&& c.len() == sq.len()
    &&& forall|k: int| 0 <= k < c.len() ==> (#[trigger] c[k]) < sets.len() && sets[c[k] as int].cells@ == sq[k].cells@
}

/// A listed blossom stays listed as more steps are added.
proof fn lemma_listed_extends(g: Grid, a: Seq<AlsStep>, b: Seq<AlsStep>, sq: Seq<AlmostLockedSet>, z: u8)
    requires
        extends(a, b),
        removal_listed(g, a, sq, z),
    ensures
        removal_listed(g, b, sq, z),
{
    let m = choose|m: int| 0 <= m < a.len() && #[trigger] cand_list(a[m].remove_candidates@, z, targets(g, sq, z));
    assert(b[m] == a[m]);
    assert(cand_list(b[m].remove_candidates@, z, targets(g, sq, z)));
}

/// The cells a digit is removed from depend only on the cells of the sets.
proof fn lemma_targets_same_cells(g: Grid, a: Seq<AlmostLockedSet>, b: Seq<AlmostLockedSet>, z: u8)
    requires
        a.len() == b.len(),
        forall|k: int| 0 <= k < a.len() ==> (#[trigger] a[k]).cells@ == b[k].cells@,
    ensures
        targets(g, a, z) == targets(g, b, z),
{
    assert forall|c: u8| targets(g, a, z).contains(c) implies targets(g, b, z).contains(c) by {
        assert forall|k: int| 0 <= k < b.len() implies !(#[trigger] b[k]).cells@.contains(c) by {
            assert(a[k].cells@ == b[k].cells@);
        }
        assert forall|k: int, d: u8| 0 <= k < b.len() && #[trigger] value_cells(g, b[k].cells@, z).contains(d) implies sees(d as int, c as int) by {
            assert(a[k].cells@ == b[k].cells@);
            assert(value_cells(g, a[k].cells@, z).contains(d));
        }
    }
    assert forall|c: u8| targets(g, b, z).contains(c) implies targets(g, a, z).contains(c) by {
        assert forall|k: int| 0 <= k < a.len() implies !(#[trigger] a[k]).cells@.contains(c) by {
            assert(a[k].cells@ == b[k].cells@);
        }
        assert forall|k: int, d: u8| 0 <= k < a.len() && #[trigger] value_cells(g, a[k].cells@, z).contains(d) implies sees(d as int, c as int) by {
            assert(a[k].cells@ == b[k].cells@);
            assert(value_cells(g, b[k].cells@, z).contains(d));
        }
    }
    assert(targets(g, a, z) =~= targets(g, b, z));
}

/// Each petal of a blossom is one of the sets found, by its cells, and a petal there.
proof fn lemma_petal_index(g: Grid, sets: Seq<AlmostLockedSet>, sq: Seq<AlmostLockedSet>, stem: u8, z: u8, k: int) -> (m: int)
    requires
        blossom_found(g, sq, stem, z),
        0 <= k < sq.len(),
        forall|h: int, s: Set<u8>| #[trigger] als_in(g, h, s, DEFAULT_MAX_ALS_SIZE as nat) ==> holds_cells(sets, s),
    ensures
        0 <= m < sets.len(),
        sets[m].cells@ == sq[k].cells@,
        petal(g, sets[m], stem, cells_key(g.cands(stem as int))[k]),
{
    assert(sq[k].found_in(g, DEFAULT_MAX_ALS_SIZE as nat));
    assert(als_in(g, sq[k].house as int, sq[k].cells@, DEFAULT_MAX_ALS_SIZE as nat));
    let m = choose|m: int| 0 <= m < sets.len() && (#[trigger] sets[m]).cells@ == sq[k].cells@;
    m
}

/// The death blossoms of one choice of petals, one for each digit all of them hold that
/// the stem does not; a list of removals is kept once.
#[verifier::rlimit(60)]
fn add_blossoms(
    grid: &Grid,
    sets: &Vec<AlmostLockedSet>,
    stem: u8,
    stem_values: DigitSet,
    chosen: &Vec<usize>,
    steps: &mut Vec<AlsStep>,
    seen: &mut Vec<Vec<Candidate>>,
)
    requires
        grid.wf(),
        all_found(*grid, sets@),
        stem < 81,
        grid.value(stem as int) == 0,
        2 <= grid.cands(stem as int).len() <= 4,
        stem_values@ == grid.cands(stem as int),
        chosen@.len() == cells_key(grid.cands(stem as int)).len(),
        chosen@.len() >= 2,
        forall|k: int| 0 <= k < chosen@.len() ==> #[trigger] chosen@[k] < sets@.len() && value_cells(
            *grid,
            sets@[chosen@[k] as int].cells@,
            cells_key(grid.cands(stem as int))[k],
        ) != Set::<u8>::empty() && forall|c: u8|
            value_cells(*grid, sets@[chosen@[k] as int].cells@, cells_key(grid.cands(stem as int))[k]).contains(c) ==> #[trigger] sees(
                stem as int,
                c as int,
            ),
        recorded_removals(old(steps)@, old(seen)@),
        forall|i: int| 0 <= i < old(steps)@.len() ==> (#[trigger] old(steps)@[i]).pattern(*grid) && old(steps)@[i].als_type
            == AlsType::DeathBlossom,
    ensures
        recorded_removals(final(steps)@, final(seen)@),
        forall|i: int| 0 <= i < final(steps)@.len() ==> (#[trigger] final(steps)@[i]).pattern(*grid) && final(steps)@[i].als_type
            == AlsType::DeathBlossom,
        extends(old(steps)@, final(steps)@),
        forall|sq: Seq<AlmostLockedSet>, z: u8| #[trigger] blossom_found(*grid, sq, stem, z) && picked(sets@, chosen@, sq) ==> removal_listed(
            *grid,
            final(steps)@,
            sq,
            z,
        ),
{
    let ghost s0 = steps@;
    if has_repeat(chosen) {
        proof {
            assert forall|sq: Seq<AlmostLockedSet>, z: u8| #[trigger] blossom_found(*grid, sq, stem, z) && picked(sets@, chosen@, sq) implies removal_listed(
                *grid,
                steps@,
                sq,
                z,
            ) by {
                let (i, j) = choose|i: int, j: int| 0 <= i < j < chosen@.len() && chosen@[i] == chosen@[j];
                assert(sets@[chosen@[i] as int].cells@ == sq[i].cells@);
                assert(sets@[chosen@[j] as int].cells@ == sq[j].cells@);
                assert(sq[i].cells@ != sq[j].cells@);
            }
        }
        return;
    }
    let common = shared_digits(sets, chosen);
    let mut petal_sets: Vec<AlmostLockedSet> = Vec::new();
    let mut highlight: Vec<Vec<Candidate>> = Vec::new();
    let mut k: usize = 0;
    while k < chosen.len()
        invariant
            k <= chosen@.len(),
            grid.wf(),
            forall|k: int| 0 <= k < chosen@.len() ==> #[trigger] chosen@[k] < sets@.len(),
            petal_sets@.len() == k,
            highlight@.len() == k,
            forall|j: int| 0 <= j < k ==> (#[trigger] petal_sets@[j]) == sets@[chosen@[j] as int],
            forall|j: int| 0 <= j < k ==> lists_candidates(*grid, (#[trigger] highlight@[j])@, petal_sets@[j].cells@),
        decreases chosen@.len() - k,
    {
        let set = sets[chosen[k]];
        petal_sets.push(set);
        highlight.push(als_candidates(grid, &set));
        proof {
            assert forall|j: int| 0 <= j < k + 1 implies lists_candidates(*grid, (#[trigger] highlight@[j])@, petal_sets@[j].cells@) by {
                if j == k {
                    assert(petal_sets@[j] == set);
                }
            }
        }
        k = k + 1;
    }
    let values = common.values();
    let mut zi: usize = 0;
    while zi < values.len()
        invariant
            zi <= values@.len(),
            stem < 81,
            grid.wf(),
            all_found(*grid, sets@),
            grid.value(stem as int) == 0,
            2 <= grid.cands(stem as int).len() <= 4,
            stem_values@ == grid.cands(stem as int),
            chosen@.len() == cells_key(grid.cands(stem as int)).len(),
            forall|k: int| 0 <= k < chosen@.len() ==> #[trigger] chosen@[k] < sets@.len() && value_cells(
                *grid,
                sets@[chosen@[k] as int].cells@,
                cells_key(grid.cands(stem as int))[k],
            ) != Set::<u8>::empty() && forall|c: u8|
                value_cells(*grid, sets@[chosen@[k] as int].cells@, cells_key(grid.cands(stem as int))[k]).contains(c) ==> #[trigger] sees(
                    stem as int,
                    c as int,
                ),
            petal_sets@.len() == chosen@.len(),
            highlight@.len() == chosen@.len(),
            forall|j: int| 0 <= j < chosen@.len() ==> (#[trigger] petal_sets@[j]) == sets@[chosen@[j] as int],
            forall|j: int| 0 <= j < chosen@.len() ==> lists_candidates(*grid, (#[trigger] highlight@[j])@, petal_sets@[j].cells@),
            forall|v: u8| values@.contains(v) <==> common@.contains(v),
            forall|v: u8| common@.contains(v) <==> forall|k: int| 0 <= k < chosen@.len() ==> sets@[(#[trigger] chosen@[k]) as int].values@.contains(v),
            recorded_removals(steps@, seen@),
            forall|i: int| 0 <= i < steps@.len() ==> (#[trigger] steps@[i]).pattern(*grid) && steps@[i].als_type
                == AlsType::DeathBlossom,
            extends(s0, steps@),
            forall|sq: Seq<AlmostLockedSet>, z: u8| #[trigger] blossom_found(*grid, sq, stem, z) && picked(sets@, chosen@, sq) && (exists|i: int|
                0 <= i < zi && values@[i] == z) ==> removal_listed(*grid, steps@, sq, z),
        decreases values@.len() - zi,
    {
        let z = values[zi];
        assert(values@.contains(z));
        let ghost sb = steps@;
        if !stem_values.contains(z) {
            let removals = removals_for(grid, &petal_sets, z);
            if removals.len() > 0 {
                let ghost rm = removals@;
                let ghost seen_b = seen@;
                let step = AlsStep {
                    als_type: AlsType::DeathBlossom,
                    sets: copy_list(&petal_sets),
                    rccs: Vec::new(),
                    highlight_candidates: clone_lists(&highlight),
                    remove_candidates: removals,
                };
                proof {
                    let sq = step.sets@;
                    assert(sq == petal_sets@);
                    assert forall|k: int| 0 <= k < sq.len() implies (#[trigger] sq[k]).found_in(*grid, DEFAULT_MAX_ALS_SIZE as nat) by {
                        assert(sq[k] == sets@[chosen@[k] as int]);
                    }
                    assert forall|k: int| 0 <= k < sq.len() implies lists_candidates(*grid, (#[trigger] step.highlight_candidates@[k])@, sq[k].cells@) by {
                        assert(step.highlight_candidates@[k]@ == highlight@[k]@);
                    }
                    assert forall|k: int| 0 <= k < sq.len() implies (#[trigger] sq[k]).values@.contains(z) by {
                        assert(sq[k] == sets@[chosen@[k] as int]);
                        assert(common@.contains(z));
                    }
                    assert forall|k: int| 0 <= k < sq.len() implies value_cells(*grid, (#[trigger] sq[k]).cells@, cells_key(grid.cands(stem as int))[k]) != Set::<u8>::empty() && forall|c: u8|
                        value_cells(*grid, sq[k].cells@, cells_key(grid.cands(stem as int))[k]).contains(c) ==> #[trigger] sees(stem as int, c as int) by {
                        assert(sq[k] == sets@[chosen@[k] as int]);
                        assert(chosen@[k] < sets@.len());
                    }
                    assert(blossom(*grid, sq, stem, z));
                    assert(step.pattern(*grid));
                    assert(step.remove_candidates@ == rm);
                }
                keep_step(steps, seen, step);
                proof {
                    assert forall|i: int| 0 <= i < steps@.len() implies (#[trigger] steps@[i]).pattern(*grid)
                        && steps@[i].als_type == AlsType::DeathBlossom by {
                        if i < sb.len() {
                            assert(steps@[i] == sb[i]);
                        }
                    }
                    assert forall|sq: Seq<AlmostLockedSet>| #[trigger] blossom_found(*grid, sq, stem, z) && picked(sets@, chosen@, sq) implies removal_listed(
                        *grid,
                        steps@,
                        sq,
                        z,
                    ) by {
                        assert forall|k: int| 0 <= k < petal_sets@.len() implies (#[trigger] petal_sets@[k]).cells@ == sq[k].cells@ by {
                            assert(petal_sets@[k] == sets@[chosen@[k] as int]);
                        }
                        lemma_targets_same_cells(*grid, petal_sets@, sq, z);
                        if fresh(seen_b, rm) {
                            assert(steps@[sb.len() as int].remove_candidates@ == rm);
                            assert(cand_list(steps@[sb.len() as int].remove_candidates@, z, targets(*grid, sq, z)));
                        } else {
                            let i = choose|i: int| 0 <= i < seen_b.len() && (#[trigger] seen_b[i])@ == rm;
                            assert(sb[i].remove_candidates@ == seen_b[i]@);
                            assert(steps@[i] == sb[i]);
                            assert(cand_list(steps@[i].remove_candidates@, z, targets(*grid, sq, z)));
                        }
                    }
                }
            } else {
                proof {
                    assert forall|sq: Seq<AlmostLockedSet>| #[trigger] blossom_found(*grid, sq, stem, z) && picked(sets@, chosen@, sq) implies false by {
                        assert forall|k: int| 0 <= k < petal_sets@.len() implies (#[trigger] petal_sets@[k]).cells@ == sq[k].cells@ by {
                            assert(petal_sets@[k] == sets@[chosen@[k] as int]);
                        }
                        lemma_targets_same_cells(*grid, petal_sets@, sq, z);
                        assert forall|c: u8| !targets(*grid, sq, z).contains(c) by {
                            if targets(*grid, sq, z).contains(c) {
                                let i = choose|i: int| 0 <= i < removals@.len() && (#[trigger] removals@[i]).0 == c;
                            }
                        }
                        assert(targets(*grid, sq, z) =~= Set::<u8>::empty());
                    }
                }
            }
        }
        proof {
            assert forall|sq: Seq<AlmostLockedSet>, z2: u8| #[trigger] blossom_found(*grid, sq, stem, z2) && picked(sets@, chosen@, sq) && (exists|i: int|
                0 <= i < zi + 1 && values@[i] == z2) implies removal_listed(*grid, steps@, sq, z2) by {
                let i = choose|i: int| 0 <= i < zi + 1 && values@[i] == z2;
                if i < zi {
                    lemma_listed_extends(*grid, sb, steps@, sq, z2);
                } else {
                    assert(z2 == z);
                    assert(!grid.cands(stem as int).contains(z));
                }
            }
        }
        zi = zi + 1;
    }
    proof {
        assert forall|sq: Seq<AlmostLockedSet>, z: u8| #[trigger] blossom_found(*grid, sq, stem, z) && picked(sets@, chosen@, sq) implies removal_listed(
            *grid,
            steps@,
            sq,
            z,
        ) by {
            assert forall|k: int| 0 <= k < chosen@.len() implies sets@[(#[trigger] chosen@[k]) as int].values@.contains(z) by {
                assert(sq[k].found_in(*grid, DEFAULT_MAX_ALS_SIZE as nat));
                assert(sets@[chosen@[k] as int].found_in(*grid, DEFAULT_MAX_ALS_SIZE as nat));
                assert(sets@[chosen@[k] as int].cells@ == sq[k].cells@);
                assert(sq[k].values@.contains(z));
            }
            assert(common@.contains(z));
            assert(values@.contains(z));
            let i = choose|i: int| 0 <= i < values@.len() && values@[i] == z;
        }
    }
}

/// The death blossoms with stem `stem`: each choice of different sets, one for each
/// candidate of the stem in increasing order, whose cells with it all see the stem.
#[verifier::rlimit(60)]
fn add_stem_blossoms(
    grid: &Grid,
    sets: &Vec<AlmostLockedSet>,
    stem: u8,
    steps: &mut Vec<AlsStep>,
    seen: &mut Vec<Vec<Candidate>>,
)
    requires
        grid.wf(),
        stem < 81,
        all_found(*grid, sets@),
        forall|h: int, s: Set<u8>| #[trigger] als_in(*grid, h, s, DEFAULT_MAX_ALS_SIZE as nat) ==> holds_cells(sets@, s),
        forall|c: int| 0 <= c < 81 && grid.value(c) != 0 ==> #[trigger] grid.cands(c) == Set::<u8>::empty(),
        recorded_removals(old(steps)@, old(seen)@),
        forall|i: int| 0 <= i < old(steps)@.len() ==> (#[trigger] old(steps)@[i]).pattern(*grid) && old(steps)@[i].als_type
            == AlsType::DeathBlossom,
    ensures
        recorded_removals(final(steps)@, final(seen)@),
        forall|i: int| 0 <= i < final(steps)@.len() ==> (#[trigger] final(steps)@[i]).pattern(*grid) && final(steps)@[i].als_type
            == AlsType::DeathBlossom,
        extends(old(steps)@, final(steps)@),
        forall|sq: Seq<AlmostLockedSet>, z: u8| #[trigger] blossom_found(*grid, sq, stem, z) ==> removal_listed(*grid, final(steps)@, sq, z),
{
    let ghost s0 = steps@;
    let stem_values = grid.get_cell_candidate(stem);
    let count = stem_values.count();
    if 2 <= count && count <= 4 {
        let digits = stem_values.values();
        proof {
            assert(digits@.to_set() =~= grid.cands(stem as int));
            lemma_key_of_listing(digits@, grid.cands(stem as int));
            assert(grid.value(stem as int) == 0) by {
                if grid.value(stem as int) != 0 {
                    assert(grid.cands(stem as int) == Set::<u8>::empty());
                }
            }
        }
        let mut petals: Vec<Vec<usize>> = Vec::new();
        let mut complete = true;
        let mut k: usize = 0;
        while k < digits.len() && complete
            invariant
                k <= digits@.len(),
                stem < 81,
                grid.wf(),
                complete ==> petals@.len() == k,
                petals@.len() <= k,
                forall|j: int|
                    0 <= j < petals@.len() ==> forall|i: int|
                        0 <= i < (#[trigger] petals@[j])@.len() ==> #[trigger] petals@[j]@[i] < sets@.len() && value_cells(
                            *grid,
                            sets@[petals@[j]@[i] as int].cells@,
                            digits@[j],
                        ) != Set::<u8>::empty() && forall|c: u8|
                            value_cells(*grid, sets@[petals@[j]@[i] as int].cells@, digits@[j]).contains(c) ==> #[trigger] sees(
                                stem as int,
                                c as int,
                            ),
                forall|j: int, m: int|
                    0 <= j < petals@.len() && 0 <= m < sets@.len() && #[trigger] petal(*grid, sets@[m], stem, digits@[j])
                        ==> petals@[j]@.contains(m as usize),
                !complete ==> exists|j: int| 0 <= j < digits@.len() && #[trigger] no_petal(*grid, sets@, stem, digits@[j]),
            decreases digits@.len() - k + if complete {
                1int
            } else {
                0int
            },
        {
            let matching = petals_for(grid, sets, stem, digits[k]);
            if matching.len() == 0 {
                complete = false;
                proof {
                    assert forall|m: int| 0 <= m < sets@.len() implies !#[trigger] petal(*grid, sets@[m], stem, digits@[k as int]) by {
                        if petal(*grid, sets@[m], stem, digits@[k as int]) {
                            assert(matching@.contains(m as usize));
                        }
                    }
                    assert(no_petal(*grid, sets@, stem, digits@[k as int]));
                }
            } else {
                let ghost before = petals@;
                petals.push(matching);
                proof {
                    assert forall|j: int|
                        0 <= j < petals@.len() implies forall|i: int|
                            0 <= i < (#[trigger] petals@[j])@.len() ==> #[trigger] petals@[j]@[i] < sets@.len() && value_cells(
                                *grid,
                                sets@[petals@[j]@[i] as int].cells@,
                                digits@[j],
                            ) != Set::<u8>::empty() && forall|c: u8|
                                value_cells(*grid, sets@[petals@[j]@[i] as int].cells@, digits@[j]).contains(c) ==> #[trigger] sees(
                                    stem as int,
                                    c as int,
                                ) by {
                        if j < before.len() {
                            assert(petals@[j] == before[j]);
                        }
                    }
                    assert forall|j: int, m: int|
                        0 <= j < petals@.len() && 0 <= m < sets@.len() && #[trigger] petal(*grid, sets@[m], stem, digits@[j])
                            implies petals@[j]@.contains(m as usize) by {
                        if j < before.len() {
                            assert(petals@[j] == before[j]);
                        }
                    }
                }
                k = k + 1;
            }
        }
        if complete {
            let choices = index_choices(&petals);
            let mut ci: usize = 0;
            while ci < choices.len()
                invariant
                    ci <= choices@.len(),
                    stem < 81,
                    grid.wf(),
                    all_found(*grid, sets@),
                    grid.value(stem as int) == 0,
                    2 <= grid.cands(stem as int).len() <= 4,
                    stem_values@ == grid.cands(stem as int),
                    cells_key(grid.cands(stem as int)) == digits@,
                    petals@.len() == digits@.len(),
                    digits@.len() >= 2,
                    forall|j: int|
                        0 <= j < choices@.len() ==> (#[trigger] choices@[j])@.len() == petals@.len() && forall|k: int|
                            0 <= k < petals@.len() ==> petals@[k]@.contains(choices@[j]@[k]),
                    forall|j: int|
                        0 <= j < petals@.len() ==> forall|i: int|
                            0 <= i < (#[trigger] petals@[j])@.len() ==> #[trigger] petals@[j]@[i] < sets@.len() && value_cells(
                                *grid,
                                sets@[petals@[j]@[i] as int].cells@,
                                digits@[j],
                            ) != Set::<u8>::empty() && forall|c: u8|
                                value_cells(*grid, sets@[petals@[j]@[i] as int].cells@, digits@[j]).contains(c) ==> #[trigger] sees(
                                    stem as int,
                                    c as int,
                                ),
                    recorded_removals(steps@, seen@),
                    forall|i: int| 0 <= i < steps@.len() ==> (#[trigger] steps@[i]).pattern(*grid) && steps@[i].als_type
                        == AlsType::DeathBlossom,
                    extends(s0, steps@),
                    forall|sq: Seq<AlmostLockedSet>, z: u8| #[trigger] blossom_found(*grid, sq, stem, z) && (exists|j: int|
                        0 <= j < ci && picked(sets@, choices@[j]@, sq)) ==> removal_listed(*grid, steps@, sq, z),
                decreases choices@.len() - ci,
            {
                let chosen = &choices[ci];
                proof {
                    assert(chosen@.len() == petals@.len());
                    assert forall|k: int| 0 <= k < chosen@.len() implies #[trigger] chosen@[k] < sets@.len() && value_cells(
                        *grid,
                        sets@[chosen@[k] as int].cells@,
                        digits@[k],
                    ) != Set::<u8>::empty() && forall|c: u8|
                        value_cells(*grid, sets@[chosen@[k] as int].cells@, digits@[k]).contains(c) ==> #[trigger] sees(
                            stem as int,
                            c as int,
                        ) by {
                        assert(petals@[k]@.contains(choices@[ci as int]@[k]));
                        let i = choose|i: int| 0 <= i < petals@[k]@.len() && petals@[k]@[i] == chosen@[k];
                        assert(petals@[k]@[i] < sets@.len());
                    }
                }
                let ghost s1 = steps@;
                add_blossoms(grid, sets, stem, stem_values, chosen, steps, seen);
                proof {
                    assert forall|sq: Seq<AlmostLockedSet>, z: u8| #[trigger] blossom_found(*grid, sq, stem, z) && (exists|j: int|
                        0 <= j < ci + 1 && picked(sets@, choices@[j]@, sq)) implies removal_listed(*grid, steps@, sq, z) by {
                        let j = choose|j: int| 0 <= j < ci + 1 && picked(sets@, choices@[j]@, sq);
                        if j < ci {
                            lemma_listed_extends(*grid, s1, steps@, sq, z);
                        }
                    }
                }
                ci = ci + 1;
            }
            proof {
                assert forall|sq: Seq<AlmostLockedSet>, z: u8| #[trigger] blossom_found(*grid, sq, stem, z) implies removal_listed(
                    *grid,
                    steps@,
                    sq,
                    z,
                ) by {
                    let c = Seq::new(sq.len(), |k: int| choose|m: usize| (m as int) < sets@.len() && sets@[m as int].cells@ == sq[k].cells@);
                    assert forall|k: int| 0 <= k < c.len() implies (#[trigger] c[k]) < sets@.len() && sets@[c[k] as int].cells@ == sq[k].cells@
                        && petals@[k]@.contains(c[k]) by {
                        let m = lemma_petal_index(*grid, sets@, sq, stem, z, k);
                        assert(sets.len() == sets@.len());
                        assert((m as usize) as int == m);
                        assert(sets@[(m as usize) as int].cells@ == sq[k].cells@);
                        assert(value_cells(*grid, sets@[c[k] as int].cells@, digits@[k]) == value_cells(*grid, sets@[m].cells@, digits@[k]));
                        assert(petal(*grid, sets@[c[k] as int], stem, digits@[k]));
                    }
                    assert(choice_of(petals@, c));
                    let j = choose|j: int| 0 <= j < choices@.len() && choices@[j]@ == c;
                    assert(picked(sets@, choices@[j]@, sq));
                }
            }
        } else {
            proof {
                assert forall|sq: Seq<AlmostLockedSet>, z: u8| #[trigger] blossom_found(*grid, sq, stem, z) implies removal_listed(
                    *grid,
                    steps@,
                    sq,
                    z,
                ) by {
                    let j = choose|j: int| 0 <= j < digits@.len() && #[trigger] no_petal(*grid, sets@, stem, digits@[j]);
                    let m = lemma_petal_index(*grid, sets@, sq, stem, z, j);
                    assert(!petal(*grid, sets@[m], stem, digits@[j]));
                }
            }
        }
    } else {
        proof {
            assert forall|sq: Seq<AlmostLockedSet>, z: u8| #[trigger] blossom_found(*grid, sq, stem, z) implies removal_listed(
                *grid,
                steps@,
                sq,
                z,
            ) by {
                assert(count as nat == grid.cands(stem as int).len());
            }
        }
    }
}

/// Death blossoms: for each cell with two to four candidates (the stem), each choice of
/// different sets, one for each candidate in increasing order, whose cells with it all see
/// the stem, and each digit all of them hold that the stem does not, the removal of that
/// digit from the cells outside the sets that see all their cells with it; a list of
/// removals is kept once. Every death blossom gets its removals listed.
fn find_death_blossom_steps(grid: &Grid) -> (r: Vec<AlsStep>)
    requires
        grid.wf(),
    ensures
        forall|i: int| 0 <= i < r@.len() ==> (#[trigger] r@[i]).pattern(*grid) && r@[i].als_type == AlsType::DeathBlossom,
        forall|stem: u8, sq: Seq<AlmostLockedSet>, z: u8| #[trigger] blossom_found(*grid, sq, stem, z) ==> removal_listed(*grid, r@, sq, z),
{
    let sets = find_almost_locked_sets(grid, DEFAULT_MAX_ALS_SIZE);
    let mut steps: Vec<AlsStep> = Vec::new();
    let mut seen: Vec<Vec<Candidate>> = Vec::new();
    proof {
        grid.lemma_wf();
    }
    let mut stem: u8 = 0;
    while stem < 81
        invariant
            stem <= 81,
            grid.wf(),
            all_found(*grid, sets@),
            forall|h: int, s: Set<u8>| #[trigger] als_in(*grid, h, s, DEFAULT_MAX_ALS_SIZE as nat) ==> holds_cells(sets@, s),
            forall|c: int| 0 <= c < 81 && grid.value(c) != 0 ==> #[trigger] grid.cands(c) == Set::<u8>::empty(),
            recorded_removals(steps@, seen@),
            forall|i: int| 0 <= i < steps@.len() ==> (#[trigger] steps@[i]).pattern(*grid) && steps@[i].als_type == AlsType::DeathBlossom,
            forall|st: u8, sq: Seq<AlmostLockedSet>, z: u8| st < stem && #[trigger] blossom_found(*grid, sq, st, z) ==> removal_listed(*grid, steps@, sq, z),
        decreases 81 - stem,
    {
        let ghost s0 = steps@;
        add_stem_blossoms(grid, &sets, stem, &mut steps, &mut seen);
        proof {
            assert forall|st: u8, sq: Seq<AlmostLockedSet>, z: u8| st < stem + 1 && #[trigger] blossom_found(*grid, sq, st, z) implies removal_listed(
                *grid,
                steps@,
                sq,
                z,
            ) by {
                if st < stem {
                    lemma_listed_extends(*grid, s0, steps@, sq, z);
                }
            }
        }
        stem = stem + 1;
    }
    steps
}

/// A copy of the step.
fn copy_step(step: &AlsStep) -> (r: AlsStep)
    ensures
        r.als_type == step.als_type,
        r.sets@ == step.sets@,
        r.rccs@ == step.rccs@,
        r.highlight_candidates@.len() == step.highlight_candidates@.len(),
        forall|k: int| 0 <= k < step.highlight_candidates@.len() ==> (#[trigger] r.highlight_candidates@[k])@ == step.highlight_candidates@[k]@,
        r.remove_candidates@ == step.remove_candidates@,
{
    AlsStep {
        als_type: step.als_type,
        sets: copy_list(&step.sets),
        rccs: copy_list(&step.rccs),
        highlight_candidates: clone_lists(&step.highlight_candidates),
        remove_candidates: clone_cand_list(&step.remove_candidates),
    }
}

/// Hands the steps to the accumulator in order until it is done.
fn report_steps<A: StepAccumulator>(grid: &Grid, steps: Vec<AlsStep>, acc: &mut A)
    requires
        forall|i: int| 0 <= i < steps@.len() ==> (#[trigger] steps@[i]).pattern(*grid),
    ensures
        grows(old(acc).recorded(), final(acc).recorded(), |s: Step| s.pattern(*grid) && s is Als),
        final(acc).stops_at_first() == old(acc).stops_at_first(),
        steps@.len() > 0 ==> progressed(old(acc).recorded(), final(acc).recorded(), old(acc).stops_at_first()),
{
    let ghost start = acc.recorded();
    let ghost ok = |s: Step| s.pattern(*grid) && s is Als;
    proof {
        assert(acc.recorded().subrange(0, start.len() as int) =~= start);
    }
    let mut i: usize = 0;
    while i < steps.len()
        invariant
            i <= steps@.len(),
            forall|i: int| 0 <= i < steps@.len() ==> (#[trigger] steps@[i]).pattern(*grid),
            ok == (|s: Step| s.pattern(*grid) && s is Als),
            grows(start, acc.recorded(), ok),
            start == old(acc).recorded(),
            acc.stops_at_first() == old(acc).stops_at_first(),
            start.len() <= acc.recorded().len(),
            i > 0 ==> progressed(start, acc.recorded(), acc.stops_at_first()),
        decreases steps@.len() - i,
    {
        let step = copy_step(&steps[i]);
        assert(step.pattern(*grid)) by {
            let orig = steps@[i as int];
            assert(orig.pattern(*grid));
            assert(step.sets@ == orig.sets@);
            assert forall|k: int| 0 <= k < step.sets@.len() implies lists_candidates(*grid, (#[trigger] step.highlight_candidates@[k])@, step.sets@[k].cells@) by {
                assert(step.highlight_candidates@[k]@ == orig.highlight_candidates@[k]@);
                assert(lists_candidates(*grid, orig.highlight_candidates@[k]@, orig.sets@[k].cells@));
            }
        }
        if report(acc, Step::Als(step), Ghost(start), Ghost(ok)) {
            return;
        }
        i = i + 1;
    }
}

/// Finds ALS-XZ steps and WXYZ-Wings.
#[derive(Debug, Default)]
pub struct AlsXzFinder;

impl AlsXzFinder {
    /// Some ALS-XZ removes a candidate.
    pub open spec fn finds_in(self, g: Grid) -> bool {
        exists|a: AlmostLockedSet, b: AlmostLockedSet, x: u8, z: u8| #[trigger] xz_found(g, a, b, x, z)
    }

    /// Reports the ALS-XZ steps in the order they are found; when there is one, something
    /// is reported.
    pub fn find_step<A: StepAccumulator>(&self, grid: &Grid, acc: &mut A)
        requires
            grid.wf(),
        ensures
            grows(old(acc).recorded(), final(acc).recorded(), |s: Step| s.pattern(*grid) && s is Als),
            final(acc).stops_at_first() == old(acc).stops_at_first(),
            self.finds_in(*grid) ==> progressed(old(acc).recorded(), final(acc).recorded(), old(acc).stops_at_first()),
    {
        let steps = find_als_xz_steps(grid);
        proof {
            if self.finds_in(*grid) {
                let (a, b, x, z) = choose|a: AlmostLockedSet, b: AlmostLockedSet, x: u8, z: u8| #[trigger] xz_found(*grid, a, b, x, z);
                assert(removal_listed(*grid, steps@, seq![a, b], z));
            }
        }
        report_steps(grid, steps, acc);
    }

    pub fn name(&self) -> (r: &'static str)
        ensures
            r@ == "AlsXzFinder"@,
    {
        "AlsXzFinder"
    }
}

/// Finds ALS-XY-Wings.
#[derive(Debug, Default)]
pub struct AlsXYWingFinder;

impl AlsXYWingFinder {
    /// Some ALS-XY-Wing removes a candidate.
    pub open spec fn finds_in(self, g: Grid) -> bool {
        exists|l: AlmostLockedSet, m: AlmostLockedSet, r: AlmostLockedSet, x: u8, y: u8, z: u8| #[trigger] xy_found(g, l, m, r, x, y, z)
    }

    /// Reports the ALS-XY-Wings in the order they are found; when there is one, something
    /// is reported.
    pub fn find_step<A: StepAccumulator>(&self, grid: &Grid, acc: &mut A)
        requires
            grid.wf(),
        ensures
            grows(old(acc).recorded(), final(acc).recorded(), |s: Step| s.pattern(*grid) && s is Als),
            final(acc).stops_at_first() == old(acc).stops_at_first(),
            self.finds_in(*grid) ==> progressed(old(acc).recorded(), final(acc).recorded(), old(acc).stops_at_first()),
    {
        let steps = find_als_xy_wing_steps(grid);
        proof {
            if self.finds_in(*grid) {
                let (l, m, r, x, y, z) = choose|l: AlmostLockedSet, m: AlmostLockedSet, r: AlmostLockedSet, x: u8, y: u8, z: u8|
                    #[trigger] xy_found(*grid, l, m, r, x, y, z);
                assert(removal_listed(*grid, steps@, seq![l, r], z));
            }
        }
        report_steps(grid, steps, acc);
    }

    pub fn name(&self) -> (r: &'static str)
        ensures
            r@ == "AlsXYWingFinder"@,
    {
        "AlsXYWingFinder"
    }
}

/// Finds ALS chains of three to eight sets.
#[derive(Debug, Default)]
pub struct AlsChainFinder;

impl AlsChainFinder {
    /// Some ALS chain of three to eight sets removes a candidate.
    pub open spec fn finds_in(self, g: Grid) -> bool {
        exists|sq: Seq<AlmostLockedSet>, vs: Seq<u8>, z: u8| #[trigger] chain_found(g, sq, vs, z) && 3 <= sq.len() <= 8
    }

    /// Reports the ALS chains, shortest first; when there is one, something is reported.
    pub fn find_step<A: StepAccumulator>(&self, grid: &Grid, acc: &mut A)
        requires
            grid.wf(),
        ensures
            grows(old(acc).recorded(), final(acc).recorded(), |s: Step| s.pattern(*grid) && s is Als),
            final(acc).stops_at_first() == old(acc).stops_at_first(),
            self.finds_in(*grid) ==> progressed(old(acc).recorded(), final(acc).recorded(), old(acc).stops_at_first()),
    {
        let steps = find_als_chain_steps(grid, 3, 8);
        proof {
            if self.finds_in(*grid) {
                let (sq, vs, z) = choose|sq: Seq<AlmostLockedSet>, vs: Seq<u8>, z: u8| #[trigger] chain_found(*grid, sq, vs, z) && 3 <= sq.len() <= 8;
                assert(removal_listed(*grid, steps@, seq![sq[0], sq.last()], z));
            }
        }
        report_steps(grid, steps, acc);
    }

    pub fn name(&self) -> (r: &'static str)
        ensures
            r@ == "AlsChainFinder"@,
    {
        "AlsChainFinder"
    }
}

/// Finds death blossoms.
#[derive(Debug, Default)]
pub struct DeathBlossomFinder;

impl DeathBlossomFinder {
    /// Some death blossom removes a candidate.
    pub open spec fn finds_in(self, g: Grid) -> bool {
        exists|stem: u8, sq: Seq<AlmostLockedSet>, z: u8| #[trigger] blossom_found(g, sq, stem, z)
    }

    /// Reports the death blossoms in the order they are found; when there is one, something
    /// is reported.
    pub fn find_step<A: StepAccumulator>(&self, grid: &Grid, acc: &mut A)
        requires
            grid.wf(),
        ensures
            grows(old(acc).recorded(), final(acc).recorded(), |s: Step| s.pattern(*grid) && s is Als),
            final(acc).stops_at_first() == old(acc).stops_at_first(),
            self.finds_in(*grid) ==> progressed(old(acc).recorded(), final(acc).recorded(), old(acc).stops_at_first()),
    {
        let steps = find_death_blossom_steps(grid);
        proof {
            if self.finds_in(*grid) {
                let (stem, sq, z) = choose|stem: u8, sq: Seq<AlmostLockedSet>, z: u8| #[trigger] blossom_found(*grid, sq, stem, z);
                assert(removal_listed(*grid, steps@, sq, z));
            }
        }
        report_steps(grid, steps, acc);
    }

    pub fn name(&self) -> (r: &'static str)
        ensures
            r@ == "DeathBlossomFinder"@,
    {
        "DeathBlossomFinder"
    }
}

} // verus!

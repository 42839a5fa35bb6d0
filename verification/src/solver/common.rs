use vstd::prelude::*;
use crate::candidate::Candidate;
use crate::grid::Grid;
use crate::grid_constant::{row_of, col_of, block_of};
use crate::solver::step::Step;
use crate::solver::step_accumulator::StepAccumulator;
use crate::util::indexset::IndexSet;

verus! {

/// A step was recorded after `start`, or the accumulator wants one step and held it
/// already.
pub open spec fn progressed(start: Seq<Step>, now: Seq<Step>, stops: bool) -> bool {
    now.len() > start.len() || (stops && start.len() > 0)
}

/// Progress persists as more is recorded, and progress after `mid` is progress after
/// `rec0`.
pub proof fn lemma_progress_chain(rec0: Seq<Step>, mid: Seq<Step>, now: Seq<Step>, stops: bool)
    requires
        rec0.len() <= mid.len() <= now.len(),
    ensures
        progressed(rec0, mid, stops) ==> progressed(rec0, now, stops),
        progressed(mid, now, stops) ==> progressed(rec0, now, stops),
{
}

/// What the accumulator records after `step` is added to `before`: a single-step
/// accumulator that holds a step keeps it, any other appends.
pub open spec fn added(before: Seq<Step>, stops: bool, step: Step) -> Seq<Step> {
    if stops && before.len() > 0 {
        before
    } else {
        before.push(step)
    }
}

/// The steps recorded after `start` all satisfy `ok`, and `start` stays in front.
pub open spec fn grows(start: Seq<Step>, now: Seq<Step>, ok: spec_fn(Step) -> bool) -> bool {
    &&& start.len() <= now.len()
    &&& now.subrange(0, start.len() as int) == start
    &&& forall|i: int| start.len() <= i < now.len() ==> ok(#[trigger] now[i])
}

/// Hands `step` to the accumulator and keeps track of what was recorded.
pub fn report<A: StepAccumulator>(
    acc: &mut A,
    step: Step,
    Ghost(start): Ghost<Seq<Step>>,
    Ghost(ok): Ghost<spec_fn(Step) -> bool>,
) -> (finish: bool)
    requires
        grows(start, old(acc).recorded(), ok),
        ok(step),
    ensures
        grows(start, final(acc).recorded(), ok),
        final(acc).stops_at_first() == old(acc).stops_at_first(),
        finish == final(acc).stops_at_first(),
        final(acc).recorded() == added(old(acc).recorded(), old(acc).stops_at_first(), step),
{
    let ghost before = acc.recorded();
    let finish = acc.add_step(step);
    proof {
        if !(acc.stops_at_first() && before.len() > 0) {
            assert(acc.recorded().subrange(0, start.len() as int) =~= before.subrange(0, start.len() as int));
            assert forall|i: int| start.len() <= i < acc.recorded().len() implies ok(#[trigger] acc.recorded()[i]) by {
                if i < before.len() {
                    assert(acc.recorded()[i] == before[i]);
                }
            }
        }
    }
    finish
}

/// `l` lists, by increasing cell, the candidate `v` in each cell of `cells`.
pub open spec fn cand_list(l: Seq<Candidate>, v: u8, cells: Set<u8>) -> bool {
    &&& forall|i: int| 0 <= i < l.len() ==> (#[trigger] l[i]).1 == v && cells.contains(l[i].0)
    &&& forall|i: int, j: int| 0 <= i < j < l.len() ==> (#[trigger] l[i]).0 < (#[trigger] l[j]).0
    &&& forall|c: u8| cells.contains(c) ==> exists|i: int| 0 <= i < l.len() && (#[trigger] l[i]).0 == c
}

/// The candidate `value` of each cell of `cells`, by increasing cell.
pub fn candidates_of(cells: &IndexSet, value: u8) -> (r: Vec<Candidate>)
    ensures
        cand_list(r@, value, cells@),
        r@.len() == cells@.len(),
{
    let cs = cells.values();
    let mut r: Vec<Candidate> = Vec::new();
    let mut i: usize = 0;
    while i < cs.len()
        invariant
            i <= cs@.len(),
            r@.len() == i,
            forall|c: u8| cs@.contains(c) <==> cells@.contains(c),
            forall|a: int, b: int| 0 <= a < b < cs@.len() ==> cs@[a] < cs@[b],
            forall|k: int| 0 <= k < i ==> (#[trigger] r@[k]) == Candidate(cs@[k], value),
        decreases cs@.len() - i,
    {
        r.push(Candidate::new(cs[i], value));
        i = i + 1;
    }
    proof {
        assert forall|k: int| 0 <= k < r@.len() implies (#[trigger] r@[k]).1 == value && cells@.contains(r@[k].0) by {
            assert(cs@.contains(cs@[k]));
        }
        assert forall|c: u8| cells@.contains(c) implies exists|k: int| 0 <= k < r@.len() && (#[trigger] r@[k]).0 == c by {
            assert(cs@.contains(c));
            let k = choose|k: int| 0 <= k < cs@.len() && cs@[k] == c;
            assert(r@[k].0 == c);
        }
    }
    r
}

/// A list of candidates by increasing cell has no repeats.
pub proof fn lemma_cand_list_distinct(l: Seq<Candidate>, v: u8, cells: Set<u8>)
    requires
        cand_list(l, v, cells),
    ensures
        l.no_duplicates(),
{
    assert forall|i: int, j: int| 0 <= i < l.len() && 0 <= j < l.len() && i != j implies l[i] != l[j] by {
        if i < j {
            assert(l[i].0 < l[j].0);
        } else {
            assert(l[j].0 < l[i].0);
        }
    }
}

/// The house of kind `kind` (0 row, 1 column, 2 block) of cell `c`.
pub open spec fn house_of_kind(c: int, kind: int) -> int {
    if kind == 0 {
        row_of(c)
    } else if kind == 1 {
        col_of(c)
    } else {
        block_of(c)
    }
}

/// The house of kind `kind` shared by every cell of `cells`, if the set is not empty and
/// there is one.
pub fn shared_house(cells: &Vec<u8>, kind: u8) -> (r: Option<u8>)
    requires
        kind < 3,
        forall|i: int| 0 <= i < cells@.len() ==> #[trigger] cells@[i] < 81,
    ensures
        r matches Some(h) ==> cells@.len() > 0 && forall|i: int|
            0 <= i < cells@.len() ==> house_of_kind(#[trigger] cells@[i] as int, kind as int) == h,
        r is None ==> cells@.len() == 0 || exists|i: int, j: int|
            0 <= i < cells@.len() && 0 <= j < cells@.len() && house_of_kind(#[trigger] cells@[i] as int, kind as int)
                != house_of_kind(#[trigger] cells@[j] as int, kind as int),
{
    if cells.len() == 0 {
        return None;
    }
    let h = kind_house(cells[0], kind);
    let mut i: usize = 1;
    while i < cells.len()
        invariant
            1 <= i <= cells@.len(),
            kind < 3,
            forall|k: int| 0 <= k < cells@.len() ==> #[trigger] cells@[k] < 81,
            h == house_of_kind(cells@[0] as int, kind as int),
            forall|k: int| 0 <= k < i ==> house_of_kind(#[trigger] cells@[k] as int, kind as int) == h,
        decreases cells@.len() - i,
    {
        if kind_house(cells[i], kind) != h {
            return None;
        }
        i = i + 1;
    }
    Some(h)
}

/// The house of kind `kind` of `cell`.
pub fn kind_house(cell: u8, kind: u8) -> (h: u8)
    requires
        cell < 81,
        kind < 3,
    ensures
        h == house_of_kind(cell as int, kind as int),
        h < 27,
{
    if kind == 0 {
        crate::grid_constant::row(cell)
    } else if kind == 1 {
        crate::grid_constant::col(cell)
    } else {
        crate::grid_constant::block(cell)
    }
}

} // verus!

use vstd::prelude::*;
use vstd::string::StringExecFns;
use crate::candidate::Candidate;
use crate::grid::{Grid, no_peer_has};
use crate::grid_constant::{in_house, sees};
use crate::solver::step::Step;
use crate::solver::step_accumulator::StepAccumulator;
use crate::solver::common::{grows, report};
use crate::solver::naked_set::sorted_cands;
use crate::solver::HintOutcome;
use crate::util::clock::{now, earlier, deadline_after, past};
use crate::difficulty::duration_from_secs;
use web_time::{Duration, Instant};

verus! {

/// Which bounded search found an expert step.
#[derive(Debug, Clone, Copy, PartialEq, Eq, Hash, Structural)]
pub enum ExpertType {
    Templates,
    ForcingChain,
    ForcingNet,
    KrakenFish,
}

/// A step found by a bounded search.
#[derive(Debug, Clone, PartialEq, Eq, Hash)]
pub struct ExpertStep {
    pub expert_type: ExpertType,
    pub highlight_candidates: Vec<Candidate>,
    pub remove_candidates: Vec<Candidate>,
}

/// How far a bounded search may go: until the deadline, at most `max_depth` forced
/// singles per branch, at most `max_nodes` search nodes.
#[derive(Debug)]
pub struct SearchLimits {
    pub deadline: Instant,
    pub max_depth: usize,
    pub max_nodes: usize,
}

/// What `web_time::Duration::from_millis` makes of a number of milliseconds.
pub uninterp spec fn duration_of_millis(ms: u64) -> Duration;

/// `web_time::Duration::from_millis`: a duration of `ms` milliseconds. What the value
/// holds is opaque here; the contract only names it after its argument.
#[verifier::external_body]
fn duration_from_millis(ms: u64) -> (d: Duration)
    ensures
        d == duration_of_millis(ms),
{
    Duration::from_millis(ms)
}

impl SearchLimits {
    /// The limits of an expert hint in the user interface: a quarter of a second from now,
    /// depth 8, two thousand nodes.
    pub fn web_expert() -> (r: Self)
        ensures
            r.max_depth == 8,
            r.max_nodes == 2000,
    {
        SearchLimits { deadline: deadline_after(duration_from_millis(250)), max_depth: 8, max_nodes: 2000 }
    }
}

impl ExpertStep {
    /// The removals are candidates of the grid, ordered by cell and digit.
    pub open spec fn pattern(self, g: Grid) -> bool {
        &&& self.remove_candidates@.len() > 0
        &&& sorted_cands(self.remove_candidates@)
        &&& forall|i: int|
            0 <= i < self.remove_candidates@.len() ==> (#[trigger] self.remove_candidates@[i]).0 < 81 && g.has_cand(
                self.remove_candidates@[i].0 as int,
                self.remove_candidates@[i].1,
            )
    }

    pub open spec fn title(self) -> Seq<char> {
        match self.expert_type {
            ExpertType::Templates => "Templates"@,
            ExpertType::ForcingChain => "Forcing Chain"@,
            ExpertType::ForcingNet => "Forcing Net"@,
            ExpertType::KrakenFish => "Kraken Fish"@,
        }
    }

    pub fn name(&self) -> (r: &'static str)
        ensures
            r@ == self.title(),
    {
        match self.expert_type {
            ExpertType::Templates => "Templates",
            ExpertType::ForcingChain => "Forcing Chain",
            ExpertType::ForcingNet => "Forcing Net",
            ExpertType::KrakenFish => "Kraken Fish",
        }
    }

    pub fn difficulty(&self) -> (r: u32)
        ensures
            r == 600,
    {
        600
    }

    /// Removes the candidates.
    pub fn apply(&self, grid: &mut Grid)
        requires
            old(grid).wf(),
            self.remove_candidates@.len() > 0,
            crate::solver::step::removable(*old(grid), self.remove_candidates@),
        ensures
            final(grid).wf(),
            crate::solver::step::removed(*old(grid), *final(grid), self.remove_candidates@),
    {
        crate::solver::step::remove_all(grid, &self.remove_candidates);
    }
}

/// Whether the search must stop: the deadline has passed or the node budget is spent.
fn exhausted(limits: &SearchLimits, visited: usize) -> (r: bool)
    ensures
        visited >= limits.max_nodes ==> r,
{
    past(&Some(limits.deadline)) || visited >= limits.max_nodes
}

/// Whether cell `cell` sees none of the cells of `current`.
fn sees_none(current: &Vec<u8>, cell: u8) -> (r: bool)
    requires
        cell < 81,
        forall|i: int| 0 <= i < current@.len() ==> #[trigger] current@[i] < 81,
    ensures
        r == forall|i: int| 0 <= i < current@.len() ==> !sees(#[trigger] current@[i] as int, cell as int),
{
    let mut i: usize = 0;
    while i < current.len()
        invariant
            i <= current@.len(),
            cell < 81,
            forall|k: int| 0 <= k < current@.len() ==> #[trigger] current@[k] < 81,
            forall|k: int| 0 <= k < i ==> !sees(#[trigger] current@[k] as int, cell as int),
        decreases current@.len() - i,
    {
        if crate::grid_constant::cells_see(current[i], cell) {
            return false;
        }
        i = i + 1;
    }
    true
}

/// `t` places a digit once in each of the first `n` rows, in cells with `value` as a
/// candidate, no two seeing each other.
pub open spec fn template_prefix(g: Grid, value: u8, t: Seq<u8>, n: int) -> bool {
    &&& t.len() == n
    &&& forall|r: int| 0 <= r < n ==> in_house(#[trigger] t[r] as int, r) && g.has_cand(t[r] as int, value)
    &&& forall|r: int, q: int| 0 <= r < q < n ==> !sees(#[trigger] t[r] as int, #[trigger] t[q] as int)
}

/// Lists, row by row, the placements of `value` that extend `current` (filled up to
/// `row`) to every row, while the limits allow; `true` when the limits cut the listing
/// short, and otherwise every such placement is listed.
fn enumerate_templates(
    grid: &Grid,
    value: u8,
    row: u8,
    current: &mut Vec<u8>,
    result: &mut Vec<Vec<u8>>,
    limits: &SearchLimits,
    visited: &mut usize,
) -> (cut: bool)
    requires
        grid.wf(),
        row <= 9,
        template_prefix(*grid, value, old(current)@, row as int),
        forall|k: int| 0 <= k < old(result)@.len() ==> template_prefix(*grid, value, (#[trigger] old(result)@[k])@, 9),
    ensures
        final(current)@ == old(current)@,
        forall|k: int| 0 <= k < final(result)@.len() ==> template_prefix(*grid, value, (#[trigger] final(result)@[k])@, 9),
        *final(visited) >= *old(visited),
        old(result)@.len() <= final(result)@.len(),
        forall|k: int| 0 <= k < old(result)@.len() ==> #[trigger] final(result)@[k] == old(result)@[k],
        !cut ==> forall|t: Seq<u8>|
            #[trigger] template_prefix(*grid, value, t, 9) && t.take(row as int) == old(current)@ ==> exists|k: int|
                0 <= k < final(result)@.len() && final(result)@[k]@ == t,
    decreases 9 - row,
{
    if exhausted(limits, *visited) {
        return true;
    }
    *visited = *visited + 1;
    if row == 9 {
        let ghost before = result@;
        let mut copy: Vec<u8> = Vec::new();
        let mut i: usize = 0;
        while i < current.len()
            invariant
                i <= current@.len(),
                copy@ == current@.subrange(0, i as int),
            decreases current@.len() - i,
        {
            copy.push(current[i]);
            assert(copy@ =~= current@.subrange(0, i + 1));
            i = i + 1;
        }
        assert(copy@ =~= current@);
        result.push(copy);
        proof {
            assert forall|k: int| 0 <= k < result@.len() implies template_prefix(*grid, value, (#[trigger] result@[k])@, 9) by {
                if k < before.len() {
                    assert(result@[k] == before[k]);
                }
            }
            assert forall|k: int| 0 <= k < before.len() implies #[trigger] result@[k] == before[k] by {}
            assert forall|t: Seq<u8>| #[trigger] template_prefix(*grid, value, t, 9) && t.take(row as int) == current@ implies exists|k: int|
                0 <= k < result@.len() && result@[k]@ == t by {
                assert(t =~= t.take(9));
                assert(result@[before.len() as int]@ == t);
            }
        }
        return false;
    }
    let ghost r0 = result@;
    let cells = crate::grid_constant::get_house_cell_set(row).values();
    let mut cut = false;
    let mut i: usize = 0;
    while i < cells.len()
        invariant
            i <= cells@.len(),
            row < 9,
            grid.wf(),
            forall|c: u8| #[trigger] cells@.contains(c) <==> in_house(c as int, row as int),
            current@ == old(current)@,
            template_prefix(*grid, value, current@, row as int),
            forall|k: int| 0 <= k < result@.len() ==> template_prefix(*grid, value, (#[trigger] result@[k])@, 9),
            *visited >= *old(visited),
            r0 == old(result)@,
            r0.len() <= result@.len(),
            forall|k: int| 0 <= k < r0.len() ==> #[trigger] result@[k] == r0[k],
            !cut ==> forall|t: Seq<u8>|
                #[trigger] template_prefix(*grid, value, t, 9) && t.take(row as int) == current@ && (exists|j: int| 0 <= j < i && cells@[j] == t[row as int])
                    ==> exists|k: int| 0 <= k < result@.len() && result@[k]@ == t,
        decreases cells@.len() - i,
    {
        let cell = cells[i];
        assert(cells@.contains(cell));
        let ghost rb = result@;
        let has = grid.cell_has_candidate(cell, value);
        let mut fits = false;
        if has {
            proof {
                assert forall|k: int| 0 <= k < current@.len() implies #[trigger] current@[k] < 81 by {
                    assert(in_house(current@[k] as int, k));
                }
            }
            fits = sees_none(current, cell);
            if fits {
                let ghost saved = current@;
                current.push(cell);
                proof {
                    assert forall|r: int, q: int| 0 <= r < q < row + 1 implies !sees(#[trigger] current@[r] as int, #[trigger] current@[q] as int) by {
                        if q == row {
                            assert(current@[q] == cell);
                            assert(current@[r] == saved[r]);
                        } else {
                            assert(current@[q] == saved[q]);
                            assert(current@[r] == saved[r]);
                        }
                    }
                    assert forall|r: int| 0 <= r < row + 1 implies in_house(#[trigger] current@[r] as int, r) && grid.has_cand(current@[r] as int, value) by {
                        if r < row {
                            assert(current@[r] == saved[r]);
                        }
                    }
                }
                let ghost pushed = current@;
                let sub = enumerate_templates(grid, value, row + 1, current, result, limits, visited);
                current.pop();
                assert(current@ =~= saved);
                if sub {
                    cut = true;
                }
                proof {
                    if !cut {
                        assert forall|t: Seq<u8>| #[trigger] template_prefix(*grid, value, t, 9) && t.take(row as int) == current@ && t[row as int] == cell
                            implies exists|k: int| 0 <= k < result@.len() && result@[k]@ == t by {
                            assert(t.take(row + 1) =~= pushed) by {
                                assert forall|k: int| 0 <= k < row + 1 implies t.take(row + 1)[k] == pushed[k] by {
                                    if k < row {
                                        assert(t.take(row as int)[k] == t[k]);
                                    }
                                }
                            }
                        }
                    }
                }
            }
        }
        proof {
            assert forall|k: int| 0 <= k < r0.len() implies #[trigger] result@[k] == r0[k] by {
                assert(result@[k] == rb[k]);
            }
            if !cut {
                assert forall|t: Seq<u8>|
                    #[trigger] template_prefix(*grid, value, t, 9) && t.take(row as int) == current@ && (exists|j: int| 0 <= j < i + 1 && cells@[j] == t[row as int])
                        implies exists|k: int| 0 <= k < result@.len() && result@[k]@ == t by {
                    let j = choose|j: int| 0 <= j < i + 1 && cells@[j] == t[row as int];
                    if j < i {
                        let k = choose|k: int| 0 <= k < rb.len() && rb[k]@ == t;
                        assert(result@[k] == rb[k]);
                    } else {
                        assert(t[row as int] == cell);
                        assert(grid.has_cand(t[row as int] as int, value));
                        if !fits {
                            let r = choose|r: int| 0 <= r < current@.len() && sees(#[trigger] current@[r] as int, cell as int);
                            assert(t.take(row as int)[r] == t[r]);
                            assert(!sees(t[r] as int, t[row as int] as int));
                        }
                    }
                }
            }
        }
        i = i + 1;
    }
    proof {
        if !cut {
            assert forall|t: Seq<u8>| #[trigger] template_prefix(*grid, value, t, 9) && t.take(row as int) == old(current)@ implies exists|k: int|
                0 <= k < result@.len() && result@[k]@ == t by {
                assert(in_house(t[row as int] as int, row as int));
                assert(cells@.contains(t[row as int]));
                let j = choose|j: int| 0 <= j < cells@.len() && cells@[j] == t[row as int];
            }
        }
    }
    cut
}

/// Whether some template of `templates` holds `cell`.
fn some_template_holds(templates: &Vec<Vec<u8>>, cell: u8) -> (r: bool)
    ensures
        r == exists|k: int| 0 <= k < templates@.len() && (#[trigger] templates@[k])@.contains(cell),
{
    let mut k: usize = 0;
    while k < templates.len()
        invariant
            k <= templates@.len(),
            forall|x: int| 0 <= x < k ==> !(#[trigger] templates@[x])@.contains(cell),
        decreases templates@.len() - k,
    {
        if crate::solver::naked_set::vec_has(&templates[k], cell) {
            return true;
        }
        k = k + 1;
    }
    false
}

/// Digit `value` has some template, and cell `cell` holds it as a candidate but lies in
/// no template of it.
pub open spec fn template_gap(g: Grid, value: u8, cell: int) -> bool {
    &&& exists|t: Seq<u8>| #[trigger] template_prefix(g, value, t, 9)
    &&& 0 <= cell < 81
    &&& g.has_cand(cell, value)
    &&& forall|t: Seq<u8>| #[trigger] template_prefix(g, value, t, 9) ==> !t.contains(cell as u8)
}

/// Templates: for each digit, every way to place it once per row, column and block among
/// its candidates; a candidate no template uses can go. `true` when the limits cut the
/// search short; otherwise a step is found whenever some template leaves a candidate
/// out.
fn find_template_step(grid: &Grid, limits: &SearchLimits) -> (r: (Option<ExpertStep>, bool))
    requires
        grid.wf(),
    ensures
        r.0 matches Some(s) ==> s.pattern(*grid) && s.expert_type == ExpertType::Templates,
        r.1 ==> r.0 is None,
        !r.1 && (exists|v: u8, c: int| 1 <= v <= 9 && #[trigger] template_gap(*grid, v, c)) ==> r.0 is Some,
{
    let mut visited: usize = 0;
    let mut value: u8 = 1;
    while value <= 9
        invariant
            1 <= value <= 10,
            grid.wf(),
            forall|v: u8, c: int| 1 <= v < value ==> !#[trigger] template_gap(*grid, v, c),
        decreases 10 - value,
    {
        let mut templates: Vec<Vec<u8>> = Vec::new();
        let mut current: Vec<u8> = Vec::new();
        let cut = enumerate_templates(grid, value, 0, &mut current, &mut templates, limits, &mut visited);
        if cut || exhausted(limits, visited) {
            return (None, true);
        }
        proof {
            assert forall|t: Seq<u8>| #[trigger] template_prefix(*grid, value, t, 9) implies exists|k: int|
                0 <= k < templates@.len() && templates@[k]@ == t by {
                assert(t.take(0) =~= current@);
            }
        }
        if templates.len() > 0 {
            let mut removals: Vec<Candidate> = Vec::new();
            let mut cell: u8 = 0;
            while cell < 81
                invariant
                    cell <= 81,
                    grid.wf(),
                    sorted_cands(removals@),
                    forall|i: int|
                        0 <= i < removals@.len() ==> (#[trigger] removals@[i]).0 < cell && removals@[i].1 == value && grid.has_cand(
                            removals@[i].0 as int,
                            removals@[i].1,
                        ),
                    removals@.len() == 0 ==> forall|c: int|
                        0 <= c < cell && grid.has_cand(c, value) ==> exists|k: int|
                            0 <= k < templates@.len() && (#[trigger] templates@[k])@.contains(c as u8),
                decreases 81 - cell,
            {
                if grid.cell_has_candidate(cell, value) && !some_template_holds(&templates, cell) {
                    removals.push(Candidate::new(cell, value));
                }
                cell = cell + 1;
            }
            if removals.len() > 0 {
                let first = &templates[0];
                let mut highlight: Vec<Candidate> = Vec::new();
                let mut i: usize = 0;
                while i < first.len()
                    invariant
                        i <= first@.len(),
                    decreases first@.len() - i,
                {
                    highlight.push(Candidate::new(first[i], value));
                    i = i + 1;
                }
                let step = ExpertStep {
                    expert_type: ExpertType::Templates,
                    highlight_candidates: highlight,
                    remove_candidates: removals,
                };
                return (Some(step), false);
            }
            proof {
                assert forall|c: int| !#[trigger] template_gap(*grid, value, c) by {
                    if template_gap(*grid, value, c) {
                        let k = choose|k: int| 0 <= k < templates@.len() && (#[trigger] templates@[k])@.contains(c as u8);
                        assert(template_prefix(*grid, value, templates@[k]@, 9));
                    }
                }
            }
        } else {
            proof {
                assert forall|c: int| !#[trigger] template_gap(*grid, value, c) by {
                    if template_gap(*grid, value, c) {
                        let t = choose|t: Seq<u8>| #[trigger] template_prefix(*grid, value, t, 9);
                        let k = choose|k: int| 0 <= k < templates@.len() && templates@[k]@ == t;
                    }
                }
            }
        }
        value = value + 1;
    }
    (None, false)
}

/// Cell `c` is the first empty cell with a single candidate.
pub open spec fn first_single(g: Grid, c: int) -> bool {
    &&& 0 <= c < 81
    &&& g.value(c) == 0
    &&& g.cands(c).len() == 1
    &&& forall|d: int| 0 <= d < c ==> !(g.value(d) == 0 && #[trigger] g.cands(d).len() == 1)
}

/// Writes forced singles (the first empty cell with a single candidate each time), at
/// most `max_depth` of them, counting each as a visited node; stops at a digit a peer
/// holds already.
fn propagate_singles(grid: &mut Grid, max_depth: usize, visited: &mut usize)
    requires
        old(grid).wf(),
    ensures
        final(grid).wf(),
        forall|c: int| 0 <= c < 81 && old(grid).value(c) != 0 ==> #[trigger] final(grid).value(c) == old(grid).value(c),
        forall|c: int, v: u8|
            max_depth > 0 && first_single(*old(grid), c) && #[trigger] old(grid).cands(c).contains(v) && !old(grid).given(c)
                && no_peer_has(old(grid).value_seq(), c, v) ==> final(grid).value(c) == v,
{
    let ghost g0 = *grid;
    proof {
        grid.lemma_wf();
    }
    let mut depth: usize = 0;
    while depth < max_depth
        invariant
            grid.wf(),
            g0 == *old(grid),
            forall|c: int| 0 <= c < 81 && g0.value(c) != 0 ==> #[trigger] grid.value(c) == g0.value(c),
            g0.wf(),
            depth == 0 ==> grid.value_seq() == g0.value_seq() && grid.cand_seq() == g0.cand_seq() && grid.given_seq()
                == g0.given_seq(),
            forall|c: int, v: u8|
                depth > 0 && first_single(g0, c) && #[trigger] g0.cands(c).contains(v) && !g0.given(c) && no_peer_has(
                    g0.value_seq(),
                    c,
                    v,
                ) ==> grid.value(c) == v,
        ensures
            grid.wf(),
            forall|c: int| 0 <= c < 81 && g0.value(c) != 0 ==> #[trigger] grid.value(c) == g0.value(c),
            forall|c: int, v: u8|
                max_depth > 0 && first_single(g0, c) && #[trigger] g0.cands(c).contains(v) && !g0.given(c) && no_peer_has(
                    g0.value_seq(),
                    c,
                    v,
                ) ==> grid.value(c) == v,
        decreases max_depth - depth,
    {
        let mut found: Option<Candidate> = None;
        let mut cell: u8 = 0;
        while cell < 81
            invariant_except_break
                found is None,
            invariant
                cell <= 81,
                grid.wf(),
                forall|d: int| 0 <= d < cell ==> !(grid.value(d) == 0 && #[trigger] grid.cands(d).len() == 1),
            ensures
                found is None ==> forall|d: int| 0 <= d < 81 ==> !(grid.value(d) == 0 && #[trigger] grid.cands(d).len() == 1),
                found matches Some(cd) ==> first_single(*grid, cd.0 as int) && grid.cands(cd.0 as int).contains(cd.1) && forall|w: u8|
                    grid.cands(cd.0 as int).contains(w) ==> w == cd.1,
            decreases 81 - cell,
        {
            let values = grid.get_cell_candidate(cell);
            if grid.get_value(cell) == 0 && values.count() == 1 {
                let only = values.values();
                if only.len() > 0 {
                    found = Some(Candidate::new(cell, only[0]));
                    proof {
                        assert(only@.contains(only@[0]));
                        assert(first_single(*grid, cell as int));
                        crate::util::digitset::DigitSet::lemma_bounds(values);
                        assert forall|w: u8| grid.cands(cell as int).contains(w) implies w == only@[0] by {
                            crate::util::indexset::lemma_set_single(grid.cands(cell as int), w, only@[0]);
                        }
                    }
                }
                break;
            }
            cell = cell + 1;
        }
        let candidate = match found {
            Some(c) => c,
            None => {
                proof {
                    if depth == 0 {
                        g0.lemma_wf();
                        grid.lemma_wf();
                        assert forall|c: int| 0 <= c < 81 implies !first_single(g0, c) by {
                            assert(grid.value_seq()[c] == g0.value_seq()[c]);
                            assert(grid.cand_seq()[c] == g0.cand_seq()[c]);
                            assert(!(grid.value(c) == 0 && grid.cands(c).len() == 1));
                        }
                    }
                }
                break;
            },
        };
        let ghost before = *grid;
        proof {
            before.lemma_wf();
            g0.lemma_wf();
            assert(1 <= candidate.1 <= 9);
            if depth == 0 {
                assert forall|d: int| 0 <= d < 81 implies #[trigger] before.value(d) == g0.value(d) && before.cands(d) == g0.cands(d)
                    && before.given(d) == g0.given(d) by {
                    assert(before.value_seq()[d] == g0.value_seq()[d]);
                    assert(before.cand_seq()[d] == g0.cand_seq()[d]);
                    assert(before.given_seq()[d] == g0.given_seq()[d]);
                }
                assert forall|c: int| first_single(g0, c) implies c == candidate.0 as int by {
                    if c < candidate.0 as int {
                        assert(!(before.value(c) == 0 && before.cands(c).len() == 1));
                    }
                    if c > candidate.0 as int {
                        assert(!(g0.value(candidate.0 as int) == 0 && g0.cands(candidate.0 as int).len() == 1));
                    }
                }
            }
            assert forall|c: int| first_single(before, c) implies c == candidate.0 as int by {
                if c < candidate.0 as int {
                    assert(!(before.value(c) == 0 && before.cands(c).len() == 1));
                }
                if c > candidate.0 as int {
                    assert(!(before.value(candidate.0 as int) == 0 && before.cands(candidate.0 as int).len() == 1));
                }
            }
        }
        *visited = visited.saturating_add(1);
        let ok = grid.set_value_with_candidate(&candidate);
        proof {
            grid.lemma_wf();
            if ok && !before.given(candidate.0 as int) {
                assert(before.value(candidate.0 as int) == 0);
                assert(candidate.1 != 0);
                assert(grid.value_seq() == before.value_seq().update(candidate.0 as int, candidate.1));
                assert(grid.value_seq()[candidate.0 as int] == candidate.1);
                assert(grid.value(candidate.0 as int) == candidate.1);
                assert forall|c: int| 0 <= c < 81 && c != candidate.0 as int implies #[trigger] grid.value(c) == before.value(c) by {
                    assert(grid.value_seq()[c] == before.value_seq()[c]);
                }
            } else {
                assert forall|c: int| 0 <= c < 81 implies #[trigger] grid.value(c) == before.value(c) by {
                    assert(grid.value_seq()[c] == before.value_seq()[c]);
                }
            }
        }
        if !ok {
            break;
        }
        depth = depth + 1;
    }
}

/// Whether in every branch `value` is neither a candidate nor the value of `target`.
fn gone_in_all(branches: &Vec<Grid>, target: u8, value: u8) -> (r: bool)
    requires
        target < 81,
        forall|k: int| 0 <= k < branches@.len() ==> (#[trigger] branches@[k]).wf(),
    ensures
        r == forall|k: int|
            0 <= k < branches@.len() ==> !(#[trigger] branches@[k]).has_cand(target as int, value) && branches@[k].value(
                target as int,
            ) != value,
{
    let mut k: usize = 0;
    while k < branches.len()
        invariant
            k <= branches@.len(),
            target < 81,
            forall|x: int| 0 <= x < branches@.len() ==> (#[trigger] branches@[x]).wf(),
            forall|x: int|
                0 <= x < k ==> !(#[trigger] branches@[x]).has_cand(target as int, value) && branches@[x].value(target as int)
                    != value,
        decreases branches@.len() - k,
    {
        assert(branches@[k as int].wf());
        if branches[k].cell_has_candidate(target, value) || branches[k].get_value(target) == value {
            return false;
        }
        k = k + 1;
    }
    true
}

/// Forcing chains and nets: for a cell with two to four candidates, tries each, writes
/// the singles that follow, and removes what no branch keeps. `true` when the limits cut
/// the search short.
fn find_forcing_step(grid: &Grid, limits: &SearchLimits) -> (r: (Option<ExpertStep>, bool))
    requires
        grid.wf(),
    ensures
        r.0 matches Some(s) ==> s.pattern(*grid) && (s.expert_type == ExpertType::ForcingChain || s.expert_type
            == ExpertType::ForcingNet),
        r.1 ==> r.0 is None,
{
    let mut visited: usize = 0;
    let mut cell: u8 = 0;
    while cell < 81
        invariant
            cell <= 81,
            grid.wf(),
        decreases 81 - cell,
    {
        let values = grid.get_cell_candidate(cell).values();
        if 2 <= values.len() && values.len() <= 4 {
            let mut branches: Vec<Grid> = Vec::new();
            let mut k: usize = 0;
            while k < values.len()
                invariant
                    k <= values@.len(),
                    cell < 81,
                    grid.wf(),
                    forall|x: int| 0 <= x < branches@.len() ==> (#[trigger] branches@[x]).wf(),
                decreases values@.len() - k,
            {
                if exhausted(limits, visited) {
                    return (None, true);
                }
                visited = visited + 1;
                let mut branch = grid.duplicate();
                if branch.set_value(cell, values[k], false) {
                    propagate_singles(&mut branch, limits.max_depth, &mut visited);
                    let ghost before = branches@;
                    branches.push(branch);
                    proof {
                        assert forall|x: int| 0 <= x < branches@.len() implies (#[trigger] branches@[x]).wf() by {
                            if x < before.len() {
                                assert(branches@[x] == before[x]);
                            }
                        }
                    }
                }
                k = k + 1;
            }
            if branches.len() >= 2 {
                let mut removals: Vec<Candidate> = Vec::new();
                let mut target: u8 = 0;
                while target < 81
                    invariant
                        target <= 81,
                        grid.wf(),
                        forall|x: int| 0 <= x < branches@.len() ==> (#[trigger] branches@[x]).wf(),
                        sorted_cands(removals@),
                        forall|i: int|
                            0 <= i < removals@.len() ==> (#[trigger] removals@[i]).0 < target && grid.has_cand(
                                removals@[i].0 as int,
                                removals@[i].1,
                            ),
                    decreases 81 - target,
                {
                    let digits = grid.get_cell_candidate(target).values();
                    let ghost start_len = removals@.len();
                    let mut d: usize = 0;
                    while d < digits.len()
                        invariant
                            d <= digits@.len(),
                            target < 81,
                            grid.wf(),
                            forall|x: int| 0 <= x < branches@.len() ==> (#[trigger] branches@[x]).wf(),
                            forall|x: int, y: int| 0 <= x < y < digits@.len() ==> digits@[x] < digits@[y],
                            forall|v: u8| digits@.contains(v) <==> grid.cands(target as int).contains(v),
                            start_len <= removals@.len(),
                            sorted_cands(removals@),
                            forall|i: int|
                                0 <= i < start_len ==> (#[trigger] removals@[i]).0 < target && grid.has_cand(
                                    removals@[i].0 as int,
                                    removals@[i].1,
                                ),
                            forall|i: int|
                                start_len <= i < removals@.len() ==> (#[trigger] removals@[i]).0 == target && grid.has_cand(
                                    removals@[i].0 as int,
                                    removals@[i].1,
                                ) && exists|x: int| 0 <= x < d && digits@[x] == removals@[i].1,
                        decreases digits@.len() - d,
                    {
                        let v = digits[d];
                        assert(digits@.contains(v));
                        if grid.get_value(target) == 0 && gone_in_all(&branches, target, v) {
                            proof {
                                grid.lemma_wf();
                            }
                            let ghost before = removals@;
                            removals.push(Candidate::new(target, v));
                            proof {
                                assert forall|i: int, j: int| 0 <= i < j < removals@.len() implies crate::solver::naked_set::cand_before(
                                    #[trigger] removals@[i],
                                    #[trigger] removals@[j],
                                ) by {
                                    if j == before.len() && i >= start_len {
                                        let x = choose|x: int| 0 <= x < d && digits@[x] == removals@[i].1;
                                    }
                                    if j < before.len() {
                                        assert(removals@[i] == before[i] && removals@[j] == before[j]);
                                    }
                                }
                                assert forall|i: int|
                                    start_len <= i < removals@.len() implies (#[trigger] removals@[i]).0 == target && grid.has_cand(
                                    removals@[i].0 as int,
                                    removals@[i].1,
                                ) && exists|x: int| 0 <= x < d + 1 && digits@[x] == removals@[i].1 by {
                                    if i < before.len() {
                                        assert(removals@[i] == before[i]);
                                        let x = choose|x: int| 0 <= x < d && digits@[x] == before[i].1;
                                    } else {
                                        assert(digits@[d as int] == removals@[i].1);
                                    }
                                }
                                assert forall|i: int| 0 <= i < start_len implies (#[trigger] removals@[i]).0 < target && grid.has_cand(
                                    removals@[i].0 as int,
                                    removals@[i].1,
                                ) by {
                                    assert(removals@[i] == before[i]);
                                }
                            }
                        }
                        d = d + 1;
                    }
                    target = target + 1;
                }
                if removals.len() > 0 {
                    let mut highlight: Vec<Candidate> = Vec::new();
                    let mut k: usize = 0;
                    while k < values.len()
                        invariant
                            k <= values@.len(),
                        decreases values@.len() - k,
                    {
                        highlight.push(Candidate::new(cell, values[k]));
                        k = k + 1;
                    }
                    let expert_type = if branches.len() == 2 {
                        ExpertType::ForcingChain
                    } else {
                        ExpertType::ForcingNet
                    };
                    return (Some(ExpertStep { expert_type, highlight_candidates: highlight, remove_candidates: removals }), false);
                }
            }
        }
        cell = cell + 1;
    }
    (None, false)
}

/// Templates first, then forcing chains and nets, within the limits; the outcome says
/// whether the limits cut the search short, and when they did not, a candidate that some
/// template leaves out gives a step.
pub fn find_expert_hint(grid: &Grid, limits: &SearchLimits) -> (r: HintOutcome)
    requires
        grid.wf(),
    ensures
        r.step is Nothing || (r.step is Expert && r.step.pattern(*grid)),
        r.truncated ==> r.step is Nothing,
        !r.truncated && (exists|v: u8, c: int| 1 <= v <= 9 && #[trigger] template_gap(*grid, v, c)) ==> r.step is Expert,
{
    let (step, truncated) = find_template_step(grid, limits);
    if step.is_some() || truncated {
        return HintOutcome {
            step: match step {
                Some(s) => Step::Expert(s),
                None => Step::Nothing,
            },
            truncated,
        };
    }
    let (step, truncated) = find_forcing_step(grid, limits);
    HintOutcome {
        step: match step {
            Some(s) => Step::Expert(s),
            None => Step::Nothing,
        },
        truncated,
    }
}

/// Finds template eliminations within a minute and a hundred thousand nodes.
#[derive(Debug, Default)]
pub struct TemplateFinder;

impl TemplateFinder {
    pub fn find_step<A: StepAccumulator>(&self, grid: &Grid, acc: &mut A)
        requires
            grid.wf(),
        ensures
            grows(old(acc).recorded(), final(acc).recorded(), |s: Step| s.pattern(*grid) && s is Expert),
            final(acc).stops_at_first() == old(acc).stops_at_first(),
    {
        let ghost start = acc.recorded();
        proof {
            assert(acc.recorded().subrange(0, start.len() as int) =~= start);
        }
        let limits = SearchLimits { deadline: deadline_after(duration_from_secs(60)), max_depth: 9, max_nodes: 100000 };
        match find_template_step(grid, &limits).0 {
            Some(step) => {
                report(acc, Step::Expert(step), Ghost(start), Ghost(|s: Step| s.pattern(*grid) && s is Expert));
            },
            None => {},
        }
    }
}

} // verus!

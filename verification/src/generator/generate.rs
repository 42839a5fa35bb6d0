use vstd::prelude::*;
use vstd::string::StringSliceAdditionalSpecFns;
use crate::difficulty::Difficulty;
use crate::error::SudokuError;
use crate::grid::{Grid, push_char, conflict_free, line_values, line_byte_ok, fresh_cands, free_digits, no_peer_has};
use crate::grid_constant::sees;
use crate::solver::brute_force::{BruteForceSolver, searchable, finished, solves, fits, valid_fill, solution_state_of, lemma_finished_solution};
use crate::solver::{SimpleSolver, standard_order};
use crate::solution::{SolutionPath, SolutionState, hardest_of};
use crate::solver::step::{Step, GridState, run_steps, state_of};
use crate::difficulty::difficulty_of_rank;
use crate::generator::symmetry::rotational_180_orbits;
use crate::util::random::{fresh_rng, shuffle_in_place};
use crate::util::clock::{now, earlier, later_by, past};
use vstd::string::StringExecFns;
use rand::rngs::StdRng;
use web_time::Instant;
use crate::solver::step::givens_filled;

verus! {

/// A generated puzzle with its solution and rating.
pub struct GeneratedGrid {
    pub grid: Grid,
    pub solution: [u8; 81],
    pub score: u32,
    pub difficulty: Difficulty,
    pub hardest_technique: String,
}

/// For the hard difficulties the generator keeps the first puzzle that matches instead of
/// removing further clues.
pub fn returns_first_matching_puzzle(difficulty: Difficulty) -> (r: bool)
    ensures
        r == (difficulty is Hard || difficulty is UnFair || difficulty is Extreme),
{
    match difficulty {
        Difficulty::Hard | Difficulty::UnFair | Difficulty::Extreme => true,
        _ => false,
    }
}

/// `d` after writing each listed digit into its cell, in order.
pub open spec fn restored(d: Seq<u8>, prev: Seq<(u8, u8)>) -> Seq<u8>
    decreases prev.len(),
{
    if prev.len() == 0 {
        d
    } else {
        restored(d, prev.drop_last()).update(prev.last().0 as int, prev.last().1)
    }
}

/// Puts back the digits of the listed cells.
pub fn restore_digits(digits: &mut [u8; 81], previous: &Vec<(u8, u8)>)
    requires
        forall|i: int| 0 <= i < previous@.len() ==> (#[trigger] previous@[i]).0 < 81,
    ensures
        final(digits)@ == restored(old(digits)@, previous@),
{
    let mut i: usize = 0;
    while i < previous.len()
        invariant
            i <= previous@.len(),
            forall|k: int| 0 <= k < previous@.len() ==> (#[trigger] previous@[k]).0 < 81,
            digits@ == restored(old(digits)@, previous@.subrange(0, i as int)),
        decreases previous@.len() - i,
    {
        let (cell, value) = previous[i];
        assert(previous@.subrange(0, i + 1).drop_last() =~= previous@.subrange(0, i as int));
        digits[cell as usize] = value;
        assert(digits@ =~= restored(old(digits)@, previous@.subrange(0, i + 1)));
        i = i + 1;
    }
    assert(previous@.subrange(0, previous@.len() as int) =~= previous@);
}

/// A grid built from values `d` without conflicts, every filled cell given, is one the
/// solvers accept.
pub proof fn lemma_built_searchable(g: Grid, d: Seq<u8>)
    requires
        g.wf(),
        d.len() == 81,
        conflict_free(d),
        g.built_from(d, Seq::new(81, |i: int| true)),
    ensures
        searchable(g),
        forall|c: int| 0 <= c < 81 ==> (#[trigger] g.given(c) <==> g.value(c) != 0),
{
    g.lemma_wf();
    assert forall|c: int| 0 <= c < 81 implies (#[trigger] g.given(c) <==> g.value(c) != 0) by {
        assert(g.given_seq()[c] == g.given(c));
        assert(g.value_seq()[c] == g.value(c));
    }
    assert forall|c: int, b: int|
        0 <= c < 81 && g.value(c) == 0 && sees(c, b) && g.value(b) != 0 implies !#[trigger] g.cands(c).contains(
        #[trigger] g.value(b),
    ) by {
        assert(g.value_seq()[c] == g.value(c));
        assert(g.value_seq()[b] == g.value(b));
        assert(g.cand_seq()[c] == g.cands(c));
        assert(fresh_cands(d)[c] == free_digits(d, c));
    }
    assert forall|c: int, b: int|
        0 <= c < 81 && #[trigger] g.value(c) != 0 && sees(c, b) implies #[trigger] g.value(b) != g.value(c)
        && !g.cands(b).contains(g.value(c)) by {
        assert(g.value_seq()[c] == g.value(c));
        assert(g.value_seq()[b] == g.value(b));
        assert(g.cand_seq()[b] == g.cands(b));
        assert(d[c] != 0);
        if d[b] == 0 {
            assert(fresh_cands(d)[b] == free_digits(d, b));
            assert(sees(b, c));
        }
    }
}

/// The puzzle `d` has exactly one solution: one valid fill agrees with all its clues.
pub open spec fn one_solution(d: Seq<u8>) -> bool {
    exists|s: Seq<u8>| valid_fill(s) && clues_of(d, s) && forall|t: Seq<u8>| valid_fill(t) && clues_of(d, t) ==> t == s
}

/// The solutions of a grid built from clues are the valid fills that agree with them.
pub proof fn lemma_built_solutions(g: Grid, d: Seq<u8>)
    requires
        g.wf(),
        d.len() == 81,
        g.built_from(d, Seq::new(81, |i: int| true)),
    ensures
        forall|s: Seq<u8>| #[trigger] solves(g, s) <==> valid_fill(s) && clues_of(d, s),
{
    g.lemma_wf();
    assert forall|s: Seq<u8>| #[trigger] solves(g, s) <==> valid_fill(s) && clues_of(d, s) by {
        assert forall|c: int| 0 <= c < 81 implies #[trigger] fits(g, s, c) == (if d[c] != 0 { s[c] == d[c] } else { free_digits(d, c).contains(s[c]) }) by {
            assert(g.value_seq()[c] == g.value(c));
            assert(g.cand_seq()[c] == g.cands(c));
        }
        if solves(g, s) {
            assert forall|c: int| 0 <= c < 81 implies #[trigger] d[c] == 0 || d[c] == s[c] by {
                assert(fits(g, s, c));
            }
        }
        if valid_fill(s) && clues_of(d, s) {
            assert forall|c: int| 0 <= c < 81 implies #[trigger] fits(g, s, c) by {
                if d[c] == 0 {
                    assert forall|b: int| 0 <= b < 81 && sees(c, b) implies d[b] != s[c] by {
                        assert(d[b] == 0 || d[b] == s[b]);
                        assert(s[c] != s[b]);
                    }
                    assert(no_peer_has(d, c, s[c]));
                } else {
                    assert(d[c] == 0 || d[c] == s[c]);
                }
            }
        }
    }
}

/// The puzzle whose clues are `digits` (0 for an empty cell), every clue given.
pub fn grid_from_digits(digits: &[u8; 81]) -> (r: Result<Grid, SudokuError>)
    requires
        forall|c: int| 0 <= c < 81 ==> #[trigger] digits@[c] <= 9,
    ensures
        r is Ok <==> conflict_free(digits@),
        r matches Ok(g) ==> g.wf() && g.built_from(digits@, Seq::new(81, |i: int| true)),
        r matches Err(e) ==> e is InvalidInput,
{
    let mut line = String::new();
    let mut i: usize = 0;
    while i < 81
        invariant
            i <= 81,
            forall|c: int| 0 <= c < 81 ==> #[trigger] digits@[c] <= 9,
            line@ == Seq::new(i as nat, |j: int| ((digits@[j] + 48) as u8) as char),
        decreases 81 - i,
    {
        push_char(&mut line, ((digits[i] + 48) as u8) as char);
        assert(line@ =~= Seq::new((i + 1) as nat, |j: int| ((digits@[j] + 48) as u8) as char));
        i = i + 1;
    }
    let text = line.as_str();
    proof {
        assert(vstd::string::is_ascii(text));
        vstd::string::is_ascii_spec_bytes(text);
        assert forall|c: int| 0 <= c < 81 implies #[trigger] line_byte_ok(text.spec_bytes()[c]) && line_values(
            text.spec_bytes(),
        )[c] == digits@[c] by {
            assert(text.spec_bytes()[c] == text@[c] as u8);
        }
        assert(line_values(text.spec_bytes()) =~= digits@);
    }
    Grid::new_from_singline_digit(text)
}

/// Clues mirrored by a half turn: a cell is empty exactly when its opposite is.
pub open spec fn half_turn_symmetric(d: Seq<u8>) -> bool {
    forall|c: int| 0 <= c < 81 ==> (#[trigger] d[c] == 0) == (d[80 - c] == 0)
}

/// Every clue of `d` agrees with the solution `sol`.
pub open spec fn clues_of(d: Seq<u8>, sol: Seq<u8>) -> bool {
    forall|c: int| 0 <= c < 81 ==> #[trigger] d[c] == 0 || d[c] == sol[c]
}

/// A cell paired with its opposite under a half turn, or the centre alone.
pub open spec fn orbit_ok(o: Seq<u8>) -> bool {
    ||| o.len() == 2 && o[0] < 40 && o[1] == 80 - o[0]
    ||| o == seq![40u8]
}

/// What the grid built from the clues `d`, all given, holds.
pub open spec fn puzzle_state(d: Seq<u8>) -> GridState {
    (d, Seq::new(81, |c: int| d[c] != 0), fresh_cands(d))
}

/// The simple solver, with its techniques in the standard order, takes the steps `steps`
/// on the grid of the clues `d`, each step leading on its grid and rated at most `max`,
/// and they fill it.
pub open spec fn solved_within(d: Seq<u8>, steps: Seq<Step>, max: u32) -> bool {
    exists|s: SimpleSolver, gs: Seq<Grid>|
        #[trigger] s.led_path(gs, steps) && standard_order(s.techniques()) && state_of(gs[0]) == puzzle_state(d) && (forall|c: int|
            0 <= c < 81 ==> #[trigger] gs.last().value(c) != 0) && forall|i: int| 0 <= i < steps.len() ==> (#[trigger] steps[i]).rating() <= max
}

/// The simple solver's steps solve the clues `d` within the rank of `difficulty`, and
/// the difficulty is that of the hardest of them.
pub open spec fn rated_as(d: Seq<u8>, difficulty: Difficulty) -> bool {
    exists|steps: Seq<Step>|
        #[trigger] solved_within(d, steps, crate::difficulty::max_rank(difficulty)) && difficulty_of_rank(hardest_of(steps))
            == difficulty
}

/// A puzzle kept by the generator.
struct RatedPuzzle {
    digits: [u8; 81],
    score: u32,
    difficulty: Difficulty,
    hardest_technique: String,
}

/// The solving path of the puzzle `digits` when it has exactly one solution and the
/// simple solver, allowed steps up to `max_difficulty`, solves it before the deadline.
fn rate_unique_puzzle(
    digits: &[u8; 81],
    brute_force: &BruteForceSolver,
    simple_solver: &SimpleSolver,
    max_difficulty: u32,
    deadline: Instant,
) -> (r: Option<SolutionPath>)
    requires
        forall|c: int| 0 <= c < 81 ==> #[trigger] digits@[c] <= 9,
        standard_order(simple_solver.techniques()),
    ensures
        r matches Some(p) ==> conflict_free(digits@) && one_solution(digits@) && p.done() && forall|i: int|
            0 <= i < p.step_seq().len() ==> (#[trigger] p.step_seq()[i]).rating() <= max_difficulty,
        r matches Some(p) ==> solved_within(digits@, p.step_seq(), max_difficulty) && p.hardest_rank() == hardest_of(p.step_seq()),
{
    let grid = match grid_from_digits(digits) {
        Ok(g) => g,
        Err(_) => {
            return None;
        },
    };
    proof {
        lemma_built_searchable(grid, digits@);
    }
    match brute_force.get_solution_state_with_deadline(&grid, deadline) {
        Some(SolutionState::Unique) => {},
        _ => {
            return None;
        },
    }
    proof {
        lemma_built_solutions(grid, digits@);
        assert(solution_state_of(grid) == SolutionState::Unique);
        let s = choose|s: Seq<u8>| solves(grid, s) && forall|t: Seq<u8>| solves(grid, t) ==> t == s;
        assert(valid_fill(s) && clues_of(digits@, s));
        assert forall|t: Seq<u8>| valid_fill(t) && clues_of(digits@, t) implies t == s by {
            assert(solves(grid, t));
        }
    }
    let mut solving_grid = grid;
    proof {
        assert(state_of(grid) == puzzle_state(digits@)) by {
            assert(grid.given_seq() =~= Seq::new(81, |c: int| digits@[c] != 0));
        }
    }
    let path = simple_solver.solve_with_deadline(&mut solving_grid, max_difficulty, deadline);
    if path.is_solved() {
        proof {
            let gs = choose|gs: Seq<Grid>| #[trigger] simple_solver.led_path(gs, path.step_seq()) && gs[0] == grid && gs.last() == solving_grid;
            assert(simple_solver.led_path(gs, path.step_seq()));
            assert(state_of(gs[0]) == puzzle_state(digits@));
            assert(forall|c: int| 0 <= c < 81 ==> #[trigger] gs.last().value(c) != 0);
        }
        Some(path)
    } else {
        None
    }
}

/// Generates a puzzle of the given difficulty, giving up once its time budget is spent.
pub fn generate_sudoku(difficulty: &Difficulty) -> (r: Result<GeneratedGrid, SudokuError>)
    ensures
        r matches Ok(gen) ==> generated(gen, *difficulty),
        r matches Err(e) ==> e is GenerateFailed,
{
    let mut rng = fresh_rng();
    let deadline = match later_by(now(), difficulty.generation_budget()) {
        Some(d) => d,
        None => {
            return Err(SudokuError::GenerateFailed);
        },
    };
    generate_sudoku_with_rng_and_deadline(*difficulty, &mut rng, deadline)
}

/// What a generated puzzle offers: the grid holds exactly its clues, all given, mirrored
/// by a half turn and agreeing with the solution, a filled grid without conflicts; the
/// puzzle has the requested difficulty: the simple solver's steps fill it within that
/// difficulty's rank, and its hardest step is of that difficulty.
pub open spec fn generated(gen: GeneratedGrid, difficulty: Difficulty) -> bool {
    &&& gen.grid.wf()
    &&& gen.difficulty == difficulty
    &&& half_turn_symmetric(gen.grid.value_seq())
    &&& clues_of(gen.grid.value_seq(), gen.solution@)
    &&& forall|c: int| 0 <= c < 81 ==> (#[trigger] gen.grid.given(c) <==> gen.grid.value(c) != 0)
    &&& exists|s: Grid| finished(s) && s.value_seq() == gen.solution@
    &&& forall|s: Seq<u8>| valid_fill(s) && clues_of(gen.grid.value_seq(), s) <==> s == gen.solution@
    &&& rated_as(gen.grid.value_seq(), difficulty)
}

/// Carves the solution along the orbits in order: the clues of an orbit go when the
/// puzzle without them keeps one solution and the simple solver solves it, before the
/// deadline, with no step harder than `max_rank`, and come back otherwise; a puzzle whose
/// hardest step the difficulty accepts is kept (for the hard difficulties the first one,
/// otherwise the last). Stops once the deadline has passed.
fn carve(
    solution: &[u8; 81],
    orbits: &Vec<Vec<u8>>,
    brute_force: &BruteForceSolver,
    simple_solver: &SimpleSolver,
    difficulty: Difficulty,
    max_rank: u32,
    deadline: Instant,
) -> (best: Option<RatedPuzzle>)
    requires
        forall|x: int| 0 <= x < orbits@.len() ==> orbit_ok((#[trigger] orbits@[x])@),
        forall|c: int| 0 <= c < 81 ==> #[trigger] solution@[c] != 0 && solution@[c] <= 9,
        valid_fill(solution@),
        max_rank == crate::difficulty::max_rank(difficulty),
        standard_order(simple_solver.techniques()),
    ensures
        best matches Some(b) ==> rated_as(b.digits@, difficulty),
        best matches Some(b) ==> conflict_free(b.digits@) && one_solution(b.digits@) && half_turn_symmetric(b.digits@) && clues_of(b.digits@, solution@)
            && b.difficulty == difficulty && (forall|c: int| 0 <= c < 81 ==> #[trigger] b.digits@[c] <= 9),
{
    let mut digits = *solution;
    let mut best: Option<RatedPuzzle> = None;
    let mut k: usize = 0;
    while k < orbits.len()
        invariant
            k <= orbits@.len(),
            forall|x: int| 0 <= x < orbits@.len() ==> orbit_ok((#[trigger] orbits@[x])@),
            forall|c: int| 0 <= c < 81 ==> #[trigger] solution@[c] != 0 && solution@[c] <= 9,
            forall|c: int| 0 <= c < 81 ==> #[trigger] digits@[c] <= 9,
            half_turn_symmetric(digits@),
            clues_of(digits@, solution@),
            max_rank == crate::difficulty::max_rank(difficulty),
            standard_order(simple_solver.techniques()),
            valid_fill(solution@),
            best matches Some(b) ==> rated_as(b.digits@, difficulty),
            best matches Some(b) ==> conflict_free(b.digits@) && one_solution(b.digits@) && half_turn_symmetric(b.digits@) && clues_of(b.digits@, solution@)
                && b.difficulty == difficulty && (forall|c: int| 0 <= c < 81 ==> #[trigger] b.digits@[c] <= 9),
        decreases orbits@.len() - k,
    {
        if past(&Some(deadline)) {
            break;
        }
        let orbit = &orbits[k];
        assert(orbit_ok(orbit@));
        let ghost saved = digits@;
        let mut previous: Vec<(u8, u8)> = Vec::new();
        let mut x: usize = 0;
        while x < orbit.len()
            invariant
                x <= orbit@.len(),
                orbit_ok(orbit@),
                previous@.len() == x,
                forall|y: int| 0 <= y < x ==> (#[trigger] previous@[y]) == (orbit@[y], saved[orbit@[y] as int]),
                forall|c: int| 0 <= c < 81 ==> #[trigger] digits@[c] == (if (x > 0 && c == orbit@[0]) || (x > 1 && c == orbit@[1]) {
                    0u8
                } else {
                    saved[c]
                }),
            decreases orbit@.len() - x,
        {
            let cell = orbit[x];
            previous.push((cell, digits[cell as usize]));
            digits[cell as usize] = 0;
            x = x + 1;
        }
        proof {
            assert forall|c: int| 0 <= c < 81 implies (#[trigger] digits@[c] == 0) == (digits@[80 - c] == 0) by {
                assert(saved[c] == 0 <==> saved[80 - c] == 0);
            }
            assert forall|c: int| 0 <= c < 81 implies #[trigger] digits@[c] <= 9 by {}
            assert forall|c: int| 0 <= c < 81 implies #[trigger] digits@[c] == 0 || digits@[c] == solution@[c] by {
                assert(saved[c] == 0 || saved[c] == solution@[c]);
            }
        }
        let rated = rate_unique_puzzle(&digits, brute_force, simple_solver, max_rank, deadline);
        match rated {
            None => {
                restore_digits(&mut digits, &previous);
                proof {
                    reveal_with_fuel(restored, 3);
                    assert(digits@ =~= saved);
                }
            },
            Some(path) => {
                let rank = path.hardest_technique_rank();
                if rank > max_rank {
                    restore_digits(&mut digits, &previous);
                    proof {
                        reveal_with_fuel(restored, 3);
                        assert(digits@ =~= saved);
                    }
                } else if difficulty.accepts_hardest_technique_rank(rank) {
                    let name = match path.hardest_technique() {
                        Some(n) => String::from_str(n),
                        None => String::from_str("None"),
                    };
                    proof {
                        assert(solved_within(digits@, path.step_seq(), max_rank));
                    }
                    best = Some(RatedPuzzle { digits, score: path.score(), difficulty, hardest_technique: name });
                    if returns_first_matching_puzzle(difficulty) {
                        break;
                    }
                }
            },
        }
        k = k + 1;
    }
    best
}

/// Generates a puzzle of the given difficulty from random solutions drawn with `rng`:
/// clues leave in random half-turn pairs as long as the puzzle keeps one solution and the
/// simple solver solves it within the difficulty's rank; a puzzle whose hardest step
/// matches the difficulty is kept (for the hard difficulties the first one, otherwise the
/// last). Fails with `GenerateFailed` once the deadline has passed.
pub fn generate_sudoku_with_rng_and_deadline(
    difficulty: Difficulty,
    rng: &mut StdRng,
    deadline: Instant,
) -> (r: Result<GeneratedGrid, SudokuError>)
    ensures
        r matches Ok(gen) ==> generated(gen, difficulty),
        r matches Err(e) ==> e is GenerateFailed,
{
    let brute_force = BruteForceSolver::new();
    let simple_solver = SimpleSolver::new();
    let max_rank = difficulty.max_hardest_technique_rank();
    let mut attempts: u64 = 0;
    while attempts < u64::MAX && earlier(&now(), &deadline)
        invariant
            max_rank == crate::difficulty::max_rank(difficulty),
            standard_order(simple_solver.techniques()),
        decreases u64::MAX - attempts,
    {
        attempts = attempts + 1;
        let solution_grid = match brute_force.generate_solution_with_rng_and_deadline(rng, deadline) {
            Some(g) => g,
            None => {
                continue;
            },
        };
        let mut solution: [u8; 81] = [0; 81];
        let values = solution_grid.values();
        proof {
            solution_grid.lemma_wf();
        }
        let mut i: usize = 0;
        while i < 81
            invariant
                i <= 81,
                values@ == solution_grid.value_seq(),
                values@.len() == 81,
                forall|j: int| 0 <= j < i ==> solution@[j] == values@[j],
            decreases 81 - i,
        {
            solution[i] = values[i];
            i = i + 1;
        }
        assert(solution@ =~= solution_grid.value_seq());
        proof {
            assert forall|c: int| 0 <= c < 81 implies #[trigger] solution@[c] != 0 && solution@[c] <= 9 by {
                assert(solution_grid.value(c) != 0);
                assert(solution_grid.value_seq()[c] == solution_grid.value(c));
            }
        }
        proof {
            lemma_finished_solution(solution_grid);
            assert(solves(solution_grid, solution_grid.value_seq()));
        }
        let mut orbits = rotational_180_orbits();
        let ghost unshuffled = orbits@;
        shuffle_in_place(&mut orbits, rng);
        proof {
            unshuffled.to_multiset_ensures();
            orbits@.to_multiset_ensures();
            assert forall|k: int| 0 <= k < orbits@.len() implies orbit_ok((#[trigger] orbits@[k])@) by {
                assert(orbits@.contains(orbits@[k]));
                assert(orbits@.to_multiset().count(orbits@[k]) == unshuffled.to_multiset().count(orbits@[k]));
                assert(unshuffled.contains(orbits@[k]));
                let j = choose|j: int| 0 <= j < unshuffled.len() && unshuffled[j] == orbits@[k];
                if j < 40 {
                    assert(unshuffled[j]@ == seq![j as u8, (80 - j) as u8]);
                } else {
                    assert(unshuffled[j]@ == seq![40u8]);
                }
            }
        }
        let best = carve(&solution, &orbits, &brute_force, &simple_solver, difficulty, max_rank, deadline);
        match best {
            Some(b) => {
                let grid = match grid_from_digits(&b.digits) {
                    Ok(g) => g,
                    Err(e) => {
                        return Err(e);
                    },
                };
                proof {
                    lemma_built_searchable(grid, b.digits@);
                    assert(grid.value_seq() == b.digits@);
                    let s = choose|s: Seq<u8>| valid_fill(s) && clues_of(b.digits@, s) && forall|t: Seq<u8>|
                        valid_fill(t) && clues_of(b.digits@, t) ==> t == s;
                    assert(solution@ == s);
                }
                let gen = GeneratedGrid {
                    grid,
                    solution,
                    score: b.score,
                    difficulty: b.difficulty,
                    hardest_technique: b.hardest_technique,
                };
                return Ok(gen);
            },
            None => {},
        }
    }
    Err(SudokuError::GenerateFailed)
}

} // verus!

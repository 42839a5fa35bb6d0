use vstd::prelude::*;
use vstd::relations::injective_on;
use crate::candidate::Candidate;
use crate::grid::Grid;
use crate::grid_constant::{sees, in_house};
use crate::solver::step::{Step, removed};
use crate::solver::brute_force::{searchable, solves, fits, house_holds, valid_fill, lemma_place_solutions,
    lemma_single_forced, lemma_single_candidate};
use crate::solver::locked_candidate::{LockedCandidate, cand_cells, cand_cells_outside};
use crate::solver::common::cand_list;
use crate::solver::wings::seen_by_all;
use crate::solver::xywing::{XYWing, xy_wing};
use crate::solver::wwing::{WWing, w_wing, strong_link};
use crate::solver::skyscraper::{Skyscraper, sky};
use crate::solver::xyzwing::{XYZWing, xyz_wing};
use crate::solver::fish::{Fish, cells_with, fish_fins, fish_targets, fish_shape, bases_placed, size_degree};
use crate::util::permutations::increasing;
use crate::solver::als::{AlsStep, AlsType, AlmostLockedSet, DEFAULT_MAX_ALS_SIZE, digits_in, spans, als_in, value_cells,
    restricted, linked, all_see, targets, chained, end_removal, blossom, cells_key};
use crate::util::digitset::DigitSet;
use crate::solver::complex_fish::{ComplexFish, complex_fins, complex_targets, repeated};
use crate::solver::hidden_set::{HiddenSet, digit_pick, has_places, digit_has_place, hidden_cells, hidden_removals, hidden_target};
use crate::solver::naked_set::{NakedSet, naked_cells, naked_removals, naked_target, union_cands, all_in};
use crate::solver::coloring::{ColoringStep, ColoringType, digit_cells, alternate, either_holds, all_hold, self_seeing,
    lists_cell, seen_from};

verus! {

/// No listed candidate is the digit `s` puts into its cell.
pub open spec fn spares(rm: Seq<Candidate>, s: Seq<u8>) -> bool {
    forall|i: int| 0 <= i < rm.len() ==> s[(#[trigger] rm[i]).0 as int] != rm[i].1
}

/// Two different cells of one house see each other.
pub proof fn lemma_same_house_sees(c: int, d: int, h: int)
    requires
        in_house(c, h),
        in_house(d, h),
        c != d,
    ensures
        sees(c, d),
{
    assert(0 <= c / 9 < 9);
    assert(0 <= d / 9 < 9);
    assert(0 <= c / 27 < 3);
    assert(0 <= d / 27 < 3);
    assert(0 <= c % 9 < 9);
    assert(0 <= d % 9 < 9);
}

/// Taking out candidates that a solution does not use keeps it a solution.
pub proof fn lemma_removal_keeps(old: Grid, new: Grid, rm: Seq<Candidate>, s: Seq<u8>)
    requires
        old.wf(),
        new.wf(),
        removed(old, new, rm),
        solves(old, s),
        spares(rm, s),
    ensures
        solves(new, s),
{
    old.lemma_wf();
    new.lemma_wf();
    assert forall|c: int| 0 <= c < 81 implies #[trigger] fits(new, s, c) by {
        assert(fits(old, s, c));
        assert(new.value_seq()[c] == new.value(c));
        assert(old.value_seq()[c] == old.value(c));
        assert(new.cand_seq()[c] == new.cands(c));
        assert(old.cand_seq()[c] == old.cands(c));
        if old.value(c) == 0 {
            if rm.contains(Candidate(c as u8, s[c])) {
                let i = choose|i: int| 0 <= i < rm.len() && rm[i] == Candidate(c as u8, s[c]);
                assert(s[(rm[i]).0 as int] != rm[i].1);
            }
            assert(old.cands(c).filter(|v: u8| !rm.contains(Candidate(c as u8, v))).contains(s[c]));
        }
    }
}

/// A digit held by a cell of a house is, in a solution, not in any empty cell of that
/// house with it as a candidate; so where a house has a candidate of a digit, a
/// solution puts the digit into one of its empty cells with that candidate.
pub proof fn lemma_digit_in_candidate_cell(g: Grid, s: Seq<u8>, h: int, v: u8, e: int) -> (d: int)
    requires
        searchable(g),
        solves(g, s),
        0 <= h < 27,
        1 <= v <= 9,
        in_house(e, h),
        g.has_cand(e, v),
    ensures
        in_house(d, h),
        g.has_cand(d, v),
        s[d] == v,
{
    g.lemma_wf();
    assert(house_holds(s, h, v));
    let d = choose|d: int| #[trigger] in_house(d, h) && s[d] == v;
    assert(fits(g, s, d));
    if g.value(d) != 0 {
        lemma_same_house_sees(e, d, h);
        assert(!g.cands(e).contains(g.value(d)));
    }
    d
}

/// A locked candidate removes no digit of a solution: the digit of `house` lies in
/// `common_house`, so the rest of `common_house` cannot hold it.
pub proof fn lemma_locked_spares(g: Grid, l: LockedCandidate, s: Seq<u8>)
    requires
        searchable(g),
        l.pattern(g),
        solves(g, s),
    ensures
        spares(l.remove_candidates@, s),
{
    let v = l.digit();
    let h = l.house as int;
    let k = l.common_house as int;
    let e = l.highlight_candidates@[0].0;
    assert(cand_cells(g, h, v).contains(e));
    let d = lemma_digit_in_candidate_cell(g, s, h, v, e as int);
    assert(in_house(d, k));
    assert forall|i: int| 0 <= i < l.remove_candidates@.len() implies s[(#[trigger] l.remove_candidates@[i]).0 as int]
        != l.remove_candidates@[i].1 by {
        let c = l.remove_candidates@[i].0;
        assert(cand_cells_outside(g, k, h, v).contains(c));
        lemma_same_house_sees(c as int, d, k);
        assert(valid_fill(s));
        assert(sees(c as int, d));
    }
}

/// In a solution, the cells of a naked set hold all of its digits.
pub proof fn lemma_naked_digits_placed(g: Grid, h: int, k: int, cs: Seq<u8>, s: Seq<u8>, v: u8)
    requires
        searchable(g),
        solves(g, s),
        naked_cells(g, h, k, cs),
        union_cands(g, cs).contains(v),
    ensures
        exists|i: int| 0 <= i < cs.len() && s[cs[i] as int] == v,
{
    g.lemma_wf();
    let w = Seq::new(cs.len(), |i: int| s[cs[i] as int]);
    assert(w.no_duplicates()) by {
        assert forall|i: int, j: int| 0 <= i < w.len() && 0 <= j < w.len() && i != j implies w[i] != w[j] by {
            assert(in_house(cs[i] as int, h));
            assert(in_house(cs[j] as int, h));
            if i < j {
                assert(cs[i] < cs[j]);
            } else {
                assert(cs[j] < cs[i]);
            }
            lemma_same_house_sees(cs[i] as int, cs[j] as int, h);
        }
    }
    w.unique_seq_to_set();
    vstd::seq_lib::seq_to_set_is_finite(w);
    assert(w.to_set().subset_of(union_cands(g, cs))) by {
        assert forall|x: u8| w.to_set().contains(x) implies union_cands(g, cs).contains(x) by {
            let i = choose|i: int| 0 <= i < w.len() && w[i] == x;
            assert(in_house(cs[i] as int, h));
            assert(fits(g, s, cs[i] as int));
            assert(g.cands(cs[i] as int).contains(x));
        }
    }
    vstd::set_lib::lemma_subset_equality(w.to_set(), union_cands(g, cs));
    assert(w.to_set().contains(v));
    let i = choose|i: int| 0 <= i < w.len() && w[i] == v;
    assert(s[cs[i] as int] == v);
}

/// A naked set removes no digit of a solution: its digits fill its cells, so no other
/// cell of a house holding them all can take one.
pub proof fn lemma_naked_spares(g: Grid, n: NakedSet, s: Seq<u8>)
    requires
        searchable(g),
        n.pattern(g),
        solves(g, s),
    ensures
        spares(n.remove_candidates@, s),
{
    let cs = choose|cs: Seq<u8>|
        #[trigger] naked_cells(g, n.house as int, n.degree as int, cs) && naked_removals(g, cs, n.remove_candidates@) && (
        n.locked_house matches Some(l) ==> l < 27 && l != n.house && all_in(cs, l as int));
    let rm = n.remove_candidates@;
    assert forall|i: int| 0 <= i < rm.len() implies s[(#[trigger] rm[i]).0 as int] != rm[i].1 by {
        let c = rm[i].0 as int;
        let v = rm[i].1;
        assert(naked_target(g, cs, c, v));
        lemma_naked_digits_placed(g, n.house as int, n.degree as int, cs, s, v);
        let j = choose|j: int| 0 <= j < cs.len() && s[cs[j] as int] == v;
        let h2 = choose|h2: int| 0 <= h2 < 27 && #[trigger] in_house(c, h2) && all_in(cs, h2);
        assert(in_house(cs[j] as int, h2));
        assert(cs[j] as int != c) by {
            assert(cs.contains(cs[j]));
        }
        lemma_same_house_sees(c, cs[j] as int, h2);
        assert(valid_fill(s));
        assert(sees(c, cs[j] as int));
    }
}

/// The cells `0..81` form a finite set.
pub proof fn lemma_cells_finite()
    ensures
        Set::new(|c: u8| c < 81).finite(),
{
    let q = Seq::new(81, |i: int| i as u8);
    assert(q.to_set() =~= Set::new(|c: u8| c < 81)) by {
        assert forall|c: u8| c < 81 implies q.to_set().contains(c) by {
            assert(q[c as int] == c);
        }
    }
    vstd::seq_lib::seq_to_set_is_finite(q);
}

/// A set of two elements that holds `a` and `b` holds nothing else.
pub proof fn lemma_pair_members(set: Set<u8>, a: u8, b: u8, x: u8)
    requires
        set.finite(),
        set.len() == 2,
        set.contains(a),
        set.contains(b),
        a != b,
        set.contains(x),
    ensures
        x == a || x == b,
{
    let t = Set::<u8>::empty().insert(a).insert(b);
    assert(t.len() == 2);
    vstd::set_lib::lemma_subset_equality(t, set);
}

/// A set with one element has one.
pub proof fn lemma_some_member(set: Set<u8>) -> (x: u8)
    requires
        set.finite(),
        set.len() > 0,
    ensures
        set.contains(x),
{
    if !(exists|x: u8| set.contains(x)) {
        assert(set =~= Set::<u8>::empty());
    }
    choose|x: u8| set.contains(x)
}

/// An XY-Wing removes no digit of a solution: one of its wings holds `z`.
pub proof fn lemma_xy_wing_spares(g: Grid, w: XYWing, sol: Seq<u8>)
    requires
        searchable(g),
        w.pattern(g),
        solves(g, sol),
    ensures
        spares(w.remove_candidates@, sol),
{
    g.lemma_wf();
    let (p, f, t, z) = choose|p: u8, f: u8, t: u8, z: u8|
        #[trigger] xy_wing(g, p, f, t, z) && cand_list(w.remove_candidates@, z, seen_by_all(g, seq![f, t], z))
            && w.remove_candidates@.len() > 0;
    g.lemma_cands_finite(p as int);
    g.lemma_cands_finite(f as int);
    assert(fits(g, sol, p as int));
    assert(fits(g, sol, f as int));
    assert(fits(g, sol, t as int));
    assert(valid_fill(sol));
    let x = sol[p as int];
    assert(sol[f as int] == z || sol[t as int] == z) by {
        if g.cands(f as int).contains(x) {
            assert(sees(p as int, f as int));
            lemma_pair_members(g.cands(f as int), x, z, sol[f as int]);
        } else {
            let both = g.cands(p as int).intersect(g.cands(f as int));
            vstd::set_lib::lemma_len_subset(both, g.cands(p as int));
            let a = lemma_some_member(both);
            assert forall|y: u8| g.cands(t as int).contains(y) implies y == x || y == z by {
                if y != z {
                    assert(g.cands(p as int).contains(y) && !g.cands(f as int).contains(y));
                    lemma_pair_members(g.cands(p as int), a, x, y);
                }
            }
            assert(sees(p as int, t as int));
        }
    }
    let rm = w.remove_candidates@;
    assert forall|i: int| 0 <= i < rm.len() implies sol[(#[trigger] rm[i]).0 as int] != rm[i].1 by {
        let c = rm[i].0;
        assert(seen_by_all(g, seq![f, t], z).contains(c));
        assert(sees(seq![f, t][0] as int, c as int));
        assert(sees(seq![f, t][1] as int, c as int));
    }
}

/// A W-Wing removes no digit of a solution: one of its two cells holds `r`.
pub proof fn lemma_w_wing_spares(g: Grid, w: WWing, sol: Seq<u8>)
    requires
        searchable(g),
        w.pattern(g),
        solves(g, sol),
    ensures
        spares(w.remove_candidates@, sol),
{
    g.lemma_wf();
    let (a, b, r, l, lf, ls) = choose|a: u8, b: u8, r: u8, l: u8, lf: u8, ls: u8|
        #[trigger] w_wing(g, a, b, r, l, lf, ls) && cand_list(w.remove_candidates@, r, seen_by_all(g, seq![a, b], r))
            && w.remove_candidates@.len() > 0;
    g.lemma_cands_finite(a as int);
    assert(fits(g, sol, a as int));
    assert(fits(g, sol, b as int));
    assert(valid_fill(sol));
    assert(sol[a as int] == r || sol[b as int] == r) by {
        lemma_pair_members(g.cands(a as int), r, l, sol[a as int]);
        lemma_pair_members(g.cands(a as int), r, l, sol[b as int]);
        if sol[a as int] == l {
            let h = choose|h: int|
                0 <= h < 27 && #[trigger] cand_cells(g, h, l).len() == 2 && cand_cells(g, h, l).contains(lf) && cand_cells(
                    g,
                    h,
                    l,
                ).contains(ls) && lf != ls && sees(a as int, lf as int) && sees(b as int, ls as int);
            let d = lemma_digit_in_candidate_cell(g, sol, h, l, lf as int);
            lemma_cells_finite();
            vstd::set_lib::lemma_len_subset(cand_cells(g, h, l), Set::new(|c: u8| c < 81));
            assert(cand_cells(g, h, l).contains(d as u8));
            lemma_pair_members(cand_cells(g, h, l), lf, ls, d as u8);
            assert(sol[lf as int] != l);
            assert(sol[b as int] != sol[ls as int]);
        }
    }
    let rm = w.remove_candidates@;
    assert forall|i: int| 0 <= i < rm.len() implies sol[(#[trigger] rm[i]).0 as int] != rm[i].1 by {
        let c = rm[i].0;
        assert(seen_by_all(g, seq![a, b], r).contains(c));
        assert(sees(seq![a, b][0] as int, c as int));
        assert(sees(seq![a, b][1] as int, c as int));
    }
}

/// A skyscraper removes no digit of a solution: the two bases cannot both hold the
/// digit, so one of the fins does.
pub proof fn lemma_skyscraper_spares(g: Grid, k: Skyscraper, sol: Seq<u8>)
    requires
        searchable(g),
        k.pattern(g),
        solves(g, sol),
    ensures
        spares(k.remove_candidates@, sol),
{
    g.lemma_wf();
    let v = k.value;
    let (h1, h2, x, b1, f1, b2, f2) = choose|h1: int, h2: int, x: int, b1: u8, f1: u8, b2: u8, f2: u8|
        #[trigger] sky(g, v, h1, h2, x, b1, f1, b2, f2) && cand_list(k.remove_candidates@, v, seen_by_all(g, seq![f1, f2], v))
            && k.remove_candidates@.len() > 0;
    assert(valid_fill(sol));
    assert(sol[f1 as int] == v || sol[f2 as int] == v) by {
        assert(cand_cells(g, h1, v).contains(b1));
        assert(cand_cells(g, h2, v).contains(b2));
        let d1 = lemma_digit_in_candidate_cell(g, sol, h1, v, b1 as int);
        let d2 = lemma_digit_in_candidate_cell(g, sol, h2, v, b2 as int);
        assert(cand_cells(g, h1, v).contains(d1 as u8));
        assert(cand_cells(g, h2, v).contains(d2 as u8));
        if d1 == b1 as int && d2 == b2 as int {
            assert(b1 != b2);
            lemma_same_house_sees(b1 as int, b2 as int, x);
        }
    }
    let rm = k.remove_candidates@;
    assert forall|i: int| 0 <= i < rm.len() implies sol[(#[trigger] rm[i]).0 as int] != rm[i].1 by {
        let c = rm[i].0;
        assert(seen_by_all(g, seq![f1, f2], v).contains(c));
        assert(sees(seq![f1, f2][0] as int, c as int));
        assert(sees(seq![f1, f2][1] as int, c as int));
    }
}

/// An XYZ-Wing removes no digit of a solution: the pivot or one of its wings holds `z`.
pub proof fn lemma_xyz_wing_spares(g: Grid, w: XYZWing, sol: Seq<u8>)
    requires
        searchable(g),
        w.pattern(g),
        solves(g, sol),
    ensures
        spares(w.remove_candidates@, sol),
{
    g.lemma_wf();
    let (p, f, t, z) = choose|p: u8, f: u8, t: u8, z: u8|
        #[trigger] xyz_wing(g, p, f, t, z) && cand_list(w.remove_candidates@, z, seen_by_all(g, seq![p, f, t], z))
            && w.remove_candidates@.len() > 0;
    g.lemma_cands_finite(f as int);
    g.lemma_cands_finite(t as int);
    assert(fits(g, sol, p as int));
    assert(fits(g, sol, f as int));
    assert(fits(g, sol, t as int));
    assert(valid_fill(sol));
    assert(g.cands(f as int).intersect(g.cands(t as int)).contains(z));
    assert(sol[p as int] == z || sol[f as int] == z || sol[t as int] == z) by {
        let x = sol[p as int];
        assert(g.cands(f as int).union(g.cands(t as int)).contains(x));
        if g.cands(f as int).contains(x) && sol[f as int] != z {
            assert(sees(p as int, f as int));
            lemma_pair_members(g.cands(f as int), sol[f as int], z, x);
        } else if g.cands(t as int).contains(x) && sol[t as int] != z {
            assert(sees(p as int, t as int));
            lemma_pair_members(g.cands(t as int), sol[t as int], z, x);
        }
    }
    let rm = w.remove_candidates@;
    assert forall|i: int| 0 <= i < rm.len() implies sol[(#[trigger] rm[i]).0 as int] != rm[i].1 by {
        let c = rm[i].0;
        assert(seen_by_all(g, seq![p, f, t], z).contains(c));
        assert(sees(seq![p, f, t][0] as int, c as int));
        assert(sees(seq![p, f, t][1] as int, c as int));
        assert(sees(seq![p, f, t][2] as int, c as int));
    }
}

/// The cell where a solution puts digit `v` in house `h`, when `v` has a candidate there.
pub open spec fn place_of(g: Grid, sol: Seq<u8>, h: int, v: u8) -> int {
    choose|d: int| in_house(d, h) && g.has_cand(d, v) && sol[d] == v
}

/// In a solution, the cells of a hidden set hold its digits only.
pub proof fn lemma_hidden_cells_filled(g: Grid, h: int, vs: Seq<u8>, sol: Seq<u8>, c: u8)
    requires
        searchable(g),
        solves(g, sol),
        0 <= h < 27,
        digit_pick(vs, vs.len() as int),
        has_places(g, h, vs),
        hidden_cells(g, h, vs).len() == vs.len(),
        hidden_cells(g, h, vs).contains(c),
    ensures
        vs.contains(sol[c as int]),
{
    let k = vs.len() as int;
    let cells = hidden_cells(g, h, vs);
    assert forall|i: int| 0 <= i < k implies in_house(#[trigger] place_of(g, sol, h, vs[i]), h) && g.has_cand(
        place_of(g, sol, h, vs[i]),
        vs[i],
    ) && sol[place_of(g, sol, h, vs[i])] == vs[i] by {
        assert(digit_has_place(g, h, vs[i]));
        let e = choose|e: int| in_house(e, h) && #[trigger] g.has_cand(e, vs[i]);
        let d = lemma_digit_in_candidate_cell(g, sol, h, vs[i], e);
    }
    let places = Seq::new(vs.len(), |i: int| place_of(g, sol, h, vs[i]) as u8);
    assert(places.no_duplicates()) by {
        assert forall|i: int, j: int| 0 <= i < k && 0 <= j < k && i != j implies places[i] != places[j] by {
            assert(in_house(place_of(g, sol, h, vs[i]), h));
            assert(in_house(place_of(g, sol, h, vs[j]), h));
            if i < j {
                assert(vs[i] < vs[j]);
            } else {
                assert(vs[j] < vs[i]);
            }
        }
    }
    places.unique_seq_to_set();
    vstd::seq_lib::seq_to_set_is_finite(places);
    assert(places.to_set().subset_of(cells)) by {
        assert forall|x: u8| places.to_set().contains(x) implies cells.contains(x) by {
            let i = choose|i: int| 0 <= i < k && places[i] == x;
            assert(in_house(place_of(g, sol, h, vs[i]), h));
            assert(g.has_cand(x as int, vs[i]));
        }
    }
    lemma_cells_finite();
    vstd::set_lib::lemma_len_subset(cells, Set::new(|x: u8| x < 81));
    vstd::set_lib::lemma_subset_equality(places.to_set(), cells);
    assert(places.to_set().contains(c));
    let i = choose|i: int| 0 <= i < k && places[i] == c;
    assert(in_house(place_of(g, sol, h, vs[i]), h));
    assert(sol[c as int] == vs[i]);
}

/// A hidden set removes no digit of a solution: its digits fill its cells.
pub proof fn lemma_hidden_spares(g: Grid, n: HiddenSet, sol: Seq<u8>)
    requires
        searchable(g),
        n.pattern(g),
        solves(g, sol),
    ensures
        spares(n.remove_candidates@, sol),
{
    let h = n.house as int;
    let vs = choose|vs: Seq<u8>|
        #[trigger] digit_pick(vs, n.degree as int) && has_places(g, h, vs) && hidden_cells(g, h, vs).len() == n.degree
            && hidden_removals(g, h, vs, n.remove_candidates@);
    let rm = n.remove_candidates@;
    assert forall|i: int| 0 <= i < rm.len() implies sol[(#[trigger] rm[i]).0 as int] != rm[i].1 by {
        assert(hidden_target(g, h, vs, rm[i].0 as int, rm[i].1));
        lemma_hidden_cells_filled(g, h, vs, sol, rm[i].0);
    }
}

/// Two cells of different lines of one kind (both rows or both columns) differ.
proof fn lemma_lines_apart(a: int, b: int, x: int, y: int)
    requires
        0 <= a < 81,
        0 <= b < 81,
        in_house(a, x),
        in_house(b, y),
        x != y,
        (x < 9 && y < 9) || (9 <= x < 18 && 9 <= y < 18),
    ensures
        a != b,
{
    assert(0 <= a / 9 < 9);
    assert(0 <= a / 27 < 3);
    assert(0 <= a % 9 < 9);
    assert(0 <= b / 9 < 9);
    assert(0 <= b / 27 < 3);
    assert(0 <= b % 9 < 9);
}

/// The cover line that holds the solution's digit of base line `i`.
pub open spec fn cover_of(g: Grid, sol: Seq<u8>, f: Fish, i: int) -> int {
    choose|t: int| 0 <= t < f.covers@.len() && in_house(place_of(g, sol, f.basics@[i] as int, f.value), f.covers@[t] as int)
}

/// A fish removes no digit of a solution: the digit of each base line lies in a cover
/// line (a fin would see the removed cell), and these are as many different cover lines
/// as there are bases, so each cover line holds its digit there.
pub proof fn lemma_fish_spares(g: Grid, f: Fish, sol: Seq<u8>)
    requires
        searchable(g),
        f.pattern(g),
        solves(g, sol),
    ensures
        spares(f.remove_candidates@, sol),
{
    g.lemma_wf();
    let v = f.value;
    let bs = f.basics@;
    let cs = f.covers@;
    let k = size_degree(f.fish_type.size) as int;
    let rm = f.remove_candidates@;
    assert(valid_fill(sol));
    assert forall|i: int| 0 <= i < k implies in_house(#[trigger] place_of(g, sol, bs[i] as int, v), bs[i] as int) && g.has_cand(
        place_of(g, sol, bs[i] as int, v),
        v,
    ) && sol[place_of(g, sol, bs[i] as int, v)] == v by {
        assert(digit_has_place(g, bs[i] as int, v));
        let e = choose|e: int| in_house(e, bs[i] as int) && #[trigger] g.has_cand(e, v);
        let d = lemma_digit_in_candidate_cell(g, sol, bs[i] as int, v, e);
    }
    assert forall|r: int| 0 <= r < rm.len() implies sol[(#[trigger] rm[r]).0 as int] != rm[r].1 by {
        let c = rm[r].0;
        assert(fish_targets(g, v, bs, cs).contains(c));
        if sol[c as int] == v {
            let j = choose|j: int| 0 <= j < cs.len() && in_house(c as int, #[trigger] cs[j] as int);
            assert forall|i: int| 0 <= i < k implies 0 <= #[trigger] cover_of(g, sol, f, i) < k && cover_of(g, sol, f, i) != j
                && in_house(place_of(g, sol, bs[i] as int, v), cs[cover_of(g, sol, f, i)] as int) by {
                let p = place_of(g, sol, bs[i] as int, v);
                assert(in_house(p, bs[i] as int));
                assert(0 <= p < 81);
                assert(cells_with(g, bs, v).contains(p as u8));
                if !cells_with(g, cs, v).contains(p as u8) {
                    assert(fish_fins(g, v, bs, cs).contains(p as u8));
                    assert(sees(p, c as int));
                }
                let t = choose|t: int| 0 <= t < cs.len() && in_house(p, #[trigger] cs[t] as int);
                assert(p != c as int) by {
                    if p == c as int {
                        assert(cells_with(g, bs, v).contains(c));
                    }
                }
                if cover_of(g, sol, f, i) == j {
                    lemma_same_house_sees(p, c as int, cs[j] as int);
                }
            }
            let tseq = Seq::new(k as nat, |i: int| cover_of(g, sol, f, i));
            assert(tseq.no_duplicates()) by {
                assert forall|a: int, b: int| 0 <= a < k && 0 <= b < k && a != b implies tseq[a] != tseq[b] by {
                    let pa = place_of(g, sol, bs[a] as int, v);
                    let pb = place_of(g, sol, bs[b] as int, v);
                    assert(in_house(pa, bs[a] as int));
                    assert(in_house(pb, bs[b] as int));
                    assert(0 <= pa < 81 && 0 <= pb < 81);
                    assert(bs[a] != bs[b]) by {
                        if a < b {
                            assert(bs[a] < bs[b]);
                        } else {
                            assert(bs[b] < bs[a]);
                        }
                    }
                    lemma_lines_apart(pa, pb, bs[a] as int, bs[b] as int);
                    if tseq[a] == tseq[b] {
                        assert(0 <= cover_of(g, sol, f, a) < k);
                        assert(0 <= cover_of(g, sol, f, b) < k);
                        lemma_same_house_sees(pa, pb, cs[tseq[a]] as int);
                    }
                }
            }
            tseq.unique_seq_to_set();
            let room = vstd::set_lib::set_int_range(0, k).remove(j);
            vstd::set_lib::lemma_int_range(0, k);
            assert(tseq.to_set().subset_of(room)) by {
                assert forall|x: int| tseq.to_set().contains(x) implies room.contains(x) by {
                    let i = choose|i: int| 0 <= i < tseq.len() && tseq[i] == x;
                    assert(0 <= cover_of(g, sol, f, i) < k);
                }
            }
            vstd::set_lib::lemma_len_subset(tseq.to_set(), room);
        }
    }
}

/// Some cell of the set holds digit `d` in `sol`.
pub open spec fn set_holds(sol: Seq<u8>, a: AlmostLockedSet, d: u8) -> bool {
    exists|c: u8| a.cells@.contains(c) && #[trigger] sol[c as int] == d
}

/// In a solution, an almost locked set that does not hold one of its digits holds all
/// the others: its cells take as many different digits as there are cells.
pub proof fn lemma_als_holds_rest(g: Grid, a: AlmostLockedSet, sol: Seq<u8>, y: u8, z: u8)
    requires
        searchable(g),
        solves(g, sol),
        a.found_in(g, DEFAULT_MAX_ALS_SIZE as nat),
        a.values@.contains(y),
        a.values@.contains(z),
        y != z,
        !set_holds(sol, a, y),
    ensures
        set_holds(sol, a, z),
{
    g.lemma_wf();
    let cells = a.cells@;
    let h = a.house as int;
    let f = |c: u8| sol[c as int];
    assert(injective_on(f, cells)) by {
        assert forall|x1: u8, x2: u8| cells.contains(x1) && cells.contains(x2) && #[trigger] f(x1) == #[trigger] f(x2) implies x1 == x2 by {
            if x1 != x2 {
                assert(in_house(x1 as int, h));
                assert(in_house(x2 as int, h));
                lemma_same_house_sees(x1 as int, x2 as int, h);
                assert(valid_fill(sol));
            }
        }
    }
    let w = cells.map(f);
    vstd::set_lib::lemma_map_size(cells, w, f);
    DigitSet::lemma_bounds(a.values);
    let room = a.values@.remove(y);
    assert(w.subset_of(room)) by {
        assert forall|x: u8| w.contains(x) implies room.contains(x) by {
            let c = choose|c: u8| cells.contains(c) && x == f(c);
            assert(in_house(c as int, h));
            assert(g.value(c as int) == 0);
            assert(fits(g, sol, c as int));
            assert(g.cands(c as int).contains(x));
            assert(digits_in(g, cells).contains(x));
            if x == y {
                assert(sol[c as int] == y);
            }
        }
    }
    vstd::set_lib::lemma_subset_equality(w, room);
    assert(room.contains(z));
    assert(w.contains(z));
    let c = choose|c: u8| cells.contains(c) && z == f(c);
    assert(sol[c as int] == z);
}

/// A cell of a set holding digit `d` in a solution has it as a candidate.
pub proof fn lemma_holder_is_candidate(g: Grid, a: AlmostLockedSet, sol: Seq<u8>, c: u8)
    requires
        searchable(g),
        solves(g, sol),
        a.found_in(g, DEFAULT_MAX_ALS_SIZE as nat),
        a.cells@.contains(c),
    ensures
        value_cells(g, a.cells@, sol[c as int]).contains(c),
{
    g.lemma_wf();
    assert(in_house(c as int, a.house as int));
    assert(g.value(c as int) == 0);
    assert(fits(g, sol, c as int));
}

/// Of two sets linked by a restricted common candidate, at most one holds it.
pub proof fn lemma_linked_once(g: Grid, a: AlmostLockedSet, b: AlmostLockedSet, sol: Seq<u8>, x: u8)
    requires
        searchable(g),
        solves(g, sol),
        a.found_in(g, DEFAULT_MAX_ALS_SIZE as nat),
        b.found_in(g, DEFAULT_MAX_ALS_SIZE as nat),
        linked(g, a, b, x),
        set_holds(sol, a, x),
    ensures
        !set_holds(sol, b, x),
{
    if set_holds(sol, b, x) {
        let ca = choose|c: u8| a.cells@.contains(c) && #[trigger] sol[c as int] == x;
        let cb = choose|c: u8| b.cells@.contains(c) && #[trigger] sol[c as int] == x;
        lemma_holder_is_candidate(g, a, sol, ca);
        lemma_holder_is_candidate(g, b, sol, cb);
        assert(valid_fill(sol));
        if restricted(g, a, b, x) {
            assert(sees(ca as int, cb as int));
        } else {
            assert(sees(cb as int, ca as int));
        }
    }
}

/// Along a chain of sets, a set that holds the digit of its link to the next makes the
/// last set hold every digit but that of the last link.
pub proof fn lemma_chain_forward(g: Grid, sets: Seq<AlmostLockedSet>, rccs: Seq<crate::solver::als::RestrictedCommonCandidate>, sol: Seq<u8>, i: int, d: u8)
    requires
        searchable(g),
        solves(g, sol),
        forall|k: int| 0 <= k < sets.len() ==> (#[trigger] sets[k]).found_in(g, DEFAULT_MAX_ALS_SIZE as nat),
        chained(g, sets, rccs),
        0 <= i < rccs.len(),
        set_holds(sol, sets[i], rccs[i].value),
        sets.last().values@.contains(d),
        d != rccs.last().value,
    ensures
        set_holds(sol, sets.last(), d),
    decreases rccs.len() - i,
{
    assert(linked(g, sets[i], sets[i + 1], rccs[i].value));
    lemma_linked_once(g, sets[i], sets[i + 1], sol, rccs[i].value);
    let x = rccs[i].value;
    assert(sets[i + 1].values@.contains(x));
    if i + 1 == rccs.len() {
        assert(sets.last() == sets[i + 1]);
        lemma_als_holds_rest(g, sets[i + 1], sol, x, d);
    } else {
        let next = rccs[i + 1].value;
        assert(linked(g, sets[i + 1], sets[i + 2], next));
        assert(next != x);
        assert(sets[i + 1].values@.contains(next));
        lemma_als_holds_rest(g, sets[i + 1], sol, x, next);
        lemma_chain_forward(g, sets, rccs, sol, i + 1, d);
    }
}

/// A step of almost locked sets removes no digit of a solution: one of the end sets (for
/// a death blossom, the petal of the stem's digit) holds the removed digit in a cell
/// that the removed cell sees.
pub proof fn lemma_als_spares(g: Grid, step: AlsStep, sol: Seq<u8>)
    requires
        searchable(g),
        step.pattern(g),
        solves(g, sol),
    ensures
        spares(step.remove_candidates@, sol),
{
    g.lemma_wf();
    assert(valid_fill(sol));
    let sets = step.sets@;
    let rccs = step.rccs@;
    let rm = step.remove_candidates@;
    match step.als_type {
        AlsType::DeathBlossom => {
            let (stem, z) = choose|stem: u8, z: u8| #[trigger] blossom(g, sets, stem, z) && cand_list(rm, z, targets(g, sets, z));
            let digits = cells_key(g.cands(stem as int));
            crate::solver::als::lemma_cells_key(g.cands(stem as int));
            assert(fits(g, sol, stem as int));
            let sd = sol[stem as int];
            assert(digits.to_set().contains(sd));
            let k = choose|k: int| 0 <= k < digits.len() && digits[k] == sd;
            let petal = sets[k];
            assert(petal.values@.contains(sd)) by {
                let vc = value_cells(g, petal.cells@, digits[k]);
                let c = lemma_some_member_any(vc);
                assert(digits_in(g, petal.cells@).contains(sd)) by {
                    assert(g.cands(c as int).contains(sd));
                }
            }
            assert(!set_holds(sol, petal, sd)) by {
                if set_holds(sol, petal, sd) {
                    let c = choose|c: u8| petal.cells@.contains(c) && #[trigger] sol[c as int] == sd;
                    lemma_holder_is_candidate(g, petal, sol, c);
                    assert(sees(stem as int, c as int));
                }
            }
            assert(sd != z);
            lemma_als_holds_rest(g, petal, sol, sd, z);
            let d = choose|c: u8| petal.cells@.contains(c) && #[trigger] sol[c as int] == z;
            lemma_holder_is_candidate(g, petal, sol, d);
            assert forall|r: int| 0 <= r < rm.len() implies sol[(#[trigger] rm[r]).0 as int] != rm[r].1 by {
                let c = rm[r].0;
                assert(targets(g, sets, z).contains(c));
                assert(value_cells(g, sets[k].cells@, z).contains(d));
                assert(sees(d as int, c as int));
            }
        },
        _ => {
            let z = choose|z: u8| #[trigger] end_removal(g, sets, rccs, rm, z);
            let first = sets[0];
            let last = sets.last();
            assert(first.found_in(g, DEFAULT_MAX_ALS_SIZE as nat));
            assert(last.found_in(g, DEFAULT_MAX_ALS_SIZE as nat));
            let holder = if set_holds(sol, first, z) {
                first
            } else {
                assert(linked(g, sets[0], sets[1], rccs[0].value));
                assert(first.values@.contains(rccs[0].value));
                lemma_als_holds_rest(g, first, sol, z, rccs[0].value);
                lemma_chain_forward(g, sets, rccs, sol, 0, z);
                last
            };
            assert(set_holds(sol, holder, z));
            let d = choose|c: u8| holder.cells@.contains(c) && #[trigger] sol[c as int] == z;
            lemma_holder_is_candidate(g, holder, sol, d);
            let ends = seq![first, last];
            assert forall|r: int| 0 <= r < rm.len() implies sol[(#[trigger] rm[r]).0 as int] != rm[r].1 by {
                let c = rm[r].0;
                assert(targets(g, ends, z).contains(c));
                if holder == first {
                    assert(value_cells(g, ends[0].cells@, z).contains(d));
                } else {
                    assert(value_cells(g, ends[1].cells@, z).contains(d));
                }
                assert(sees(d as int, c as int));
            }
        },
    }
}

/// A set that is not empty has an element.
pub proof fn lemma_some_member_any(set: Set<u8>) -> (x: u8)
    requires
        set != Set::<u8>::empty(),
    ensures
        set.contains(x),
{
    if !(exists|x: u8| set.contains(x)) {
        assert(set =~= Set::<u8>::empty());
    }
    choose|x: u8| set.contains(x)
}

/// The cover house that holds the solution's digit of base house `i` of a complex fish.
pub open spec fn complex_cover_of(g: Grid, sol: Seq<u8>, f: ComplexFish, i: int) -> int {
    choose|t: int| 0 <= t < f.covers@.len() && in_house(place_of(g, sol, f.basics@[i] as int, f.value), f.covers@[t] as int)
}

/// A complex fish removes no digit of a solution: the digit of each base house lies in
/// one base only and in a cover (a fin would see the removed cell), and these are as many
/// different cover houses as there are bases.
pub proof fn lemma_complex_fish_spares(g: Grid, f: ComplexFish, sol: Seq<u8>)
    requires
        searchable(g),
        f.pattern(g),
        solves(g, sol),
    ensures
        spares(f.remove_candidates@, sol),
{
    g.lemma_wf();
    let v = f.value;
    let bs = f.basics@;
    let cs = f.covers@;
    let k = f.degree as int;
    let rm = f.remove_candidates@;
    assert(valid_fill(sol));
    assert forall|i: int| 0 <= i < k implies in_house(#[trigger] place_of(g, sol, bs[i] as int, v), bs[i] as int) && g.has_cand(
        place_of(g, sol, bs[i] as int, v),
        v,
    ) && sol[place_of(g, sol, bs[i] as int, v)] == v by {
        assert(digit_has_place(g, bs[i] as int, v));
        let e = choose|e: int| in_house(e, bs[i] as int) && #[trigger] g.has_cand(e, v);
        let d = lemma_digit_in_candidate_cell(g, sol, bs[i] as int, v, e);
    }
    assert forall|r: int| 0 <= r < rm.len() implies sol[(#[trigger] rm[r]).0 as int] != rm[r].1 by {
        let c = rm[r].0;
        assert(complex_targets(g, v, bs, cs).contains(c));
        if sol[c as int] == v {
            let j = if cells_with(g, cs, v).difference(cells_with(g, bs, v)).contains(c) {
                choose|j: int| 0 <= j < cs.len() && in_house(c as int, #[trigger] cs[j] as int)
            } else {
                let (a, b) = choose|a: int, b: int|
                    0 <= a < b < cs.len() && #[trigger] in_house(c as int, cs[a] as int) && #[trigger] in_house(c as int, cs[b] as int);
                a
            };
            assert(0 <= j < k && in_house(c as int, cs[j] as int));
            assert(!cells_with(g, bs, v).contains(c));
            assert forall|i: int| 0 <= i < k implies 0 <= #[trigger] complex_cover_of(g, sol, f, i) < k && complex_cover_of(g, sol, f, i)
                != j && in_house(place_of(g, sol, bs[i] as int, v), cs[complex_cover_of(g, sol, f, i)] as int) by {
                let p = place_of(g, sol, bs[i] as int, v);
                assert(in_house(p, bs[i] as int));
                assert(0 <= p < 81);
                assert(cells_with(g, bs, v).contains(p as u8));
                if !cells_with(g, cs, v).contains(p as u8) {
                    assert(complex_fins(g, v, bs, cs).contains(p as u8));
                    assert(sees(p, c as int));
                }
                let t = choose|t: int| 0 <= t < cs.len() && in_house(p, #[trigger] cs[t] as int);
                assert(p != c as int) by {
                    if p == c as int {
                        assert(cells_with(g, bs, v).contains(c));
                    }
                }
                if complex_cover_of(g, sol, f, i) == j {
                    lemma_same_house_sees(p, c as int, cs[j] as int);
                }
            }
            let tseq = Seq::new(k as nat, |i: int| complex_cover_of(g, sol, f, i));
            assert(tseq.no_duplicates()) by {
                assert forall|a: int, b: int| 0 <= a < k && 0 <= b < k && a != b implies tseq[a] != tseq[b] by {
                    let pa = place_of(g, sol, bs[a] as int, v);
                    let pb = place_of(g, sol, bs[b] as int, v);
                    assert(in_house(pa, bs[a] as int));
                    assert(in_house(pb, bs[b] as int));
                    assert(0 <= pa < 81 && 0 <= pb < 81);
                    if pa == pb {
                        let (lo, hi) = if a < b { (a, b) } else { (b, a) };
                        assert(in_house(pa, bs[lo] as int) && in_house(pa, bs[hi] as int));
                        assert(repeated(g, bs, v).contains(pa as u8));
                        assert(complex_fins(g, v, bs, cs).contains(pa as u8));
                        assert(sees(pa, c as int));
                    }
                    if tseq[a] == tseq[b] {
                        assert(0 <= complex_cover_of(g, sol, f, a) < k);
                        assert(0 <= complex_cover_of(g, sol, f, b) < k);
                        lemma_same_house_sees(pa, pb, cs[tseq[a]] as int);
                    }
                }
            }
            tseq.unique_seq_to_set();
            let room = vstd::set_lib::set_int_range(0, k).remove(j);
            vstd::set_lib::lemma_int_range(0, k);
            assert(tseq.to_set().subset_of(room)) by {
                assert forall|x: int| tseq.to_set().contains(x) implies room.contains(x) by {
                    let i = choose|i: int| 0 <= i < tseq.len() && tseq[i] == x;
                    assert(0 <= complex_cover_of(g, sol, f, i) < k);
                }
            }
            vstd::set_lib::lemma_len_subset(tseq.to_set(), room);
        }
    }
}

/// A colouring removes no digit of a solution: a colour two of whose cells see each
/// other cannot hold the digit, so the other colour does; and a cell that sees a cell of
/// each of two colours, one of which holds the digit, cannot hold it.
pub proof fn lemma_coloring_spares(g: Grid, c: ColoringStep, s: Seq<u8>)
    requires
        searchable(g),
        c.pattern(g),
        solves(g, s),
    ensures
        spares(c.remove_candidates@, s),
{
    let v = choose|v: u8|
        #![trigger digit_cells(g, c.remove_candidates@, v)]
        {
            &&& 1 <= v <= 9
            &&& c.remove_candidates@.len() > 0
            &&& digit_cells(g, c.color_a@, v)
            &&& digit_cells(g, c.color_b@, v)
            &&& digit_cells(g, c.remove_candidates@, v)
            &&& match c.coloring_type {
                ColoringType::Wrap => {
                    &&& alternate(g, v, c.color_a@, c.color_b@)
                    &&& (self_seeing(c.color_a@) && forall|i: int|
                        0 <= i < c.remove_candidates@.len() ==> lists_cell(c.color_a@, (#[trigger] c.remove_candidates@[i]).0 as int))
                        || (self_seeing(c.color_b@) && forall|i: int|
                        0 <= i < c.remove_candidates@.len() ==> lists_cell(c.color_b@, (#[trigger] c.remove_candidates@[i]).0 as int))
                },
                _ => {
                    &&& either_holds(g, v, c.color_a@, c.color_b@)
                    &&& forall|i: int|
                        0 <= i < c.remove_candidates@.len() ==> {
                            let x = (#[trigger] c.remove_candidates@[i]).0 as int;
                            &&& !lists_cell(c.color_a@, x)
                            &&& !lists_cell(c.color_b@, x)
                            &&& seen_from(c.color_a@, x)
                            &&& seen_from(c.color_b@, x)
                        }
                },
            }
        };
    let ca = c.color_a@;
    let cb = c.color_b@;
    let rm = c.remove_candidates@;
    assert(valid_fill(s));
    if c.coloring_type == ColoringType::Wrap {
        assert(alternate(g, v, ca, cb));
        if self_seeing(ca) && forall|i: int| 0 <= i < rm.len() ==> lists_cell(ca, (#[trigger] rm[i]).0 as int) {
            let (i, j) = choose|i: int, j: int|
                0 <= i < ca.len() && 0 <= j < ca.len() && sees((#[trigger] ca[i]).0 as int, (#[trigger] ca[j]).0 as int);
            assert(!all_hold(s, ca, v)) by {
                if all_hold(s, ca, v) {
                    assert(s[ca[i].0 as int] == v && s[ca[j].0 as int] == v);
                }
            }
            assert forall|r: int| 0 <= r < rm.len() implies s[(#[trigger] rm[r]).0 as int] != rm[r].1 by {
                assert(lists_cell(ca, rm[r].0 as int));
                let k = choose|k: int| 0 <= k < ca.len() && (#[trigger] ca[k]).0 == rm[r].0 as int;
            }
        } else {
            let (i, j) = choose|i: int, j: int|
                0 <= i < cb.len() && 0 <= j < cb.len() && sees((#[trigger] cb[i]).0 as int, (#[trigger] cb[j]).0 as int);
            assert(!all_hold(s, cb, v)) by {
                if all_hold(s, cb, v) {
                    assert(s[cb[i].0 as int] == v && s[cb[j].0 as int] == v);
                }
            }
            assert forall|r: int| 0 <= r < rm.len() implies s[(#[trigger] rm[r]).0 as int] != rm[r].1 by {
                assert(lists_cell(cb, rm[r].0 as int));
                let k = choose|k: int| 0 <= k < cb.len() && (#[trigger] cb[k]).0 == rm[r].0 as int;
            }
        }
    } else {
        assert(either_holds(g, v, ca, cb));
        assert forall|r: int| 0 <= r < rm.len() implies s[(#[trigger] rm[r]).0 as int] != rm[r].1 by {
            let x = rm[r].0 as int;
            assert(seen_from(ca, x) && seen_from(cb, x));
            let i = choose|i: int| 0 <= i < ca.len() && sees((#[trigger] ca[i]).0 as int, x);
            let j = choose|j: int| 0 <= j < cb.len() && sees((#[trigger] cb[j]).0 as int, x);
            if all_hold(s, ca, v) {
                assert(s[ca[i].0 as int] == v);
            } else {
                assert(s[cb[j].0 as int] == v);
            }
        }
    }
}

/// The techniques whose steps keep every solution of the grid: the singles, intersections,
/// subsets, fish, wings, skyscrapers, colouring and almost locked sets (not uniqueness or
/// the bounded search).
pub open spec fn solution_keeping(step: Step) -> bool {
    ||| step is FullHouse
    ||| step is NakedSingle
    ||| step is HiddenSingle
    ||| step is LockedCandidate
    ||| step is NakedSet
    ||| step is XYWing
    ||| step is WWing
    ||| step is Skyscraper
    ||| step is XYZWing
    ||| step is HiddenSet
    ||| step is Fish
    ||| step is Als
    ||| step is ComplexFish
    ||| step is Coloring
}

/// A removing step of such a technique removes no digit of a solution.
pub proof fn lemma_spares(step: Step, g: Grid, s: Seq<u8>)
    requires
        searchable(g),
        step.pattern(g),
        solution_keeping(step),
        step.placement() is None,
        solves(g, s),
    ensures
        spares(step.removals(), s),
{
    match step {
        Step::LockedCandidate(l) => lemma_locked_spares(g, l, s),
        Step::NakedSet(n) => lemma_naked_spares(g, n, s),
        Step::XYWing(w) => lemma_xy_wing_spares(g, w, s),
        Step::WWing(w) => lemma_w_wing_spares(g, w, s),
        Step::Skyscraper(k) => lemma_skyscraper_spares(g, k, s),
        Step::XYZWing(w) => lemma_xyz_wing_spares(g, w, s),
        Step::HiddenSet(n) => lemma_hidden_spares(g, n, s),
        Step::Fish(f) => lemma_fish_spares(g, f, s),
        Step::Als(a) => lemma_als_spares(g, a, s),
        Step::ComplexFish(f) => lemma_complex_fish_spares(g, f, s),
        Step::Coloring(c) => lemma_coloring_spares(g, c, s),
        _ => {},
    }
}

/// Carrying out a step of such a technique keeps every solution of the grid: a digit it
/// writes is the one every solution has there, and a candidate it removes is used by no
/// solution.
pub proof fn lemma_step_keeps_solutions(step: Step, old: Grid, new: Grid, s: Seq<u8>)
    requires
        searchable(old),
        new.wf(),
        step.pattern(old),
        step.applicable(old),
        step.outcome(old, new),
        solution_keeping(step),
        solves(old, s),
    ensures
        solves(new, s),
{
    match step.placement() {
        Some(p) => {
            lemma_single_forced(old, step, s);
            lemma_single_candidate(old, step);
            lemma_place_solutions(old, new, p);
        },
        None => {
            lemma_spares(step, old, s);
            lemma_removal_keeps(old, new, step.removals(), s);
        },
    }
}

} // verus!

use vstd::prelude::*;
use vstd::string::StringExecFns;
use crate::candidate::Candidate;
use crate::difficulty::{Difficulty, difficulty_of_rank, budget_seconds};
use crate::grid::{Grid, conflict_free, line_byte_ok, line_values, hodoku_field, hodoku_cells, cell_values, cell_flags, matrix_items,
    matrix_values, matrix_cands, seqs_consistent, cands_with_marks, marks_fit};
use crate::util::digitset::DigitSet;
use crate::grid::push_char;
use vstd::string::{StringSliceAdditionalSpecFns, StrSliceExecFns};
use crate::solver::step::Step;
use crate::solver::als::AlmostLockedSet;
use crate::solver::{SimpleSolver, standard_finds, standard_leads, lemma_standard_finds};
use crate::solver::SolverProfile;
use crate::solver::expert::SearchLimits;
use crate::solver::brute_force::{BruteForceSolver, searchable, finished, solves, solution_state_of};
use crate::solver::step::{extends, givens_filled};
use crate::solution::SolutionState;
use crate::solver::fish::{FishVariant, FishSize};
use crate::solver::presentation::{on_board, houses_on_board};
use crate::solver::presentation::{
    PresentationAction, PresentationActionKind, PresentationRole, StepPresentation, CellOverlay, HouseOverlay, presentable, pattern_list, fin_list, group_text,
    url_text, summary_text, reasoning_text, actions_of, cell_shown, house_shown, role_shown, cells_ordered,
    houses_ordered, roles_ordered,
};

verus! {

/// Colour of a candidate to remove.
pub const REMOVE_CANDIDATE_COLOR: u32 = 0xff7684;

/// Colour of a pattern candidate or a digit to write.
pub const GREEN_CANDADITE_COLOR: u32 = 0x3fda65;

/// Colour of a fin.
pub const FIN_CANDIDATE_COLOR: u32 = 0x7fbbff;

/// Colour of a secondary pattern.
pub const PURPLE_CANDIDATE: u32 = 0xd8b2ff;

/// Colour of other highlighted candidates.
pub const OTHER_CANDIDATE: u32 = 0xa6ede3;

/// First colour of an almost locked set.
pub const ALS_CANDIDATE_COLOR: u32 = 0xc5e88c;

/// The colour of the almost locked set at position `id` of a chain: four colours in turn.
pub open spec fn als_color_of(id: int) -> u32 {
    if id % 4 == 0 {
        ALS_CANDIDATE_COLOR
    } else if id % 4 == 1 {
        0xffcbcb
    } else if id % 4 == 2 {
        0xb2dfdf
    } else {
        0xfcdca5
    }
}

/// The colour of the almost locked set at position `id` of a chain.
fn als_color(id: usize) -> (r: u32)
    ensures
        r == als_color_of(id as int),
{
    let k = id % 4;
    if k == 0 {
        ALS_CANDIDATE_COLOR
    } else if k == 1 {
        0xffcbcb
    } else if k == 2 {
        0xb2dfdf
    } else {
        0xfcdca5
    }
}

/// Why a request from the user interface failed.
#[derive(Debug, Clone, Copy, PartialEq, Eq, Structural)]
pub enum SudokuError {
    NotUniqueSolution,
    GenerateFailed,
    NotFound,
    InvalidInput,
}

/// A candidate with the colour to show it in.
#[derive(Debug, Clone, Copy, PartialEq, Eq, Structural)]
pub struct FrontCandidate {
    pub cell: u8,
    pub value: u8,
    pub color: u32,
}

impl FrontCandidate {
    pub fn new(cell: u8, value: u8, color: u32) -> (r: Self)
        ensures
            r == (FrontCandidate { cell, value, color }),
    {
        FrontCandidate { cell, value, color }
    }

    pub fn new_from_candidate(candidate: &Candidate, color: u32) -> (r: Self)
        ensures
            r == (FrontCandidate { cell: candidate.0, value: candidate.1, color }),
    {
        FrontCandidate::new(candidate.cell(), candidate.value(), color)
    }
}

/// Whether a link between two candidates is strong or weak.
#[derive(Debug, Clone, Copy, PartialEq, Eq, Structural)]
pub enum EdgeType {
    Strong,
    Weak,
}

/// A link drawn between two candidates.
#[derive(Debug, Clone, Copy, PartialEq, Eq, Structural)]
pub struct Edge {
    pub from: FrontCandidate,
    pub to: FrontCandidate,
    pub edge_type: EdgeType,
}

/// What a node of a drawn chain stands for.
#[derive(Debug, Clone, Copy, PartialEq, Eq, Structural)]
pub enum FrontChainNodeKind {
    Candidate,
    Group,
    Als,
}

/// A node of a drawn chain.
#[derive(Debug, Clone, PartialEq, Eq)]
pub struct FrontChainNode {
    pub id: usize,
    pub kind: FrontChainNodeKind,
    pub candidates: Vec<FrontCandidate>,
}

/// A link between two nodes of a drawn chain.
#[derive(Debug, Clone, Copy, PartialEq, Eq, Structural)]
pub struct FrontChainEdge {
    pub from: usize,
    pub to: usize,
    pub edge_type: EdgeType,
}

/// A change to show, with its kind spelled out.
#[derive(Debug, Clone, PartialEq, Eq)]
pub struct FrontAction {
    pub kind: String,
    pub candidate: FrontCandidate,
    pub text: String,
}

/// A legend entry.
#[derive(Debug, Clone, PartialEq, Eq)]
pub struct FrontLegendItem {
    pub role: String,
    pub label: String,
    pub color: u32,
}

/// A highlighted cell.
#[derive(Debug, Clone, PartialEq, Eq)]
pub struct FrontCellOverlay {
    pub cell: u8,
    pub role: String,
    pub color: u32,
}

/// A highlighted house.
#[derive(Debug, Clone, PartialEq, Eq)]
pub struct FrontHouseOverlay {
    pub house: u8,
    pub role: String,
    pub color: u32,
}

/// A hint as the user interface shows it.
#[derive(Debug, Clone, PartialEq, Eq)]
pub struct Hint {
    pub name: String,
    pub set_values: Vec<FrontCandidate>,
    pub highlight_candidates: Vec<FrontCandidate>,
    pub remove_candidates: Vec<FrontCandidate>,
    pub lines: Vec<Edge>,
    pub chain_nodes: Vec<FrontChainNode>,
    pub chain_edges: Vec<FrontChainEdge>,
    pub explain: String,
    pub search_truncated: bool,
    pub search_mode: String,
    pub difficulty_rank: u32,
    pub difficulty_label: String,
    pub technique_group: String,
    pub technique_url: String,
    pub summary: String,
    pub reasoning: Vec<String>,
    pub actions: Vec<FrontAction>,
    pub legend: Vec<FrontLegendItem>,
    pub cell_overlays: Vec<FrontCellOverlay>,
    pub house_overlays: Vec<FrontHouseOverlay>,
}

/// The colour of a role.
pub open spec fn color_of(role: PresentationRole) -> u32 {
    match role {
        PresentationRole::Pattern => GREEN_CANDADITE_COLOR,
        PresentationRole::Secondary => PURPLE_CANDIDATE,
        PresentationRole::Fin => FIN_CANDIDATE_COLOR,
        PresentationRole::Elimination => REMOVE_CANDIDATE_COLOR,
        PresentationRole::AlsGroup => ALS_CANDIDATE_COLOR,
        PresentationRole::ChainNode => FIN_CANDIDATE_COLOR,
    }
}

/// The colour of a role.
pub fn role_color(role: PresentationRole) -> (r: u32)
    ensures
        r == color_of(role),
{
    match role {
        PresentationRole::Pattern => GREEN_CANDADITE_COLOR,
        PresentationRole::Secondary => PURPLE_CANDIDATE,
        PresentationRole::Fin => FIN_CANDIDATE_COLOR,
        PresentationRole::Elimination => REMOVE_CANDIDATE_COLOR,
        PresentationRole::AlsGroup => ALS_CANDIDATE_COLOR,
        PresentationRole::ChainNode => FIN_CANDIDATE_COLOR,
    }
}

/// The candidates of `l`, each in colour `color`.
pub open spec fn colored(l: Seq<Candidate>, color: u32) -> Seq<FrontCandidate> {
    Seq::new(l.len(), |i: int| FrontCandidate { cell: l[i].0, value: l[i].1, color })
}

/// The candidates of `l`, each in colour `color`.
fn candidates_to_frontcandidates(cands: &Vec<Candidate>, color: u32) -> (r: Vec<FrontCandidate>)
    ensures
        r@ == colored(cands@, color),
{
    let mut r: Vec<FrontCandidate> = Vec::new();
    let mut i: usize = 0;
    while i < cands.len()
        invariant
            i <= cands@.len(),
            r@ == colored(cands@.subrange(0, i as int), color),
        decreases cands@.len() - i,
    {
        r.push(FrontCandidate::new_from_candidate(&cands[i], color));
        assert(r@ =~= colored(cands@.subrange(0, i + 1), color));
        i = i + 1;
    }
    assert(cands@.subrange(0, cands@.len() as int) =~= cands@);
    r
}

/// The spelled-out kind of an action.
pub open spec fn kind_text(kind: PresentationActionKind) -> Seq<char> {
    match kind {
        PresentationActionKind::SetValue => "set_value"@,
        PresentationActionKind::RemoveCandidate => "remove_candidate"@,
    }
}

/// The role an action is shown with.
pub open spec fn action_role(kind: PresentationActionKind) -> PresentationRole {
    match kind {
        PresentationActionKind::SetValue => PresentationRole::Pattern,
        PresentationActionKind::RemoveCandidate => PresentationRole::Elimination,
    }
}

/// `fa` shows the actions `acts`, in order.
pub open spec fn front_actions(fa: Seq<FrontAction>, acts: Seq<PresentationAction>) -> bool {
    &&& fa.len() == acts.len()
    &&& forall|i: int|
        0 <= i < fa.len() ==> (#[trigger] fa[i]).kind@ == kind_text(acts[i].kind) && fa[i].candidate == (FrontCandidate {
            cell: acts[i].candidate.0,
            value: acts[i].candidate.1,
            color: color_of(action_role(acts[i].kind)),
        }) && fa[i].text@ == acts[i].text@
}

/// `fl` shows the roles `roles`, in order.
pub open spec fn front_legend(fl: Seq<FrontLegendItem>, roles: Seq<PresentationRole>) -> bool {
    &&& fl.len() == roles.len()
    &&& forall|i: int|
        0 <= i < fl.len() ==> (#[trigger] fl[i]).role@ == roles[i].name_text() && fl[i].label@ == roles[i].label_text()
            && fl[i].color == color_of(roles[i])
}

/// `fo` shows the cell overlays `os`, in order.
pub open spec fn front_cells(fo: Seq<FrontCellOverlay>, os: Seq<CellOverlay>) -> bool {
    &&& fo.len() == os.len()
    &&& forall|i: int|
        0 <= i < fo.len() ==> (#[trigger] fo[i]).cell == os[i].cell && fo[i].role@ == os[i].role.name_text() && fo[i].color
            == color_of(os[i].role)
}

/// `fo` shows the house overlays `os`, in order.
pub open spec fn front_houses(fo: Seq<FrontHouseOverlay>, os: Seq<HouseOverlay>) -> bool {
    &&& fo.len() == os.len()
    &&& forall|i: int|
        0 <= i < fo.len() ==> (#[trigger] fo[i]).house == os[i].house && fo[i].role@ == os[i].role.name_text() && fo[i].color
            == color_of(os[i].role)
}

fn front_actions_of(acts: &Vec<PresentationAction>) -> (r: Vec<FrontAction>)
    ensures
        front_actions(r@, acts@),
{
    let mut r: Vec<FrontAction> = Vec::new();
    let mut i: usize = 0;
    while i < acts.len()
        invariant
            i <= acts@.len(),
            r@.len() == i,
            forall|k: int|
                0 <= k < i ==> (#[trigger] r@[k]).kind@ == kind_text(acts@[k].kind) && r@[k].candidate == (FrontCandidate {
                    cell: acts@[k].candidate.0,
                    value: acts@[k].candidate.1,
                    color: color_of(action_role(acts@[k].kind)),
                }) && r@[k].text@ == acts@[k].text@,
        decreases acts@.len() - i,
    {
        let a = &acts[i];
        let (kind, role) = match a.kind {
            PresentationActionKind::SetValue => (String::from_str("set_value"), PresentationRole::Pattern),
            PresentationActionKind::RemoveCandidate => (String::from_str("remove_candidate"), PresentationRole::Elimination),
        };
        let text = a.text.clone();
        r.push(FrontAction { kind, candidate: FrontCandidate::new_from_candidate(&a.candidate, role_color(role)), text });
        i = i + 1;
    }
    r
}

fn front_legend_of(roles: &Vec<PresentationRole>) -> (r: Vec<FrontLegendItem>)
    ensures
        front_legend(r@, roles@),
{
    let mut r: Vec<FrontLegendItem> = Vec::new();
    let mut i: usize = 0;
    while i < roles.len()
        invariant
            i <= roles@.len(),
            r@.len() == i,
            forall|k: int|
                0 <= k < i ==> (#[trigger] r@[k]).role@ == roles@[k].name_text() && r@[k].label@ == roles@[k].label_text()
                    && r@[k].color == color_of(roles@[k]),
        decreases roles@.len() - i,
    {
        let role = roles[i];
        r.push(FrontLegendItem { role: String::from_str(role.name()), label: String::from_str(role.label()), color: role_color(role) });
        i = i + 1;
    }
    r
}

fn front_cells_of(os: &Vec<CellOverlay>) -> (r: Vec<FrontCellOverlay>)
    ensures
        front_cells(r@, os@),
{
    let mut r: Vec<FrontCellOverlay> = Vec::new();
    let mut i: usize = 0;
    while i < os.len()
        invariant
            i <= os@.len(),
            r@.len() == i,
            forall|k: int|
                0 <= k < i ==> (#[trigger] r@[k]).cell == os@[k].cell && r@[k].role@ == os@[k].role.name_text() && r@[k].color
                    == color_of(os@[k].role),
        decreases os@.len() - i,
    {
        let o = os[i];
        r.push(FrontCellOverlay { cell: o.cell, role: String::from_str(o.role.name()), color: role_color(o.role) });
        i = i + 1;
    }
    r
}

fn front_houses_of(os: &Vec<HouseOverlay>) -> (r: Vec<FrontHouseOverlay>)
    ensures
        front_houses(r@, os@),
{
    let mut r: Vec<FrontHouseOverlay> = Vec::new();
    let mut i: usize = 0;
    while i < os.len()
        invariant
            i <= os@.len(),
            r@.len() == i,
            forall|k: int|
                0 <= k < i ==> (#[trigger] r@[k]).house == os@[k].house && r@[k].role@ == os@[k].role.name_text() && r@[k].color
                    == color_of(os@[k].role),
        decreases os@.len() - i,
    {
        let o = os[i];
        r.push(FrontHouseOverlay { house: o.house, role: String::from_str(o.role.name()), color: role_color(o.role) });
        i = i + 1;
    }
    r
}

/// Appends the candidates of `b` to `a`.
fn extend_candidates(a: &mut Vec<FrontCandidate>, b: Vec<FrontCandidate>)
    ensures
        final(a)@ == old(a)@ + b@,
{
    let mut i: usize = 0;
    while i < b.len()
        invariant
            i <= b@.len(),
            a@ == old(a)@ + b@.subrange(0, i as int),
        decreases b@.len() - i,
    {
        a.push(b[i]);
        assert(a@ =~= old(a)@ + b@.subrange(0, i + 1));
        i = i + 1;
    }
    assert(b@.subrange(0, b@.len() as int) =~= b@);
}

/// The candidates a hint shows after the pattern, in the colour of fins: the second
/// colour of a colouring, else the fins.
pub open spec fn tail_list(step: Step) -> Seq<Candidate> {
    match step {
        Step::Coloring(s) => s.color_b@,
        _ => fin_list(step),
    }
}

/// The digit a step writes, in the colour of written digits.
pub open spec fn set_values_of(step: Step) -> Seq<FrontCandidate> {
    match step.placement() {
        Some(c) => seq![FrontCandidate { cell: c.0, value: c.1, color: GREEN_CANDADITE_COLOR }],
        None => Seq::empty(),
    }
}

/// The nodes of the drawn chain of a step: for a step of almost locked sets, one node per
/// set with its candidates in the set's colour; none otherwise.
pub open spec fn chain_nodes_of(step: Step, nodes: Seq<FrontChainNode>) -> bool {
    match step {
        Step::Als(s) => {
            &&& nodes.len() == s.highlight_candidates@.len()
            &&& forall|i: int|
                0 <= i < nodes.len() ==> (#[trigger] nodes[i]).id == i && nodes[i].kind == FrontChainNodeKind::Als
                    && nodes[i].candidates@ == colored(s.highlight_candidates@[i]@, als_color_of(i))
        },
        _ => nodes.len() == 0,
    }
}

/// The edges of the drawn chain of a step: for a step of almost locked sets, a weak link
/// from each set to the next, one per restricted common candidate; none otherwise.
pub open spec fn chain_edges_of(step: Step, edges: Seq<FrontChainEdge>) -> bool {
    match step {
        Step::Als(s) => edges == Seq::new(
            s.rccs@.len(),
            |i: int| FrontChainEdge { from: i as usize, to: (i + 1) as usize, edge_type: EdgeType::Weak },
        ),
        _ => edges.len() == 0,
    }
}

/// One node per set of almost locked sets, with its candidates in the set's colour.
fn als_nodes(highlights: &Vec<Vec<Candidate>>) -> (r: Vec<FrontChainNode>)
    ensures
        r@.len() == highlights@.len(),
        forall|i: int|
            0 <= i < r@.len() ==> (#[trigger] r@[i]).id == i && r@[i].kind == FrontChainNodeKind::Als
                && r@[i].candidates@ == colored(highlights@[i]@, als_color_of(i)),
{
    let mut r: Vec<FrontChainNode> = Vec::new();
    let mut i: usize = 0;
    while i < highlights.len()
        invariant
            i <= highlights@.len(),
            r@.len() == i,
            forall|k: int|
                0 <= k < i ==> (#[trigger] r@[k]).id == k && r@[k].kind == FrontChainNodeKind::Als
                    && r@[k].candidates@ == colored(highlights@[k]@, als_color_of(k)),
        decreases highlights@.len() - i,
    {
        let candidates = candidates_to_frontcandidates(&highlights[i], als_color(i));
        r.push(FrontChainNode { id: i, kind: FrontChainNodeKind::Als, candidates });
        i = i + 1;
    }
    r
}

/// A weak link from each set to the next, `n` of them.
fn als_edges(n: usize) -> (r: Vec<FrontChainEdge>)
    ensures
        r@ == Seq::new(n as nat, |i: int| FrontChainEdge { from: i as usize, to: (i + 1) as usize, edge_type: EdgeType::Weak }),
{
    let mut r: Vec<FrontChainEdge> = Vec::new();
    let mut i: usize = 0;
    while i < n
        invariant
            i <= n,
            r@ == Seq::new(i as nat, |k: int| FrontChainEdge { from: k as usize, to: (k + 1) as usize, edge_type: EdgeType::Weak }),
        decreases n - i,
    {
        r.push(FrontChainEdge { from: i, to: i + 1, edge_type: EdgeType::Weak });
        assert(r@ =~= Seq::new((i + 1) as nat, |k: int| FrontChainEdge { from: k as usize, to: (k + 1) as usize, edge_type: EdgeType::Weak }));
        i = i + 1;
    }
    r
}

impl Hint {
    /// The hint for a step: its name, description and presentation; the digit it writes;
    /// its pattern candidates followed by its fins, and its removals, each in their
    /// colour; no chain; no search details.
    pub fn new_from_step(step: &Step) -> (r: Self)
        requires
            presentable(*step),
            step matches Step::LockedCandidate(l) ==> l.highlight_candidates@.len() > 0,
        ensures
            r.name@ == step.title(),
            r.explain@ == step.explanation(),
            r.difficulty_rank == step.rating(),
            r.difficulty_label@ == difficulty_of_rank(step.rating()).title(),
            r.technique_group@ == group_text(*step),
            r.technique_url@ == url_text(*step),
            r.reasoning@.len() == 1,
            r.reasoning@[0]@ == reasoning_text(*step),
            exists|acts: Seq<PresentationAction>|
                actions_of(*step, acts) && r.summary@ == summary_text(*step, acts) && front_actions(r.actions@, acts),
            exists|roles: Seq<PresentationRole>|
                roles_ordered(roles) && (forall|role: PresentationRole| roles.contains(role) <==> role_shown(*step, role))
                    && front_legend(r.legend@, roles),
            exists|os: Seq<CellOverlay>|
                cells_ordered(os) && (forall|o: CellOverlay| os.contains(o) <==> cell_shown(*step, o.cell, o.role)) && front_cells(
                    r.cell_overlays@,
                    os,
                ),
            exists|os: Seq<HouseOverlay>|
                houses_ordered(os) && (forall|o: HouseOverlay| os.contains(o) <==> house_shown(*step, o.house, o.role))
                    && front_houses(r.house_overlays@, os),
            r.set_values@ == set_values_of(*step),
            r.highlight_candidates@ == colored(pattern_list(*step), GREEN_CANDADITE_COLOR) + colored(tail_list(*step), FIN_CANDIDATE_COLOR),
            r.remove_candidates@ == colored(step.removals(), REMOVE_CANDIDATE_COLOR),
            r.lines@.len() == 0,
            chain_nodes_of(*step, r.chain_nodes@),
            chain_edges_of(*step, r.chain_edges@),
            !r.search_truncated,
            r.search_mode@.len() == 0,
    {
        let presentation = StepPresentation::from_step(step);
        let mut set_values: Vec<FrontCandidate> = Vec::new();
        match step {
            Step::FullHouse(s) => set_values.push(FrontCandidate::new(s.cell, s.value, GREEN_CANDADITE_COLOR)),
            Step::HiddenSingle(s) => set_values.push(FrontCandidate::new_from_candidate(&s.candidate, GREEN_CANDADITE_COLOR)),
            Step::NakedSingle(s) => set_values.push(FrontCandidate::new_from_candidate(&s.candidate, GREEN_CANDADITE_COLOR)),
            _ => {},
        }
        assert(set_values@ =~= set_values_of(*step));
        let pattern = match step {
            Step::LockedCandidate(s) => candidates_to_frontcandidates(&s.highlight_candidates, GREEN_CANDADITE_COLOR),
            Step::HiddenSet(s) => candidates_to_frontcandidates(&s.highlight_candidates, GREEN_CANDADITE_COLOR),
            Step::NakedSet(s) => candidates_to_frontcandidates(&s.highlight_candidates, GREEN_CANDADITE_COLOR),
            Step::Fish(s) => candidates_to_frontcandidates(&s.highlight_candidates, GREEN_CANDADITE_COLOR),
            Step::Skyscraper(s) => candidates_to_frontcandidates(&s.highlight_candidates, GREEN_CANDADITE_COLOR),
            Step::UniqueStep(s) => candidates_to_frontcandidates(&s.highlight_candidates, GREEN_CANDADITE_COLOR),
            Step::XYWing(s) => candidates_to_frontcandidates(&s.highlight_candidates, GREEN_CANDADITE_COLOR),
            Step::XYZWing(s) => candidates_to_frontcandidates(&s.highlight_candidates, GREEN_CANDADITE_COLOR),
            Step::WWing(s) => candidates_to_frontcandidates(&s.highlight_candidates, GREEN_CANDADITE_COLOR),
            Step::ComplexFish(s) => candidates_to_frontcandidates(&s.highlight_candidates, GREEN_CANDADITE_COLOR),
            Step::Expert(s) => candidates_to_frontcandidates(&s.highlight_candidates, GREEN_CANDADITE_COLOR),
            Step::Coloring(s) => candidates_to_frontcandidates(&s.color_a, GREEN_CANDADITE_COLOR),
            _ => Vec::new(),
        };
        let fins = match step {
            Step::Fish(s) => candidates_to_frontcandidates(&s.fins, FIN_CANDIDATE_COLOR),
            Step::Skyscraper(s) => candidates_to_frontcandidates(&s.fin_candidates, FIN_CANDIDATE_COLOR),
            Step::UniqueStep(s) => candidates_to_frontcandidates(&s.fin_candidates, FIN_CANDIDATE_COLOR),
            Step::XYWing(s) => candidates_to_frontcandidates(&s.fin_candidates, FIN_CANDIDATE_COLOR),
            Step::XYZWing(s) => candidates_to_frontcandidates(&s.fin_candidates, FIN_CANDIDATE_COLOR),
            Step::WWing(s) => candidates_to_frontcandidates(&s.fin_candidates, FIN_CANDIDATE_COLOR),
            Step::ComplexFish(s) => candidates_to_frontcandidates(&s.fins, FIN_CANDIDATE_COLOR),
            Step::Coloring(s) => candidates_to_frontcandidates(&s.color_b, FIN_CANDIDATE_COLOR),
            _ => Vec::new(),
        };
        assert(pattern@ =~= colored(pattern_list(*step), GREEN_CANDADITE_COLOR));
        assert(fins@ =~= colored(tail_list(*step), FIN_CANDIDATE_COLOR));
        let mut highlight = pattern;
        extend_candidates(&mut highlight, fins);
        let removals = match step {
            Step::LockedCandidate(s) => candidates_to_frontcandidates(&s.remove_candidates, REMOVE_CANDIDATE_COLOR),
            Step::HiddenSet(s) => candidates_to_frontcandidates(&s.remove_candidates, REMOVE_CANDIDATE_COLOR),
            Step::NakedSet(s) => candidates_to_frontcandidates(&s.remove_candidates, REMOVE_CANDIDATE_COLOR),
            Step::Fish(s) => candidates_to_frontcandidates(&s.remove_candidates, REMOVE_CANDIDATE_COLOR),
            Step::Skyscraper(s) => candidates_to_frontcandidates(&s.remove_candidates, REMOVE_CANDIDATE_COLOR),
            Step::UniqueStep(s) => candidates_to_frontcandidates(&s.remove_candidates, REMOVE_CANDIDATE_COLOR),
            Step::XYWing(s) => candidates_to_frontcandidates(&s.remove_candidates, REMOVE_CANDIDATE_COLOR),
            Step::XYZWing(s) => candidates_to_frontcandidates(&s.remove_candidates, REMOVE_CANDIDATE_COLOR),
            Step::WWing(s) => candidates_to_frontcandidates(&s.remove_candidates, REMOVE_CANDIDATE_COLOR),
            Step::ComplexFish(s) => candidates_to_frontcandidates(&s.remove_candidates, REMOVE_CANDIDATE_COLOR),
            Step::Expert(s) => candidates_to_frontcandidates(&s.remove_candidates, REMOVE_CANDIDATE_COLOR),
            Step::Coloring(s) => candidates_to_frontcandidates(&s.remove_candidates, REMOVE_CANDIDATE_COLOR),
            Step::Als(s) => candidates_to_frontcandidates(&s.remove_candidates, REMOVE_CANDIDATE_COLOR),
            _ => Vec::new(),
        };
        assert(removals@ =~= colored(step.removals(), REMOVE_CANDIDATE_COLOR));
        let (chain_nodes, chain_edges) = match step {
            Step::Als(s) => {
                let edges = als_edges(s.rccs.len());
                (als_nodes(&s.highlight_candidates), edges)
            },
            _ => (Vec::new(), Vec::new()),
        };
        let actions = front_actions_of(&presentation.actions);
        let legend = front_legend_of(&presentation.legend);
        let cell_overlays = front_cells_of(&presentation.cell_overlays);
        let house_overlays = front_houses_of(&presentation.house_overlays);
        Hint {
            name: String::from_str(step.name()),
            set_values,
            highlight_candidates: highlight,
            remove_candidates: removals,
            lines: Vec::new(),
            chain_nodes,
            chain_edges,
            explain: step.explain(),
            search_truncated: false,
            search_mode: String::new(),
            difficulty_rank: presentation.difficulty_rank,
            difficulty_label: String::from_str(presentation.difficulty_label),
            technique_group: String::from_str(presentation.technique_group),
            technique_url: String::from_str(presentation.technique_url),
            summary: presentation.summary,
            reasoning: presentation.reasoning,
            actions,
            legend,
            cell_overlays,
            house_overlays,
        }
    }
}

/// Whether the characters of `s` are those of `lit`.
fn reads(s: &str, lit: &str) -> (r: bool)
    ensures
        r == (s@ == lit@),
{
    let n = s.unicode_len();
    if n != lit.unicode_len() {
        return false;
    }
    let mut i: usize = 0;
    while i < n
        invariant
            i <= n,
            n == s@.len(),
            n == lit@.len(),
            forall|k: int| 0 <= k < i ==> s@[k] == lit@[k],
        decreases n - i,
    {
        if s.get_char(i) != lit.get_char(i) {
            return false;
        }
        i = i + 1;
    }
    assert(s@ =~= lit@);
    true
}

/// The difficulty a name selects: `Easy`, `Medium`, `Hard`, `Unfair` or `Extreme`, and
/// `Easy` for any other name.
pub open spec fn named_difficulty(s: Seq<char>) -> Difficulty {
    if s == "Medium"@ {
        Difficulty::Medium
    } else if s == "Hard"@ {
        Difficulty::Hard
    } else if s == "Unfair"@ {
        Difficulty::UnFair
    } else if s == "Extreme"@ {
        Difficulty::Extreme
    } else {
        Difficulty::Easy
    }
}

/// The difficulty a name selects (see [`named_difficulty`]).
pub fn difficulty_from_name(difficulty_level: &str) -> (r: Difficulty)
    ensures
        r == named_difficulty(difficulty_level@),
{
    proof {
        reveal_strlit("Easy");
        reveal_strlit("Medium");
        reveal_strlit("Hard");
        reveal_strlit("Unfair");
        reveal_strlit("Extreme");
        assert("Easy"@.len() == 4 && "Hard"@.len() == 4 && "Medium"@.len() == 6 && "Unfair"@.len() == 6);
        assert("Easy"@[0] != "Hard"@[0]);
        assert("Medium"@[0] != "Unfair"@[0]);
        assert("Extreme"@.len() == 7);
    }
    if reads(difficulty_level, "Easy") {
        Difficulty::Easy
    } else if reads(difficulty_level, "Medium") {
        Difficulty::Medium
    } else if reads(difficulty_level, "Hard") {
        Difficulty::Hard
    } else if reads(difficulty_level, "Unfair") {
        Difficulty::UnFair
    } else if reads(difficulty_level, "Extreme") {
        Difficulty::Extreme
    } else {
        Difficulty::Easy
    }
}

/// Seconds the generator may spend on the named difficulty.
pub fn generation_budget_seconds(difficulty_level: &str) -> (r: u32)
    ensures
        r == budget_seconds(named_difficulty(difficulty_level@)),
{
    difficulty_from_name(difficulty_level).generation_budget_secs() as u32
}

/// The values of a line of decimal digits.
pub open spec fn digit_values(s: Seq<char>) -> Seq<u8> {
    Seq::new(s.len(), |i: int| (s[i] as int - 48) as u8)
}

/// Reads a line of decimal digits, one value per character.
pub fn parse_digits(input: &str) -> (r: Result<Vec<u8>, SudokuError>)
    ensures
        r is Ok <==> forall|i: int| 0 <= i < input@.len() ==> '0' <= #[trigger] input@[i] <= '9',
        r matches Ok(v) ==> v@ == digit_values(input@),
        r matches Err(e) ==> e == SudokuError::InvalidInput,
{
    let n = input.unicode_len();
    let mut v: Vec<u8> = Vec::new();
    let mut i: usize = 0;
    while i < n
        invariant
            i <= n,
            n == input@.len(),
            forall|k: int| 0 <= k < i ==> '0' <= #[trigger] input@[k] <= '9',
            v@ == digit_values(input@.subrange(0, i as int)),
        decreases n - i,
    {
        let c = input.get_char(i);
        if !('0' <= c && c <= '9') {
            return Err(SudokuError::InvalidInput);
        }
        v.push(((c as u32) - 48) as u8);
        assert(v@ =~= digit_values(input@.subrange(0, i + 1)));
        i = i + 1;
    }
    assert(input@.subrange(0, n as int) =~= input@);
    Ok(v)
}

/// Whitespace as `char::is_whitespace` has it: the characters with Unicode's
/// `White_Space` property.
pub open spec fn unicode_ws(c: char) -> bool {
    let n = c as u32;
    (9 <= n <= 13) || n == 32 || n == 0x85 || n == 0xa0 || n == 0x1680 || (0x2000 <= n <= 0x200a) || n == 0x2028
        || n == 0x2029 || n == 0x202f || n == 0x205f || n == 0x3000
}

/// Number of whitespace characters that open `s`.
pub open spec fn lead_ws(s: Seq<char>) -> nat
    decreases s.len(),
{
    if s.len() == 0 || !unicode_ws(s[0]) {
        0
    } else {
        1 + lead_ws(s.drop_first())
    }
}

/// Number of whitespace characters that close `s`.
pub open spec fn trail_ws(s: Seq<char>) -> nat
    decreases s.len(),
{
    if s.len() == 0 || !unicode_ws(s.last()) {
        0
    } else {
        1 + trail_ws(s.drop_last())
    }
}

/// What `str::trim` leaves of the characters `s`: `s` without its leading and trailing
/// whitespace.
pub open spec fn trimmed(s: Seq<char>) -> Seq<char> {
    let t = s.subrange(lead_ws(s) as int, s.len() as int);
    t.subrange(0, t.len() - trail_ws(t))
}

/// `str::trim`: the text without its leading and trailing whitespace, whitespace being
/// what `char::is_whitespace` accepts.
#[verifier::external_body]
fn trim_text(s: &str) -> (r: &str)
    ensures
        r@ == trimmed(s@),
{
    s.trim()
}

/// Number of line ends in the first `n` characters.
pub open spec fn newlines(t: Seq<char>, n: int) -> nat
    decreases n,
{
    if n <= 0 {
        0
    } else {
        newlines(t, n - 1) + if t[n - 1] == '\n' { 1nat } else { 0nat }
    }
}

/// Number of lines of a text as `str::lines` counts them: a line per line end, and one
/// more for text after the last line end.
pub open spec fn lines_of(t: Seq<char>) -> nat {
    newlines(t, t.len() as int) + if t.len() > 0 && t.last() != '\n' { 1nat } else { 0nat }
}

proof fn lemma_newlines_le(t: Seq<char>, k: int)
    requires
        0 <= k,
    ensures
        newlines(t, k) <= k,
    decreases k,
{
    if k > 0 {
        lemma_newlines_le(t, k - 1);
    }
}

/// Counts the lines of `t` as `str::lines` does.
fn count_lines(t: &str) -> (r: usize)
    ensures
        r == lines_of(t@),
{
    let n = t.unicode_len();
    let mut count: usize = 0;
    let mut i: usize = 0;
    while i < n
        invariant
            i <= n,
            n == t@.len(),
            count == newlines(t@, i as int),
            count <= i,
        decreases n - i,
    {
        if t.get_char(i) == '\n' {
            count = count + 1;
        }
        i = i + 1;
    }
    if n > 0 && t.get_char(n - 1) != '\n' {
        proof {
            lemma_newlines_le(t@, n - 1);
        }
        count = count + 1;
    }
    count
}

/// Whether `t` has a colon.
fn has_colon(t: &str) -> (r: bool)
    ensures
        r == t@.contains(':'),
{
    let n = t.unicode_len();
    let mut i: usize = 0;
    while i < n
        invariant
            i <= n,
            n == t@.len(),
            forall|k: int| 0 <= k < i ==> t@[k] != ':',
        decreases n - i,
    {
        if t.get_char(i) == ':' {
            assert(t@[i as int] == ':');
            return true;
        }
        i = i + 1;
    }
    false
}

/// The bytes `b` are a HoDoKu line the grid reader accepts.
pub open spec fn hodoku_ok(b: Seq<u8>) -> bool {
    hodoku_field(b) matches Some(f) && hodoku_cells(f) matches Some(cells) && cells.len() == 81 && conflict_free(
        cell_values(cells),
    )
}

/// The bytes `b` are a line of 81 digits the grid reader accepts.
pub open spec fn digit_line_ok(b: Seq<u8>) -> bool {
    b.len() == 81 && (forall|i: int| 0 <= i < 81 ==> #[trigger] line_byte_ok(b[i])) && conflict_free(line_values(b))
}

/// The bytes `b` are a candidate matrix the grid reader accepts.
pub open spec fn matrix_ok(b: Seq<u8>) -> bool {
    matrix_items(b) matches Some(items) && items.len() == 81 && seqs_consistent(matrix_values(items), matrix_cands(items))
}

/// `g` is what the reader makes of the trimmed text `t`: a HoDoKu line gives its values
/// and givens, a line of digits gives its digits, all given, each with the candidates the
/// values leave; a matrix gives its values and candidates, nothing given.
pub open spec fn read_as(g: Grid, t: Seq<char>) -> bool {
    let b = vstd::utf8::encode_utf8(t);
    if lines_of(t) == 1 {
        if t.contains(':') {
            hodoku_field(b) matches Some(f) && hodoku_cells(f) matches Some(cells) && g.built_from(
                cell_values(cells),
                cell_flags(cells),
            )
        } else {
            g.built_from(line_values(b), Seq::new(81, |i: int| true))
        }
    } else {
        matrix_items(b) matches Some(items) && g.value_seq() == matrix_values(items) && g.cand_seq() == matrix_cands(items)
            && g.given_seq() == Seq::new(81, |c: int| false)
    }
}

/// Which reader a trimmed text goes to, and whether it accepts it: one line with a colon
/// is a HoDoKu line, one line without is a line of digits, more than nine lines are a
/// matrix, anything else is refused.
pub open spec fn grid_text_ok(t: Seq<char>) -> bool {
    let b = vstd::utf8::encode_utf8(t);
    if lines_of(t) == 1 {
        if t.contains(':') {
            hodoku_ok(b)
        } else {
            digit_line_ok(b)
        }
    } else if lines_of(t) > 9 {
        matrix_ok(b)
    } else {
        false
    }
}

/// Reads a grid from text in any of the accepted formats (see [`grid_text_ok`]), once the
/// surrounding whitespace is gone.
pub fn create_grid_from_str(digits: &str) -> (r: Result<Grid, SudokuError>)
    ensures
        r is Ok <==> grid_text_ok(trimmed(digits@)),
        r matches Ok(g) ==> g.wf() && read_as(g, trimmed(digits@)),
        r matches Err(e) ==> e == SudokuError::InvalidInput,
{
    let text = trim_text(digits);
    grid_from_trimmed(text)
}

/// Reads a grid from text already trimmed, by its shape: one line with a colon is a
/// HoDoKu line, one line without is a line of digits, more than nine lines a matrix.
pub fn grid_from_trimmed(text: &str) -> (r: Result<Grid, SudokuError>)
    ensures
        r is Ok <==> grid_text_ok(text@),
        r matches Ok(g) ==> g.wf() && read_as(g, text@),
        r matches Err(e) ==> e == SudokuError::InvalidInput,
{
    let count = count_lines(text);
    assert(text.spec_bytes() == vstd::utf8::encode_utf8(text@));
    if count == 1 {
        if has_colon(text) {
            return match Grid::new_from_hodoku_line(text) {
                Ok(g) => Ok(g),
                Err(_) => Err(SudokuError::InvalidInput),
            };
        }
        return match Grid::new_from_singline_digit(text) {
            Ok(g) => Ok(g),
            Err(_) => Err(SudokuError::InvalidInput),
        };
    }
    if count > 9 {
        return match Grid::new_from_matrix_str(text) {
            Ok(g) => Ok(g),
            Err(_) => Err(SudokuError::InvalidInput),
        };
    }
    Err(SudokuError::InvalidInput)
}

/// A puzzle for the user interface: its values, solution, pencil marks, rating and
/// givens.
#[derive(Debug, Clone, PartialEq, Eq)]
pub struct SudokuResult {
    pub digits: Vec<u8>,
    pub solutions: Vec<u8>,
    pub pms: Vec<String>,
    pub score: u32,
    pub difficulty: String,
    pub hardest_technique: String,
    pub is_given: Vec<bool>,
}

/// The one solution of a puzzle.
#[derive(Debug, Clone, PartialEq, Eq)]
pub struct BackTracingSolution {
    pub count: u8,
    pub solutions: Vec<u8>,
}

/// Which search a hint may use.
#[derive(Debug, Clone, Copy, PartialEq, Eq, Default, Structural)]
pub enum HintMode {
    #[default]
    Normal,
    Expert,
}

/// A request for the next step of a grid given as values, pencil marks and givens.
#[derive(Debug, Clone, PartialEq, Eq)]
pub struct HintRequest {
    pub digits: String,
    pub pms: Vec<String>,
    pub is_given: Vec<bool>,
    pub hint_mode: HintMode,
}

/// The digits of `s` among `1..=n`, ascending, as text.
pub open spec fn digits_upto_text(s: Set<u8>, n: nat) -> Seq<char>
    decreases n,
{
    if n == 0 {
        Seq::empty()
    } else {
        digits_upto_text(s, (n - 1) as nat) + if s.contains(n as u8) {
            seq![((n + 48) as u8) as char]
        } else {
            Seq::empty()
        }
    }
}

/// The pencil marks of cell `c`: nothing for a filled cell, else its candidates in
/// ascending order.
pub open spec fn pm_text(g: Grid, c: int) -> Seq<char> {
    if g.value(c) != 0 {
        Seq::empty()
    } else {
        digits_upto_text(g.cands(c), 9)
    }
}

/// The text of the digits of `s` among `1..=n` holds, in increasing order, the decimal
/// digit of each of them and nothing else.
pub proof fn lemma_digits_text(s: Set<u8>, n: nat)
    requires
        n <= 9,
    ensures
        forall|i: int|
            0 <= i < digits_upto_text(s, n).len() ==> 49 <= ((#[trigger] digits_upto_text(s, n)[i]) as u32) <= 48 + n && s.contains(
                ((digits_upto_text(s, n)[i] as u32) - 48) as u8,
            ),
        forall|d: u8| 1 <= d <= n && #[trigger] s.contains(d) ==> exists|i: int|
            0 <= i < digits_upto_text(s, n).len() && digits_upto_text(s, n)[i] as u32 == d + 48,
        forall|i: int, j: int|
            0 <= i < j < digits_upto_text(s, n).len() ==> ((#[trigger] digits_upto_text(s, n)[i]) as u32) < ((#[trigger] digits_upto_text(s, n)[j]) as u32),
    decreases n,
{
    if n > 0 {
        let m = (n - 1) as nat;
        lemma_digits_text(s, m);
        let pre = digits_upto_text(s, m);
        let t = digits_upto_text(s, n);
        let ch = ((n + 48) as u8) as char;
        assert(ch as u32 == n + 48);
        if s.contains(n as u8) {
            assert(t == pre + seq![ch]);
            assert forall|i: int| 0 <= i < t.len() implies 49 <= ((#[trigger] t[i]) as u32) <= 48 + n && s.contains(((t[i] as u32) - 48) as u8) by {
                if i < pre.len() {
                    assert(t[i] == pre[i]);
                } else {
                    assert(t[i] == ch);
                    assert(((ch as u32) - 48) as u8 == n as u8);
                }
            }
            assert forall|d: u8| 1 <= d <= n && #[trigger] s.contains(d) implies exists|i: int| 0 <= i < t.len() && t[i] as u32 == d + 48 by {
                if d < n {
                    let i = choose|i: int| 0 <= i < pre.len() && pre[i] as u32 == d + 48;
                    assert(t[i] == pre[i]);
                } else {
                    assert(t[pre.len() as int] == ch);
                }
            }
            assert forall|i: int, j: int| 0 <= i < j < t.len() implies ((#[trigger] t[i]) as u32) < ((#[trigger] t[j]) as u32) by {
                assert(t[i] == pre[i]);
                if j < pre.len() {
                    assert(t[j] == pre[j]);
                    assert((pre[i] as u32) < (pre[j] as u32));
                } else {
                    assert(t[j] == ch);
                    assert((pre[i] as u32) <= 48 + m);
                }
            }
        } else {
            assert(t =~= pre);
            assert forall|d: u8| 1 <= d <= n && #[trigger] s.contains(d) implies exists|i: int| 0 <= i < t.len() && t[i] as u32 == d + 48 by {
                assert(d != n as u8);
                let i = choose|i: int| 0 <= i < pre.len() && pre[i] as u32 == d + 48;
            }
        }
    }
}

/// The pencil marks of a cell: none when it holds a digit; when it is empty, in
/// increasing order, the decimal digit of each of its candidates, and nothing else.
pub proof fn lemma_pm_text_lists_candidates(g: Grid, c: int)
    requires
        g.wf(),
        0 <= c < 81,
    ensures
        g.value(c) != 0 ==> pm_text(g, c).len() == 0,
        g.value(c) == 0 ==> forall|i: int|
            0 <= i < pm_text(g, c).len() ==> 49 <= ((#[trigger] pm_text(g, c)[i]) as u32) <= 57 && g.cands(c).contains(
                ((pm_text(g, c)[i] as u32) - 48) as u8,
            ),
        g.value(c) == 0 ==> forall|d: u8| #[trigger] g.cands(c).contains(d) ==> exists|i: int|
            0 <= i < pm_text(g, c).len() && pm_text(g, c)[i] as u32 == d + 48,
        forall|i: int, j: int| 0 <= i < j < pm_text(g, c).len() ==> ((#[trigger] pm_text(g, c)[i]) as u32) < ((#[trigger] pm_text(g, c)[j]) as u32),
{
    g.lemma_wf();
    lemma_digits_text(g.cands(c), 9);
    if g.value(c) == 0 {
        let t = pm_text(g, c);
        assert(t == digits_upto_text(g.cands(c), 9));
        assert forall|d: u8| #[trigger] g.cands(c).contains(d) implies exists|i: int| 0 <= i < t.len() && t[i] as u32 == d + 48 by {
            assert(1 <= d <= 9);
            let i = choose|i: int| 0 <= i < digits_upto_text(g.cands(c), 9).len() && digits_upto_text(g.cands(c), 9)[i] as u32 == d + 48;
            assert(t[i] as u32 == d + 48);
        }
    }
}

/// The pencil marks of every cell.
fn pms_of(grid: &Grid) -> (r: Vec<String>)
    requires
        grid.wf(),
    ensures
        r@.len() == 81,
        forall|c: int| 0 <= c < 81 ==> (#[trigger] r@[c])@ == pm_text(*grid, c),
{
    let mut r: Vec<String> = Vec::new();
    let mut cell: u8 = 0;
    while cell < 81
        invariant
            cell <= 81,
            grid.wf(),
            r@.len() == cell,
            forall|c: int| 0 <= c < cell ==> (#[trigger] r@[c])@ == pm_text(*grid, c),
        decreases 81 - cell,
    {
        let mut text = String::new();
        if grid.get_value(cell) == 0 {
            let cands = grid.get_cell_candidate(cell);
            let mut d: u8 = 1;
            while d <= 9
                invariant
                    1 <= d <= 10,
                    cands@ == grid.cands(cell as int),
                    text@ == digits_upto_text(grid.cands(cell as int), (d - 1) as nat),
                decreases 10 - d,
            {
                if cands.contains(d) {
                    push_char(&mut text, ((d + 48) as u8) as char);
                }
                assert(text@ =~= digits_upto_text(grid.cands(cell as int), d as nat));
                d = d + 1;
            }
        } else {
            assert(text@ =~= pm_text(*grid, cell as int));
        }
        r.push(text);
        cell = cell + 1;
    }
    r
}

/// The pencil marks of the grid read from `digits`; nothing when it cannot be read.
pub fn calc_pms(digits: &str) -> (r: Vec<String>)
    ensures
        r@.len() == 81 <==> grid_text_ok(trimmed(digits@)),
        r@.len() == 0 <==> !grid_text_ok(trimmed(digits@)),
        r@.len() == 81 ==> exists|g: Grid|
            g.wf() && read_as(g, trimmed(digits@)) && forall|c: int| 0 <= c < 81 ==> (#[trigger] r@[c])@ == pm_text(g, c),
{
    match create_grid_from_str(digits) {
        Ok(grid) => pms_of(&grid),
        Err(_) => Vec::new(),
    }
}

/// Whether every given cell of a well-formed grid holds a value.
fn givens_have_values(grid: &Grid) -> (r: bool)
    requires
        grid.wf(),
    ensures
        r == givens_filled(*grid),
{
    let mut cell: u8 = 0;
    while cell < 81
        invariant
            cell <= 81,
            grid.wf(),
            forall|c: int| 0 <= c < cell && #[trigger] grid.given(c) ==> grid.value(c) != 0,
        decreases 81 - cell,
    {
        if grid.cell_is_given(cell) && grid.get_value(cell) == 0 {
            return false;
        }
        cell = cell + 1;
    }
    true
}

/// The grid read from `text`, when it is one the solvers accept.
fn searchable_grid(text: &str) -> (r: Result<Grid, SudokuError>)
    ensures
        r matches Ok(g) ==> searchable(g) && read_as(g, trimmed(text@)),
        r is Ok ==> grid_text_ok(trimmed(text@)),
        r matches Err(e) ==> e == SudokuError::InvalidInput && (!grid_text_ok(trimmed(text@)) || exists|g: Grid|
            g.wf() && read_as(g, trimmed(text@)) && !searchable(g)),
{
    let grid = create_grid_from_str(text)?;
    match grid.check_state_valid() {
        Ok(()) => {},
        Err(_) => {
            return Err(SudokuError::InvalidInput);
        },
    }
    if !givens_have_values(&grid) {
        return Err(SudokuError::InvalidInput);
    }
    Ok(grid)
}

/// Every value of the grid that is not zero.
fn filled_flags(values: &Vec<u8>) -> (r: Vec<bool>)
    ensures
        r@.len() == values@.len(),
        forall|c: int| 0 <= c < values@.len() ==> #[trigger] r@[c] == (values@[c] != 0),
{
    let mut r: Vec<bool> = Vec::new();
    let mut i: usize = 0;
    while i < values.len()
        invariant
            i <= values@.len(),
            r@.len() == i,
            forall|c: int| 0 <= c < i ==> #[trigger] r@[c] == (values@[c] != 0),
        decreases values@.len() - i,
    {
        r.push(values[i] != 0);
        i = i + 1;
    }
    r
}

/// A copy of the values.
fn copy_values(values: &[u8]) -> (r: Vec<u8>)
    ensures
        r@ == values@,
{
    let mut r: Vec<u8> = Vec::new();
    let mut i: usize = 0;
    while i < values.len()
        invariant
            i <= values@.len(),
            r@ == values@.subrange(0, i as int),
        decreases values@.len() - i,
    {
        r.push(values[i]);
        assert(r@ =~= values@.subrange(0, i + 1));
        i = i + 1;
    }
    assert(values@.subrange(0, values@.len() as int) =~= values@);
    r
}

/// Imports a puzzle: read in any accepted format, it must have exactly one solution. The
/// result holds its values, pencil marks and solution, its filled cells as givens.
pub fn import_sudoku(text: &str) -> (r: Result<SudokuResult, SudokuError>)
    ensures
        r matches Ok(res) ==> res.digits@.len() == 81 && res.pms@.len() == 81 && res.is_given@.len() == 81
            && (forall|c: int| 0 <= c < 81 ==> #[trigger] res.is_given@[c] == (res.digits@[c] != 0)) && res.score == 0
            && res.difficulty@.len() == 0 && res.hardest_technique@.len() == 0 && exists|g: Grid, s: Grid|
            searchable(g) && read_as(g, trimmed(text@)) && solution_state_of(g) == SolutionState::Unique && solves(
                g,
                res.solutions@,
            ) && g.value_seq() == res.digits@ && finished(s) && extends(g, s) && s.value_seq() == res.solutions@
                && forall|c: int| 0 <= c < 81 ==> (#[trigger] res.pms@[c])@ == pm_text(g, c),
        r matches Err(e) ==> e == SudokuError::InvalidInput || e == SudokuError::NotUniqueSolution,
        r == Err::<SudokuResult, SudokuError>(SudokuError::NotUniqueSolution) ==> exists|g: Grid|
            searchable(g) && read_as(g, trimmed(text@)) && solution_state_of(g) != SolutionState::Unique,
        r == Err::<SudokuResult, SudokuError>(SudokuError::InvalidInput) ==> !grid_text_ok(trimmed(text@)) || exists|g: Grid|
            g.wf() && read_as(g, trimmed(text@)) && !searchable(g),
        !grid_text_ok(trimmed(text@)) ==> r == Err::<SudokuResult, SudokuError>(SudokuError::InvalidInput),
{
    let grid = searchable_grid(text)?;
    let solution = BruteForceSolver::new().solve(&grid);
    match solution.state() {
        SolutionState::Unique => {},
        _ => {
            return Err(SudokuError::NotUniqueSolution);
        },
    }
    let pms = pms_of(&grid);
    let digits = copy_values(grid.values().as_slice());
    let solutions = copy_values(solution.values());
    let is_given = filled_flags(&digits);
    proof {
        grid.lemma_wf();
    }
    Ok(SudokuResult {
        digits,
        solutions,
        pms,
        score: 0,
        difficulty: String::new(),
        hardest_technique: String::new(),
        is_given,
    })
}

/// The one solution of the puzzle read from `digits`.
pub fn solve_backtracing(digits: &str) -> (r: Result<BackTracingSolution, SudokuError>)
    ensures
        r matches Ok(b) ==> b.count == 1 && exists|g: Grid, s: Grid|
            searchable(g) && read_as(g, trimmed(digits@)) && solution_state_of(g) == SolutionState::Unique && solves(
                g,
                b.solutions@,
            ) && finished(s) && extends(g, s) && s.value_seq() == b.solutions@,
        r matches Err(e) ==> e == SudokuError::InvalidInput || e == SudokuError::NotUniqueSolution,
        r == Err::<BackTracingSolution, SudokuError>(SudokuError::NotUniqueSolution) ==> exists|g: Grid|
            searchable(g) && read_as(g, trimmed(digits@)) && solution_state_of(g) != SolutionState::Unique,
        r == Err::<BackTracingSolution, SudokuError>(SudokuError::InvalidInput) ==> !grid_text_ok(trimmed(digits@))
            || exists|g: Grid| g.wf() && read_as(g, trimmed(digits@)) && !searchable(g),
        !grid_text_ok(trimmed(digits@)) ==> r == Err::<BackTracingSolution, SudokuError>(SudokuError::InvalidInput),
{
    let grid = searchable_grid(digits)?;
    let solution = BruteForceSolver::new().solve(&grid);
    match solution.state() {
        SolutionState::Unique => {},
        _ => {
            return Err(SudokuError::NotUniqueSolution);
        },
    }
    Ok(BackTracingSolution { count: 1, solutions: copy_values(solution.values()) })
}

/// Generates a puzzle of the named difficulty (see [`named_difficulty`]).
pub fn generate_sudoku(difficulty_level: &str) -> (r: Result<SudokuResult, SudokuError>)
    ensures
        r matches Ok(res) ==> res.digits@.len() == 81 && res.solutions@.len() == 81 && res.pms@.len() == 81
            && res.is_given@.len() == 81 && res.difficulty@ == named_difficulty(difficulty_level@).title(),
        r matches Err(e) ==> e == SudokuError::GenerateFailed,
        r matches Ok(res) ==> exists|gen: crate::generator::generate::GeneratedGrid|
            crate::generator::generate::generated(gen, named_difficulty(difficulty_level@)) && res.digits@ == gen.grid.value_seq() && res.solutions@ == gen.solution@
                && res.is_given@ == gen.grid.given_seq() && res.score == gen.score && res.hardest_technique@ == gen.hardest_technique@
                && forall|c: int| 0 <= c < 81 ==> (#[trigger] res.pms@[c])@ == pm_text(gen.grid, c),
        r matches Ok(res) ==> forall|c: int| 0 <= c < 81 ==> (#[trigger] res.is_given@[c]) == (res.digits@[c] != 0),
{
    let df = difficulty_from_name(difficulty_level);
    match crate::generator::generate::generate_sudoku(&df) {
        Ok(generated) => {
            let grid = &generated.grid;
            let digits = copy_values(grid.values().as_slice());
            let pms = pms_of(grid);
            let is_given = copy_flags(grid.is_given());
            proof {
                grid.lemma_wf();
            }
            Ok(SudokuResult {
                digits,
                solutions: copy_values(&generated.solution),
                pms,
                score: generated.score,
                difficulty: String::from_str(generated.difficulty.name()),
                hardest_technique: generated.hardest_technique.clone(),
                is_given,
            })
        },
        Err(_) => Err(SudokuError::GenerateFailed),
    }
}

/// A copy of the flags.
fn copy_flags(flags: &Vec<bool>) -> (r: Vec<bool>)
    ensures
        r@ == flags@,
{
    let mut r: Vec<bool> = Vec::new();
    let mut i: usize = 0;
    while i < flags.len()
        invariant
            i <= flags@.len(),
            r@ == flags@.subrange(0, i as int),
        decreases flags@.len() - i,
    {
        r.push(flags[i]);
        assert(r@ =~= flags@.subrange(0, i + 1));
        i = i + 1;
    }
    assert(flags@.subrange(0, flags@.len() as int) =~= flags@);
    r
}

/// Whether every candidate of `l` names a cell and a digit.
fn cands_on_board(l: &Vec<Candidate>) -> (r: bool)
    ensures
        r == on_board(l@),
{
    let mut i: usize = 0;
    while i < l.len()
        invariant
            i <= l@.len(),
            forall|k: int| 0 <= k < i ==> (#[trigger] l@[k]).0 < 81 && l@[k].1 < 10,
        decreases l@.len() - i,
    {
        if l[i].0 >= 81 || l[i].1 >= 10 {
            return false;
        }
        i = i + 1;
    }
    true
}

/// Whether every entry names a house.
fn houses_ok(l: &Vec<u8>) -> (r: bool)
    ensures
        r == houses_on_board(l@),
{
    let mut i: usize = 0;
    while i < l.len()
        invariant
            i <= l@.len(),
            forall|k: int| 0 <= k < i ==> #[trigger] l@[k] < 27,
        decreases l@.len() - i,
    {
        if l[i] >= 27 {
            return false;
        }
        i = i + 1;
    }
    true
}

/// Whether every set lies in a house of the grid.
fn sets_on_board(sets: &Vec<AlmostLockedSet>) -> (r: bool)
    ensures
        r == forall|k: int| 0 <= k < sets@.len() ==> (#[trigger] sets@[k]).house < 27,
{
    let mut i: usize = 0;
    while i < sets.len()
        invariant
            i <= sets@.len(),
            forall|k: int| 0 <= k < i ==> (#[trigger] sets@[k]).house < 27,
        decreases sets@.len() - i,
    {
        if sets[i].house >= 27 {
            return false;
        }
        i = i + 1;
    }
    true
}

/// Whether every list names cells and digits of the grid.
fn lists_on_board(lists: &Vec<Vec<Candidate>>) -> (r: bool)
    ensures
        r == forall|k: int| 0 <= k < lists@.len() ==> on_board((#[trigger] lists@[k])@),
{
    let mut i: usize = 0;
    while i < lists.len()
        invariant
            i <= lists@.len(),
            forall|k: int| 0 <= k < i ==> on_board((#[trigger] lists@[k])@),
        decreases lists@.len() - i,
    {
        if !cands_on_board(&lists[i]) {
            return false;
        }
        i = i + 1;
    }
    true
}

/// Every list, set and house number of the step lies on the board (a locked candidate
/// with a highlighted candidate, a finned fish of at most four lines).
pub open spec fn ready(step: Step) -> bool {
    match step {
        Step::LockedCandidate(s) => on_board(s.remove_candidates@) && on_board(s.highlight_candidates@)
            && s.highlight_candidates@.len() > 0 && s.house < 27 && s.common_house < 27,
        Step::HiddenSet(s) => on_board(s.remove_candidates@) && on_board(s.highlight_candidates@) && s.house < 27,
        Step::NakedSet(s) => on_board(s.remove_candidates@) && on_board(s.highlight_candidates@) && s.house < 27
            && match s.locked_house {
            Some(h) => h < 27,
            None => true,
        },
        Step::Fish(s) => on_board(s.remove_candidates@) && on_board(s.highlight_candidates@) && on_board(s.fins@)
            && houses_on_board(s.basics@) && houses_on_board(s.covers@) && (s.fish_type.variant is Basic || s.fish_type.size is XWing
            || s.fish_type.size is Swordfish || s.fish_type.size is Jellyfish),
        Step::ComplexFish(s) => on_board(s.remove_candidates@) && on_board(s.highlight_candidates@) && on_board(s.fins@)
            && houses_on_board(s.basics@) && houses_on_board(s.covers@),
        Step::Skyscraper(s) => on_board(s.remove_candidates@) && on_board(s.highlight_candidates@) && on_board(s.fin_candidates@),
        Step::UniqueStep(s) => on_board(s.remove_candidates@) && on_board(s.highlight_candidates@) && on_board(s.fin_candidates@),
        Step::XYWing(s) => on_board(s.remove_candidates@) && on_board(s.highlight_candidates@) && on_board(s.fin_candidates@),
        Step::XYZWing(s) => on_board(s.remove_candidates@) && on_board(s.highlight_candidates@) && on_board(s.fin_candidates@),
        Step::WWing(s) => on_board(s.remove_candidates@) && on_board(s.highlight_candidates@) && on_board(s.fin_candidates@),
        Step::Expert(s) => on_board(s.remove_candidates@) && on_board(s.highlight_candidates@),
        Step::Coloring(s) => on_board(s.remove_candidates@) && on_board(s.color_a@) && on_board(s.color_b@),
        Step::Als(s) => on_board(s.remove_candidates@) && (forall|k: int| 0 <= k < s.sets@.len() ==> (#[trigger] s.sets@[k]).house < 27)
            && (forall|k: int| 0 <= k < s.highlight_candidates@.len() ==> on_board((#[trigger] s.highlight_candidates@[k])@)),
        Step::FullHouse(s) => s.cell < 81 && s.value < 10 && s.house < 27,
        Step::NakedSingle(s) => s.candidate.0 < 81 && s.candidate.1 < 10,
        Step::HiddenSingle(s) => s.candidate.0 < 81 && s.candidate.1 < 10 && s.house < 27,
        Step::Nothing => true,
    }
}

/// Whether a hint can be made of the step.
fn hint_ready(step: &Step) -> (r: bool)
    ensures
        r ==> presentable(*step) && (step matches Step::LockedCandidate(l) ==> l.highlight_candidates@.len() > 0),
        r == ready(*step),
{
    let lists = match step {
        Step::LockedCandidate(s) => cands_on_board(&s.remove_candidates) && cands_on_board(&s.highlight_candidates)
            && s.highlight_candidates.len() > 0 && s.house < 27 && s.common_house < 27,
        Step::HiddenSet(s) => cands_on_board(&s.remove_candidates) && cands_on_board(&s.highlight_candidates) && s.house < 27,
        Step::NakedSet(s) => cands_on_board(&s.remove_candidates) && cands_on_board(&s.highlight_candidates) && s.house < 27
            && match s.locked_house {
            Some(h) => h < 27,
            None => true,
        },
        Step::Fish(s) => cands_on_board(&s.remove_candidates) && cands_on_board(&s.highlight_candidates) && cands_on_board(
            &s.fins,
        ) && houses_ok(&s.basics) && houses_ok(&s.covers) && (matches!(s.fish_type.variant, FishVariant::Basic) || matches!(
            s.fish_type.size,
            FishSize::XWing | FishSize::Swordfish | FishSize::Jellyfish
        )),
        Step::ComplexFish(s) => cands_on_board(&s.remove_candidates) && cands_on_board(&s.highlight_candidates)
            && cands_on_board(&s.fins) && houses_ok(&s.basics) && houses_ok(&s.covers),
        Step::Skyscraper(s) => cands_on_board(&s.remove_candidates) && cands_on_board(&s.highlight_candidates)
            && cands_on_board(&s.fin_candidates),
        Step::UniqueStep(s) => cands_on_board(&s.remove_candidates) && cands_on_board(&s.highlight_candidates)
            && cands_on_board(&s.fin_candidates),
        Step::XYWing(s) => cands_on_board(&s.remove_candidates) && cands_on_board(&s.highlight_candidates) && cands_on_board(
            &s.fin_candidates,
        ),
        Step::XYZWing(s) => cands_on_board(&s.remove_candidates) && cands_on_board(&s.highlight_candidates)
            && cands_on_board(&s.fin_candidates),
        Step::WWing(s) => cands_on_board(&s.remove_candidates) && cands_on_board(&s.highlight_candidates) && cands_on_board(
            &s.fin_candidates,
        ),
        Step::Expert(s) => cands_on_board(&s.remove_candidates) && cands_on_board(&s.highlight_candidates),
        Step::Coloring(s) => cands_on_board(&s.remove_candidates) && cands_on_board(&s.color_a) && cands_on_board(&s.color_b),
        Step::Als(s) => cands_on_board(&s.remove_candidates) && sets_on_board(&s.sets) && lists_on_board(&s.highlight_candidates),
        Step::FullHouse(s) => s.cell < 81 && s.value < 10 && s.house < 27,
        Step::NakedSingle(s) => s.candidate.0 < 81 && s.candidate.1 < 10,
        Step::HiddenSingle(s) => s.candidate.0 < 81 && s.candidate.1 < 10 && s.house < 27,
        Step::Nothing => true,
    };
    lists
}

/// Every character of `s` is a decimal digit.
pub open spec fn all_digit_text(s: Seq<char>) -> bool {
    forall|i: int| 0 <= i < s.len() ==> '0' <= #[trigger] s[i] <= '9'
}

/// The pencil marks of the request, read as digits.
pub open spec fn request_marks(req: HintRequest) -> Seq<Seq<u8>> {
    req.pms@.map_values(|p: String| digit_values(p@))
}

/// The request is lines of digits that make a grid: 81 values, marks and flags, given
/// cells filled, no two peers with one digit, marks only in empty cells and only of
/// digits no peer holds.
pub open spec fn request_valid(req: HintRequest) -> bool {
    let d = digit_values(req.digits@);
    &&& all_digit_text(req.digits@)
    &&& forall|i: int| 0 <= i < req.pms@.len() ==> all_digit_text(#[trigger] req.pms@[i]@)
    &&& d.len() == 81 && req.pms@.len() == 81 && req.is_given@.len() == 81
    &&& (forall|i: int| 0 <= i < 81 ==> #[trigger] d[i] <= 9)
    &&& (forall|i: int| 0 <= i < 81 ==> #[trigger] d[i] != 0 || !req.is_given@[i])
    &&& conflict_free(d)
    &&& marks_fit(d, request_marks(req))
}

/// `g` is the grid of the request: its values, and its candidates from the marks.
pub open spec fn request_grid(req: HintRequest, g: Grid) -> bool {
    &&& g.wf()
    &&& g.value_seq() == digit_values(req.digits@)
    &&& g.cand_seq() == cands_with_marks(digit_values(req.digits@), request_marks(req))
}

/// `h` presents step `st`: its name and rating.
pub open spec fn hint_of(h: Hint, st: Step) -> bool {
    h.name@ == st.title() && h.difficulty_rank == st.rating()
}

/// `st` is a step found for grid `g` of the request, presented by `h`: nothing or a valid
/// step, and in normal mode not nothing when a technique of the standard list is known
/// to find one.
pub open spec fn answered_by(req: HintRequest, h: Hint, g: Grid, st: Step) -> bool {
    &&& request_grid(req, g)
    &&& hint_of(h, st)
    &&& st is Nothing || st.pattern(g)
    &&& req.hint_mode == HintMode::Normal ==> (standard_finds(g) ==> !(st is Nothing))
    &&& req.hint_mode == HintMode::Normal && !(st is Nothing) ==> standard_leads(g, st)
}

/// Some grid of the request and some step found for it are what `h` presents.
pub open spec fn answers(req: HintRequest, h: Hint) -> bool {
    exists|g: Grid, st: Step| #[trigger] answered_by(req, h, g, st)
}

/// The next step for the grid of the request, as a hint: in normal mode the first step
/// the techniques find, in expert mode also a bounded expert search. Values and pencil
/// marks are lines of decimal digits. A valid request in normal mode is answered unless
/// the step found cannot be shown on the board.
pub fn get_next_step(request: &HintRequest) -> (r: Result<Hint, SudokuError>)
    ensures
        r matches Err(e) ==> e == SudokuError::InvalidInput,
        !request_valid(*request) ==> r is Err,
        r is Ok ==> request_valid(*request),
        r matches Ok(h) ==> answers(*request, h),
        r matches Ok(h) ==> h.search_mode@ == (if request.hint_mode == HintMode::Normal { "normal"@ } else { "expert"@ }),
        r matches Ok(h) ==> (request.hint_mode == HintMode::Normal ==> !h.search_truncated),
        request_valid(*request) && request.hint_mode == HintMode::Normal && r is Err ==> exists|g: Grid, st: Step|
            request_grid(*request, g) && st.pattern(g) && standard_leads(g, st) && !ready(st),
{
    let digits = parse_digits(request.digits.as_str())?;
    let mut pms: Vec<Vec<u8>> = Vec::new();
    let mut i: usize = 0;
    while i < request.pms.len()
        invariant
            i <= request.pms@.len(),
            pms@.len() == i,
            forall|k: int| 0 <= k < i ==> all_digit_text(#[trigger] request.pms@[k]@),
            forall|k: int| 0 <= k < i ==> (#[trigger] pms@[k])@ == digit_values(request.pms@[k]@),
        decreases request.pms@.len() - i,
    {
        let cpm = match parse_digits(request.pms[i].as_str()) {
            Ok(v) => v,
            Err(e) => {
                proof {
                    assert(!all_digit_text(request.pms@[i as int]@));
                }
                return Err(e);
            },
        };
        let ghost before = pms@;
        pms.push(cpm);
        proof {
            assert forall|k: int| 0 <= k < i + 1 implies (#[trigger] pms@[k])@ == digit_values(request.pms@[k]@) by {
                if k < i {
                    assert(pms@[k] == before[k]);
                }
            }
        }
        i = i + 1;
    }
    proof {
        assert(pms@.map_values(|m: Vec<u8>| m@) =~= request_marks(*request));
    }
    let is_given = copy_flags(&request.is_given);
    let grid = match Grid::new_from_digit_and_pms(digits.as_slice(), pms, is_given) {
        Ok(g) => g,
        Err(_) => {
            return Err(SudokuError::InvalidInput);
        },
    };
    proof {
        assert(request_grid(*request, grid));
    }
    let (step, truncated, mode) = match request.hint_mode {
        HintMode::Normal => {
            let solver = SimpleSolver::new();
            let st = solver.hint(&grid);
            proof {
                if standard_finds(grid) {
                    lemma_standard_finds(solver.techniques(), grid);
                }
                assert(standard_finds(grid) ==> !(st is Nothing));
                if !(st is Nothing) {
                    let i = choose|i: int|
                        0 <= i < solver.techniques().len() && (#[trigger] solver.techniques()[i]).produces(st) && forall|j: int|
                            0 <= j < i ==> !(#[trigger] solver.techniques()[j]).finds(grid);
                    assert(solver.techniques()[i].produces(st));
                    assert(standard_leads(grid, st));
                }
            }
            (st, false, "normal")
        },
        HintMode::Expert => {
            let outcome = SimpleSolver::with_profile(SolverProfile::Expert).hint_with_limits(&grid, &SearchLimits::web_expert());
            (outcome.step, outcome.truncated, "expert")
        },
    };
    if !hint_ready(&step) {
        proof {
            if request.hint_mode == HintMode::Normal {
                assert(!(step is Nothing));
                assert(step.pattern(grid) && standard_leads(grid, step));
            }
        }
        return Err(SudokuError::InvalidInput);
    }
    let mut hint = Hint::new_from_step(&step);
    hint.search_truncated = truncated;
    hint.search_mode = String::from_str(mode);
    proof {
        assert(hint_of(hint, step));
        assert(step is Nothing || step.pattern(grid));
        assert(request.hint_mode == HintMode::Normal ==> (standard_finds(grid) ==> !(step is Nothing)));
        assert(request_grid(*request, grid));
        assert(answered_by(*request, hint, grid, step));
    }
    Ok(hint)
}

} // verus!

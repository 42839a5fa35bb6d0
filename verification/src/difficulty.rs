use vstd::prelude::*;

verus! {

/// How hard a puzzle is, judged by the hardest technique it needs.
#[derive(Debug, Clone, Copy, PartialEq, Eq, Hash, Structural)]
pub enum Difficulty {
    Easy,
    Medium,
    Hard,
    UnFair,
    Extreme,
}

/// The difficulty whose rank range holds `rank`.
pub open spec fn difficulty_of_rank(rank: u32) -> Difficulty {
    if rank <= 14 {
        Difficulty::Easy
    } else if rank <= 80 {
        Difficulty::Medium
    } else if rank <= 190 {
        Difficulty::Hard
    } else if rank <= 340 {
        Difficulty::UnFair
    } else {
        Difficulty::Extreme
    }
}

/// The highest rank a difficulty admits.
pub open spec fn max_rank(d: Difficulty) -> u32 {
    match d {
        Difficulty::Easy => 14,
        Difficulty::Medium => 80,
        Difficulty::Hard => 190,
        Difficulty::UnFair => 340,
        Difficulty::Extreme => u32::MAX,
    }
}

/// Seconds a generator may spend on a puzzle of difficulty `d`.
pub open spec fn budget_seconds(d: Difficulty) -> u64 {
    match d {
        Difficulty::Easy => 5,
        Difficulty::Medium => 10,
        Difficulty::Hard => 20,
        Difficulty::UnFair => 40,
        Difficulty::Extreme => 60,
    }
}

/// What `web_time::Duration::from_secs` makes of a number of seconds.
pub uninterp spec fn duration_of_secs(secs: u64) -> web_time::Duration;

/// `web_time::Duration::from_secs`: a duration of `secs` whole seconds. What the value
/// holds is opaque here; the contract only names it after its argument.
#[verifier::external_body]
pub(crate) fn duration_from_secs(secs: u64) -> (d: web_time::Duration)
    ensures
        d == duration_of_secs(secs),
{
    web_time::Duration::from_secs(secs)
}

impl Difficulty {
    pub fn from_hardest_technique_rank(rank: u32) -> (r: Self)
        ensures
            r == difficulty_of_rank(rank),
    {
        if rank <= 14 {
            Difficulty::Easy
        } else if rank <= 80 {
            Difficulty::Medium
        } else if rank <= 190 {
            Difficulty::Hard
        } else if rank <= 340 {
            Difficulty::UnFair
        } else {
            Difficulty::Extreme
        }
    }

    pub fn accepts_hardest_technique_rank(self, rank: u32) -> (r: bool)
        ensures
            r == (difficulty_of_rank(rank) == self),
    {
        Difficulty::from_hardest_technique_rank(rank) == self
    }

    pub fn max_hardest_technique_rank(self) -> (r: u32)
        ensures
            r == max_rank(self),
    {
        match self {
            Difficulty::Easy => 14,
            Difficulty::Medium => 80,
            Difficulty::Hard => 190,
            Difficulty::UnFair => 340,
            Difficulty::Extreme => u32::MAX,
        }
    }

    /// Seconds a generator may spend on a puzzle of this difficulty.
    pub fn generation_budget_secs(self) -> (r: u64)
        ensures
            r == budget_seconds(self),
    {
        match self {
            Difficulty::Easy => 5,
            Difficulty::Medium => 10,
            Difficulty::Hard => 20,
            Difficulty::UnFair => 40,
            Difficulty::Extreme => 60,
        }
    }

    /// Time a generator may spend on a puzzle of this difficulty.
    pub fn generation_budget(self) -> (r: web_time::Duration)
        ensures
            r == duration_of_secs(budget_seconds(self)),
    {
        duration_from_secs(self.generation_budget_secs())
    }

    pub open spec fn title(self) -> Seq<char> {
        match self {
            Difficulty::Easy => "Easy"@,
            Difficulty::Medium => "Medium"@,
            Difficulty::Hard => "Hard"@,
            Difficulty::UnFair => "Unfair"@,
            Difficulty::Extreme => "Extreme"@,
        }
    }

    pub fn name(self) -> (r: &'static str)
        ensures
            r@ == self.title(),
    {
        match self {
            Difficulty::Easy => "Easy",
            Difficulty::Medium => "Medium",
            Difficulty::Hard => "Hard",
            Difficulty::UnFair => "Unfair",
            Difficulty::Extreme => "Extreme",
        }
    }
}

/// A rank is accepted by exactly one difficulty, and never lies above that difficulty's
/// highest rank.
pub proof fn lemma_rank_fits(rank: u32)
    ensures
        rank <= max_rank(difficulty_of_rank(rank)),
        forall|d: Difficulty| difficulty_of_rank(rank) == d ==> rank <= max_rank(d),
{
}

/// The classes by the rank of the hardest step: up to 14 (singles) Easy, 15 to 80 Medium,
/// 81 to 190 Hard, 191 to 340 Unfair, above Extreme.
pub proof fn lemma_rank_classes(rank: u32)
    ensures
        (difficulty_of_rank(rank) == Difficulty::Easy) == (rank <= 14),
        (difficulty_of_rank(rank) == Difficulty::Medium) == (15 <= rank <= 80),
        (difficulty_of_rank(rank) == Difficulty::Hard) == (81 <= rank <= 190),
        (difficulty_of_rank(rank) == Difficulty::UnFair) == (191 <= rank <= 340),
        (difficulty_of_rank(rank) == Difficulty::Extreme) == (341 <= rank),
{
}

} // verus!

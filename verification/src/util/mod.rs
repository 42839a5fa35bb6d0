pub mod bits;
pub mod digitset;
pub mod indexset;
pub mod format_step;
pub mod permutations;
pub mod random;
pub mod clock;

pub mod symmetry;
pub mod generate;

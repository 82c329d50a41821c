//! Young tableaux: Robinson-Schensted insertion, bumping, hook lengths,
//! standard tableaux and the Robinson-Schensted-Knuth correspondence.
pub mod correspondence;
pub mod greene;
pub mod hook;
pub mod hook_formula;
pub mod insertion;
pub mod insertion_proofs;
pub mod knuth;
pub mod rsk;
pub mod schensted;
pub mod schur;
pub mod standard;
pub mod tableau;

pub use tableau::YoungTableau;

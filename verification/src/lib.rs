//! A checker for natural-deduction proofs in Fitch style.
//!
//! The crate models terms, formulas, justifications and proof lines, turns a
//! flat list of depth-tagged lines into a canonical node sequence with
//! explicit subproof markers, validates the structural discipline of a Fitch
//! proof, computes which earlier lines and closed subproofs each inference may
//! cite, and checks every inference against the schema of its cited rule.

pub mod data;
pub mod fitch;
pub mod subst;
pub mod checker;
pub mod fix_line_numbers;

pub use checker::check;
pub use fix_line_numbers::fix_line_numbers;

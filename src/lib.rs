//! The DNA-to-RNA rewrite engine of the ICFP 2007 "Endo" task: bases with their
//! protect/unprotect arithmetic, a balanced rope to hold the DNA, and the interpreter
//! that parses patterns and templates, matches and rewrites.
pub mod base;
pub mod coverage;
pub mod dna;
pub mod expand;
pub mod matcher;
pub mod parse;
pub mod plan;
pub mod rope;
pub mod search;
pub mod text;

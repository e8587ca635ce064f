//! Bounty desk: markdown inbox and ledger tables, and the rules that keep them and a
//! proposal in shape.

pub mod laws;
pub mod pattern;
pub mod table;
pub mod text;
pub mod validate;

//! Chemical formulas: a grammar on bytes, the tree it yields, and the
//! reduction of that tree to per-element totals.

pub mod counts;
pub mod flatten;
pub mod formula;
pub mod laws;
pub mod parser;

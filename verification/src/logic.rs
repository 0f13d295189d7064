//! The shared language of the decision problems: first order symbols,
//! terms and formulas, and the literal encoding.

pub mod structure;
pub mod symbol;

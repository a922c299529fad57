//! A Mamdani-style fuzzy inference engine over exact rational coordinates:
//! piecewise-linear membership curves, alpha-cut clipping, rule evaluation
//! with min/max connectives, max-accumulation per output term, pointwise
//! aggregation, and center-of-gravity defuzzification.

pub mod common;
pub mod rat;
pub mod set;
pub mod defuzz;
pub mod fuzz;
pub mod laws;

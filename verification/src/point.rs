//! Points of a curve `y^2 = x^3 + a*x + b` over a prime field.

pub mod laws;
pub mod model;
pub mod point;

//! Arithmetic over prime fields and the group law of short Weierstrass curves.

pub mod finite_fields;
pub mod math;
pub mod point;

//! Residues modulo a prime and their arithmetic.

pub mod campos_finitos;
pub mod fermat;
pub mod laws;
pub mod model;
pub mod primes;

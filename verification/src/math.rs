//! Finite-field and polynomial arithmetic used by the secret-sharing engine.

pub mod gf256;
pub mod polynomial;

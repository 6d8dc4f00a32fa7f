//! Symbolic geometric (Clifford) algebra: basis blades, their signed
//! products, polynomials in named symbols with exact rational coefficients,
//! and multivectors whose coefficients are such polynomials.

pub mod basis;
pub mod element;
pub mod rational;
mod assoc;
pub mod symbols;
pub mod multivector;

pub mod backend;
pub mod field;
pub mod pcs;
pub mod polynomials;

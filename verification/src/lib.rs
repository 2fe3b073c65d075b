//! Modular multiplicative inverses over machine integers, computed with the
//! extended Euclidean algorithm and verified against mathematical contracts.

pub mod trunc;
pub mod gcd;
pub mod inverse;

pub use gcd::euclids_gcd;
pub use inverse::modular_multiplicative_inverse;

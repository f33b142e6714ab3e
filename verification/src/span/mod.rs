//! Folding in which an instance carries the coefficients of the index themselves: the commitments to the index are
//! reconstructed from them where they are wanted.
pub mod augmented;
pub mod checks;
pub mod circuit;
pub mod honest;
pub mod nifs;
pub mod params;
pub mod recursive;
pub mod relation;
pub mod single_step;
pub mod soundness;

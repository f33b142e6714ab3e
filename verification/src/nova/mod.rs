//! The step circuit of a cycle of curves that folds a relaxed instance by the schemes that are compared.
pub mod circuit;
pub mod cubic;
pub mod fold;
pub mod instance;
pub mod prover;
pub mod simulation;
pub mod soundness;
pub mod sumcheck;
pub mod univariate;

//! Indexed holographic folding over the Pallas/Vesta cycle.

#![allow(non_snake_case)]

pub mod augmented;
pub mod bignat;
pub mod combine;
pub mod completeness;
pub mod cs;
pub mod engine;
pub mod errors;
pub mod evaluation;
pub mod field;
pub mod fold_circuit;
pub mod fragment;
pub mod gadgets;
pub mod holographic;
pub mod instance_circuit;
pub mod layout;
pub mod math;
pub mod matrix;
pub mod mle;
pub mod nifs;
pub mod nova;
pub mod oracle;
pub mod pasta;
pub mod points;
pub mod proof_circuit;
pub mod quadratic;
pub mod r1cs;
pub mod relation;
pub mod relaxed;
pub mod shape;
pub mod single_step;
pub mod soundness;
pub mod span;
pub mod sumcheck;
pub mod transcript;

//! The errors that the library returns.
use vstd::prelude::*;

verus! {

/// Why a call was refused.
#[derive(Clone, Copy, Debug, PartialEq, Eq, Structural)]
pub enum NovaError {
    /// An entry of a matrix lies outside of the matrix.
    InvalidIndex,
    /// A step circuit has the wrong number of public values.
    InvalidStepCircuitIO,
    /// An input is not of the right length.
    InvalidInputLength,
    /// A witness is not of the right length.
    InvalidWitnessLength,
    /// A witness does not satisfy its instance.
    UnSat { reason: UnSatReason },
    /// The state that steps start from is not of the right length, or there is no such predicate.
    InvalidInitialInputLength,
    /// A proof does not verify.
    ProofVerifyError { reason: ProofVerifyReason },
    /// A sum-check proof is invalid.
    InvalidSumcheckProof,
    /// A circuit could not be synthesized.
    SynthesisError { reason: SynthesisError },
}

/// Why a proof does not verify.
#[derive(Clone, Copy, Debug, PartialEq, Eq, Structural)]
pub enum ProofVerifyReason {
    /// The number of steps or the inputs are not those of the proof.
    StepsOrInputs,
    /// The predicates are not those of the proof.
    PredicateTrace,
    /// The last step does not hash what the proof hands on.
    OutputHash,
}

impl ProofVerifyReason {
    /// The reason in words.
    pub fn message(&self) -> (r: &'static str)
        ensures
            r@ == match *self {
                ProofVerifyReason::StepsOrInputs => "Invalid number of steps or inputs"@,
                ProofVerifyReason::PredicateTrace => "Invalid predicate trace"@,
                ProofVerifyReason::OutputHash => "Invalid output hash"@,
            },
    {
        match self {
            ProofVerifyReason::StepsOrInputs => "Invalid number of steps or inputs",
            ProofVerifyReason::PredicateTrace => "Invalid predicate trace",
            ProofVerifyReason::OutputHash => "Invalid output hash",
        }
    }
}

/// Why a circuit could not be synthesized.
#[derive(Clone, Copy, Debug, PartialEq, Eq, Structural)]
pub enum SynthesisError {
    /// A value is wanted that was not given.
    AssignmentMissing,
    /// Lists are not of the same length.
    IncompatibleLengthVector,
}

/// What of a folded relation does not hold.
#[derive(Clone, Copy, Debug, PartialEq, Eq, Structural)]
pub enum UnSatReason {
    /// The commitment does not open to the witness.
    WitnessCommitment,
    /// The commitments to the index do not open to its coefficients.
    IndexCommitment,
    /// The claimed evaluations are not those of the witness.
    Relation,
    /// A constraint does not hold.
    Constraints,
    /// A commitment does not open to its vector.
    Commitment,
    /// A witness could not be made.
    MissingWitness,
}

} // verus!

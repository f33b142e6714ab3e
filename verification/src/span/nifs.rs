//! Folding an instance into a folded instance that carries the coefficients of the index.
use super::relation::{
    first_instance, first_witness, fold_instance, fold_witness, folded_sat, folded_z, lengths_fit, FoldedInstance,
    FoldedInstanceView, FoldedWitness, FoldedWitnessView, GlobalStructure,
};
use crate::completeness::{
    lemma_claims_folded, lemma_commit_combined, lemma_commit_resized, lemma_incoming_len, lemma_transcript_points,
    rows_satisfied, transcript_is_accepted,
};
use crate::engine::{commitment_log, CurveEngine, RandomOracle, MAX_ABSORBED};
use crate::errors::NovaError;
use crate::field::FieldElement;
use crate::nifs::{accepted, dummy_nifs, hash_of, opening, transcript, well_shaped, MAX_IO, NIFSView, Running};
use crate::r1cs::{InstanceView, R1CSInstance, R1CSWitness, WitnessView};
use crate::relation::{combined, fold_vec, incoming_z, instance_elements, StructureView};
use crate::shape::join;
use crate::proof_circuit::reached;
use super::soundness::{adds_multiple, verified_fold_adds_incoming};
use crate::soundness::ties_claims;
use crate::mle::reversed;
use crate::sumcheck::Check;
use vstd::arithmetic::power2::pow2;
use vstd::prelude::*;

verus! {

/// The proof of a fold.
pub struct NIFS<E: CurveEngine> {
    pub rounds: crate::nifs::NIFS<E>,
}

impl<E: CurveEngine> View for NIFS<E> {
    type V = NIFSView;

    open spec fn view(&self) -> NIFSView {
        self.rounds@
    }
}

/// What an oracle holds once the inputs of a fold are absorbed.
pub open spec fn absorbed_inputs<E: CurveEngine>(pp_digest: int, id: int, u2: InstanceView) -> Seq<int> {
    seq![pp_digest % E::Base::modulus(), id] + instance_elements::<E>(u2)
}

/// The folded instance that the verifier accepts, unless it rejects.
pub open spec fn verified<E: CurveEngine>(
    s: StructureView,
    pp_digest: int,
    id: int,
    u1: FoldedInstanceView,
    u2: InstanceView,
    proof_: NIFSView,
) -> Option<FoldedInstanceView> {
    let p = E::Base::modulus();
    let q = E::Scalar::modulus();
    match accepted::<E>(s, absorbed_inputs::<E>(pp_digest, id, u2), u1.r_x, u1.r_y, u1.v, proof_) {
        None => None,
        Some(a) => Some(
            fold_instance(
                s,
                id,
                u1,
                u2,
                a.rho,
                a.rho % q,
                a.r_x,
                a.r_y,
                combined(proof_.epsilons, proof_.thetas, a.rho, p),
                p,
                q,
            ),
        ),
    }
}

/// The folded instance that the verifier comes to, whether or not it accepts; it reads the predicate as `id_read`.
pub open spec fn folded_anyway<E: CurveEngine>(
    s: StructureView,
    pp_digest: int,
    id_read: int,
    id: int,
    u1: FoldedInstanceView,
    u2: InstanceView,
    proof_: NIFSView,
) -> FoldedInstanceView {
    let p = E::Base::modulus();
    let q = E::Scalar::modulus();
    let a = reached::<E>(s, absorbed_inputs::<E>(pp_digest, id_read, u2), proof_);
    fold_instance(
        s,
        id,
        u1,
        u2,
        a.rho,
        a.rho % q,
        a.r_x,
        a.r_y,
        combined(proof_.epsilons, proof_.thetas, a.rho, p),
        p,
        q,
    )
}

/// What a fold reads of a folded instance and of its witness.
pub open spec fn running(u1: FoldedInstanceView, w1: FoldedWitnessView) -> Running {
    Running { lambda: u1.lambda, r_x: u1.r_x, r_y: u1.r_y, v: u1.v, z: folded_z(u1, w1) }
}

/// What the prover of a fold comes to.
pub struct Folded {
    pub proof_: NIFSView,
    pub instance: FoldedInstanceView,
    pub witness: FoldedWitnessView,
}

/// What the prover of a fold comes to.
pub open spec fn proved<E: CurveEngine>(
    s: StructureView,
    pp_digest: int,
    id: int,
    u1: FoldedInstanceView,
    w1: FoldedWitnessView,
    u2: InstanceView,
    w2: WitnessView,
) -> Folded {
    let p = E::Base::modulus();
    let q = E::Scalar::modulus();
    let t = transcript::<E>(
        s,
        absorbed_inputs::<E>(pp_digest, id, u2),
        id,
        running(u1, w1),
        incoming_z(s, u2, w2, p),
    );
    let a = t.result;
    let v = combined(t.proof_.epsilons, t.proof_.thetas, a.rho, p);
    Folded {
        proof_: t.proof_,
        instance: fold_instance(s, id, u1, u2, a.rho, a.rho % q, a.r_x, a.r_y, v, p, q),
        witness: fold_witness(s, w1, w2, a.rho, a.rho % q, p, q),
    }
}

impl<E: CurveEngine> NIFS<E> {
    /// An oracle that has absorbed the inputs of a fold.
    fn oracle_of_inputs(
        ro_consts: &<E::RO as RandomOracle<E::Base>>::Constants,
        pp_digest: &E::Scalar,
        predicate_id: usize,
        U2: &R1CSInstance<E>,
    ) -> (ro: E::RO)
        requires
            U2.X.len() <= MAX_IO,
        ensures
            ro.state() == absorbed_inputs::<E>(pp_digest.val(), predicate_id as int, U2@),
            0 < ro.state().len() <= MAX_ABSORBED,
    {
        let mut ro = E::RO::new(ro_consts);
        let digest = E::scalar_as_base(pp_digest);
        ro.absorb(&digest);
        let id = E::Base::from_u64(predicate_id as u64);
        ro.absorb(&id);
        U2.absorb_in_ro(&mut ro);
        assert(ro.state() =~= absorbed_inputs::<E>(pp_digest.val(), predicate_id as int, U2@));
        ro
    }

    /// Checks the proof and folds the instance into the folded instance.
    pub fn verify(
        &self,
        ro_consts: &<E::RO as RandomOracle<E::Base>>::Constants,
        pp_digest: &E::Scalar,
        structure: &GlobalStructure<E>,
        predicate_id: usize,
        U1: &FoldedInstance<E>,
        U2: &R1CSInstance<E>,
    ) -> (r: Result<FoldedInstance<E>, NovaError>)
        requires
            structure.wf(),
            predicate_id < structure@.len() && well_shaped(structure@, self@) ==> U1.v.len() >= 4 && U2.X.len()
                <= MAX_IO && predicate_id < U1.lambda.len(),
        ensures
            match r {
                Ok(u) => predicate_id < structure@.len() && verified::<E>(
                    structure@,
                    pp_digest.val(),
                    predicate_id as int,
                    U1@,
                    U2@,
                    self@,
                ) == Some(u@),
                Err(e) => if predicate_id >= structure@.len() {
                    e == NovaError::InvalidInputLength
                } else {
                    e == NovaError::InvalidSumcheckProof && verified::<E>(
                        structure@,
                        pp_digest.val(),
                        predicate_id as int,
                        U1@,
                        U2@,
                        self@,
                    ) is None
                },
            },
            r matches Ok(u) ==> predicate_id < U1.lambda.len() && U1.r_x.len() == structure@.s_max && U1.r_y.len() == structure@.s_prime_max && U1.X.len()
                == structure@.num_io && U2.X.len() == structure@.num_io ==> ({
                let o = opening::<E>(
                    structure@,
                    absorbed_inputs::<E>(pp_digest.val(), predicate_id as int, U2@),
                );
                exists|x: Check, y: Check|
                    {
                        &&& #[trigger] ties_claims::<E>(
                            structure@,
                            o.gamma,
                            o.alpha,
                            o.state,
                            U1@.r_x,
                            U1@.r_y,
                            U1@.v,
                            self@,
                            x,
                            y,
                        )
                        &&& u@.r_x == reversed(x.point)
                        &&& u@.r_y == reversed(y.point)
                        &&& adds_multiple::<E>(
                            predicate_id as int,
                            U1@,
                            U2@,
                            self@,
                            u@,
                            hash_of::<E>()(y.state) % (pow2(128) as int),
                        )
                    }
            }),
    {
        let s = &structure.index;
        let n = &self.rounds;
        if predicate_id >= s.predicates.len() {
            return Err(NovaError::InvalidInputLength);
        }
        if n.sigmas.len() != 3 || n.taus.len() != 3 || n.epsilons.len() != 4 || n.thetas.len() != 4
            || n.sc_proof_x.polys.len() != s.s_max || n.sc_proof_y.polys.len() != s.s_prime_max {
            return Err(NovaError::InvalidSumcheckProof);
        }
        let mut ro = Self::oracle_of_inputs(ro_consts, pp_digest, predicate_id, U2);
        let (r_x, r_y, rho) = match n.check(&mut ro, s, &U1.r_x, &U1.r_y, &U1.v) {
            Ok(c) => c,
            Err(e) => {
                return Err(e);
            },
        };
        let rho_scalar = E::base_as_scalar(&rho);
        let v = fold_vec(&n.epsilons, &n.thetas, &rho);
        let r = U1.fold(structure, predicate_id, U2, &rho, &rho_scalar, r_x, r_y, v);
        proof {
            assert(U1@.r_x.len() == U1.r_x@.len() && U1@.r_y.len() == U1.r_y@.len());
            assert(U1@.X.len() == U1.X@.len() && U2@.X.len() == U2.X@.len());
            if predicate_id < U1.lambda.len() && U1.r_x.len() == structure@.s_max && U1.r_y.len() == structure@.s_prime_max && U1.X.len()
                == structure@.num_io && U2.X.len() == structure@.num_io {
                verified_fold_adds_incoming::<E>(structure@, pp_digest.val(), predicate_id as int, U1@, U2@, self@);
            }
        }
        Ok(r)
    }

    /// Folds an instance and its witness into a folded instance and its witness, with a proof.
    pub fn prove(
        ck_witness: &E::CommitmentKey,
        ro_consts: &<E::RO as RandomOracle<E::Base>>::Constants,
        pp_digest: &E::Scalar,
        structure: &GlobalStructure<E>,
        predicate_id: usize,
        U1: &FoldedInstance<E>,
        W1: &FoldedWitness<E>,
        U2: &R1CSInstance<E>,
        W2: &R1CSWitness<E>,
    ) -> (r: Result<(Self, (FoldedInstance<E>, FoldedWitness<E>)), NovaError>)
        requires
            structure.wf(),
            structure@.num_vars_max <= E::generators(ck_witness).len(),
            predicate_id < structure@.len() ==> {
                &&& U1.r_x.len() == structure@.s_max
                &&& U1.r_y.len() == structure@.s_prime_max
                &&& U1.lambda.len() <= structure@.len()
                &&& predicate_id < U1.lambda.len()
                &&& U2.X.len() <= MAX_IO
            },
        ensures
            ({
                let f = proved::<E>(structure@, pp_digest.val(), predicate_id as int, U1@, W1@, U2@, W2@);
                let sat = folded_sat::<E>(structure@, *ck_witness, f.instance, f.witness);
                match r {
                    Ok((nifs, (u, w))) => {
                        &&& predicate_id < structure@.len()
                        &&& W2.W.len() <= W1.W.len()
                        &&& sat is Ok
                        &&& nifs@ == f.proof_
                        &&& u@ == f.instance
                        &&& w@ == f.witness
                    },
                    Err(e) => if predicate_id >= structure@.len() {
                        e == NovaError::InvalidInputLength
                    } else if W2.W.len() > W1.W.len() {
                        e == NovaError::InvalidWitnessLength
                    } else {
                        sat == Err::<(), NovaError>(e)
                    },
                }
            }),
    {
        let s = &structure.index;
        if predicate_id >= s.predicates.len() {
            return Err(NovaError::InvalidInputLength);
        }
        let z_running = join(&W1.W_proj, &U1.u, &U1.X);
        let z_new = s.z_from_r1cs(U2, W2);
        let mut ro = Self::oracle_of_inputs(ro_consts, pp_digest, predicate_id, U2);
        let (rounds, r_x, r_y, rho) = crate::nifs::NIFS::prove_rounds(
            &mut ro,
            s,
            predicate_id,
            &U1.lambda,
            &U1.r_x,
            &U1.r_y,
            &z_running,
            &z_new,
            Ghost(U1@.v),
        );
        let rho_scalar = E::base_as_scalar(&rho);
        let v = fold_vec(&rounds.epsilons, &rounds.thetas, &rho);
        let U = U1.fold(structure, predicate_id, U2, &rho, &rho_scalar, r_x, r_y, v);
        let W = match W1.fold(structure, W2, &rho, &rho_scalar) {
            Ok(w) => w,
            Err(e) => {
                return Err(e);
            },
        };
        match structure.is_sat(ck_witness, &U, &W) {
            Ok(()) => {},
            Err(e) => {
                return Err(e);
            },
        }
        Ok((NIFS { rounds }, (U, W)))
    }

    /// A proof in which every sum and every claim is zero, with the challenges that follow from them.
    pub fn dummy(
        ro_consts: &<E::RO as RandomOracle<E::Base>>::Constants,
        pp_digest: &E::Scalar,
        structure: &GlobalStructure<E>,
        predicate_id: usize,
        U2: &R1CSInstance<E>,
    ) -> (r: Self)
        requires
            structure.wf(),
            predicate_id < structure@.len(),
            U2.X.len() <= MAX_IO,
        ensures
            r@ == dummy_nifs::<E>(structure@, absorbed_inputs::<E>(pp_digest.val(), predicate_id as int, U2@)),
    {
        let mut ro = Self::oracle_of_inputs(ro_consts, pp_digest, predicate_id, U2);
        NIFS { rounds: crate::nifs::NIFS::dummy_rounds(&mut ro, &structure.index) }
    }
}

/// The verifier accepts what the prover sends, and comes to the same folded instance: where the running instance
/// is satisfied by its witness, and the incoming vector satisfies the rows of its predicate in the base field.
pub proof fn fold_is_accepted<E: CurveEngine>(
    s: StructureView,
    ck: E::CommitmentKey,
    pp_digest: int,
    id: int,
    u1: FoldedInstanceView,
    w1: FoldedWitnessView,
    u2: InstanceView,
    w2: WitnessView,
)
    requires
        s.wf(),
        0 <= id < s.len(),
        folded_sat::<E>(s, ck, u1, w1) is Ok,
        rows_satisfied(s, id, incoming_z(s, u2, w2, E::Base::modulus()), E::Base::modulus()),
    ensures
        ({
            let f = proved::<E>(s, pp_digest, id, u1, w1, u2, w2);
            verified::<E>(s, pp_digest, id, u1, u2, f.proof_) == Some(f.instance)
        }),
{
    let p = E::Base::modulus();
    lemma_incoming_len(s, u2, w2, p);
    transcript_is_accepted::<E>(
        s,
        absorbed_inputs::<E>(pp_digest, id, u2),
        id,
        running(u1, w1),
        incoming_z(s, u2, w2, p),
    );
}

/// A folded instance stays satisfied: where the running instance is satisfied by its witness, and the incoming
/// commitment opens to the incoming witness, what the prover comes to is satisfied.
pub proof fn fold_stays_satisfied<E: CurveEngine>(
    s: StructureView,
    ck: E::CommitmentKey,
    pp_digest: int,
    id: int,
    u1: FoldedInstanceView,
    w1: FoldedWitnessView,
    u2: InstanceView,
    w2: WitnessView,
)
    requires
        s.wf(),
        s.num_vars_max <= E::generators(&ck).len(),
        0 <= id < s.len(),
        folded_sat::<E>(s, ck, u1, w1) is Ok,
        w2.W.len() <= s.num_vars_max,
        u2.comm_W == commitment_log::<E>(E::generators(&ck), E::blinding(&ck), w2.W, w2.r_W),
    ensures
        ({
            let f = proved::<E>(s, pp_digest, id, u1, w1, u2, w2);
            folded_sat::<E>(s, ck, f.instance, f.witness) is Ok
        }),
{
    let p = E::Base::modulus();
    let q = E::Scalar::modulus();
    E::Base::modulus_bounds();
    E::Scalar::modulus_bounds();
    let f = proved::<E>(s, pp_digest, id, u1, w1, u2, w2);
    let start = absorbed_inputs::<E>(pp_digest, id, u2);
    let zr = folded_z(u1, w1);
    let zn = incoming_z(s, u2, w2, p);
    let t = transcript::<E>(s, start, id, running(u1, w1), zn);
    let rho = t.result.rho;
    let (u, w) = (f.instance, f.witness);
    let (r_x, r_y) = (t.result.r_x, t.result.r_y);
    lemma_transcript_points::<E>(s, start, id, running(u1, w1), zn);
    assert(lengths_fit(s, u, w));
    lemma_commit_combined::<E>(E::generators(&ck), E::blinding(&ck), w1.W, w1.r_W, w2.W, w2.r_W, rho % q);
    let z = folded_z(u, w);
    assert forall|i: int| 0 <= i < zr.len() implies #[trigger] z[i] == (zr[i] + rho * zn[i]) % p by {
        let n = s.num_vars_max;
        if i < n {
            assert(z[i] == w.W_proj[i]);
        } else if i == n {
            assert(z[i] == u.u);
            assert(zn[i] == 1);
            assert(rho * 1 == rho);
        } else {
            assert(z[i] == u.X[i - n - 1]);
        }
    }
    lemma_claims_folded(s, u1.lambda, id, rho, r_x, r_y, zr, zn, z, p);
}

/// The folded instance that one instance and its witness make up is satisfied, where the commitment of the
/// instance opens to the witness.
pub proof fn first_instance_is_satisfied<E: CurveEngine>(
    s: StructureView,
    ck: E::CommitmentKey,
    id: int,
    u: InstanceView,
    w: WitnessView,
)
    requires
        s.wf(),
        s.num_vars_max <= E::generators(&ck).len(),
        0 <= id < s.len(),
        w.W.len() <= s.num_vars_max,
        u.comm_W == commitment_log::<E>(E::generators(&ck), E::blinding(&ck), w.W, w.r_W),
    ensures
        folded_sat::<E>(
            s,
            ck,
            first_instance(s, id, u, w, E::Base::modulus()),
            first_witness(s, w, E::Base::modulus()),
        ) is Ok,
{
    let p = E::Base::modulus();
    let fu = first_instance(s, id, u, w, p);
    let fw = first_witness(s, w, p);
    lemma_commit_resized::<E>(E::generators(&ck), E::blinding(&ck), w.W, w.r_W, s.num_vars_max);
    assert(folded_z(fu, fw) =~= incoming_z(s, u, w, p));
}

} // verus!

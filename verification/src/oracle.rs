//! A random oracle in a constraint system.
use crate::cs::{lemma_step_trans, step, Assignment, ConstraintSystem};
use crate::engine::{vals, RandomOracle, MAX_ABSORBED};
use crate::field::FieldElement;
use crate::fragment::{projection, splice, CircuitEngine};
use crate::gadgets::{
    all_within, ats, bit_ats, bit_wires, bits_value, bits_within, bool_int, le_bits_to_num, wires, AllocatedBit,
    AllocatedNum,
};
use crate::mle::bit;
use crate::nifs::hash_of;
use crate::points::AllocatedPoint;
use crate::sumcheck::{challenge, NUM_CHALLENGE_BITS};
use crate::layout::{lay_squeeze, lay_squeeze_num, SqueezeWires};
use vstd::arithmetic::div_mod::{lemma_fundamental_div_mod, lemma_fundamental_div_mod_converse, lemma_mod_bound};
use vstd::arithmetic::power2::{lemma_pow2_pos, lemma_pow2_unfold, pow2};
use vstd::prelude::*;

verus! {

/// The low bits of a number, as numbers.
pub open spec fn low_bits(h: int, n: nat) -> Seq<int> {
    Seq::new(n, |k: int| bool_int(bit(h, k)))
}

/// The low bits of a number make up its remainder by a power of two.
pub proof fn lemma_low_bits(h: int, n: nat, k: nat)
    requires
        0 <= h,
        k <= n,
    ensures
        bits_value(low_bits(h, n), k as int) == h % (pow2(k) as int),
    decreases k,
{
    if k == 0 {
        vstd::arithmetic::power2::lemma2_to64();
    } else {
        lemma_low_bits(h, n, (k - 1) as nat);
        let m = pow2((k - 1) as nat) as int;
        lemma_pow2_pos((k - 1) as nat);
        lemma_pow2_unfold(k);
        let (a, r) = (h / m, h % m);
        let (c, b) = (a / 2, a % 2);
        lemma_fundamental_div_mod(h, m);
        lemma_mod_bound(h, m);
        assert(h == c * (2 * m) + (m * b + r)) by (nonlinear_arith)
            requires
                h == m * a + r,
                a == 2 * c + b,
        ;
        assert(0 <= m * b + r < 2 * m && m * b == b * m) by (nonlinear_arith)
            requires
                b == 0 || b == 1,
                0 <= r < m,
        ;
        lemma_fundamental_div_mod_converse(h, 2 * m, c, m * b + r);
        assert(low_bits(h, n)[k - 1] == b);
    }
}

/// A random oracle that absorbs numbers of a system.
pub struct OracleCircuit<E: CircuitEngine> {
    pub state: Vec<AllocatedNum<E::Base>>,
}

impl<E: CircuitEngine> OracleCircuit<E> {
    /// An oracle that has absorbed nothing.
    pub fn new() -> (r: Self)
        ensures
            r.state@ == Seq::<AllocatedNum<E::Base>>::empty(),
    {
        OracleCircuit { state: Vec::new() }
    }

    /// Absorbs one number.
    pub fn absorb(&mut self, n: &AllocatedNum<E::Base>)
        ensures
            final(self).state@ == old(self).state@.push(*n),
    {
        self.state.push(*n);
    }

    /// Absorbs numbers, one after the other.
    pub fn absorb_all(&mut self, nums: &Vec<AllocatedNum<E::Base>>)
        ensures
            final(self).state@ == old(self).state@ + nums@,
    {
        let ghost before = self.state@;
        let mut i: usize = 0;
        while i < nums.len()
            invariant
                i <= nums.len(),
                self.state@ == before + nums@.take(i as int),
            decreases nums.len() - i,
        {
            self.state.push(nums[i]);
            i = i + 1;
        }
        assert(nums@.take(nums.len() as int) =~= nums@);
    }

    /// Absorbs the numbers of a point.
    pub fn absorb_point(&mut self, p: &AllocatedPoint<E>)
        ensures
            final(self).state@ == old(self).state@ + p.nums(),
    {
        self.state.push(p.x);
        self.state.push(p.y);
        self.state.push(p.is_infinity);
        assert(self.state@ =~= old(self).state@ + p.nums());
    }

    /// Hashes what was absorbed, keeps the hash as the new state and returns its low bits.
    pub fn squeeze(
        &mut self,
        cs: &mut ConstraintSystem<E::Base>,
        constants: &<E::RO as RandomOracle<E::Base>>::Constants,
        num_bits: usize,
    ) -> (r: Vec<AllocatedBit<E::Base>>)
        requires
            old(cs)@.wf(),
            num_bits <= 250,
            0 < old(self).state.len() <= MAX_ABSORBED,
            all_within(old(self).state@, old(cs)@),
        ensures
            (final(cs)@.layout(), bit_wires(r@), wires(final(self).state@)) == lay_squeeze::<E>(
                old(cs)@.layout(),
                wires(old(self).state@),
                num_bits as int,
            ),
            step(old(cs)@, final(cs)@),
            final(cs)@.satisfied() == old(cs)@.satisfied(),
            final(cs).witness == old(cs).witness,
            final(cs)@.inputs == old(cs)@.inputs,
            r.len() == num_bits,
            bits_within(r@, final(cs)@),
            final(self).state.len() == 1,
            all_within(final(self).state@, final(cs)@),
            forall|x: Assignment| #[trigger]
                final(cs)@.follows(x) ==> ({
                    let h = <E::RO as RandomOracle<E::Base>>::hash(ats(old(self).state@, x));
                    &&& ats(final(self).state@, x) == seq![h]
                    &&& 0 <= h < E::Base::modulus()
                    &&& bit_ats(r@, x) == low_bits(h, num_bits as nat)
                }),
    {
        proof {
            reveal(lay_squeeze);
        }
        let ghost before = cs@;
        let ghost p = E::Base::modulus();
        let ghost state0 = self.state@;
        let ghost n = self.state.len() as int;
        let ghost base1 = cs@.aux.len() as int;
        let mut values: Vec<E::Base> = Vec::new();
        let mut i: usize = 0;
        while i < self.state.len()
            invariant
                i <= self.state.len(),
                values.len() == i,
                forall|k: int| 0 <= k < i ==> #[trigger] values@[k] == self.state@[k].value,
            decreases self.state.len() - i,
        {
            values.push(self.state[i].value);
            i = i + 1;
        }
        assert(vals(values@) =~= Seq::new(state0.len(), |i: int| state0[i].value.val()));
        let hash_fragment = E::hash_fragment(constants, &values);
        let hashed = splice(cs, &hash_fragment, &self.state);
        let ghost mid = cs@;
        let hash = hashed[0];
        proof {
            assert forall|x: Assignment| #[trigger] mid.follows(x) implies hash.at(x)
                == <E::RO as RandomOracle<E::Base>>::hash(ats(state0, x)) by {
                let y = projection(state0, base1, hash_fragment.aux.len() as int, x);
                assert(hash_fragment@.accepts(y, n, p));
                assert(hash_fragment@.results(y)[0] == ats(hashed@, x)[0]);
            }
            assert(hashed@[0].within(mid));
        }
        let bits_fragment = E::bits_fragment(&hash.value);
        let mut input: Vec<AllocatedNum<E::Base>> = Vec::new();
        input.push(hash);
        let ghost base2 = cs@.aux.len() as int;
        assert(Seq::new(input@.len(), |i: int| input@[i].value.val()) =~= seq![hash.value.val()]);
        let unpacked = splice(cs, &bits_fragment, &input);
        let ghost after = cs@;
        let mut r: Vec<AllocatedBit<E::Base>> = Vec::new();
        proof {
            lemma_step_trans(before, mid, after);
            assert forall|x: Assignment, k: int|
                #![trigger after.follows(x), unpacked@[k]]
                after.follows(x) && 0 <= k < 255 implies unpacked@[k].at(x) == bool_int(bit(hash.at(x), k)) && 0
                <= hash.at(x) < p by {
                let y = projection(input@, base2, bits_fragment.aux.len() as int, x);
                assert(bits_fragment@.accepts(y, 1, p));
                assert(bits_fragment@.results(y)[k] == ats(unpacked@, x)[k]);
                assert(y.inputs[1] == y.inputs.skip(1)[0]);
                assert(y.get(bits_fragment@.outputs[k]) == bool_int(bit(y.inputs[1], k)));
            }
        }
        let mut j: usize = 0;
        while j < num_bits
            invariant
                j <= num_bits,
                num_bits <= 250,
                r.len() == j,
                unpacked.len() == 255,
                after == cs@,
                all_within(unpacked@, after),
                bits_within(r@, after),
                forall|x: Assignment, k: int|
                    #![trigger after.follows(x), unpacked@[k]]
                    after.follows(x) && 0 <= k < 255 ==> unpacked@[k].at(x) == bool_int(bit(hash.at(x), k)),
                forall|k: int| 0 <= k < j ==> (#[trigger] r@[k]).num == unpacked@[k],
            decreases num_bits - j,
        {
            let b = AllocatedBit { num: unpacked[j] };
            proof {
                assert(unpacked@[j as int].within(after));
                assert forall|x: Assignment| #[trigger] after.follows(x) implies b.at(x) == 0 || b.at(x) == 1 by {
                    assert(unpacked@[j as int].at(x) == bool_int(bit(hash.at(x), j as int)));
                }
            }
            r.push(b);
            j = j + 1;
        }
        self.state = input;
        proof {
            assert(wires(input@) =~= seq![hash.variable]);
            assert(wires(hashed@)[0] == hash.variable);
            assert(bit_wires(r@) =~= wires(unpacked@).take(num_bits as int));
            assert(hash.within(after));
            assert forall|x: Assignment| #[trigger] after.follows(x) implies ({
                let h = <E::RO as RandomOracle<E::Base>>::hash(ats(state0, x));
                &&& ats(self.state@, x) == seq![h]
                &&& 0 <= h < E::Base::modulus()
                &&& bit_ats(r@, x) == low_bits(h, num_bits as nat)
            }) by {
                assert(mid.follows(x));
                let h = <E::RO as RandomOracle<E::Base>>::hash(ats(state0, x));
                assert(unpacked@[0].at(x) == bool_int(bit(hash.at(x), 0)));
                assert(ats(self.state@, x) =~= seq![h]);
                assert forall|k: int| 0 <= k < num_bits implies (#[trigger] r@[k]).at(x) == bool_int(bit(h, k)) by {
                    assert(unpacked@[k].at(x) == bool_int(bit(hash.at(x), k)));
                }
                assert(bit_ats(r@, x) =~= low_bits(h, num_bits as nat));
            }
        }
        r
    }

    /// Squeezes a number of some bits, and returns its bits too.
    pub fn squeeze_num(
        &mut self,
        cs: &mut ConstraintSystem<E::Base>,
        constants: &<E::RO as RandomOracle<E::Base>>::Constants,
        num_bits: usize,
    ) -> (r: (AllocatedNum<E::Base>, Vec<AllocatedBit<E::Base>>))
        requires
            old(cs)@.wf(),
            num_bits <= 250,
            0 < old(self).state.len() <= MAX_ABSORBED,
            all_within(old(self).state@, old(cs)@),
        ensures
            (final(cs)@.layout(), (SqueezeWires { num: r.0.variable, bits: bit_wires(r.1@), state: wires(final(self).state@) }))
                == lay_squeeze_num::<E>(old(cs)@.layout(), wires(old(self).state@), num_bits as int, E::Base::modulus()),
            step(old(cs)@, final(cs)@),
            final(cs)@.satisfied() == old(cs)@.satisfied(),
            final(cs).witness == old(cs).witness,
            final(cs)@.inputs == old(cs)@.inputs,
            r.0.within(final(cs)@),
            r.1.len() == num_bits,
            bits_within(r.1@, final(cs)@),
            final(self).state.len() == 1,
            all_within(final(self).state@, final(cs)@),
            forall|x: Assignment| #[trigger]
                final(cs)@.follows(x) ==> ({
                    let h = <E::RO as RandomOracle<E::Base>>::hash(ats(old(self).state@, x));
                    &&& ats(final(self).state@, x) == seq![h]
                    &&& r.0.at(x) == h % (pow2(num_bits as nat) as int)
                    &&& bits_value(bit_ats(r.1@, x), num_bits as int) == h % (pow2(num_bits as nat) as int)
                }),
    {
        proof {
            reveal(lay_squeeze_num);
        }
        let ghost before = cs@;
        let ghost p = E::Base::modulus();
        let ghost state0 = self.state@;
        let bits = self.squeeze(cs, constants, num_bits);
        let ghost mid = cs@;
        let num = le_bits_to_num(cs, &bits);
        proof {
            lemma_step_trans(before, mid, cs@);
            assert forall|x: Assignment| #[trigger] cs@.follows(x) implies ({
                let h = <E::RO as RandomOracle<E::Base>>::hash(ats(state0, x));
                &&& ats(self.state@, x) == seq![h]
                &&& num.at(x) == h % (pow2(num_bits as nat) as int)
                &&& bits_value(bit_ats(bits@, x), num_bits as int) == h % (pow2(num_bits as nat) as int)
            }) by {
                assert(mid.follows(x));
                let h = <E::RO as RandomOracle<E::Base>>::hash(ats(state0, x));
                lemma_low_bits(h, num_bits as nat, num_bits as nat);
                let m = pow2(num_bits as nat) as int;
                lemma_pow2_pos(num_bits as nat);
                lemma_mod_bound(h, m);
                vstd::arithmetic::div_mod::lemma_mod_decreases(h as nat, m as nat);
                vstd::arithmetic::div_mod::lemma_small_mod((h % m) as nat, p as nat);
            }
        }
        (num, bits)
    }

    /// Squeezes a challenge.
    pub fn squeeze_challenge(
        &mut self,
        cs: &mut ConstraintSystem<E::Base>,
        constants: &<E::RO as RandomOracle<E::Base>>::Constants,
    ) -> (r: AllocatedNum<E::Base>)
        requires
            old(cs)@.wf(),
            0 < old(self).state.len() <= MAX_ABSORBED,
            all_within(old(self).state@, old(cs)@),
        ensures
            ({
                let (l, w) = lay_squeeze_num::<E>(old(cs)@.layout(), wires(old(self).state@), 128, E::Base::modulus());
                &&& final(cs)@.layout() == l
                &&& r.variable == w.num
                &&& wires(final(self).state@) == w.state
            }),
            step(old(cs)@, final(cs)@),
            final(cs)@.satisfied() == old(cs)@.satisfied(),
            final(cs).witness == old(cs).witness,
            final(cs)@.inputs == old(cs)@.inputs,
            r.within(final(cs)@),
            final(self).state.len() == 1,
            all_within(final(self).state@, final(cs)@),
            forall|x: Assignment| #[trigger]
                final(cs)@.follows(x) ==> ats(final(self).state@, x) == seq![hash_of::<E>()(ats(old(self).state@, x))]
                    && r.at(x) == challenge(hash_of::<E>(), ats(old(self).state@, x)),
    {
        let (num, _bits) = self.squeeze_num(cs, constants, NUM_CHALLENGE_BITS);
        num
    }
}

} // verus!

//! The bytes that stand for commitments and field elements in a transcript.
use crate::engine::{vals, Commitment, CurveEngine, CurveGroup, PointView};
use crate::field::{bytes_value, FieldElement};
use crate::relation::FoldedInstance;
use vstd::prelude::*;

verus! {

/// Whether 32 bytes from the index on are the little-endian bytes of a residue.
pub open spec fn element_at(s: Seq<u8>, at: int, v: int) -> bool {
    exists|b: [u8; 32]| #[trigger] bytes_value(b) == v && s.subrange(at, at + 32) == b@
}

/// Whether 65 bytes from the index on are the coordinates of a point and one byte for whether it is the one at infinity.
pub open spec fn point_at(s: Seq<u8>, at: int, c: PointView) -> bool {
    &&& element_at(s, at, c.0)
    &&& element_at(s, at + 32, c.1)
    &&& s[at + 64] == if c.2 {
        1u8
    } else {
        0u8
    }
}

/// Whether residues follow each other from the index on.
pub open spec fn elements_at(s: Seq<u8>, at: int, v: Seq<int>) -> bool {
    forall|k: int| 0 <= k < v.len() ==> element_at(s, at + 32 * k, #[trigger] v[k])
}

/// What stands in some bytes stands in all that go on from them.
proof fn lemma_prefix(s: Seq<u8>, t: Seq<u8>, at: int, v: int)
    requires
        0 <= at,
        at + 32 <= s.len() <= t.len(),
        t.take(s.len() as int) == s,
        element_at(s, at, v),
    ensures
        element_at(t, at, v),
{
    let b = choose|b: [u8; 32]| #[trigger] bytes_value(b) == v && s.subrange(at, at + 32) == b@;
    assert(t.subrange(at, at + 32) =~= t.take(s.len() as int).subrange(at, at + 32));
    assert(bytes_value(b) == v);
}

/// The point that stands in some bytes stands in all that go on from them.
proof fn lemma_point_prefix(s: Seq<u8>, t: Seq<u8>, at: int, c: PointView)
    requires
        0 <= at,
        at + 65 <= s.len() <= t.len(),
        t.take(s.len() as int) == s,
        point_at(s, at, c),
    ensures
        point_at(t, at, c),
{
    lemma_prefix(s, t, at, c.0);
    lemma_prefix(s, t, at + 32, c.1);
    assert(t[at + 64] == t.take(s.len() as int)[at + 64]);
}

/// The elements that stand in some bytes stand in all that go on from them.
proof fn lemma_elements_prefix(s: Seq<u8>, t: Seq<u8>, at: int, v: Seq<int>)
    requires
        0 <= at,
        at + 32 * v.len() <= s.len() <= t.len(),
        t.take(s.len() as int) == s,
        elements_at(s, at, v),
    ensures
        elements_at(t, at, v),
{
    assert forall|k: int| 0 <= k < v.len() implies element_at(t, at + 32 * k, #[trigger] v[k]) by {
        lemma_prefix(s, t, at + 32 * k, v[k]);
    }
}

/// Appends an element.
pub fn append_element<F: FieldElement>(out: &mut Vec<u8>, e: &F)
    ensures
        final(out)@.len() == old(out)@.len() + 32,
        final(out)@.take(old(out)@.len() as int) == old(out)@,
        element_at(final(out)@, old(out)@.len() as int, e.val()),
{
    let ghost before = out@;
    let ghost n = out@.len() as int;
    let bytes = e.to_bytes();
    let mut i: usize = 0;
    while i < 32
        invariant
            i <= 32,
            out@ == before + bytes@.take(i as int),
        decreases 32 - i,
    {
        out.push(bytes[i]);
        assert(bytes@.take(i + 1) =~= bytes@.take(i as int).push(bytes@[i as int]));
        i = i + 1;
    }
    proof {
        assert(bytes@.take(32) =~= bytes@);
        assert(out@.take(n) =~= before);
        assert(out@.subrange(n, n + 32) =~= bytes@);
        assert(bytes_value(bytes) == e.val());
    }
}

/// Appends a commitment.
pub fn append_commitment<E: CurveGroup>(out: &mut Vec<u8>, c: &Commitment<E>)
    ensures
        final(out)@.len() == old(out)@.len() + 65,
        final(out)@.take(old(out)@.len() as int) == old(out)@,
        point_at(final(out)@, old(out)@.len() as int, E::multiple(c@)),
{
    let ghost before = out@;
    let ghost n = out@.len() as int;
    let (x, y, infinite) = c.to_coordinates();
    append_element(out, &x);
    let ghost s1 = out@;
    append_element(out, &y);
    let ghost s2 = out@;
    out.push(if infinite {
        1
    } else {
        0
    });
    proof {
        assert(out@.take(s2.len() as int) =~= s2);
        assert(out@.take(s1.len() as int) =~= s2.take(s1.len() as int));
        assert(out@.take(n) =~= s1.take(n));
        lemma_prefix(s1, out@, n, x.val());
        lemma_prefix(s2, out@, n + 32, y.val());
    }
}

/// Appends elements.
pub fn append_elements<F: FieldElement>(out: &mut Vec<u8>, v: &Vec<F>)
    ensures
        final(out)@.len() == old(out)@.len() + 32 * v@.len(),
        final(out)@.take(old(out)@.len() as int) == old(out)@,
        elements_at(final(out)@, old(out)@.len() as int, vals(v@)),
{
    let ghost before = out@;
    let ghost n = out@.len() as int;
    let mut i: usize = 0;
    assert(out@.take(n) =~= before);
    while i < v.len()
        invariant
            i <= v.len(),
            n == before.len(),
            out@.len() == n + 32 * i,
            out@.take(n) == before,
            elements_at(out@, n, vals(v@).take(i as int)),
        decreases v.len() - i,
    {
        let ghost mid = out@;
        append_element(out, &v[i]);
        proof {
            let (done, more) = (vals(v@).take(i as int), vals(v@).take(i + 1));
            assert(out@.take(n) =~= mid.take(n));
            lemma_elements_prefix(mid, out@, n, done);
            assert forall|k: int| 0 <= k < more.len() implies element_at(out@, n + 32 * k, #[trigger] more[k]) by {
                if k < i {
                    assert(done[k] == more[k]);
                }
            }
        }
        i = i + 1;
    }
    assert(vals(v@).take(v.len() as int) =~= vals(v@));
}

/// Whether bytes are those of a folded instance: the four commitments, then the factor, the public values, the two
/// points and the claims.
pub open spec fn instance_bytes<E: CurveEngine>(s: Seq<u8>, U: FoldedInstance<E>) -> bool {
    let (x, rx, ry) = (32 * U.X@.len() as int, 32 * U.r_x@.len() as int, 32 * U.r_y@.len() as int);
    &&& s.len() == 292 + x + rx + ry + 32 * U.v@.len()
    &&& point_at(s, 0, E::multiple(U.comm_W@))
    &&& point_at(s, 65, E::multiple(U.comm_M[0]@))
    &&& point_at(s, 130, E::multiple(U.comm_M[1]@))
    &&& point_at(s, 195, E::multiple(U.comm_M[2]@))
    &&& element_at(s, 260, U.u.val())
    &&& elements_at(s, 292, vals(U.X@))
    &&& elements_at(s, 292 + x, vals(U.r_x@))
    &&& elements_at(s, 292 + x + rx, vals(U.r_y@))
    &&& elements_at(s, 292 + x + rx + ry, vals(U.v@))
}

impl<E: CurveEngine> FoldedInstance<E> {
    /// The bytes of the instance in a transcript.
    pub fn to_transcript_bytes(&self) -> (r: Vec<u8>)
        ensures
            instance_bytes(r@, *self),
    {
        let mut out: Vec<u8> = Vec::new();
        append_commitment(&mut out, &self.comm_W);
        let ghost s1 = out@;
        append_commitment(&mut out, &self.comm_M[0]);
        let ghost s2 = out@;
        append_commitment(&mut out, &self.comm_M[1]);
        let ghost s3 = out@;
        append_commitment(&mut out, &self.comm_M[2]);
        let ghost s4 = out@;
        append_element(&mut out, &self.u);
        let ghost s5 = out@;
        append_elements(&mut out, &self.X);
        let ghost s6 = out@;
        append_elements(&mut out, &self.r_x);
        let ghost s7 = out@;
        append_elements(&mut out, &self.r_y);
        let ghost s8 = out@;
        append_elements(&mut out, &self.v);
        proof {
            let s = out@;
            let (x, rx, ry) = (32 * self.X@.len() as int, 32 * self.r_x@.len() as int, 32 * self.r_y@.len() as int);
            assert(s.take(s7.len() as int) =~= s8.take(s7.len() as int));
            assert(s.take(s6.len() as int) =~= s7.take(s6.len() as int));
            assert(s.take(s5.len() as int) =~= s6.take(s5.len() as int));
            assert(s.take(s4.len() as int) =~= s5.take(s4.len() as int));
            assert(s.take(s3.len() as int) =~= s4.take(s3.len() as int));
            assert(s.take(s2.len() as int) =~= s3.take(s2.len() as int));
            assert(s.take(s1.len() as int) =~= s2.take(s1.len() as int));
            lemma_point_prefix(s1, s, 0, E::multiple(self.comm_W@));
            lemma_point_prefix(s2, s, 65, E::multiple(self.comm_M[0]@));
            lemma_point_prefix(s3, s, 130, E::multiple(self.comm_M[1]@));
            lemma_point_prefix(s4, s, 195, E::multiple(self.comm_M[2]@));
            lemma_prefix(s5, s, 260, self.u.val());
            lemma_elements_prefix(s6, s, 292, vals(self.X@));
            lemma_elements_prefix(s7, s, 292 + x, vals(self.r_x@));
            lemma_elements_prefix(s8, s, 292 + x + rx, vals(self.r_y@));
        }
        out
    }
}

/// What stands at a place is one residue only.
proof fn lemma_element_determined(s: Seq<u8>, at: int, v: int, w: int)
    requires
        element_at(s, at, v),
        element_at(s, at, w),
    ensures
        v == w,
{
    let a = choose|b: [u8; 32]| #[trigger] bytes_value(b) == v && s.subrange(at, at + 32) == b@;
    let b = choose|b: [u8; 32]| #[trigger] bytes_value(b) == w && s.subrange(at, at + 32) == b@;
    assert(a@ == b@);
    assert forall|i: int| 0 <= i < 32 implies a[i] == b[i] by {
        assert(a@[i] == b@[i]);
    }
}

/// What stands from a place on are the residues of one sequence only.
proof fn lemma_elements_determined(s: Seq<u8>, at: int, v: Seq<int>, w: Seq<int>)
    requires
        v.len() == w.len(),
        elements_at(s, at, v),
        elements_at(s, at, w),
    ensures
        v == w,
{
    assert forall|k: int| 0 <= k < v.len() implies v[k] == w[k] by {
        lemma_element_determined(s, at + 32 * k, v[k], w[k]);
    }
    assert(v =~= w);
}

/// The bytes of a folded instance determine all of it, for instances of the same sizes.
pub proof fn bytes_determine_instance<E: CurveEngine>(s: Seq<u8>, U: FoldedInstance<E>, V: FoldedInstance<E>)
    requires
        instance_bytes(s, U),
        instance_bytes(s, V),
        U.X@.len() == V.X@.len(),
        U.r_x@.len() == V.r_x@.len(),
        U.r_y@.len() == V.r_y@.len(),
    ensures
        E::multiple(U.comm_W@) == E::multiple(V.comm_W@),
        forall|j: int| 0 <= j < 3 ==> E::multiple((#[trigger] U.comm_M[j])@) == E::multiple(V.comm_M[j]@),
        U.u.val() == V.u.val(),
        vals(U.X@) == vals(V.X@),
        vals(U.r_x@) == vals(V.r_x@),
        vals(U.r_y@) == vals(V.r_y@),
        vals(U.v@) == vals(V.v@),
        s.len() == 4 * 65 + 32 * (1 + U.X@.len() + U.r_x@.len() + U.r_y@.len() + U.v@.len()),
{
    let (x, rx, ry) = (32 * U.X@.len() as int, 32 * U.r_x@.len() as int, 32 * U.r_y@.len() as int);
    lemma_point_determined(s, 0, E::multiple(U.comm_W@), E::multiple(V.comm_W@));
    lemma_point_determined(s, 65, E::multiple(U.comm_M[0]@), E::multiple(V.comm_M[0]@));
    lemma_point_determined(s, 130, E::multiple(U.comm_M[1]@), E::multiple(V.comm_M[1]@));
    lemma_point_determined(s, 195, E::multiple(U.comm_M[2]@), E::multiple(V.comm_M[2]@));
    lemma_element_determined(s, 260, U.u.val(), V.u.val());
    lemma_elements_determined(s, 292, vals(U.X@), vals(V.X@));
    lemma_elements_determined(s, 292 + x, vals(U.r_x@), vals(V.r_x@));
    lemma_elements_determined(s, 292 + x + rx, vals(U.r_y@), vals(V.r_y@));
    lemma_elements_determined(s, 292 + x + rx + ry, vals(U.v@), vals(V.v@));
}

/// What stands at a place is one point only.
proof fn lemma_point_determined(s: Seq<u8>, at: int, c: PointView, d: PointView)
    requires
        point_at(s, at, c),
        point_at(s, at, d),
    ensures
        c == d,
{
    lemma_element_determined(s, at, c.0, d.0);
    lemma_element_determined(s, at + 32, c.1, d.1);
}

/// Where the parts of a folded instance stand in its bytes: the commitment to the witness, those to the index, the factor,
/// the public values, the two points and the claims.
pub proof fn bytes_are_in_order<E: CurveEngine>(s: Seq<u8>, U: FoldedInstance<E>)
    requires
        instance_bytes(s, U),
    ensures
        point_at(s, 0, E::multiple(U.comm_W@)),
        forall|j: int| 0 <= j < 3 ==> point_at(s, 65 + 65 * j, E::multiple((#[trigger] U.comm_M[j])@)),
        element_at(s, 260, U.u.val()),
        forall|k: int| 0 <= k < U.X@.len() ==> element_at(s, 292 + 32 * k, (#[trigger] U.X@[k]).val()),
        forall|k: int| 0 <= k < U.r_x@.len() ==> element_at(s, 292 + 32 * (U.X@.len() + k), (#[trigger] U.r_x@[k]).val()),
        forall|k: int|
            0 <= k < U.r_y@.len() ==> element_at(
                s,
                292 + 32 * (U.X@.len() + U.r_x@.len() + k),
                (#[trigger] U.r_y@[k]).val(),
            ),
        forall|k: int|
            0 <= k < U.v@.len() ==> element_at(
                s,
                292 + 32 * (U.X@.len() + U.r_x@.len() + U.r_y@.len() + k),
                (#[trigger] U.v@[k]).val(),
            ),
{
    let (x, rx, ry) = (32 * U.X@.len() as int, 32 * U.r_x@.len() as int, 32 * U.r_y@.len() as int);
    lemma_each_element(s, 292, U.X@);
    lemma_each_element(s, 292 + x, U.r_x@);
    lemma_each_element(s, 292 + x + rx, U.r_y@);
    lemma_each_element(s, 292 + x + rx + ry, U.v@);
}

/// Each element of a list stands at its place.
proof fn lemma_each_element<F: FieldElement>(s: Seq<u8>, at: int, v: Seq<F>)
    requires
        elements_at(s, at, vals(v)),
    ensures
        forall|k: int| 0 <= k < v.len() ==> element_at(s, at + 32 * k, (#[trigger] v[k]).val()),
{
    assert forall|k: int| 0 <= k < v.len() implies element_at(s, at + 32 * k, (#[trigger] v[k]).val()) by {
        assert(vals(v)[k] == v[k].val());
    }
}

} // verus!

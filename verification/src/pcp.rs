//! Fully linear proofs of the validity of an encoded measurement.
//!
//! A [`Type`] describes which vectors of field elements are valid by an arithmetic circuit with
//! one kind of gadget. A prover who knows a valid vector makes a proof with [`prove`]. Parties
//! that each hold an additive share of the vector and of the proof compute with [`query`] an
//! additive share of a verifier message, and [`decide`] tells from the sum of these shares
//! whether the vector is valid.
use vstd::prelude::*;

pub mod gadgets;
pub mod laws;
pub mod system;
pub mod types;

verus! {

use vstd::arithmetic::power::pow;
use vstd::arithmetic::power2::{lemma2_to64, lemma_pow2_strictly_increases, lemma_pow2_unfold, pow2};
use crate::arith::{cong, lincomb, reduced, seq_cong};
use crate::field::{half_val, vals, FieldElement};
use crate::poly::{eval, interpolate};
use self::gadgets::{evals, Gadget};

/// An error of the proof system.
#[derive(Clone, Copy, Debug, PartialEq, Eq)]
pub enum PcpError {
    /// The parameters of a type are not valid.
    Parameters,
    /// The measurement cannot be encoded.
    Encode,
    /// The arguments of `prove` do not have the expected lengths.
    Prove,
    /// The arguments of `query` do not have the expected lengths.
    Query,
    /// The query randomness is a point that the prover has used.
    QueryRandomness,
    /// The verifier message does not have the expected length.
    Decide,
    /// The input does not have the expected length.
    Truncate,
}

/// The smallest `l` with `n <= 2^l`.
pub open spec fn log2_ceil(n: nat) -> nat
    decreases n,
{
    if n <= 1 {
        0
    } else {
        1 + log2_ceil(((n + 1) / 2) as nat)
    }
}

pub proof fn lemma_log2_ceil(n: nat)
    ensures
        n <= pow2(log2_ceil(n)),
        log2_ceil(n) > 0 ==> pow2((log2_ceil(n) - 1) as nat) < n,
    decreases n,
{
    lemma2_to64();
    if n > 1 {
        let k = ((n + 1) / 2) as nat;
        lemma_log2_ceil(k);
        lemma_pow2_unfold(log2_ceil(n));
        if log2_ceil(k) > 0 {
            lemma_pow2_unfold(log2_ceil(k));
        }
    }
}

/// The exponent is determined by the two bounds.
pub proof fn lemma_log2_ceil_unique(n: nat, l: nat)
    requires
        n <= pow2(l),
        l > 0 ==> pow2((l - 1) as nat) < n,
    ensures
        l == log2_ceil(n),
{
    lemma_log2_ceil(n);
    let k = log2_ceil(n);
    if l < k {
        if l < k - 1 {
            lemma_pow2_strictly_increases(l, (k - 1) as nat);
        }
    } else if k < l {
        if k < l - 1 {
            lemma_pow2_strictly_increases(k, (l - 1) as nat);
        }
    }
}

/// A type of measurements, with the circuit that tells the valid encodings.
///
/// The circuit makes `calls_spec()` calls to one gadget. The inputs of the calls are linear in
/// the encoded measurement and the constant one, of which each party holds a share `s`; the
/// output of the circuit is linear in these and in the outputs of the calls. An encoded
/// measurement is valid if the output is zero.
pub trait Type: Sized {
    /// A measurement.
    type Measurement;

    /// The field.
    type Field: FieldElement;

    /// The gadget that the circuit calls.
    type Gadget: Gadget<Self::Field>;

    /// The type is well formed.
    spec fn wf(&self) -> bool;

    /// The length of an encoded measurement.
    spec fn input_len_spec(&self) -> nat;

    /// The length of an aggregatable output.
    spec fn output_len_spec(&self) -> nat;

    /// The number of random elements that the circuit uses.
    spec fn joint_rand_len_spec(&self) -> nat;

    /// The number of gadget calls.
    spec fn calls_spec(&self) -> nat;

    /// The gadget.
    spec fn gadget_spec(&self) -> Self::Gadget;

    /// The `a`-th input of the `k`-th gadget call.
    spec fn wire(&self, x: Seq<int>, jr: Seq<int>, s: int, k: int, a: int) -> int;

    /// The output of the circuit, given the outputs `g` of the gadget calls.
    spec fn circuit(&self, x: Seq<int>, g: Seq<int>, jr: Seq<int>, s: int) -> int;

    /// The encoded measurement, or `None` if the measurement is out of range.
    spec fn encode_spec(&self, m: Self::Measurement) -> Option<Seq<int>>;

    /// What a measurement adds to the aggregate.
    spec fn contribution(&self, m: Self::Measurement) -> Seq<int>;

    /// The aggregatable output of an encoded measurement.
    spec fn truncate_spec(&self, x: Seq<int>) -> Seq<int>;

    /// The encoded measurement is valid.
    spec fn valid(&self, x: Seq<int>) -> bool;

    /// The sizes of the circuit are within the bounds of the machine and of the field.
    proof fn lemma_sizes(&self)
        requires
            self.wf(),
        ensures
            self.gadget_spec().wf(),
            self.input_len_spec() <= usize::MAX,
            self.output_len_spec() <= usize::MAX,
            self.joint_rand_len_spec() <= usize::MAX,
            log2_ceil(self.calls_spec() + 1) <= Self::Field::num_roots(),
            self.gadget_spec().arity_spec() + self.gadget_spec().degree_spec() * (pow2(
                log2_ceil(self.calls_spec() + 1),
            ) - 1) + 2 * pow2(log2_ceil(self.calls_spec() + 1)) + 3 <= usize::MAX,
    ;

    /// The wires are linear in the input and the share of one.
    proof fn lemma_wire_linear(
        &self,
        a: int,
        x: Seq<int>,
        s: int,
        b: int,
        y: Seq<int>,
        t: int,
        jr: Seq<int>,
        k: int,
        i: int,
    )
        requires
            self.wf(),
            x.len() == self.input_len_spec(),
            y.len() == self.input_len_spec(),
            jr.len() == self.joint_rand_len_spec(),
            0 <= k < self.calls_spec(),
            0 <= i < self.gadget_spec().arity_spec(),
        ensures
            self.wire(lincomb(a, x, b, y), jr, a * s + b * t, k, i) == a * self.wire(x, jr, s, k, i)
                + b * self.wire(y, jr, t, k, i),
    ;

    /// The output is linear in the input, the gadget outputs and the share of one.
    proof fn lemma_circuit_linear(
        &self,
        a: int,
        x: Seq<int>,
        g: Seq<int>,
        s: int,
        b: int,
        y: Seq<int>,
        h: Seq<int>,
        t: int,
        jr: Seq<int>,
    )
        requires
            self.wf(),
            x.len() == self.input_len_spec(),
            y.len() == self.input_len_spec(),
            g.len() == self.calls_spec(),
            h.len() == self.calls_spec(),
            jr.len() == self.joint_rand_len_spec(),
        ensures
            self.circuit(lincomb(a, x, b, y), lincomb(a, g, b, h), jr, a * s + b * t) == a
                * self.circuit(x, g, jr, s) + b * self.circuit(y, h, jr, t),
    ;

    /// Truncation is linear.
    proof fn lemma_truncate_linear(&self, a: int, x: Seq<int>, b: int, y: Seq<int>)
        requires
            self.wf(),
            x.len() == self.input_len_spec(),
            y.len() == self.input_len_spec(),
        ensures
            self.truncate_spec(x).len() == self.output_len_spec(),
            self.truncate_spec(lincomb(a, x, b, y)) == lincomb(
                a,
                self.truncate_spec(x),
                b,
                self.truncate_spec(y),
            ),
    ;

    /// The circuit accepts valid inputs.
    proof fn lemma_circuit_complete(&self, x: Seq<int>, g: Seq<int>, jr: Seq<int>)
        requires
            self.wf(),
            x.len() == self.input_len_spec(),
            self.valid(x),
            jr.len() == self.joint_rand_len_spec(),
            g.len() == self.calls_spec(),
            forall|k: int|
                0 <= k < g.len() ==> #[trigger] g[k] == self.gadget_spec().call_spec(
                    Seq::new(
                        self.gadget_spec().arity_spec(),
                        |a: int| self.wire(x, jr, 1, k, a),
                    ),
                ),
        ensures
            cong(self.circuit(x, g, jr, 1), 0, Self::Field::modulus()),
    ;

    /// Encoding makes valid inputs, whose output is the measurement's contribution.
    proof fn lemma_encode(&self, m: Self::Measurement)
        requires
            self.wf(),
        ensures
            self.encode_spec(m) matches Some(x) ==> {
                &&& x.len() == self.input_len_spec()
                &&& self.valid(x)
                &&& seq_cong(
                    self.truncate_spec(x),
                    self.contribution(m),
                    Self::Field::modulus(),
                )
            },
    ;

    /// The length of an encoded measurement.
    fn input_len(&self) -> (r: usize)
        requires
            self.wf(),
        ensures
            r == self.input_len_spec(),
    ;

    /// The length of an aggregatable output.
    fn output_len(&self) -> (r: usize)
        requires
            self.wf(),
        ensures
            r == self.output_len_spec(),
    ;

    /// The number of random elements that the circuit uses.
    fn joint_rand_len(&self) -> (r: usize)
        requires
            self.wf(),
        ensures
            r == self.joint_rand_len_spec(),
    ;

    /// The number of gadget calls.
    fn calls(&self) -> (r: usize)
        requires
            self.wf(),
        ensures
            r == self.calls_spec(),
    ;

    /// The gadget.
    fn gadget(&self) -> (r: &Self::Gadget)
        requires
            self.wf(),
        ensures
            *r == self.gadget_spec(),
    ;

    /// The inputs of the gadget calls: for each input of the gadget, the values over all calls.
    fn wires(
        &self,
        input: &[Self::Field],
        joint_rand: &[Self::Field],
        share: &Self::Field,
    ) -> (r: Vec<Vec<Self::Field>>)
        requires
            self.wf(),
            input@.len() == self.input_len_spec(),
            joint_rand@.len() == self.joint_rand_len_spec(),
        ensures
            r@.len() == self.gadget_spec().arity_spec(),
            forall|a: int| 0 <= a < r@.len() ==> (#[trigger] r@[a])@.len() == self.calls_spec(),
            forall|a: int, k: int|
                0 <= a < r@.len() && 0 <= k < self.calls_spec() ==> #[trigger] cong(
                    r@[a]@[k].val(),
                    self.wire(vals(input@), vals(joint_rand@), share.val(), k, a),
                    Self::Field::modulus(),
                ),
    ;

    /// The output of the circuit.
    fn output(
        &self,
        input: &[Self::Field],
        gadget_outputs: &[Self::Field],
        joint_rand: &[Self::Field],
        share: &Self::Field,
    ) -> (r: Self::Field)
        requires
            self.wf(),
            input@.len() == self.input_len_spec(),
            gadget_outputs@.len() == self.calls_spec(),
            joint_rand@.len() == self.joint_rand_len_spec(),
        ensures
            r.val() == self.circuit(
                vals(input@),
                vals(gadget_outputs@),
                vals(joint_rand@),
                share.val(),
            ) % Self::Field::modulus(),
    ;

    /// Encodes a measurement.
    fn encode(&self, measurement: &Self::Measurement) -> (r: Result<Vec<Self::Field>, PcpError>)
        requires
            self.wf(),
        ensures
            match self.encode_spec(*measurement) {
                Some(x) => r matches Ok(v) && vals(v@) == x,
                None => r == Err::<Vec<Self::Field>, PcpError>(PcpError::Encode),
            },
    ;

    /// The aggregatable output of (a share of) an encoded measurement.
    fn truncate(&self, input: Vec<Self::Field>) -> (r: Result<Vec<Self::Field>, PcpError>)
        requires
            self.wf(),
        ensures
            input@.len() == self.input_len_spec() ==> (r matches Ok(v) && vals(v@) == reduced(
                self.truncate_spec(vals(input@)),
                Self::Field::modulus(),
            )),
            input@.len() != self.input_len_spec() ==> r == Err::<Vec<Self::Field>, PcpError>(
                PcpError::Truncate,
            ),
    ;
}

/// The inputs of the `k`-th gadget call.
pub open spec fn call_inputs<T: Type>(typ: &T, x: Seq<int>, jr: Seq<int>, s: int, k: int) -> Seq<
    int,
> {
    Seq::new(typ.gadget_spec().arity_spec(), |a: int| typ.wire(x, jr, s, k, a))
}

/// The outputs of the gadget calls on the unshared input `x`.
pub open spec fn gadget_outputs<T: Type>(typ: &T, x: Seq<int>, jr: Seq<int>) -> Seq<int> {
    Seq::new(
        typ.calls_spec(),
        |k: int| typ.gadget_spec().call_spec(call_inputs(typ, x, jr, 1, k)),
    )
}

/// The binary logarithm of the number of points that a wire polynomial is interpolated at.
pub open spec fn domain_log<T: Type>(typ: &T) -> nat {
    log2_ceil(typ.calls_spec() + 1)
}

/// The number of points that a wire polynomial is interpolated at.
pub open spec fn domain<T: Type>(typ: &T) -> nat {
    pow2(domain_log(typ))
}

/// The root of unity whose powers are these points.
pub open spec fn domain_root<T: Type>(typ: &T) -> int {
    T::Field::root_val(domain_log(typ))
}

/// The inverse of that root.
pub open spec fn domain_root_inverse<T: Type>(typ: &T) -> int {
    pow(domain_root(typ), (domain(typ) - 1) as nat)
}

/// The length of a proof.
pub open spec fn proof_len_spec<T: Type>(typ: &T) -> nat {
    let g = typ.gadget_spec();
    (g.arity_spec() + g.degree_spec() * (domain(typ) - 1) + 1) as nat
}

/// The length of a verifier message.
pub open spec fn verifier_len_spec<T: Type>(typ: &T) -> nat {
    typ.gadget_spec().arity_spec() + 2
}

/// The number of random elements that the prover uses.
pub open spec fn prove_rand_len_spec<T: Type>(typ: &T) -> nat {
    typ.gadget_spec().arity_spec()
}

/// The values of the `a`-th wire: a random one, then those of the calls, then zeros.
pub open spec fn wire_values<T: Type>(
    typ: &T,
    x: Seq<int>,
    seeds: Seq<int>,
    jr: Seq<int>,
    s: int,
    a: int,
) -> Seq<int> {
    Seq::new(
        domain(typ),
        |i: int|
            if i == 0 {
                seeds[a]
            } else if i <= typ.calls_spec() {
                typ.wire(x, jr, s, i - 1, a)
            } else {
                0
            },
    )
}

/// The polynomial of the `a`-th wire.
pub open spec fn wire_poly<T: Type>(
    typ: &T,
    x: Seq<int>,
    seeds: Seq<int>,
    jr: Seq<int>,
    s: int,
    a: int,
) -> Seq<int> {
    interpolate(
        wire_values(typ, x, seeds, jr, s, a),
        domain_root_inverse(typ),
        half_val::<T::Field>(),
    )
}

/// The polynomials of all wires.
pub open spec fn wire_polys<T: Type>(
    typ: &T,
    x: Seq<int>,
    seeds: Seq<int>,
    jr: Seq<int>,
    s: int,
) -> Seq<Seq<int>> {
    Seq::new(typ.gadget_spec().arity_spec(), |a: int| wire_poly(typ, x, seeds, jr, s, a))
}

/// The proof for the input `x`: the random values of the wires and the gadget polynomial.
pub open spec fn prove_spec<T: Type>(
    typ: &T,
    x: Seq<int>,
    prove_rand: Seq<int>,
    jr: Seq<int>,
) -> Seq<int> {
    prove_rand + typ.gadget_spec().call_poly_spec(wire_polys(typ, x, prove_rand, jr, 1))
}

/// The gadget outputs that a (share of a) proof claims.
pub open spec fn claimed_outputs<T: Type>(typ: &T, gadget_poly: Seq<int>) -> Seq<int> {
    Seq::new(typ.calls_spec(), |k: int| eval(gadget_poly, pow(domain_root(typ), (k + 1) as nat)))
}

/// The (share of the) verifier message: the output of the circuit, the wire polynomials at the
/// query point and the gadget polynomial there.
pub open spec fn query_spec<T: Type>(
    typ: &T,
    x: Seq<int>,
    proof_share: Seq<int>,
    point: int,
    jr: Seq<int>,
    s: int,
) -> Seq<int> {
    let ar = typ.gadget_spec().arity_spec() as int;
    let seeds = proof_share.take(ar);
    let gadget_poly = proof_share.skip(ar);
    seq![typ.circuit(x, claimed_outputs(typ, gadget_poly), jr, s)] + evals(
        wire_polys(typ, x, seeds, jr, s),
        point,
    ) + seq![eval(gadget_poly, point)]
}

/// The query point is none of the points at which the prover has interpolated.
pub open spec fn query_point_ok<T: Type>(typ: &T, point: int) -> bool {
    !cong(pow(point, domain(typ)), 1, T::Field::modulus())
}

/// The verifier message shows a valid input.
pub open spec fn decide_spec<T: Type>(typ: &T, verifier: Seq<int>) -> bool {
    let ar = typ.gadget_spec().arity_spec() as int;
    let p = T::Field::modulus();
    &&& cong(verifier[0], 0, p)
    &&& cong(
        typ.gadget_spec().call_spec(verifier.subrange(1, 1 + ar)),
        verifier[1 + ar],
        p,
    )
}

} // verus!

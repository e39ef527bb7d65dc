//! The count type.
use vstd::prelude::*;

verus! {

use vstd::arithmetic::power2::{lemma2_to64, pow2};
use crate::arith::{cong, lemma_cong_add, lemma_cong_mul, lemma_cong_sub, lemma_residue, reduced};
use crate::field::{lemma_prime, vals, FieldElement};
use crate::pcp::gadgets::{Gadget, Mul};
use crate::pcp::types::{is_bit, lemma_domain_bound};
use crate::pcp::{gadget_outputs, log2_ceil, PcpError, Type};
use crate::prime::lemma_product_vanishes;

/// Each measurement is zero or one, and the aggregate is their sum.
#[derive(Debug)]
pub struct Count<F> {
    gadget: Mul,
    phantom: core::marker::PhantomData<F>,
}

impl<F: FieldElement> Count<F> {
    /// The count type.
    pub fn new() -> (r: Self)
        ensures
            r.wf(),
    {
        Count { gadget: Mul, phantom: core::marker::PhantomData }
    }
}

impl<F: FieldElement> Clone for Count<F> {
    fn clone(&self) -> (r: Self)
        ensures
            r.wf(),
    {
        Count { gadget: Mul, phantom: core::marker::PhantomData }
    }
}

impl<F: FieldElement> Type for Count<F> {
    type Measurement = F::Integer;

    type Field = F;

    type Gadget = Mul;

    open spec fn wf(&self) -> bool {
        true
    }

    open spec fn input_len_spec(&self) -> nat {
        1
    }

    open spec fn output_len_spec(&self) -> nat {
        1
    }

    open spec fn joint_rand_len_spec(&self) -> nat {
        0
    }

    open spec fn calls_spec(&self) -> nat {
        1
    }

    open spec fn gadget_spec(&self) -> Mul {
        Mul
    }

    open spec fn wire(&self, x: Seq<int>, jr: Seq<int>, s: int, k: int, a: int) -> int {
        x[0]
    }

    open spec fn circuit(&self, x: Seq<int>, g: Seq<int>, jr: Seq<int>, s: int) -> int {
        g[0] - x[0]
    }

    open spec fn encode_spec(&self, m: F::Integer) -> Option<Seq<int>> {
        if F::integer_val(m) <= 1 {
            Some(seq![F::integer_val(m)])
        } else {
            None
        }
    }

    open spec fn contribution(&self, m: F::Integer) -> Seq<int> {
        seq![F::integer_val(m)]
    }

    open spec fn truncate_spec(&self, x: Seq<int>) -> Seq<int> {
        x
    }

    open spec fn valid(&self, x: Seq<int>) -> bool {
        x[0] == 0 || x[0] == 1
    }

    proof fn lemma_sizes(&self) {
        lemma2_to64();
        F::lemma_field();
        lemma_domain_bound(2, 1);
        let g = Gadget::<F>::degree_spec(&Mul);
        let d = pow2(log2_ceil(2)) - 1;
        assert(g * d <= 6) by (nonlinear_arith)
            requires
                g == 2,
                0 <= d <= 3,
        ;
    }

    proof fn lemma_wire_linear(
        &self,
        a: int,
        x: Seq<int>,
        s: int,
        b: int,
        y: Seq<int>,
        t: int,
        jr: Seq<int>,
        k: int,
        i: int,
    ) {
    }

    proof fn lemma_circuit_linear(
        &self,
        a: int,
        x: Seq<int>,
        g: Seq<int>,
        s: int,
        b: int,
        y: Seq<int>,
        h: Seq<int>,
        t: int,
        jr: Seq<int>,
    ) {
        assert(a * g[0] + b * h[0] - (a * x[0] + b * y[0]) == a * (g[0] - x[0]) + b * (h[0] - y[0]))
            by (nonlinear_arith);
    }

    proof fn lemma_truncate_linear(&self, a: int, x: Seq<int>, b: int, y: Seq<int>) {
    }

    proof fn lemma_circuit_complete(&self, x: Seq<int>, g: Seq<int>, jr: Seq<int>) {
        assert(g[0] == x[0] * x[0]);
        assert(x[0] * x[0] == x[0]) by (nonlinear_arith)
            requires
                x[0] == 0 || x[0] == 1,
        ;
    }

    proof fn lemma_encode(&self, m: F::Integer) {
        F::lemma_integer(m);
        let c = self.contribution(m);
        assert forall|i: int| 0 <= i < c.len() implies #[trigger] cong(
            c[i],
            c[i],
            F::modulus(),
        ) by {}
    }

    fn input_len(&self) -> (r: usize) {
        1
    }

    fn output_len(&self) -> (r: usize) {
        1
    }

    fn joint_rand_len(&self) -> (r: usize) {
        0
    }

    fn calls(&self) -> (r: usize) {
        1
    }

    fn gadget(&self) -> (r: &Mul) {
        &self.gadget
    }

    fn wires(&self, input: &[F], joint_rand: &[F], share: &F) -> (r: Vec<Vec<F>>) {
        let left = vec![input[0]];
        let right = vec![input[0]];
        vec![left, right]
    }

    fn output(&self, input: &[F], gadget_outputs: &[F], joint_rand: &[F], share: &F) -> (r: F) {
        gadget_outputs[0].sub(&input[0])
    }

    fn encode(&self, measurement: &F::Integer) -> (r: Result<Vec<F>, PcpError>) {
        let m: u128 = F::integer_to_u128(*measurement);
        if m > 1 {
            return Err(PcpError::Encode);
        }
        proof {
            F::lemma_field();
        }
        match F::from_canonical(m) {
            Some(e) => {
                let r = vec![e];
                assert(vals(r@) =~= seq![F::integer_val(*measurement)]);
                Ok(r)
            },
            None => Err(PcpError::Encode),
        }
    }

    fn truncate(&self, input: Vec<F>) -> (r: Result<Vec<F>, PcpError>) {
        if input.len() != 1 {
            return Err(PcpError::Truncate);
        }
        proof {
            input@[0].lemma_val();
            lemma_residue(input@[0].val(), F::modulus());
            assert(vals(input@) =~= reduced(vals(input@), F::modulus()));
        }
        Ok(input)
    }
}

/// The circuit accepts zero and one alone.
pub proof fn law_count_sound<F: FieldElement>(typ: &Count<F>, x: Seq<int>, jr: Seq<int>)
    requires
        x.len() == typ.input_len_spec(),
    ensures
        cong(typ.circuit(x, gadget_outputs(typ, x, jr), jr, 1), 0, F::modulus()) <==> is_bit(
            x[0],
            F::modulus(),
        ),
{
    F::lemma_field();
    lemma_prime::<F>();
    let p = F::modulus();
    let v = x[0];
    let g = gadget_outputs(typ, x, jr);
    assert(g[0] == v * v);
    assert(v * v - v == v * (v - 1)) by (nonlinear_arith);
    if cong(v * (v - 1), 0, p) && !cong(v, 0, p) {
        lemma_product_vanishes(v, v - 1, p);
        lemma_cong_add(v - 1, 0, 1, 1, p);
    }
    if cong(v, 0, p) {
        lemma_cong_mul(v, 0, v - 1, v - 1, p);
        assert(0 * (v - 1) == 0) by (nonlinear_arith);
    } else if cong(v, 1, p) {
        lemma_cong_sub(v, 1, 1, 1, p);
        lemma_cong_mul(v, v, v - 1, 0, p);
        assert(v * 0 == 0) by (nonlinear_arith);
    }
}

/// Zero and one can be counted and nothing else can; a measurement is encoded as itself, and adds
/// itself to the count.
pub proof fn law_count_encoding<F: FieldElement>(typ: &Count<F>, m: F::Integer)
    ensures
        typ.input_len_spec() == 1,
        typ.output_len_spec() == 1,
        typ.encode_spec(m) is Some <==> F::integer_val(m) == 0 || F::integer_val(m) == 1,
        typ.encode_spec(m) matches Some(x) ==> x == seq![F::integer_val(m)] && typ.truncate_spec(x)
            == x,
        typ.contribution(m) == seq![F::integer_val(m)],
{
    F::lemma_integer(m);
}

/// The circuit for counts squares its input in one call of the gadget, and subtracts the input.
pub proof fn law_count_circuit<F: FieldElement>(
    typ: &Count<F>,
    x: Seq<int>,
    g: Seq<int>,
    jr: Seq<int>,
    s: int,
    inp: Seq<int>,
)
    ensures
        typ.joint_rand_len_spec() == 0,
        typ.calls_spec() == 1,
        Gadget::<F>::arity_spec(&typ.gadget_spec()) == 2,
        Gadget::<F>::degree_spec(&typ.gadget_spec()) == 2,
        Gadget::<F>::call_spec(&typ.gadget_spec(), inp) == inp[0] * inp[1],
        typ.wire(x, jr, s, 0, 0) == x[0],
        typ.wire(x, jr, s, 0, 1) == x[0],
        typ.circuit(x, g, jr, s) == g[0] - x[0],
{
}

} // verus!

//! The sum type.
use vstd::prelude::*;

verus! {

use vstd::arithmetic::power2::{
    lemma2_to64, lemma_pow2_adds, lemma_pow2_pos, lemma_pow2_strictly_increases, lemma_pow2_unfold,
    pow2,
};
use vstd::arithmetic::div_mod::lemma_div_denominator;
use vstd::arithmetic::power::pow;
use crate::arith::{cong, lemma_cong_mul, lemma_residue, lincomb, reduced, total};
use crate::field::{lemma_prime, vals, FieldElement};
use crate::poly::{eval, law_eval, lemma_eval_lincomb, poly_eval};
use crate::pcp::gadgets::{same_gadget, Gadget, PolyEval};
use crate::pcp::types::{
    all_bits, copied, is_bit, law_range_check, lemma_domain_bound, lemma_eval_vanishes,
    lemma_range_check, lemma_changed_proof, lemma_range_check_sound, one_part_differs,
    range_check_coefficients, range_check_poly, weighted_sum,
};
use crate::pcp::laws::gadget_poly_right;
use crate::pcp::{
    gadget_outputs, log2_ceil, proof_len_spec, prove_rand_len_spec, prove_spec, PcpError, Type,
};
use crate::prime::lemma_root_count;

/// Each measurement is a number of `bits` bits, and the aggregate is their sum.
///
/// A measurement is encoded as its bits, least significant first.
#[derive(Debug)]
pub struct Sum<F> {
    bits: usize,
    gadget: PolyEval<F>,
}

impl<F: FieldElement> Clone for Sum<F> {
    fn clone(&self) -> (r: Self)
        ensures
            self.wf() ==> r.wf(),
            r.bits_spec() == self.bits_spec(),
            same_gadget::<F, PolyEval<F>>(self.gadget_spec(), r.gadget_spec()),
    {
        Sum { bits: self.bits, gadget: self.gadget.clone() }
    }
}

/// The `n` low-order bits of `v`, least significant first.
pub open spec fn bits_of(v: int, n: nat) -> Seq<int>
    decreases n,
{
    if n == 0 {
        Seq::empty()
    } else {
        seq![v % 2] + bits_of(v / 2, (n - 1) as nat)
    }
}

/// The bits of a number add up to it.
pub proof fn lemma_bits_of(v: int, n: nat)
    requires
        0 <= v < pow2(n),
    ensures
        bits_of(v, n).len() == n,
        all_bits(bits_of(v, n)),
        eval(bits_of(v, n), 2) == v,
    decreases n,
{
    lemma2_to64();
    if n > 0 {
        lemma_pow2_unfold(n);
        lemma_bits_of(v / 2, (n - 1) as nat);
        let b = bits_of(v, n);
        assert(b.drop_first() =~= bits_of(v / 2, (n - 1) as nat));
        assert forall|i: int| 0 <= i < b.len() implies #[trigger] b[i] == 0 || b[i] == 1 by {
            if i > 0 {
                assert(b[i] == bits_of(v / 2, (n - 1) as nat)[i - 1]);
            }
        }
    }
}

impl<F: FieldElement> Sum<F> {
    /// The number of bits of a measurement.
    pub closed spec fn bits_spec(&self) -> nat {
        self.bits as nat
    }

    /// The type of sums of numbers of `bits` bits.
    pub fn new(bits: usize) -> (r: Result<Self, PcpError>)
        ensures
            pow2(bits as nat) <= F::modulus() ==> (r matches Ok(t) && t.wf() && t.bits_spec()
                == bits),
            pow2(bits as nat) > F::modulus() ==> r == Err::<Self, PcpError>(PcpError::Parameters),
    {
        if !F::valid_integer_bitlength(bits) {
            return Err(PcpError::Parameters);
        }
        Ok(Sum { bits, gadget: PolyEval { poly: range_check_poly() } })
    }
}

impl<F: FieldElement> Type for Sum<F> {
    type Measurement = F::Integer;

    type Field = F;

    type Gadget = PolyEval<F>;

    closed spec fn wf(&self) -> bool {
        &&& pow2(self.bits as nat) <= F::modulus()
        &&& vals(self.gadget.poly@) == range_check_coefficients(F::modulus())
    }

    open spec fn input_len_spec(&self) -> nat {
        self.bits_spec()
    }

    open spec fn output_len_spec(&self) -> nat {
        1
    }

    open spec fn joint_rand_len_spec(&self) -> nat {
        1
    }

    open spec fn calls_spec(&self) -> nat {
        self.bits_spec()
    }

    closed spec fn gadget_spec(&self) -> PolyEval<F> {
        self.gadget
    }

    open spec fn wire(&self, x: Seq<int>, jr: Seq<int>, s: int, k: int, a: int) -> int {
        x[k]
    }

    open spec fn circuit(&self, x: Seq<int>, g: Seq<int>, jr: Seq<int>, s: int) -> int {
        jr[0] * eval(g, jr[0])
    }

    open spec fn encode_spec(&self, m: F::Integer) -> Option<Seq<int>> {
        if F::integer_val(m) < pow2(self.bits_spec()) {
            Some(bits_of(F::integer_val(m), self.bits_spec()))
        } else {
            None
        }
    }

    open spec fn contribution(&self, m: F::Integer) -> Seq<int> {
        seq![F::integer_val(m)]
    }

    open spec fn truncate_spec(&self, x: Seq<int>) -> Seq<int> {
        seq![eval(x, 2)]
    }

    open spec fn valid(&self, x: Seq<int>) -> bool {
        all_bits(x)
    }

    proof fn lemma_sizes(&self) {
        lemma2_to64();
        F::lemma_field();
        assert(self.gadget.poly@.len() == 3) by {
            assert(vals(self.gadget.poly@).len() == 3);
        }
        lemma_pow2_adds(64, 64);
        if self.bits > 128 {
            lemma_pow2_strictly_increases(128, self.bits as nat);
        }
        let n = (self.bits + 1) as nat;
        lemma_domain_bound(n, 8);
        let d = self.gadget.degree_spec();
        let m = pow2(log2_ceil(n)) - 1;
        assert(d * m == 2 * m) by (nonlinear_arith)
            requires
                d == 2,
        ;
    }

    proof fn lemma_wire_linear(
        &self,
        a: int,
        x: Seq<int>,
        s: int,
        b: int,
        y: Seq<int>,
        t: int,
        jr: Seq<int>,
        k: int,
        i: int,
    ) {
    }

    proof fn lemma_circuit_linear(
        &self,
        a: int,
        x: Seq<int>,
        g: Seq<int>,
        s: int,
        b: int,
        y: Seq<int>,
        h: Seq<int>,
        t: int,
        jr: Seq<int>,
    ) {
        let r = jr[0];
        lemma_eval_lincomb(a, g, b, h, r);
        let (e, f) = (eval(g, r), eval(h, r));
        assert(r * (a * e + b * f) == a * (r * e) + b * (r * f)) by (nonlinear_arith);
    }

    proof fn lemma_truncate_linear(&self, a: int, x: Seq<int>, b: int, y: Seq<int>) {
        lemma_eval_lincomb(a, x, b, y, 2);
        assert(self.truncate_spec(lincomb(a, x, b, y)) =~= lincomb(
            a,
            self.truncate_spec(x),
            b,
            self.truncate_spec(y),
        ));
    }

    proof fn lemma_circuit_complete(&self, x: Seq<int>, g: Seq<int>, jr: Seq<int>) {
        F::lemma_field();
        let p = F::modulus();
        assert forall|k: int| 0 <= k < g.len() implies #[trigger] cong(g[k], 0, p) by {
            assert(x[k] == 0 || x[k] == 1);
            lemma_range_check(x[k], p);
        }
        lemma_eval_vanishes(g, jr[0], p);
        lemma_cong_mul(jr[0], jr[0], eval(g, jr[0]), 0, p);
    }

    proof fn lemma_encode(&self, m: F::Integer) {
        F::lemma_integer(m);
        if F::integer_val(m) < pow2(self.bits_spec()) {
            lemma_bits_of(F::integer_val(m), self.bits_spec());
            let c = self.contribution(m);
            let x = bits_of(F::integer_val(m), self.bits_spec());
            assert(self.truncate_spec(x) =~= c);
            assert forall|i: int| 0 <= i < c.len() implies #[trigger] cong(
                c[i],
                c[i],
                F::modulus(),
            ) by {}
        }
    }

    fn input_len(&self) -> (r: usize) {
        self.bits
    }

    fn output_len(&self) -> (r: usize) {
        1
    }

    fn joint_rand_len(&self) -> (r: usize) {
        1
    }

    fn calls(&self) -> (r: usize) {
        self.bits
    }

    fn gadget(&self) -> (r: &PolyEval<F>) {
        &self.gadget
    }

    fn wires(&self, input: &[F], joint_rand: &[F], share: &F) -> (r: Vec<Vec<F>>) {
        vec![copied(input)]
    }

    fn output(&self, input: &[F], gadget_outputs: &[F], joint_rand: &[F], share: &F) -> (r: F) {
        weighted_sum(gadget_outputs, &joint_rand[0])
    }

    fn encode(&self, measurement: &F::Integer) -> (r: Result<Vec<F>, PcpError>) {
        let m: u128 = F::integer_to_u128(*measurement);
        let mut rest: u128 = m;
        let mut out: Vec<F> = Vec::new();
        let mut i: usize = 0;
        let bits: usize = self.bits;
        proof {
            lemma2_to64();
            F::lemma_field();
            assert(Seq::<int>::empty() + bits_of(m as int, bits as nat) =~= bits_of(
                m as int,
                bits as nat,
            ));
            assert(vals(out@) =~= Seq::<int>::empty());
            lemma_pow2_pos(bits as nat);
            assert(pow2(0) * pow2(bits as nat) == pow2(bits as nat));
        }
        while i < bits
            invariant
                i <= bits,
                bits == self.bits,
                F::modulus() > 255,
                vals(out@) + bits_of(rest as int, (bits - i) as nat) == bits_of(
                    m as int,
                    bits as nat,
                ),
                (m < pow2(bits as nat)) == (rest < pow2((bits - i) as nat)),
            decreases bits - i,
        {
            let b: u128 = rest % 2;
            let e = if b == 1 {
                F::one()
            } else {
                F::zero()
            };
            let ghost before = vals(out@);
            let ghost tail = bits_of(rest as int / 2, (bits - i - 1) as nat);
            out.push(e);
            proof {
                lemma_pow2_unfold((bits - i) as nat);
                assert(vals(out@) =~= before.push(b as int));
                assert(vals(out@) + tail =~= before + (seq![rest as int % 2] + tail));
            }
            rest = rest / 2;
            i += 1;
        }
        proof {
            lemma2_to64();
            assert(vals(out@) + Seq::<int>::empty() =~= vals(out@));
        }
        if rest != 0 {
            return Err(PcpError::Encode);
        }
        Ok(out)
    }

    fn truncate(&self, input: Vec<F>) -> (r: Result<Vec<F>, PcpError>) {
        if input.len() != self.bits {
            return Err(PcpError::Truncate);
        }
        proof {
            F::lemma_field();
            lemma_residue(2, F::modulus());
        }
        let two = F::one().add(&F::one());
        let r = vec![poly_eval(input.as_slice(), &two)];
        assert(vals(r@) =~= reduced(self.truncate_spec(vals(input@)), F::modulus()));
        Ok(r)
    }
}

/// If an entry of the input is neither zero nor one, the circuit accepts it for no more values of
/// the joint randomness than the input has entries.
pub proof fn law_sum_sound<F: FieldElement>(typ: &Sum<F>, x: Seq<int>, k: int, rs: Set<int>)
    requires
        typ.wf(),
        x.len() == typ.input_len_spec(),
        0 <= k < x.len(),
        !is_bit(x[k], F::modulus()),
        rs.finite(),
        forall|r: int| #[trigger]
            rs.contains(r) ==> 0 <= r < F::modulus() && cong(
                typ.circuit(x, gadget_outputs(typ, x, seq![r]), seq![r], 1),
                0,
                F::modulus(),
            ),
    ensures
        rs.len() <= x.len(),
{
    F::lemma_field();
    lemma_prime::<F>();
    let p = F::modulus();
    let g = gadget_outputs(typ, x, seq![0]);
    let c = seq![0int] + g;
    lemma_range_check_sound(x[k], p);
    assert(c[k + 1] == eval(range_check_coefficients(p), x[k]));
    assert(!cong(c[k + 1], 0, p));
    assert forall|r: int| #[trigger] rs.contains(r) implies 0 <= r < p && cong(
        eval(c, r),
        0,
        p,
    ) by {
        assert(gadget_outputs(typ, x, seq![r]) =~= g);
        assert(c.drop_first() =~= g);
    }
    lemma_root_count(c, p, rs);
}

/// In a proof for a number of at least one bit, changing the random value of the wire and keeping
/// the gadget polynomial, or the other way round, makes the gadget polynomial wrong, so that
/// [`law_shared_wrong_proof_found`](crate::pcp::laws::law_shared_wrong_proof_found) applies.
pub proof fn law_sum_changed_proof<F: FieldElement>(
    typ: &Sum<F>,
    x: Seq<int>,
    prove_rand: Seq<int>,
    pf: Seq<int>,
    jr: Seq<int>,
)
    requires
        typ.wf(),
        typ.bits_spec() >= 1,
        x.len() == typ.input_len_spec(),
        forall|i: int| 0 <= i < x.len() ==> is_bit(#[trigger] x[i], F::modulus()),
        prove_rand.len() == prove_rand_len_spec(typ),
        pf.len() == proof_len_spec(typ),
        jr.len() == typ.joint_rand_len_spec(),
        one_part_differs(
            pf,
            prove_spec(typ, x, prove_rand, jr),
            prove_rand_len_spec(typ) as int,
            F::modulus(),
        ),
    ensures
        !gadget_poly_right(typ, x, pf, jr),
{
    assert(is_bit(x[0], F::modulus()));
    lemma_changed_proof(typ, x, prove_rand, pf, jr);
}

proof fn lemma_bit_at(v: int, n: nat, i: int)
    requires
        v >= 0,
        0 <= i < n,
    ensures
        bits_of(v, n).len() == n,
        bits_of(v, n)[i] == (v / pow2(i as nat) as int) % 2,
    decreases n,
{
    lemma2_to64();
    let rest = bits_of(v / 2, (n - 1) as nat);
    if n > 1 {
        lemma_bit_at(v / 2, (n - 1) as nat, if i > 0 { i - 1 } else { 0 });
    } else {
        assert(rest =~= Seq::<int>::empty());
    }
    assert(rest.len() == n - 1);
    assert(bits_of(v, n) == seq![v % 2] + rest);
    if i > 0 {
        let c = pow2((i - 1) as nat) as int;
        lemma_pow2_pos((i - 1) as nat);
        lemma_pow2_unfold(i as nat);
        lemma_div_denominator(v, 2, c);
        assert(pow2(i as nat) as int == 2 * c);
        assert(v / 2 / c == v / (2 * c));
        assert(bits_of(v, n)[i] == rest[i - 1]);
    } else {
        assert(pow2(i as nat) as int == 1);
        assert(v / 1 == v);
        assert(bits_of(v, n)[i] == v % 2);
    }
}

/// A number can be summed exactly if it has no more bits than the type; it is encoded as its bits,
/// least significant first, and adds itself to the sum. What is summed of a vector of bits is its
/// value as a binary number.
pub proof fn law_sum_encoding<F: FieldElement>(typ: &Sum<F>, m: F::Integer, x: Seq<int>)
    requires
        typ.wf(),
    ensures
        typ.input_len_spec() == typ.bits_spec(),
        typ.output_len_spec() == 1,
        typ.encode_spec(m) is Some <==> F::integer_val(m) < pow2(typ.bits_spec()),
        typ.encode_spec(m) matches Some(e) ==> e.len() == typ.bits_spec() && typ.truncate_spec(e)
            == seq![F::integer_val(m)] && forall|i: int|
            0 <= i < e.len() ==> #[trigger] e[i] == (F::integer_val(m) / pow2(i as nat) as int)
                % 2,
        typ.contribution(m) == seq![F::integer_val(m)],
        typ.truncate_spec(x) == seq![
            total(Seq::new(x.len(), |i: int| x[i] * pow(2, i as nat))),
        ],
{
    F::lemma_integer(m);
    let v = F::integer_val(m);
    if let Some(e) = typ.encode_spec(m) {
        lemma_bits_of(v, typ.bits_spec());
        assert forall|i: int| 0 <= i < e.len() implies #[trigger] e[i] == (v / pow2(
            i as nat,
        ) as int) % 2 by {
            lemma_bit_at(v, typ.bits_spec(), i);
        }
    }
    law_eval(x, 2);
}

/// The circuit for sums checks each bit in a call of the gadget, which computes `y^2 - y`, and adds
/// up what the calls give, weighted with the powers of the joint randomness from the first on.
pub proof fn law_sum_circuit<F: FieldElement>(
    typ: &Sum<F>,
    x: Seq<int>,
    g: Seq<int>,
    jr: Seq<int>,
    s: int,
    y: int,
)
    requires
        typ.wf(),
    ensures
        typ.joint_rand_len_spec() == 1,
        typ.calls_spec() == typ.bits_spec(),
        typ.gadget_spec().arity_spec() == 1,
        typ.gadget_spec().degree_spec() == 2,
        cong(typ.gadget_spec().call_spec(seq![y]), y * y - y, F::modulus()),
        forall|k: int| #[trigger] typ.wire(x, jr, s, k, 0) == x[k],
        typ.circuit(x, g, jr, s) == jr[0] * total(
            Seq::new(g.len(), |k: int| g[k] * pow(jr[0], k as nat)),
        ),
{
    F::lemma_field();
    law_eval(g, jr[0]);
    law_range_check::<F>(typ.gadget_spec(), y);
}

} // verus!

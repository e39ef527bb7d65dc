//! The histogram type.
use vstd::prelude::*;

verus! {

use vstd::arithmetic::power::pow;
use vstd::arithmetic::power2::{lemma2_to64, pow2};
use crate::arith::{
    cong, lemma_cong_add, lemma_cong_mod, lemma_cong_mul, lemma_cong_sub, lemma_pow_one,
    lemma_residue, lincomb, reduced, total, zeros,
};
use crate::field::{lemma_prime, vals, FieldElement};
use crate::poly::{eval, law_eval, lemma_eval_lincomb, poly_eval};
use crate::pcp::gadgets::{same_gadget, Gadget, PolyEval};
use crate::pcp::types::{
    all_bits, copied, integer_vals, is_bit, law_range_check, lemma_changed_proof,
    lemma_domain_bound,
    lemma_eval_vanishes, lemma_eval_zeros, lemma_range_check, lemma_range_check_sound,
    one_part_differs, range_check_coefficients, range_check_poly, weighted_sum,
};
use crate::pcp::laws::gadget_poly_right;
use crate::pcp::{
    gadget_outputs, log2_ceil, proof_len_spec, prove_rand_len_spec, prove_spec, PcpError, Type,
};
use crate::prime::{lemma_product_vanishes, lemma_root_count};

/// Each measurement is a number, and the aggregate tells how many of them fall into each bucket.
///
/// A bucket holds the numbers up to and including its boundary that are above the boundary
/// before it; the last bucket holds those above all boundaries. A measurement is encoded as the
/// vector that is one at its bucket and zero elsewhere.
#[derive(Debug)]
pub struct Histogram<F: FieldElement> {
    buckets: Vec<F::Integer>,
    gadget: PolyEval<F>,
}

impl<F: FieldElement> Clone for Histogram<F> {
    fn clone(&self) -> (r: Self)
        ensures
            self.wf() ==> r.wf(),
            r.boundaries() == self.boundaries(),
            same_gadget::<F, PolyEval<F>>(self.gadget_spec(), r.gadget_spec()),
    {
        Histogram {
            buckets: vstd::slice::slice_to_vec(self.buckets.as_slice()),
            gadget: self.gadget.clone(),
        }
    }
}

/// Each boundary is above the one before it.
pub open spec fn increasing(b: Seq<int>) -> bool {
    forall|i: int, j: int| 0 <= i < j < b.len() ==> b[i] < b[j]
}

/// The position of the first boundary that is not below `v`, or the number of boundaries if
/// all of them are.
pub open spec fn bucket_of(b: Seq<int>, v: int) -> nat
    decreases b.len(),
{
    if b.len() == 0 || v <= b[0] {
        0
    } else {
        1 + bucket_of(b.drop_first(), v)
    }
}

pub proof fn lemma_bucket_of(b: Seq<int>, v: int, i: int)
    requires
        0 <= i <= b.len(),
        forall|j: int| 0 <= j < i ==> #[trigger] b[j] < v,
        i < b.len() ==> v <= b[i],
    ensures
        bucket_of(b, v) == i,
    decreases b.len(),
{
    if i > 0 {
        let c = b.drop_first();
        assert forall|j: int| 0 <= j < i - 1 implies #[trigger] c[j] < v by {
            assert(b[j + 1] < v);
        }
        lemma_bucket_of(c, v, i - 1);
    }
}

pub proof fn lemma_bucket_bound(b: Seq<int>, v: int)
    ensures
        bucket_of(b, v) <= b.len(),
    decreases b.len(),
{
    if b.len() > 0 {
        lemma_bucket_bound(b.drop_first(), v);
    }
}

/// The vector of length `n` that is one at `i` and zero elsewhere.
pub open spec fn indicator(n: nat, i: nat) -> Seq<int> {
    Seq::new(
        n,
        |j: int|
            if j == i {
                1int
            } else {
                0int
            },
    )
}

/// The entries of an indicator vector add up to one.
pub proof fn lemma_indicator_sum(n: nat, i: nat)
    requires
        i < n,
    ensures
        eval(indicator(n, i), 1) == 1,
    decreases n,
{
    let s = indicator(n, i);
    if i == 0 {
        assert(s.drop_first() =~= zeros((n - 1) as nat));
        lemma_eval_zeros((n - 1) as nat, 1);
    } else {
        lemma_indicator_sum((n - 1) as nat, (i - 1) as nat);
        assert(s.drop_first() =~= indicator((n - 1) as nat, (i - 1) as nat));
    }
}

impl<F: FieldElement> Histogram<F> {
    /// The boundaries of the buckets.
    pub closed spec fn boundaries(&self) -> Seq<int> {
        integer_vals::<F>(self.buckets@)
    }

    /// The boundaries that a histogram can have.
    pub open spec fn acceptable(b: Seq<int>) -> bool {
        &&& b.len() < u32::MAX
        &&& b.len() < usize::MAX / 16
        &&& increasing(b)
    }

    /// The type of histograms with the given bucket boundaries.
    pub fn new(buckets: Vec<F::Integer>) -> (r: Result<Self, PcpError>)
        ensures
            Self::acceptable(integer_vals::<F>(buckets@)) ==> (r matches Ok(t) && t.wf()
                && t.boundaries() == integer_vals::<F>(buckets@)),
            !Self::acceptable(integer_vals::<F>(buckets@)) ==> r == Err::<Self, PcpError>(
                PcpError::Parameters,
            ),
            r is Ok <==> buckets@.len() < 0xffff_ffff && buckets@.len() < usize::MAX / 16
                && forall|i: int, j: int|
                0 <= i < j < buckets@.len() ==> F::integer_val(#[trigger] buckets@[i])
                    < F::integer_val(#[trigger] buckets@[j]),
            r matches Ok(t) ==> t.boundaries().len() == buckets@.len() && forall|i: int|
                0 <= i < buckets@.len() ==> #[trigger] t.boundaries()[i] == F::integer_val(
                    buckets@[i],
                ),
    {
        let ghost b = integer_vals::<F>(buckets@);
        proof {
            assert forall|i: int| 0 <= i < buckets@.len() implies #[trigger] b[i] == F::integer_val(
                buckets@[i],
            ) by {}
            let ordered = forall|i: int, j: int|
                0 <= i < j < buckets@.len() ==> F::integer_val(#[trigger] buckets@[i])
                    < F::integer_val(#[trigger] buckets@[j]);
            if ordered {
                assert forall|i: int, j: int| 0 <= i < j < b.len() implies b[i] < b[j] by {
                    assert(F::integer_val(buckets@[i]) < F::integer_val(buckets@[j]));
                }
            }
            if increasing(b) {
                assert forall|i: int, j: int| 0 <= i < j < buckets@.len() implies F::integer_val(
                    #[trigger] buckets@[i],
                ) < F::integer_val(#[trigger] buckets@[j]) by {
                    assert(b[i] < b[j]);
                }
            }
        }
        if buckets.len() as u64 >= u32::MAX as u64 || buckets.len() >= usize::MAX / 16 {
            return Err(PcpError::Parameters);
        }
        let mut i: usize = 1;
        while i < buckets.len()
            invariant
                1 <= i,
                i <= buckets@.len() || buckets@.len() == 0,
                b == integer_vals::<F>(buckets@),
                forall|j: int, k: int| 0 <= j < k < i && k < b.len() ==> b[j] < b[k],
            decreases buckets@.len() - i,
        {
            if F::integer_to_u128(buckets[i - 1]) >= F::integer_to_u128(buckets[i]) {
                assert(b[i - 1] >= b[i as int]);
                assert(!increasing(b));
                return Err(PcpError::Parameters);
            }
            i += 1;
        }
        Ok(Histogram { buckets, gadget: PolyEval { poly: range_check_poly() } })
    }
}

impl<F: FieldElement> Type for Histogram<F> {
    type Measurement = F::Integer;

    type Field = F;

    type Gadget = PolyEval<F>;

    closed spec fn wf(&self) -> bool {
        &&& Self::acceptable(self.boundaries())
        &&& vals(self.gadget.poly@) == range_check_coefficients(F::modulus())
    }

    open spec fn input_len_spec(&self) -> nat {
        self.boundaries().len() + 1
    }

    open spec fn output_len_spec(&self) -> nat {
        self.boundaries().len() + 1
    }

    open spec fn joint_rand_len_spec(&self) -> nat {
        2
    }

    open spec fn calls_spec(&self) -> nat {
        self.boundaries().len() + 1
    }

    closed spec fn gadget_spec(&self) -> PolyEval<F> {
        self.gadget
    }

    open spec fn wire(&self, x: Seq<int>, jr: Seq<int>, s: int, k: int, a: int) -> int {
        x[k]
    }

    open spec fn circuit(&self, x: Seq<int>, g: Seq<int>, jr: Seq<int>, s: int) -> int {
        jr[1] * (jr[0] * eval(g, jr[0])) + (jr[1] * jr[1]) * (eval(x, 1) - s)
    }

    open spec fn encode_spec(&self, m: F::Integer) -> Option<Seq<int>> {
        Some(self.contribution(m))
    }

    open spec fn contribution(&self, m: F::Integer) -> Seq<int> {
        indicator(
            self.boundaries().len() + 1,
            bucket_of(self.boundaries(), F::integer_val(m)),
        )
    }

    open spec fn truncate_spec(&self, x: Seq<int>) -> Seq<int> {
        x
    }

    open spec fn valid(&self, x: Seq<int>) -> bool {
        &&& all_bits(x)
        &&& eval(x, 1) == 1
    }

    proof fn lemma_sizes(&self) {
        lemma2_to64();
        F::lemma_field();
        assert(self.gadget.poly@.len() == 3) by {
            assert(vals(self.gadget.poly@).len() == 3);
        }
        let n = self.calls_spec() + 1;
        lemma_domain_bound(n, 32);
        let d = self.gadget.degree_spec();
        let m = pow2(log2_ceil(n)) - 1;
        assert(d * m == 2 * m) by (nonlinear_arith)
            requires
                d == 2,
        ;
    }

    proof fn lemma_wire_linear(
        &self,
        a: int,
        x: Seq<int>,
        s: int,
        b: int,
        y: Seq<int>,
        t: int,
        jr: Seq<int>,
        k: int,
        i: int,
    ) {
    }

    proof fn lemma_circuit_linear(
        &self,
        a: int,
        x: Seq<int>,
        g: Seq<int>,
        s: int,
        b: int,
        y: Seq<int>,
        h: Seq<int>,
        t: int,
        jr: Seq<int>,
    ) {
        let (q, r) = (jr[0], jr[1]);
        lemma_eval_lincomb(a, g, b, h, q);
        lemma_eval_lincomb(a, x, b, y, 1);
        let (e, f) = (eval(g, q), eval(h, q));
        let (c, d) = (eval(x, 1), eval(y, 1));
        assert(q * (a * e + b * f) == a * (q * e) + b * (q * f)) by (nonlinear_arith);
        let (u, v) = (q * e, q * f);
        assert(r * (a * u + b * v) == a * (r * u) + b * (r * v)) by (nonlinear_arith);
        assert(a * c + b * d - (a * s + b * t) == a * (c - s) + b * (d - t)) by (nonlinear_arith);
        let (k, w, z) = (r * r, c - s, d - t);
        assert(k * (a * w + b * z) == a * (k * w) + b * (k * z)) by (nonlinear_arith);
        let (m0, n0, m1, n1) = (r * u, r * v, k * w, k * z);
        assert(a * m0 + b * n0 + (a * m1 + b * n1) == a * (m0 + m1) + b * (n0 + n1))
            by (nonlinear_arith);
    }

    proof fn lemma_truncate_linear(&self, a: int, x: Seq<int>, b: int, y: Seq<int>) {
    }

    proof fn lemma_circuit_complete(&self, x: Seq<int>, g: Seq<int>, jr: Seq<int>) {
        F::lemma_field();
        let p = F::modulus();
        let (q, r) = (jr[0], jr[1]);
        assert forall|k: int| 0 <= k < g.len() implies #[trigger] cong(g[k], 0, p) by {
            assert(x[k] == 0 || x[k] == 1);
            lemma_range_check(x[k], p);
        }
        lemma_eval_vanishes(g, q, p);
        lemma_cong_mul(q, q, eval(g, q), 0, p);
        lemma_cong_mul(r, r, q * eval(g, q), 0, p);
        assert((r * r) * (eval(x, 1) - 1) == 0) by (nonlinear_arith)
            requires
                eval(x, 1) == 1,
        ;
    }

    proof fn lemma_encode(&self, m: F::Integer) {
        let c = self.contribution(m);
        lemma_bucket_bound(self.boundaries(), F::integer_val(m));
        lemma_indicator_sum(c.len(), bucket_of(self.boundaries(), F::integer_val(m)));
        assert forall|i: int| 0 <= i < c.len() implies #[trigger] cong(
            c[i],
            c[i],
            F::modulus(),
        ) by {}
    }

    fn input_len(&self) -> (r: usize) {
        self.buckets.len() + 1
    }

    fn output_len(&self) -> (r: usize) {
        self.buckets.len() + 1
    }

    fn joint_rand_len(&self) -> (r: usize) {
        2
    }

    fn calls(&self) -> (r: usize) {
        self.buckets.len() + 1
    }

    fn gadget(&self) -> (r: &PolyEval<F>) {
        &self.gadget
    }

    fn wires(&self, input: &[F], joint_rand: &[F], share: &F) -> (r: Vec<Vec<F>>) {
        vec![copied(input)]
    }

    fn output(&self, input: &[F], gadget_outputs: &[F], joint_rand: &[F], share: &F) -> (r: F) {
        let (q, r) = (joint_rand[0], joint_rand[1]);
        let range_check = weighted_sum(gadget_outputs, &q);
        let total = poly_eval(input, &F::one());
        let sum_check = total.sub(share);
        let left = r.mul(&range_check);
        let square = r.mul(&r);
        let right = square.mul(&sum_check);
        let out = left.add(&right);
        proof {
            F::lemma_field();
            let p = F::modulus();
            let (qv, rv, s) = (q.val(), r.val(), share.val());
            let e = qv * eval(vals(gadget_outputs@), qv);
            let t = eval(vals(input@), 1);
            lemma_cong_mod(e, p);
            lemma_cong_mul(rv, rv, range_check.val(), e, p);
            lemma_cong_mod(rv * range_check.val(), p);
            lemma_cong_mod(t, p);
            lemma_cong_sub(total.val(), t, s, s, p);
            lemma_cong_mod(total.val() - s, p);
            lemma_cong_mod(rv * rv, p);
            lemma_cong_mul(square.val(), rv * rv, sum_check.val(), t - s, p);
            lemma_cong_mod(square.val() * sum_check.val(), p);
            lemma_cong_add(left.val(), rv * e, right.val(), (rv * rv) * (t - s), p);
        }
        out
    }

    fn encode(&self, measurement: &F::Integer) -> (r: Result<Vec<F>, PcpError>) {
        let m: u128 = F::integer_to_u128(*measurement);
        let n: usize = self.buckets.len();
        let ghost b = self.boundaries();
        // The first boundary that is not below the measurement lies in `low..=high`.
        let mut low: usize = 0;
        let mut high: usize = n;
        while low < high
            invariant
                low <= high <= n,
                n == self.buckets@.len(),
                n < usize::MAX / 16,
                b == self.boundaries(),
                increasing(b),
                m == F::integer_val(*measurement),
                forall|j: int| 0 <= j < low ==> #[trigger] b[j] < m,
                forall|j: int| high <= j < n ==> m <= #[trigger] b[j],
            decreases high - low,
        {
            let mid: usize = low + (high - low) / 2;
            let boundary: u128 = F::integer_to_u128(self.buckets[mid]);
            assert(boundary == b[mid as int]);
            if boundary < m {
                low = mid + 1;
            } else {
                high = mid;
            }
        }
        proof {
            lemma_bucket_of(b, m as int, low as int);
        }
        let mut out: Vec<F> = Vec::new();
        let mut i: usize = 0;
        while i <= n
            invariant
                i <= n + 1,
                n < usize::MAX / 16,
                low <= n,
                out@.len() == i,
                forall|j: int|
                    0 <= j < i ==> #[trigger] out@[j].val() == (if j == low {
                        1int
                    } else {
                        0int
                    }),
            decreases n + 1 - i,
        {
            out.push(
                if i == low {
                    F::one()
                } else {
                    F::zero()
                },
            );
            i += 1;
        }
        assert(vals(out@) =~= self.contribution(*measurement));
        Ok(out)
    }

    fn truncate(&self, input: Vec<F>) -> (r: Result<Vec<F>, PcpError>) {
        if input.len() != self.input_len() {
            return Err(PcpError::Truncate);
        }
        proof {
            assert forall|i: int| 0 <= i < input@.len() implies #[trigger] vals(input@)[i]
                == reduced(vals(input@), F::modulus())[i] by {
                input@[i].lemma_val();
                lemma_residue(input@[i].val(), F::modulus());
            }
            assert(vals(input@) =~= reduced(vals(input@), F::modulus()));
        }
        Ok(input)
    }
}

/// If an entry of the input is neither zero nor one, then for a second element of the joint
/// randomness that is not zero, the circuit accepts the input for no more values of the first
/// element than the input has entries.
pub proof fn law_histogram_range_sound<F: FieldElement>(
    typ: &Histogram<F>,
    x: Seq<int>,
    k: int,
    r1: int,
    r0s: Set<int>,
)
    requires
        typ.wf(),
        x.len() == typ.input_len_spec(),
        0 <= k < x.len(),
        !is_bit(x[k], F::modulus()),
        !cong(r1, 0, F::modulus()),
        r0s.finite(),
        forall|r0: int| #[trigger]
            r0s.contains(r0) ==> 0 <= r0 < F::modulus() && cong(
                typ.circuit(x, gadget_outputs(typ, x, seq![r0, r1]), seq![r0, r1], 1),
                0,
                F::modulus(),
            ),
    ensures
        r0s.len() <= x.len(),
{
    F::lemma_field();
    lemma_prime::<F>();
    let p = F::modulus();
    let g = gadget_outputs(typ, x, seq![0, r1]);
    let tail = lincomb(r1, g, 0, g);
    let first = (r1 * r1) * (eval(x, 1) - 1);
    let c = seq![first] + tail;
    lemma_range_check_sound(x[k], p);
    assert(g[k] == eval(range_check_coefficients(p), x[k]));
    if cong(r1 * g[k], 0, p) {
        lemma_product_vanishes(r1, g[k], p);
    }
    assert(c[k + 1] == r1 * g[k]);
    assert(!cong(c[k + 1], 0, p));
    assert forall|r0: int| #[trigger] r0s.contains(r0) implies 0 <= r0 < p && cong(
        eval(c, r0),
        0,
        p,
    ) by {
        assert(gadget_outputs(typ, x, seq![r0, r1]) =~= g);
        assert(c.drop_first() =~= tail);
        lemma_eval_lincomb(r1, g, 0, g, r0);
        let e = eval(g, r0);
        assert(first + r0 * (r1 * e + 0 * e) == r1 * (r0 * e) + first) by (nonlinear_arith);
    }
    lemma_root_count(c, p, r0s);
}

/// If the entries of the input do not add up to one, the circuit accepts it, for a given first
/// element of the joint randomness, for at most two values of the second one.
pub proof fn law_histogram_sum_sound<F: FieldElement>(
    typ: &Histogram<F>,
    x: Seq<int>,
    r0: int,
    r1s: Set<int>,
)
    requires
        typ.wf(),
        x.len() == typ.input_len_spec(),
        !cong(eval(x, 1), 1, F::modulus()),
        r1s.finite(),
        forall|r1: int| #[trigger]
            r1s.contains(r1) ==> 0 <= r1 < F::modulus() && cong(
                typ.circuit(x, gadget_outputs(typ, x, seq![r0, r1]), seq![r0, r1], 1),
                0,
                F::modulus(),
            ),
    ensures
        r1s.len() <= 2,
{
    F::lemma_field();
    lemma_prime::<F>();
    let p = F::modulus();
    let g = gadget_outputs(typ, x, seq![r0, 0]);
    let (a, b) = (r0 * eval(g, r0), eval(x, 1) - 1);
    let c = seq![0int, a, b];
    if cong(b, 0, p) {
        lemma_cong_add(b, 0, 1, 1, p);
    }
    assert(!cong(c[2], 0, p));
    assert forall|r1: int| #[trigger] r1s.contains(r1) implies 0 <= r1 < p && cong(
        eval(c, r1),
        0,
        p,
    ) by {
        assert(gadget_outputs(typ, x, seq![r0, r1]) =~= g);
        let c1 = c.drop_first();
        let c2 = c1.drop_first();
        assert(c1 =~= seq![a, b]);
        assert(c2 =~= seq![b]);
        assert(eval(c2.drop_first(), r1) == 0);
        assert(r1 * 0 == 0) by (nonlinear_arith);
        assert(eval(c2, r1) == b);
        assert(eval(c1, r1) == a + r1 * b);
        assert(eval(c, r1) == 0 + r1 * (a + r1 * b));
        assert(0 + r1 * (a + r1 * b) == r1 * a + (r1 * r1) * b) by (nonlinear_arith);
    }
    lemma_root_count(c, p, r1s);
}

/// In a proof for a vector of zeros and ones, changing the random value of the wire and keeping the
/// gadget polynomial, or the other way round, makes the gadget polynomial wrong, so that
/// [`law_shared_wrong_proof_found`](crate::pcp::laws::law_shared_wrong_proof_found) applies.
pub proof fn law_histogram_changed_proof<F: FieldElement>(
    typ: &Histogram<F>,
    x: Seq<int>,
    prove_rand: Seq<int>,
    pf: Seq<int>,
    jr: Seq<int>,
)
    requires
        typ.wf(),
        x.len() == typ.input_len_spec(),
        forall|i: int| 0 <= i < x.len() ==> is_bit(#[trigger] x[i], F::modulus()),
        prove_rand.len() == prove_rand_len_spec(typ),
        pf.len() == proof_len_spec(typ),
        jr.len() == typ.joint_rand_len_spec(),
        one_part_differs(
            pf,
            prove_spec(typ, x, prove_rand, jr),
            prove_rand_len_spec(typ) as int,
            F::modulus(),
        ),
    ensures
        !gadget_poly_right(typ, x, pf, jr),
{
    assert(is_bit(x[0], F::modulus()));
    lemma_changed_proof(typ, x, prove_rand, pf, jr);
}

/// A histogram counts a number in the first bucket whose boundary is not below it, or in the last
/// bucket if all boundaries are: the encoding is one there and zero elsewhere, and is what the
/// measurement adds to the buckets.
pub proof fn law_histogram_encoding<F: FieldElement>(typ: &Histogram<F>, m: F::Integer)
    requires
        typ.wf(),
    ensures
        ({
            let b = typ.boundaries();
            let v = F::integer_val(m);
            &&& typ.input_len_spec() == b.len() + 1
            &&& typ.output_len_spec() == b.len() + 1
            &&& typ.contribution(m).len() == b.len() + 1
            &&& typ.encode_spec(m) == Some(typ.contribution(m))
            &&& typ.truncate_spec(typ.contribution(m)) == typ.contribution(m)
            &&& forall|i: int|
                0 <= i <= b.len() ==> #[trigger] typ.contribution(m)[i] == if (i == 0 || b[i - 1]
                    < v) && (i == b.len() || v <= b[i]) {
                    1int
                } else {
                    0int
                }
        }),
{
    let b = typ.boundaries();
    let v = F::integer_val(m);
    let c = typ.contribution(m);
    lemma_bucket_place(b, v);
    let k = bucket_of(b, v) as int;
    assert forall|i: int| 0 <= i <= b.len() implies #[trigger] c[i] == if (i == 0 || b[i - 1] < v)
        && (i == b.len() || v <= b[i]) {
        1int
    } else {
        0int
    } by {
        if i < k {
            assert(b[i] < v);
        } else if i > k {
            assert(v <= b[k]);
            if k < i - 1 {
                assert(b[k] < b[i - 1]);
            }
        } else if k > 0 {
            assert(b[k - 1] < v);
        }
    }
}

/// All boundaries before the bucket are below the number, and the one of the bucket is not.
proof fn lemma_bucket_place(b: Seq<int>, v: int)
    ensures
        bucket_of(b, v) <= b.len(),
        forall|j: int| 0 <= j < bucket_of(b, v) ==> #[trigger] b[j] < v,
        bucket_of(b, v) < b.len() ==> v <= b[bucket_of(b, v) as int],
    decreases b.len(),
{
    if b.len() > 0 && v > b[0] {
        let c = b.drop_first();
        lemma_bucket_place(c, v);
        assert forall|j: int| 0 <= j < bucket_of(b, v) implies #[trigger] b[j] < v by {
            if j > 0 {
                assert(c[j - 1] < v);
            }
        }
    }
}

/// Boundaries are accepted exactly if each is above the one before it, and there are fewer than
/// `2^32 - 1` of them and few enough for the machine.
pub proof fn law_histogram_boundaries<F: FieldElement>(b: Seq<int>)
    ensures
        Histogram::<F>::acceptable(b) <==> b.len() < 0xffff_ffff && b.len() < usize::MAX / 16
            && forall|i: int| 0 < i < b.len() ==> b[i - 1] < #[trigger] b[i],
{
    if forall|i: int| 0 < i < b.len() ==> b[i - 1] < #[trigger] b[i] {
        assert forall|i: int, j: int| 0 <= i < j < b.len() implies b[i] < b[j] by {
            lemma_steps_increase(b, i, j);
        }
    }
    if increasing(b) {
        assert forall|i: int| 0 < i < b.len() implies b[i - 1] < #[trigger] b[i] by {}
    }
}

proof fn lemma_steps_increase(b: Seq<int>, i: int, j: int)
    requires
        0 <= i < j < b.len(),
        forall|k: int| 0 < k < b.len() ==> b[k - 1] < #[trigger] b[k],
    ensures
        b[i] < b[j],
    decreases j,
{
    assert(b[j - 1] < b[j]);
    if i < j - 1 {
        lemma_steps_increase(b, i, j - 1);
    }
}

/// The circuit for histograms checks each entry in a call of the gadget, which computes `y^2 - y`,
/// and checks that the entries add up to one. The first element of the joint randomness weighs the
/// calls, and the second one the two checks.
pub proof fn law_histogram_circuit<F: FieldElement>(
    typ: &Histogram<F>,
    x: Seq<int>,
    g: Seq<int>,
    jr: Seq<int>,
    s: int,
    y: int,
)
    requires
        typ.wf(),
    ensures
        typ.joint_rand_len_spec() == 2,
        typ.calls_spec() == typ.boundaries().len() + 1,
        typ.gadget_spec().arity_spec() == 1,
        typ.gadget_spec().degree_spec() == 2,
        cong(typ.gadget_spec().call_spec(seq![y]), y * y - y, F::modulus()),
        forall|k: int| #[trigger] typ.wire(x, jr, s, k, 0) == x[k],
        typ.circuit(x, g, jr, s) == jr[1] * (jr[0] * total(
            Seq::new(g.len(), |k: int| g[k] * pow(jr[0], k as nat)),
        )) + (jr[1] * jr[1]) * (total(x) - s),
{
    F::lemma_field();
    law_eval(g, jr[0]);
    law_eval(x, 1);
    let terms = Seq::new(x.len(), |k: int| x[k] * pow(1, k as nat));
    assert forall|k: int| 0 <= k < x.len() implies #[trigger] terms[k] == x[k] by {
        lemma_pow_one(k as nat);
    }
    assert(terms =~= x);
    law_range_check::<F>(typ.gadget_spec(), y);
}

} // verus!

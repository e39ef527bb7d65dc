//! The types of measurements.
use vstd::prelude::*;

pub mod count;
pub mod count_vec;
pub mod histogram;
pub mod sum;

pub use count::Count;
pub use count_vec::CountVec;
pub use histogram::Histogram;
pub use sum::Sum;

verus! {

use vstd::arithmetic::power::pow;
use vstd::arithmetic::power2::{
    lemma2_to64, lemma_pow2_pos, lemma_pow2_strictly_increases, lemma_pow2_unfold, pow2,
};
use vstd::set_lib::{lemma_int_range, lemma_len_subset, lemma_len_union, set_int_range};
use crate::arith::{
    cong, lemma_cong_add, lemma_cong_from, lemma_cong_mod, lemma_cong_mul, lemma_cong_sub,
    lemma_residue, lemma_seq_cong_trans, lincomb, seq_cong, zeros,
};
use crate::field::{half_val, lemma_half, lemma_prime, vals, FieldElement};
use crate::poly::{
    eval, lemma_eval_cong, lemma_eval_lincomb, lemma_interpolate, lemma_interpolate_cong,
    lemma_interpolate_len, poly_eval,
};
use crate::pcp::gadgets::{evals, Gadget, PolyEval};
use crate::pcp::laws::{gadget_poly_right, lemma_domain, lemma_honest_outputs};
use crate::pcp::{
    domain, domain_log, domain_root, domain_root_inverse, lemma_log2_ceil, log2_ceil,
    proof_len_spec, prove_spec, wire_poly, wire_polys, wire_values, Type,
};
use crate::prime::{is_prime, lemma_product_vanishes, lemma_root_count, nonzero};

/// The coefficients of `x^2 - x`, the polynomial that vanishes on zero and one.
pub open spec fn range_check_coefficients(p: int) -> Seq<int> {
    seq![0, p - 1, 1]
}

/// The value of the range check.
proof fn lemma_range_check_value(x: int, p: int)
    ensures
        eval(range_check_coefficients(p), x) == x * (p - 1 + x * 1),
{
    let c = range_check_coefficients(p);
    reveal_with_fuel(eval, 4);
    let c1 = c.drop_first();
    let c2 = c1.drop_first();
    assert(c1[0] == p - 1 && c2[0] == 1);
    assert(eval(c2, x) == 1 + x * eval(c2.drop_first(), x));
    assert(x * 0 == 0) by (nonlinear_arith);
}

/// Modulo `p`, `x` is zero or one.
pub open spec fn is_bit(x: int, p: int) -> bool {
    cong(x, 0, p) || cong(x, 1, p)
}

/// `x^2 - x` vanishes on zero and one alone.
pub proof fn lemma_range_check_sound(x: int, p: int)
    requires
        is_prime(p),
        !is_bit(x, p),
    ensures
        !cong(eval(range_check_coefficients(p), x), 0, p),
{
    lemma_range_check_value(x, p);
    let y = p - 1 + x * 1;
    if cong(x * y, 0, p) {
        lemma_product_vanishes(x, y, p);
        // x == y + 1 - p
        lemma_cong_add(y, 0, 1 - p, 1 - p, p);
        lemma_cong_from(1 - p, 1, -1, p);
    }
}

/// `x^2 - x` vanishes on zero and one.
pub proof fn lemma_range_check(x: int, p: int)
    requires
        p > 0,
        x == 0 || x == 1,
    ensures
        cong(eval(range_check_coefficients(p), x), 0, p),
{
    lemma_range_check_value(x, p);
    let e = eval(range_check_coefficients(p), x);
    if x == 0 {
        assert(e == 0) by (nonlinear_arith)
            requires
                e == x * (p - 1 + x * 1),
                x == 0,
        ;
    } else {
        assert(e == p) by (nonlinear_arith)
            requires
                e == x * (p - 1 + x * 1),
                x == 1,
        ;
        lemma_cong_from(e, 0, 1, p);
    }
}

/// The coefficients of `x^2 - x`.
pub fn range_check_poly<F: FieldElement>() -> (r: Vec<F>)
    ensures
        vals(r@) == range_check_coefficients(F::modulus()),
        r@.len() == 3,
{
    let minus_one = F::zero().sub(&F::one());
    proof {
        F::lemma_field();
        lemma_cong_from(F::modulus() - 1, -1, 1, F::modulus());
        lemma_residue(F::modulus() - 1, F::modulus());
    }
    let r = vec![F::zero(), minus_one, F::one()];
    assert(vals(r@) =~= range_check_coefficients(F::modulus()));
    r
}

/// A polynomial whose coefficients are all zero vanishes everywhere.
pub proof fn lemma_eval_zeros(n: nat, x: int)
    ensures
        eval(zeros(n), x) == 0,
    decreases n,
{
    if n > 0 {
        lemma_eval_zeros((n - 1) as nat, x);
        assert(zeros(n).drop_first() =~= zeros((n - 1) as nat));
        assert(x * 0 == 0) by (nonlinear_arith);
    }
}

/// A polynomial whose coefficients are all zero modulo `p` vanishes modulo `p`.
pub proof fn lemma_eval_vanishes(g: Seq<int>, x: int, p: int)
    requires
        p > 0,
        forall|k: int| 0 <= k < g.len() ==> #[trigger] cong(g[k], 0, p),
    ensures
        cong(eval(g, x), 0, p),
{
    let z = zeros(g.len());
    assert forall|k: int| 0 <= k < g.len() implies #[trigger] cong(g[k], z[k], p) by {
        assert(cong(g[k], 0, p));
    }
    lemma_eval_cong(g, z, x, x, p);
    lemma_eval_zeros(g.len(), x);
}

/// The places of `[0,p)` at which the polynomial `c` vanishes modulo `p`.
spec fn roots(c: Seq<int>, p: int) -> Set<int> {
    Set::new(|t: int| 0 <= t < p && cong(eval(c, t), 0, p))
}

/// The range check tells apart two polynomials that differ at one place and are the same bit at
/// another.
proof fn lemma_range_check_differs(a: Seq<int>, b: Seq<int>, z0: int, z1: int, y: int, p: int)
    requires
        is_prime(p),
        a.len() == b.len(),
        1 <= a.len(),
        2 * (a.len() - 1) < p,
        p > 2,
        !cong(eval(a, z0), eval(b, z0), p),
        cong(eval(a, z1), y, p),
        cong(eval(b, z1), y, p),
        is_bit(y, p),
    ensures
        exists|t: int|
            !cong(
                #[trigger] eval(range_check_coefficients(p), eval(a, t)),
                eval(range_check_coefficients(p), eval(b, t)),
                p,
            ),
{
    let m = a.len();
    let f = range_check_coefficients(p);
    let one = Seq::new(m, |i: int| if i == 0 { 1int } else { 0int });
    let u = lincomb(1, a, -1, b);
    let w = lincomb(1, a, 1, b);
    let v = lincomb(1, w, -1, one);
    assert forall|t: int| #![trigger eval(u, t)]
        eval(u, t) == eval(a, t) - eval(b, t) && eval(v, t) == eval(a, t) + eval(b, t) - 1 by {
        lemma_eval_lincomb(1, a, -1, b, t);
        lemma_eval_lincomb(1, a, 1, b, t);
        lemma_eval_lincomb(1, w, -1, one, t);
        assert(one.drop_first() =~= zeros((m - 1) as nat));
        lemma_eval_zeros((m - 1) as nat, t);
        assert(t * 0 == 0) by (nonlinear_arith);
    }
    // The difference does not vanish at one place, the sum less one does not at the other.
    if !nonzero(u, p) {
        lemma_eval_vanishes(u, z0, p);
        lemma_cong_add(eval(u, z0), 0, eval(b, z0), eval(b, z0), p);
    }
    if !nonzero(v, p) {
        lemma_eval_vanishes(v, z1, p);
        assert(eval(u, z1) == eval(a, z1) - eval(b, z1));
        let bit: int = if cong(y, 0, p) { 0 } else { 1 };
        lemma_cong_add(eval(a, z1), bit, eval(b, z1), bit, p);
        lemma_cong_sub(eval(a, z1) + eval(b, z1), bit + bit, 1, 1, p);
        lemma_residue(1, p);
        lemma_residue(0, p);
        lemma_residue(p - 1, p);
        lemma_cong_from(p - 1, -1, 1, p);
    }
    if forall|t: int|
        cong(#[trigger] eval(f, eval(a, t)), eval(f, eval(b, t)), p) {
        let (us, vs) = (roots(u, p), roots(v, p));
        let all = set_int_range(0, p);
        lemma_int_range(0, p);
        lemma_len_subset(us, all);
        lemma_len_subset(vs, all);
        lemma_root_count(u, p, us);
        lemma_root_count(v, p, vs);
        assert forall|t: int| all.contains(t) implies us.union(vs).contains(t) by {
            let (x, z) = (eval(a, t), eval(b, t));
            assert(cong(eval(f, eval(a, t)), eval(f, eval(b, t)), p));
            lemma_range_check_value(x, p);
            lemma_range_check_value(z, p);
            lemma_cong_sub(eval(f, x), eval(f, z), eval(f, z), eval(f, z), p);
            let q = eval(u, t) * eval(v, t);
            assert(x * (p - 1 + x * 1) - z * (p - 1 + z * 1) == (x - z) * (x + z - 1) + p * (x
                - z)) by (nonlinear_arith);
            assert(q == (x - z) * (x + z - 1));
            lemma_cong_from(eval(f, x) - eval(f, z), q, x - z, p);
            if !cong(eval(u, t), 0, p) {
                lemma_product_vanishes(eval(u, t), eval(v, t), p);
            }
        }
        lemma_len_union(us, vs);
        lemma_len_subset(all, us.union(vs));
    }
}

/// Of a proof and another one of the same length, either the random values of the `ar` wires
/// differ modulo `p` or the gadget polynomials do, but not both.
pub open spec fn one_part_differs(pf: Seq<int>, qf: Seq<int>, ar: int, p: int) -> bool {
    seq_cong(pf.take(ar), qf.take(ar), p) != seq_cong(pf.skip(ar), qf.skip(ar), p)
}

/// Where the gadget is the range check, and the wire holds a bit in the first call, changing one
/// part of a proof makes the gadget polynomial wrong.
pub proof fn lemma_changed_proof<F: FieldElement, T: Type<Field = F, Gadget = PolyEval<F>>>(
    typ: &T,
    x: Seq<int>,
    prove_rand: Seq<int>,
    pf: Seq<int>,
    jr: Seq<int>,
)
    requires
        typ.wf(),
        x.len() == typ.input_len_spec(),
        prove_rand.len() == 1,
        pf.len() == proof_len_spec(typ),
        jr.len() == typ.joint_rand_len_spec(),
        typ.calls_spec() >= 1,
        vals(typ.gadget_spec().poly@) == range_check_coefficients(F::modulus()),
        is_bit(typ.wire(x, jr, 1, 0, 0), F::modulus()),
        one_part_differs(pf, prove_spec(typ, x, prove_rand, jr), 1, F::modulus()),
    ensures
        !gadget_poly_right(typ, x, pf, jr),
{
    let p = F::modulus();
    F::lemma_field();
    lemma_prime::<F>();
    lemma_half::<F>();
    typ.lemma_sizes();
    lemma_domain(typ);
    let g = typ.gadget_spec();
    let (l, m) = (domain_log(typ), domain(typ));
    let (r, rinv, h) = (domain_root(typ), domain_root_inverse(typ), half_val::<F>());
    let seeds = pf.take(1);
    let (av, bv) = (
        wire_values(typ, x, prove_rand, jr, 1, 0),
        wire_values(typ, x, seeds, jr, 1, 0),
    );
    let (a, b) = (
        wire_poly(typ, x, prove_rand, jr, 1, 0),
        wire_poly(typ, x, seeds, jr, 1, 0),
    );
    let (ap, bp) = (wire_polys(typ, x, prove_rand, jr, 1), wire_polys(typ, x, seeds, jr, 1));
    let honest = prove_spec(typ, x, prove_rand, jr);
    lemma_honest_outputs(typ, x, prove_rand, jr);
    lemma_honest_outputs(typ, x, seeds, jr);
    assert(honest.take(1) =~= prove_rand);
    assert(honest.skip(1) =~= g.call_poly_spec(ap));
    if gadget_poly_right(typ, x, pf, jr) {
        g.lemma_call_poly(ap, m, 0);
        g.lemma_call_poly(bp, m, 0);
        if seq_cong(seeds, prove_rand, p) {
            assert(cong(seeds[0], prove_rand[0], p));
            assert forall|i: int| 0 <= i < bv.len() implies #[trigger] cong(bv[i], av[i], p) by {}
            lemma_interpolate_cong(bv, av, rinv, rinv, h, l, p);
            assert forall|i: int| 0 <= i < bp.len() implies seq_cong(#[trigger] bp[i], ap[i], p) by {
                assert(i == 0);
            }
            g.lemma_call_poly_cong(bp, ap, m, p);
            lemma_seq_cong_trans(pf.skip(1), g.call_poly_spec(bp), g.call_poly_spec(ap), p);
        } else {
            let (z0, z1) = (pow(r, 0), pow(r, 1));
            lemma_interpolate(av, r, rinv, h, l, 0, p);
            lemma_interpolate(bv, r, rinv, h, l, 0, p);
            lemma_interpolate(av, r, rinv, h, l, 1, p);
            lemma_interpolate(bv, r, rinv, h, l, 1, p);
            lemma_interpolate_len(av, rinv, h, l);
            lemma_interpolate_len(bv, rinv, h, l);
            assert(!cong(seeds[0], prove_rand[0], p)) by {
                if cong(seeds[0], prove_rand[0], p) {
                    assert(seq_cong(seeds, prove_rand, p));
                }
            }
            assert(m <= pow2(F::num_roots())) by {
                if l < F::num_roots() {
                    lemma_pow2_strictly_increases(l, F::num_roots());
                }
            }
            assert(a.len() == m && 2 * (m - 1) < p);
            lemma_range_check_differs(a, b, z0, z1, typ.wire(x, jr, 1, 0, 0), p);
            let f = range_check_coefficients(p);
            let t = choose|t: int|
                !cong(#[trigger] eval(f, eval(a, t)), eval(f, eval(b, t)), p);
            g.lemma_call_poly(ap, m, t);
            g.lemma_call_poly(bp, m, t);
            assert(evals(ap, t)[0] == eval(a, t));
            assert(evals(bp, t)[0] == eval(b, t));
            let (ag, bg) = (g.call_poly_spec(ap), g.call_poly_spec(bp));
            let gp = pf.skip(1);
            lemma_eval_cong(gp, bg, t, t, p);
            lemma_eval_cong(gp, ag, t, t, p);
        }
    }
}

/// The numbers that machine integers stand for.
pub open spec fn integer_vals<F: FieldElement>(s: Seq<F::Integer>) -> Seq<int> {
    Seq::new(s.len(), |i: int| F::integer_val(s[i]))
}

/// Every entry is zero or one.
pub open spec fn all_bits(x: Seq<int>) -> bool {
    forall|i: int| 0 <= i < x.len() ==> #[trigger] x[i] == 0 || x[i] == 1
}

/// The size of the domain for `n - 1` calls.
pub proof fn lemma_domain_bound(n: nat, b: nat)
    requires
        n >= 1,
        n <= pow2(b),
    ensures
        1 <= pow2(log2_ceil(n)) < 2 * n,
        log2_ceil(n) <= b,
{
    lemma2_to64();
    lemma_log2_ceil(n);
    let l = log2_ceil(n);
    lemma_pow2_pos(l);
    if l > 0 {
        lemma_pow2_unfold(l);
        if l > b {
            if b < l - 1 {
                lemma_pow2_strictly_increases(b, (l - 1) as nat);
            }
        }
    }
}

/// The value of the polynomial `g` at `r`, times `r`.
pub fn weighted_sum<F: FieldElement>(g: &[F], r: &F) -> (y: F)
    ensures
        y.val() == (r.val() * eval(vals(g@), r.val())) % F::modulus(),
{
    let e = poly_eval(g, r);
    proof {
        F::lemma_field();
        let p = F::modulus();
        lemma_cong_mod(eval(vals(g@), r.val()), p);
        lemma_cong_mul(r.val(), r.val(), e.val(), eval(vals(g@), r.val()), p);
    }
    r.mul(&e)
}

/// A copy of a vector of elements.
pub fn copied<F: FieldElement>(v: &[F]) -> (r: Vec<F>)
    ensures
        r@ == v@,
{
    vstd::slice::slice_to_vec(v)
}

/// The numbers that several machine integers stand for are those of each of them, in their order.
pub proof fn law_integer_vals<F: FieldElement>(s: Seq<F::Integer>)
    ensures
        integer_vals::<F>(s).len() == s.len(),
        forall|i: int|
            0 <= i < s.len() ==> #[trigger] integer_vals::<F>(s)[i] == F::integer_val(s[i]),
{
}

/// The gadget that evaluates the range check computes `y^2 - y`.
pub proof fn law_range_check<F: FieldElement>(gadget: PolyEval<F>, y: int)
    requires
        vals(gadget.poly@) == range_check_coefficients(F::modulus()),
    ensures
        gadget.degree_spec() == 2,
        cong(gadget.call_spec(seq![y]), y * y - y, F::modulus()),
{
    F::lemma_field();
    let p = F::modulus();
    assert(vals(gadget.poly@).len() == 3);
    lemma_range_check_value(y, p);
    assert(y * (p - 1 + y * 1) == y * y - y + p * y) by (nonlinear_arith);
    lemma_cong_from(gadget.call_spec(seq![y]), y * y - y, y, p);
}

} // verus!

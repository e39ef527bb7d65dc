//! What the proof system promises.
use vstd::prelude::*;

verus! {

use vstd::arithmetic::power::{
    lemma_pow0, lemma_pow1, lemma_pow_adds, lemma_pow_multiplies, pow,
};
use vstd::arithmetic::power2::{lemma2_to64, lemma_pow2_pos, lemma_pow2_unfold, pow2};
use crate::arith::{
    cong, lemma_cong_add, lemma_cong_from, lemma_cong_mod, lemma_cong_mul, lemma_cong_pow,
    lemma_cong_sub, lemma_cong_witness, lemma_pow_one, lemma_residue, lemma_seq_cong_refl,
    lemma_seq_cong_trans, lemma_seq_cong_witness, lemma_sum_seqs_len, lincomb, seq_cong, sum_seqs,
    uniform, zeros,
};
use crate::field::{
    half_val, inverse, lemma_half, lemma_inverse, lemma_prime, lemma_root_order, FieldElement,
};
use crate::poly::{
    eval, interpolate, lemma_eval_cong, lemma_eval_lincomb, lemma_eval_push, lemma_interpolate,
    lemma_interpolate_len, lemma_interpolate_lincomb,
};
use crate::prime::{lemma_root_count, nonzero};
use crate::pcp::gadgets::{all_len, evals, Gadget};
use crate::pcp::{
    call_inputs, claimed_outputs, decide_spec, domain, domain_log, domain_root, domain_root_inverse,
    gadget_outputs, lemma_log2_ceil, proof_len_spec, prove_rand_len_spec, prove_spec,
    query_point_ok, query_spec, verifier_len_spec, wire_poly, wire_polys, wire_values, Type,
};

/// The output of the circuit depends on the residues of its arguments alone.
pub proof fn lemma_circuit_cong<T: Type>(
    typ: &T,
    x: Seq<int>,
    y: Seq<int>,
    g: Seq<int>,
    h: Seq<int>,
    s: int,
    t: int,
    jr: Seq<int>,
)
    requires
        typ.wf(),
        x.len() == typ.input_len_spec(),
        g.len() == typ.calls_spec(),
        jr.len() == typ.joint_rand_len_spec(),
        seq_cong(x, y, T::Field::modulus()),
        seq_cong(g, h, T::Field::modulus()),
        cong(s, t, T::Field::modulus()),
    ensures
        cong(typ.circuit(x, g, jr, s), typ.circuit(y, h, jr, t), T::Field::modulus()),
{
    let p = T::Field::modulus();
    <T::Field as FieldElement>::lemma_field();
    let d = lemma_seq_cong_witness(x, y, p);
    let e = lemma_seq_cong_witness(g, h, p);
    let f = lemma_cong_witness(s, t, p);
    typ.lemma_circuit_linear(1, y, h, t, p, d, e, f, jr);
    let (a, b) = (typ.circuit(y, h, jr, t), typ.circuit(d, e, jr, f));
    lemma_cong_from(typ.circuit(x, g, jr, s), a, b, p);
}

/// The verifier message is linear in the input, the proof and the share of one.
pub proof fn lemma_query_linear<T: Type>(
    typ: &T,
    a: int,
    x: Seq<int>,
    pf: Seq<int>,
    s: int,
    b: int,
    y: Seq<int>,
    qf: Seq<int>,
    t: int,
    point: int,
    jr: Seq<int>,
)
    requires
        typ.wf(),
        x.len() == typ.input_len_spec(),
        y.len() == typ.input_len_spec(),
        pf.len() == proof_len_spec(typ),
        qf.len() == proof_len_spec(typ),
        jr.len() == typ.joint_rand_len_spec(),
    ensures
        query_spec(typ, x, pf, point, jr, s).len() == verifier_len_spec(typ),
        query_spec(typ, lincomb(a, x, b, y), lincomb(a, pf, b, qf), point, jr, a * s + b * t)
            == lincomb(
            a,
            query_spec(typ, x, pf, point, jr, s),
            b,
            query_spec(typ, y, qf, point, jr, t),
        ),
{
    typ.lemma_sizes();
    let ar = typ.gadget_spec().arity_spec();
    let l = domain_log(typ);
    lemma_pow2_pos(l);
    let d = typ.gadget_spec().degree_spec();
    assert(d * (domain(typ) - 1) >= 0) by (nonlinear_arith)
        requires
            domain(typ) >= 1,
            d >= 0,
    ;
    let (z, zf, u) = (lincomb(a, x, b, y), lincomb(a, pf, b, qf), a * s + b * t);
    let (ps, qs, zs) = (pf.take(ar as int), qf.take(ar as int), zf.take(ar as int));
    let (pg, qg, zg) = (pf.skip(ar as int), qf.skip(ar as int), zf.skip(ar as int));
    assert(zs =~= lincomb(a, ps, b, qs));
    assert(zg =~= lincomb(a, pg, b, qg));
    let (co, cp, cq) = (
        claimed_outputs(typ, zg),
        claimed_outputs(typ, pg),
        claimed_outputs(typ, qg),
    );
    assert forall|k: int| 0 <= k < typ.calls_spec() implies #[trigger] co[k] == lincomb(
        a,
        cp,
        b,
        cq,
    )[k] by {
        lemma_eval_lincomb(a, pg, b, qg, pow(domain_root(typ), (k + 1) as nat));
    }
    assert(co =~= lincomb(a, cp, b, cq));
    typ.lemma_circuit_linear(a, x, cp, s, b, y, cq, t, jr);
    let (winv, h) = (domain_root_inverse(typ), half_val::<T::Field>());
    let (left, right) = (
        query_spec(typ, z, zf, point, jr, u),
        lincomb(a, query_spec(typ, x, pf, point, jr, s), b, query_spec(typ, y, qf, point, jr, t)),
    );
    assert forall|i: int| 0 <= i < ar implies #[trigger] left[i + 1] == right[i + 1] by {
        let (vz, vx, vy) = (
            wire_values(typ, z, zs, jr, u, i),
            wire_values(typ, x, ps, jr, s, i),
            wire_values(typ, y, qs, jr, t, i),
        );
        assert forall|k: int| 0 <= k < vz.len() implies #[trigger] vz[k] == lincomb(
            a,
            vx,
            b,
            vy,
        )[k] by {
            if k == 0 {
            } else if k <= typ.calls_spec() {
                typ.lemma_wire_linear(a, x, s, b, y, t, jr, k - 1, i);
            } else {
                assert(a * 0 + b * 0 == 0) by (nonlinear_arith);
            }
        }
        assert(vz =~= lincomb(a, vx, b, vy));
        lemma_interpolate_lincomb(a, vx, b, vy, winv, h, l);
        lemma_interpolate_len(vx, winv, h, l);
        lemma_interpolate_len(vy, winv, h, l);
        lemma_eval_lincomb(a, interpolate(vx, winv, h), b, interpolate(vy, winv, h), point);
        assert(left[i + 1] == eval(wire_polys(typ, z, zs, jr, u)[i], point));
    }
    lemma_eval_lincomb(a, pg, b, qg, point);
    assert forall|i: int| 0 <= i < left.len() implies #[trigger] left[i] == right[i] by {
        if 1 <= i <= ar {
            assert(left[(i - 1) + 1] == right[(i - 1) + 1]);
        }
    }
    assert(left =~= right);
}

/// The verifier message depends on the residues of the input, the proof and the share of one.
pub proof fn lemma_query_cong<T: Type>(
    typ: &T,
    x: Seq<int>,
    pf: Seq<int>,
    s: int,
    y: Seq<int>,
    qf: Seq<int>,
    t: int,
    point: int,
    jr: Seq<int>,
)
    requires
        typ.wf(),
        x.len() == typ.input_len_spec(),
        pf.len() == proof_len_spec(typ),
        jr.len() == typ.joint_rand_len_spec(),
        seq_cong(x, y, T::Field::modulus()),
        seq_cong(pf, qf, T::Field::modulus()),
        cong(s, t, T::Field::modulus()),
    ensures
        seq_cong(
            query_spec(typ, x, pf, point, jr, s),
            query_spec(typ, y, qf, point, jr, t),
            T::Field::modulus(),
        ),
{
    let p = T::Field::modulus();
    <T::Field as FieldElement>::lemma_field();
    let d = lemma_seq_cong_witness(x, y, p);
    let e = lemma_seq_cong_witness(pf, qf, p);
    let f = lemma_cong_witness(s, t, p);
    lemma_query_linear(typ, 1, y, qf, t, p, d, e, f, point, jr);
    let (a, b) = (query_spec(typ, y, qf, point, jr, t), query_spec(typ, d, e, point, jr, f));
    let c = query_spec(typ, x, pf, point, jr, s);
    assert forall|i: int| 0 <= i < c.len() implies #[trigger] cong(c[i], a[i], p) by {
        lemma_cong_from(c[i], a[i], b[i], p);
    }
}

/// The verifier shares of shares of an input and a proof.
pub open spec fn query_shares<T: Type>(
    typ: &T,
    xs: Seq<Seq<int>>,
    pfs: Seq<Seq<int>>,
    s: int,
    point: int,
    jr: Seq<int>,
) -> Seq<Seq<int>> {
    Seq::new(xs.len(), |i: int| query_spec(typ, xs[i], pfs[i], point, jr, s))
}

/// The sum of the verifier shares is the verifier message of the sums.
pub proof fn lemma_query_sum<T: Type>(
    typ: &T,
    xs: Seq<Seq<int>>,
    pfs: Seq<Seq<int>>,
    s: int,
    point: int,
    jr: Seq<int>,
)
    requires
        typ.wf(),
        xs.len() == pfs.len(),
        uniform(xs, typ.input_len_spec()),
        uniform(pfs, proof_len_spec(typ)),
        jr.len() == typ.joint_rand_len_spec(),
    ensures
        uniform(query_shares(typ, xs, pfs, s, point, jr), verifier_len_spec(typ)),
        sum_seqs(query_shares(typ, xs, pfs, s, point, jr), verifier_len_spec(typ)) == query_spec(
            typ,
            sum_seqs(xs, typ.input_len_spec()),
            sum_seqs(pfs, proof_len_spec(typ)),
            point,
            jr,
            xs.len() * s,
        ),
    decreases xs.len(),
{
    let (n, m, v) = (typ.input_len_spec(), proof_len_spec(typ), verifier_len_spec(typ));
    let shares = query_shares(typ, xs, pfs, s, point, jr);
    assert forall|i: int| 0 <= i < shares.len() implies (#[trigger] shares[i]).len() == v by {
        assert(xs[i].len() == n && pfs[i].len() == m);
        lemma_query_linear(typ, 1, xs[i], pfs[i], s, 0, xs[i], pfs[i], s, point, jr);
    }
    if xs.len() == 0 {
        let (zx, zp) = (zeros(n), zeros(m));
        lemma_query_linear(typ, 0, zx, zp, 0, 0, zx, zp, 0, point, jr);
        assert(lincomb(0, zx, 0, zx) =~= zx);
        assert(lincomb(0, zp, 0, zp) =~= zp);
        let q = query_spec(typ, zx, zp, point, jr, 0);
        assert(lincomb(0, q, 0, q) =~= zeros(v));
        assert(0 * s == 0) by (nonlinear_arith);
    } else {
        let k = xs.len() - 1;
        let (x1, p1) = (xs.drop_last(), pfs.drop_last());
        lemma_query_sum(typ, x1, p1, s, point, jr);
        assert(query_shares(typ, x1, p1, s, point, jr) =~= shares.drop_last());
        lemma_sum_seqs_len(x1, n);
        lemma_sum_seqs_len(p1, m);
        assert(xs[k].len() == n && pfs[k].len() == m);
        lemma_query_linear(
            typ,
            1,
            sum_seqs(x1, n),
            sum_seqs(p1, m),
            k * s,
            1,
            xs[k],
            pfs[k],
            s,
            point,
            jr,
        );
        assert(1 * (k * s) + 1 * s == xs.len() * s) by (nonlinear_arith)
            requires
                k == xs.len() - 1,
        ;
    }
}

/// The points of the domain, and the inverse of its root.
pub proof fn lemma_domain<T: Type>(typ: &T)
    requires
        typ.wf(),
    ensures
        cong(domain_root(typ) * domain_root_inverse(typ), 1, T::Field::modulus()),
        domain_log(typ) > 0 ==> cong(
            pow(domain_root(typ), pow2((domain_log(typ) - 1) as nat)),
            -1,
            T::Field::modulus(),
        ),
        typ.calls_spec() < domain(typ),
        domain(typ) >= 1,
{
    typ.lemma_sizes();
    let p = T::Field::modulus();
    <T::Field as FieldElement>::lemma_field();
    let l = domain_log(typ);
    let w = domain_root(typ);
    lemma_pow2_pos(l);
    lemma_log2_ceil(typ.calls_spec() + 1);
    let m = domain(typ);
    lemma_pow1(w);
    lemma_pow_adds(w, 1, (m - 1) as nat);
    if l > 0 {
        lemma_root_order::<T::Field>(l);
    } else {
        lemma2_to64();
        // The principal root of order one is the square of minus one.
        <T::Field as FieldElement>::lemma_roots(1);
        let w1 = T::Field::root_val(1);
        lemma_cong_from(w1, -1, 1, p);
        lemma_cong_mul(w1, -1, w1, -1, p);
        lemma_cong_mod(w1 * w1, p);
        assert(pow(w, m) == w);
    }
}

/// The gadget polynomial of an honest proof claims the outputs that the gadget calls have.
pub proof fn lemma_honest_outputs<T: Type>(typ: &T, x: Seq<int>, seeds: Seq<int>, jr: Seq<int>)
    requires
        typ.wf(),
        x.len() == typ.input_len_spec(),
        seeds.len() == prove_rand_len_spec(typ),
        jr.len() == typ.joint_rand_len_spec(),
    ensures
        all_len(wire_polys(typ, x, seeds, jr, 1), domain(typ)),
        seq_cong(
            claimed_outputs(
                typ,
                typ.gadget_spec().call_poly_spec(wire_polys(typ, x, seeds, jr, 1)),
            ),
            gadget_outputs(typ, x, jr),
            T::Field::modulus(),
        ),
{
    typ.lemma_sizes();
    lemma_domain(typ);
    let p = T::Field::modulus();
    <T::Field as FieldElement>::lemma_field();
    lemma_half::<T::Field>();
    let g = typ.gadget_spec();
    let ar = g.arity_spec();
    let l = domain_log(typ);
    let m = domain(typ);
    let (w, winv, h) = (domain_root(typ), domain_root_inverse(typ), half_val::<T::Field>());
    let polys = wire_polys(typ, x, seeds, jr, 1);
    assert forall|a: int| 0 <= a < ar implies (#[trigger] polys[a]).len() == m by {
        lemma_interpolate_len(wire_values(typ, x, seeds, jr, 1, a), winv, h, l);
    }
    let gp = g.call_poly_spec(polys);
    let (claimed, outputs) = (claimed_outputs(typ, gp), gadget_outputs(typ, x, jr));
    assert forall|k: int| 0 <= k < typ.calls_spec() implies #[trigger] cong(
        claimed[k],
        outputs[k],
        p,
    ) by {
        let z = pow(w, (k + 1) as nat);
        g.lemma_call_poly(polys, m, z);
        let (got, want) = (evals(polys, z), call_inputs(typ, x, jr, 1, k));
        assert forall|a: int| 0 <= a < ar implies #[trigger] cong(got[a], want[a], p) by {
            let values = wire_values(typ, x, seeds, jr, 1, a);
            lemma_interpolate(values, w, winv, h, l, k + 1, p);
            assert(values[k + 1] == typ.wire(x, jr, 1, k, a));
            assert(got[a] == eval(wire_poly(typ, x, seeds, jr, 1, a), z));
        }
        g.lemma_call_cong(got, want, p);
    }
}

/// An honest proof lets the circuit decide: the verifier message for an input and the proof that
/// [`prove`](crate::pcp::system::prove) makes for it is accepted exactly if the circuit is zero on
/// the input, whatever the query point is.
pub proof fn law_honest_proof_decided<T: Type>(
    typ: &T,
    x: Seq<int>,
    prove_rand: Seq<int>,
    point: int,
    jr: Seq<int>,
)
    requires
        typ.wf(),
        x.len() == typ.input_len_spec(),
        prove_rand.len() == prove_rand_len_spec(typ),
        jr.len() == typ.joint_rand_len_spec(),
    ensures
        prove_spec(typ, x, prove_rand, jr).len() == proof_len_spec(typ),
        query_spec(typ, x, prove_spec(typ, x, prove_rand, jr), point, jr, 1).len()
            == verifier_len_spec(typ),
        decide_spec(
            typ,
            query_spec(typ, x, prove_spec(typ, x, prove_rand, jr), point, jr, 1),
        ) == cong(
            typ.circuit(x, gadget_outputs(typ, x, jr), jr, 1),
            0,
            T::Field::modulus(),
        ),
{
    typ.lemma_sizes();
    lemma_domain(typ);
    let p = T::Field::modulus();
    <T::Field as FieldElement>::lemma_field();
    lemma_half::<T::Field>();
    let g = typ.gadget_spec();
    let ar = g.arity_spec();
    let l = domain_log(typ);
    let m = domain(typ);
    let (w, winv, h) = (domain_root(typ), domain_root_inverse(typ), half_val::<T::Field>());
    let polys = wire_polys(typ, x, prove_rand, jr, 1);
    assert forall|a: int| 0 <= a < ar implies (#[trigger] polys[a]).len() == m by {
        lemma_interpolate_len(wire_values(typ, x, prove_rand, jr, 1, a), winv, h, l);
    }
    let gp = g.call_poly_spec(polys);
    g.lemma_call_poly(polys, m, point);
    let pf = prove_spec(typ, x, prove_rand, jr);
    assert(pf.take(ar as int) =~= prove_rand);
    assert(pf.skip(ar as int) =~= gp);
    let v = query_spec(typ, x, pf, point, jr, 1);
    assert(v.subrange(1, 1 + ar as int) =~= evals(polys, point));
    // The claimed outputs are those of the gadget calls.
    let (claimed, outputs) = (claimed_outputs(typ, gp), gadget_outputs(typ, x, jr));
    lemma_honest_outputs(typ, x, prove_rand, jr);
    assert(seq_cong(x, x, p)) by {
        assert forall|i: int| 0 <= i < x.len() implies #[trigger] cong(x[i], x[i], p) by {}
    }
    lemma_circuit_cong(typ, x, x, claimed, outputs, 1, 1, jr);
}

/// A proof for a valid input makes an accepted verifier message.
pub proof fn lemma_proof_complete<T: Type>(
    typ: &T,
    x: Seq<int>,
    prove_rand: Seq<int>,
    point: int,
    jr: Seq<int>,
)
    requires
        typ.wf(),
        x.len() == typ.input_len_spec(),
        typ.valid(x),
        prove_rand.len() == prove_rand_len_spec(typ),
        jr.len() == typ.joint_rand_len_spec(),
    ensures
        prove_spec(typ, x, prove_rand, jr).len() == proof_len_spec(typ),
        query_spec(typ, x, prove_spec(typ, x, prove_rand, jr), point, jr, 1).len()
            == verifier_len_spec(typ),
        decide_spec(
            typ,
            query_spec(typ, x, prove_spec(typ, x, prove_rand, jr), point, jr, 1),
        ),
{
    law_honest_proof_decided(typ, x, prove_rand, point, jr);
    let g = typ.gadget_spec();
    let outputs = gadget_outputs(typ, x, jr);
    assert forall|k: int| 0 <= k < outputs.len() implies #[trigger] outputs[k] == g.call_spec(
        Seq::new(g.arity_spec(), |a: int| typ.wire(x, jr, 1, k, a)),
    ) by {}
    typ.lemma_circuit_complete(x, outputs, jr);
}

/// The decision depends on the residues of the verifier message alone.
pub proof fn lemma_decide_cong<T: Type>(typ: &T, v: Seq<int>, u: Seq<int>)
    requires
        typ.wf(),
        v.len() == verifier_len_spec(typ),
        seq_cong(v, u, T::Field::modulus()),
    ensures
        decide_spec(typ, v) == decide_spec(typ, u),
{
    typ.lemma_sizes();
    <T::Field as FieldElement>::lemma_field();
    let p = T::Field::modulus();
    let ar = typ.gadget_spec().arity_spec() as int;
    let (a, b) = (v.subrange(1, 1 + ar), u.subrange(1, 1 + ar));
    assert forall|i: int| 0 <= i < ar implies #[trigger] cong(a[i], b[i], p) by {
        assert(cong(v[i + 1], u[i + 1], p));
    }
    typ.gadget_spec().lemma_call_cong(a, b, p);
    assert(cong(v[0], u[0], p));
    assert(cong(v[1 + ar], u[1 + ar], p));
}

/// Deciding on shares is deciding on what they add up to: the sum of the verifier shares is
/// accepted exactly if the verifier message of the sums is.
pub proof fn law_shared_decision<T: Type>(
    typ: &T,
    xs: Seq<Seq<int>>,
    pfs: Seq<Seq<int>>,
    point: int,
    jr: Seq<int>,
    verifier: Seq<int>,
)
    requires
        typ.wf(),
        jr.len() == typ.joint_rand_len_spec(),
        1 <= xs.len() <= 255,
        xs.len() == pfs.len(),
        uniform(xs, typ.input_len_spec()),
        uniform(pfs, proof_len_spec(typ)),
        seq_cong(
            verifier,
            sum_seqs(
                query_shares(
                    typ,
                    xs,
                    pfs,
                    inverse(xs.len() as int, T::Field::modulus()) % T::Field::modulus(),
                    point,
                    jr,
                ),
                verifier_len_spec(typ),
            ),
            T::Field::modulus(),
        ),
    ensures
        decide_spec(typ, verifier) == decide_spec(
            typ,
            query_spec(
                typ,
                sum_seqs(xs, typ.input_len_spec()),
                sum_seqs(pfs, proof_len_spec(typ)),
                point,
                jr,
                1,
            ),
        ),
{
    let p = T::Field::modulus();
    <T::Field as FieldElement>::lemma_field();
    let (n, m) = (typ.input_len_spec(), proof_len_spec(typ));
    let k = xs.len() as int;
    let s = inverse(k, p) % p;
    assert(cong(k * s, 1, p)) by {
        lemma_prime::<T::Field>();
        lemma_inverse(k, p);
        lemma_cong_mod(inverse(k, p), p);
        lemma_cong_mul(k, k, s, inverse(k, p), p);
    }
    lemma_query_sum(typ, xs, pfs, s, point, jr);
    lemma_sum_seqs_len(xs, n);
    lemma_sum_seqs_len(pfs, m);
    let (x, pf) = (sum_seqs(xs, n), sum_seqs(pfs, m));
    lemma_seq_cong_refl(x, p);
    lemma_seq_cong_refl(pf, p);
    lemma_query_cong(typ, x, pf, k * s, x, pf, 1, point, jr);
    let (total, one) = (
        query_spec(typ, x, pf, point, jr, k * s),
        query_spec(typ, x, pf, point, jr, 1),
    );
    lemma_query_linear(typ, 1, x, pf, k * s, 0, x, pf, k * s, point, jr);
    lemma_seq_cong_trans(verifier, total, one, p);
    lemma_decide_cong(typ, verifier, one);
}

/// The proof system is complete on shares: if the shares of the input add up to a valid input,
/// and those of the proof to a proof for it, then the sum of the verifier shares is accepted.
pub proof fn law_shared_proof_complete<T: Type>(
    typ: &T,
    x: Seq<int>,
    prove_rand: Seq<int>,
    xs: Seq<Seq<int>>,
    pfs: Seq<Seq<int>>,
    point: int,
    jr: Seq<int>,
    verifier: Seq<int>,
)
    requires
        typ.wf(),
        x.len() == typ.input_len_spec(),
        typ.valid(x),
        prove_rand.len() == prove_rand_len_spec(typ),
        jr.len() == typ.joint_rand_len_spec(),
        1 <= xs.len() <= 255,
        xs.len() == pfs.len(),
        uniform(xs, typ.input_len_spec()),
        uniform(pfs, proof_len_spec(typ)),
        seq_cong(sum_seqs(xs, typ.input_len_spec()), x, T::Field::modulus()),
        seq_cong(
            sum_seqs(pfs, proof_len_spec(typ)),
            prove_spec(typ, x, prove_rand, jr),
            T::Field::modulus(),
        ),
        seq_cong(
            verifier,
            sum_seqs(
                query_shares(
                    typ,
                    xs,
                    pfs,
                    inverse(xs.len() as int, T::Field::modulus()) % T::Field::modulus(),
                    point,
                    jr,
                ),
                verifier_len_spec(typ),
            ),
            T::Field::modulus(),
        ),
    ensures
        decide_spec(typ, verifier),
{
    let p = T::Field::modulus();
    let (n, m) = (typ.input_len_spec(), proof_len_spec(typ));
    law_shared_decision(typ, xs, pfs, point, jr, verifier);
    lemma_proof_complete(typ, x, prove_rand, point, jr);
    let pf = prove_spec(typ, x, prove_rand, jr);
    lemma_sum_seqs_len(xs, n);
    lemma_sum_seqs_len(pfs, m);
    let (sx, sp) = (sum_seqs(xs, n), sum_seqs(pfs, m));
    lemma_query_cong(typ, sx, sp, 1, x, pf, 1, point, jr);
    lemma_query_linear(typ, 1, sx, sp, 1, 0, sx, sp, 1, point, jr);
    lemma_decide_cong(
        typ,
        query_spec(typ, sx, sp, point, jr, 1),
        query_spec(typ, x, pf, point, jr, 1),
    );
}

/// The gadget polynomial of the proof is the one that the wires give, with the random values that
/// the proof holds for them.
pub open spec fn gadget_poly_right<T: Type>(
    typ: &T,
    x: Seq<int>,
    pf: Seq<int>,
    jr: Seq<int>,
) -> bool {
    let ar = typ.gadget_spec().arity_spec() as int;
    seq_cong(
        pf.skip(ar),
        typ.gadget_spec().call_poly_spec(wire_polys(typ, x, pf.take(ar), jr, 1)),
        T::Field::modulus(),
    )
}

/// A proof whose gadget polynomial is not the one that its wires give is found out: the verifier
/// message is accepted for no more query points than the degree of the gadget polynomial,
/// whatever the input is.
pub proof fn law_wrong_proof_found<T: Type>(
    typ: &T,
    x: Seq<int>,
    pf: Seq<int>,
    jr: Seq<int>,
    points: Set<int>,
)
    requires
        typ.wf(),
        x.len() == typ.input_len_spec(),
        pf.len() == proof_len_spec(typ),
        jr.len() == typ.joint_rand_len_spec(),
        !gadget_poly_right(typ, x, pf, jr),
        points.finite(),
        forall|t: int| #[trigger]
            points.contains(t) ==> 0 <= t < T::Field::modulus() && decide_spec(
                typ,
                query_spec(typ, x, pf, t, jr, 1),
            ),
    ensures
        points.len() <= typ.gadget_spec().degree_spec() * (domain(typ) - 1),
{
    let p = T::Field::modulus();
    <T::Field as FieldElement>::lemma_field();
    lemma_prime::<T::Field>();
    typ.lemma_sizes();
    lemma_domain(typ);
    let g = typ.gadget_spec();
    let ar = g.arity_spec() as int;
    let m = domain(typ);
    let d = g.degree_spec() * (m - 1);
    assert(d >= 0) by (nonlinear_arith)
        requires
            d == g.degree_spec() * (m - 1),
            g.degree_spec() >= 0,
            m >= 1,
    ;
    let (seeds, gp) = (pf.take(ar), pf.skip(ar));
    let polys = wire_polys(typ, x, seeds, jr, 1);
    lemma_honest_outputs(typ, x, seeds, jr);
    let honest = g.call_poly_spec(polys);
    g.lemma_call_poly(polys, m, 0);
    let diff = lincomb(1, gp, -1, honest);
    if !nonzero(diff, p) {
        assert forall|i: int| 0 <= i < gp.len() implies #[trigger] cong(gp[i], honest[i], p) by {
            assert(cong(diff[i], 0, p));
            lemma_cong_add(diff[i], 0, honest[i], honest[i], p);
        }
    }
    assert forall|t: int| #[trigger] points.contains(t) implies 0 <= t < p && cong(
        eval(diff, t),
        0,
        p,
    ) by {
        let v = query_spec(typ, x, pf, t, jr, 1);
        g.lemma_call_poly(polys, m, t);
        assert(v.subrange(1, 1 + ar) =~= evals(polys, t));
        assert(v[1 + ar] == eval(gp, t));
        lemma_eval_lincomb(1, gp, -1, honest, t);
        lemma_cong_sub(eval(gp, t), eval(honest, t), eval(honest, t), eval(honest, t), p);
    }
    lemma_root_count(diff, p, points);
}

/// The proof system is sound: whatever the proof is, if the circuit is not zero on the input, the
/// verifier message is accepted for no more query points than the degree of the gadget
/// polynomial.
pub proof fn law_proof_sound<T: Type>(
    typ: &T,
    x: Seq<int>,
    pf: Seq<int>,
    jr: Seq<int>,
    points: Set<int>,
)
    requires
        typ.wf(),
        x.len() == typ.input_len_spec(),
        pf.len() == proof_len_spec(typ),
        jr.len() == typ.joint_rand_len_spec(),
        !cong(typ.circuit(x, gadget_outputs(typ, x, jr), jr, 1), 0, T::Field::modulus()),
        points.finite(),
        forall|t: int| #[trigger]
            points.contains(t) ==> 0 <= t < T::Field::modulus() && decide_spec(
                typ,
                query_spec(typ, x, pf, t, jr, 1),
            ),
    ensures
        points.len() <= typ.gadget_spec().degree_spec() * (domain(typ) - 1),
{
    if !gadget_poly_right(typ, x, pf, jr) {
        law_wrong_proof_found(typ, x, pf, jr, points);
    } else {
        // The proof claims the outputs that the gadget calls have.
        let p = T::Field::modulus();
        <T::Field as FieldElement>::lemma_field();
        typ.lemma_sizes();
        lemma_domain(typ);
        let g = typ.gadget_spec();
        let ar = g.arity_spec() as int;
        let m = domain(typ);
        assert(g.degree_spec() * (m - 1) >= 0) by (nonlinear_arith)
            requires
                g.degree_spec() >= 0,
                m >= 1,
        ;
        let (seeds, gp) = (pf.take(ar), pf.skip(ar));
        lemma_honest_outputs(typ, x, seeds, jr);
        let honest = g.call_poly_spec(wire_polys(typ, x, seeds, jr, 1));
        let (claimed, outputs) = (claimed_outputs(typ, gp), gadget_outputs(typ, x, jr));
        let right = claimed_outputs(typ, honest);
        assert forall|k: int| 0 <= k < typ.calls_spec() implies #[trigger] cong(
            claimed[k],
            right[k],
            p,
        ) by {
            let z = pow(domain_root(typ), (k + 1) as nat);
            lemma_eval_cong(gp, honest, z, z, p);
        }
        lemma_seq_cong_trans(claimed, right, outputs, p);
        lemma_seq_cong_refl(x, p);
        lemma_circuit_cong(typ, x, x, claimed, outputs, 1, 1, jr);
        if points.len() > 0 {
            let t = points.choose();
            assert(points.contains(t));
            assert(query_spec(typ, x, pf, t, jr, 1)[0] == typ.circuit(x, claimed, jr, 1));
        }
    }
}

/// For each of the query points the sum of the verifier shares is accepted.
pub open spec fn accepts_shares<T: Type>(
    typ: &T,
    xs: Seq<Seq<int>>,
    pfs: Seq<Seq<int>>,
    jr: Seq<int>,
    points: Set<int>,
) -> bool {
    let p = T::Field::modulus();
    forall|t: int| #[trigger]
        points.contains(t) ==> 0 <= t < p && decide_spec(
            typ,
            sum_seqs(
                query_shares(typ, xs, pfs, inverse(xs.len() as int, p) % p, t, jr),
                verifier_len_spec(typ),
            ),
        )
}

/// What accepts the sum of the verifier shares accepts the verifier message of the sums.
proof fn lemma_shared_points<T: Type>(
    typ: &T,
    xs: Seq<Seq<int>>,
    pfs: Seq<Seq<int>>,
    jr: Seq<int>,
    points: Set<int>,
)
    requires
        typ.wf(),
        jr.len() == typ.joint_rand_len_spec(),
        1 <= xs.len() <= 255,
        xs.len() == pfs.len(),
        uniform(xs, typ.input_len_spec()),
        uniform(pfs, proof_len_spec(typ)),
        accepts_shares(typ, xs, pfs, jr, points),
    ensures
        forall|t: int| #[trigger]
            points.contains(t) ==> 0 <= t < T::Field::modulus() && decide_spec(
                typ,
                query_spec(
                    typ,
                    sum_seqs(xs, typ.input_len_spec()),
                    sum_seqs(pfs, proof_len_spec(typ)),
                    t,
                    jr,
                    1,
                ),
            ),
{
    let p = T::Field::modulus();
    let (n, m) = (typ.input_len_spec(), proof_len_spec(typ));
    let s = inverse(xs.len() as int, p) % p;
    assert forall|t: int| #[trigger] points.contains(t) implies 0 <= t < p && decide_spec(
        typ,
        query_spec(typ, sum_seqs(xs, n), sum_seqs(pfs, m), t, jr, 1),
    ) by {
        let v = sum_seqs(query_shares(typ, xs, pfs, s, t, jr), verifier_len_spec(typ));
        lemma_seq_cong_refl(v, p);
        law_shared_decision(typ, xs, pfs, t, jr, v);
    }
}

/// A wrong proof is found out on shares: if the gadget polynomial that the proof shares add up to
/// is not the one that the wires give, the sum of the verifier shares is accepted for no more
/// query points than the degree of the gadget polynomial.
pub proof fn law_shared_wrong_proof_found<T: Type>(
    typ: &T,
    xs: Seq<Seq<int>>,
    pfs: Seq<Seq<int>>,
    jr: Seq<int>,
    points: Set<int>,
)
    requires
        typ.wf(),
        jr.len() == typ.joint_rand_len_spec(),
        1 <= xs.len() <= 255,
        xs.len() == pfs.len(),
        uniform(xs, typ.input_len_spec()),
        uniform(pfs, proof_len_spec(typ)),
        !gadget_poly_right(
            typ,
            sum_seqs(xs, typ.input_len_spec()),
            sum_seqs(pfs, proof_len_spec(typ)),
            jr,
        ),
        points.finite(),
        accepts_shares(typ, xs, pfs, jr, points),
    ensures
        points.len() <= typ.gadget_spec().degree_spec() * (domain(typ) - 1),
{
    let (n, m) = (typ.input_len_spec(), proof_len_spec(typ));
    lemma_sum_seqs_len(xs, n);
    lemma_sum_seqs_len(pfs, m);
    lemma_shared_points(typ, xs, pfs, jr, points);
    law_wrong_proof_found(typ, sum_seqs(xs, n), sum_seqs(pfs, m), jr, points);
}

/// The proof system is sound on shares: if the circuit is not zero on what the input shares add
/// up to, the sum of the verifier shares is accepted for no more query points than the degree of
/// the gadget polynomial.
pub proof fn law_shared_proof_sound<T: Type>(
    typ: &T,
    xs: Seq<Seq<int>>,
    pfs: Seq<Seq<int>>,
    jr: Seq<int>,
    points: Set<int>,
)
    requires
        typ.wf(),
        jr.len() == typ.joint_rand_len_spec(),
        1 <= xs.len() <= 255,
        xs.len() == pfs.len(),
        uniform(xs, typ.input_len_spec()),
        uniform(pfs, proof_len_spec(typ)),
        ({
            let x = sum_seqs(xs, typ.input_len_spec());
            !cong(typ.circuit(x, gadget_outputs(typ, x, jr), jr, 1), 0, T::Field::modulus())
        }),
        points.finite(),
        accepts_shares(typ, xs, pfs, jr, points),
    ensures
        points.len() <= typ.gadget_spec().degree_spec() * (domain(typ) - 1),
{
    let (n, m) = (typ.input_len_spec(), proof_len_spec(typ));
    lemma_sum_seqs_len(xs, n);
    lemma_sum_seqs_len(pfs, m);
    lemma_shared_points(typ, xs, pfs, jr, points);
    law_proof_sound(typ, sum_seqs(xs, n), sum_seqs(pfs, m), jr, points);
}

/// The wire polynomials are interpolated at the powers of a root of unity. The number of these
/// points is a power of two, more than the number of gadget calls and less than twice as many as
/// are needed, and the order of the root.
pub proof fn law_domain<T: Type>(typ: &T)
    requires
        typ.wf(),
    ensures
        exists|l: nat| domain(typ) == #[trigger] pow2(l),
        typ.calls_spec() < domain(typ) < 2 * (typ.calls_spec() + 1),
        cong(pow(domain_root(typ), domain(typ)), 1, T::Field::modulus()),
        domain(typ) > 1 ==> cong(
            pow(domain_root(typ), (domain(typ) / 2) as nat),
            -1,
            T::Field::modulus(),
        ),
{
    lemma_domain(typ);
    typ.lemma_sizes();
    let l = domain_log(typ);
    let n = typ.calls_spec() + 1;
    lemma2_to64();
    lemma_log2_ceil(n);
    assert(domain(typ) == pow2(l));
    let p = T::Field::modulus();
    <T::Field as FieldElement>::lemma_field();
    if l > 0 {
        lemma_pow2_unfold(l);
        lemma_root_order::<T::Field>(l);
    } else {
        // The root is its own inverse.
        lemma_pow0(domain_root(typ));
        lemma_pow1(domain_root(typ));
        assert(domain(typ) == 1);
        assert(domain_root_inverse(typ) == 1);
        assert(domain_root(typ) * 1 == domain_root(typ));
    }
}

/// The polynomial `X^m - 1`.
spec fn unity_poly(m: nat) -> Seq<int> {
    lincomb(1, zeros(m).push(1), -1, seq![1int] + zeros(m))
}

proof fn lemma_zeros_eval(m: nat, x: int)
    ensures
        eval(zeros(m), x) == 0,
    decreases m,
{
    if m > 0 {
        lemma_zeros_eval((m - 1) as nat, x);
        assert(zeros(m).drop_first() =~= zeros((m - 1) as nat));
        assert(x * 0 == 0) by (nonlinear_arith);
    }
}

proof fn lemma_unity_poly(m: nat, x: int)
    ensures
        eval(unity_poly(m), x) == pow(x, m) - 1,
        unity_poly(m).len() == m + 1,
{
    let (a, b) = (zeros(m).push(1), seq![1int] + zeros(m));
    lemma_zeros_eval(m, x);
    lemma_eval_push(zeros(m), 1, x);
    assert(b.drop_first() =~= zeros(m));
    assert(x * 0 == 0) by (nonlinear_arith);
    assert(eval(b, x) == 1);
    lemma_eval_lincomb(1, a, -1, b, x);
}

/// A query point is refused exactly if it is a root of unity of the order of the domain. Of all
/// elements of the field no more are refused than there are points of interpolation, and the
/// points of interpolation are.
pub proof fn law_refused_points<T: Type>(typ: &T, points: Set<int>)
    requires
        typ.wf(),
        points.finite(),
        forall|t: int| #[trigger]
            points.contains(t) ==> 0 <= t < T::Field::modulus() && !query_point_ok(typ, t),
    ensures
        points.len() <= domain(typ),
        points.len() < 2 * (typ.calls_spec() + 1),
        forall|t: int| #[trigger]
            query_point_ok(typ, t) <==> !cong(pow(t, domain(typ)), 1, T::Field::modulus()),
        forall|k: nat| !query_point_ok(typ, #[trigger] pow(domain_root(typ), k)),
{
    let p = T::Field::modulus();
    <T::Field as FieldElement>::lemma_field();
    lemma_prime::<T::Field>();
    law_domain(typ);
    let m = domain(typ);
    let c = unity_poly(m);
    lemma_unity_poly(m, 0);
    assert(nonzero(c, p)) by {
        lemma_residue(1, p);
        lemma_residue(0, p);
        assert(c[m as int] == 1);
        assert(!cong(c[m as int], 0, p));
    }
    assert forall|t: int| #[trigger] points.contains(t) implies 0 <= t < p && cong(
        eval(c, t),
        0,
        p,
    ) by {
        lemma_unity_poly(m, t);
        lemma_cong_sub(pow(t, m), 1, 1, 1, p);
    }
    lemma_root_count(c, p, points);
    let w = domain_root(typ);
    assert forall|k: nat| !query_point_ok(typ, #[trigger] pow(w, k)) by {
        lemma_pow_multiplies(w, k, m);
        lemma_pow_multiplies(w, m, k);
        assert(k * m == m * k) by (nonlinear_arith);
        lemma_cong_pow(pow(w, m), 1, k, p);
        lemma_pow_one(k);
    }
}

/// The polynomial `f` has as many coefficients as there are points of interpolation; it has the
/// random value of the `a`-th wire at the first of them, the value of the wire in each gadget call
/// at the following ones, and vanishes at the others.
pub open spec fn interpolates<T: Type>(
    typ: &T,
    x: Seq<int>,
    seeds: Seq<int>,
    jr: Seq<int>,
    s: int,
    a: int,
    f: Seq<int>,
) -> bool {
    &&& f.len() == domain(typ)
    &&& cong(eval(f, 1), seeds[a], T::Field::modulus())
    &&& forall|k: int|
        1 <= k < domain(typ) ==> cong(
            eval(f, #[trigger] pow(domain_root(typ), k as nat)),
            if k <= typ.calls_spec() {
                typ.wire(x, jr, s, k - 1, a)
            } else {
                0
            },
            T::Field::modulus(),
        )
}

proof fn lemma_interpolates<T: Type>(
    typ: &T,
    x: Seq<int>,
    seeds: Seq<int>,
    jr: Seq<int>,
    s: int,
    a: int,
)
    requires
        typ.wf(),
    ensures
        interpolates(typ, x, seeds, jr, s, a, wire_poly(typ, x, seeds, jr, s, a)),
{
    typ.lemma_sizes();
    lemma_domain(typ);
    let p = T::Field::modulus();
    <T::Field as FieldElement>::lemma_field();
    lemma_half::<T::Field>();
    let l = domain_log(typ);
    let (w, winv, h) = (domain_root(typ), domain_root_inverse(typ), half_val::<T::Field>());
    let values = wire_values(typ, x, seeds, jr, s, a);
    lemma_interpolate_len(values, winv, h, l);
    lemma_interpolate(values, w, winv, h, l, 0, p);
    lemma_pow0(w);
    assert forall|k: int| 1 <= k < domain(typ) implies cong(
        eval(wire_poly(typ, x, seeds, jr, s, a), #[trigger] pow(w, k as nat)),
        if k <= typ.calls_spec() {
            typ.wire(x, jr, s, k - 1, a)
        } else {
            0
        },
        p,
    ) by {
        lemma_interpolate(values, w, winv, h, l, k, p);
    }
}

/// A verifier message consists of the output of the circuit on what the proof claims of the gadget
/// calls, the value of each wire polynomial at the query point, and that of the gadget polynomial
/// there.
pub proof fn law_query_values<T: Type>(
    typ: &T,
    x: Seq<int>,
    pf: Seq<int>,
    point: int,
    jr: Seq<int>,
    s: int,
)
    requires
        typ.wf(),
        x.len() == typ.input_len_spec(),
        pf.len() == proof_len_spec(typ),
        jr.len() == typ.joint_rand_len_spec(),
    ensures
        ({
            let ar = typ.gadget_spec().arity_spec() as int;
            let v = query_spec(typ, x, pf, point, jr, s);
            &&& v.len() == ar + 2
            &&& v[0] == typ.circuit(
                x,
                Seq::new(
                    typ.calls_spec(),
                    |k: int| eval(pf.skip(ar), pow(domain_root(typ), (k + 1) as nat)),
                ),
                jr,
                s,
            )
            &&& exists|fs: Seq<Seq<int>>|
                fs.len() == ar && forall|a: int|
                    0 <= a < ar ==> interpolates(
                        typ,
                        x,
                        pf.take(ar),
                        jr,
                        s,
                        a,
                        #[trigger] fs[a],
                    ) && v[1 + a] == eval(fs[a], point)
            &&& v[1 + ar] == eval(pf.skip(ar), point)
        }),
{
    typ.lemma_sizes();
    lemma_domain(typ);
    let ar = typ.gadget_spec().arity_spec() as int;
    let v = query_spec(typ, x, pf, point, jr, s);
    let seeds = pf.take(ar);
    let fs = wire_polys(typ, x, seeds, jr, s);
    assert(v.len() == ar + 2);
    assert forall|a: int| 0 <= a < ar implies interpolates(
        typ,
        x,
        pf.take(ar),
        jr,
        s,
        a,
        #[trigger] fs[a],
    ) && v[1 + a] == eval(fs[a], point) by {
        lemma_interpolates(typ, x, seeds, jr, s, a);
        assert(v[1 + a] == evals(fs, point)[a]);
    }
    assert(v[1 + ar] == eval(pf.skip(ar), point));
    assert(v[0] == typ.circuit(x, claimed_outputs(typ, pf.skip(ar)), jr, s));
    assert(claimed_outputs(typ, pf.skip(ar)) =~= Seq::new(
        typ.calls_spec(),
        |k: int| eval(pf.skip(ar), pow(domain_root(typ), (k + 1) as nat)),
    ));
}

/// A proof consists of the prover's randomness and of the polynomial that has, everywhere, the
/// value of the gadget on the wire polynomials.
pub proof fn law_prove_values<T: Type>(typ: &T, x: Seq<int>, prove_rand: Seq<int>, jr: Seq<int>)
    requires
        typ.wf(),
        x.len() == typ.input_len_spec(),
        prove_rand.len() == typ.gadget_spec().arity_spec(),
        jr.len() == typ.joint_rand_len_spec(),
    ensures
        ({
            let ar = typ.gadget_spec().arity_spec();
            let pf = prove_spec(typ, x, prove_rand, jr);
            &&& pf.len() == ar + typ.gadget_spec().degree_spec() * (domain(typ) - 1) + 1
            &&& pf.take(ar as int) == prove_rand
            &&& exists|fs: Seq<Seq<int>>|
                {
                    &&& fs.len() == ar
                    &&& forall|a: int|
                        0 <= a < ar ==> interpolates(
                            typ,
                            x,
                            prove_rand,
                            jr,
                            1,
                            a,
                            #[trigger] fs[a],
                        )
                    &&& forall|t: int| #[trigger]
                        eval(pf.skip(ar as int), t) == typ.gadget_spec().call_spec(
                            Seq::new(ar, |a: int| eval(fs[a], t)),
                        )
                }
        }),
{
    typ.lemma_sizes();
    lemma_domain(typ);
    let g = typ.gadget_spec();
    let ar = g.arity_spec();
    let pf = prove_spec(typ, x, prove_rand, jr);
    let fs = wire_polys(typ, x, prove_rand, jr, 1);
    lemma_honest_outputs(typ, x, prove_rand, jr);
    g.lemma_call_poly(fs, domain(typ), 0);
    assert(pf.take(ar as int) =~= prove_rand);
    assert(pf.skip(ar as int) =~= g.call_poly_spec(fs));
    assert forall|a: int| 0 <= a < ar implies interpolates(
        typ,
        x,
        prove_rand,
        jr,
        1,
        a,
        #[trigger] fs[a],
    ) by {
        lemma_interpolates(typ, x, prove_rand, jr, 1, a);
    }
    assert forall|t: int| #[trigger] eval(pf.skip(ar as int), t) == g.call_spec(
        Seq::new(ar, |a: int| eval(fs[a], t)),
    ) by {
        g.lemma_call_poly(fs, domain(typ), t);
        assert(evals(fs, t) =~= Seq::new(ar, |a: int| eval(fs[a], t)));
    }
}

/// A verifier message is accepted exactly if the circuit's output in it is zero and the gadget,
/// on the values of the wire polynomials, gives the value of the gadget polynomial.
pub proof fn law_decide_values<T: Type>(typ: &T, out: int, wires: Seq<int>, value: int)
    requires
        wires.len() == typ.gadget_spec().arity_spec(),
    ensures
        decide_spec(typ, seq![out] + wires + seq![value]) <==> cong(out, 0, T::Field::modulus())
            && cong(typ.gadget_spec().call_spec(wires), value, T::Field::modulus()),
{
    let v = seq![out] + wires + seq![value];
    let ar = wires.len() as int;
    assert(v.subrange(1, 1 + ar) =~= wires);
    assert(v[0] == out && v[1 + ar] == value);
}

} // verus!

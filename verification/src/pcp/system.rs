//! The proof system: making proofs, querying shares of them and deciding.
use vstd::prelude::*;

verus! {

use vstd::arithmetic::power::{lemma_pow0, pow};
use vstd::arithmetic::power2::{lemma2_to64, lemma_pow2_pos, lemma_pow2_unfold, pow2};
use crate::arith::{
    cong, lemma_cong_mod, lemma_cong_mul, lemma_cong_pow, lemma_pow_square, lemma_pow_step,
    lemma_residue, reduced, seq_cong,
};
use crate::field::{half, half_val, inverse, share_of_one, vals, FieldElement};
use crate::poly::{
    eval, interpolate, interpolation, lemma_eval_cong, lemma_interpolate_cong,
    lemma_interpolate_len, lemma_vals_cong, lemma_vals_reduced, poly_eval,
};
use crate::pcp::gadgets::{all_len, evals, polys_cong, vals2, Gadget};
use crate::pcp::{
    claimed_outputs, decide_spec, domain, domain_log, domain_root, domain_root_inverse,
    lemma_log2_ceil, lemma_log2_ceil_unique, log2_ceil, proof_len_spec, prove_rand_len_spec,
    prove_spec, query_point_ok, query_spec, verifier_len_spec, wire_poly, wire_polys, wire_values,
    PcpError, Type,
};

/// `x` to the power of `n`.
fn power<F: FieldElement>(x: &F, n: usize) -> (r: F)
    ensures
        r.val() == pow(x.val(), n as nat) % F::modulus(),
    decreases n,
{
    let ghost p = F::modulus();
    proof {
        F::lemma_field();
        lemma_pow0(x.val());
        lemma_residue(1, p);
    }
    if n == 0 {
        return F::one();
    }
    let square = x.mul(x);
    let root = power(&square, n / 2);
    proof {
        let k = (n / 2) as nat;
        lemma_cong_mod(x.val() * x.val(), p);
        lemma_cong_pow(square.val(), x.val() * x.val(), k, p);
        lemma_pow_square(x.val(), k);
        lemma_cong_mod(pow(square.val(), k), p);
        assert(cong(root.val(), pow(x.val(), 2 * k), p));
    }
    if n % 2 == 0 {
        proof {
            root.lemma_val();
            lemma_residue(root.val(), p);
        }
        root
    } else {
        let r = x.mul(&root);
        proof {
            let k = (n / 2) as nat;
            lemma_pow_step(x.val(), 2 * k);
            lemma_cong_mul(x.val(), x.val(), root.val(), pow(x.val(), 2 * k), p);
        }
        r
    }
}

/// The number of points that a wire polynomial is interpolated at, and its binary logarithm.
fn domain_size<T: Type>(typ: &T) -> (r: (usize, usize))
    requires
        typ.wf(),
    ensures
        r.0 == domain(typ),
        r.1 == domain_log(typ),
        1 <= r.0,
        typ.calls_spec() < r.0,
{
    let calls: usize = typ.calls();
    let ghost n = typ.calls_spec() + 1;
    let mut m: usize = 1;
    let mut l: usize = 0;
    proof {
        typ.lemma_sizes();
        lemma2_to64();
        lemma_log2_ceil(n);
        assert(typ.gadget_spec().degree_spec() * (pow2(log2_ceil(n)) - 1) >= 0) by (nonlinear_arith)
            requires
                pow2(log2_ceil(n)) >= 1,
                typ.gadget_spec().degree_spec() >= 0,
        {
            lemma_pow2_pos(log2_ceil(n));
        }
    }
    while m <= calls
        invariant
            m == pow2(l as nat),
            m >= 1,
            n == calls + 1,
            l > 0 ==> pow2((l - 1) as nat) < n,
            n <= pow2(log2_ceil(n)),
            2 * pow2(log2_ceil(n)) <= usize::MAX,
            l <= usize::MAX - 1,
            l <= m,
        decreases 2 * n - m,
    {
        proof {
            lemma_pow2_unfold((l + 1) as nat);
        }
        m = m * 2;
        l += 1;
    }
    proof {
        lemma_log2_ceil_unique(n, l as nat);
    }
    (m, l)
}

/// The length of a proof.
pub fn proof_len<T: Type>(typ: &T) -> (r: usize)
    requires
        typ.wf(),
    ensures
        r == proof_len_spec(typ),
{
    let (m, _l) = domain_size(typ);
    proof {
        typ.lemma_sizes();
        let d = typ.gadget_spec().degree_spec();
        assert(d * (m - 1) >= 0) by (nonlinear_arith)
            requires
                m >= 1,
                d >= 0,
        ;
    }
    let g = typ.gadget();
    g.arity() + g.degree() * (m - 1) + 1
}

/// The length of a verifier message.
pub fn verifier_len<T: Type>(typ: &T) -> (r: usize)
    requires
        typ.wf(),
    ensures
        r == verifier_len_spec(typ),
{
    let (m, _l) = domain_size(typ);
    proof {
        typ.lemma_sizes();
        let d = typ.gadget_spec().degree_spec();
        assert(d * (m - 1) >= 0) by (nonlinear_arith)
            requires
                m >= 1,
                d >= 0,
        ;
    }
    typ.gadget().arity() + 2
}

/// The number of random elements that the prover uses.
pub fn prove_rand_len<T: Type>(typ: &T) -> (r: usize)
    requires
        typ.wf(),
    ensures
        r == prove_rand_len_spec(typ),
{
    proof {
        typ.lemma_sizes();
    }
    typ.gadget().arity()
}

/// The number of random elements that a query uses.
pub fn query_rand_len<T: Type>(_typ: &T) -> (r: usize)
    ensures
        r == 1,
{
    1
}

/// The polynomials of all wires.
fn wire_polynomials<T: Type>(
    typ: &T,
    input: &[T::Field],
    seeds: &[T::Field],
    joint_rand: &[T::Field],
    share: &T::Field,
    m: usize,
    l: usize,
) -> (r: Vec<Vec<T::Field>>)
    requires
        typ.wf(),
        input@.len() == typ.input_len_spec(),
        seeds@.len() == typ.gadget_spec().arity_spec(),
        joint_rand@.len() == typ.joint_rand_len_spec(),
        m == domain(typ),
        l == domain_log(typ),
        1 <= m,
        typ.calls_spec() < m,
    ensures
        r@.len() == typ.gadget_spec().arity_spec(),
        all_len(vals2(r@), m as nat),
        polys_cong(
            vals2(r@),
            wire_polys(typ, vals(input@), vals(seeds@), vals(joint_rand@), share.val()),
            T::Field::modulus(),
        ),
        forall|a: int|
            0 <= a < r@.len() ==> #[trigger] vals(r@[a]@) == reduced(
                wire_poly(typ, vals(input@), vals(seeds@), vals(joint_rand@), share.val(), a),
                T::Field::modulus(),
            ),
{
    let ghost p = T::Field::modulus();
    let ghost (x, sd, jr) = (vals(input@), vals(seeds@), vals(joint_rand@));
    let ghost ar = typ.gadget_spec().arity_spec();
    proof {
        typ.lemma_sizes();
        <T::Field as FieldElement>::lemma_field();
    }
    let w = <T::Field as FieldElement>::root(l);
    let winv = power(&w, m - 1);
    let h: T::Field = half();
    proof {
        lemma_cong_mod(domain_root_inverse(typ), p);
    }
    let columns = typ.wires(input, joint_rand, share);
    let arity: usize = typ.gadget().arity();
    let calls: usize = typ.calls();
    let mut out: Vec<Vec<T::Field>> = Vec::new();
    let mut a: usize = 0;
    while a < arity
        invariant
            a <= arity,
            arity == ar,
            ar == typ.gadget_spec().arity_spec(),
            calls == typ.calls_spec(),
            calls < m,
            m == domain(typ),
            p == T::Field::modulus(),
            p > 0,
            x == vals(input@),
            sd == vals(seeds@),
            jr == vals(joint_rand@),
            seeds@.len() == ar,
            cong(winv.val(), domain_root_inverse(typ), p),
            h.val() == half_val::<T::Field>(),
            columns@.len() == ar,
            forall|b: int| 0 <= b < ar ==> (#[trigger] columns@[b])@.len() == calls,
            forall|b: int, k: int|
                0 <= b < ar && 0 <= k < calls ==> #[trigger] cong(
                    columns@[b]@[k].val(),
                    typ.wire(x, jr, share.val(), k, b),
                    p,
                ),
            out@.len() == a,
            forall|b: int| 0 <= b < a ==> (#[trigger] out@[b])@.len() == m,
            forall|b: int|
                0 <= b < a ==> #[trigger] vals(out@[b]@) == reduced(
                    wire_poly(typ, x, sd, jr, share.val(), b),
                    p,
                ),
        decreases arity - a,
    {
        let ghost want = wire_values(typ, x, sd, jr, share.val(), a as int);
        let column = &columns[a];
        let mut v: Vec<T::Field> = Vec::new();
        v.push(seeds[a]);
        let mut i: usize = 1;
        while i < m
            invariant
                1 <= i <= m,
                v@.len() == i,
                m == domain(typ),
                calls == typ.calls_spec(),
                calls < m,
                a < ar,
                p == T::Field::modulus(),
                p > 0,
                column@.len() == calls,
                want == wire_values(typ, x, sd, jr, share.val(), a as int),
                forall|k: int|
                    0 <= k < calls ==> #[trigger] cong(
                        column@[k].val(),
                        typ.wire(x, jr, share.val(), k, a as int),
                        p,
                    ),
                forall|k: int| 0 <= k < i ==> #[trigger] cong(v@[k].val(), want[k], p),
            decreases m - i,
        {
            let e = if i <= calls {
                proof {
                    assert(cong(
                        column@[i - 1].val(),
                        typ.wire(x, jr, share.val(), i - 1, a as int),
                        p,
                    ));
                }
                column[i - 1]
            } else {
                T::Field::zero()
            };
            assert(cong(e.val(), want[i as int], p));
            v.push(e);
            i += 1;
        }
        assert(v@.len() == pow2(domain_log(typ)));
        let f = interpolation(v.as_slice(), &winv, &h);
        proof {
            let full = wire_poly(typ, x, sd, jr, share.val(), a as int);
            assert forall|k: int| 0 <= k < m implies #[trigger] cong(
                vals(v@)[k],
                want[k],
                p,
            ) by {
                assert(cong(v@[k].val(), want[k], p));
            }
            let dl = domain_log(typ);
            lemma_interpolate_cong(
                vals(v@),
                want,
                winv.val(),
                domain_root_inverse(typ),
                h.val(),
                dl,
                p,
            );
            lemma_interpolate_len(want, domain_root_inverse(typ), h.val(), dl);
            let got = interpolate(vals(v@), winv.val(), h.val());
            lemma_vals_cong(f@, got);
            assert forall|k: int| 0 <= k < full.len() implies #[trigger] cong(
                f@[k].val(),
                full[k],
                p,
            ) by {
                assert(cong(vals(f@)[k], got[k], p));
                assert(cong(got[k], full[k], p));
            }
            lemma_vals_reduced(f@, full);
        }
        out.push(f);
        a += 1;
    }
    proof {
        let spec = wire_polys(typ, x, sd, jr, share.val());
        assert forall|b: int| 0 <= b < ar implies seq_cong(
            #[trigger] vals2(out@)[b],
            spec[b],
            p,
        ) by {
            assert(vals(out@[b]@) == reduced(wire_poly(typ, x, sd, jr, share.val(), b), p));
            lemma_vals_cong(out@[b]@, wire_poly(typ, x, sd, jr, share.val(), b));
        }
        assert forall|b: int| 0 <= b < ar implies (#[trigger] vals2(out@)[b]).len() == m by {
            assert(out@[b]@.len() == m);
        }
    }
    out
}

/// Makes a proof that `input` is valid.
pub fn prove<T: Type>(
    typ: &T,
    input: &[T::Field],
    prove_rand: &[T::Field],
    joint_rand: &[T::Field],
) -> (r: Result<Vec<T::Field>, PcpError>)
    requires
        typ.wf(),
    ensures
        (input@.len() == typ.input_len_spec() && prove_rand@.len() == prove_rand_len_spec(typ)
            && joint_rand@.len() == typ.joint_rand_len_spec()) ==> (r matches Ok(v) && vals(v@)
            == reduced(
            prove_spec(typ, vals(input@), vals(prove_rand@), vals(joint_rand@)),
            T::Field::modulus(),
        ) && v@.len() == proof_len_spec(typ)),
        !(input@.len() == typ.input_len_spec() && prove_rand@.len() == prove_rand_len_spec(typ)
            && joint_rand@.len() == typ.joint_rand_len_spec()) ==> r == Err::<
            Vec<T::Field>,
            PcpError,
        >(PcpError::Prove),
{
    proof {
        typ.lemma_sizes();
    }
    if input.len() != typ.input_len() || prove_rand.len() != prove_rand_len(typ)
        || joint_rand.len() != typ.joint_rand_len() {
        return Err(PcpError::Prove);
    }
    let ghost p = T::Field::modulus();
    let ghost (x, pr, jr) = (vals(input@), vals(prove_rand@), vals(joint_rand@));
    let (m, l) = domain_size(typ);
    let one = T::Field::one();
    let polys = wire_polynomials(typ, input, prove_rand, joint_rand, &one, m, l);
    let gadget = typ.gadget();
    let gadget_poly = gadget.call_poly(polys.as_slice(), m);
    let mut out = vstd::slice::slice_to_vec(prove_rand);
    let mut i: usize = 0;
    while i < gadget_poly.len()
        invariant
            i <= gadget_poly@.len(),
            out@ == prove_rand@ + gadget_poly@.take(i as int),
        decreases gadget_poly@.len() - i,
    {
        out.push(gadget_poly[i]);
        assert(gadget_poly@.take(i + 1) =~= gadget_poly@.take(i as int).push(
            gadget_poly@[i as int],
        ));
        i += 1;
        assert(out@ =~= prove_rand@ + gadget_poly@.take(i as int));
    }
    proof {
        <T::Field as FieldElement>::lemma_field();
        let ar = prove_rand@.len();
        assert(gadget_poly@.take(i as int) =~= gadget_poly@);
        let spec = wire_polys(typ, x, pr, jr, 1);
        gadget.lemma_call_poly_cong(vals2(polys@), spec, m as nat, p);
        let got = gadget.call_poly_spec(vals2(polys@));
        let want = gadget.call_poly_spec(spec);
        lemma_vals_cong(gadget_poly@, got);
        let full = prove_spec(typ, x, pr, jr);
        assert forall|k: int| 0 <= k < full.len() implies #[trigger] cong(
            out@[k].val(),
            full[k],
            p,
        ) by {
            if k >= ar {
                assert(cong(vals(gadget_poly@)[k - ar], got[k - ar], p));
                assert(cong(got[k - ar], want[k - ar], p));
            }
        }
        lemma_vals_reduced(out@, full);
    }
    Ok(out)
}

/// The share of the verifier message that belongs to a share of the input and of the proof.
pub fn query<T: Type>(
    typ: &T,
    input: &[T::Field],
    proof_share: &[T::Field],
    query_rand: &[T::Field],
    joint_rand: &[T::Field],
    num_shares: u8,
) -> (r: Result<Vec<T::Field>, PcpError>)
    requires
        typ.wf(),
        num_shares >= 1,
    ensures
        ({
            let fits = input@.len() == typ.input_len_spec() && proof_share@.len() == proof_len_spec(
                typ,
            ) && query_rand@.len() == 1 && joint_rand@.len() == typ.joint_rand_len_spec();
            let p = T::Field::modulus();
            if !fits {
                r == Err::<Vec<T::Field>, PcpError>(PcpError::Query)
            } else if !query_point_ok(typ, query_rand@[0].val()) {
                r == Err::<Vec<T::Field>, PcpError>(PcpError::QueryRandomness)
            } else {
                r matches Ok(v) && vals(v@) == reduced(
                    query_spec(
                        typ,
                        vals(input@),
                        vals(proof_share@),
                        query_rand@[0].val(),
                        vals(joint_rand@),
                        inverse(num_shares as int, p) % p,
                    ),
                    p,
                )
            }
        }),
{
    proof {
        typ.lemma_sizes();
    }
    if input.len() != typ.input_len() || proof_share.len() != proof_len(typ) || query_rand.len()
        != query_rand_len(typ) || joint_rand.len() != typ.joint_rand_len() {
        return Err(PcpError::Query);
    }
    let ghost p = T::Field::modulus();
    let ghost (x, pf, jr) = (vals(input@), vals(proof_share@), vals(joint_rand@));
    proof {
        <T::Field as FieldElement>::lemma_field();
    }
    let (m, l) = domain_size(typ);
    let point = query_rand[0];
    let trace = power(&point, m);
    if trace.to_u128() == 1 {
        proof {
            lemma_residue(1, p);
        }
        return Err(PcpError::QueryRandomness);
    }
    proof {
        lemma_residue(1, p);
    }
    let share: T::Field = share_of_one(num_shares);
    let gadget = typ.gadget();
    let arity: usize = gadget.arity();
    proof {
        let d = gadget.degree_spec();
        assert(d * (m - 1) >= 0) by (nonlinear_arith)
            requires
                m >= 1,
                d >= 0,
        ;
    }
    let seeds = vstd::slice::slice_subrange(proof_share, 0, arity);
    let gadget_poly = vstd::slice::slice_subrange(proof_share, arity, proof_share.len());
    let ghost gp = pf.skip(arity as int);
    let ghost sd = pf.take(arity as int);
    assert(vals(gadget_poly@) =~= gp);
    assert(vals(seeds@) =~= sd);
    // The gadget outputs that the proof claims.
    let calls: usize = typ.calls();
    let w = <T::Field as FieldElement>::root(l);
    let mut at = w;
    let mut outputs: Vec<T::Field> = Vec::new();
    let mut k: usize = 0;
    let ghost claimed = claimed_outputs(typ, gp);
    proof {
        lemma_pow_step(w.val(), 0);
    }
    while k < calls
        invariant
            k <= calls,
            calls == typ.calls_spec(),
            p == T::Field::modulus(),
            p > 0,
            w.val() == domain_root(typ),
            vals(gadget_poly@) == gp,
            claimed == claimed_outputs(typ, gp),
            cong(at.val(), pow(w.val(), (k + 1) as nat), p),
            outputs@.len() == k,
            forall|i: int| 0 <= i < k ==> #[trigger] cong(outputs@[i].val(), claimed[i], p),
        decreases calls - k,
    {
        let e = poly_eval(gadget_poly, &at);
        proof {
            let q = pow(w.val(), (k + 1) as nat);
            assert forall|i: int| 0 <= i < gp.len() implies #[trigger] cong(gp[i], gp[i], p) by {}
            lemma_eval_cong(gp, gp, at.val(), q, p);
            lemma_cong_mod(eval(gp, at.val()), p);
            assert(cong(e.val(), claimed[k as int], p));
            lemma_pow_step(w.val(), (k + 1) as nat);
            lemma_cong_mul(w.val(), w.val(), at.val(), q, p);
            lemma_cong_mod(w.val() * at.val(), p);
        }
        outputs.push(e);
        at = w.mul(&at);
        k += 1;
    }
    let v = typ.output(input, outputs.as_slice(), joint_rand, &share);
    let polys = wire_polynomials(typ, input, seeds, joint_rand, &share, m, l);
    let mut out: Vec<T::Field> = Vec::new();
    out.push(v);
    let ghost wp = wire_polys(typ, x, sd, jr, share.val());
    let mut a: usize = 0;
    while a < arity
        invariant
            a <= arity,
            arity == typ.gadget_spec().arity_spec(),
            p == T::Field::modulus(),
            p > 0,
            wp == wire_polys(typ, x, sd, jr, share.val()),
            polys@.len() == arity,
            polys_cong(vals2(polys@), wp, p),
            out@.len() == a + 1,
            out@[0] == v,
            forall|i: int|
                0 <= i < a ==> #[trigger] cong(out@[i + 1].val(), evals(wp, point.val())[i], p),
        decreases arity - a,
    {
        let e = poly_eval(polys[a].as_slice(), &point);
        proof {
            assert(seq_cong(vals2(polys@)[a as int], wp[a as int], p));
            lemma_eval_cong(vals2(polys@)[a as int], wp[a as int], point.val(), point.val(), p);
            lemma_cong_mod(eval(vals(polys@[a as int]@), point.val()), p);
            assert(cong(e.val(), evals(wp, point.val())[a as int], p));
        }
        let ghost before = out@;
        out.push(e);
        proof {
            assert forall|i: int| 0 <= i < a + 1 implies #[trigger] cong(
                out@[i + 1].val(),
                evals(wp, point.val())[i],
                p,
            ) by {
                if i < a {
                    assert(cong(before[i + 1].val(), evals(wp, point.val())[i], p));
                }
            }
        }
        a += 1;
    }
    let last = poly_eval(gadget_poly, &point);
    out.push(last);
    proof {
        // The circuit output depends on the residues of the gadget outputs alone.
        let s = share.val();
        assert(seq_cong(vals(outputs@), claimed, p)) by {
            assert forall|i: int| 0 <= i < calls implies #[trigger] cong(
                vals(outputs@)[i],
                claimed[i],
                p,
            ) by {
                assert(cong(outputs@[i].val(), claimed[i], p));
            }
        }
        crate::pcp::laws::lemma_circuit_cong(typ, x, x, vals(outputs@), claimed, s, s, jr);
        lemma_cong_mod(typ.circuit(x, vals(outputs@), jr, s), p);
        lemma_cong_mod(eval(gp, point.val()), p);
        let full = query_spec(typ, x, pf, point.val(), jr, s);
        assert(full.len() == arity + 2);
        assert forall|i: int| 0 <= i < full.len() implies #[trigger] cong(
            out@[i].val(),
            full[i],
            p,
        ) by {
            if i == 0 {
            } else if i <= arity {
                assert(cong(out@[(i - 1) + 1].val(), evals(wp, point.val())[i - 1], p));
            } else {
                assert(out@[i] == last);
            }
        }
        lemma_vals_reduced(out@, full);
    }
    Ok(out)
}

/// Tells from a verifier message whether the input was valid.
pub fn decide<T: Type>(typ: &T, verifier: &[T::Field]) -> (r: Result<bool, PcpError>)
    requires
        typ.wf(),
    ensures
        verifier@.len() == verifier_len_spec(typ) ==> r == Ok::<bool, PcpError>(
            decide_spec(typ, vals(verifier@)),
        ),
        verifier@.len() != verifier_len_spec(typ) ==> r == Err::<bool, PcpError>(
            PcpError::Decide,
        ),
{
    proof {
        typ.lemma_sizes();
        <T::Field as FieldElement>::lemma_field();
    }
    if verifier.len() != verifier_len(typ) {
        return Err(PcpError::Decide);
    }
    let ghost p = T::Field::modulus();
    let gadget = typ.gadget();
    let arity: usize = gadget.arity();
    let inputs = vstd::slice::slice_subrange(verifier, 1, 1 + arity);
    let e = gadget.call(inputs);
    proof {
        assert(vals(inputs@) =~= vals(verifier@).subrange(1, 1 + arity));
        verifier@[0].lemma_val();
        lemma_residue(verifier@[0].val(), p);
        lemma_residue(0, p);
        verifier@[1 + arity].lemma_val();
        lemma_residue(verifier@[1 + arity].val(), p);
    }
    let (u, z) = (e.to_u128(), verifier[1 + arity].to_u128());
    Ok(verifier[0].to_u128() == 0 && u == z)
}

} // verus!

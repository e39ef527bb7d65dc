//! Polynomials over a prime field.
//!
//! A polynomial is the sequence of its coefficients, lowest degree first. The specifications
//! compute over `int`; the executable functions return the residues of what they say.
use vstd::prelude::*;

verus! {

use vstd::arithmetic::power::pow;
use crate::arith::{
    cong, lemma_cong_add, lemma_cong_mod, lemma_cong_mul, lemma_cong_pow, lemma_cong_sub,
    lemma_pow_mul, lemma_pow_square, lemma_pow_step, lemma_reduced_cong, lemma_residue, lincomb,
    reduced, seq_cong, total,
};
use vstd::arithmetic::power::lemma_pow_adds;
use vstd::arithmetic::power2::{lemma2_to64, lemma_pow2_pos, lemma_pow2_unfold, pow2};
use crate::field::{vals, FieldElement};

/// The value of the polynomial `c` at `x`.
pub open spec fn eval(c: Seq<int>, x: int) -> int
    decreases c.len(),
{
    if c.len() == 0 {
        0
    } else {
        c[0] + x * eval(c.drop_first(), x)
    }
}

/// The polynomial `a * x^0 + x * r`, padded with the coefficients of `a0 * d`.
pub open spec fn mul_step(a0: int, d: Seq<int>, r: Seq<int>) -> Seq<int> {
    Seq::new(
        r.len() + 1,
        |i: int|
            (if i < d.len() {
                a0 * d[i]
            } else {
                0
            }) + (if i > 0 {
                r[i - 1]
            } else {
                0
            }),
    )
}

/// The product of two polynomials.
pub open spec fn poly_mul(c: Seq<int>, d: Seq<int>) -> Seq<int>
    decreases c.len(),
{
    if c.len() == 0 || d.len() == 0 {
        Seq::empty()
    } else if c.len() == 1 {
        Seq::new(d.len(), |i: int| c[0] * d[i])
    } else {
        mul_step(c[0], d, poly_mul(c.drop_first(), d))
    }
}

/// The polynomial `e(x^2) + x * o(x^2)`.
pub open spec fn interleave(e: Seq<int>, o: Seq<int>) -> Seq<int> {
    Seq::new(
        (2 * e.len()) as nat,
        |i: int|
            if i % 2 == 0 {
                e[i / 2]
            } else {
                o[i / 2]
            },
    )
}

/// The even half of an interpolation: the values of `e` at the even powers.
pub open spec fn fold_even(v: Seq<int>, half: int) -> Seq<int> {
    Seq::new(v.len() / 2, |i: int| (v[i] + v[i + v.len() / 2]) * half)
}

/// The odd half of an interpolation: the values of `o` at the even powers.
pub open spec fn fold_odd(v: Seq<int>, winv: int, half: int) -> Seq<int> {
    Seq::new(v.len() / 2, |i: int| (v[i] - v[i + v.len() / 2]) * half * pow(winv, i as nat))
}

/// The coefficients of the polynomial that has the value `v[i]` at `w^i`, where `winv` is the
/// inverse of `w`, a principal root of unity of order `v.len()`, and `half` is the inverse of
/// two (see `lemma_interpolate`).
pub open spec fn interpolate(v: Seq<int>, winv: int, half: int) -> Seq<int>
    decreases v.len(),
{
    if v.len() <= 1 {
        v
    } else {
        interleave(
            interpolate(fold_even(v, half), winv * winv, half),
            interpolate(fold_odd(v, winv, half), winv * winv, half),
        )
    }
}

pub proof fn lemma_eval_lincomb(a: int, c: Seq<int>, b: int, d: Seq<int>, x: int)
    requires
        c.len() == d.len(),
    ensures
        eval(lincomb(a, c, b, d), x) == a * eval(c, x) + b * eval(d, x),
    decreases c.len(),
{
    if c.len() > 0 {
        let (c1, d1) = (c.drop_first(), d.drop_first());
        lemma_eval_lincomb(a, c1, b, d1, x);
        assert(lincomb(a, c, b, d).drop_first() =~= lincomb(a, c1, b, d1));
        let (ec, ed) = (eval(c1, x), eval(d1, x));
        assert(x * (a * ec + b * ed) == a * (x * ec) + b * (x * ed)) by (nonlinear_arith);
        let (xc, xd) = (x * ec, x * ed);
        assert(a * (c[0] + xc) == a * c[0] + a * xc) by (nonlinear_arith);
        assert(b * (d[0] + xd) == b * d[0] + b * xd) by (nonlinear_arith);
    }
}

/// A further coefficient adds its multiple of the next power.
pub proof fn lemma_eval_push(c: Seq<int>, a: int, x: int)
    ensures
        eval(c.push(a), x) == eval(c, x) + a * pow(x, c.len()),
    decreases c.len(),
{
    lemma_pow_step(x, 0);
    let d = c.push(a);
    if c.len() == 0 {
        assert(d.drop_first() =~= Seq::<int>::empty());
        assert(eval(d.drop_first(), x) == 0);
        assert(x * 0 == 0 && a * 1 == a) by (nonlinear_arith);
    } else {
        let c1 = c.drop_first();
        lemma_eval_push(c1, a, x);
        assert(d.drop_first() =~= c1.push(a));
        lemma_pow_step(x, c1.len());
        let (e, q) = (eval(c1, x), pow(x, c1.len()));
        assert(x * (e + a * q) == x * e + a * (x * q)) by (nonlinear_arith);
    }
}

pub proof fn lemma_eval_cong(c: Seq<int>, d: Seq<int>, x: int, y: int, p: int)
    requires
        p > 0,
        seq_cong(c, d, p),
        cong(x, y, p),
    ensures
        cong(eval(c, x), eval(d, y), p),
    decreases c.len(),
{
    if c.len() > 0 {
        let (c1, d1) = (c.drop_first(), d.drop_first());
        assert forall|i: int| 0 <= i < c1.len() implies #[trigger] cong(c1[i], d1[i], p) by {
            assert(cong(c[i + 1], d[i + 1], p));
        }
        lemma_eval_cong(c1, d1, x, y, p);
        lemma_cong_mul(x, y, eval(c1, x), eval(d1, y), p);
        assert(cong(c[0], d[0], p));
        lemma_cong_add(c[0], d[0], x * eval(c1, x), y * eval(d1, y), p);
    }
}

/// Scaling and padding with zeros: the value is scaled.
proof fn lemma_eval_padded(a: int, d: Seq<int>, n: nat, x: int)
    requires
        d.len() <= n,
    ensures
        eval(
            Seq::new(
                n,
                |i: int|
                    if i < d.len() {
                        a * d[i]
                    } else {
                        0
                    },
            ),
            x,
        ) == a * eval(d, x),
    decreases n,
{
    let s = Seq::new(
        n,
        |i: int|
            if i < d.len() {
                a * d[i]
            } else {
                0
            },
    );
    if n == 0 {
    } else if d.len() == 0 {
        lemma_eval_padded(a, d, (n - 1) as nat, x);
        assert(s.drop_first() =~= Seq::new(
            (n - 1) as nat,
            |i: int|
                if i < d.len() {
                    a * d[i]
                } else {
                    0
                },
        ));
        assert(x * (a * 0) == 0) by (nonlinear_arith);
    } else {
        let d1 = d.drop_first();
        lemma_eval_padded(a, d1, (n - 1) as nat, x);
        assert(s.drop_first() =~= Seq::new(
            (n - 1) as nat,
            |i: int|
                if i < d1.len() {
                    a * d1[i]
                } else {
                    0
                },
        ));
        let e = eval(d1, x);
        assert(a * d[0] + x * (a * e) == a * (d[0] + x * e)) by (nonlinear_arith);
    }
}

pub proof fn lemma_eval_mul(c: Seq<int>, d: Seq<int>, x: int)
    requires
        c.len() > 0,
        d.len() > 0,
    ensures
        poly_mul(c, d).len() == c.len() + d.len() - 1,
        eval(poly_mul(c, d), x) == eval(c, x) * eval(d, x),
    decreases c.len(),
{
    if c.len() == 1 {
        lemma_eval_padded(c[0], d, d.len(), x);
        assert(poly_mul(c, d) =~= Seq::new(
            d.len(),
            |i: int|
                if i < d.len() {
                    c[0] * d[i]
                } else {
                    0
                },
        ));
        assert(eval(c.drop_first(), x) == 0);
        assert((c[0] + x * 0) * eval(d, x) == c[0] * eval(d, x)) by (nonlinear_arith);
    } else {
        let c1 = c.drop_first();
        let r = poly_mul(c1, d);
        lemma_eval_mul(c1, d, x);
        let n = r.len() + 1;
        let low = Seq::new(
            n,
            |i: int|
                if i < d.len() {
                    c[0] * d[i]
                } else {
                    0
                },
        );
        let high = seq![0int] + r;
        lemma_eval_padded(c[0], d, n, x);
        assert(high.drop_first() =~= r);
        lemma_eval_lincomb(1, low, 1, high, x);
        assert(poly_mul(c, d) =~= lincomb(1, low, 1, high));
        let (ec, ed) = (eval(c1, x), eval(d, x));
        assert(c[0] * ed + x * (ec * ed) == (c[0] + x * ec) * ed) by (nonlinear_arith);
    }
}

pub proof fn lemma_poly_mul_len(c: Seq<int>, d: Seq<int>)
    requires
        c.len() > 0,
        d.len() > 0,
    ensures
        poly_mul(c, d).len() == c.len() + d.len() - 1,
{
    lemma_eval_mul(c, d, 0);
}

pub proof fn lemma_poly_mul_cong(c: Seq<int>, c2: Seq<int>, d: Seq<int>, d2: Seq<int>, p: int)
    requires
        p > 0,
        seq_cong(c, c2, p),
        seq_cong(d, d2, p),
    ensures
        seq_cong(poly_mul(c, d), poly_mul(c2, d2), p),
    decreases c.len(),
{
    if c.len() == 0 || d.len() == 0 {
    } else if c.len() == 1 {
        assert(cong(c[0], c2[0], p));
        assert forall|i: int| 0 <= i < d.len() implies #[trigger] cong(
            poly_mul(c, d)[i],
            poly_mul(c2, d2)[i],
            p,
        ) by {
            assert(cong(d[i], d2[i], p));
            lemma_cong_mul(c[0], c2[0], d[i], d2[i], p);
        }
    } else {
        let (c1, c3) = (c.drop_first(), c2.drop_first());
        assert forall|i: int| 0 <= i < c1.len() implies #[trigger] cong(c1[i], c3[i], p) by {
            assert(cong(c[i + 1], c2[i + 1], p));
        }
        assert(cong(c[0], c2[0], p));
        lemma_poly_mul_cong(c1, c3, d, d2, p);
        let (r, r2) = (poly_mul(c1, d), poly_mul(c3, d2));
        lemma_mul_step_cong(c[0], c2[0], d, d2, r, r2, p);
    }
}

proof fn lemma_mul_step_cong(
    a: int,
    a2: int,
    d: Seq<int>,
    d2: Seq<int>,
    r: Seq<int>,
    r2: Seq<int>,
    p: int,
)
    requires
        p > 0,
        cong(a, a2, p),
        seq_cong(d, d2, p),
        seq_cong(r, r2, p),
    ensures
        seq_cong(mul_step(a, d, r), mul_step(a2, d2, r2), p),
{
    assert forall|i: int| 0 <= i < r.len() + 1 implies #[trigger] cong(
        mul_step(a, d, r)[i],
        mul_step(a2, d2, r2)[i],
        p,
    ) by {
        let (x, x2) = if i < d.len() {
            (a * d[i], a2 * d2[i])
        } else {
            (0, 0)
        };
        let (y, y2) = if i > 0 {
            (r[i - 1], r2[i - 1])
        } else {
            (0, 0)
        };
        if i < d.len() {
            assert(cong(d[i], d2[i], p));
            lemma_cong_mul(a, a2, d[i], d2[i], p);
        }
        if i > 0 {
            assert(cong(r[i - 1], r2[i - 1], p));
        }
        lemma_cong_add(x, x2, y, y2, p);
    }
}

pub proof fn lemma_eval_interleave(e: Seq<int>, o: Seq<int>, x: int)
    requires
        e.len() == o.len(),
    ensures
        eval(interleave(e, o), x) == eval(e, x * x) + x * eval(o, x * x),
    decreases e.len(),
{
    let c = interleave(e, o);
    if e.len() == 0 {
        assert(x * 0 == 0) by (nonlinear_arith);
    } else {
        let (e1, o1) = (e.drop_first(), o.drop_first());
        lemma_eval_interleave(e1, o1, x);
        assert(c.drop_first().drop_first() =~= interleave(e1, o1));
        assert(c[0] == e[0]);
        assert(c.drop_first()[0] == c[1]);
        assert(c[1] == o[0]);
        let c1 = c.drop_first();
        assert(eval(c, x) == c[0] + x * eval(c1, x));
        assert(eval(c1, x) == c1[0] + x * eval(c1.drop_first(), x));
        let (a, b) = (eval(e1, x * x), eval(o1, x * x));
        assert(e[0] + x * (o[0] + x * (a + x * b)) == (e[0] + (x * x) * a) + x * (o[0] + (x * x)
            * b)) by (nonlinear_arith);
    }
}

pub proof fn lemma_interpolate_len(v: Seq<int>, winv: int, half: int, l: nat)
    requires
        v.len() == pow2(l),
    ensures
        interpolate(v, winv, half).len() == v.len(),
    decreases l,
{
    lemma2_to64();
    if l > 0 {
        lemma_pow2_unfold(l);
        lemma_pow2_pos((l - 1) as nat);
        lemma_interpolate_len(fold_even(v, half), winv * winv, half, (l - 1) as nat);
        lemma_interpolate_len(fold_odd(v, winv, half), winv * winv, half, (l - 1) as nat);
    }
}

proof fn lemma_lincomb_scaled(a: int, x: int, b: int, y: int, s: int, t: int)
    ensures
        (a * x + b * y) * s * t == a * (x * s * t) + b * (y * s * t),
{
    assert((a * x + b * y) * s == a * (x * s) + b * (y * s)) by (nonlinear_arith);
    let (c, d) = (x * s, y * s);
    assert((a * c + b * d) * t == a * (c * t) + b * (d * t)) by (nonlinear_arith);
}

/// Interpolation is linear in the values.
pub proof fn lemma_interpolate_lincomb(
    a: int,
    v: Seq<int>,
    b: int,
    u: Seq<int>,
    winv: int,
    half: int,
    l: nat,
)
    requires
        v.len() == pow2(l),
        u.len() == v.len(),
    ensures
        interpolate(lincomb(a, v, b, u), winv, half) == lincomb(
            a,
            interpolate(v, winv, half),
            b,
            interpolate(u, winv, half),
        ),
    decreases l,
{
    lemma2_to64();
    lemma_interpolate_len(v, winv, half, l);
    lemma_interpolate_len(u, winv, half, l);
    let s = lincomb(a, v, b, u);
    if l == 0 {
        assert(s =~= lincomb(a, interpolate(v, winv, half), b, interpolate(u, winv, half)));
    } else {
        lemma_pow2_unfold(l);
        lemma_pow2_pos((l - 1) as nat);
        let h = v.len() / 2;
        let l1 = (l - 1) as nat;
        let w2 = winv * winv;
        assert(fold_even(s, half) =~= lincomb(a, fold_even(v, half), b, fold_even(u, half))) by {
            assert forall|i: int| 0 <= i < h implies #[trigger] fold_even(s, half)[i] == lincomb(
                a,
                fold_even(v, half),
                b,
                fold_even(u, half),
            )[i] by {
                assert((a * v[i] + b * u[i] + (a * v[i + h] + b * u[i + h])) * half == a * ((v[i]
                    + v[i + h]) * half) + b * ((u[i] + u[i + h]) * half)) by (nonlinear_arith);
            }
        }
        assert(fold_odd(s, winv, half) =~= lincomb(
            a,
            fold_odd(v, winv, half),
            b,
            fold_odd(u, winv, half),
        )) by {
            assert forall|i: int| 0 <= i < h implies #[trigger] fold_odd(s, winv, half)[i]
                == lincomb(a, fold_odd(v, winv, half), b, fold_odd(u, winv, half))[i] by {
                let q = pow(winv, i as nat);
                lemma_lincomb_scaled(a, v[i] - v[i + h], b, u[i] - u[i + h], half, q);
                assert(a * v[i] + b * u[i] - (a * v[i + h] + b * u[i + h]) == a * (v[i] - v[i
                    + h]) + b * (u[i] - u[i + h])) by (nonlinear_arith);
            }
        }
        lemma_interpolate_lincomb(a, fold_even(v, half), b, fold_even(u, half), w2, half, l1);
        lemma_interpolate_lincomb(
            a,
            fold_odd(v, winv, half),
            b,
            fold_odd(u, winv, half),
            w2,
            half,
            l1,
        );
        lemma_interpolate_len(fold_even(v, half), w2, half, l1);
        lemma_interpolate_len(fold_even(u, half), w2, half, l1);
        lemma_interpolate_len(fold_odd(v, winv, half), w2, half, l1);
        lemma_interpolate_len(fold_odd(u, winv, half), w2, half, l1);
        assert(interpolate(s, winv, half) =~= lincomb(
            a,
            interpolate(v, winv, half),
            b,
            interpolate(u, winv, half),
        ));
    }
}

pub proof fn lemma_interpolate_cong(
    v: Seq<int>,
    u: Seq<int>,
    winv: int,
    winv2: int,
    half: int,
    l: nat,
    p: int,
)
    requires
        p > 0,
        v.len() == pow2(l),
        seq_cong(v, u, p),
        cong(winv, winv2, p),
    ensures
        seq_cong(interpolate(v, winv, half), interpolate(u, winv2, half), p),
    decreases l,
{
    lemma2_to64();
    if l > 0 {
        lemma_pow2_unfold(l);
        lemma_pow2_pos((l - 1) as nat);
        let h = v.len() / 2;
        let l1 = (l - 1) as nat;
        let (ve, ue) = (fold_even(v, half), fold_even(u, half));
        let (vo, uo) = (fold_odd(v, winv, half), fold_odd(u, winv2, half));
        assert forall|i: int| 0 <= i < h implies #[trigger] cong(ve[i], ue[i], p) by {
            assert(cong(v[i], u[i], p));
            assert(cong(v[i + h], u[i + h], p));
            lemma_cong_add(v[i], u[i], v[i + h], u[i + h], p);
            lemma_cong_mul(v[i] + v[i + h], u[i] + u[i + h], half, half, p);
        }
        assert forall|i: int| 0 <= i < h implies #[trigger] cong(vo[i], uo[i], p) by {
            assert(cong(v[i], u[i], p));
            assert(cong(v[i + h], u[i + h], p));
            lemma_cong_sub(v[i], u[i], v[i + h], u[i + h], p);
            lemma_cong_mul(v[i] - v[i + h], u[i] - u[i + h], half, half, p);
            lemma_cong_pow(winv, winv2, i as nat, p);
            lemma_cong_mul(
                (v[i] - v[i + h]) * half,
                (u[i] - u[i + h]) * half,
                pow(winv, i as nat),
                pow(winv2, i as nat),
                p,
            );
        }
        lemma_cong_mul(winv, winv2, winv, winv2, p);
        lemma_interpolate_cong(ve, ue, winv * winv, winv2 * winv2, half, l1, p);
        lemma_interpolate_cong(vo, uo, winv * winv, winv2 * winv2, half, l1, p);
        let (e, e2) = (
            interpolate(ve, winv * winv, half),
            interpolate(ue, winv2 * winv2, half),
        );
        let (o, o2) = (
            interpolate(vo, winv * winv, half),
            interpolate(uo, winv2 * winv2, half),
        );
        lemma_interpolate_len(ve, winv * winv, half, l1);
        lemma_interpolate_len(vo, winv * winv, half, l1);
        assert forall|i: int| 0 <= i < v.len() implies #[trigger] cong(
            interleave(e, o)[i],
            interleave(e2, o2)[i],
            p,
        ) by {
            assert(cong(e[i / 2], e2[i / 2], p));
            assert(cong(o[i / 2], o2[i / 2], p));
        }
    }
}

/// The interpolated polynomial has the given values at the powers of the root.
pub proof fn lemma_interpolate(
    v: Seq<int>,
    w: int,
    winv: int,
    half: int,
    l: nat,
    i: int,
    p: int,
)
    requires
        p > 0,
        v.len() == pow2(l),
        cong(w * winv, 1, p),
        cong(2 * half, 1, p),
        l > 0 ==> cong(pow(w, pow2((l - 1) as nat)), -1, p),
        0 <= i < v.len(),
    ensures
        cong(eval(interpolate(v, winv, half), pow(w, i as nat)), v[i], p),
    decreases l,
{
    lemma2_to64();
    if l == 0 {
        assert(v.drop_first().len() == 0);
        assert(eval(v.drop_first(), pow(w, i as nat)) == 0);
        assert(pow(w, i as nat) * 0 == 0) by (nonlinear_arith);
    } else {
        lemma_pow2_unfold(l);
        lemma_pow2_pos((l - 1) as nat);
        let h = (v.len() / 2) as int;
        let l1 = (l - 1) as nat;
        let j = if i < h {
            i
        } else {
            i - h
        };
        let (ev, ov) = (fold_even(v, half), fold_odd(v, winv, half));
        let (w2, winv2) = (w * w, winv * winv);
        let (e, o) = (interpolate(ev, winv2, half), interpolate(ov, winv2, half));
        lemma_interpolate_len(ev, winv2, half, l1);
        lemma_interpolate_len(ov, winv2, half, l1);
        // The root of half the order.
        assert(cong(w2 * winv2, 1, p)) by {
            lemma_cong_mul(w * winv, 1, w * winv, 1, p);
            assert((w * w) * (winv * winv) == (w * winv) * (w * winv)) by (nonlinear_arith);
        }
        if l1 > 0 {
            lemma_pow2_unfold(l1);
            lemma_pow_square(w, pow2((l1 - 1) as nat));
        }
        lemma_interpolate(ev, w2, winv2, half, l1, j, p);
        lemma_interpolate(ov, w2, winv2, half, l1, j, p);
        let x = pow(w, i as nat);
        let y = pow(w2, j as nat);
        let wj = pow(w, j as nat);
        let wh = pow(w, h as nat);
        // x^2 is the power of w^2 at which e and o are known.
        lemma_pow_square(w, j as nat);
        let sign: int = if i < h {
            1
        } else {
            -1
        };
        assert(cong(x, sign * wj, p)) by {
            if i >= h {
                lemma_pow_adds(w, j as nat, h as nat);
                assert(x == wj * wh);
                lemma_cong_mul(wj, wj, wh, -1, p);
                assert(wj * -1 == -1 * wj) by (nonlinear_arith);
            }
        }
        assert(cong(x * x, y, p)) by {
            lemma_cong_mul(x, sign * wj, x, sign * wj, p);
            assert((sign * wj) * (sign * wj) == wj * wj) by (nonlinear_arith)
                requires
                    sign == 1 || sign == -1,
            ;
        }
        lemma_eval_interleave(e, o, x);
        assert forall|k: int| 0 <= k < e.len() implies #[trigger] cong(e[k], e[k], p) by {}
        lemma_eval_cong(e, e, x * x, y, p);
        lemma_eval_cong(o, o, x * x, y, p);
        // x * o(x^2) is half the difference of the two values, with its sign.
        let d = v[j] - v[j + h];
        let q = pow(winv, j as nat);
        assert(cong(wj * q, 1, p)) by {
            lemma_pow_mul(w, winv, j as nat);
            lemma_cong_pow(w * winv, 1, j as nat, p);
            crate::arith::lemma_pow_one(j as nat);
        }
        lemma_cong_mul(x, sign * wj, eval(o, x * x), d * half * q, p);
        lemma_cong_mul(sign * d * half, sign * d * half, wj * q, 1, p);
        assert((sign * wj) * (d * half * q) == (sign * d * half) * (wj * q)) by (nonlinear_arith);
        let s = v[j] + v[j + h];
        lemma_cong_add(eval(e, x * x), s * half, x * eval(o, x * x), sign * d * half, p);
        lemma_cong_mul(2 * half, 1, v[i], v[i], p);
        assert(s * half + sign * d * half == (2 * half) * v[i]) by (nonlinear_arith)
            requires
                s == v[j] + v[j + h],
                d == v[j] - v[j + h],
                (sign == 1 && j == i) || (sign == -1 && j + h == i),
        ;
    }
}

/// Elements that agree with `s` modulo the modulus are the residues of `s`.
pub proof fn lemma_vals_reduced<F: FieldElement>(r: Seq<F>, s: Seq<int>)
    requires
        r.len() == s.len(),
        forall|i: int| 0 <= i < s.len() ==> #[trigger] cong(r[i].val(), s[i], F::modulus()),
    ensures
        vals(r) == reduced(s, F::modulus()),
{
    assert forall|i: int| 0 <= i < s.len() implies #[trigger] vals(r)[i] == reduced(
        s,
        F::modulus(),
    )[i] by {
        r[i].lemma_val();
        lemma_residue(r[i].val(), F::modulus());
        assert(cong(r[i].val(), s[i], F::modulus()));
    }
    assert(vals(r) =~= reduced(s, F::modulus()));
}

/// The residues of `s` agree with `s`.
pub proof fn lemma_vals_cong<F: FieldElement>(r: Seq<F>, s: Seq<int>)
    requires
        vals(r) == reduced(s, F::modulus()),
    ensures
        r.len() == s.len(),
        seq_cong(vals(r), s, F::modulus()),
{
    F::lemma_field();
    assert(vals(r).len() == reduced(s, F::modulus()).len());
    lemma_reduced_cong(s, F::modulus());
}

/// The value of the polynomial `c` at `x`.
pub fn poly_eval<F: FieldElement>(c: &[F], x: &F) -> (r: F)
    ensures
        r.val() == eval(vals(c@), x.val()) % F::modulus(),
{
    let ghost p = F::modulus();
    let ghost cv = vals(c@);
    let mut acc = F::zero();
    let mut i: usize = c.len();
    proof {
        F::lemma_field();
        assert(cv.skip(i as int) =~= Seq::<int>::empty());
        lemma_residue(0, p);
    }
    while i > 0
        invariant
            i <= c@.len(),
            cv == vals(c@),
            p == F::modulus(),
            p > 0,
            acc.val() == eval(cv.skip(i as int), x.val()) % p,
        decreases i,
    {
        let ghost tail = cv.skip(i as int);
        let ghost before = acc.val();
        i -= 1;
        let t = acc.mul(x);
        acc = t.add(&c[i]);
        proof {
            assert(cv.skip(i as int).drop_first() =~= tail);
            let e = eval(tail, x.val());
            lemma_cong_mod(e, p);
            lemma_cong_mul(before, e, x.val(), x.val(), p);
            lemma_cong_mod(before * x.val(), p);
            lemma_cong_add(t.val(), e * x.val(), c[i as int].val(), c[i as int].val(), p);
            assert(x.val() * e == e * x.val()) by (nonlinear_arith);
            assert(cv.skip(i as int)[0] == c[i as int].val());
        }
    }
    assert(cv.skip(0) =~= cv);
    acc
}

/// The sum of two polynomials of the same length.
pub fn add_polys<F: FieldElement>(c: &[F], d: &[F]) -> (r: Vec<F>)
    requires
        c@.len() == d@.len(),
    ensures
        vals(r@) == reduced(lincomb(1, vals(c@), 1, vals(d@)), F::modulus()),
        r@.len() == c@.len(),
{
    let mut out: Vec<F> = Vec::new();
    let mut i: usize = 0;
    while i < c.len()
        invariant
            i <= c@.len(),
            c@.len() == d@.len(),
            out@.len() == i,
            forall|k: int| 0 <= k < i ==> #[trigger] out@[k].val() == (c@[k].val() + d@[k].val())
                % F::modulus(),
        decreases c@.len() - i,
    {
        out.push(c[i].add(&d[i]));
        i += 1;
    }
    assert(vals(out@) =~= reduced(lincomb(1, vals(c@), 1, vals(d@)), F::modulus()));
    out
}

/// The product of two polynomials.
pub fn multiply<F: FieldElement>(c: &[F], d: &[F]) -> (r: Vec<F>)
    requires
        c@.len() > 0,
        d@.len() > 0,
        c@.len() + d@.len() <= usize::MAX,
    ensures
        vals(r@) == reduced(poly_mul(vals(c@), vals(d@)), F::modulus()),
        r@.len() == c@.len() + d@.len() - 1,
{
    let ghost p = F::modulus();
    let ghost cv = vals(c@);
    let ghost dv = vals(d@);
    let n: usize = c.len();
    let m: usize = d.len();
    let mut acc: Vec<F> = Vec::new();
    let mut j: usize = 0;
    proof {
        F::lemma_field();
    }
    while j < m
        invariant
            j <= m,
            m == d@.len(),
            n == c@.len(),
            n > 0,
            p == F::modulus(),
            p > 0,
            acc@.len() == j,
            forall|k: int| 0 <= k < j ==> #[trigger] acc@[k].val() == (c@[n - 1].val()
                * d@[k].val()) % p,
        decreases m - j,
    {
        acc.push(c[n - 1].mul(&d[j]));
        j += 1;
    }
    let mut i: usize = n - 1;
    proof {
        let top = cv.skip(i as int);
        assert forall|k: int| 0 <= k < m implies #[trigger] cong(
            acc@[k].val(),
            poly_mul(top, dv)[k],
            p,
        ) by {
            lemma_cong_mod(c@[n - 1].val() * d@[k].val(), p);
        }
    }
    while i > 0
        invariant
            i < n,
            n == c@.len(),
            m == d@.len(),
            m > 0,
            n + m <= usize::MAX,
            cv == vals(c@),
            dv == vals(d@),
            p == F::modulus(),
            p > 0,
            acc@.len() == (n - i) + m - 1,
            poly_mul(cv.skip(i as int), dv).len() == acc@.len(),
            forall|k: int| 0 <= k < acc@.len() ==> #[trigger] cong(
                acc@[k].val(),
                poly_mul(cv.skip(i as int), dv)[k],
                p,
            ),
        decreases i,
    {
        let ghost tail = cv.skip(i as int);
        let ghost prod = poly_mul(tail, dv);
        i -= 1;
        let len: usize = acc.len();
        let mut next: Vec<F> = Vec::new();
        let mut k: usize = 0;
        while k <= len
            invariant
                k <= len + 1,
                len == acc@.len(),
                next@.len() == k,
                len < usize::MAX,
                i < n,
                n == c@.len(),
                m == d@.len(),
                p == F::modulus(),
                p > 0,
                forall|t: int| 0 <= t < k ==> #[trigger] next@[t].val() == ((if t < m {
                    (c@[i as int].val() * d@[t].val()) % p
                } else {
                    0
                }) + (if t > 0 {
                    acc@[t - 1].val()
                } else {
                    0
                })) % p,
            decreases len + 1 - k,
        {
            let x = if k < m {
                c[i].mul(&d[k])
            } else {
                F::zero()
            };
            let y = if k > 0 {
                acc[k - 1]
            } else {
                F::zero()
            };
            next.push(x.add(&y));
            k += 1;
        }
        proof {
            let here = cv.skip(i as int);
            assert(here.drop_first() =~= tail);
            assert(here.len() >= 2);
            let full = poly_mul(here, dv);
            lemma_poly_mul_len(here, dv);
            assert(full == mul_step(here[0], dv, prod));
            assert forall|t: int| 0 <= t < next@.len() implies #[trigger] cong(
                next@[t].val(),
                full[t],
                p,
            ) by {
                let raw = c@[i as int].val() * d@[t].val();
                let (x, x2) = if t < m {
                    (raw % p, raw)
                } else {
                    (0, 0)
                };
                let (y, y2) = if t > 0 {
                    (acc@[t - 1].val(), prod[t - 1])
                } else {
                    (0, 0)
                };
                lemma_cong_mod(raw, p);
                if t > 0 {
                    assert(cong(acc@[t - 1].val(), prod[t - 1], p));
                }
                lemma_cong_add(x, x2, y, y2, p);
                lemma_cong_mod(x + y, p);
                assert(full[t] == x2 + y2);
            }
        }
        acc = next;
    }
    proof {
        assert(cv.skip(0) =~= cv);
        lemma_poly_mul_len(cv, dv);
        lemma_vals_reduced(acc@, poly_mul(cv, dv));
    }
    acc
}

/// The coefficients of the polynomial that has the value `v[i]` at the `i`-th power of a
/// root of unity of order `v.len()`; `winv` is the inverse of that root and `half` that of two.
pub fn interpolation<F: FieldElement>(v: &[F], winv: &F, half: &F) -> (r: Vec<F>)
    requires
        exists|l: nat| v@.len() == pow2(l),
    ensures
        vals(r@) == reduced(interpolate(vals(v@), winv.val(), half.val()), F::modulus()),
        r@.len() == v@.len(),
    decreases v@.len(),
{
    let ghost p = F::modulus();
    let ghost vv = vals(v@);
    let ghost l = choose|l: nat| v@.len() == pow2(l);
    let n: usize = v.len();
    proof {
        F::lemma_field();
        lemma2_to64();
        lemma_pow2_pos(l);
        lemma_interpolate_len(vv, winv.val(), half.val(), l);
    }
    if n <= 1 {
        let r = vstd::slice::slice_to_vec(v);
        proof {
            lemma_vals_reduced(r@, vv);
        }
        return r;
    }
    proof {
        if l == 0 {
            assert(false);
        }
        lemma_pow2_unfold(l);
    }
    let h: usize = n / 2;
    let mut even: Vec<F> = Vec::new();
    let mut odd: Vec<F> = Vec::new();
    let mut factor = *half;
    let mut i: usize = 0;
    proof {
        lemma_pow_step(winv.val(), 0);
        half.lemma_val();
        assert(half.val() * 1 == half.val());
    }
    while i < h
        invariant
            i <= h,
            n == v@.len(),
            h == n / 2,
            vv == vals(v@),
            p == F::modulus(),
            p > 0,
            even@.len() == i,
            odd@.len() == i,
            cong(factor.val(), half.val() * pow(winv.val(), i as nat), p),
            forall|k: int| 0 <= k < i ==> #[trigger] cong(
                even@[k].val(),
                fold_even(vv, half.val())[k],
                p,
            ),
            forall|k: int| 0 <= k < i ==> #[trigger] cong(
                odd@[k].val(),
                fold_odd(vv, winv.val(), half.val())[k],
                p,
            ),
        decreases h - i,
    {
        let s = v[i].add(&v[i + h]);
        let d = v[i].sub(&v[i + h]);
        let ev = s.mul(half);
        let ov = d.mul(&factor);
        proof {
            let (a, b) = (vv[i as int], vv[i + h]);
            let hv = half.val();
            let q = pow(winv.val(), i as nat);
            lemma_cong_mod(a + b, p);
            lemma_cong_mul(s.val(), a + b, hv, hv, p);
            lemma_cong_mod(s.val() * hv, p);
            assert(cong(ev.val(), fold_even(vv, hv)[i as int], p));
            lemma_cong_mod(a - b, p);
            lemma_cong_mul(d.val(), a - b, factor.val(), hv * q, p);
            lemma_cong_mod(d.val() * factor.val(), p);
            assert((a - b) * (hv * q) == (a - b) * hv * q) by (nonlinear_arith);
            assert(cong(ov.val(), fold_odd(vv, winv.val(), hv)[i as int], p));
            lemma_pow_step(winv.val(), i as nat);
            lemma_cong_mul(factor.val(), hv * q, winv.val(), winv.val(), p);
            lemma_cong_mod(factor.val() * winv.val(), p);
            assert((hv * q) * winv.val() == hv * (winv.val() * q)) by (nonlinear_arith);
        }
        even.push(ev);
        odd.push(ov);
        factor = factor.mul(winv);
        i += 1;
    }
    let w2 = winv.mul(winv);
    assert(even@.len() == pow2((l - 1) as nat));
    assert(odd@.len() == pow2((l - 1) as nat));
    let e = interpolation(even.as_slice(), &w2, half);
    let o = interpolation(odd.as_slice(), &w2, half);
    let ghost (es, os) = (
        interpolate(fold_even(vv, half.val()), winv.val() * winv.val(), half.val()),
        interpolate(fold_odd(vv, winv.val(), half.val()), winv.val() * winv.val(), half.val()),
    );
    proof {
        let l1 = (l - 1) as nat;
        lemma_cong_mod(winv.val() * winv.val(), p);
        assert(seq_cong(vals(even@), fold_even(vv, half.val()), p)) by {
            assert forall|k: int| 0 <= k < h implies #[trigger] cong(
                vals(even@)[k],
                fold_even(vv, half.val())[k],
                p,
            ) by {
                assert(cong(even@[k].val(), fold_even(vv, half.val())[k], p));
            }
        }
        assert(seq_cong(vals(odd@), fold_odd(vv, winv.val(), half.val()), p)) by {
            assert forall|k: int| 0 <= k < h implies #[trigger] cong(
                vals(odd@)[k],
                fold_odd(vv, winv.val(), half.val())[k],
                p,
            ) by {
                assert(cong(odd@[k].val(), fold_odd(vv, winv.val(), half.val())[k], p));
            }
        }
        lemma_interpolate_cong(
            vals(even@),
            fold_even(vv, half.val()),
            w2.val(),
            winv.val() * winv.val(),
            half.val(),
            l1,
            p,
        );
        lemma_interpolate_cong(
            vals(odd@),
            fold_odd(vv, winv.val(), half.val()),
            w2.val(),
            winv.val() * winv.val(),
            half.val(),
            l1,
            p,
        );
        lemma_vals_cong(e@, interpolate(vals(even@), w2.val(), half.val()));
        lemma_vals_cong(o@, interpolate(vals(odd@), w2.val(), half.val()));
        assert forall|k: int| 0 <= k < h implies #[trigger] cong(e@[k].val(), es[k], p) by {
            assert(cong(vals(e@)[k], interpolate(vals(even@), w2.val(), half.val())[k], p));
            assert(cong(interpolate(vals(even@), w2.val(), half.val())[k], es[k], p));
        }
        assert forall|k: int| 0 <= k < h implies #[trigger] cong(o@[k].val(), os[k], p) by {
            assert(cong(vals(o@)[k], interpolate(vals(odd@), w2.val(), half.val())[k], p));
            assert(cong(interpolate(vals(odd@), w2.val(), half.val())[k], os[k], p));
        }
    }
    let mut out: Vec<F> = Vec::new();
    let mut k: usize = 0;
    while k < h
        invariant
            k <= h,
            e@.len() == h,
            o@.len() == h,
            es.len() == h,
            out@.len() == 2 * k,
            forall|t: int| 0 <= t < h ==> #[trigger] cong(e@[t].val(), es[t], p),
            forall|t: int| 0 <= t < h ==> #[trigger] cong(o@[t].val(), os[t], p),
            forall|t: int| 0 <= t < 2 * k ==> #[trigger] cong(
                out@[t].val(),
                interleave(es, os)[t],
                p,
            ),
        decreases h - k,
    {
        proof {
            assert(cong(e@[k as int].val(), es[k as int], p));
            assert(cong(o@[k as int].val(), os[k as int], p));
        }
        out.push(e[k]);
        out.push(o[k]);
        k += 1;
    }
    proof {
        lemma_vals_reduced(out@, interpolate(vv, winv.val(), half.val()));
    }
    out
}

/// The value of a polynomial is the sum of its coefficients, each times a power of the place.
pub proof fn law_eval(c: Seq<int>, x: int)
    ensures
        eval(c, x) == total(Seq::new(c.len(), |i: int| c[i] * pow(x, i as nat))),
    decreases c.len(),
{
    let terms = Seq::new(c.len(), |i: int| c[i] * pow(x, i as nat));
    if c.len() > 0 {
        let d = c.drop_last();
        law_eval(d, x);
        lemma_eval_push(d, c.last(), x);
        assert(d.push(c.last()) =~= c);
        assert(terms.drop_last() =~= Seq::new(d.len(), |i: int| d[i] * pow(x, i as nat)));
    }
}

} // verus!

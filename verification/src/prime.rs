//! Prime moduli.
//!
//! A number is prime if it has a residue of large two-power order, as those of the fields of this
//! crate have. Modulo a prime, a product vanishes only if a factor does, so that a polynomial has
//! no more roots than its degree.
use vstd::prelude::*;

verus! {

use vstd::arithmetic::div_mod::{lemma_fundamental_div_mod, lemma_mod_bound};
use vstd::arithmetic::power::{lemma_pow1, lemma_pow_adds, lemma_pow_multiplies, pow};
use vstd::arithmetic::power2::{lemma2_to64, lemma_pow2_pos, lemma_pow2_unfold, pow2};
use vstd::set_lib::{lemma_int_range, lemma_len_subset, set_int_range};
use crate::arith::{
    cong, lemma_cong_from, lemma_cong_mod, lemma_cong_mul, lemma_cong_pow, lemma_cong_sub,
    lemma_cong_witness, lemma_pow_one, lemma_pow_square, lemma_residue,
};
use crate::field::{inverse, lemma_inverse};
use crate::poly::eval;

/// `p` is above one, and nothing between one and `p` divides it.
pub open spec fn is_prime(p: int) -> bool {
    &&& p > 1
    &&& forall|d: int| 1 < d < p ==> #[trigger] (p % d) != 0
}

/// The odd powers of minus one are minus one.
proof fn lemma_minus_one_odd(e: nat)
    requires
        e % 2 == 1,
    ensures
        pow(-1, e) == -1,
    decreases e,
{
    lemma_pow1(-1);
    if e > 1 {
        lemma_minus_one_odd((e - 2) as nat);
        lemma_pow_adds(-1, 1, 1);
        lemma_pow_adds(-1, 2, (e - 2) as nat);
    }
}

/// If the power `2^(m-1)` of `w` is minus one modulo `d`, no smaller power than `2^m` is one.
proof fn lemma_order(w: int, m: nat, e: nat, d: int)
    requires
        d > 2,
        m >= 1,
        cong(pow(w, pow2((m - 1) as nat)), -1, d),
        0 < e < pow2(m),
    ensures
        !cong(pow(w, e), 1, d),
    decreases m,
{
    let h = pow2((m - 1) as nat);
    lemma2_to64();
    lemma_pow2_unfold(m);
    if cong(pow(w, e), 1, d) {
        if e % 2 == 1 {
            // (w^e)^h is one, but (w^h)^e is an odd power of minus one.
            lemma_cong_pow(pow(w, e), 1, h, d);
            lemma_pow_one(h);
            lemma_pow_multiplies(w, e, h);
            lemma_cong_pow(pow(w, h), -1, e, d);
            lemma_minus_one_odd(e);
            lemma_pow_multiplies(w, h, e);
            assert(e * h == h * e) by (nonlinear_arith);
            assert(cong(1, -1, d));
            lemma_residue(1, d);
            lemma_cong_from(d - 1, -1, 1, d);
            lemma_residue(d - 1, d);
        } else {
            let f = (e / 2) as nat;
            lemma_pow_square(w, f);
            lemma_pow2_unfold((m - 1) as nat);
            let g = pow2((m - 2) as nat);
            lemma_pow_square(w, g);
            lemma_order(w * w, (m - 1) as nat, f, d);
        }
    }
}

/// A number with a residue of order `2^m` is above `2^m`.
proof fn lemma_order_bound(w: int, m: nat, d: int)
    requires
        d > 2,
        m >= 1,
        cong(pow(w, pow2((m - 1) as nat)), -1, d),
    ensures
        d > pow2(m),
{
    let n = pow2(m);
    let h = pow2((m - 1) as nat);
    lemma_pow2_unfold(m);
    lemma_pow2_pos(m);
    // w^n is one.
    lemma_pow_adds(w, h, h);
    lemma_cong_mul(pow(w, h), -1, pow(w, h), -1, d);
    assert(cong(pow(w, n), 1, d));
    let s = Seq::new(n, |i: int| pow(w, i as nat) % d);
    assert forall|i: int| 0 <= i < n implies 1 <= #[trigger] s[i] < d by {
        lemma_mod_bound(pow(w, i as nat), d);
        if s[i] == 0 {
            lemma_residue(0, d);
            lemma_pow_adds(w, i as nat, (n - i) as nat);
            let (a, b) = (pow(w, i as nat), pow(w, (n - i) as nat));
            lemma_cong_mul(a, 0, b, b, d);
            assert(0 * b == 0) by (nonlinear_arith);
            lemma_residue(1, d);
        }
    }
    assert forall|i: int, j: int| 0 <= i < j < n implies s[i] != s[j] by {
        if s[i] == s[j] {
            let (a, b) = (pow(w, i as nat), pow(w, j as nat));
            let c = pow(w, (n - i) as nat);
            let e = pow(w, (j - i) as nat);
            assert(cong(a, b, d));
            lemma_cong_mul(a, b, c, c, d);
            lemma_pow_adds(w, i as nat, (n - i) as nat);
            lemma_pow_adds(w, j as nat, (n - i) as nat);
            lemma_pow_adds(w, n, (j - i) as nat);
            lemma_cong_mul(pow(w, n), 1, e, e, d);
            lemma_order(w, m, (j - i) as nat, d);
        }
    }
    assert(s.no_duplicates());
    s.unique_seq_to_set();
    let range = set_int_range(1, d);
    lemma_int_range(1, d);
    assert(s.to_set().subset_of(range)) by {
        assert forall|x: int| s.to_set().contains(x) implies range.contains(x) by {
            let i = choose|i: int| 0 <= i < s.len() && s[i] == x;
            assert(1 <= s[i] < d);
        }
    }
    lemma_len_subset(s.to_set(), range);
}

/// An odd number is prime if it has a residue of order `2^m` and is below the square of
/// `2^m + 1`: each divisor has such a residue too, so that no two of them have it as product.
pub proof fn lemma_prime_from_root(p: int, w: int, m: nat)
    requires
        p > 2,
        p % 2 == 1,
        m >= 1,
        cong(pow(w, pow2((m - 1) as nat)), -1, p),
        p < (pow2(m) + 1) * (pow2(m) + 1),
    ensures
        is_prime(p),
{
    let h = pow2((m - 1) as nat);
    assert forall|d: int| 1 < d < p implies #[trigger] (p % d) != 0 by {
        if p % d == 0 {
            let e = p / d;
            lemma_fundamental_div_mod(p, d);
            assert(1 < e < p) by (nonlinear_arith)
                requires
                    p == d * e,
                    1 < d < p,
            ;
            lemma_divisor_bound(p, w, m, d, e);
            assert(p == e * d) by (nonlinear_arith)
                requires
                    p == d * e,
            ;
            lemma_divisor_bound(p, w, m, e, d);
            let n = pow2(m) + 1;
            assert(d * e >= n * n) by (nonlinear_arith)
                requires
                    d >= n,
                    e >= n,
                    n >= 0,
            ;
        }
    }
}

/// A divisor of a number with a residue of order `2^m` is above `2^m`.
proof fn lemma_divisor_bound(p: int, w: int, m: nat, d: int, e: int)
    requires
        p % 2 == 1,
        m >= 1,
        cong(pow(w, pow2((m - 1) as nat)), -1, p),
        p > 0,
        p == d * e,
        d > 1,
    ensures
        d >= pow2(m) + 1,
{
    let x = pow(w, pow2((m - 1) as nat));
    let k = lemma_cong_witness(x, -1, p);
    assert(x == -1 + d * (e * k)) by (nonlinear_arith)
        requires
            x == -1 + p * k,
            p == d * e,
    ;
    lemma_cong_from(x, -1, e * k, d);
    if d == 2 {
        assert(p % 2 == 0) by (nonlinear_arith)
            requires
                p == d * e,
                d == 2,
        ;
    }
    lemma_order_bound(w, m, d);
}

/// Modulo a prime, a product vanishes only if a factor does.
pub proof fn lemma_product_vanishes(a: int, b: int, p: int)
    requires
        is_prime(p),
        cong(a * b, 0, p),
        !cong(a, 0, p),
    ensures
        cong(b, 0, p),
{
    let r = a % p;
    lemma_cong_mod(a, p);
    lemma_residue(0, p);
    let i = inverse(r, p);
    lemma_inverse(r, p);
    // b == (r * i) * b == i * (r * b) == i * 0
    lemma_cong_mul(r * i, 1, b, b, p);
    lemma_cong_mul(r, a, b, b, p);
    lemma_cong_mul(i, i, r * b, 0, p);
    assert((r * i) * b == i * (r * b)) by (nonlinear_arith);
    assert(i * 0 == 0) by (nonlinear_arith);
}

/// The quotient of the polynomial `c`, less its value at `r`, by `X - r`.
pub open spec fn quotient(c: Seq<int>, r: int) -> Seq<int>
    decreases c.len(),
{
    if c.len() <= 1 {
        Seq::empty()
    } else {
        seq![eval(c.drop_first(), r)] + quotient(c.drop_first(), r)
    }
}

proof fn lemma_quotient(c: Seq<int>, r: int, x: int)
    requires
        c.len() >= 1,
    ensures
        quotient(c, r).len() == c.len() - 1,
        eval(c, x) == eval(c, r) + (x - r) * eval(quotient(c, r), x),
    decreases c.len(),
{
    let q = quotient(c, r);
    if c.len() == 1 {
        assert(eval(c.drop_first(), x) == 0);
        assert(eval(c.drop_first(), r) == 0);
        assert(x * 0 == 0 && r * 0 == 0 && (x - r) * 0 == 0) by (nonlinear_arith);
    } else {
        let d = c.drop_first();
        lemma_quotient(d, r, x);
        assert(q.drop_first() =~= quotient(d, r));
        let (dr, dx, t) = (eval(d, r), eval(d, x), eval(quotient(d, r), x));
        assert(x * dx == r * dr + (x - r) * (dr + x * t)) by (nonlinear_arith)
            requires
                dx == dr + (x - r) * t,
        ;
    }
}

/// Some coefficient of the polynomial does not vanish modulo `p`.
pub open spec fn nonzero(c: Seq<int>, p: int) -> bool {
    exists|k: int| 0 <= k < c.len() && !#[trigger] cong(c[k], 0, p)
}

/// If the quotient vanishes, and the value at `r` too, then the polynomial vanishes.
proof fn lemma_quotient_nonzero(c: Seq<int>, r: int, p: int)
    requires
        p > 0,
        c.len() >= 1,
        nonzero(c, p),
        cong(eval(c, r), 0, p),
    ensures
        nonzero(quotient(c, r), p),
    decreases c.len(),
{
    let d = c.drop_first();
    let q = quotient(c, r);
    let k = choose|k: int| 0 <= k < c.len() && !#[trigger] cong(c[k], 0, p);
    if c.len() == 1 {
        assert(eval(d, r) == 0);
        assert(r * 0 == 0) by (nonlinear_arith);
        assert(eval(c, r) == c[0]);
    } else {
        let dr = eval(d, r);
        assert(q[0] == dr);
        if cong(dr, 0, p) {
            lemma_cong_mul(r, r, dr, 0, p);
            assert(r * 0 == 0) by (nonlinear_arith);
            lemma_cong_sub(eval(c, r), 0, r * dr, 0, p);
            assert(cong(c[0], 0, p));
            assert(!cong(d[k - 1], 0, p));
            lemma_quotient_nonzero(d, r, p);
            let q1 = quotient(d, r);
            let j = choose|j: int| 0 <= j < q1.len() && !#[trigger] cong(q1[j], 0, p);
            lemma_quotient(c, r, r);
            lemma_quotient(d, r, r);
            assert(q[j + 1] == q1[j]);
        } else {
            lemma_quotient(c, r, r);
            assert(!cong(q[0], 0, p));
        }
    }
}

/// Modulo a prime, a polynomial that does not vanish has no more roots than its degree.
pub proof fn lemma_root_count(c: Seq<int>, p: int, roots: Set<int>)
    requires
        is_prime(p),
        nonzero(c, p),
        roots.finite(),
        forall|t: int| #[trigger] roots.contains(t) ==> 0 <= t < p && cong(eval(c, t), 0, p),
    ensures
        roots.len() < c.len(),
    decreases c.len(),
{
    if roots.len() > 0 {
        let r = roots.choose();
        assert(roots.contains(r));
        let q = quotient(c, r);
        lemma_quotient_nonzero(c, r, p);
        lemma_quotient(c, r, r);
        let others = roots.remove(r);
        assert forall|t: int| #[trigger] others.contains(t) implies 0 <= t < p && cong(
            eval(q, t),
            0,
            p,
        ) by {
            assert(roots.contains(t));
            lemma_quotient(c, r, t);
            let (a, b) = (t - r, eval(q, t));
            lemma_cong_sub(eval(c, t), 0, eval(c, r), 0, p);
            assert(cong(a * b, 0, p));
            if cong(a, 0, p) {
                let k = lemma_cong_witness(a, 0, p);
                assert(k == 0) by (nonlinear_arith)
                    requires
                        -p < a < p,
                        a == p * k,
                        p > 0,
                ;
                assert(p * 0 == 0) by (nonlinear_arith);
            }
            lemma_product_vanishes(a, b, p);
        }
        lemma_root_count(q, p, others);
    }
}

} // verus!

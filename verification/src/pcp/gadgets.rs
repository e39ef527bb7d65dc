//! Gadgets: the non-linear operations of a validity circuit.
use vstd::prelude::*;

verus! {

use crate::arith::{
    cong, lemma_cong_add, lemma_cong_mod, lemma_cong_mul, lemma_residue, lincomb, reduced, seq_cong,
};
use crate::field::{vals, FieldElement};
use crate::poly::{
    eval, lemma_eval_cong, lemma_eval_lincomb, lemma_eval_mul, lemma_poly_mul_cong,
    lemma_poly_mul_len, lemma_vals_cong, lemma_vals_reduced, multiply, poly_eval, poly_mul,
};

/// The representatives of a sequence of vectors of elements.
pub open spec fn vals2<F: FieldElement>(s: Seq<Vec<F>>) -> Seq<Seq<int>> {
    Seq::new(s.len(), |i: int| vals(s[i]@))
}

/// Every polynomial of `f` has `n` coefficients.
pub open spec fn all_len(f: Seq<Seq<int>>, n: nat) -> bool {
    forall|i: int| 0 <= i < f.len() ==> (#[trigger] f[i]).len() == n
}

/// The values of the polynomials `f` at `x`.
pub open spec fn evals(f: Seq<Seq<int>>, x: int) -> Seq<int> {
    Seq::new(f.len(), |i: int| eval(f[i], x))
}

/// Two sequences of polynomials agree modulo `p`.
pub open spec fn polys_cong(f: Seq<Seq<int>>, g: Seq<Seq<int>>, p: int) -> bool {
    &&& f.len() == g.len()
    &&& forall|i: int| 0 <= i < f.len() ==> seq_cong(#[trigger] f[i], g[i], p)
}

/// A polynomial function of several variables.
pub trait Gadget<F: FieldElement>: Sized {
    /// The gadget is well formed.
    spec fn wf(&self) -> bool;

    /// The number of inputs.
    spec fn arity_spec(&self) -> nat;

    /// The degree.
    spec fn degree_spec(&self) -> nat;

    /// The value on `inp`.
    spec fn call_spec(&self, inp: Seq<int>) -> int;

    /// The polynomial that the gadget makes of the polynomials `inp`.
    spec fn call_poly_spec(&self, inp: Seq<Seq<int>>) -> Seq<int>;

    /// The value depends on the residues of the inputs alone.
    proof fn lemma_call_cong(&self, a: Seq<int>, b: Seq<int>, p: int)
        requires
            self.wf(),
            p > 0,
            a.len() == self.arity_spec(),
            seq_cong(a, b, p),
        ensures
            cong(self.call_spec(a), self.call_spec(b), p),
    ;

    /// Calling the gadget on polynomials and evaluating is evaluating the polynomials and
    /// calling the gadget on the values.
    proof fn lemma_call_poly(&self, inp: Seq<Seq<int>>, n: nat, x: int)
        requires
            self.wf(),
            n > 0,
            inp.len() == self.arity_spec(),
            all_len(inp, n),
        ensures
            self.call_poly_spec(inp).len() == self.degree_spec() * (n - 1) + 1,
            eval(self.call_poly_spec(inp), x) == self.call_spec(evals(inp, x)),
    ;

    proof fn lemma_call_poly_cong(&self, f: Seq<Seq<int>>, g: Seq<Seq<int>>, n: nat, p: int)
        requires
            self.wf(),
            p > 0,
            n > 0,
            f.len() == self.arity_spec(),
            all_len(f, n),
            polys_cong(f, g, p),
        ensures
            seq_cong(self.call_poly_spec(f), self.call_poly_spec(g), p),
    ;

    fn arity(&self) -> (r: usize)
        requires
            self.wf(),
        ensures
            r == self.arity_spec(),
    ;

    fn degree(&self) -> (r: usize)
        requires
            self.wf(),
        ensures
            r == self.degree_spec(),
    ;

    /// The value on `inp`.
    fn call(&self, inp: &[F]) -> (r: F)
        requires
            self.wf(),
            inp@.len() == self.arity_spec(),
        ensures
            r.val() == self.call_spec(vals(inp@)) % F::modulus(),
    ;

    /// The polynomial that the gadget makes of the polynomials `inp`, each of the same length.
    fn call_poly(&self, inp: &[Vec<F>], n: usize) -> (r: Vec<F>)
        requires
            self.wf(),
            n > 0,
            inp@.len() == self.arity_spec(),
            all_len(vals2(inp@), n as nat),
            self.degree_spec() * (n - 1) + n + 1 <= usize::MAX,
        ensures
            vals(r@) == reduced(self.call_poly_spec(vals2(inp@)), F::modulus()),
            r@.len() == self.degree_spec() * (n - 1) + 1,
    ;
}

/// The composition of the polynomials `c` and `f`.
pub open spec fn compose(c: Seq<int>, f: Seq<int>) -> Seq<int>
    decreases c.len(),
{
    if c.len() <= 1 {
        c
    } else {
        add_constant(poly_mul(compose(c.drop_first(), f), f), c[0])
    }
}

/// The polynomial `f + c`.
pub open spec fn add_constant(f: Seq<int>, c: int) -> Seq<int> {
    f.update(0, f[0] + c)
}

pub proof fn lemma_compose(c: Seq<int>, f: Seq<int>, x: int)
    requires
        c.len() > 0,
        f.len() > 0,
    ensures
        compose(c, f).len() == (c.len() - 1) * (f.len() - 1) + 1,
        eval(compose(c, f), x) == eval(c, eval(f, x)),
    decreases c.len(),
{
    let y = eval(f, x);
    if c.len() == 1 {
        assert(eval(c.drop_first(), x) == 0);
        assert(eval(c.drop_first(), y) == 0);
        assert(x * 0 == 0 && y * 0 == 0) by (nonlinear_arith);
        assert((c.len() - 1) * (f.len() - 1) == 0) by (nonlinear_arith)
            requires
                c.len() == 1,
        ;
    } else {
        let c1 = c.drop_first();
        lemma_compose(c1, f, x);
        let g = compose(c1, f);
        assert((c.len() - 2) * (f.len() - 1) >= 0) by (nonlinear_arith)
            requires
                c.len() >= 2,
                f.len() >= 1,
        ;
        let prod = poly_mul(g, f);
        lemma_eval_mul(g, f, x);
        let s = add_constant(prod, c[0]);
        assert(s.drop_first() =~= prod.drop_first());
        assert((c.len() - 2) * (f.len() - 1) + (f.len() - 1) == (c.len() - 1) * (f.len() - 1))
            by (nonlinear_arith);
        assert(eval(c1, y) * y == y * eval(c1, y)) by (nonlinear_arith);
    }
}

pub proof fn lemma_compose_cong(c: Seq<int>, f: Seq<int>, g: Seq<int>, p: int)
    requires
        p > 0,
        c.len() > 0,
        f.len() > 0,
        seq_cong(f, g, p),
    ensures
        seq_cong(compose(c, f), compose(c, g), p),
    decreases c.len(),
{
    if c.len() > 1 {
        let c1 = c.drop_first();
        lemma_compose_cong(c1, f, g, p);
        lemma_compose(c1, f, 0);
        assert((c.len() - 2) * (f.len() - 1) >= 0) by (nonlinear_arith)
            requires
                c.len() >= 2,
                f.len() >= 1,
        ;
        let (a, b) = (compose(c1, f), compose(c1, g));
        lemma_poly_mul_cong(a, b, f, g, p);
        lemma_poly_mul_len(a, f);
        let (s, t) = (poly_mul(a, f), poly_mul(b, g));
        assert(cong(s[0], t[0], p));
        lemma_cong_add(s[0], t[0], c[0], c[0], p);
        assert forall|i: int| 0 <= i < s.len() implies #[trigger] cong(
            add_constant(s, c[0])[i],
            add_constant(t, c[0])[i],
            p,
        ) by {
            assert(cong(s[i], t[i], p));
        }
    } else {
        assert forall|i: int| 0 <= i < c.len() implies #[trigger] cong(c[i], c[i], p) by {}
    }
}

/// The composition of the polynomials `c` and `f`.
fn composition<F: FieldElement>(c: &[F], f: &[F]) -> (r: Vec<F>)
    requires
        c@.len() > 0,
        f@.len() > 0,
        (c@.len() - 1) * (f@.len() - 1) + f@.len() + 1 <= usize::MAX,
    ensures
        vals(r@) == reduced(compose(vals(c@), vals(f@)), F::modulus()),
        r@.len() == (c@.len() - 1) * (f@.len() - 1) + 1,
{
    let ghost p = F::modulus();
    let ghost (cv, fv) = (vals(c@), vals(f@));
    proof {
        F::lemma_field();
    }
    let n: usize = c.len();
    let mut acc: Vec<F> = Vec::new();
    acc.push(c[n - 1]);
    let mut i: usize = n - 1;
    proof {
        let top = cv.skip(i as int);
        lemma_vals_reduced(acc@, compose(top, fv));
        assert((n - i - 1) * (f@.len() - 1) == 0) by (nonlinear_arith)
            requires
                i == n - 1,
        ;
    }
    while i > 0
        invariant
            i < n,
            n == c@.len(),
            f@.len() > 0,
            (c@.len() - 1) * (f@.len() - 1) + f@.len() + 1 <= usize::MAX,
            p == F::modulus(),
            p > 0,
            cv == vals(c@),
            fv == vals(f@),
            vals(acc@) == reduced(compose(cv.skip(i as int), fv), p),
            acc@.len() == (n - i - 1) * (f@.len() - 1) + 1,
        decreases i,
    {
        let ghost tail = cv.skip(i as int);
        let ghost before = acc@;
        proof {
            assert((n - i - 1) * (f@.len() - 1) >= 0) by (nonlinear_arith)
                requires
                    n - i - 1 >= 0,
                    f@.len() >= 1,
            ;
            assert((n - i - 1) * (f@.len() - 1) <= (n - 1) * (f@.len() - 1)) by (nonlinear_arith)
                requires
                    i >= 0,
                    f@.len() >= 1,
            ;
        }
        i -= 1;
        let mut prod = multiply(acc.as_slice(), f);
        let ghost raw = prod@;
        let first = prod[0].add(&c[i]);
        prod[0] = first;
        proof {
            let here = cv.skip(i as int);
            assert(here.drop_first() =~= tail);
            let g = compose(tail, fv);
            lemma_vals_cong(before, g);
            assert forall|k: int| 0 <= k < fv.len() implies #[trigger] cong(fv[k], fv[k], p) by {}
            lemma_poly_mul_cong(vals(before), g, fv, fv, p);
            lemma_poly_mul_len(g, fv);
            let s = poly_mul(g, fv);
            lemma_vals_cong(raw, poly_mul(vals(before), fv));
            let full = compose(here, fv);
            assert(full == add_constant(s, cv[i as int]));
            assert forall|k: int| 0 <= k < full.len() implies #[trigger] cong(
                prod@[k].val(),
                full[k],
                p,
            ) by {
                assert(cong(vals(raw)[k], poly_mul(vals(before), fv)[k], p));
                assert(cong(poly_mul(vals(before), fv)[k], s[k], p));
                if k == 0 {
                    lemma_cong_add(raw[0].val(), s[0], cv[i as int], cv[i as int], p);
                    lemma_cong_mod(raw[0].val() + cv[i as int], p);
                }
            }
            lemma_vals_reduced(prod@, full);
            assert((n - i - 2) * (f@.len() - 1) + (f@.len() - 1) == (n - i - 1) * (f@.len() - 1))
                by (nonlinear_arith);
        }
        acc = prod;
    }
    assert(cv.skip(0) =~= cv);
    acc
}

/// Two gadgets compute the same, and the second is well formed if the first is.
pub open spec fn same_gadget<F: FieldElement, G: Gadget<F>>(a: G, b: G) -> bool {
    &&& a.wf() ==> b.wf()
    &&& a.arity_spec() == b.arity_spec()
    &&& a.degree_spec() == b.degree_spec()
    &&& forall|inp: Seq<int>| #[trigger] b.call_spec(inp) == a.call_spec(inp)
    &&& forall|inp: Seq<Seq<int>>| #[trigger] b.call_poly_spec(inp) == a.call_poly_spec(inp)
}

/// Multiplication of two inputs.
#[derive(Clone, Copy, Debug, PartialEq, Eq)]
pub struct Mul;

impl<F: FieldElement> Gadget<F> for Mul {
    open spec fn wf(&self) -> bool {
        true
    }

    open spec fn arity_spec(&self) -> nat {
        2
    }

    open spec fn degree_spec(&self) -> nat {
        2
    }

    open spec fn call_spec(&self, inp: Seq<int>) -> int {
        inp[0] * inp[1]
    }

    open spec fn call_poly_spec(&self, inp: Seq<Seq<int>>) -> Seq<int> {
        poly_mul(inp[0], inp[1])
    }

    proof fn lemma_call_cong(&self, a: Seq<int>, b: Seq<int>, p: int) {
        assert(cong(a[0], b[0], p));
        assert(cong(a[1], b[1], p));
        lemma_cong_mul(a[0], b[0], a[1], b[1], p);
    }

    proof fn lemma_call_poly(&self, inp: Seq<Seq<int>>, n: nat, x: int) {
        assert(inp[0].len() == n && inp[1].len() == n);
        let d = Gadget::<F>::degree_spec(self);
        assert(d * (n - 1) == 2 * (n - 1)) by (nonlinear_arith)
            requires
                d == 2,
        ;
        lemma_eval_mul(inp[0], inp[1], x);
    }

    proof fn lemma_call_poly_cong(&self, f: Seq<Seq<int>>, g: Seq<Seq<int>>, n: nat, p: int) {
        assert(seq_cong(f[0], g[0], p));
        assert(seq_cong(f[1], g[1], p));
        lemma_poly_mul_cong(f[0], g[0], f[1], g[1], p);
    }

    fn arity(&self) -> (r: usize) {
        2
    }

    fn degree(&self) -> (r: usize) {
        2
    }

    fn call(&self, inp: &[F]) -> (r: F) {
        inp[0].mul(&inp[1])
    }

    fn call_poly(&self, inp: &[Vec<F>], n: usize) -> (r: Vec<F>) {
        assert(vals2(inp@)[0].len() == n && vals2(inp@)[1].len() == n);
        proof {
            let d = Gadget::<F>::degree_spec(self);
            assert(d * (n - 1) == 2 * (n - 1)) by (nonlinear_arith)
                requires
                    d == 2,
            ;
        }
        multiply(inp[0].as_slice(), inp[1].as_slice())
    }
}

/// Evaluation of a fixed polynomial.
#[derive(Debug, PartialEq, Eq)]
pub struct PolyEval<F> {
    /// The coefficients of the polynomial.
    pub poly: Vec<F>,
}

impl<F: FieldElement> Clone for PolyEval<F> {
    fn clone(&self) -> (r: Self)
        ensures
            r.poly@ == self.poly@,
            same_gadget::<F, Self>(*self, r),
    {
        PolyEval { poly: vstd::slice::slice_to_vec(self.poly.as_slice()) }
    }
}

impl<F: FieldElement> Gadget<F> for PolyEval<F> {
    open spec fn wf(&self) -> bool {
        self.poly@.len() > 0
    }

    open spec fn arity_spec(&self) -> nat {
        1
    }

    open spec fn degree_spec(&self) -> nat {
        (self.poly@.len() - 1) as nat
    }

    open spec fn call_spec(&self, inp: Seq<int>) -> int {
        eval(vals(self.poly@), inp[0])
    }

    open spec fn call_poly_spec(&self, inp: Seq<Seq<int>>) -> Seq<int> {
        compose(vals(self.poly@), inp[0])
    }

    proof fn lemma_call_cong(&self, a: Seq<int>, b: Seq<int>, p: int) {
        assert(cong(a[0], b[0], p));
        let c = vals(self.poly@);
        assert forall|i: int| 0 <= i < c.len() implies #[trigger] cong(c[i], c[i], p) by {}
        lemma_eval_cong(c, c, a[0], b[0], p);
    }

    proof fn lemma_call_poly(&self, inp: Seq<Seq<int>>, n: nat, x: int) {
        assert(inp[0].len() == n);
        lemma_compose(vals(self.poly@), inp[0], x);
    }

    proof fn lemma_call_poly_cong(&self, f: Seq<Seq<int>>, g: Seq<Seq<int>>, n: nat, p: int) {
        assert(seq_cong(f[0], g[0], p));
        assert(f[0].len() == n);
        lemma_compose_cong(vals(self.poly@), f[0], g[0], p);
    }

    fn arity(&self) -> (r: usize) {
        1
    }

    fn degree(&self) -> (r: usize) {
        self.poly.len() - 1
    }

    fn call(&self, inp: &[F]) -> (r: F) {
        poly_eval(self.poly.as_slice(), &inp[0])
    }

    fn call_poly(&self, inp: &[Vec<F>], n: usize) -> (r: Vec<F>) {
        assert(vals2(inp@)[0].len() == n);
        composition(self.poly.as_slice(), inp[0].as_slice())
    }
}

/// Evaluation of a fixed polynomial at the first input, times the second input.
#[derive(Debug, PartialEq, Eq)]
pub struct BlindPolyEval<F> {
    /// The coefficients of the polynomial.
    pub poly: Vec<F>,
}

impl<F: FieldElement> Clone for BlindPolyEval<F> {
    fn clone(&self) -> (r: Self)
        ensures
            r.poly@ == self.poly@,
            same_gadget::<F, Self>(*self, r),
    {
        BlindPolyEval { poly: vstd::slice::slice_to_vec(self.poly.as_slice()) }
    }
}

impl<F: FieldElement> Gadget<F> for BlindPolyEval<F> {
    open spec fn wf(&self) -> bool {
        self.poly@.len() > 0
    }

    open spec fn arity_spec(&self) -> nat {
        2
    }

    open spec fn degree_spec(&self) -> nat {
        self.poly@.len()
    }

    open spec fn call_spec(&self, inp: Seq<int>) -> int {
        inp[1] * eval(vals(self.poly@), inp[0])
    }

    open spec fn call_poly_spec(&self, inp: Seq<Seq<int>>) -> Seq<int> {
        poly_mul(inp[1], compose(vals(self.poly@), inp[0]))
    }

    proof fn lemma_call_cong(&self, a: Seq<int>, b: Seq<int>, p: int) {
        assert(cong(a[0], b[0], p));
        assert(cong(a[1], b[1], p));
        let c = vals(self.poly@);
        assert forall|i: int| 0 <= i < c.len() implies #[trigger] cong(c[i], c[i], p) by {}
        lemma_eval_cong(c, c, a[0], b[0], p);
        lemma_cong_mul(a[1], b[1], eval(c, a[0]), eval(c, b[0]), p);
    }

    proof fn lemma_call_poly(&self, inp: Seq<Seq<int>>, n: nat, x: int) {
        assert(inp[0].len() == n && inp[1].len() == n);
        let c = vals(self.poly@);
        lemma_compose(c, inp[0], x);
        assert((c.len() - 1) * (n - 1) >= 0) by (nonlinear_arith)
            requires
                c.len() >= 1,
                n >= 1,
        ;
        lemma_eval_mul(inp[1], compose(c, inp[0]), x);
        assert((c.len() - 1) * (n - 1) + (n - 1) == c.len() * (n - 1)) by (nonlinear_arith);
    }

    proof fn lemma_call_poly_cong(&self, f: Seq<Seq<int>>, g: Seq<Seq<int>>, n: nat, p: int) {
        assert(seq_cong(f[0], g[0], p));
        assert(seq_cong(f[1], g[1], p));
        assert(f[0].len() == n);
        let c = vals(self.poly@);
        lemma_compose_cong(c, f[0], g[0], p);
        lemma_poly_mul_cong(f[1], g[1], compose(c, f[0]), compose(c, g[0]), p);
    }

    fn arity(&self) -> (r: usize) {
        2
    }

    fn degree(&self) -> (r: usize) {
        self.poly.len()
    }

    fn call(&self, inp: &[F]) -> (r: F) {
        let y = poly_eval(self.poly.as_slice(), &inp[0]);
        let r = inp[1].mul(&y);
        proof {
            F::lemma_field();
            let p = F::modulus();
            let e = eval(vals(self.poly@), inp@[0].val());
            lemma_cong_mod(e, p);
            lemma_cong_mul(inp@[1].val(), inp@[1].val(), y.val(), e, p);
        }
        r
    }

    fn call_poly(&self, inp: &[Vec<F>], n: usize) -> (r: Vec<F>) {
        assert(vals2(inp@)[0].len() == n && vals2(inp@)[1].len() == n);
        proof {
            F::lemma_field();
            assert((self.poly@.len() - 1) * (n - 1) + (n - 1) == self.poly@.len() * (n - 1))
                by (nonlinear_arith);
            assert((self.poly@.len() - 1) * (n - 1) >= 0) by (nonlinear_arith)
                requires
                    self.poly@.len() >= 1,
                    n >= 1,
            ;
        }
        let g = composition(self.poly.as_slice(), inp[0].as_slice());
        let r = multiply(inp[1].as_slice(), g.as_slice());
        proof {
            let p = F::modulus();
            let (c, f, y) = (vals(self.poly@), vals(inp@[0]@), vals(inp@[1]@));
            lemma_vals_cong(g@, compose(c, f));
            assert forall|i: int| 0 <= i < y.len() implies #[trigger] cong(y[i], y[i], p) by {}
            lemma_poly_mul_cong(y, y, vals(g@), compose(c, f), p);
            lemma_vals_cong(r@, poly_mul(y, vals(g@)));
            let full = poly_mul(y, compose(c, f));
            assert forall|i: int| 0 <= i < full.len() implies #[trigger] cong(
                r@[i].val(),
                full[i],
                p,
            ) by {
                assert(cong(vals(r@)[i], poly_mul(y, vals(g@))[i], p));
                assert(cong(poly_mul(y, vals(g@))[i], full[i], p));
            }
            lemma_vals_reduced(r@, full);
        }
        r
    }
}

/// The sum of the values of `g` on the first `k` chunks of `inp`.
pub open spec fn sum_calls<F: FieldElement, G: Gadget<F>>(g: G, k: nat, inp: Seq<int>) -> int
    decreases k,
{
    if k == 0 {
        0
    } else {
        sum_calls::<F, G>(g, (k - 1) as nat, inp) + g.call_spec(chunk(inp, g.arity_spec(), k - 1))
    }
}

/// The `k`-th run of `n` entries of `s`.
pub open spec fn chunk<T>(s: Seq<T>, n: nat, k: int) -> Seq<T> {
    s.subrange(k * n, k * n + n)
}

/// The sum of the polynomials that `g` makes of the first `k` chunks of `inp`.
pub open spec fn sum_call_polys<F: FieldElement, G: Gadget<F>>(
    g: G,
    k: nat,
    inp: Seq<Seq<int>>,
) -> Seq<int>
    decreases k,
{
    if k <= 1 {
        g.call_poly_spec(chunk(inp, g.arity_spec(), 0))
    } else {
        lincomb(
            1,
            sum_call_polys::<F, G>(g, (k - 1) as nat, inp),
            1,
            g.call_poly_spec(chunk(inp, g.arity_spec(), k - 1)),
        )
    }
}

/// The `k`-th of `chunks` chunks lies within the sequence.
proof fn lemma_chunk_range(k: int, n: int, chunks: int)
    requires
        0 <= k < chunks,
        0 <= n,
    ensures
        0 <= k * n,
        k * n + n <= chunks * n,
        (k + 1) * n == k * n + n,
{
    assert(0 <= k * n) by (nonlinear_arith)
        requires
            0 <= k,
            0 <= n,
    ;
    assert((k + 1) * n == k * n + n) by (nonlinear_arith);
    assert((k + 1) * n <= chunks * n) by (nonlinear_arith)
        requires
            k + 1 <= chunks,
            0 <= n,
    ;
}

pub proof fn lemma_sum_calls_cong<F: FieldElement, G: Gadget<F>>(
    g: G,
    k: nat,
    chunks: nat,
    a: Seq<int>,
    b: Seq<int>,
    p: int,
)
    requires
        g.wf(),
        p > 0,
        k <= chunks,
        a.len() == chunks * g.arity_spec(),
        seq_cong(a, b, p),
    ensures
        cong(sum_calls::<F, G>(g, k, a), sum_calls::<F, G>(g, k, b), p),
    decreases k,
{
    if k > 0 {
        let n = g.arity_spec();
        lemma_sum_calls_cong::<F, G>(g, (k - 1) as nat, chunks, a, b, p);
        lemma_chunk_range(k - 1, n as int, chunks as int);
        let (x, y) = (chunk(a, n, k - 1), chunk(b, n, k - 1));
        assert forall|i: int| 0 <= i < x.len() implies #[trigger] cong(x[i], y[i], p) by {
            assert(cong(a[(k - 1) * n + i], b[(k - 1) * n + i], p));
        }
        g.lemma_call_cong(x, y, p);
        lemma_cong_add(
            sum_calls::<F, G>(g, (k - 1) as nat, a),
            sum_calls::<F, G>(g, (k - 1) as nat, b),
            g.call_spec(x),
            g.call_spec(y),
            p,
        );
    }
}

proof fn lemma_sum_call_polys<F: FieldElement, G: Gadget<F>>(
    g: G,
    k: nat,
    chunks: nat,
    inp: Seq<Seq<int>>,
    n: nat,
    x: int,
)
    requires
        g.wf(),
        1 <= k <= chunks,
        n > 0,
        inp.len() == chunks * g.arity_spec(),
        all_len(inp, n),
    ensures
        sum_call_polys::<F, G>(g, k, inp).len() == g.degree_spec() * (n - 1) + 1,
        eval(sum_call_polys::<F, G>(g, k, inp), x) == sum_calls::<F, G>(g, k, evals(inp, x)),
    decreases k,
{
    let ar = g.arity_spec();
    lemma_chunk_range(k - 1, ar as int, chunks as int);
    let part = chunk(inp, ar, k - 1);
    assert forall|i: int| 0 <= i < part.len() implies (#[trigger] part[i]).len() == n by {
        assert(inp[(k - 1) * ar + i].len() == n);
    }
    g.lemma_call_poly(part, n, x);
    assert(evals(part, x) =~= chunk(evals(inp, x), ar, k - 1));
    if k == 1 {
        assert(sum_calls::<F, G>(g, 0, evals(inp, x)) == 0);
    } else {
        lemma_sum_call_polys::<F, G>(g, (k - 1) as nat, chunks, inp, n, x);
        lemma_eval_lincomb(
            1,
            sum_call_polys::<F, G>(g, (k - 1) as nat, inp),
            1,
            g.call_poly_spec(part),
            x,
        );
    }
}

proof fn lemma_sum_call_polys_cong<F: FieldElement, G: Gadget<F>>(
    g: G,
    k: nat,
    chunks: nat,
    f: Seq<Seq<int>>,
    h: Seq<Seq<int>>,
    n: nat,
    p: int,
)
    requires
        g.wf(),
        p > 0,
        1 <= k <= chunks,
        n > 0,
        f.len() == chunks * g.arity_spec(),
        all_len(f, n),
        polys_cong(f, h, p),
    ensures
        seq_cong(sum_call_polys::<F, G>(g, k, f), sum_call_polys::<F, G>(g, k, h), p),
    decreases k,
{
    let ar = g.arity_spec();
    lemma_chunk_range(k - 1, ar as int, chunks as int);
    let (x, y) = (chunk(f, ar, k - 1), chunk(h, ar, k - 1));
    assert forall|i: int| 0 <= i < x.len() implies seq_cong(#[trigger] x[i], y[i], p) by {
        assert(seq_cong(f[(k - 1) * ar + i], h[(k - 1) * ar + i], p));
    }
    assert forall|i: int| 0 <= i < x.len() implies (#[trigger] x[i]).len() == n by {
        assert(f[(k - 1) * ar + i].len() == n);
    }
    g.lemma_call_poly_cong(x, y, n, p);
    if k > 1 {
        lemma_sum_call_polys_cong::<F, G>(g, (k - 1) as nat, chunks, f, h, n, p);
        lemma_sum_call_polys::<F, G>(g, (k - 1) as nat, chunks, f, n, 0);
        g.lemma_call_poly(x, n, 0);
        let (a, b) = (
            sum_call_polys::<F, G>(g, (k - 1) as nat, f),
            sum_call_polys::<F, G>(g, (k - 1) as nat, h),
        );
        let (c, d) = (g.call_poly_spec(x), g.call_poly_spec(y));
        assert forall|i: int| 0 <= i < a.len() implies #[trigger] cong(
            lincomb(1, a, 1, c)[i],
            lincomb(1, b, 1, d)[i],
            p,
        ) by {
            assert(cong(a[i], b[i], p));
            assert(cong(c[i], d[i], p));
            lemma_cong_add(a[i], b[i], c[i], d[i], p);
        }
    }
}

/// A gadget that sums the values of an inner gadget over the chunks of its input.
pub trait ParallelSumGadget<F: FieldElement, G: Gadget<F>>: Gadget<F> {
    /// The inner gadget.
    spec fn inner_spec(&self) -> G;

    /// The number of chunks.
    spec fn chunks_spec(&self) -> nat;

    /// What the gadget is made of determines what it computes.
    proof fn lemma_parallel_sum(&self, inp: Seq<int>)
        requires
            self.wf(),
        ensures
            self.inner_spec().wf(),
            self.arity_spec() == self.chunks_spec() * self.inner_spec().arity_spec(),
            self.degree_spec() == self.inner_spec().degree_spec(),
            self.call_spec(inp) == sum_calls::<F, G>(self.inner_spec(), self.chunks_spec(), inp),
    ;

    /// Sums `inner` over `chunks` chunks.
    fn new(inner: G, chunks: usize) -> (r: Self)
        requires
            inner.wf(),
            chunks >= 1,
            chunks * inner.arity_spec() <= usize::MAX,
        ensures
            r.wf(),
            r.inner_spec() == inner,
            r.chunks_spec() == chunks,
    ;
}

proof fn lemma_same_sum_calls<F: FieldElement, G: Gadget<F>>(a: G, b: G, k: nat, inp: Seq<int>)
    requires
        same_gadget::<F, G>(a, b),
    ensures
        sum_calls::<F, G>(b, k, inp) == sum_calls::<F, G>(a, k, inp),
    decreases k,
{
    if k > 0 {
        lemma_same_sum_calls::<F, G>(a, b, (k - 1) as nat, inp);
    }
}

proof fn lemma_same_sum_call_polys<F: FieldElement, G: Gadget<F>>(
    a: G,
    b: G,
    k: nat,
    inp: Seq<Seq<int>>,
)
    requires
        same_gadget::<F, G>(a, b),
    ensures
        sum_call_polys::<F, G>(b, k, inp) == sum_call_polys::<F, G>(a, k, inp),
    decreases k,
{
    if k > 1 {
        lemma_same_sum_call_polys::<F, G>(a, b, (k - 1) as nat, inp);
    }
}

/// The sum of an inner gadget over the chunks of the input, chunk after chunk.
#[derive(Debug)]
pub struct ParallelSum<F: FieldElement, G: Gadget<F>> {
    inner: G,
    chunks: usize,
    phantom: core::marker::PhantomData<F>,
}

impl<F: FieldElement, G: Gadget<F> + Clone> Clone for ParallelSum<F, G> {
    fn clone(&self) -> (r: Self)
        ensures
            r.chunks_spec() == self.chunks_spec(),
            cloned::<G>(self.inner_spec(), r.inner_spec()),
            same_gadget::<F, G>(self.inner_spec(), r.inner_spec()) ==> same_gadget::<F, Self>(
                *self,
                r,
            ),
    {
        let r = ParallelSum {
            inner: self.inner.clone(),
            chunks: self.chunks,
            phantom: core::marker::PhantomData,
        };
        proof {
            if same_gadget::<F, G>(self.inner, r.inner) {
                assert forall|inp: Seq<int>| #[trigger] r.call_spec(inp) == self.call_spec(
                    inp,
                ) by {
                    lemma_same_sum_calls::<F, G>(self.inner, r.inner, self.chunks as nat, inp);
                }
                assert forall|inp: Seq<Seq<int>>| #[trigger]
                    r.call_poly_spec(inp) == self.call_poly_spec(inp) by {
                    lemma_same_sum_call_polys::<F, G>(self.inner, r.inner, self.chunks as nat, inp);
                }
            }
        }
        r
    }
}

impl<F: FieldElement, G: Gadget<F>> Gadget<F> for ParallelSum<F, G> {
    closed spec fn wf(&self) -> bool {
        &&& self.inner.wf()
        &&& self.chunks >= 1
        &&& self.chunks * self.inner.arity_spec() <= usize::MAX
    }

    closed spec fn arity_spec(&self) -> nat {
        self.chunks as nat * self.inner.arity_spec()
    }

    closed spec fn degree_spec(&self) -> nat {
        self.inner.degree_spec()
    }

    closed spec fn call_spec(&self, inp: Seq<int>) -> int {
        sum_calls::<F, G>(self.inner, self.chunks as nat, inp)
    }

    closed spec fn call_poly_spec(&self, inp: Seq<Seq<int>>) -> Seq<int> {
        sum_call_polys::<F, G>(self.inner, self.chunks as nat, inp)
    }

    proof fn lemma_call_cong(&self, a: Seq<int>, b: Seq<int>, p: int) {
        lemma_sum_calls_cong::<F, G>(
            self.inner,
            self.chunks as nat,
            self.chunks as nat,
            a,
            b,
            p,
        );
    }

    proof fn lemma_call_poly(&self, inp: Seq<Seq<int>>, n: nat, x: int) {
        lemma_sum_call_polys::<F, G>(
            self.inner,
            self.chunks as nat,
            self.chunks as nat,
            inp,
            n,
            x,
        );
    }

    proof fn lemma_call_poly_cong(&self, f: Seq<Seq<int>>, g: Seq<Seq<int>>, n: nat, p: int) {
        lemma_sum_call_polys_cong::<F, G>(
            self.inner,
            self.chunks as nat,
            self.chunks as nat,
            f,
            g,
            n,
            p,
        );
    }

    fn arity(&self) -> (r: usize) {
        self.chunks * self.inner.arity()
    }

    fn degree(&self) -> (r: usize) {
        self.inner.degree()
    }

    fn call(&self, inp: &[F]) -> (r: F) {
        let ghost p = F::modulus();
        let ghost v = vals(inp@);
        let ar: usize = self.inner.arity();
        let mut acc = F::zero();
        let mut k: usize = 0;
        proof {
            F::lemma_field();
            lemma_residue(0, p);
        }
        while k < self.chunks
            invariant
                k <= self.chunks,
                self.wf(),
                ar == self.inner.arity_spec(),
                inp@.len() == self.chunks * self.inner.arity_spec(),
                v == vals(inp@),
                p == F::modulus(),
                p > 0,
                acc.val() == sum_calls::<F, G>(self.inner, k as nat, v) % p,
            decreases self.chunks - k,
        {
            proof {
                lemma_chunk_range(k as int, ar as int, self.chunks as int);
            }
            let part = vstd::slice::slice_subrange(inp, k * ar, k * ar + ar);
            let y = self.inner.call(part);
            let ghost before = acc.val();
            acc = acc.add(&y);
            proof {
                assert(vals(part@) =~= chunk(v, ar as nat, k as int));
                let s = sum_calls::<F, G>(self.inner, k as nat, v);
                let c = self.inner.call_spec(vals(part@));
                lemma_cong_mod(s, p);
                lemma_cong_mod(c, p);
                lemma_cong_add(before, s, y.val(), c, p);
            }
            k += 1;
        }
        acc
    }

    fn call_poly(&self, inp: &[Vec<F>], n: usize) -> (r: Vec<F>) {
        let ghost p = F::modulus();
        let ghost v = vals2(inp@);
        let ar: usize = self.inner.arity();
        proof {
            F::lemma_field();
            lemma_chunk_range(0, ar as int, self.chunks as int);
        }
        let first = vstd::slice::slice_subrange(inp, 0, ar);
        proof {
            assert(vals2(first@) =~= chunk(v, ar as nat, 0));
            assert forall|i: int| 0 <= i < ar implies (#[trigger] vals2(first@)[i]).len() == n by {
                assert(v[i].len() == n);
            }
        }
        let mut acc = self.inner.call_poly(first, n);
        let mut k: usize = 1;
        while k < self.chunks
            invariant
                1 <= k <= self.chunks,
                self.wf(),
                n > 0,
                ar == self.inner.arity_spec(),
                inp@.len() == self.chunks * self.inner.arity_spec(),
                v == vals2(inp@),
                all_len(v, n as nat),
                self.inner.degree_spec() * (n - 1) + n + 1 <= usize::MAX,
                p == F::modulus(),
                p > 0,
                vals(acc@) == reduced(sum_call_polys::<F, G>(self.inner, k as nat, v), p),
                acc@.len() == self.inner.degree_spec() * (n - 1) + 1,
            decreases self.chunks - k,
        {
            proof {
                lemma_chunk_range(k as int, ar as int, self.chunks as int);
            }
            let part = vstd::slice::slice_subrange(inp, k * ar, k * ar + ar);
            proof {
                assert(vals2(part@) =~= chunk(v, ar as nat, k as int));
                assert forall|i: int| 0 <= i < ar implies (#[trigger] vals2(part@)[i]).len()
                    == n by {
                    assert(v[k * ar + i].len() == n);
                }
            }
            let y = self.inner.call_poly(part, n);
            let ghost s = sum_call_polys::<F, G>(self.inner, k as nat, v);
            let ghost c = self.inner.call_poly_spec(vals2(part@));
            proof {
                lemma_vals_cong(acc@, s);
                lemma_vals_cong(y@, c);
            }
            let next = crate::poly::add_polys(acc.as_slice(), y.as_slice());
            proof {
                let full = lincomb(1, s, 1, c);
                assert forall|i: int| 0 <= i < full.len() implies #[trigger] cong(
                    next@[i].val(),
                    full[i],
                    p,
                ) by {
                    assert(cong(vals(acc@)[i], s[i], p));
                    assert(cong(vals(y@)[i], c[i], p));
                    lemma_cong_add(acc@[i].val(), s[i], y@[i].val(), c[i], p);
                    lemma_cong_mod(acc@[i].val() + y@[i].val(), p);
                    assert(vals(next@)[i] == reduced(
                        lincomb(1, vals(acc@), 1, vals(y@)),
                        p,
                    )[i]);
                }
                lemma_vals_reduced(next@, full);
            }
            acc = next;
            k += 1;
        }
        acc
    }
}

impl<F: FieldElement, G: Gadget<F>> ParallelSumGadget<F, G> for ParallelSum<F, G> {
    closed spec fn inner_spec(&self) -> G {
        self.inner
    }

    closed spec fn chunks_spec(&self) -> nat {
        self.chunks as nat
    }

    proof fn lemma_parallel_sum(&self, inp: Seq<int>) {
    }

    fn new(inner: G, chunks: usize) -> (r: Self) {
        ParallelSum { inner, chunks, phantom: core::marker::PhantomData }
    }
}

} // verus!

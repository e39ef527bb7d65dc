//! Modular arithmetic on mathematical integers.
//!
//! Specifications in this crate are written over `int` without intermediate
//! reductions. The lemmas of this module carry such statements over to
//! residues modulo a positive `p`.
use vstd::prelude::*;

verus! {

use vstd::arithmetic::div_mod::{
    lemma_fundamental_div_mod, lemma_mod_bound, lemma_mod_multiples_vanish, lemma_mod_twice,
    lemma_small_mod,
};
use vstd::arithmetic::power::{lemma_pow0, lemma_pow1, lemma_pow_adds, pow};

/// `a` and `b` are the same residue modulo `p`.
pub open spec fn cong(a: int, b: int, p: int) -> bool {
    a % p == b % p
}

/// Congruent integers differ by a multiple of the modulus.
pub proof fn lemma_cong_witness(a: int, b: int, p: int) -> (k: int)
    requires
        p > 0,
        cong(a, b, p),
    ensures
        k == a / p - b / p,
        a == b + p * k,
{
    lemma_fundamental_div_mod(a, p);
    lemma_fundamental_div_mod(b, p);
    let k = a / p - b / p;
    assert(p * (a / p) - p * (b / p) == p * k) by (nonlinear_arith)
        requires
            k == a / p - b / p,
    ;
    k
}

/// Integers that differ by a multiple of the modulus are congruent.
pub proof fn lemma_cong_from(a: int, b: int, k: int, p: int)
    requires
        p > 0,
        a == b + p * k,
    ensures
        cong(a, b, p),
{
    lemma_mod_multiples_vanish(k, b, p);
}

pub proof fn lemma_cong_mod(a: int, p: int)
    requires
        p > 0,
    ensures
        cong(a % p, a, p),
        0 <= a % p < p,
{
    lemma_mod_twice(a, p);
    lemma_mod_bound(a, p);
}

pub proof fn lemma_residue(a: int, p: int)
    requires
        0 <= a < p,
    ensures
        a % p == a,
{
    lemma_small_mod(a as nat, p as nat);
}

pub proof fn lemma_cong_add(a: int, a2: int, b: int, b2: int, p: int)
    requires
        p > 0,
        cong(a, a2, p),
        cong(b, b2, p),
    ensures
        cong(a + b, a2 + b2, p),
{
    let k = lemma_cong_witness(a, a2, p);
    let l = lemma_cong_witness(b, b2, p);
    assert(p * k + p * l == p * (k + l)) by (nonlinear_arith);
    lemma_cong_from(a + b, a2 + b2, k + l, p);
}

pub proof fn lemma_cong_sub(a: int, a2: int, b: int, b2: int, p: int)
    requires
        p > 0,
        cong(a, a2, p),
        cong(b, b2, p),
    ensures
        cong(a - b, a2 - b2, p),
{
    let k = lemma_cong_witness(a, a2, p);
    let l = lemma_cong_witness(b, b2, p);
    assert(p * k - p * l == p * (k - l)) by (nonlinear_arith);
    lemma_cong_from(a - b, a2 - b2, k - l, p);
}

pub proof fn lemma_cong_mul(a: int, a2: int, b: int, b2: int, p: int)
    requires
        p > 0,
        cong(a, a2, p),
        cong(b, b2, p),
    ensures
        cong(a * b, a2 * b2, p),
{
    let k = lemma_cong_witness(a, a2, p);
    let l = lemma_cong_witness(b, b2, p);
    let m = a2 * l + k * b2 + k * (p * l);
    assert((a2 + p * k) * (b2 + p * l) == a2 * b2 + p * m) by (nonlinear_arith)
        requires
            m == a2 * l + k * b2 + k * (p * l),
    ;
    lemma_cong_from(a * b, a2 * b2, m, p);
}

pub proof fn lemma_cong_pow(a: int, b: int, n: nat, p: int)
    requires
        p > 0,
        cong(a, b, p),
    ensures
        cong(pow(a, n), pow(b, n), p),
    decreases n,
{
    reveal(pow);
    if n > 0 {
        lemma_cong_pow(a, b, (n - 1) as nat, p);
        lemma_cong_mul(a, b, pow(a, (n - 1) as nat), pow(b, (n - 1) as nat), p);
    }
}

/// The powers of a product are the products of the powers.
pub proof fn lemma_pow_mul(a: int, b: int, n: nat)
    ensures
        pow(a * b, n) == pow(a, n) * pow(b, n),
    decreases n,
{
    reveal(pow);
    if n > 0 {
        let x = pow(a, (n - 1) as nat);
        let y = pow(b, (n - 1) as nat);
        lemma_pow_mul(a, b, (n - 1) as nat);
        assert((a * b) * (x * y) == (a * x) * (b * y)) by (nonlinear_arith);
    }
}

pub proof fn lemma_pow_one(n: nat)
    ensures
        pow(1, n) == 1,
    decreases n,
{
    reveal(pow);
    if n > 0 {
        lemma_pow_one((n - 1) as nat);
    }
}

/// `(a^2)^n == a^(2n) == (a^n)^2`.
pub proof fn lemma_pow_square(a: int, n: nat)
    ensures
        pow(a * a, n) == pow(a, 2 * n),
        pow(a, n) * pow(a, n) == pow(a, 2 * n),
{
    lemma_pow_mul(a, a, n);
    lemma_pow_adds(a, n, n);
}

pub proof fn lemma_pow_step(a: int, n: nat)
    ensures
        pow(a, n + 1) == a * pow(a, n),
        pow(a, 0) == 1,
        pow(a, 1) == a,
{
    lemma_pow_adds(a, 1, n);
    lemma_pow1(a);
    lemma_pow0(a);
}

/// The residues of a sequence.
pub open spec fn reduced(s: Seq<int>, p: int) -> Seq<int> {
    Seq::new(s.len(), |i: int| s[i] % p)
}

/// Two sequences agree modulo `p`.
pub open spec fn seq_cong(s: Seq<int>, t: Seq<int>, p: int) -> bool {
    &&& s.len() == t.len()
    &&& forall|i: int| 0 <= i < s.len() ==> #[trigger] cong(s[i], t[i], p)
}

/// `a * s + b * t`, element by element.
pub open spec fn lincomb(a: int, s: Seq<int>, b: int, t: Seq<int>) -> Seq<int> {
    Seq::new(s.len(), |i: int| a * s[i] + b * t[i])
}

pub open spec fn zeros(n: nat) -> Seq<int> {
    Seq::new(n, |i: int| 0int)
}

/// A sequence and its residues agree modulo `p`.
pub proof fn lemma_reduced_cong(s: Seq<int>, p: int)
    requires
        p > 0,
    ensures
        seq_cong(reduced(s, p), s, p),
        forall|i: int| 0 <= i < s.len() ==> 0 <= #[trigger] reduced(s, p)[i] < p,
{
    assert forall|i: int| 0 <= i < s.len() implies #[trigger] cong(reduced(s, p)[i], s[i], p) by {
        lemma_cong_mod(s[i], p);
    }
    assert forall|i: int| 0 <= i < s.len() implies 0 <= #[trigger] reduced(s, p)[i] < p by {
        lemma_cong_mod(s[i], p);
    }
}

/// Sequences that agree modulo `p` differ by a multiple of `p`.
pub proof fn lemma_seq_cong_witness(s: Seq<int>, t: Seq<int>, p: int) -> (d: Seq<int>)
    requires
        p > 0,
        seq_cong(s, t, p),
    ensures
        d.len() == s.len(),
        s == lincomb(1, t, p, d),
{
    let d = Seq::new(s.len(), |i: int| s[i] / p - t[i] / p);
    assert forall|i: int| 0 <= i < s.len() implies s[i] == 1 * t[i] + p * #[trigger] d[i] by {
        assert(cong(s[i], t[i], p));
        lemma_cong_witness(s[i], t[i], p);
    }
    assert(s =~= lincomb(1, t, p, d));
    d
}

/// The sum of sequences of length `n`, element by element.
pub open spec fn sum_seqs(s: Seq<Seq<int>>, n: nat) -> Seq<int>
    decreases s.len(),
{
    if s.len() == 0 {
        zeros(n)
    } else {
        lincomb(1, sum_seqs(s.drop_last(), n), 1, s.last())
    }
}

/// Every sequence of `s` has the length `n`.
pub open spec fn uniform(s: Seq<Seq<int>>, n: nat) -> bool {
    forall|i: int| 0 <= i < s.len() ==> (#[trigger] s[i]).len() == n
}

pub proof fn lemma_sum_seqs_len(s: Seq<Seq<int>>, n: nat)
    ensures
        sum_seqs(s, n).len() == n,
    decreases s.len(),
{
    if s.len() > 0 {
        lemma_sum_seqs_len(s.drop_last(), n);
    }
}

/// Sums of sequences that agree modulo `p` agree.
pub proof fn lemma_sum_seqs_cong(s: Seq<Seq<int>>, t: Seq<Seq<int>>, n: nat, p: int)
    requires
        p > 0,
        s.len() == t.len(),
        uniform(s, n),
        forall|i: int| 0 <= i < s.len() ==> seq_cong(#[trigger] s[i], t[i], p),
    ensures
        seq_cong(sum_seqs(s, n), sum_seqs(t, n), p),
    decreases s.len(),
{
    if s.len() > 0 {
        let (s1, t1) = (s.drop_last(), t.drop_last());
        assert forall|i: int| 0 <= i < s1.len() implies seq_cong(#[trigger] s1[i], t1[i], p) by {
            assert(seq_cong(s[i], t[i], p));
        }
        lemma_sum_seqs_cong(s1, t1, n, p);
        let k = s.len() - 1;
        assert(seq_cong(s[k], t[k], p));
        lemma_sum_seqs_len(s1, n);
        assert(s[k].len() == n);
        assert forall|i: int| 0 <= i < n implies #[trigger] cong(
            sum_seqs(s, n)[i],
            sum_seqs(t, n)[i],
            p,
        ) by {
            assert(cong(sum_seqs(s1, n)[i], sum_seqs(t1, n)[i], p));
            assert(cong(s[k][i], t[k][i], p));
            lemma_cong_add(sum_seqs(s1, n)[i], sum_seqs(t1, n)[i], s[k][i], t[k][i], p);
        }
    } else {
        assert forall|i: int| 0 <= i < n implies #[trigger] cong(
            sum_seqs(s, n)[i],
            sum_seqs(t, n)[i],
            p,
        ) by {}
    }
}

pub proof fn lemma_seq_cong_trans(s: Seq<int>, t: Seq<int>, u: Seq<int>, p: int)
    requires
        seq_cong(s, t, p),
        seq_cong(t, u, p),
    ensures
        seq_cong(s, u, p),
{
    assert forall|i: int| 0 <= i < s.len() implies #[trigger] cong(s[i], u[i], p) by {
        assert(cong(s[i], t[i], p));
        assert(cong(t[i], u[i], p));
    }
}

pub proof fn lemma_seq_cong_refl(s: Seq<int>, p: int)
    ensures
        seq_cong(s, s, p),
{
    assert forall|i: int| 0 <= i < s.len() implies #[trigger] cong(s[i], s[i], p) by {}
}

/// Sequences of residues that agree modulo `p` are equal.
pub proof fn lemma_seq_cong_reduced(s: Seq<int>, t: Seq<int>, p: int)
    requires
        seq_cong(s, t, p),
    ensures
        reduced(s, p) == reduced(t, p),
{
    assert forall|i: int| 0 <= i < s.len() implies #[trigger] reduced(s, p)[i] == reduced(
        t,
        p,
    )[i] by {
        assert(cong(s[i], t[i], p));
    }
    assert(reduced(s, p) =~= reduced(t, p));
}

/// Adding residues and reducing gives the residues of the sum.
pub proof fn lemma_reduced_add(s: Seq<int>, t: Seq<int>, p: int)
    requires
        p > 0,
        s.len() == t.len(),
    ensures
        reduced(lincomb(1, reduced(s, p), 1, t), p) == reduced(lincomb(1, s, 1, t), p),
{
    let (a, b) = (lincomb(1, reduced(s, p), 1, t), lincomb(1, s, 1, t));
    assert forall|i: int| 0 <= i < a.len() implies #[trigger] cong(a[i], b[i], p) by {
        lemma_cong_mod(s[i], p);
        lemma_cong_add(reduced(s, p)[i], s[i], t[i], t[i], p);
    }
    lemma_seq_cong_reduced(a, b, p);
}

/// What is left of `x` after subtracting the sequences of `ys`, element by element.
pub open spec fn sub_seqs(x: Seq<int>, ys: Seq<Seq<int>>) -> Seq<int>
    decreases ys.len(),
{
    if ys.len() == 0 {
        x
    } else {
        lincomb(1, sub_seqs(x, ys.drop_last()), -1, ys.last())
    }
}

pub proof fn lemma_sub_seqs_len(x: Seq<int>, ys: Seq<Seq<int>>)
    ensures
        sub_seqs(x, ys).len() == x.len(),
    decreases ys.len(),
{
    if ys.len() > 0 {
        lemma_sub_seqs_len(x, ys.drop_last());
    }
}

/// Subtracting from residues and reducing gives the residues of the difference.
pub proof fn lemma_reduced_sub(s: Seq<int>, t: Seq<int>, p: int)
    requires
        p > 0,
        s.len() == t.len(),
    ensures
        reduced(lincomb(1, reduced(s, p), -1, t), p) == reduced(lincomb(1, s, -1, t), p),
{
    let (a, b) = (lincomb(1, reduced(s, p), -1, t), lincomb(1, s, -1, t));
    assert forall|i: int| 0 <= i < a.len() implies #[trigger] cong(a[i], b[i], p) by {
        lemma_cong_mod(s[i], p);
        lemma_cong_sub(reduced(s, p)[i], s[i], t[i], t[i], p);
    }
    lemma_seq_cong_reduced(a, b, p);
}

/// Reducing before the subtractions makes no difference after them.
pub proof fn lemma_sub_seqs_reduced(x: Seq<int>, ys: Seq<Seq<int>>, p: int)
    requires
        p > 0,
        uniform(ys, x.len()),
    ensures
        reduced(sub_seqs(reduced(x, p), ys), p) == reduced(sub_seqs(x, ys), p),
    decreases ys.len(),
{
    if ys.len() == 0 {
        lemma_reduced_cong(x, p);
        lemma_seq_cong_reduced(reduced(x, p), x, p);
    } else {
        let zs = ys.drop_last();
        lemma_sub_seqs_reduced(x, zs, p);
        lemma_sub_seqs_len(x, zs);
        lemma_sub_seqs_len(reduced(x, p), zs);
        assert(ys[ys.len() - 1].len() == x.len());
        lemma_reduced_sub(sub_seqs(x, zs), ys.last(), p);
        lemma_reduced_sub(sub_seqs(reduced(x, p), zs), ys.last(), p);
    }
}

/// Residues are their own residues.
pub proof fn lemma_reduced_residues(s: Seq<int>, p: int)
    requires
        forall|i: int| 0 <= i < s.len() ==> 0 <= #[trigger] s[i] < p,
    ensures
        reduced(s, p) == s,
{
    assert forall|i: int| 0 <= i < s.len() implies #[trigger] reduced(s, p)[i] == s[i] by {
        lemma_residue(s[i], p);
    }
    assert(reduced(s, p) =~= s);
}

/// The sum of a concatenation is the sum of the sums.
pub proof fn lemma_sum_seqs_append(a: Seq<Seq<int>>, b: Seq<Seq<int>>, n: nat)
    ensures
        sum_seqs(a + b, n) == lincomb(1, sum_seqs(a, n), 1, sum_seqs(b, n)),
    decreases b.len(),
{
    lemma_sum_seqs_len(a, n);
    lemma_sum_seqs_len(b, n);
    lemma_sum_seqs_len(a + b, n);
    if b.len() == 0 {
        assert(a + b =~= a);
        assert(sum_seqs(a + b, n) =~= lincomb(1, sum_seqs(a, n), 1, sum_seqs(b, n)));
    } else {
        lemma_sum_seqs_append(a, b.drop_last(), n);
        lemma_sum_seqs_len(b.drop_last(), n);
        assert((a + b).drop_last() =~= a + b.drop_last());
        assert(sum_seqs(a + b, n) =~= lincomb(1, sum_seqs(a, n), 1, sum_seqs(b, n)));
    }
}

/// The sum of one sequence is that sequence.
pub proof fn lemma_sum_seqs_one(s: Seq<int>)
    ensures
        sum_seqs(seq![s], s.len()) == s,
{
    let n = s.len();
    let empty = seq![s].drop_last();
    assert(empty =~= Seq::<Seq<int>>::empty());
    assert(sum_seqs(empty, n) == zeros(n));
    assert(sum_seqs(seq![s], n) =~= s);
}

/// What is left after subtractions and what was subtracted add up to the whole.
pub proof fn lemma_sub_seqs_sum(x: Seq<int>, ys: Seq<Seq<int>>)
    ensures
        sum_seqs(seq![sub_seqs(x, ys)] + ys, x.len()) == x,
{
    let n = x.len();
    let first = seq![sub_seqs(x, ys)];
    lemma_sum_seqs_append(first, ys, n);
    lemma_sub_seqs_entries(x, ys);
    lemma_sub_seqs_len(x, ys);
    lemma_sum_seqs_len(ys, n);
    lemma_sum_seqs_one(sub_seqs(x, ys));
    assert(lincomb(1, sub_seqs(x, ys), 1, sum_seqs(ys, n)) =~= x);
}

proof fn lemma_sub_seqs_entries(x: Seq<int>, ys: Seq<Seq<int>>)
    ensures
        forall|i: int|
            0 <= i < x.len() ==> #[trigger] sub_seqs(x, ys)[i] + sum_seqs(ys, x.len())[i] == x[i],
    decreases ys.len(),
{
    let n = x.len();
    if ys.len() > 0 {
        let zs = ys.drop_last();
        lemma_sub_seqs_entries(x, zs);
        lemma_sub_seqs_len(x, zs);
        lemma_sum_seqs_len(zs, n);
        assert forall|i: int| 0 <= i < n implies #[trigger] sub_seqs(x, ys)[i] + sum_seqs(ys, n)[i]
            == x[i] by {
            assert(sub_seqs(x, zs)[i] + sum_seqs(zs, n)[i] == x[i]);
        }
    }
}

/// Replacing one summand by one that agrees with it modulo `p` makes no difference modulo `p`.
pub proof fn lemma_sum_seqs_first(a: Seq<int>, b: Seq<int>, ys: Seq<Seq<int>>, n: nat, p: int)
    requires
        p > 0,
        a.len() == n,
        seq_cong(a, b, p),
        uniform(ys, n),
    ensures
        seq_cong(sum_seqs(seq![a] + ys, n), sum_seqs(seq![b] + ys, n), p),
{
    let (s, t) = (seq![a] + ys, seq![b] + ys);
    assert forall|i: int| 0 <= i < s.len() implies seq_cong(#[trigger] s[i], t[i], p) by {
        if i > 0 {
            lemma_seq_cong_refl(s[i], p);
        }
    }
    assert forall|i: int| 0 <= i < s.len() implies (#[trigger] s[i]).len() == n by {
        if i > 0 {
            assert(ys[i - 1].len() == n);
        }
    }
    lemma_sum_seqs_cong(s, t, n, p);
}

/// Taking out one summand takes it out of the sum.
pub proof fn lemma_sum_seqs_remove(s: Seq<Seq<int>>, k: int, n: nat)
    requires
        0 <= k < s.len(),
        uniform(s, n),
    ensures
        sum_seqs(s, n) == lincomb(1, sum_seqs(s.remove(k), n), 1, s[k]),
{
    let (a, b) = (s.take(k), s.skip(k + 1));
    assert(s =~= (a + seq![s[k]]) + b);
    assert(s.remove(k) =~= a + b);
    lemma_sum_seqs_append(a + seq![s[k]], b, n);
    lemma_sum_seqs_append(a, seq![s[k]], n);
    lemma_sum_seqs_append(a, b, n);
    lemma_sum_seqs_len(a, n);
    lemma_sum_seqs_len(b, n);
    assert(s[k].len() == n);
    lemma_sum_seqs_one(s[k]);
    assert(sum_seqs(s, n) =~= lincomb(1, sum_seqs(s.remove(k), n), 1, s[k]));
}

/// The sum does not depend on the order of the summands.
pub proof fn lemma_sum_seqs_order(s: Seq<Seq<int>>, t: Seq<Seq<int>>, n: nat)
    requires
        uniform(s, n),
        s.to_multiset() == t.to_multiset(),
    ensures
        sum_seqs(s, n) == sum_seqs(t, n),
    decreases s.len(),
{
    broadcast use vstd::seq_lib::group_to_multiset_ensures;

    assert(s.to_multiset().len() == s.len() && t.to_multiset().len() == t.len());
    assert forall|i: int| 0 <= i < t.len() implies (#[trigger] t[i]).len() == n by {
        assert(t.contains(t[i]));
        assert(s.to_multiset().contains(t[i]));
        let j = s.index_of(t[i]);
        assert(s[j].len() == n);
    }
    if s.len() > 0 {
        let k = s.len() - 1;
        assert(s.contains(s[k]));
        assert(t.to_multiset().contains(s[k]));
        let j = t.index_of(s[k]);
        let (s1, t1) = (s.remove(k), t.remove(j));
        assert forall|i: int| 0 <= i < s1.len() implies (#[trigger] s1[i]).len() == n by {
            assert(s[i].len() == n);
        }
        lemma_sum_seqs_order(s1, t1, n);
        lemma_sum_seqs_remove(s, k, n);
        lemma_sum_seqs_remove(t, j, n);
    }
}

/// The sum of the sums of corresponding summands is the sum of the two sums.
proof fn lemma_sum_seqs_pairs(a: Seq<Seq<int>>, b: Seq<Seq<int>>, c: Seq<Seq<int>>, n: nat)
    requires
        a.len() == b.len(),
        a.len() == c.len(),
        uniform(a, n),
        uniform(b, n),
        forall|i: int| 0 <= i < c.len() ==> #[trigger] c[i] == lincomb(1, a[i], 1, b[i]),
    ensures
        sum_seqs(c, n) == lincomb(1, sum_seqs(a, n), 1, sum_seqs(b, n)),
    decreases a.len(),
{
    lemma_sum_seqs_len(a, n);
    lemma_sum_seqs_len(b, n);
    lemma_sum_seqs_len(c, n);
    if a.len() > 0 {
        let (a1, b1, c1) = (a.drop_last(), b.drop_last(), c.drop_last());
        lemma_sum_seqs_pairs(a1, b1, c1, n);
        lemma_sum_seqs_len(a1, n);
        lemma_sum_seqs_len(b1, n);
        let k = a.len() - 1;
        assert(c[k] == lincomb(1, a[k], 1, b[k]));
        assert(a[k].len() == n && b[k].len() == n);
    }
    assert(sum_seqs(c, n) =~= lincomb(1, sum_seqs(a, n), 1, sum_seqs(b, n)));
}

/// The `i`-th entries of the rows of a table.
pub open spec fn column(table: Seq<Seq<Seq<int>>>, i: int) -> Seq<Seq<int>> {
    Seq::new(table.len(), |k: int| table[k][i])
}

/// The sums of the rows of a table.
pub open spec fn row_sums(table: Seq<Seq<Seq<int>>>, n: nat) -> Seq<Seq<int>> {
    Seq::new(table.len(), |k: int| sum_seqs(table[k], n))
}

/// The sums of the columns of a table with `width` columns.
pub open spec fn column_sums(table: Seq<Seq<Seq<int>>>, width: nat, n: nat) -> Seq<Seq<int>> {
    Seq::new(width, |i: int| sum_seqs(column(table, i), n))
}

/// Every row of the table has `width` sequences of length `n`.
pub open spec fn is_table(table: Seq<Seq<Seq<int>>>, width: nat, n: nat) -> bool {
    forall|k: int|
        0 <= k < table.len() ==> (#[trigger] table[k]).len() == width && uniform(table[k], n)
}

/// The sum of the column sums of a table is the sum of its row sums.
pub proof fn lemma_table_sum(table: Seq<Seq<Seq<int>>>, width: nat, n: nat)
    requires
        is_table(table, width, n),
    ensures
        uniform(column_sums(table, width, n), n),
        sum_seqs(column_sums(table, width, n), n) == sum_seqs(row_sums(table, n), n),
    decreases table.len(),
{
    let cs = column_sums(table, width, n);
    assert forall|i: int| 0 <= i < cs.len() implies (#[trigger] cs[i]).len() == n by {
        lemma_sum_seqs_len(column(table, i), n);
    }
    if table.len() == 0 {
        lemma_sum_zeros(cs, n);
    } else {
        let top = table.drop_last();
        let k = table.len() - 1;
        assert(table[k].len() == width && uniform(table[k], n));
        assert forall|j: int| 0 <= j < top.len() implies (#[trigger] top[j]).len() == width
            && uniform(top[j], n) by {
            assert(table[j].len() == width);
        }
        lemma_table_sum(top, width, n);
        let ds = column_sums(top, width, n);
        assert forall|i: int| 0 <= i < width implies #[trigger] cs[i] == lincomb(
            1,
            ds[i],
            1,
            table[k][i],
        ) by {
            assert(column(table, i).drop_last() =~= column(top, i));
        }
        lemma_sum_seqs_pairs(ds, table[k], cs, n);
        assert(row_sums(table, n).drop_last() =~= row_sums(top, n));
    }
}

proof fn lemma_sum_zeros(s: Seq<Seq<int>>, n: nat)
    requires
        forall|i: int| 0 <= i < s.len() ==> #[trigger] s[i] == zeros(n),
    ensures
        sum_seqs(s, n) == zeros(n),
    decreases s.len(),
{
    if s.len() > 0 {
        lemma_sum_zeros(s.drop_last(), n);
        assert(s[s.len() - 1] == zeros(n));
        assert(sum_seqs(s, n) =~= zeros(n));
    }
}

/// The sum of numbers.
pub open spec fn total(s: Seq<int>) -> int
    decreases s.len(),
{
    if s.len() == 0 {
        0
    } else {
        total(s.drop_last()) + s.last()
    }
}

/// The entries of several vectors at the place `j`.
pub open spec fn entries_at(s: Seq<Seq<int>>, j: int) -> Seq<int> {
    Seq::new(s.len(), |i: int| s[i][j])
}

/// Each entry of the sum of vectors is the sum of their entries at that place.
pub proof fn law_sum_seqs(s: Seq<Seq<int>>, n: nat)
    ensures
        sum_seqs(s, n).len() == n,
        forall|j: int| 0 <= j < n ==> #[trigger] sum_seqs(s, n)[j] == total(entries_at(s, j)),
    decreases s.len(),
{
    lemma_sum_seqs_len(s, n);
    if s.len() > 0 {
        let t = s.drop_last();
        law_sum_seqs(t, n);
        assert forall|j: int| 0 <= j < n implies #[trigger] sum_seqs(s, n)[j] == total(
            entries_at(s, j),
        ) by {
            assert(entries_at(s, j).drop_last() =~= entries_at(t, j));
            assert(sum_seqs(t, n)[j] == total(entries_at(t, j)));
        }
    }
}

/// The residues of a vector lie between zero and the modulus and agree with its entries.
pub proof fn law_reduced(s: Seq<int>, p: int)
    requires
        p > 0,
    ensures
        reduced(s, p).len() == s.len(),
        forall|i: int|
            0 <= i < s.len() ==> 0 <= #[trigger] reduced(s, p)[i] < p && exists|k: int|
                s[i] == reduced(s, p)[i] + #[trigger] (p * k),
{
    assert forall|i: int| 0 <= i < s.len() implies 0 <= #[trigger] reduced(s, p)[i] < p && exists|
        k: int,
    | s[i] == reduced(s, p)[i] + #[trigger] (p * k) by {
        lemma_mod_bound(s[i], p);
        lemma_fundamental_div_mod(s[i], p);
        assert(s[i] == reduced(s, p)[i] + p * (s[i] / p));
    }
}

/// Congruent integers are those that differ by a multiple of the modulus.
pub proof fn law_cong(a: int, b: int, p: int)
    requires
        p > 0,
    ensures
        cong(a, b, p) <==> exists|k: int| a == b + #[trigger] (p * k),
{
    if cong(a, b, p) {
        let k = lemma_cong_witness(a, b, p);
        assert(a == b + p * k);
    }
    if exists|k: int| a == b + #[trigger] (p * k) {
        let k = choose|k: int| a == b + #[trigger] (p * k);
        lemma_cong_from(a, b, k, p);
    }
}

/// Vectors are combined entry by entry.
pub proof fn law_lincomb(a: int, s: Seq<int>, b: int, t: Seq<int>)
    ensures
        lincomb(a, s, b, t).len() == s.len(),
        forall|i: int| 0 <= i < s.len() ==> #[trigger] lincomb(a, s, b, t)[i] == a * s[i] + b * t[i],
{
}

} // verus!

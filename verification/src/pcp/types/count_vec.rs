//! The count-vector type.
use vstd::prelude::*;

verus! {

use vstd::arithmetic::div_mod::{lemma_fundamental_div_mod, lemma_mod_bound};
use vstd::arithmetic::power::{lemma_pow_adds, pow};
use vstd::arithmetic::power2::{lemma2_to64, lemma_pow2_unfold, pow2};
use crate::arith::{
    cong, lemma_cong_add, lemma_cong_mod, lemma_cong_mul, lemma_pow_one, lemma_pow_step,
    lemma_residue, reduced, total,
};
use crate::field::{lemma_prime, vals, FieldElement};
use crate::field128::Field128;
use crate::poly::{eval, law_eval, lemma_eval_lincomb, lemma_eval_push, poly_eval};
use crate::pcp::gadgets::{
    chunk, sum_calls, BlindPolyEval, Gadget, ParallelSumGadget, PolyEval,
};
use crate::pcp::types::{
    all_bits, integer_vals, is_bit, law_range_check, lemma_domain_bound, lemma_eval_vanishes,
    lemma_range_check, lemma_range_check_sound, range_check_coefficients, range_check_poly,
};
use crate::pcp::{call_inputs, gadget_outputs, log2_ceil, PcpError, Type};
use crate::prime::lemma_root_count;

/// Each measurement is a vector of zeros and ones of a fixed length, and the aggregate is their
/// sum, element by element.
///
/// The entries of the vector are checked in chunks, one gadget call for each. If the last chunk
/// is shorter than the others, its last entry is repeated.
#[derive(Debug)]
pub struct CountVec<F: FieldElement, S: ParallelSumGadget<F, BlindPolyEval<F>>> {
    len: usize,
    chunk_len: usize,
    calls: usize,
    gadget: S,
    phantom: core::marker::PhantomData<F>,
}

impl<F: FieldElement, S: ParallelSumGadget<F, BlindPolyEval<F>> + Clone> Clone for CountVec<F, S> {
    fn clone(&self) -> (r: Self)
        ensures
            r.len_spec() == self.len_spec(),
            r.chunk_len_spec() == self.chunk_len_spec(),
            r.calls_spec() == self.calls_spec(),
            cloned::<S>(self.gadget_spec(), r.gadget_spec()),
            ({
                let (a, b) = (self.gadget_spec(), r.gadget_spec());
                &&& self.wf()
                &&& a.wf() ==> b.wf()
                &&& b.chunks_spec() == a.chunks_spec()
                &&& b.inner_spec().poly@ == a.inner_spec().poly@
            }) ==> r.wf(),
    {
        CountVec {
            len: self.len,
            chunk_len: self.chunk_len,
            calls: self.calls,
            gadget: self.gadget.clone(),
            phantom: core::marker::PhantomData,
        }
    }
}

/// `c` is the length of a chunk for vectors of length `len`: the square root, rounded down, but
/// at least one.
pub open spec fn is_chunk_len(c: int, len: int) -> bool {
    &&& c >= 1
    &&& c * c <= len || c == 1
    &&& len < (c + 1) * (c + 1)
}

/// The number of chunks of length `c` that a vector of length `len` has.
pub open spec fn num_chunks(len: int, c: int) -> int {
    (len + c - 1) / c
}

proof fn lemma_num_chunks(len: int, c: int)
    requires
        len >= 0,
        is_chunk_len(c, len),
    ensures
        0 <= num_chunks(len, c) <= c + 2,
        forall|k: int| 0 <= k < num_chunks(len, c) ==> 0 <= #[trigger] (k * c) < len,
        num_chunks(len, c) == 0 <==> len == 0,
{
    let n = num_chunks(len, c);
    let r = (len + c - 1) % c;
    lemma_fundamental_div_mod(len + c - 1, c);
    lemma_mod_bound(len + c - 1, c);
    assert(n >= 0) by (nonlinear_arith)
        requires
            len + c - 1 == c * n + r,
            0 <= r < c,
            len >= 0,
            c >= 1,
    ;
    assert(n <= c + 2) by (nonlinear_arith)
        requires
            len + c - 1 == c * n + r,
            0 <= r < c,
            c >= 1,
            len < (c + 1) * (c + 1),
    ;
    assert forall|k: int| 0 <= k < n implies 0 <= #[trigger] (k * c) < len by {
        assert(0 <= k * c < len) by (nonlinear_arith)
            requires
                0 <= k < n,
                len + c - 1 == c * n + r,
                0 <= r < c,
                c >= 1,
        ;
    }
    if n == 0 {
        assert(c * n == 0) by (nonlinear_arith)
            requires
                n == 0,
        ;
    } else {
        assert(0 * c < len);
    }
}

/// The square root of `n`, rounded down.
fn square_root(n: usize) -> (r: usize)
    ensures
        r * r <= n < (r + 1) * (r + 1),
{
    let target: u128 = n as u128;
    let mut low: u128 = 0;
    let mut high: u128 = target + 1;
    assert(target < high * high) by (nonlinear_arith)
        requires
            high == target + 1,
            target >= 0,
    ;
    while high - low > 1
        invariant
            low < high <= target + 1,
            target == n,
            low * low <= target < high * high,
        decreases high - low,
    {
        let mid: u128 = low + (high - low) / 2;
        assert(mid * mid <= u128::MAX) by (nonlinear_arith)
            requires
                mid <= 0xffff_ffff_ffff_ffff,
        ;
        if mid * mid <= target {
            low = mid;
        } else {
            high = mid;
        }
    }
    assert(low <= target) by (nonlinear_arith)
        requires
            low * low <= target,
            low >= 0,
    ;
    low as usize
}

impl<S: ParallelSumGadget<Field128, BlindPolyEval<Field128>>> CountVec<Field128, S> {
    /// The type of vectors of length `len`.
    pub fn new(len: usize) -> (r: Self)
        ensures
            r.wf(),
            r.len_spec() == len,
    {
        let root: usize = square_root(len);
        let chunk_len: usize = if root == 0 {
            1
        } else {
            root
        };
        assert(is_chunk_len(chunk_len as int, len as int));
        proof {
            lemma_num_chunks(len as int, chunk_len as int);
            lemma_chunk_bound(chunk_len as int, len as int);
            lemma_fundamental_div_mod(len as int, chunk_len as int);
            lemma_mod_bound(len as int, chunk_len as int);
            let (q, m) = (len as int / chunk_len as int, len as int % chunk_len as int);
            let c = chunk_len as int;
            if m == 0 {
                assert((len + c - 1) / c == q) by (nonlinear_arith)
                    requires
                        len == c * q,
                        c >= 1,
                ;
            } else {
                assert((len + c - 1) / c == q + 1) by (nonlinear_arith)
                    requires
                        len == c * q + m,
                        0 < m < c,
                ;
            }
        }
        let calls: usize = if len % chunk_len == 0 {
            len / chunk_len
        } else {
            len / chunk_len + 1
        };
        let inner: BlindPolyEval<Field128> = BlindPolyEval { poly: range_check_poly() };
        proof {
            let ar = inner.arity_spec();
            assert(chunk_len * ar == 2 * chunk_len) by (nonlinear_arith)
                requires
                    ar == 2,
            ;
            lemma2_to64();
            let n = (calls + 1) as nat;
            lemma_pow2_unfold(65);
            lemma_pow2_unfold(66);
            lemma_domain_bound(n, 66);
        }
        let gadget = S::new(inner, chunk_len);
        CountVec { len, chunk_len, calls, gadget, phantom: core::marker::PhantomData }
    }
}

/// The sizes that a chunk length leads to fit the machine.
proof fn lemma_chunk_bound(c: int, len: int)
    requires
        is_chunk_len(c, len),
        0 <= len <= usize::MAX,
    ensures
        12 * c + 33 <= usize::MAX,
{
    if c >= 15 {
        assert(12 * c + 33 <= c * c) by (nonlinear_arith)
            requires
                c >= 15,
        ;
    }
}

impl<F: FieldElement, S: ParallelSumGadget<F, BlindPolyEval<F>>> CountVec<F, S> {
    /// The length of a measurement.
    pub closed spec fn len_spec(&self) -> nat {
        self.len as nat
    }

    /// The length of a chunk.
    pub closed spec fn chunk_len_spec(&self) -> nat {
        self.chunk_len as nat
    }

    /// The entry of the input that stands at place `j` of chunk `k`.
    pub open spec fn position(&self, k: int, j: int) -> int {
        let i = k * self.chunk_len_spec() + j;
        if i < self.len_spec() {
            i
        } else {
            self.len_spec() - 1
        }
    }
}

impl<F: FieldElement, S: ParallelSumGadget<F, BlindPolyEval<F>>> Type for CountVec<F, S> {
    type Measurement = Vec<F::Integer>;

    type Field = F;

    type Gadget = S;

    closed spec fn wf(&self) -> bool {
        &&& is_chunk_len(self.chunk_len as int, self.len as int)
        &&& self.calls == num_chunks(self.len as int, self.chunk_len as int)
        &&& log2_ceil((self.calls + 1) as nat) <= F::num_roots()
        &&& self.gadget.wf()
        &&& self.gadget.chunks_spec() == self.chunk_len
        &&& vals(self.gadget.inner_spec().poly@) == range_check_coefficients(F::modulus())
    }

    open spec fn input_len_spec(&self) -> nat {
        self.len_spec()
    }

    open spec fn output_len_spec(&self) -> nat {
        self.len_spec()
    }

    open spec fn joint_rand_len_spec(&self) -> nat {
        1
    }

    closed spec fn calls_spec(&self) -> nat {
        self.calls as nat
    }

    closed spec fn gadget_spec(&self) -> S {
        self.gadget
    }

    open spec fn wire(&self, x: Seq<int>, jr: Seq<int>, s: int, k: int, a: int) -> int {
        if a % 2 == 0 {
            x[self.position(k, a / 2)]
        } else {
            s * pow(jr[0], (k * self.chunk_len_spec() + a / 2 + 1) as nat)
        }
    }

    open spec fn circuit(&self, x: Seq<int>, g: Seq<int>, jr: Seq<int>, s: int) -> int {
        eval(g, 1)
    }

    open spec fn encode_spec(&self, m: Vec<F::Integer>) -> Option<Seq<int>> {
        if m@.len() == self.len_spec() && all_bits(integer_vals::<F>(m@)) {
            Some(integer_vals::<F>(m@))
        } else {
            None
        }
    }

    open spec fn contribution(&self, m: Vec<F::Integer>) -> Seq<int> {
        integer_vals::<F>(m@)
    }

    open spec fn truncate_spec(&self, x: Seq<int>) -> Seq<int> {
        x
    }

    open spec fn valid(&self, x: Seq<int>) -> bool {
        all_bits(x)
    }

    proof fn lemma_sizes(&self) {
        lemma2_to64();
        F::lemma_field();
        let c = self.chunk_len as int;
        lemma_num_chunks(self.len as int, c);
        lemma_chunk_bound(c, self.len as int);
        self.gadget.lemma_parallel_sum(Seq::empty());
        let inner = self.gadget.inner_spec();
        assert(inner.poly@.len() == 3) by {
            assert(vals(inner.poly@).len() == 3);
        }
        let ar = inner.arity_spec();
        assert(c * ar == 2 * c) by (nonlinear_arith)
            requires
                ar == 2,
        ;
        let n = (self.calls + 1) as nat;
        lemma_pow2_unfold(65);
        lemma_domain_bound(n, 65);
        let d = self.gadget.degree_spec();
        let m = pow2(log2_ceil(n)) - 1;
        assert(d * m == 3 * m) by (nonlinear_arith)
            requires
                d == 3,
        ;
    }

    proof fn lemma_wire_linear(
        &self,
        a: int,
        x: Seq<int>,
        s: int,
        b: int,
        y: Seq<int>,
        t: int,
        jr: Seq<int>,
        k: int,
        i: int,
    ) {
        let c = self.chunk_len as int;
        lemma_num_chunks(self.len as int, c);
        assert(0 <= k * c < self.len);
        let r = pow(jr[0], (k * self.chunk_len_spec() + i / 2 + 1) as nat);
        assert((a * s + b * t) * r == a * (s * r) + b * (t * r)) by (nonlinear_arith);
    }

    proof fn lemma_circuit_linear(
        &self,
        a: int,
        x: Seq<int>,
        g: Seq<int>,
        s: int,
        b: int,
        y: Seq<int>,
        h: Seq<int>,
        t: int,
        jr: Seq<int>,
    ) {
        lemma_eval_lincomb(a, g, b, h, 1);
    }

    proof fn lemma_truncate_linear(&self, a: int, x: Seq<int>, b: int, y: Seq<int>) {
    }

    proof fn lemma_circuit_complete(&self, x: Seq<int>, g: Seq<int>, jr: Seq<int>) {
        F::lemma_field();
        let p = F::modulus();
        let c = self.chunk_len as int;
        lemma_num_chunks(self.len as int, c);
        let inner = self.gadget.inner_spec();
        assert forall|k: int| 0 <= k < g.len() implies #[trigger] cong(g[k], 0, p) by {
            let inp = Seq::new(
                self.gadget_spec().arity_spec(),
                |a: int| self.wire(x, jr, 1, k, a),
            );
            self.gadget.lemma_parallel_sum(inp);
            let ar = inner.arity_spec();
            assert(c * ar == 2 * c) by (nonlinear_arith)
                requires
                    ar == 2,
            ;
            assert(0 <= k * c < self.len);
            assert forall|j: int| 0 <= j < c implies {
                let v = #[trigger] inp[2 * j];
                v == 0 || v == 1
            } by {
                assert(inp[2 * j] == x[self.position(k, j)]);
            }
            lemma_sum_vanishes(inner, c as nat, c as nat, inp);
        }
        lemma_eval_vanishes(g, 1, p);
    }

    proof fn lemma_encode(&self, m: Vec<F::Integer>) {
        let c = self.contribution(m);
        assert forall|i: int| 0 <= i < c.len() implies #[trigger] cong(
            c[i],
            c[i],
            F::modulus(),
        ) by {}
    }

    fn input_len(&self) -> (r: usize) {
        self.len
    }

    fn output_len(&self) -> (r: usize) {
        self.len
    }

    fn joint_rand_len(&self) -> (r: usize) {
        1
    }

    fn calls(&self) -> (r: usize) {
        self.calls
    }

    fn gadget(&self) -> (r: &S) {
        &self.gadget
    }

    fn wires(&self, input: &[F], joint_rand: &[F], share: &F) -> (r: Vec<Vec<F>>) {
        let ghost p = F::modulus();
        let ghost c = self.chunk_len as int;
        let ghost (x, jr, s) = (vals(input@), vals(joint_rand@), share.val());
        proof {
            F::lemma_field();
            self.lemma_sizes();
            self.gadget.lemma_parallel_sum(Seq::empty());
            lemma_num_chunks(self.len as int, c);
            let ar = self.gadget.inner_spec().arity_spec();
            assert(c * ar == 2 * c) by (nonlinear_arith)
                requires
                    ar == 2,
            ;
        }
        // The step from one chunk to the next multiplies the weights by `r^c`.
        let step = weight(&joint_rand[0], self.chunk_len);
        let mut out: Vec<Vec<F>> = Vec::new();
        let mut j: usize = 0;
        let mut first = joint_rand[0];
        proof {
            lemma_pow_step(jr[0], 0);
            lemma_cong_mod(jr[0], p);
        }
        while j < self.chunk_len
            invariant
                j <= self.chunk_len,
                self.wf(),
                c == self.chunk_len,
                p == F::modulus(),
                p > 0,
                x == vals(input@),
                jr == vals(joint_rand@),
                s == share.val(),
                input@.len() == self.len,
                joint_rand@.len() == 1,
                0 <= self.calls,
                forall|k: int| 0 <= k < self.calls ==> 0 <= #[trigger] (k * c) < self.len,
                cong(step.val(), pow(jr[0], c as nat), p),
                cong(first.val(), pow(jr[0], (j + 1) as nat), p),
                out@.len() == 2 * j,
                forall|a: int| 0 <= a < out@.len() ==> (#[trigger] out@[a])@.len() == self.calls,
                forall|a: int, k: int|
                    0 <= a < out@.len() && 0 <= k < self.calls ==> #[trigger] cong(
                        out@[a]@[k].val(),
                        self.wire(x, jr, s, k, a),
                        p,
                    ),
            decreases self.chunk_len - j,
        {
            let entries = self.entries(input, j);
            let weights = self.weights(&first, &step, share, j, Ghost(jr[0]));
            let ghost before = out@;
            out.push(entries);
            out.push(weights);
            proof {
                assert forall|a: int, k: int|
                    0 <= a < out@.len() && 0 <= k < self.calls implies #[trigger] cong(
                    out@[a]@[k].val(),
                    self.wire(x, jr, s, k, a),
                    p,
                ) by {
                    if a < 2 * j {
                        assert(cong(before[a]@[k].val(), self.wire(x, jr, s, k, a), p));
                    } else if a == 2 * j {
                        assert(entries@[k].val() == x[self.position(k, j as int)]);
                    } else {
                        assert(cong(
                            weights@[k].val(),
                            s * pow(jr[0], (k * c + j + 1) as nat),
                            p,
                        ));
                    }
                }
                lemma_pow_step(jr[0], (j + 1) as nat);
                lemma_cong_mul(
                    jr[0],
                    jr[0],
                    first.val(),
                    pow(jr[0], (j + 1) as nat),
                    p,
                );
                lemma_cong_mod(jr[0] * first.val(), p);
            }
            first = joint_rand[0].mul(&first);
            j += 1;
        }
        out
    }

    fn output(&self, input: &[F], gadget_outputs: &[F], joint_rand: &[F], share: &F) -> (r: F) {
        poly_eval(gadget_outputs, &F::one())
    }

    fn encode(&self, measurement: &Vec<F::Integer>) -> (r: Result<Vec<F>, PcpError>) {
        if measurement.len() != self.len {
            return Err(PcpError::Encode);
        }
        let ghost m = integer_vals::<F>(measurement@);
        let mut out: Vec<F> = Vec::new();
        let mut i: usize = 0;
        while i < measurement.len()
            invariant
                i <= measurement@.len(),
                m == integer_vals::<F>(measurement@),
                out@.len() == i,
                forall|j: int| 0 <= j < i ==> #[trigger] out@[j].val() == m[j],
                forall|j: int| 0 <= j < i ==> #[trigger] m[j] == 0 || m[j] == 1,
            decreases measurement@.len() - i,
        {
            let v: u128 = F::integer_to_u128(measurement[i]);
            assert(v == m[i as int]);
            if v > 1 {
                return Err(PcpError::Encode);
            }
            out.push(
                if v == 1 {
                    F::one()
                } else {
                    F::zero()
                },
            );
            i += 1;
        }
        assert(vals(out@) =~= m);
        Ok(out)
    }

    fn truncate(&self, input: Vec<F>) -> (r: Result<Vec<F>, PcpError>) {
        if input.len() != self.len {
            return Err(PcpError::Truncate);
        }
        proof {
            assert forall|i: int| 0 <= i < input@.len() implies #[trigger] vals(input@)[i]
                == reduced(vals(input@), F::modulus())[i] by {
                input@[i].lemma_val();
                lemma_residue(input@[i].val(), F::modulus());
            }
            assert(vals(input@) =~= reduced(vals(input@), F::modulus()));
        }
        Ok(input)
    }
}

/// The sum of range checks of zeros and ones vanishes.
proof fn lemma_sum_vanishes<F: FieldElement>(
    inner: BlindPolyEval<F>,
    k: nat,
    chunks: nat,
    inp: Seq<int>,
)
    requires
        vals(inner.poly@) == range_check_coefficients(F::modulus()),
        k <= chunks,
        inp.len() == 2 * chunks,
        forall|j: int|
            0 <= j < chunks ==> ({
                let v = #[trigger] inp[2 * j];
                v == 0 || v == 1
            }),
    ensures
        cong(sum_calls::<F, BlindPolyEval<F>>(inner, k, inp), 0, F::modulus()),
    decreases k,
{
    F::lemma_field();
    let p = F::modulus();
    if k > 0 {
        let j = k - 1;
        lemma_sum_vanishes(inner, j as nat, chunks, inp);
        let part = chunk(inp, inner.arity_spec(), j);
        assert(part[0] == inp[2 * j] && part[1] == inp[2 * j + 1]);
        lemma_range_check(part[0], p);
        let e = eval(vals(inner.poly@), part[0]);
        lemma_cong_mul(part[1], part[1], e, 0, p);
        lemma_cong_add(
            sum_calls::<F, BlindPolyEval<F>>(inner, j as nat, inp),
            0,
            inner.call_spec(part),
            0,
            p,
        );
    }
}

/// `x` to the power of `n`, for a positive `n`.
fn weight<F: FieldElement>(x: &F, n: usize) -> (r: F)
    requires
        n >= 1,
    ensures
        cong(r.val(), pow(x.val(), n as nat), F::modulus()),
{
    let ghost p = F::modulus();
    let mut acc = *x;
    let mut i: usize = 1;
    proof {
        F::lemma_field();
        lemma_pow_step(x.val(), 0);
    }
    while i < n
        invariant
            1 <= i <= n,
            p == F::modulus(),
            p > 0,
            cong(acc.val(), pow(x.val(), i as nat), p),
        decreases n - i,
    {
        proof {
            lemma_pow_step(x.val(), i as nat);
            lemma_cong_mul(x.val(), x.val(), acc.val(), pow(x.val(), i as nat), p);
            lemma_cong_mod(x.val() * acc.val(), p);
        }
        acc = x.mul(&acc);
        i += 1;
    }
    acc
}

impl<F: FieldElement, S: ParallelSumGadget<F, BlindPolyEval<F>>> CountVec<F, S> {
    /// The entries at place `j` of the chunks.
    fn entries(&self, input: &[F], j: usize) -> (r: Vec<F>)
        requires
            self.wf(),
            input@.len() == self.len,
            j < self.chunk_len,
        ensures
            r@.len() == self.calls,
            forall|k: int|
                0 <= k < self.calls ==> #[trigger] r@[k].val() == vals(input@)[self.position(
                    k,
                    j as int,
                )],
    {
        let ghost c = self.chunk_len as int;
        proof {
            lemma_num_chunks(self.len as int, c);
        }
        let mut out: Vec<F> = Vec::new();
        let mut k: usize = 0;
        while k < self.calls
            invariant
                k <= self.calls,
                c == self.chunk_len,
                input@.len() == self.len,
                j < self.chunk_len,
                forall|i: int| 0 <= i < self.calls ==> 0 <= #[trigger] (i * c) < self.len,
                out@.len() == k,
                forall|i: int|
                    0 <= i < k ==> #[trigger] out@[i].val() == vals(input@)[self.position(
                        i,
                        j as int,
                    )],
            decreases self.calls - k,
        {
            assert(0 <= k * c < self.len);
            let start: usize = k * self.chunk_len;
            let e = if j < self.len - start {
                input[start + j]
            } else {
                input[self.len - 1]
            };
            out.push(e);
            k += 1;
        }
        out
    }

    /// The weights of the entries at place `j` of the chunks.
    fn weights(&self, first: &F, step: &F, share: &F, j: usize, Ghost(r): Ghost<int>) -> (w: Vec<F>)
        requires
            cong(first.val(), pow(r, (j + 1) as nat), F::modulus()),
            cong(step.val(), pow(r, self.chunk_len as nat), F::modulus()),
        ensures
            w@.len() == self.calls,
            forall|k: int|
                0 <= k < self.calls ==> #[trigger] cong(
                    w@[k].val(),
                    share.val() * pow(r, (k * self.chunk_len + j + 1) as nat),
                    F::modulus(),
                ),
    {
        let ghost (p, s, c) = (F::modulus(), share.val(), self.chunk_len as int);
        let mut out: Vec<F> = Vec::new();
        let mut at = share.mul(first);
        let mut k: usize = 0;
        proof {
            F::lemma_field();
            lemma_cong_mul(s, s, first.val(), pow(r, (j + 1) as nat), p);
            lemma_cong_mod(s * first.val(), p);
            assert(0 * c == 0) by (nonlinear_arith);
        }
        while k < self.calls
            invariant
                k <= self.calls,
                p == F::modulus(),
                p > 0,
                s == share.val(),
                c == self.chunk_len,
                cong(step.val(), pow(r, c as nat), p),
                cong(at.val(), s * pow(r, (k * c + j + 1) as nat), p),
                out@.len() == k,
                forall|i: int|
                    0 <= i < k ==> #[trigger] cong(
                        out@[i].val(),
                        s * pow(r, (i * c + j + 1) as nat),
                        p,
                    ),
            decreases self.calls - k,
        {
            out.push(at);
            proof {
                assert(k * c >= 0) by (nonlinear_arith)
                    requires
                        k >= 0,
                        c >= 0,
                ;
                assert((k + 1) * c == k * c + c) by (nonlinear_arith);
                let n = (k * c + j + 1) as nat;
                lemma_pow_adds(r, n, c as nat);
                let (u, v) = (pow(r, n), pow(r, c as nat));
                lemma_cong_mul(at.val(), s * u, step.val(), v, p);
                assert((s * u) * v == s * (u * v)) by (nonlinear_arith);
                lemma_cong_mod(at.val() * step.val(), p);
            }
            at = at.mul(step);
            k += 1;
        }
        out
    }
}

/// The range checks of the entries of all chunks.
pub open spec fn entry_checks<F: FieldElement, S: ParallelSumGadget<F, BlindPolyEval<F>>>(
    typ: &CountVec<F, S>,
    x: Seq<int>,
) -> Seq<int> {
    Seq::new(
        typ.calls_spec() * typ.chunk_len_spec(),
        |i: int|
            eval(
                range_check_coefficients(F::modulus()),
                x[if i < typ.len_spec() {
                    i
                } else {
                    typ.len_spec() - 1
                }],
            ),
    )
}

/// The sum over the first `j` entries of the `k`-th chunk, as a part of the sum over all entries.
proof fn lemma_chunk_sum<F: FieldElement, S: ParallelSumGadget<F, BlindPolyEval<F>>>(
    typ: &CountVec<F, S>,
    x: Seq<int>,
    r: int,
    k: int,
    j: nat,
    inp: Seq<int>,
)
    requires
        typ.wf(),
        x.len() == typ.len_spec(),
        0 <= k < typ.calls_spec(),
        j <= typ.chunk_len_spec(),
        inp == Seq::new(
            2 * typ.chunk_len_spec(),
            |a: int| typ.wire(x, seq![r], 1, k, a),
        ),
    ensures
        ({
            let h = entry_checks(typ, x);
            let start = k * typ.chunk_len_spec();
            sum_calls::<F, BlindPolyEval<F>>(typ.gadget_spec().inner_spec(), j, inp) == r * eval(
                h.take(start + j),
                r,
            ) - r * eval(h.take(start), r)
        }),
    decreases j,
{
    let c = typ.chunk_len_spec() as int;
    let h = entry_checks(typ, x);
    let start = k * c;
    let inner = typ.gadget_spec().inner_spec();
    lemma_num_chunks(typ.len_spec() as int, c);
    assert(0 <= start < typ.len_spec());
    assert((k + 1) * c <= typ.calls_spec() * c) by (nonlinear_arith)
        requires
            k + 1 <= typ.calls_spec(),
            c >= 0,
    ;
    assert((k + 1) * c == start + c) by (nonlinear_arith)
        requires
            start == k * c,
    ;
    if j > 0 {
        let l = j - 1;
        lemma_chunk_sum(typ, x, r, k, l as nat, inp);
        let part = chunk(inp, inner.arity_spec(), l);
        assert(part[0] == inp[2 * l] && part[1] == inp[2 * l + 1]);
        assert(inp[2 * l] == x[typ.position(k, l)]);
        let q = pow(r, (start + l + 1) as nat);
        assert(inp[2 * l + 1] == 1 * q);
        let e = h[start + l];
        assert(e == eval(range_check_coefficients(F::modulus()), x[typ.position(k, l)]));
        assert(inner.call_spec(part) == part[1] * eval(vals(inner.poly@), part[0]));
        assert(h.take(start + j) =~= h.take(start + l).push(e));
        lemma_eval_push(h.take(start + l), e, r);
        lemma_pow_step(r, (start + l) as nat);
        let (u, v) = (eval(h.take(start + l), r), pow(r, (start + l) as nat));
        assert(r * (u + e * v) == r * u + q * e) by (nonlinear_arith)
            requires
                q == r * v,
        ;
        assert((1 * q) * e == q * e) by (nonlinear_arith);
    }
}

/// The sum of the first `n` gadget outputs, as a part of the sum over all entries.
proof fn lemma_output_sum<F: FieldElement, S: ParallelSumGadget<F, BlindPolyEval<F>>>(
    typ: &CountVec<F, S>,
    x: Seq<int>,
    r: int,
    n: nat,
)
    requires
        typ.wf(),
        x.len() == typ.len_spec(),
        n <= typ.calls_spec(),
    ensures
        eval(gadget_outputs(typ, x, seq![r]).take(n as int), 1) == r * eval(
            entry_checks(typ, x).take((n * typ.chunk_len_spec()) as int),
            r,
        ),
    decreases n,
{
    let c = typ.chunk_len_spec() as int;
    let h = entry_checks(typ, x);
    let g = gadget_outputs(typ, x, seq![r]);
    if n == 0 {
        assert(0 * c == 0) by (nonlinear_arith);
        assert(g.take(0) =~= Seq::<int>::empty() && h.take(0) =~= Seq::<int>::empty());
        assert(r * 0 == 0) by (nonlinear_arith);
    } else {
        let k = n - 1;
        lemma_output_sum(typ, x, r, k as nat);
        assert(g.take(n as int) =~= g.take(k).push(g[k]));
        lemma_eval_push(g.take(k), g[k], 1);
        lemma_pow_one(k as nat);
        let inp = Seq::new(2 * typ.chunk_len_spec(), |a: int| typ.wire(x, seq![r], 1, k, a));
        typ.gadget.lemma_parallel_sum(inp);
        let ar = typ.gadget.inner_spec().arity_spec();
        assert(c * ar == 2 * c) by (nonlinear_arith)
            requires
                ar == 2,
        ;
        assert(call_inputs(typ, x, seq![r], 1, k) =~= inp);
        lemma_chunk_sum(typ, x, r, k, c as nat, inp);
        assert(k * c + c == n * c) by (nonlinear_arith)
            requires
                k == n - 1,
        ;
        assert(g[k] * 1 == g[k]) by (nonlinear_arith);
    }
}

/// If an entry of the input is neither zero nor one, the circuit accepts it for no more values of
/// the joint randomness than the chunks have entries.
pub proof fn law_count_vec_sound<F: FieldElement, S: ParallelSumGadget<F, BlindPolyEval<F>>>(
    typ: &CountVec<F, S>,
    x: Seq<int>,
    k: int,
    rs: Set<int>,
)
    requires
        typ.wf(),
        x.len() == typ.input_len_spec(),
        0 <= k < x.len(),
        !is_bit(x[k], F::modulus()),
        rs.finite(),
        forall|r: int| #[trigger]
            rs.contains(r) ==> 0 <= r < F::modulus() && cong(
                typ.circuit(x, gadget_outputs(typ, x, seq![r]), seq![r], 1),
                0,
                F::modulus(),
            ),
    ensures
        rs.len() <= typ.calls_spec() * typ.chunk_len_spec(),
{
    F::lemma_field();
    lemma_prime::<F>();
    let p = F::modulus();
    let h = entry_checks(typ, x);
    let c = seq![0int] + h;
    let (n, len) = (typ.chunk_len_spec() as int, typ.len_spec() as int);
    let total = len + n - 1;
    lemma_fundamental_div_mod(total, n);
    lemma_mod_bound(total, n);
    assert(typ.calls_spec() * n >= len) by (nonlinear_arith)
        requires
            total == n * typ.calls_spec() + total % n,
            total % n < n,
            total == len + n - 1,
    ;
    lemma_range_check_sound(x[k], p);
    assert(c[k + 1] == eval(range_check_coefficients(p), x[k]));
    assert(!cong(c[k + 1], 0, p));
    assert forall|r: int| #[trigger] rs.contains(r) implies 0 <= r < p && cong(
        eval(c, r),
        0,
        p,
    ) by {
        lemma_output_sum(typ, x, r, typ.calls_spec());
        let g = gadget_outputs(typ, x, seq![r]);
        assert(g.take(g.len() as int) =~= g);
        assert(h.take(h.len() as int) =~= h);
        assert(c.drop_first() =~= h);
    }
    lemma_root_count(c, p, rs);
}

/// A vector can be counted exactly if it has the length of the type and consists of zeros and
/// ones; it is encoded as itself, and adds itself to the counts.
pub proof fn law_count_vec_encoding<F: FieldElement, S: ParallelSumGadget<F, BlindPolyEval<F>>>(
    typ: &CountVec<F, S>,
    m: Vec<F::Integer>,
)
    ensures
        typ.input_len_spec() == typ.len_spec(),
        typ.output_len_spec() == typ.len_spec(),
        typ.encode_spec(m) is Some <==> m@.len() == typ.len_spec() && forall|i: int|
            0 <= i < m@.len() ==> F::integer_val(#[trigger] m@[i]) == 0 || F::integer_val(m@[i])
                == 1,
        typ.encode_spec(m) matches Some(x) ==> x.len() == typ.len_spec() && typ.truncate_spec(x)
            == x && forall|i: int|
            0 <= i < x.len() ==> #[trigger] x[i] == F::integer_val(m@[i]),
        typ.contribution(m).len() == m@.len(),
        forall|i: int|
            0 <= i < m@.len() ==> #[trigger] typ.contribution(m)[i] == F::integer_val(m@[i]),
{
    let x = integer_vals::<F>(m@);
    assert forall|i: int| 0 <= i < m@.len() implies F::integer_val(#[trigger] m@[i])
        == x[i] by {}
    if all_bits(x) {
        assert forall|i: int| 0 <= i < m@.len() implies F::integer_val(#[trigger] m@[i]) == 0
            || F::integer_val(m@[i]) == 1 by {
            assert(x[i] == 0 || x[i] == 1);
        }
    }
    if forall|i: int|
        0 <= i < m@.len() ==> F::integer_val(#[trigger] m@[i]) == 0 || F::integer_val(m@[i]) == 1 {
        assert forall|i: int| 0 <= i < x.len() implies #[trigger] x[i] == 0 || x[i] == 1 by {
            assert(F::integer_val(m@[i]) == 0 || F::integer_val(m@[i]) == 1);
        }
    }
}

/// The entries of a vector are checked in chunks, as long as the square root of its length, rounded
/// down, but at least one long. The last entry fills up the last chunk.
///
/// The inputs of a gadget call come in pairs, of an entry of its chunk and the power of the joint
/// randomness that belongs to the entry; the circuit adds up what the calls give.
pub proof fn law_count_vec_circuit<F: FieldElement, S: ParallelSumGadget<F, BlindPolyEval<F>>>(
    typ: &CountVec<F, S>,
    x: Seq<int>,
    g: Seq<int>,
    jr: Seq<int>,
    s: int,
)
    requires
        typ.wf(),
    ensures
        ({
            let c = typ.chunk_len_spec() as int;
            let n = typ.len_spec() as int;
            &&& typ.joint_rand_len_spec() == 1
            &&& c >= 1
            &&& c * c <= n || c == 1
            &&& n < (c + 1) * (c + 1)
            &&& (typ.calls_spec() - 1) * c < n <= typ.calls_spec() * c || n == 0
                && typ.calls_spec() == 0
            &&& typ.gadget_spec().arity_spec() == 2 * c
            &&& typ.gadget_spec().degree_spec() == 3
            &&& forall|k: int, j: int|
                0 <= k < typ.calls_spec() && 0 <= j < c ==> #[trigger] typ.wire(x, jr, s, k, 2 * j)
                    == x[if k * c + j < n {
                    k * c + j
                } else {
                    n - 1
                }]
            &&& forall|k: int, j: int|
                0 <= k < typ.calls_spec() && 0 <= j < c ==> #[trigger] typ.wire(
                    x,
                    jr,
                    s,
                    k,
                    2 * j + 1,
                ) == s * pow(jr[0], (k * c + j + 1) as nat)
            &&& typ.circuit(x, g, jr, s) == total(g)
        }),
{
    let c = typ.chunk_len_spec() as int;
    let n = typ.len_spec() as int;
    typ.gadget.lemma_parallel_sum(Seq::empty());
    let inner = typ.gadget.inner_spec();
    assert(inner.poly@.len() == 3) by {
        assert(vals(inner.poly@).len() == 3);
    }
    let ar = inner.arity_spec();
    assert(c * ar == 2 * c) by (nonlinear_arith)
        requires
            ar == 2,
    ;
    let q = typ.calls_spec() as int;
    lemma_num_chunks(n, c);
    lemma_fundamental_div_mod(n + c - 1, c);
    lemma_mod_bound(n + c - 1, c);
    let r = (n + c - 1) % c;
    assert(q == (n + c - 1) / c);
    assert((q - 1) * c == c * q - c && q * c == c * q) by (nonlinear_arith);
    law_eval(g, 1);
    let terms = Seq::new(g.len(), |k: int| g[k] * pow(1, k as nat));
    assert forall|k: int| 0 <= k < g.len() implies #[trigger] terms[k] == g[k] by {
        lemma_pow_one(k as nat);
    }
    assert(terms =~= g);
}

proof fn lemma_pair_sums<F: FieldElement>(inner: BlindPolyEval<F>, k: nat, inp: Seq<int>)
    requires
        vals(inner.poly@) == range_check_coefficients(F::modulus()),
        2 * k <= inp.len(),
    ensures
        cong(
            sum_calls::<F, BlindPolyEval<F>>(inner, k, inp),
            total(
                Seq::new(
                    k,
                    |j: int| inp[2 * j + 1] * (inp[2 * j] * inp[2 * j] - inp[2 * j]),
                ),
            ),
            F::modulus(),
        ),
    decreases k,
{
    F::lemma_field();
    let p = F::modulus();
    let terms = Seq::new(k, |j: int| inp[2 * j + 1] * (inp[2 * j] * inp[2 * j] - inp[2 * j]));
    if k > 0 {
        let m = (k - 1) as nat;
        lemma_pair_sums::<F>(inner, m, inp);
        assert(terms.drop_last() =~= Seq::new(
            m,
            |j: int| inp[2 * j + 1] * (inp[2 * j] * inp[2 * j] - inp[2 * j]),
        ));
        let part = chunk(inp, inner.arity_spec(), m as int);
        let i = 2 * (m as int);
        let (y, z) = (inp[i], inp[i + 1]);
        assert(part[0] == y && part[1] == z);
        let e = eval(range_check_coefficients(p), y);
        law_range_check::<F>(PolyEval { poly: inner.poly }, y);
        assert(cong(e, y * y - y, p));
        lemma_cong_mul(z, z, e, y * y - y, p);
        assert(inner.call_spec(part) == z * e);
        assert(terms.last() == z * (y * y - y));
        lemma_cong_add(
            sum_calls::<F, BlindPolyEval<F>>(inner, m, inp),
            total(terms.drop_last()),
            inner.call_spec(part),
            terms.last(),
            p,
        );
    }
}

/// A gadget call for a chunk adds up `y^2 - y` over the entries `y` of the chunk, each times the
/// weight that is paired with it.
pub proof fn law_count_vec_gadget<F: FieldElement, S: ParallelSumGadget<F, BlindPolyEval<F>>>(
    typ: &CountVec<F, S>,
    inp: Seq<int>,
)
    requires
        typ.wf(),
        inp.len() == 2 * typ.chunk_len_spec(),
    ensures
        cong(
            typ.gadget_spec().call_spec(inp),
            total(
                Seq::new(
                    typ.chunk_len_spec(),
                    |j: int| inp[2 * j + 1] * (inp[2 * j] * inp[2 * j] - inp[2 * j]),
                ),
            ),
            F::modulus(),
        ),
{
    typ.gadget.lemma_parallel_sum(inp);
    lemma_pair_sums::<F>(typ.gadget.inner_spec(), typ.chunk_len_spec(), inp);
}

} // verus!

//! Pseudorandom field elements.
use vstd::prelude::*;

verus! {

use vstd::arithmetic::div_mod::{lemma_fundamental_div_mod, lemma_mod_bound};
use vstd::arithmetic::power::pow;
use crate::bytes::{
    law_le_bytes, law_le_value, le_bytes, le_value, lemma_le_bytes_len, lemma_le_value_bound,
    lemma_le_value_of_bytes,
};
use crate::field::{decode_element, vals, FieldElement};
use crate::vdaf::prg::SeedStream;

/// An error of the generator of field elements.
#[derive(Clone, Copy, Debug, PartialEq, Eq)]
pub enum PrngError {
    /// The stream of bytes has come to its end.
    Exhausted,
}

/// The number in the `k`-th run of `size` bytes of a stream.
pub open spec fn chunk_value(stream: spec_fn(int) -> u8, size: nat, k: int) -> int {
    le_value(Seq::new(size, |i: int| stream(k * size + i)))
}

/// The first `n` numbers below `p` among the runs from the `k`-th on, or `None` if there are not
/// so many before the run with the number `limit`.
pub open spec fn sample(
    stream: spec_fn(int) -> u8,
    size: nat,
    p: int,
    k: nat,
    limit: nat,
    n: nat,
) -> Option<Seq<int>>
    decreases limit - k,
{
    if n == 0 {
        Some(Seq::empty())
    } else if k >= limit {
        None
    } else {
        let v = chunk_value(stream, size, k as int);
        if v >= p {
            sample(stream, size, p, k + 1, limit, n)
        } else {
            match sample(stream, size, p, k + 1, limit, (n - 1) as nat) {
                Some(rest) => Some(seq![v] + rest),
                None => None,
            }
        }
    }
}

/// The samples are representatives.
pub proof fn lemma_sample(
    stream: spec_fn(int) -> u8,
    size: nat,
    p: int,
    k: nat,
    limit: nat,
    n: nat,
)
    ensures
        sample(stream, size, p, k, limit, n) matches Some(s) ==> s.len() == n && forall|i: int|
            0 <= i < n ==> 0 <= #[trigger] s[i] < p,
    decreases limit - k,
{
    if n > 0 && k < limit {
        let v = chunk_value(stream, size, k as int);
        lemma_le_value_bound(Seq::new(size, |i: int| stream(k as int * size + i)));
        if v >= p {
            lemma_sample(stream, size, p, k + 1, limit, n);
        } else {
            lemma_sample(stream, size, p, k + 1, limit, (n - 1) as nat);
        }
    }
}

/// A generator of pseudorandom field elements.
///
/// The elements are the numbers in consecutive runs of the bytes of a stream, each as long as
/// an encoded element, without those that are not below the modulus.
#[derive(Debug)]
pub struct Prng<F: FieldElement, S: SeedStream> {
    stream: S,
    phantom: core::marker::PhantomData<F>,
}

impl<F: FieldElement, S: SeedStream> Prng<F, S> {
    /// The stream.
    pub closed spec fn stream_spec(&self) -> S {
        self.stream
    }

    /// The generator that reads from a stream.
    pub fn from_seed_stream(stream: S) -> (r: Self)
        ensures
            r.stream_spec() == stream,
    {
        Prng { stream, phantom: core::marker::PhantomData }
    }

    /// The first `n` elements.
    pub fn take(self, n: usize) -> (r: Result<Vec<F>, PrngError>)
        requires
            self.stream_spec().position() == 0,
        ensures
            match sample(
                |i: int| self.stream_spec().byte(i),
                F::encoded_size_spec(),
                F::modulus(),
                0,
                u64::MAX as nat / F::encoded_size_spec(),
                n as nat,
            ) {
                Some(s) => r matches Ok(v) && vals(v@) == s,
                None => r == Err::<Vec<F>, PrngError>(PrngError::Exhausted),
            },
    {
        let ghost stream = |i: int| self.stream_spec().byte(i);
        let ghost (size, p) = (F::encoded_size_spec(), F::modulus());
        let ghost limit = u64::MAX as nat / size;
        let ghost all = sample(stream, size, p, 0, limit, n as nat);
        let ghost mut k: nat = 0;
        let mut source = self.stream;
        let step: usize = F::encoded_size();
        let mut out: Vec<F> = Vec::new();
        proof {
            F::lemma_field();
            lemma_fundamental_div_mod(u64::MAX as int, size as int);
            lemma_mod_bound(u64::MAX as int, size as int);
            assert(vals(out@) =~= Seq::<int>::empty());
            if let Some(rest) = all {
                assert(Seq::<int>::empty() + rest =~= rest);
            }
            assert(0 * size == 0) by (nonlinear_arith);
        }
        while out.len() < n
            invariant
                out@.len() <= n,
                size == F::encoded_size_spec(),
                p == F::modulus(),
                step == size,
                0 < size <= 16,
                k <= limit,
                size * limit <= u64::MAX < size * limit + size,
                source.position() == k * size,
                forall|i: int| #[trigger] source.byte(i) == stream(i),
                all == (match sample(stream, size, p, k, limit, (n - out@.len()) as nat) {
                    Some(rest) => Some(vals(out@) + rest),
                    None => None,
                }),
                all == sample(
                    |i: int| self.stream_spec().byte(i),
                    F::encoded_size_spec(),
                    F::modulus(),
                    0,
                    u64::MAX as nat / F::encoded_size_spec(),
                    n as nat,
                ),
            decreases limit - k,
        {
            if source.remaining() < step as u64 {
                proof {
                    assert(k >= limit) by (nonlinear_arith)
                        requires
                            u64::MAX - k * size < size,
                            size * limit <= u64::MAX,
                            size > 0,
                    ;
                }
                return Err(PrngError::Exhausted);
            }
            proof {
                assert(k < limit) by (nonlinear_arith)
                    requires
                        u64::MAX - k * size >= size,
                        u64::MAX < size * limit + size,
                        size > 0,
                ;
                assert((k + 1) * size == k * size + size) by (nonlinear_arith);
            }
            let ghost before = source;
            let bytes = source.fill(step);
            let ghost sofar = vals(out@);
            let ghost left = (n - out@.len()) as nat;
            proof {
                assert(bytes@ =~= Seq::new(size, |i: int| stream(k as int * size + i)));
                assert forall|i: int| #[trigger] source.byte(i) == stream(i) by {
                    assert(source.byte(i) == before.byte(i));
                }
            }
            let next: Option<F> = decode_element(bytes.as_slice());
            if let Some(x) = next {
                out.push(x);
                proof {
                    assert(vals(out@) =~= sofar.push(x.val()));
                    if let Some(rest) = sample(stream, size, p, k + 1, limit, (left - 1) as nat) {
                        assert(sofar + (seq![x.val()] + rest) =~= vals(out@) + rest);
                    }
                }
            }
            proof {
                k = k + 1;
            }
        }
        assert(vals(out@) + Seq::<int>::empty() =~= vals(out@));
        Ok(out)
    }
}

/// The number in the `k`-th run of `size` bytes of a stream, the least significant byte first, is
/// `v`.
pub open spec fn run_is(stream: spec_fn(int) -> u8, size: nat, k: int, v: int) -> bool {
    &&& 0 <= v < pow(256, size)
    &&& forall|i: int|
        0 <= i < size ==> (v / pow(256, i as nat)) % 256 == #[trigger] stream(k * size + i) as int
}

/// The runs of a stream at these places hold numbers below `p`; the places increase, and are
/// from `from` on and below `limit`.
pub open spec fn places_below(
    stream: spec_fn(int) -> u8,
    size: nat,
    p: int,
    from: int,
    limit: int,
    places: Seq<int>,
) -> bool {
    &&& forall|i: int, j: int| 0 <= i < j < places.len() ==> places[i] < places[j]
    &&& forall|i: int|
        0 <= i < places.len() ==> from <= #[trigger] places[i] < limit && exists|v: int|
            v < p && #[trigger] run_is(stream, size, places[i], v)
}

/// The numbers `s` stand in the runs at these places, and every run before the last of them that
/// is left out holds a number that is not below `p`.
pub open spec fn picked(
    stream: spec_fn(int) -> u8,
    size: nat,
    p: int,
    from: int,
    places: Seq<int>,
    s: Seq<int>,
) -> bool {
    &&& places.len() == s.len()
    &&& forall|i: int| 0 <= i < s.len() ==> run_is(stream, size, places[i], #[trigger] s[i])
    &&& forall|k: int, v: int|
        places.len() > 0 && from <= k < places.last() && !places.contains(k) && #[trigger] run_is(
            stream,
            size,
            k,
            v,
        ) ==> v >= p
}

/// The number in a run is determined by the bytes.
proof fn lemma_run_is(stream: spec_fn(int) -> u8, size: nat, k: int)
    ensures
        run_is(stream, size, k, chunk_value(stream, size, k)),
        forall|v: int| #[trigger] run_is(stream, size, k, v) ==> v == chunk_value(stream, size, k),
{
    let b = Seq::new(size, |i: int| stream(k * size + i));
    law_le_value(b);
    assert forall|i: int| 0 <= i < size implies (le_value(b) / pow(256, i as nat)) % 256
        == #[trigger] stream(k * size + i) as int by {
        assert(b[i] == stream(k * size + i));
    }
    assert forall|v: int| #[trigger] run_is(stream, size, k, v) implies v == chunk_value(
        stream,
        size,
        k,
    ) by {
        let c = le_bytes(v, size);
        lemma_le_bytes_len(v, size);
        assert forall|i: int| 0 <= i < size implies c[i] == #[trigger] b[i] by {
            law_le_bytes(v, size, i);
            assert((v / pow(256, i as nat)) % 256 == stream(k * size + i) as int);
        }
        assert(c =~= b);
        lemma_le_value_of_bytes(v, size);
    }
}

/// Sampling takes the first numbers below `p` and skips no other: the samples stand in runs at
/// increasing places, and each run in between holds a number that is not below `p`. Sampling
/// fails exactly if fewer than `n` of the runs hold a number below `p`.
pub proof fn law_sample(
    stream: spec_fn(int) -> u8,
    size: nat,
    p: int,
    k: nat,
    limit: nat,
    n: nat,
)
    ensures
        match sample(stream, size, p, k, limit, n) {
            Some(s) => s.len() == n && exists|places: Seq<int>|
                places_below(stream, size, p, k as int, limit as int, places) && #[trigger] picked(
                    stream,
                    size,
                    p,
                    k as int,
                    places,
                    s,
                ),
            None => forall|places: Seq<int>| #[trigger]
                places_below(stream, size, p, k as int, limit as int, places) ==> places.len() < n,
        },
    decreases limit - k,
{
    let (lo, hi) = (k as int, limit as int);
    if n == 0 {
        let places = Seq::<int>::empty();
        assert(places_below(stream, size, p, lo, hi, places));
        assert(picked(stream, size, p, lo, places, Seq::empty()));
    } else if k >= limit {
        assert forall|places: Seq<int>| #[trigger]
            places_below(stream, size, p, lo, hi, places) implies places.len() < n by {
            if places.len() > 0 {
                assert(lo <= places[0] < hi);
            }
        }
    } else {
        lemma_run_is(stream, size, lo);
        let v = chunk_value(stream, size, lo);
        if v >= p {
            law_sample(stream, size, p, k + 1, limit, n);
            match sample(stream, size, p, k + 1, limit, n) {
                Some(s) => {
                    let places = choose|places: Seq<int>|
                        places_below(stream, size, p, lo + 1, hi, places) && #[trigger] picked(
                            stream,
                            size,
                            p,
                            lo + 1,
                            places,
                            s,
                        );
                    assert(places_below(stream, size, p, lo, hi, places)) by {
                        assert forall|i: int| 0 <= i < places.len() implies lo
                            <= #[trigger] places[i] < hi by {}
                    }
                    assert(picked(stream, size, p, lo, places, s));
                },
                None => {
                    assert forall|places: Seq<int>| #[trigger]
                        places_below(stream, size, p, lo, hi, places) implies places.len() < n by {
                        assert forall|i: int| 0 <= i < places.len() implies lo + 1
                            <= #[trigger] places[i] < hi by {
                            if places[i] == lo {
                                let w = choose|w: int|
                                    w < p && #[trigger] run_is(stream, size, places[i], w);
                                assert(run_is(stream, size, lo, w));
                            }
                        }
                        assert(places_below(stream, size, p, lo + 1, hi, places));
                    }
                },
            }
        } else {
            let m = (n - 1) as nat;
            law_sample(stream, size, p, k + 1, limit, m);
            match sample(stream, size, p, k + 1, limit, m) {
                Some(rest) => {
                    let later = choose|places: Seq<int>|
                        places_below(stream, size, p, lo + 1, hi, places) && #[trigger] picked(
                            stream,
                            size,
                            p,
                            lo + 1,
                            places,
                            rest,
                        );
                    let places = seq![lo] + later;
                    let s = seq![v] + rest;
                    assert forall|i: int, j: int| 0 <= i < j < places.len() implies places[i]
                        < places[j] by {
                        assert(places[j] == later[j - 1]);
                        if i > 0 {
                            assert(places[i] == later[i - 1]);
                        }
                    }
                    assert forall|i: int| 0 <= i < places.len() implies lo <= #[trigger] places[i]
                        < hi && exists|w: int| w < p && #[trigger] run_is(
                        stream,
                        size,
                        places[i],
                        w,
                    ) by {
                        if i > 0 {
                            assert(places[i] == later[i - 1]);
                        } else {
                            assert(run_is(stream, size, places[0], v));
                        }
                    }
                    assert forall|i: int| 0 <= i < s.len() implies run_is(
                        stream,
                        size,
                        places[i],
                        #[trigger] s[i],
                    ) by {
                        if i > 0 {
                            assert(s[i] == rest[i - 1]);
                            assert(places[i] == later[i - 1]);
                        }
                    }
                    assert forall|q: int, w: int|
                        places.len() > 0 && lo <= q < places.last() && !places.contains(q)
                            && #[trigger] run_is(stream, size, q, w) implies w >= p by {
                        assert(places[0] == lo);
                        assert(q != lo);
                        assert(later.len() > 0);
                        assert(places.last() == later.last());
                        assert(!later.contains(q)) by {
                            if later.contains(q) {
                                let i = later.index_of(q);
                                assert(places[i + 1] == q);
                            }
                        }
                    }
                    assert(places_below(stream, size, p, lo, hi, places));
                    assert(picked(stream, size, p, lo, places, s));
                },
                None => {
                    assert forall|places: Seq<int>| #[trigger]
                        places_below(stream, size, p, lo, hi, places) implies places.len() < n by {
                        if places.len() > 0 {
                            let later = places.drop_first();
                            assert forall|i: int, j: int|
                                0 <= i < j < later.len() implies later[i] < later[j] by {
                                assert(places[i + 1] < places[j + 1]);
                            }
                            assert forall|i: int| 0 <= i < later.len() implies lo + 1
                                <= #[trigger] later[i] < hi && exists|w: int|
                                w < p && #[trigger] run_is(stream, size, later[i], w) by {
                                assert(later[i] == places[i + 1]);
                                assert(places[0] < places[i + 1]);
                            }
                            assert(places_below(stream, size, p, lo + 1, hi, later));
                        }
                    }
                },
            }
        }
    }
}

} // verus!

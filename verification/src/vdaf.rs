//! Verifiable distributed aggregation functions.
use vstd::prelude::*;

pub mod prg;
pub mod prio3;

verus! {

use vstd::string::StringSliceAdditionalSpecFns;
use crate::arith::{lincomb, reduced};
use vstd::arithmetic::power::pow;
use crate::codec::{
    law_parse_bytes, parse_bytes, parse_elements, read_elements, write_elements, CodecError, Cursor,
    Parsed,
};
use crate::field::{encode_vals, law_encode_vals, vals, FieldElement};
use crate::pcp::PcpError;
use crate::prng::{
    law_sample, lemma_sample, picked, places_below, sample, Prng, PrngError,
};
use crate::text::{decimal, law_decimal, message, with_number, with_text, writes};
use self::prg::{Prg, Seed, SeedStream};

/// An error of an aggregation function.
#[derive(Clone, Debug, PartialEq, Eq)]
pub enum VdafError {
    /// An error with a message.
    Uncategorized(String),
    /// An error of the proof system.
    Pcp(PcpError),
    /// An error of the generator of field elements.
    Prng(PrngError),
    /// The system could not supply random bytes.
    GetRandom,
}

/// What an error tells.
#[verifier::ext_equal]
pub enum ErrorView {
    /// A message.
    Uncategorized(Seq<char>),
    /// An error of the proof system.
    Pcp(PcpError),
    /// An error of the generator of field elements.
    Prng(PrngError),
    /// The system could not supply random bytes.
    GetRandom,
}

impl View for VdafError {
    type V = ErrorView;

    open spec fn view(&self) -> ErrorView {
        match self {
            VdafError::Uncategorized(message) => ErrorView::Uncategorized(message@),
            VdafError::Pcp(e) => ErrorView::Pcp(*e),
            VdafError::Prng(e) => ErrorView::Prng(*e),
            VdafError::GetRandom => ErrorView::GetRandom,
        }
    }
}

/// A share of a vector of field elements: the vector itself, or a seed that it is expanded from.
#[derive(Debug, PartialEq, Eq)]
pub enum Share<F, const L: usize> {
    /// The share of the leader.
    Leader(Vec<F>),
    /// The share of a helper.
    Helper(Seed<L>),
}

/// What a share consists of.
#[verifier::ext_equal]
pub enum ShareView {
    /// The representatives of the elements.
    Leader(Seq<int>),
    /// The bytes of the seed.
    Helper(Seq<u8>),
}

impl<F: FieldElement, const L: usize> View for Share<F, L> {
    type V = ShareView;

    open spec fn view(&self) -> ShareView {
        match self {
            Share::Leader(data) => ShareView::Leader(vals(data@)),
            Share::Helper(seed) => ShareView::Helper(seed@),
        }
    }
}

impl<F: FieldElement, const L: usize> Clone for Share<F, L> {
    fn clone(&self) -> (r: Self)
        ensures
            r@ == self@,
    {
        match self {
            Share::Leader(data) => Share::Leader(vstd::slice::slice_to_vec(data.as_slice())),
            Share::Helper(seed) => Share::Helper(*seed),
        }
    }
}

/// What has to be known about a share to decode it.
#[derive(Clone, Copy, Debug, PartialEq, Eq)]
pub enum ShareDecodingParameter {
    /// The share is the leader's, with so many elements.
    Leader(usize),
    /// The share is a helper's.
    Helper,
}

/// The encoding of a share.
pub open spec fn encode_share(share: ShareView, size: nat) -> Seq<u8> {
    match share {
        ShareView::Leader(data) => encode_vals(data, size),
        ShareView::Helper(seed) => seed,
    }
}

/// Reads a share.
pub open spec fn parse_share(
    b: Seq<u8>,
    parameter: ShareDecodingParameter,
    seed_len: nat,
    size: nat,
    p: int,
) -> Parsed<ShareView> {
    match parameter {
        ShareDecodingParameter::Leader(n) => match parse_elements(b, n as nat, size, p) {
            Ok((data, rest)) => Ok((ShareView::Leader(data), rest)),
            Err(e) => Err(e),
        },
        ShareDecodingParameter::Helper => match parse_bytes(b, seed_len) {
            Ok((seed, rest)) => Ok((ShareView::Helper(seed), rest)),
            Err(e) => Err(e),
        },
    }
}

/// Reads a seed.
pub fn read_seed<const L: usize>(cursor: &mut Cursor) -> (r: Result<Seed<L>, CodecError>)
    ensures
        match parse_bytes(old(cursor)@, L as nat) {
            Ok((seed, rest)) => r matches Ok(s) && s@ == seed && final(cursor)@ == rest,
            Err(e) => r == Err::<Seed<L>, CodecError>(e),
        },
{
    match cursor.read(L) {
        Ok(bytes) => Ok(Seed::from_bytes(bytes)),
        Err(e) => Err(e),
    }
}

impl<F: FieldElement, const L: usize> Share<F, L> {
    /// Appends the encoding to a message.
    pub fn encode(&self, bytes: &mut Vec<u8>)
        ensures
            final(bytes)@ == old(bytes)@ + encode_share(self@, F::encoded_size_spec()),
    {
        match self {
            Share::Leader(data) => write_elements(data.as_slice(), bytes),
            Share::Helper(seed) => seed.encode(bytes),
        }
    }

    /// Reads a share from a message.
    pub fn decode_with_param(parameter: &ShareDecodingParameter, cursor: &mut Cursor) -> (r: Result<
        Self,
        CodecError,
    >)
        ensures
            match parse_share(
                old(cursor)@,
                *parameter,
                L as nat,
                F::encoded_size_spec(),
                F::modulus(),
            ) {
                Ok((share, rest)) => r matches Ok(s) && s@ == share && final(cursor)@ == rest,
                Err(e) => r == Err::<Self, CodecError>(e),
            },
    {
        match parameter {
            ShareDecodingParameter::Leader(n) => match read_elements(*n, cursor) {
                Ok(data) => Ok(Share::Leader(data)),
                Err(e) => Err(e),
            },
            ShareDecodingParameter::Helper => match read_seed(cursor) {
                Ok(seed) => Ok(Share::Helper(seed)),
                Err(e) => Err(e),
            },
        }
    }
}

/// The field elements that a seed is expanded to, or `None` if the stream of the seed ends
/// before there are enough of them.
pub open spec fn expand<F: FieldElement, P: Prg<L>, const L: usize>(
    seed: Seq<u8>,
    info: Seq<u8>,
    n: nat,
) -> Option<Seq<int>> {
    sample(
        |i: int| P::stream_byte(seed, info, i),
        F::encoded_size_spec(),
        F::modulus(),
        0,
        u64::MAX as nat / F::encoded_size_spec(),
        n,
    )
}

/// What a seed is expanded to has the length that was asked for, and consists of representatives.
pub proof fn lemma_expand<F: FieldElement, P: Prg<L>, const L: usize>(
    seed: Seq<u8>,
    info: Seq<u8>,
    n: nat,
)
    ensures
        expand::<F, P, L>(seed, info, n) matches Some(s) ==> s.len() == n && forall|i: int|
            0 <= i < n ==> 0 <= #[trigger] s[i] < F::modulus(),
{
    lemma_sample(
        |i: int| P::stream_byte(seed, info, i),
        F::encoded_size_spec(),
        F::modulus(),
        0,
        u64::MAX as nat / F::encoded_size_spec(),
        n,
    );
}

/// Expands a seed to field elements.
pub fn expand_seed<F: FieldElement, P: Prg<L>, const L: usize>(
    seed: &Seed<L>,
    info: &str,
    n: usize,
) -> (r: Result<Vec<F>, VdafError>)
    ensures
        match expand::<F, P, L>(seed@, info.spec_bytes(), n as nat) {
            Some(s) => r matches Ok(v) && vals(v@) == s,
            None => r == Err::<Vec<F>, VdafError>(VdafError::Prng(PrngError::Exhausted)),
        },
{
    let stream = P::seed_stream(seed, info.as_bytes());
    let prng: Prng<F, P::SeedStream> = Prng::from_seed_stream(stream);
    proof {
        let f = |i: int| prng.stream_spec().byte(i);
        let g = |i: int| P::stream_byte(seed@, info.spec_bytes(), i);
        assert(f =~= g);
    }
    match prng.take(n) {
        Ok(v) => Ok(v),
        Err(e) => Err(VdafError::Prng(e)),
    }
}

/// Adds a vector, element by element.
pub fn add_elements<F: FieldElement>(x: &mut Vec<F>, y: &[F])
    requires
        old(x)@.len() == y@.len(),
    ensures
        final(x)@.len() == old(x)@.len(),
        vals(final(x)@) == reduced(lincomb(1, vals(old(x)@), 1, vals(y@)), F::modulus()),
{
    let ghost start = x@;
    let mut i: usize = 0;
    while i < y.len()
        invariant
            i <= y@.len(),
            x@.len() == y@.len(),
            start.len() == y@.len(),
            forall|j: int| i <= j < y@.len() ==> #[trigger] x@[j] == start[j],
            forall|j: int|
                0 <= j < i ==> #[trigger] x@[j].val() == (start[j].val() + y@[j].val())
                    % F::modulus(),
        decreases y@.len() - i,
    {
        let sum = x[i].add(&y[i]);
        x[i] = sum;
        i += 1;
    }
    assert(vals(x@) =~= reduced(lincomb(1, vals(start), 1, vals(y@)), F::modulus()));
}

/// Subtracts a vector, element by element.
pub fn subtract_elements<F: FieldElement>(x: &mut Vec<F>, y: &[F])
    requires
        old(x)@.len() == y@.len(),
    ensures
        final(x)@.len() == old(x)@.len(),
        vals(final(x)@) == reduced(lincomb(1, vals(old(x)@), -1, vals(y@)), F::modulus()),
{
    let ghost start = x@;
    let mut i: usize = 0;
    while i < y.len()
        invariant
            i <= y@.len(),
            x@.len() == y@.len(),
            start.len() == y@.len(),
            forall|j: int| i <= j < y@.len() ==> #[trigger] x@[j] == start[j],
            forall|j: int|
                0 <= j < i ==> #[trigger] x@[j].val() == (start[j].val() - y@[j].val())
                    % F::modulus(),
        decreases y@.len() - i,
    {
        let difference = x[i].sub(&y[i]);
        x[i] = difference;
        i += 1;
    }
    assert(vals(x@) =~= reduced(lincomb(1, vals(start), -1, vals(y@)), F::modulus()));
}

/// An aggregator's share of the output of one measurement.
#[derive(Debug, PartialEq, Eq)]
pub struct OutputShare<F>(pub Vec<F>);

impl<F: FieldElement> Clone for OutputShare<F> {
    fn clone(&self) -> (r: Self)
        ensures
            r.0@ == self.0@,
    {
        OutputShare(vstd::slice::slice_to_vec(self.0.as_slice()))
    }
}

/// An aggregator's share of the aggregate.
#[derive(Debug, PartialEq, Eq)]
pub struct AggregateShare<F>(pub Vec<F>);

impl<F: FieldElement> Clone for AggregateShare<F> {
    fn clone(&self) -> (r: Self)
        ensures
            r.0@ == self.0@,
    {
        AggregateShare(vstd::slice::slice_to_vec(self.0.as_slice()))
    }
}

/// The error for vectors of different lengths.
pub open spec fn length_mismatch(left: nat, right: nat) -> ErrorView {
    ErrorView::Uncategorized(
        "cannot sum shares of different lengths (left = "@ + decimal(left) + ", right = "@
            + decimal(right) + ")"@,
    )
}

impl<F: FieldElement> AggregateShare<F> {
    /// Adds a vector, element by element.
    fn sum(&mut self, other: &[F]) -> (r: Result<(), VdafError>)
        ensures
            old(self).0@.len() == other@.len() ==> r is Ok && vals(final(self).0@) == reduced(
                lincomb(1, vals(old(self).0@), 1, vals(other@)),
                F::modulus(),
            ),
            old(self).0@.len() != other@.len() ==> final(self).0@ == old(self).0@ && (
            r matches Err(e) && e@ == length_mismatch(old(self).0@.len(), other@.len())),
    {
        if self.0.len() != other.len() {
            return Err(
                VdafError::Uncategorized(
                    with_text(
                        with_number(
                            with_text(
                                with_number(
                                    message("cannot sum shares of different lengths (left = "),
                                    self.0.len(),
                                ),
                                ", right = ",
                            ),
                            other.len(),
                        ),
                        ")",
                    ),
                ),
            );
        }
        add_elements(&mut self.0, other);
        Ok(())
    }

    /// Adds an output share.
    pub fn accumulate(&mut self, output_share: &OutputShare<F>) -> (r: Result<(), VdafError>)
        ensures
            old(self).0@.len() == output_share.0@.len() ==> r is Ok && vals(final(self).0@)
                == reduced(lincomb(1, vals(old(self).0@), 1, vals(output_share.0@)), F::modulus()),
            old(self).0@.len() != output_share.0@.len() ==> final(self).0@ == old(self).0@ && (
            r matches Err(e) && e@ == length_mismatch(
                old(self).0@.len(),
                output_share.0@.len(),
            )),
    {
        self.sum(output_share.0.as_slice())
    }

    /// Adds an aggregate share.
    pub fn merge(&mut self, agg_share: &AggregateShare<F>) -> (r: Result<(), VdafError>)
        ensures
            old(self).0@.len() == agg_share.0@.len() ==> r is Ok && vals(final(self).0@) == reduced(
                lincomb(1, vals(old(self).0@), 1, vals(agg_share.0@)),
                F::modulus(),
            ),
            old(self).0@.len() != agg_share.0@.len() ==> final(self).0@ == old(self).0@ && (
            r matches Err(e) && e@ == length_mismatch(old(self).0@.len(), agg_share.0@.len())),
    {
        self.sum(agg_share.0.as_slice())
    }
}

/// What an aggregator does next in the preparation of a measurement.
#[derive(Debug)]
pub enum PrepareTransition<S, M, O> {
    /// It goes on from a state, after sending a message to the others.
    Continue(S, M),
    /// It has its output share.
    Finish(O),
    /// The preparation has failed.
    Fail(VdafError),
}

/// The elements are what the bytes of a stream, in runs as long as an encoded element, give first:
/// the numbers below the modulus in their order. There are none if the stream, of which the first
/// `2^64 - 1` bytes can be read, holds fewer than `n` of them.
pub open spec fn first_elements<F: FieldElement>(
    stream: spec_fn(int) -> u8,
    n: nat,
    elements: Option<Seq<int>>,
) -> bool {
    let size = F::encoded_size_spec();
    let p = F::modulus();
    let limit = (u64::MAX as nat / size) as int;
    match elements {
        Some(s) => s.len() == n && exists|places: Seq<int>|
            places_below(stream, size, p, 0, limit, places) && #[trigger] picked(
                stream,
                size,
                p,
                0,
                places,
                s,
            ),
        None => forall|places: Seq<int>| #[trigger]
            places_below(stream, size, p, 0, limit, places) ==> places.len() < n,
    }
}

/// What a seed is expanded to are the first elements of the generator's stream for the seed and
/// the text.
pub proof fn law_expand<F: FieldElement, P: Prg<L>, const L: usize>(
    seed: Seq<u8>,
    info: Seq<u8>,
    n: nat,
)
    ensures
        first_elements::<F>(
            |i: int| P::stream_byte(seed, info, i),
            n,
            expand::<F, P, L>(seed, info, n),
        ),
{
    let stream = |i: int| P::stream_byte(seed, info, i);
    let limit = u64::MAX as nat / F::encoded_size_spec();
    let (size, p) = (F::encoded_size_spec(), F::modulus());
    law_sample(stream, size, p, 0, limit, n);
    let r = expand::<F, P, L>(seed, info, n);
    assert(r == sample(stream, size, p, 0, limit, n));
    if r is None {
        assert forall|places: Seq<int>| #[trigger]
            places_below(stream, size, p, 0, limit as int, places) implies places.len() < n by {}
        assert(first_elements::<F>(stream, n, None));
    } else {
        let s = r->0;
        let places = choose|places: Seq<int>|
            places_below(stream, size, p, 0, limit as int, places) && #[trigger] picked(
                stream,
                size,
                p,
                0,
                places,
                s,
            );
        assert(places_below(stream, size, p, 0, limit as int, places));
        assert(picked(stream, size, p, 0, places, s));
        assert(s.len() == n);
        assert(first_elements::<F>(stream, n, Some(s)));
    }
}

/// An error tells its kind and its message.
pub proof fn law_error_view(e: VdafError)
    ensures
        e is Uncategorized ==> e@ == ErrorView::Uncategorized((e->Uncategorized_0)@),
        e is Pcp ==> e@ == ErrorView::Pcp(e->Pcp_0),
        e is Prng ==> e@ == ErrorView::Prng(e->Prng_0),
        e is GetRandom ==> e@ == ErrorView::GetRandom,
{
}

/// Shares that are viewed alike are of the same kind and hold the same.
pub proof fn law_share_view<F: FieldElement, const L: usize>(a: Share<F, L>, b: Share<F, L>)
    requires
        a@ == b@,
    ensures
        a matches Share::Leader(x) ==> (b matches Share::Leader(y) && x@.len() == y@.len()
            && forall|i: int| 0 <= i < x@.len() ==> (#[trigger] x@[i]).val() == y@[i].val()),
        a matches Share::Helper(x) ==> (b matches Share::Helper(y) && x@ == y@),
{
    if let Share::Leader(x) = a {
        if let Share::Leader(y) = b {
            assert(vals(x@).len() == vals(y@).len());
            assert forall|i: int| 0 <= i < x@.len() implies (#[trigger] x@[i]).val()
                == y@[i].val() by {
                assert(vals(x@)[i] == vals(y@)[i]);
            }
        }
    }
}

/// The error for vectors of different lengths names both lengths.
pub proof fn law_length_mismatch(left: nat, right: nat)
    ensures
        exists|l: Seq<char>, r: Seq<char>|
            #[trigger] writes(l, left as int) && #[trigger] writes(r, right as int)
                && length_mismatch(left, right) == ErrorView::Uncategorized(
                "cannot sum shares of different lengths (left = "@ + l + ", right = "@ + r + ")"@,
            ),
{
    law_decimal(left);
    law_decimal(right);
    let (l, r) = (decimal(left), decimal(right));
    assert(length_mismatch(left, right) == ErrorView::Uncategorized(
        "cannot sum shares of different lengths (left = "@ + l + ", right = "@ + r + ")"@,
    ));
}

/// The bytes are those of a share: the leader's consists of its numbers, each in `size` bytes, the
/// least significant first, and a helper's of its seed.
pub open spec fn are_share_bytes(share: ShareView, size: nat, b: Seq<u8>) -> bool {
    match share {
        ShareView::Leader(data) => b.len() == data.len() * size && forall|k: int, j: int|
            0 <= k < data.len() && 0 <= j < size ==> #[trigger] b[k * size + j] as int == (data[k]
                / pow(256, j as nat)) % 256,
        ShareView::Helper(seed) => b == seed,
    }
}

/// A share is written as its bytes.
pub proof fn law_encode_share(share: ShareView, size: nat)
    requires
        share matches ShareView::Leader(data) ==> forall|k: int|
            0 <= k < data.len() ==> #[trigger] data[k] >= 0,
    ensures
        are_share_bytes(share, size, encode_share(share, size)),
{
    if let ShareView::Leader(data) = share {
        law_encode_vals(data, size);
    }
}

/// A share is read as numbers if it is the leader's, and as the bytes of a seed if it is a
/// helper's.
pub proof fn law_parse_share(
    b: Seq<u8>,
    parameter: ShareDecodingParameter,
    seed_len: nat,
    size: nat,
    p: int,
)
    ensures
        parameter matches ShareDecodingParameter::Leader(n) ==> match parse_elements(
            b,
            n as nat,
            size,
            p,
        ) {
            Ok((data, rest)) => parse_share(b, parameter, seed_len, size, p) == Ok::<
                (ShareView, Seq<u8>),
                CodecError,
            >((ShareView::Leader(data), rest)),
            Err(e) => parse_share(b, parameter, seed_len, size, p) == Err::<
                (ShareView, Seq<u8>),
                CodecError,
            >(e),
        },
        parameter is Helper ==> match parse_share(b, parameter, seed_len, size, p) {
            Ok((share, rest)) => share is Helper && share->Helper_0.len() == seed_len
                && share->Helper_0 + rest == b,
            Err(e) => b.len() < seed_len && e == CodecError::UnexpectedEnd,
        },
{
    law_parse_bytes(b, seed_len);
}

} // verus!

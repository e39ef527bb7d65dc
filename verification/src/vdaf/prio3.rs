//! Prio3: aggregation of measurements that are shared among aggregators and proved valid.
//!
//! A client shards its measurement into one input share for each aggregator with
//! [`Prio3::shard`]. Each aggregator starts with its share in [`Prio3::prepare_init`] and takes
//! a first [`Prio3::prepare_step`], which yields a message for the others. The messages of all
//! aggregators are combined with [`Prio3::prepare_preprocess`], and a second step on the result
//! either rejects the measurement or yields the aggregator's share of the output. The output
//! shares of many measurements are added with [`Prio3::aggregate`], and the aggregate shares of
//! all aggregators are combined to the result with [`Prio3::unshard`].
use vstd::prelude::*;

pub mod direct;
pub mod laws;
pub mod model;

verus! {

use vstd::std_specs::convert::TryFromSpecImpl;
use vstd::string::StringSliceAdditionalSpecFns;
use vstd::arithmetic::power2::{lemma2_to64, lemma_pow2_strictly_increases};
use crate::arith::{
    lemma_reduced_add, lemma_reduced_residues, lemma_reduced_sub, lemma_sub_seqs_len,
    lemma_sub_seqs_reduced, lemma_sum_seqs_len, reduced, sub_seqs, sum_seqs, zeros,
};
use crate::codec::{read_elements, write_elements, CodecError, Cursor};
use crate::field::{encode_vals, vals, FieldElement};
use crate::field128::Field128;
use crate::field64::Field64;
use crate::pcp::gadgets::{BlindPolyEval, ParallelSum, ParallelSumGadget};
use crate::pcp::system;
use crate::pcp::types::{integer_vals, Count, CountVec, Histogram, Sum};
use crate::pcp::{proof_len_spec, prove_rand_len_spec, verifier_len_spec, PcpError, Type};
use crate::text::{decimal, message, with_number, with_text};
use crate::vdaf::prg::{refused, supplied_at, xor, xor_all, zero_bytes, Prg, PrgAes128, Seed};
use crate::vdaf::{
    add_elements, expand_seed, lemma_expand, read_seed, subtract_elements, AggregateShare,
    ErrorView, OutputShare, PrepareTransition, Share, ShareDecodingParameter, VdafError,
};
use self::model::{
    aggregators_error, client_message, client_proof, encode_input_share, encode_message, exhausted,
    finish_spec, first_misfit, first_odd_length, helper_input, helper_inputs, helper_proof,
    helper_proofs, helper_seed_shares, inputs_expand, joint_seed, leader_input, leader_proof,
    lemma_first_misfit, lemma_first_odd_length, message_seeds, opened, parse_input_share,
    parse_message, prepare_init_spec, prepare_step_spec, preprocess_spec, proofs_expand, query_seed,
    received_seed, result_spec, result_vec_spec, seed_share, shard_ok, shard_spec, sum_spec,
    too_large, verifiers, verify_param, HelperView, InputShareView, JointRandParamView,
    PrepareMessageView, PrepareStepView, ShardRandomness, TransitionView, VerifyParamView,
};

/// The count type. Each measurement is an integer in `[0,2)` and the aggregate is the sum.
pub type Prio3Aes128Count = Prio3<Count<Field64>, Prio3Result<u64>, PrgAes128, 16>;

impl Prio3Aes128Count {
    /// Construct an instance of this VDAF with the given number of aggregators.
    pub fn new(num_aggregators: u8) -> (r: Result<Self, VdafError>)
        ensures
            match aggregators_error(num_aggregators) {
                Some(e) => r matches Err(f) && f@ == e,
                None => r matches Ok(v) && v.wf() && v.num_aggregators_spec() == num_aggregators,
            },
    {
        match check_num_aggregators(num_aggregators) {
            Ok(_) => {},
            Err(e) => {
                return Err(e);
            },
        }
        Ok(Prio3 { num_aggregators, typ: Count::new(), phantom: core::marker::PhantomData })
    }
}

/// The count-vector type. Each measurement is a vector of integers in `[0,2)` and the aggregate is
/// the element-wise sum.
pub type Prio3Aes128CountVec = Prio3<
    CountVec<Field128, ParallelSum<Field128, BlindPolyEval<Field128>>>,
    Prio3ResultVec<u64>,
    PrgAes128,
    16,
>;

impl<S, P, const L: usize> Prio3<CountVec<Field128, S>, Prio3ResultVec<u64>, P, L> where
    S: ParallelSumGadget<Field128, BlindPolyEval<Field128>>,
    P: Prg<L>,
 {
    /// Construct an instance of this VDAF with the given number of aggregators. `len` defines
    /// the length of each measurement.
    pub fn new(num_aggregators: u8, len: usize) -> (r: Result<Self, VdafError>)
        ensures
            match aggregators_error(num_aggregators) {
                Some(e) => r matches Err(f) && f@ == e,
                None => r matches Ok(v) && v.wf() && v.num_aggregators_spec() == num_aggregators
                    && v.typ_spec().len_spec() == len,
            },
    {
        match check_num_aggregators(num_aggregators) {
            Ok(_) => {},
            Err(e) => {
                return Err(e);
            },
        }
        Ok(Prio3 { num_aggregators, typ: CountVec::new(len), phantom: core::marker::PhantomData })
    }
}

/// The sum type. Each measurement is an integer in `[0,2^bits)` for some `bits` that does not
/// exceed 64 and the aggregate is the sum.
pub type Prio3Aes128Sum = Prio3<Sum<Field128>, Prio3Result<u64>, PrgAes128, 16>;

impl Prio3Aes128Sum {
    /// Construct an instance of this VDAF with the given number of aggregators and required bit
    /// length. The bit length must not exceed 64.
    pub fn new(num_aggregators: u8, bits: u32) -> (r: Result<Self, VdafError>)
        ensures
            match aggregators_error(num_aggregators) {
                Some(e) => r matches Err(f) && f@ == e,
                None => if bits > 64 {
                    r matches Err(f) && f@ == ErrorView::Uncategorized(
                        "bit length ("@ + decimal(bits as nat)
                            + ") exceeds limit for aggregate type (64)"@,
                    )
                } else {
                    r matches Ok(v) && v.wf() && v.num_aggregators_spec() == num_aggregators
                        && v.typ_spec().bits_spec() == bits
                },
            },
    {
        match check_num_aggregators(num_aggregators) {
            Ok(_) => {},
            Err(e) => {
                return Err(e);
            },
        }
        if bits > 64 {
            return Err(
                VdafError::Uncategorized(
                    with_text(
                        with_number(message("bit length ("), bits as usize),
                        ") exceeds limit for aggregate type (64)",
                    ),
                ),
            );
        }
        proof {
            lemma2_to64();
            if bits < 64 {
                lemma_pow2_strictly_increases(bits as nat, 64);
            }
        }
        match Sum::new(bits as usize) {
            Ok(typ) => Ok(Prio3 { num_aggregators, typ, phantom: core::marker::PhantomData }),
            Err(e) => Err(VdafError::Pcp(e)),
        }
    }
}

/// The histogram type. Each measurement is an unsigned, 64-bit integer and the result is a
/// histogram representation of the measurement.
pub type Prio3Aes128Histogram = Prio3<Histogram<Field128>, Prio3ResultVec<u64>, PrgAes128, 16>;

impl Prio3Aes128Histogram {
    /// Constructs an instance of this VDAF with the given number of aggregators and desired
    /// histogram bucket boundaries.
    pub fn new(num_aggregators: u8, buckets: &[u64]) -> (r: Result<Self, VdafError>)
        ensures
            ({
                let boundaries = Seq::new(buckets@.len(), |i: int| buckets@[i] as int);
                match aggregators_error(num_aggregators) {
                    Some(e) => r matches Err(f) && f@ == e,
                    None => if Histogram::<Field128>::acceptable(boundaries) {
                        r matches Ok(v) && v.wf() && v.num_aggregators_spec() == num_aggregators
                            && v.typ_spec().boundaries() == boundaries
                    } else {
                        r matches Err(f) && f@ == ErrorView::Pcp(PcpError::Parameters)
                    },
                }
            }),
            r is Ok <==> 1 <= num_aggregators <= 254 && buckets@.len() < 0xffff_ffff
                && buckets@.len() < usize::MAX / 16 && forall|i: int, j: int|
                0 <= i < j < buckets@.len() ==> #[trigger] buckets@[i] < #[trigger] buckets@[j],
            r matches Ok(v) ==> v.typ_spec().boundaries().len() == buckets@.len() && forall|i: int|
                0 <= i < buckets@.len() ==> #[trigger] v.typ_spec().boundaries()[i] == buckets@[i],
    {
        match check_num_aggregators(num_aggregators) {
            Ok(_) => {},
            Err(e) => {
                return Err(e);
            },
        }
        let ghost boundaries = Seq::new(buckets@.len(), |i: int| buckets@[i] as int);
        let mut wide: Vec<u128> = Vec::new();
        let mut i: usize = 0;
        while i < buckets.len()
            invariant
                i <= buckets@.len(),
                wide@.len() == i,
                forall|j: int| 0 <= j < i ==> #[trigger] wide@[j] == buckets@[j],
            decreases buckets@.len() - i,
        {
            wide.push(buckets[i] as u128);
            i += 1;
        }
        assert(integer_vals::<Field128>(wide@) =~= boundaries);
        proof {
            let ordered = forall|i: int, j: int|
                0 <= i < j < buckets@.len() ==> #[trigger] buckets@[i] < #[trigger] buckets@[j];
            let wide_ordered = forall|i: int, j: int|
                0 <= i < j < wide@.len() ==> Field128::integer_val(#[trigger] wide@[i])
                    < Field128::integer_val(#[trigger] wide@[j]);
            if ordered {
                assert forall|i: int, j: int| 0 <= i < j < wide@.len() implies Field128::integer_val(
                    #[trigger] wide@[i],
                ) < Field128::integer_val(#[trigger] wide@[j]) by {
                    assert(buckets@[i] < buckets@[j]);
                }
            }
            if wide_ordered {
                assert forall|i: int, j: int|
                    0 <= i < j < buckets@.len() implies #[trigger] buckets@[i]
                    < #[trigger] buckets@[j] by {
                    assert(wide@[i] == buckets@[i] && wide@[j] == buckets@[j]);
                    assert(Field128::integer_val(wide@[i]) < Field128::integer_val(wide@[j]));
                }
            }
            assert(ordered == wide_ordered);
        }
        match Histogram::<Field128>::new(wide) {
            Ok(typ) => Ok(Prio3 { num_aggregators, typ, phantom: core::marker::PhantomData }),
            Err(e) => Err(VdafError::Pcp(e)),
        }
    }
}

/// Aggregate result for singleton data types.
#[derive(Clone, Debug, PartialEq, Eq)]
pub struct Prio3Result<T: Eq>(pub T);

impl Prio3Result<u64> {
    /// The outcome of making a result of the numbers `data`.
    pub open spec fn outcome(data: Seq<int>, r: Result<Self, VdafError>) -> bool {
        match result_spec(data) {
            Ok(v) => r matches Ok(out) && out.0 == v,
            Err(e) => r matches Err(f) && f@ == e,
        }
    }
}

impl<F: FieldElement> TryFrom<AggregateShare<F>> for Prio3Result<u64> {
    type Error = VdafError;

    fn try_from(data: AggregateShare<F>) -> (r: Result<Self, VdafError>)
        ensures
            Self::outcome(vals(data.0@), r),
    {
        if data.0.len() != 1 {
            return Err(
                VdafError::Uncategorized(
                    with_text(
                        with_number(
                            message("unexpected aggregate length for count type: got "),
                            data.0.len(),
                        ),
                        "; want 1",
                    ),
                ),
            );
        }
        match narrowed(data.0[0].to_u128()) {
            Ok(out) => Ok(Prio3Result(out)),
            Err(e) => Err(e),
        }
    }
}

impl<F: FieldElement> TryFromSpecImpl<AggregateShare<F>> for Prio3Result<u64> {
    open spec fn obeys_try_from_spec() -> bool {
        false
    }

    open spec fn try_from_spec(data: AggregateShare<F>) -> Result<Self, VdafError> {
        choose|r: Result<Self, VdafError>| Self::outcome(vals(data.0@), r)
    }
}

/// Aggregate result for vector data types.
#[derive(Clone, Debug, PartialEq, Eq)]
pub struct Prio3ResultVec<T: Eq>(pub Vec<T>);

impl Prio3ResultVec<u64> {
    /// The outcome of making a result of the numbers `data`.
    pub open spec fn outcome(data: Seq<int>, r: Result<Self, VdafError>) -> bool {
        match result_vec_spec(data) {
            Ok(v) => r matches Ok(out) && out.0@ == v,
            Err(e) => r matches Err(f) && f@ == e,
        }
    }
}

impl<F: FieldElement> TryFrom<AggregateShare<F>> for Prio3ResultVec<u64> {
    type Error = VdafError;

    fn try_from(data: AggregateShare<F>) -> (r: Result<Self, VdafError>)
        ensures
            Self::outcome(vals(data.0@), r),
    {
        let ghost all = vals(data.0@);
        let mut out: Vec<u64> = Vec::new();
        let mut i: usize = 0;
        while i < data.0.len()
            invariant
                i <= data.0@.len(),
                all == vals(data.0@),
                out@.len() == i,
                forall|j: int| 0 <= j < i ==> #[trigger] all[j] == out@[j],
            decreases data.0@.len() - i,
        {
            assert(all[i as int] == data.0@[i as int].val());
            match narrowed(data.0[i].to_u128()) {
                Ok(v) => out.push(v),
                Err(e) => {
                    return Err(e);
                },
            }
            i += 1;
        }
        assert(out@ =~= Seq::new(all.len(), |j: int| all[j] as u64));
        Ok(Prio3ResultVec(out))
    }
}

impl<F: FieldElement> TryFromSpecImpl<AggregateShare<F>> for Prio3ResultVec<u64> {
    open spec fn obeys_try_from_spec() -> bool {
        false
    }

    open spec fn try_from_spec(data: AggregateShare<F>) -> Result<Self, VdafError> {
        choose|r: Result<Self, VdafError>| Self::outcome(vals(data.0@), r)
    }
}

/// The number as a 64-bit integer, if it fits.
fn narrowed(v: u128) -> (r: Result<u64, VdafError>)
    ensures
        v <= u64::MAX ==> r == Ok::<u64, VdafError>(v as u64),
        v > u64::MAX ==> (r matches Err(e) && e@ == too_large()),
{
    if v > u64::MAX as u128 {
        Err(
            VdafError::Uncategorized(
                message("result too large for output type: TryFromIntError(())"),
            ),
        )
    } else {
        Ok(v as u64)
    }
}

fn check_num_aggregators(num_aggregators: u8) -> (r: Result<(), VdafError>)
    ensures
        match aggregators_error(num_aggregators) {
            Some(e) => r matches Err(f) && f@ == e,
            None => r is Ok,
        },
{
    if num_aggregators == 0 {
        return Err(
            VdafError::Uncategorized(
                with_number(
                    message("at least one aggregator is required; got "),
                    num_aggregators as usize,
                ),
            ),
        );
    } else if num_aggregators > 254 {
        return Err(
            VdafError::Uncategorized(
                with_number(
                    message("number of aggregators must not exceed 254; got "),
                    num_aggregators as usize,
                ),
            ),
        );
    }
    Ok(())
}

/// The base type for Prio3.
#[derive(Debug)]
pub struct Prio3<T, A, P, const L: usize> where T: Type, P: Prg<L> {
    num_aggregators: u8,
    typ: T,
    phantom: core::marker::PhantomData<(A, P)>,
}

impl<T, A, P, const L: usize> Clone for Prio3<T, A, P, L> where T: Type + Clone, P: Prg<L> {
    fn clone(&self) -> (r: Self)
        ensures
            r.num_aggregators_spec() == self.num_aggregators_spec(),
            cloned::<T>(self.typ_spec(), r.typ_spec()),
    {
        Prio3 {
            num_aggregators: self.num_aggregators,
            typ: self.typ.clone(),
            phantom: core::marker::PhantomData,
        }
    }
}

impl<T, A, P, const L: usize> Prio3<T, A, P, L> where T: Type, P: Prg<L> {
    /// The number of aggregators.
    pub closed spec fn num_aggregators_spec(&self) -> u8 {
        self.num_aggregators
    }

    /// The type of the measurements.
    pub closed spec fn typ_spec(&self) -> T {
        self.typ
    }

    /// The number of aggregators and the type are as a constructor makes them.
    pub open spec fn wf(&self) -> bool {
        &&& 1 <= self.num_aggregators_spec() <= 254
        &&& self.typ_spec().wf()
    }

    /// The output length of the underlying proof system.
    pub fn output_len(&self) -> (r: usize)
        requires
            self.wf(),
        ensures
            r == self.typ_spec().output_len_spec(),
    {
        self.typ.output_len()
    }

    /// The verifier length of the underlying proof system.
    pub fn verifier_len(&self) -> (r: usize)
        requires
            self.wf(),
        ensures
            r == verifier_len_spec(&self.typ_spec()),
    {
        system::verifier_len(&self.typ)
    }

    /// Generates the verification parameters of the aggregators.
    ///
    /// They are those of [`Prio3::verify_params`] for a key that the random source has supplied,
    /// unless the system cannot supply it.
    pub fn setup(&self) -> (r: Result<((), Vec<Prio3VerifyParam<L>>), VdafError>)
        requires
            self.wf(),
        ensures
            r matches Ok(v) ==> exists|key: Seed<L>| #[trigger]
                self.are_verify_params(key@, v.1@) && supplied_at(0, key@),
            r matches Err(e) ==> e == VdafError::GetRandom && L > 0,
            r is Err ==> refused(L),
    {
        let query_rand_init: Seed<L> = match Seed::generate() {
            Ok(seed) => seed,
            Err(e) => {
                return Err(e);
            },
        };
        let params = self.verify_params(&query_rand_init);
        let out = Ok(((), params));
        assert(self.are_verify_params(query_rand_init@, (out->Ok_0).1@));
        out
    }

    /// The verification parameters for the key `key`: one for each aggregator, in the order of
    /// their identities.
    pub open spec fn are_verify_params(
        &self,
        key: Seq<u8>,
        params: Seq<Prio3VerifyParam<L>>,
    ) -> bool {
        &&& params.len() == self.num_aggregators_spec()
        &&& forall|i: int|
            0 <= i < params.len() ==> (#[trigger] params[i])@ == verify_param(
                &self.typ_spec(),
                key,
                i,
            )
    }

    /// The verification parameters of the aggregators for a key.
    pub fn verify_params(&self, query_rand_init: &Seed<L>) -> (r: Vec<Prio3VerifyParam<L>>)
        requires
            self.wf(),
        ensures
            self.are_verify_params(query_rand_init@, r@),
    {
        let mut out: Vec<Prio3VerifyParam<L>> = Vec::new();
        let mut aggregator_id: u8 = 0;
        while aggregator_id < self.num_aggregators
            invariant
                aggregator_id <= self.num_aggregators,
                self.wf(),
                out@.len() == aggregator_id,
                forall|i: int|
                    0 <= i < out@.len() ==> (#[trigger] out@[i])@ == verify_param(
                        &self.typ_spec(),
                        query_rand_init@,
                        i,
                    ),
            decreases self.num_aggregators - aggregator_id,
        {
            out.push(
                Prio3VerifyParam {
                    query_rand_init: *query_rand_init,
                    aggregator_id,
                    input_len: self.typ.input_len(),
                    proof_len: system::proof_len(&self.typ),
                    joint_rand_len: self.typ.joint_rand_len(),
                },
            );
            aggregator_id += 1;
        }
        out
    }

    /// The number of aggregators.
    pub fn num_aggregators(&self) -> (r: usize)
        ensures
            r == self.num_aggregators_spec(),
    {
        self.num_aggregators as usize
    }
}

/// The verification parameter used by each aggregator to evaluate the VDAF.
#[derive(Clone, Copy, Debug)]
pub struct Prio3VerifyParam<const L: usize> {
    /// Key used to derive the query randomness from the nonce.
    pub query_rand_init: Seed<L>,
    /// The identity of the aggregator.
    pub aggregator_id: u8,
    /// Length in field elements of an uncompressed input share.
    input_len: usize,
    /// Length in field elements of an uncompressed proof.
    proof_len: usize,
    /// Length of the joint randomness.
    joint_rand_len: usize,
}

impl<const L: usize> View for Prio3VerifyParam<L> {
    type V = VerifyParamView;

    closed spec fn view(&self) -> VerifyParamView {
        VerifyParamView {
            query_rand_init: self.query_rand_init@,
            aggregator_id: self.aggregator_id,
            input_len: self.input_len,
            proof_len: self.proof_len,
            joint_rand_len: self.joint_rand_len,
        }
    }
}

/// A verification parameter is seen as it is.
proof fn lemma_verify_param_view<const L: usize>(param: Prio3VerifyParam<L>)
    ensures
        param@.query_rand_init == param.query_rand_init.0@,
        param@.aggregator_id == param.aggregator_id,
        param@.input_len == param.input_len,
        param@.proof_len == param.proof_len,
        param@.joint_rand_len == param.joint_rand_len,
{
}

/// Parameters used by an aggregator to compute the joint randomness.
#[derive(Clone, Copy, Debug, Eq, PartialEq)]
pub struct JointRandParam<const L: usize> {
    /// The sum of the joint randomness seed shares sent to the other aggregators.
    pub seed_hint: Seed<L>,
    /// The blinding factor, used to derive the aggregator's joint randomness seed share.
    pub blind: Seed<L>,
}

impl<const L: usize> View for JointRandParam<L> {
    type V = JointRandParamView;

    open spec fn view(&self) -> JointRandParamView {
        JointRandParamView { seed_hint: self.seed_hint@, blind: self.blind@ }
    }
}

/// The message sent by the client to each aggregator. This includes the client's input share and
/// the initial message of the input-validation protocol.
#[derive(Debug, Eq, PartialEq)]
pub struct Prio3InputShare<F, const L: usize> {
    /// The input share.
    pub input_share: Share<F, L>,
    /// The proof share.
    pub proof_share: Share<F, L>,
    /// Parameters used by the aggregator to compute the joint randomness. This field is optional
    /// because not every type requires joint randomness.
    pub joint_rand_param: Option<JointRandParam<L>>,
}

impl<F: FieldElement, const L: usize> View for Prio3InputShare<F, L> {
    type V = InputShareView;

    open spec fn view(&self) -> InputShareView {
        InputShareView {
            input_share: self.input_share@,
            proof_share: self.proof_share@,
            joint_rand_param: match self.joint_rand_param {
                Some(param) => Some(param@),
                None => None,
            },
        }
    }
}

impl<F: FieldElement, const L: usize> Clone for Prio3InputShare<F, L> {
    fn clone(&self) -> (r: Self)
        ensures
            r@ == self@,
    {
        Prio3InputShare {
            input_share: self.input_share.clone(),
            proof_share: self.proof_share.clone(),
            joint_rand_param: self.joint_rand_param,
        }
    }
}

impl<F: FieldElement, const L: usize> Prio3InputShare<F, L> {
    /// Appends the encoding to a message.
    ///
    /// The two shares have to be of the same kind: the encoding of others would be ambiguous.
    pub fn encode(&self, bytes: &mut Vec<u8>)
        requires
            self.input_share is Leader <==> self.proof_share is Leader,
        ensures
            final(bytes)@ == old(bytes)@ + encode_input_share(self@, F::encoded_size_spec()),
    {
        let ghost start = bytes@;
        self.input_share.encode(bytes);
        self.proof_share.encode(bytes);
        if let Some(param) = &self.joint_rand_param {
            param.seed_hint.encode(bytes);
            param.blind.encode(bytes);
        }
        assert(bytes@ =~= start + encode_input_share(self@, F::encoded_size_spec()));
    }

    /// Reads an input share from a message.
    pub fn decode_with_param(
        decoding_parameter: &Prio3VerifyParam<L>,
        bytes: &mut Cursor,
    ) -> (r: Result<Self, CodecError>)
        ensures
            match parse_input_share(
                old(bytes)@,
                decoding_parameter@.share_parameters().0,
                decoding_parameter@.share_parameters().1,
                decoding_parameter@.joint_rand_len > 0,
                L as nat,
                F::encoded_size_spec(),
                F::modulus(),
            ) {
                Ok((share, rest)) => r matches Ok(s) && s@ == share && final(bytes)@ == rest,
                Err(e) => r == Err::<Self, CodecError>(e),
            },
    {
        let (input_decoding_parameter, proof_decoding_parameter) =
            if decoding_parameter.aggregator_id == 0 {
            (
                ShareDecodingParameter::Leader(decoding_parameter.input_len),
                ShareDecodingParameter::Leader(decoding_parameter.proof_len),
            )
        } else {
            (ShareDecodingParameter::Helper, ShareDecodingParameter::Helper)
        };
        let input_share = match Share::decode_with_param(&input_decoding_parameter, bytes) {
            Ok(share) => share,
            Err(e) => {
                return Err(e);
            },
        };
        let proof_share = match Share::decode_with_param(&proof_decoding_parameter, bytes) {
            Ok(share) => share,
            Err(e) => {
                return Err(e);
            },
        };
        let joint_rand_param = if decoding_parameter.joint_rand_len > 0 {
            let seed_hint = match read_seed(bytes) {
                Ok(seed) => seed,
                Err(e) => {
                    return Err(e);
                },
            };
            let blind = match read_seed(bytes) {
                Ok(seed) => seed,
                Err(e) => {
                    return Err(e);
                },
            };
            Some(JointRandParam { seed_hint, blind })
        } else {
            None
        };
        Ok(Prio3InputShare { input_share, proof_share, joint_rand_param })
    }
}

/// The bytes of a seed that need not be there.
pub open spec fn seed_view<const L: usize>(seed: Option<Seed<L>>) -> Option<Seq<u8>> {
    match seed {
        Some(seed) => Some(seed@),
        None => None,
    }
}

/// The verification message emitted by each aggregator during the Prepare process.
#[derive(Debug)]
pub struct Prio3PrepareMessage<F, const L: usize> {
    /// (A share of) the verifier message of the proof system.
    pub verifier: Vec<F>,
    /// (A share of) the joint randomness seed.
    pub joint_rand_seed: Option<Seed<L>>,
}

impl<F: FieldElement, const L: usize> View for Prio3PrepareMessage<F, L> {
    type V = PrepareMessageView;

    open spec fn view(&self) -> PrepareMessageView {
        PrepareMessageView {
            verifier: vals(self.verifier@),
            joint_rand_seed: seed_view(self.joint_rand_seed),
        }
    }
}

impl<F: FieldElement, const L: usize> Clone for Prio3PrepareMessage<F, L> {
    fn clone(&self) -> (r: Self)
        ensures
            r@ == self@,
    {
        Prio3PrepareMessage {
            verifier: vstd::slice::slice_to_vec(self.verifier.as_slice()),
            joint_rand_seed: self.joint_rand_seed,
        }
    }
}

impl<F: FieldElement, const L: usize> Prio3PrepareMessage<F, L> {
    /// Appends the encoding to a message.
    pub fn encode(&self, bytes: &mut Vec<u8>)
        ensures
            final(bytes)@ == old(bytes)@ + encode_message(self@, F::encoded_size_spec()),
    {
        let ghost start = bytes@;
        write_elements(self.verifier.as_slice(), bytes);
        if let Some(seed) = &self.joint_rand_seed {
            seed.encode(bytes);
        }
        assert(bytes@ =~= start + encode_message(self@, F::encoded_size_spec()));
    }

    /// Reads a message.
    pub fn decode_with_param(
        decoding_parameter: &Prio3PrepareStep<F, L>,
        bytes: &mut Cursor,
    ) -> (r: Result<Self, CodecError>)
        ensures
            match parse_message(
                old(bytes)@,
                decoding_parameter@.verifier_len(),
                decoding_parameter@.has_seed(),
                L as nat,
                F::encoded_size_spec(),
                F::modulus(),
            ) {
                Ok((msg, rest)) => r matches Ok(m) && m@ == msg && final(bytes)@ == rest,
                Err(e) => r == Err::<Self, CodecError>(e),
            },
    {
        let verifier_len: usize = decoding_parameter.verifier_len();
        let verifier = match read_elements(verifier_len, bytes) {
            Ok(v) => v,
            Err(e) => {
                return Err(e);
            },
        };
        let joint_rand_seed = if decoding_parameter.check_joint_rand() {
            match read_seed(bytes) {
                Ok(seed) => Some(seed),
                Err(e) => {
                    return Err(e);
                },
            }
        } else {
            None
        };
        Ok(Prio3PrepareMessage { verifier, joint_rand_seed })
    }
}

/// State of each aggregator during the Prepare process.
#[derive(Debug)]
pub enum Prio3PrepareStep<F, const L: usize> {
    /// Ready to send the verifier message.
    Ready {
        /// The share of the encoded measurement.
        input_share: Share<F, L>,
        /// The joint randomness seed, as the aggregator computed it.
        joint_rand_seed: Option<Seed<L>>,
        /// The message to send.
        verifier_msg: Prio3PrepareMessage<F, L>,
    },
    /// Waiting for the set of verifier messages.
    Waiting {
        /// The share of the encoded measurement.
        input_share: Share<F, L>,
        /// The joint randomness seed, as the aggregator computed it.
        joint_rand_seed: Option<Seed<L>>,
        /// The length of the verifier message.
        verifier_len: usize,
    },
}

impl<F: FieldElement, const L: usize> View for Prio3PrepareStep<F, L> {
    type V = PrepareStepView;

    open spec fn view(&self) -> PrepareStepView {
        match self {
            Prio3PrepareStep::Ready { input_share, joint_rand_seed, verifier_msg } => {
                PrepareStepView::Ready {
                    input_share: input_share@,
                    joint_rand_seed: seed_view(*joint_rand_seed),
                    verifier_msg: verifier_msg@,
                }
            },
            Prio3PrepareStep::Waiting { input_share, joint_rand_seed, verifier_len } => {
                PrepareStepView::Waiting {
                    input_share: input_share@,
                    joint_rand_seed: seed_view(*joint_rand_seed),
                    verifier_len: *verifier_len as nat,
                }
            },
        }
    }
}

impl<F: FieldElement, const L: usize> Clone for Prio3PrepareStep<F, L> {
    fn clone(&self) -> (r: Self)
        ensures
            r@ == self@,
    {
        match self {
            Prio3PrepareStep::Ready { input_share, joint_rand_seed, verifier_msg } => {
                Prio3PrepareStep::Ready {
                    input_share: input_share.clone(),
                    joint_rand_seed: *joint_rand_seed,
                    verifier_msg: verifier_msg.clone(),
                }
            },
            Prio3PrepareStep::Waiting { input_share, joint_rand_seed, verifier_len } => {
                Prio3PrepareStep::Waiting {
                    input_share: input_share.clone(),
                    joint_rand_seed: *joint_rand_seed,
                    verifier_len: *verifier_len,
                }
            },
        }
    }
}

impl<F: FieldElement, const L: usize> Prio3PrepareStep<F, L> {
    /// The length of the verifier message.
    pub fn verifier_len(&self) -> (r: usize)
        ensures
            r == self@.verifier_len(),
    {
        match self {
            Prio3PrepareStep::Ready { verifier_msg, .. } => verifier_msg.verifier.len(),
            Prio3PrepareStep::Waiting { verifier_len, .. } => *verifier_len,
        }
    }

    /// Tells whether the joint randomness is checked.
    pub fn check_joint_rand(&self) -> (r: bool)
        ensures
            r == self@.has_seed(),
    {
        let joint_rand_seed = match self {
            Prio3PrepareStep::Ready { joint_rand_seed, .. } => joint_rand_seed,
            Prio3PrepareStep::Waiting { joint_rand_seed, .. } => joint_rand_seed,
        };
        joint_rand_seed.is_some()
    }
}

/// The randomness that a client draws for one helper, and what it computes of it.
#[derive(Clone, Copy, Debug)]
pub struct HelperShare<const L: usize> {
    /// The seed of the input share.
    pub input_share: Seed<L>,
    /// The seed of the proof share.
    pub proof_share: Seed<L>,
    /// The joint randomness parameters.
    pub joint_rand_param: JointRandParam<L>,
}

impl<const L: usize> View for HelperShare<L> {
    type V = HelperView;

    open spec fn view(&self) -> HelperView {
        HelperView {
            input_share: self.input_share@,
            proof_share: self.proof_share@,
            blind: self.joint_rand_param.blind@,
        }
    }
}

impl<const L: usize> HelperShare<L> {
    /// The randomness that consists of the given seeds. The seed hint is not known yet.
    pub fn from_seeds(input_share: Seed<L>, proof_share: Seed<L>, blind: Seed<L>) -> (r: Self)
        ensures
            r.input_share@ == input_share@,
            r.proof_share@ == proof_share@,
            r.joint_rand_param.blind@ == blind@,
            r.joint_rand_param.seed_hint@ == zero_bytes(L as nat),
    {
        HelperShare {
            input_share,
            proof_share,
            joint_rand_param: JointRandParam { seed_hint: Seed::uninitialized(), blind },
        }
    }

    /// Draws the seeds for a helper, the input share's first, then the proof share's, then the
    /// blind. [`HelperShare::from_seeds`] says where each of them goes.
    pub fn new() -> (r: Result<Self, VdafError>)
        ensures
            r matches Ok(helper) ==> helper.joint_rand_param.seed_hint@ == zero_bytes(L as nat),
            r matches Err(e) ==> e == VdafError::GetRandom && L > 0,
            r matches Ok(helper) ==> helper_drawn(0, helper@),
            r is Err ==> refused(L),
    {
        HelperShare::new_at(Ghost(0))
    }

    /// Draws the seeds for a helper, in three draws of which the first has the number `place`.
    fn new_at(Ghost(place): Ghost<int>) -> (r: Result<Self, VdafError>)
        ensures
            r matches Ok(helper) ==> helper.joint_rand_param.seed_hint@ == zero_bytes(L as nat),
            r matches Err(e) ==> e == VdafError::GetRandom && L > 0,
            r matches Ok(helper) ==> helper_drawn(place, helper@),
            r is Err ==> refused(L),
    {
        let input_share = match Seed::generate_at(Ghost(place)) {
            Ok(seed) => seed,
            Err(e) => {
                return Err(e);
            },
        };
        let proof_share = match Seed::generate_at(Ghost(place + 1)) {
            Ok(seed) => seed,
            Err(e) => {
                return Err(e);
            },
        };
        let blind = match Seed::generate_at(Ghost(place + 2)) {
            Ok(seed) => seed,
            Err(e) => {
                return Err(e);
            },
        };
        Ok(HelperShare::from_seeds(input_share, proof_share, blind))
    }
}

/// The random source has supplied the seeds for a helper, in three draws from `place` on.
pub open spec fn helper_drawn(place: int, helper: HelperView) -> bool {
    &&& supplied_at(place, helper.input_share)
    &&& supplied_at(place + 1, helper.proof_share)
    &&& supplied_at(place + 2, helper.blind)
}

/// The random source has supplied all seeds for a measurement, each in a draw of its own.
pub open spec fn randomness_drawn(rand: ShardRandomness) -> bool {
    let n = rand.helpers.len() as int;
    &&& forall|i: int| 0 <= i < n ==> helper_drawn(3 * i, #[trigger] rand.helpers[i])
    &&& supplied_at(3 * n, rand.leader_blind)
    &&& supplied_at(3 * n + 1, rand.prove_seed)
}

/// The randomness of several helpers.
pub open spec fn helper_views<const L: usize>(helpers: Seq<HelperShare<L>>) -> Seq<HelperView> {
    Seq::new(helpers.len(), |i: int| helpers[i]@)
}

/// The bytes of several seeds.
pub open spec fn seeds<const L: usize>(s: Seq<Seed<L>>) -> Seq<Seq<u8>> {
    Seq::new(s.len(), |i: int| s[i]@)
}

/// The messages that several input shares are.
pub open spec fn input_share_views<F: FieldElement, const L: usize>(
    shares: Seq<Prio3InputShare<F, L>>,
) -> Seq<InputShareView> {
    Seq::new(shares.len(), |i: int| shares[i]@)
}

/// Representatives of field elements are residues.
proof fn lemma_vals_residues<F: FieldElement>(s: Seq<F>)
    ensures
        forall|i: int| 0 <= i < s.len() ==> 0 <= #[trigger] vals(s)[i] < F::modulus(),
        reduced(vals(s), F::modulus()) == vals(s),
{
    assert forall|i: int| 0 <= i < s.len() implies 0 <= #[trigger] vals(s)[i] < F::modulus() by {
        s[i].lemma_val();
    }
    lemma_reduced_residues(vals(s), F::modulus());
}

impl<T, A, P, const L: usize> Prio3<T, A, P, L> where T: Type, P: Prg<L> {
    /// An aggregator's share of the joint randomness seed.
    fn derive_seed_share(blind: &Seed<L>, aggregator_id: u8, input_share: &[T::Field]) -> (r: Seed<
        L,
    >)
        ensures
            r@ == seed_share::<T::Field, P, L>(blind@, aggregator_id, vals(input_share@)),
    {
        let mut data: Vec<u8> = vec![aggregator_id];
        write_elements(input_share, &mut data);
        let mut deriver = P::init(blind);
        deriver.update(data.as_slice());
        proof {
            let text = seq![aggregator_id] + encode_vals(
                vals(input_share@),
                T::Field::encoded_size_spec(),
            );
            assert(deriver.message() =~= text);
        }
        let r = deriver.into_seed();
        assert(r@ =~= seed_share::<T::Field, P, L>(blind@, aggregator_id, vals(input_share@)));
        r
    }

    /// Splits the encoded measurement: the leader's share of it, and the helpers' shares of the
    /// joint randomness seed.
    fn share_input(&self, input: &[T::Field], helpers: &Vec<HelperShare<L>>) -> (r: Result<
        (Vec<T::Field>, Vec<Seed<L>>),
        VdafError,
    >)
        requires
            self.wf(),
            input@.len() == self.typ_spec().input_len_spec(),
            helpers@.len() < 255,
        ensures
            ({
                let (typ, hv) = (self.typ_spec(), helper_views(helpers@));
                if inputs_expand::<T, P, L>(&typ, hv) {
                    r matches Ok(v) && vals(v.0@) == leader_input::<T, P, L>(
                        &typ,
                        vals(input@),
                        hv,
                    ) && v.0@.len() == input@.len() && seeds(v.1@) == helper_seed_shares::<
                        T,
                        P,
                        L,
                    >(&typ, hv)
                } else {
                    r matches Err(e) && e@ == exhausted()
                }
            }),
    {
        let ghost (typ, hv, p) = (self.typ_spec(), helper_views(helpers@), T::Field::modulus());
        let ghost (x, ys) = (vals(input@), helper_inputs::<T, P, L>(&self.typ_spec(), hv));
        let ghost want = helper_seed_shares::<T, P, L>(&typ, hv);
        let mut leader = vstd::slice::slice_to_vec(input);
        let mut shares: Vec<Seed<L>> = Vec::new();
        let n: usize = self.typ.input_len();
        let mut i: usize = 0;
        proof {
            <T::Field as FieldElement>::lemma_field();
            lemma_vals_residues(input@);
            assert(ys.take(0) =~= Seq::<Seq<int>>::empty());
        }
        while i < helpers.len()
            invariant
                i <= helpers@.len() < 255,
                self.wf(),
                typ == self.typ_spec(),
                hv == helper_views(helpers@),
                p == T::Field::modulus(),
                p > 0,
                x == vals(input@),
                ys == helper_inputs::<T, P, L>(&typ, hv),
                want == helper_seed_shares::<T, P, L>(&typ, hv),
                n == typ.input_len_spec(),
                input@.len() == n,
                leader@.len() == n,
                forall|j: int|
                    0 <= j < i ==> #[trigger] helper_input::<T, P, L>(
                        &typ,
                        hv[j].input_share,
                    ) is Some,
                vals(leader@) == reduced(sub_seqs(x, ys.take(i as int)), p),
                shares@.len() == i,
                forall|j: int| 0 <= j < i ==> (#[trigger] shares@[j])@ == want[j],
            decreases helpers@.len() - i,
        {
            let helper = &helpers[i];
            assert(hv[i as int] == helper@);
            let y: Vec<T::Field> = match expand_seed::<T::Field, P, L>(
                &helper.input_share,
                "input share",
                n,
            ) {
                Ok(y) => y,
                Err(e) => {
                    assert(helper_input::<T, P, L>(&typ, hv[i as int].input_share) is None);
                    return Err(e);
                },
            };
            proof {
                assert(helper_input::<T, P, L>(&typ, hv[i as int].input_share) is Some);
                lemma_expand::<T::Field, P, L>(
                    helper.input_share@,
                    "input share".spec_bytes(),
                    n as nat,
                );
                assert(vals(y@) == ys[i as int]);
            }
            subtract_elements(&mut leader, y.as_slice());
            let share = Self::derive_seed_share(
                &helper.joint_rand_param.blind,
                i as u8 + 1,
                y.as_slice(),
            );
            shares.push(share);
            proof {
                lemma_sub_seqs_len(x, ys.take(i as int));
                lemma_reduced_sub(sub_seqs(x, ys.take(i as int)), ys[i as int], p);
                assert(ys.take(i + 1).drop_last() =~= ys.take(i as int));
            }
            i += 1;
        }
        proof {
            assert(ys.take(i as int) =~= ys);
            assert(seeds(shares@) =~= want);
        }
        Ok((leader, shares))
    }

    /// The leader's share of the proof.
    fn share_proof(&self, proof_vec: Vec<T::Field>, helpers: &Vec<HelperShare<L>>) -> (r: Result<
        Vec<T::Field>,
        VdafError,
    >)
        requires
            self.wf(),
            proof_vec@.len() == proof_len_spec(&self.typ_spec()),
        ensures
            ({
                let (typ, hv) = (self.typ_spec(), helper_views(helpers@));
                if proofs_expand::<T, P, L>(&typ, hv) {
                    r matches Ok(v) && vals(v@) == reduced(
                        sub_seqs(vals(proof_vec@), helper_proofs::<T, P, L>(&typ, hv)),
                        T::Field::modulus(),
                    )
                } else {
                    r matches Err(e) && e@ == exhausted()
                }
            }),
    {
        let ghost (typ, hv, p) = (self.typ_spec(), helper_views(helpers@), T::Field::modulus());
        let ghost (x, ys) = (vals(proof_vec@), helper_proofs::<T, P, L>(&self.typ_spec(), hv));
        let n: usize = system::proof_len(&self.typ);
        proof {
            <T::Field as FieldElement>::lemma_field();
            lemma_vals_residues(proof_vec@);
            assert(ys.take(0) =~= Seq::<Seq<int>>::empty());
        }
        let mut leader = proof_vec;
        let mut i: usize = 0;
        while i < helpers.len()
            invariant
                i <= helpers@.len(),
                self.wf(),
                typ == self.typ_spec(),
                hv == helper_views(helpers@),
                p == T::Field::modulus(),
                p > 0,
                x.len() == n,
                ys == helper_proofs::<T, P, L>(&typ, hv),
                n == proof_len_spec(&typ),
                leader@.len() == n,
                forall|j: int|
                    0 <= j < i ==> #[trigger] helper_proof::<T, P, L>(
                        &typ,
                        hv[j].proof_share,
                    ) is Some,
                vals(leader@) == reduced(sub_seqs(x, ys.take(i as int)), p),
            decreases helpers@.len() - i,
        {
            let helper = &helpers[i];
            assert(hv[i as int] == helper@);
            let y: Vec<T::Field> = match expand_seed::<T::Field, P, L>(
                &helper.proof_share,
                "proof share",
                n,
            ) {
                Ok(y) => y,
                Err(e) => {
                    assert(helper_proof::<T, P, L>(&typ, hv[i as int].proof_share) is None);
                    return Err(e);
                },
            };
            proof {
                assert(helper_proof::<T, P, L>(&typ, hv[i as int].proof_share) is Some);
                lemma_expand::<T::Field, P, L>(
                    helper.proof_share@,
                    "proof share".spec_bytes(),
                    n as nat,
                );
                assert(vals(y@) == ys[i as int]);
            }
            subtract_elements(&mut leader, y.as_slice());
            proof {
                lemma_sub_seqs_len(x, ys.take(i as int));
                lemma_reduced_sub(sub_seqs(x, ys.take(i as int)), ys[i as int], p);
                assert(ys.take(i + 1).drop_last() =~= ys.take(i as int));
            }
            i += 1;
        }
        assert(ys.take(i as int) =~= ys);
        Ok(leader)
    }
}

/// The exclusive or of seeds.
fn xor_seeds<const L: usize>(s: &Vec<Seed<L>>) -> (r: Seed<L>)
    ensures
        r@ == xor_all(seeds(s@), L as nat),
{
    let ghost all = seeds(s@);
    let mut r: Seed<L> = Seed::uninitialized();
    let mut i: usize = 0;
    assert(all.take(0) =~= Seq::<Seq<u8>>::empty());
    while i < s.len()
        invariant
            i <= s@.len(),
            all == seeds(s@),
            r@ == xor_all(all.take(i as int), L as nat),
        decreases s@.len() - i,
    {
        r.xor_accumulate(&s[i]);
        proof {
            assert(all.take(i + 1).drop_last() =~= all.take(i as int));
            assert(all.take(i + 1).last() == s@[i as int]@);
        }
        i += 1;
    }
    assert(all.take(i as int) =~= all);
    r
}

impl<T, A, P, const L: usize> Prio3<T, A, P, L> where T: Type, P: Prg<L> {
    /// What [`Prio3::shard`] returns, if the client draws the randomness `rand`.
    pub open spec fn shard_outcome(
        &self,
        measurement: T::Measurement,
        rand: ShardRandomness,
        r: Result<Vec<Prio3InputShare<T::Field, L>>, VdafError>,
    ) -> bool {
        match shard_spec::<T, P, L>(&self.typ_spec(), measurement, rand) {
            Ok(views) => r matches Ok(shares) && input_share_views(shares@) == views,
            Err(e) => r matches Err(f) && f@ == e,
        }
    }

    /// The randomness fits the number of aggregators and the length of a seed.
    pub open spec fn randomness_fits(&self, rand: ShardRandomness) -> bool {
        &&& rand.helpers.len() + 1 == self.num_aggregators_spec()
        &&& rand.seeds_have_len(L as nat)
    }

    /// Shards a measurement into input shares, one for each aggregator, with fresh randomness.
    pub fn shard(&self, _public_param: &(), measurement: &T::Measurement) -> (r: Result<
        Vec<Prio3InputShare<T::Field, L>>,
        VdafError,
    >)
        requires
            self.wf(),
        ensures
            self.typ_spec().encode_spec(*measurement) is None ==> (r matches Err(e) && e@
                == ErrorView::Pcp(PcpError::Encode)),
            (L > 0 && r == Err::<Vec<Prio3InputShare<T::Field, L>>, VdafError>(
                VdafError::GetRandom,
            )) || exists|rand: ShardRandomness|
                self.randomness_fits(rand) && #[trigger] self.shard_outcome(*measurement, rand, r),
            self.typ_spec().encode_spec(*measurement) is Some ==> (refused(L) && r == Err::<
                Vec<Prio3InputShare<T::Field, L>>,
                VdafError,
            >(VdafError::GetRandom)) || exists|rand: ShardRandomness|
                self.randomness_fits(rand) && randomness_drawn(rand) && #[trigger]
                    self.shard_outcome(*measurement, rand, r),
    {
        let input = match self.typ.encode(measurement) {
            Ok(input) => input,
            Err(e) => {
                let out = Err(VdafError::Pcp(e));
                proof {
                    let rand = ShardRandomness {
                        helpers: Seq::new(
                            (self.num_aggregators - 1) as nat,
                            |i: int|
                                HelperView {
                                    input_share: zero_bytes(L as nat),
                                    proof_share: zero_bytes(L as nat),
                                    blind: zero_bytes(L as nat),
                                },
                        ),
                        leader_blind: zero_bytes(L as nat),
                        prove_seed: zero_bytes(L as nat),
                    };
                    assert(self.randomness_fits(rand));
                    assert(self.shard_outcome(*measurement, rand, out));
                }
                return out;
            },
        };
        let mut helper_shares: Vec<HelperShare<L>> = Vec::new();
        let mut aggregator_id: u8 = 1;
        while aggregator_id < self.num_aggregators
            invariant
                1 <= aggregator_id <= self.num_aggregators,
                helper_shares@.len() + 1 == aggregator_id,
                self.typ_spec().encode_spec(*measurement) is Some,
                forall|i: int|
                    0 <= i < helper_shares@.len() ==> helper_drawn(
                        3 * i,
                        (#[trigger] helper_shares@[i])@,
                    ),
            decreases self.num_aggregators - aggregator_id,
        {
            let ghost place = 3 * (helper_shares@.len() as int);
            match HelperShare::new_at(Ghost(place)) {
                Ok(helper) => {
                    helper_shares.push(helper);
                },
                Err(e) => {
                    return Err(e);
                },
            }
            aggregator_id += 1;
        }
        let ghost drawn = 3 * (helper_shares@.len() as int);
        let leader_blind: Seed<L> = match Seed::generate_at(Ghost(drawn)) {
            Ok(seed) => seed,
            Err(e) => {
                return Err(e);
            },
        };
        let prove_seed: Seed<L> = match Seed::generate_at(Ghost(drawn + 1)) {
            Ok(seed) => seed,
            Err(e) => {
                return Err(e);
            },
        };
        proof {
            self.typ.lemma_encode(*measurement);
        }
        let r = self.shard_input(input, &helper_shares, &leader_blind, &prove_seed);
        proof {
            let rand = ShardRandomness {
                helpers: helper_views(helper_shares@),
                leader_blind: leader_blind@,
                prove_seed: prove_seed@,
            };
            assert(self.randomness_fits(rand));
            assert forall|i: int| 0 <= i < rand.helpers.len() implies helper_drawn(
                3 * i,
                #[trigger] rand.helpers[i],
            ) by {
                assert(rand.helpers[i] == helper_shares@[i]@);
            }
            assert(randomness_drawn(rand));
            assert(self.shard_outcome(*measurement, rand, r));
        }
        r
    }

    /// Shards a measurement into input shares, one for each aggregator, with the given
    /// randomness.
    pub fn shard_with_randomness(
        &self,
        measurement: &T::Measurement,
        helper_shares: &Vec<HelperShare<L>>,
        leader_blind: &Seed<L>,
        prove_seed: &Seed<L>,
    ) -> (r: Result<Vec<Prio3InputShare<T::Field, L>>, VdafError>)
        requires
            self.wf(),
            helper_shares@.len() + 1 == self.num_aggregators_spec(),
        ensures
            self.shard_outcome(
                *measurement,
                (ShardRandomness {
                    helpers: helper_views(helper_shares@),
                    leader_blind: leader_blind@,
                    prove_seed: prove_seed@,
                }),
                r,
            ),
    {
        proof {
            self.typ.lemma_encode(*measurement);
        }
        match self.typ.encode(measurement) {
            Ok(input) => self.shard_input(input, helper_shares, leader_blind, prove_seed),
            Err(e) => Err(VdafError::Pcp(e)),
        }
    }

    /// Splits an encoded measurement and the proof for it.
    fn shard_input(
        &self,
        input: Vec<T::Field>,
        helper_shares: &Vec<HelperShare<L>>,
        leader_blind: &Seed<L>,
        prove_seed: &Seed<L>,
    ) -> (r: Result<Vec<Prio3InputShare<T::Field, L>>, VdafError>)
        requires
            self.wf(),
            input@.len() == self.typ_spec().input_len_spec(),
            helper_shares@.len() + 1 == self.num_aggregators_spec(),
        ensures
            ({
                let rand = ShardRandomness {
                    helpers: helper_views(helper_shares@),
                    leader_blind: leader_blind@,
                    prove_seed: prove_seed@,
                };
                if shard_ok::<T, P, L>(&self.typ_spec(), vals(input@), rand) {
                    r matches Ok(shares) && input_share_views(shares@) == Seq::new(
                        rand.helpers.len() + 1,
                        |i: int|
                            client_message::<T, P, L>(&self.typ_spec(), vals(input@), rand, i),
                    )
                } else {
                    r matches Err(e) && e@ == exhausted()
                }
            }),
    {
        let ghost rand = ShardRandomness {
            helpers: helper_views(helper_shares@),
            leader_blind: leader_blind@,
            prove_seed: prove_seed@,
        };
        let ghost (typ, x, p) = (self.typ_spec(), vals(input@), T::Field::modulus());
        // Generate the input shares and compute the joint randomness.
        let (leader_input_share, helper_seeds) = match self.share_input(
            input.as_slice(),
            helper_shares,
        ) {
            Ok(v) => v,
            Err(e) => {
                return Err(e);
            },
        };
        let leader_seed = Self::derive_seed_share(leader_blind, 0, leader_input_share.as_slice());
        let mut joint_rand_seed = xor_seeds(&helper_seeds);
        joint_rand_seed.xor_accumulate(&leader_seed);
        proof {
            let shares = helper_seed_shares::<T, P, L>(&typ, rand.helpers);
            let all = shares.push(leader_seed@);
            assert(all.drop_last() =~= shares);
            assert(joint_rand_seed@ == joint_seed::<T, P, L>(&typ, x, rand));
        }
        // Run the proof-generation algorithm.
        let joint_rand_vec: Vec<T::Field> = match expand_seed::<T::Field, P, L>(
            &joint_rand_seed,
            "joint rand",
            self.typ.joint_rand_len(),
        ) {
            Ok(v) => v,
            Err(e) => {
                return Err(e);
            },
        };
        let prove_rand_vec: Vec<T::Field> = match expand_seed::<T::Field, P, L>(
            prove_seed,
            "prove rand",
            system::prove_rand_len(&self.typ),
        ) {
            Ok(v) => v,
            Err(e) => {
                return Err(e);
            },
        };
        proof {
            lemma_expand::<T::Field, P, L>(
                joint_rand_seed@,
                "joint rand".spec_bytes(),
                typ.joint_rand_len_spec(),
            );
            lemma_expand::<T::Field, P, L>(
                prove_seed@,
                "prove rand".spec_bytes(),
                prove_rand_len_spec(&typ),
            );
        }
        let proof_vec = match system::prove(
            &self.typ,
            input.as_slice(),
            prove_rand_vec.as_slice(),
            joint_rand_vec.as_slice(),
        ) {
            Ok(v) => v,
            Err(e) => {
                return Err(VdafError::Pcp(e));
            },
        };
        // Generate the proof shares and finalize the joint randomness seed hints.
        let ghost proof_elements = proof_vec@;
        let leader_proof_share = match self.share_proof(proof_vec, helper_shares) {
            Ok(v) => v,
            Err(e) => {
                return Err(e);
            },
        };
        proof {
            <T::Field as FieldElement>::lemma_field();
            let full = client_proof::<T, P, L>(&typ, x, rand);
            let hp = helper_proofs::<T, P, L>(&typ, rand.helpers);
            assert(vals(proof_elements) == reduced(full, p));
            assert(vals(proof_elements).len() == full.len());
            assert forall|i: int| 0 <= i < hp.len() implies (#[trigger] hp[i]).len()
                == full.len() by {
                assert(helper_proof::<T, P, L>(&typ, rand.helpers[i].proof_share) is Some);
                lemma_expand::<T::Field, P, L>(
                    rand.helpers[i].proof_share,
                    "proof share".spec_bytes(),
                    proof_len_spec(&typ),
                );
            }
            lemma_sub_seqs_reduced(full, hp, p);
            assert(vals(leader_proof_share@) == leader_proof::<T, P, L>(&typ, x, rand));
        }
        // Prep the output messages.
        let use_joint_rand: bool = self.typ.joint_rand_len() > 0;
        let mut out: Vec<Prio3InputShare<T::Field, L>> = Vec::new();
        out.push(
            Prio3InputShare {
                input_share: Share::Leader(leader_input_share),
                proof_share: Share::Leader(leader_proof_share),
                joint_rand_param: Self::hinted(
                    use_joint_rand,
                    &leader_seed,
                    &joint_rand_seed,
                    leader_blind,
                ),
            },
        );
        let ghost want = Seq::new(
            rand.helpers.len() + 1,
            |i: int| client_message::<T, P, L>(&typ, x, rand, i),
        );
        let mut i: usize = 0;
        while i < helper_shares.len()
            invariant
                i <= helper_shares@.len(),
                helper_seeds@.len() == helper_shares@.len(),
                rand.helpers == helper_views(helper_shares@),
                use_joint_rand == (typ.joint_rand_len_spec() > 0),
                seeds(helper_seeds@) == helper_seed_shares::<T, P, L>(&typ, rand.helpers),
                joint_rand_seed@ == joint_seed::<T, P, L>(&typ, x, rand),
                want == Seq::new(
                    rand.helpers.len() + 1,
                    |i: int| client_message::<T, P, L>(&typ, x, rand, i),
                ),
                out@.len() == i + 1,
                forall|j: int| 0 <= j <= i ==> (#[trigger] out@[j])@ == want[j],
            decreases helper_shares@.len() - i,
        {
            let helper = &helper_shares[i];
            assert(rand.helpers[i as int] == helper@);
            assert(seeds(helper_seeds@)[i as int] == helper_seeds@[i as int]@);
            out.push(
                Prio3InputShare {
                    input_share: Share::Helper(helper.input_share),
                    proof_share: Share::Helper(helper.proof_share),
                    joint_rand_param: Self::hinted(
                        use_joint_rand,
                        &helper_seeds[i],
                        &joint_rand_seed,
                        &helper.joint_rand_param.blind,
                    ),
                },
            );
            i += 1;
            assert(out@[i as int]@ == want[i as int]);
        }
        assert(input_share_views(out@) =~= want);
        Ok(out)
    }

    /// The joint randomness parameters, if the type uses joint randomness.
    fn hinted(
        use_joint_rand: bool,
        share: &Seed<L>,
        joint_rand_seed: &Seed<L>,
        blind: &Seed<L>,
    ) -> (r: Option<JointRandParam<L>>)
        ensures
            use_joint_rand ==> (r matches Some(param) && param@ == (JointRandParamView {
                seed_hint: xor(share@, joint_rand_seed@),
                blind: blind@,
            })),
            !use_joint_rand ==> r is None,
    {
        if use_joint_rand {
            let mut seed_hint = *share;
            seed_hint.xor_accumulate(joint_rand_seed);
            Some(JointRandParam { seed_hint, blind: *blind })
        } else {
            None
        }
    }
}

/// The messages of several aggregators.
pub open spec fn message_views<F: FieldElement, const L: usize>(
    msgs: Seq<Prio3PrepareMessage<F, L>>,
) -> Seq<PrepareMessageView> {
    Seq::new(msgs.len(), |i: int| msgs[i]@)
}

/// What an aggregator does next.
pub open spec fn transition_view<F: FieldElement, const L: usize>(
    transition: PrepareTransition<
        Prio3PrepareStep<F, L>,
        Prio3PrepareMessage<F, L>,
        OutputShare<F>,
    >,
) -> TransitionView {
    match transition {
        PrepareTransition::Continue(step, msg) => TransitionView::Continue(step@, msg@),
        PrepareTransition::Finish(out) => TransitionView::Finish(vals(out.0@)),
        PrepareTransition::Fail(e) => TransitionView::Fail(e@),
    }
}

/// The numbers that several output shares are.
pub open spec fn output_vals<F: FieldElement>(shares: Seq<OutputShare<F>>) -> Seq<Seq<int>> {
    Seq::new(shares.len(), |i: int| vals(shares[i].0@))
}

/// The numbers that several aggregate shares are.
pub open spec fn aggregate_vals<F: FieldElement>(shares: Seq<AggregateShare<F>>) -> Seq<Seq<int>> {
    Seq::new(shares.len(), |i: int| vals(shares[i].0@))
}

/// The vector of `n` zeros.
fn zero_vec<F: FieldElement>(n: usize) -> (r: Vec<F>)
    ensures
        vals(r@) == zeros(n as nat),
        r@.len() == n,
{
    let mut r: Vec<F> = Vec::new();
    let mut i: usize = 0;
    while i < n
        invariant
            i <= n,
            r@.len() == i,
            forall|j: int| 0 <= j < i ==> #[trigger] r@[j].val() == 0,
        decreases n - i,
    {
        r.push(F::zero());
        i += 1;
    }
    assert(vals(r@) =~= zeros(n as nat));
    r
}

proof fn lemma_zeros_reduced(n: nat, p: int)
    requires
        p > 0,
    ensures
        reduced(zeros(n), p) == zeros(n),
{
    lemma_reduced_residues(zeros(n), p);
}

impl<T, A, P, const L: usize> Prio3<T, A, P, L> where T: Type, P: Prg<L> {
    /// The vector that a share stands for.
    fn open_share(share: &Share<T::Field, L>, info: &str, n: usize) -> (r: Result<
        Vec<T::Field>,
        VdafError,
    >)
        ensures
            match opened::<T::Field, P, L>(share@, info.spec_bytes(), n as nat) {
                Some(x) => r matches Ok(v) && vals(v@) == x,
                None => r matches Err(e) && e@ == exhausted(),
            },
    {
        match share {
            Share::Leader(data) => Ok(vstd::slice::slice_to_vec(data.as_slice())),
            Share::Helper(seed) => expand_seed::<T::Field, P, L>(seed, info, n),
        }
    }

    /// Begins the Prep process with the other aggregators. The result of this process is
    /// the aggregator's output share.
    pub fn prepare_init(
        &self,
        verify_param: &Prio3VerifyParam<L>,
        _agg_param: &(),
        nonce: &[u8],
        msg: &Prio3InputShare<T::Field, L>,
    ) -> (r: Result<Prio3PrepareStep<T::Field, L>, VdafError>)
        requires
            self.wf(),
            self.typ_spec().joint_rand_len_spec() > 0 ==> msg.joint_rand_param is Some,
        ensures
            match prepare_init_spec::<T, P, L>(
                &self.typ_spec(),
                self.num_aggregators_spec(),
                verify_param@.query_rand_init,
                verify_param@.aggregator_id,
                nonce@,
                msg@,
            ) {
                Ok(step) => r matches Ok(s) && s@ == step,
                Err(e) => r matches Err(f) && f@ == e,
            },
    {
        let ghost typ = self.typ_spec();
        let mut deriver = P::init(&verify_param.query_rand_init);
        let marker: Vec<u8> = vec![255u8];
        deriver.update(marker.as_slice());
        deriver.update(nonce);
        assert(deriver.message() =~= seq![255u8] + nonce@);
        let query_rand_seed = deriver.into_seed();
        assert(query_rand_seed@ =~= query_seed::<P, L>(verify_param@.query_rand_init, nonce@));
        // Expand the input share and the proof share.
        let input_share = match Self::open_share(
            &msg.input_share,
            "input share",
            self.typ.input_len(),
        ) {
            Ok(v) => v,
            Err(e) => {
                return Err(e);
            },
        };
        let proof_share = match Self::open_share(
            &msg.proof_share,
            "proof share",
            system::proof_len(&self.typ),
        ) {
            Ok(v) => v,
            Err(e) => {
                return Err(e);
            },
        };
        let ghost (x, pf) = (vals(input_share@), vals(proof_share@));
        // Compute the joint randomness.
        let ghost received = received_seed::<T, P, L>(&typ, verify_param@.aggregator_id, msg@, x);
        let mut joint_rand_seed: Option<Seed<L>> = None;
        let mut joint_rand_seed_share: Option<Seed<L>> = None;
        let mut joint_rand_vec: Vec<T::Field> = Vec::new();
        assert(vals(joint_rand_vec@) =~= Seq::<int>::empty());
        if self.typ.joint_rand_len() > 0 {
            if let Some(param) = &msg.joint_rand_param {
                let share = Self::derive_seed_share(
                    &param.blind,
                    verify_param.aggregator_id,
                    input_share.as_slice(),
                );
                let mut seed: Seed<L> = Seed::uninitialized();
                seed.xor(&param.seed_hint, &share);
                assert(received == Some((share@, seed@)));
                joint_rand_vec = match expand_seed::<T::Field, P, L>(
                    &seed,
                    "joint rand",
                    self.typ.joint_rand_len(),
                ) {
                    Ok(v) => v,
                    Err(e) => {
                        return Err(e);
                    },
                };
                proof {
                    lemma_expand::<T::Field, P, L>(
                        seed@,
                        "joint rand".spec_bytes(),
                        typ.joint_rand_len_spec(),
                    );
                }
                joint_rand_seed = Some(seed);
                joint_rand_seed_share = Some(share);
            }
        }
        // Compute the query randomness.
        let query_rand_vec: Vec<T::Field> = match expand_seed::<T::Field, P, L>(
            &query_rand_seed,
            "query rand",
            system::query_rand_len(&self.typ),
        ) {
            Ok(v) => v,
            Err(e) => {
                return Err(e);
            },
        };
        proof {
            lemma_expand::<T::Field, P, L>(query_rand_seed@, "query rand".spec_bytes(), 1);
            assert(query_rand_vec@.len() == vals(query_rand_vec@).len());
            assert(joint_rand_vec@.len() == vals(joint_rand_vec@).len());
            assert(vals(query_rand_vec@)[0] == query_rand_vec@[0].val());
        }
        // Run the query-generation algorithm.
        let verifier_share = match system::query(
            &self.typ,
            input_share.as_slice(),
            proof_share.as_slice(),
            query_rand_vec.as_slice(),
            joint_rand_vec.as_slice(),
            self.num_aggregators,
        ) {
            Ok(v) => v,
            Err(e) => {
                return Err(VdafError::Pcp(e));
            },
        };
        Ok(
            Prio3PrepareStep::Ready {
                input_share: msg.input_share.clone(),
                joint_rand_seed,
                verifier_msg: Prio3PrepareMessage {
                    verifier: verifier_share,
                    joint_rand_seed: joint_rand_seed_share,
                },
            },
        )
    }

    /// Adds the messages of all aggregators.
    ///
    /// The messages before the first one of an unexpected length have to carry a share of the
    /// joint randomness seed, if the type uses joint randomness, and the number of messages that
    /// are looked at must not exceed 255.
    pub fn prepare_preprocess(&self, inputs: Vec<Prio3PrepareMessage<T::Field, L>>) -> (r: Result<
        Prio3PrepareMessage<T::Field, L>,
        VdafError,
    >)
        requires
            self.wf(),
            ({
                let misfit = first_misfit(
                    message_views(inputs@),
                    verifier_len_spec(&self.typ_spec()),
                );
                &&& misfit <= 255
                &&& misfit < inputs@.len() ==> misfit < 255
                &&& self.typ_spec().joint_rand_len_spec() > 0 ==> forall|i: int|
                    0 <= i < misfit ==> (#[trigger] inputs@[i]).joint_rand_seed is Some
            }),
        ensures
            match preprocess_spec(
                &self.typ_spec(),
                self.num_aggregators_spec(),
                message_views(inputs@),
                L as nat,
            ) {
                Ok(msg) => r matches Ok(m) && m@ == msg,
                Err(e) => r matches Err(f) && f@ == e,
            },
    {
        let ghost (typ, p, views) = (
            self.typ_spec(),
            T::Field::modulus(),
            message_views(inputs@),
        );
        let ghost n = verifier_len_spec(&typ);
        let ghost (vs, ss) = (verifiers(views), message_seeds(views));
        let ghost misfit = first_misfit(views, n);
        let use_joint_rand: bool = self.typ.joint_rand_len() > 0;
        let len: usize = system::verifier_len(&self.typ);
        let mut verifier: Vec<T::Field> = zero_vec(len);
        let mut joint_rand_seed: Seed<L> = Seed::uninitialized();
        let mut count: u8 = 0;
        proof {
            <T::Field as FieldElement>::lemma_field();
            lemma_first_misfit(views, n);
            lemma_zeros_reduced(n, p);
            assert(vs.take(0) =~= Seq::<Seq<int>>::empty());
            assert(ss.take(0) =~= Seq::<Seq<u8>>::empty());
        }
        let mut i: usize = 0;
        while i < inputs.len()
            invariant
                i <= inputs@.len(),
                count == i,
                i <= misfit <= 255,
                misfit <= inputs@.len(),
                misfit < inputs@.len() ==> misfit < 255,
                typ == self.typ_spec(),
                p == T::Field::modulus(),
                p > 0,
                views == message_views(inputs@),
                n == verifier_len_spec(&typ),
                len == n,
                misfit == first_misfit(views, n),
                vs == verifiers(views),
                ss == message_seeds(views),
                use_joint_rand == (typ.joint_rand_len_spec() > 0),
                use_joint_rand ==> forall|j: int|
                    0 <= j < misfit ==> (#[trigger] inputs@[j]).joint_rand_seed is Some,
                forall|j: int| 0 <= j < misfit ==> (#[trigger] views[j]).verifier.len() == n,
                misfit < views.len() ==> views[misfit as int].verifier.len() != n,
                verifier@.len() == n,
                vals(verifier@) == reduced(sum_seqs(vs.take(i as int), n), p),
                use_joint_rand ==> joint_rand_seed@ == xor_all(ss.take(i as int), L as nat),
            decreases inputs@.len() - i,
        {
            count += 1;
            let share = &inputs[i];
            assert(views[i as int] == share@);
            if share.verifier.len() != verifier.len() {
                assert(misfit == i);
                return Err(
                    VdafError::Uncategorized(
                        with_number(
                            with_text(
                                with_number(
                                    message("unexpected verifier share length: got "),
                                    share.verifier.len(),
                                ),
                                "; want ",
                            ),
                            verifier.len(),
                        ),
                    ),
                );
            }
            assert(i < misfit);
            if use_joint_rand {
                assert(inputs@[i as int].joint_rand_seed is Some);
                if let Some(seed_share) = &share.joint_rand_seed {
                    joint_rand_seed.xor_accumulate(seed_share);
                    proof {
                        assert(ss[i as int] == seed_share@);
                        assert(ss.take(i + 1).drop_last() =~= ss.take(i as int));
                    }
                }
            }
            add_elements(&mut verifier, share.verifier.as_slice());
            proof {
                lemma_sum_seqs_len(vs.take(i as int), n);
                lemma_reduced_add(sum_seqs(vs.take(i as int), n), vs[i as int], p);
                assert(vs.take(i + 1).drop_last() =~= vs.take(i as int));
            }
            i += 1;
        }
        proof {
            assert(vs.take(i as int) =~= vs);
            assert(ss.take(i as int) =~= ss);
        }
        if count != self.num_aggregators {
            return Err(
                VdafError::Uncategorized(
                    with_number(
                        with_text(
                            with_number(
                                message("unexpected message count: got "),
                                count as usize,
                            ),
                            "; want ",
                        ),
                        self.num_aggregators as usize,
                    ),
                ),
            );
        }
        let joint_rand_seed = if use_joint_rand {
            Some(joint_rand_seed)
        } else {
            None
        };
        Ok(Prio3PrepareMessage { verifier, joint_rand_seed })
    }

    /// Takes the next step of the Prep process.
    ///
    /// If the type uses joint randomness, an aggregator that waits has to hold a joint randomness
    /// seed, and so has the message it gets.
    pub fn prepare_step(
        &self,
        state: Prio3PrepareStep<T::Field, L>,
        input: Option<Prio3PrepareMessage<T::Field, L>>,
    ) -> (r: PrepareTransition<
        Prio3PrepareStep<T::Field, L>,
        Prio3PrepareMessage<T::Field, L>,
        OutputShare<T::Field>,
    >)
        requires
            self.wf(),
            self.typ_spec().joint_rand_len_spec() > 0 && state is Waiting ==> (
            input matches Some(msg) ==> state@.has_seed() && msg.joint_rand_seed is Some),
        ensures
            transition_view(r) == prepare_step_spec::<T, P, L>(
                &self.typ_spec(),
                state@,
                (match input {
                    Some(msg) => Some(msg@),
                    None => None,
                }),
            ),
    {
        match (state, input) {
            (
                Prio3PrepareStep::Ready { input_share, joint_rand_seed, verifier_msg },
                None,
            ) => {
                let verifier_len: usize = verifier_msg.verifier.len();
                PrepareTransition::Continue(
                    Prio3PrepareStep::Waiting { input_share, joint_rand_seed, verifier_len },
                    verifier_msg,
                )
            },
            (Prio3PrepareStep::Waiting { input_share, joint_rand_seed, .. }, Some(msg)) => {
                self.finish(input_share, joint_rand_seed, msg)
            },
            _ => PrepareTransition::Fail(
                VdafError::Uncategorized(message("invalid state transition")),
            ),
        }
    }

    /// Checks the joint randomness and the proof, and computes the output share.
    fn finish(
        &self,
        input_share: Share<T::Field, L>,
        joint_rand_seed: Option<Seed<L>>,
        msg: Prio3PrepareMessage<T::Field, L>,
    ) -> (r: PrepareTransition<
        Prio3PrepareStep<T::Field, L>,
        Prio3PrepareMessage<T::Field, L>,
        OutputShare<T::Field>,
    >)
        requires
            self.wf(),
            self.typ_spec().joint_rand_len_spec() > 0 ==> joint_rand_seed is Some
                && msg.joint_rand_seed is Some,
        ensures
            transition_view(r) == finish_spec::<T, P, L>(
                &self.typ_spec(),
                input_share@,
                seed_view(joint_rand_seed),
                msg@,
            ),
    {
        if self.typ.joint_rand_len() > 0 {
            // Check that the joint randomness was correct.
            if let (Some(expected), Some(got)) = (&joint_rand_seed, &msg.joint_rand_seed) {
                if !expected.equals(got) {
                    return PrepareTransition::Fail(
                        VdafError::Uncategorized(message("joint randomness mismatch")),
                    );
                }
            }
        }
        // Check the proof.
        assert(vals(msg.verifier@).len() == msg.verifier@.len());
        let res: bool = match system::decide(&self.typ, msg.verifier.as_slice()) {
            Ok(res) => res,
            Err(err) => {
                return PrepareTransition::Fail(VdafError::Pcp(err));
            },
        };
        if !res {
            return PrepareTransition::Fail(
                VdafError::Uncategorized(message("proof check failed")),
            );
        }
        // Compute the output share.
        let input: Vec<T::Field> = match Self::open_share(
            &input_share,
            "input share",
            self.typ.input_len(),
        ) {
            Ok(v) => v,
            Err(e) => {
                return PrepareTransition::Fail(e);
            },
        };
        assert(vals(input@).len() == input@.len());
        match self.typ.truncate(input) {
            Ok(data) => PrepareTransition::Finish(OutputShare(data)),
            Err(err) => PrepareTransition::Fail(VdafError::Pcp(err)),
        }
    }

    /// Aggregates a sequence of output shares into an aggregate share.
    pub fn aggregate(&self, _agg_param: &(), output_shares: Vec<OutputShare<T::Field>>) -> (r:
        Result<AggregateShare<T::Field>, VdafError>)
        requires
            self.wf(),
        ensures
            match sum_spec(
                output_vals(output_shares@),
                self.typ_spec().output_len_spec(),
                T::Field::modulus(),
            ) {
                Ok(total) => r matches Ok(share) && vals(share.0@) == total,
                Err(e) => r matches Err(f) && f@ == e,
            },
    {
        let ghost (p, vs) = (T::Field::modulus(), output_vals(output_shares@));
        let ghost n = self.typ_spec().output_len_spec();
        let ghost odd = first_odd_length(vs, n);
        let mut agg_share = AggregateShare(zero_vec(self.typ.output_len()));
        let mut i: usize = 0;
        proof {
            <T::Field as FieldElement>::lemma_field();
            lemma_first_odd_length(vs, n);
            lemma_zeros_reduced(n, p);
            assert(vs.take(0) =~= Seq::<Seq<int>>::empty());
        }
        while i < output_shares.len()
            invariant
                i <= output_shares@.len(),
                i <= odd <= vs.len(),
                p == T::Field::modulus(),
                p > 0,
                vs == output_vals(output_shares@),
                n == self.typ_spec().output_len_spec(),
                odd == first_odd_length(vs, n),
                forall|j: int| 0 <= j < odd ==> (#[trigger] vs[j]).len() == n,
                odd < vs.len() ==> vs[odd as int].len() != n,
                agg_share.0@.len() == n,
                vals(agg_share.0@) == reduced(sum_seqs(vs.take(i as int), n), p),
            decreases output_shares@.len() - i,
        {
            assert(vs[i as int] == vals(output_shares@[i as int].0@));
            match agg_share.accumulate(&output_shares[i]) {
                Ok(_) => {},
                Err(e) => {
                    return Err(e);
                },
            }
            proof {
                lemma_sum_seqs_len(vs.take(i as int), n);
                lemma_reduced_add(sum_seqs(vs.take(i as int), n), vs[i as int], p);
                assert(vs.take(i + 1).drop_last() =~= vs.take(i as int));
                lemma_sum_seqs_len(vs.take(i + 1), n);
                assert(vals(agg_share.0@).len() == n);
            }
            i += 1;
        }
        assert(vs.take(i as int) =~= vs);
        Ok(agg_share)
    }
}

impl<T, A, P, const L: usize> Prio3<T, A, P, L> where
    T: Type,
    A: TryFrom<AggregateShare<T::Field>, Error = VdafError>,
    P: Prg<L>,
 {
    /// Combines aggregate shares into the aggregate result.
    pub fn unshard(&self, _agg_param: &(), agg_shares: Vec<AggregateShare<T::Field>>) -> (r: Result<
        A,
        VdafError,
    >)
        requires
            self.wf(),
        ensures
            match sum_spec(
                aggregate_vals(agg_shares@),
                self.typ_spec().output_len_spec(),
                T::Field::modulus(),
            ) {
                Ok(total) => exists|agg: AggregateShare<T::Field>|
                    vals(agg.0@) == total && #[trigger] call_ensures(A::try_from, (agg,), r),
                Err(e) => r matches Err(f) && f@ == e,
            },
    {
        let ghost (p, vs) = (T::Field::modulus(), aggregate_vals(agg_shares@));
        let ghost n = self.typ_spec().output_len_spec();
        let ghost odd = first_odd_length(vs, n);
        let mut agg = AggregateShare(zero_vec(self.typ.output_len()));
        let mut i: usize = 0;
        proof {
            <T::Field as FieldElement>::lemma_field();
            lemma_first_odd_length(vs, n);
            lemma_zeros_reduced(n, p);
            assert(vs.take(0) =~= Seq::<Seq<int>>::empty());
        }
        while i < agg_shares.len()
            invariant
                i <= agg_shares@.len(),
                i <= odd <= vs.len(),
                p == T::Field::modulus(),
                p > 0,
                vs == aggregate_vals(agg_shares@),
                n == self.typ_spec().output_len_spec(),
                odd == first_odd_length(vs, n),
                forall|j: int| 0 <= j < odd ==> (#[trigger] vs[j]).len() == n,
                odd < vs.len() ==> vs[odd as int].len() != n,
                agg.0@.len() == n,
                vals(agg.0@) == reduced(sum_seqs(vs.take(i as int), n), p),
            decreases agg_shares@.len() - i,
        {
            assert(vs[i as int] == vals(agg_shares@[i as int].0@));
            match agg.merge(&agg_shares[i]) {
                Ok(_) => {},
                Err(e) => {
                    return Err(e);
                },
            }
            proof {
                lemma_sum_seqs_len(vs.take(i as int), n);
                lemma_reduced_add(sum_seqs(vs.take(i as int), n), vs[i as int], p);
                assert(vs.take(i + 1).drop_last() =~= vs.take(i as int));
                lemma_sum_seqs_len(vs.take(i + 1), n);
                assert(vals(agg.0@).len() == n);
            }
            i += 1;
        }
        assert(vs.take(i as int) =~= vs);
        A::try_from(agg)
    }
}

} // verus!

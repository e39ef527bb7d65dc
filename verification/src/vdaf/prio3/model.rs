//! What the steps of Prio3 compute.
use vstd::prelude::*;

verus! {

use vstd::string::StringSliceAdditionalSpecFns;
use crate::arith::{reduced, sub_seqs, sum_seqs};
use crate::codec::{parse_bytes, parse_elements, Parsed};
use crate::field::{encode_vals, inverse, FieldElement};
use crate::pcp::{
    decide_spec, proof_len_spec, prove_rand_len_spec, prove_spec, query_point_ok, query_spec,
    verifier_len_spec, PcpError, Type,
};
use crate::prng::PrngError;
use crate::text::decimal;
use crate::vdaf::prg::{derived, xor, xor_all, Prg};
use crate::vdaf::{
    encode_share, expand, length_mismatch, parse_share, ErrorView, ShareDecodingParameter,
    ShareView,
};

/// What an aggregator has to know to verify measurements.
#[verifier::ext_equal]
pub struct VerifyParamView {
    /// Key used to derive the query randomness from the nonce.
    pub query_rand_init: Seq<u8>,
    /// The identity of the aggregator.
    pub aggregator_id: u8,
    /// Length in field elements of an uncompressed input share.
    pub input_len: usize,
    /// Length in field elements of an uncompressed proof.
    pub proof_len: usize,
    /// Length of the joint randomness.
    pub joint_rand_len: usize,
}

impl VerifyParamView {
    /// How the two shares of this aggregator are decoded.
    pub open spec fn share_parameters(&self) -> (ShareDecodingParameter, ShareDecodingParameter) {
        if self.aggregator_id == 0 {
            (
                ShareDecodingParameter::Leader(self.input_len),
                ShareDecodingParameter::Leader(self.proof_len),
            )
        } else {
            (ShareDecodingParameter::Helper, ShareDecodingParameter::Helper)
        }
    }
}

/// The verification parameter of the `i`-th aggregator for the key `key`.
pub open spec fn verify_param<T: Type>(typ: &T, key: Seq<u8>, i: int) -> VerifyParamView {
    VerifyParamView {
        query_rand_init: key,
        aggregator_id: i as u8,
        input_len: typ.input_len_spec() as usize,
        proof_len: proof_len_spec(typ) as usize,
        joint_rand_len: typ.joint_rand_len_spec() as usize,
    }
}

/// The parameters of the joint randomness that one aggregator gets.
#[verifier::ext_equal]
pub struct JointRandParamView {
    /// The exclusive or of the joint randomness seed and the aggregator's share of it.
    pub seed_hint: Seq<u8>,
    /// The seed that the share is derived under.
    pub blind: Seq<u8>,
}

/// What a client sends to one aggregator.
#[verifier::ext_equal]
pub struct InputShareView {
    /// The share of the encoded measurement.
    pub input_share: ShareView,
    /// The share of the proof.
    pub proof_share: ShareView,
    /// The parameters of the joint randomness, if the type uses any.
    pub joint_rand_param: Option<JointRandParamView>,
}

/// What an aggregator sends to the others, or the sum of that.
#[verifier::ext_equal]
pub struct PrepareMessageView {
    /// The (share of the) verifier message.
    pub verifier: Seq<int>,
    /// The (share of the) joint randomness seed, if the type uses any.
    pub joint_rand_seed: Option<Seq<u8>>,
}

/// The state of an aggregator.
#[verifier::ext_equal]
pub enum PrepareStepView {
    /// Ready to send the verifier message.
    Ready {
        /// The share of the encoded measurement.
        input_share: ShareView,
        /// The joint randomness seed, as the aggregator computed it.
        joint_rand_seed: Option<Seq<u8>>,
        /// The message to send.
        verifier_msg: PrepareMessageView,
    },
    /// Waiting for the sum of the verifier messages.
    Waiting {
        /// The share of the encoded measurement.
        input_share: ShareView,
        /// The joint randomness seed, as the aggregator computed it.
        joint_rand_seed: Option<Seq<u8>>,
        /// The length of the verifier message.
        verifier_len: nat,
    },
}

impl PrepareStepView {
    /// The length of the verifier message.
    pub open spec fn verifier_len(&self) -> nat {
        match self {
            PrepareStepView::Ready { verifier_msg, .. } => verifier_msg.verifier.len(),
            PrepareStepView::Waiting { verifier_len, .. } => *verifier_len,
        }
    }

    /// The joint randomness seed.
    pub open spec fn seed(&self) -> Option<Seq<u8>> {
        match self {
            PrepareStepView::Ready { joint_rand_seed, .. } => *joint_rand_seed,
            PrepareStepView::Waiting { joint_rand_seed, .. } => *joint_rand_seed,
        }
    }

    /// There is a joint randomness seed.
    pub open spec fn has_seed(&self) -> bool {
        self.seed() is Some
    }
}

/// What an aggregator does next.
#[verifier::ext_equal]
pub enum TransitionView {
    /// It goes on from a state, after sending a message to the others.
    Continue(PrepareStepView, PrepareMessageView),
    /// It has its output share.
    Finish(Seq<int>),
    /// The preparation has failed.
    Fail(ErrorView),
}

/// The randomness that a client draws for one helper.
#[verifier::ext_equal]
pub struct HelperView {
    /// The seed of the input share.
    pub input_share: Seq<u8>,
    /// The seed of the proof share.
    pub proof_share: Seq<u8>,
    /// The seed that the share of the joint randomness seed is derived under.
    pub blind: Seq<u8>,
}

/// The randomness that a client draws for one measurement.
#[verifier::ext_equal]
pub struct ShardRandomness {
    /// The randomness for the helpers.
    pub helpers: Seq<HelperView>,
    /// The seed that the leader's share of the joint randomness seed is derived under.
    pub leader_blind: Seq<u8>,
    /// The seed of the prover's randomness.
    pub prove_seed: Seq<u8>,
}

impl ShardRandomness {
    /// Every seed has `n` bytes.
    pub open spec fn seeds_have_len(&self, n: nat) -> bool {
        &&& forall|i: int|
            0 <= i < self.helpers.len() ==> {
                let h = #[trigger] self.helpers[i];
                h.input_share.len() == n && h.proof_share.len() == n && h.blind.len() == n
            }
        &&& self.leader_blind.len() == n
        &&& self.prove_seed.len() == n
    }
}

/// The error of a stream that has ended.
pub open spec fn exhausted() -> ErrorView {
    ErrorView::Prng(PrngError::Exhausted)
}

/// Why a number of aggregators is not accepted.
pub open spec fn aggregators_error(n: u8) -> Option<ErrorView> {
    if n == 0 {
        Some(
            ErrorView::Uncategorized(
                "at least one aggregator is required; got "@ + decimal(n as nat),
            ),
        )
    } else if n > 254 {
        Some(
            ErrorView::Uncategorized(
                "number of aggregators must not exceed 254; got "@ + decimal(n as nat),
            ),
        )
    } else {
        None
    }
}

/// An aggregator's share of the joint randomness seed: it is derived from the aggregator's
/// identity and its input share.
pub open spec fn seed_share<F: FieldElement, P: Prg<L>, const L: usize>(
    blind: Seq<u8>,
    aggregator_id: u8,
    input_share: Seq<int>,
) -> Seq<u8> {
    derived::<P, L>(
        blind,
        seq![aggregator_id] + encode_vals(input_share, F::encoded_size_spec()),
    )
}

/// The input share of a helper.
pub open spec fn helper_input<T: Type, P: Prg<L>, const L: usize>(typ: &T, seed: Seq<u8>) -> Option<
    Seq<int>,
> {
    expand::<T::Field, P, L>(seed, "input share".spec_bytes(), typ.input_len_spec())
}

/// The proof share of a helper.
pub open spec fn helper_proof<T: Type, P: Prg<L>, const L: usize>(typ: &T, seed: Seq<u8>) -> Option<
    Seq<int>,
> {
    expand::<T::Field, P, L>(seed, "proof share".spec_bytes(), proof_len_spec(typ))
}

/// The joint randomness that belongs to a seed.
pub open spec fn joint_rand<T: Type, P: Prg<L>, const L: usize>(typ: &T, seed: Seq<u8>) -> Option<
    Seq<int>,
> {
    expand::<T::Field, P, L>(seed, "joint rand".spec_bytes(), typ.joint_rand_len_spec())
}

/// The prover's randomness that belongs to a seed.
pub open spec fn prove_rand<T: Type, P: Prg<L>, const L: usize>(typ: &T, seed: Seq<u8>) -> Option<
    Seq<int>,
> {
    expand::<T::Field, P, L>(seed, "prove rand".spec_bytes(), prove_rand_len_spec(typ))
}

/// The query point that belongs to a seed.
pub open spec fn query_rand<T: Type, P: Prg<L>, const L: usize>(typ: &T, seed: Seq<u8>) -> Option<
    Seq<int>,
> {
    expand::<T::Field, P, L>(seed, "query rand".spec_bytes(), 1)
}

/// The seed of the query randomness for a nonce.
pub open spec fn query_seed<P: Prg<L>, const L: usize>(
    query_rand_init: Seq<u8>,
    nonce: Seq<u8>,
) -> Seq<u8> {
    derived::<P, L>(query_rand_init, seq![255u8] + nonce)
}

/// The input shares of the helpers.
pub open spec fn helper_inputs<T: Type, P: Prg<L>, const L: usize>(
    typ: &T,
    helpers: Seq<HelperView>,
) -> Seq<Seq<int>> {
    Seq::new(helpers.len(), |i: int| helper_input::<T, P, L>(typ, helpers[i].input_share)->0)
}

/// The proof shares of the helpers.
pub open spec fn helper_proofs<T: Type, P: Prg<L>, const L: usize>(
    typ: &T,
    helpers: Seq<HelperView>,
) -> Seq<Seq<int>> {
    Seq::new(helpers.len(), |i: int| helper_proof::<T, P, L>(typ, helpers[i].proof_share)->0)
}

/// The input share of the leader: what the helpers' shares leave of the encoded measurement.
pub open spec fn leader_input<T: Type, P: Prg<L>, const L: usize>(
    typ: &T,
    x: Seq<int>,
    helpers: Seq<HelperView>,
) -> Seq<int> {
    reduced(sub_seqs(x, helper_inputs::<T, P, L>(typ, helpers)), T::Field::modulus())
}

/// The helpers' shares of the joint randomness seed. The helpers are numbered from one.
pub open spec fn helper_seed_shares<T: Type, P: Prg<L>, const L: usize>(
    typ: &T,
    helpers: Seq<HelperView>,
) -> Seq<Seq<u8>> {
    Seq::new(
        helpers.len(),
        |i: int|
            seed_share::<T::Field, P, L>(
                helpers[i].blind,
                (i + 1) as u8,
                helper_inputs::<T, P, L>(typ, helpers)[i],
            ),
    )
}

/// The leader's share of the joint randomness seed. The leader has the number zero.
pub open spec fn leader_seed_share<T: Type, P: Prg<L>, const L: usize>(
    typ: &T,
    x: Seq<int>,
    rand: ShardRandomness,
) -> Seq<u8> {
    seed_share::<T::Field, P, L>(
        rand.leader_blind,
        0,
        leader_input::<T, P, L>(typ, x, rand.helpers),
    )
}

/// The joint randomness seed: the exclusive or of all shares of it.
pub open spec fn joint_seed<T: Type, P: Prg<L>, const L: usize>(
    typ: &T,
    x: Seq<int>,
    rand: ShardRandomness,
) -> Seq<u8> {
    xor_all(
        helper_seed_shares::<T, P, L>(typ, rand.helpers).push(
            leader_seed_share::<T, P, L>(typ, x, rand),
        ),
        L as nat,
    )
}

/// The proof for the encoded measurement.
pub open spec fn client_proof<T: Type, P: Prg<L>, const L: usize>(
    typ: &T,
    x: Seq<int>,
    rand: ShardRandomness,
) -> Seq<int> {
    prove_spec(
        typ,
        x,
        prove_rand::<T, P, L>(typ, rand.prove_seed)->0,
        joint_rand::<T, P, L>(typ, joint_seed::<T, P, L>(typ, x, rand))->0,
    )
}

/// The proof share of the leader: what the helpers' shares leave of the proof.
pub open spec fn leader_proof<T: Type, P: Prg<L>, const L: usize>(
    typ: &T,
    x: Seq<int>,
    rand: ShardRandomness,
) -> Seq<int> {
    reduced(
        sub_seqs(
            client_proof::<T, P, L>(typ, x, rand),
            helper_proofs::<T, P, L>(typ, rand.helpers),
        ),
        T::Field::modulus(),
    )
}

/// The input shares of the helpers can be expanded.
pub open spec fn inputs_expand<T: Type, P: Prg<L>, const L: usize>(
    typ: &T,
    helpers: Seq<HelperView>,
) -> bool {
    forall|i: int|
        0 <= i < helpers.len() ==> #[trigger] helper_input::<T, P, L>(
            typ,
            helpers[i].input_share,
        ) is Some
}

/// The proof shares of the helpers can be expanded.
pub open spec fn proofs_expand<T: Type, P: Prg<L>, const L: usize>(
    typ: &T,
    helpers: Seq<HelperView>,
) -> bool {
    forall|i: int|
        0 <= i < helpers.len() ==> #[trigger] helper_proof::<T, P, L>(
            typ,
            helpers[i].proof_share,
        ) is Some
}

/// No stream ends before all that is needed has been read from it.
pub open spec fn shard_ok<T: Type, P: Prg<L>, const L: usize>(
    typ: &T,
    x: Seq<int>,
    rand: ShardRandomness,
) -> bool {
    &&& inputs_expand::<T, P, L>(typ, rand.helpers)
    &&& joint_rand::<T, P, L>(typ, joint_seed::<T, P, L>(typ, x, rand)) is Some
    &&& prove_rand::<T, P, L>(typ, rand.prove_seed) is Some
    &&& proofs_expand::<T, P, L>(typ, rand.helpers)
}

/// The joint randomness parameters, if the type uses joint randomness.
pub open spec fn joint_rand_param<T: Type>(
    typ: &T,
    seed: Seq<u8>,
    share: Seq<u8>,
    blind: Seq<u8>,
) -> Option<JointRandParamView> {
    if typ.joint_rand_len_spec() > 0 {
        Some(JointRandParamView { seed_hint: xor(share, seed), blind })
    } else {
        None
    }
}

/// What the client sends to the `i`-th aggregator.
pub open spec fn client_message<T: Type, P: Prg<L>, const L: usize>(
    typ: &T,
    x: Seq<int>,
    rand: ShardRandomness,
    i: int,
) -> InputShareView {
    let seed = joint_seed::<T, P, L>(typ, x, rand);
    if i == 0 {
        InputShareView {
            input_share: ShareView::Leader(leader_input::<T, P, L>(typ, x, rand.helpers)),
            proof_share: ShareView::Leader(leader_proof::<T, P, L>(typ, x, rand)),
            joint_rand_param: joint_rand_param(
                typ,
                seed,
                leader_seed_share::<T, P, L>(typ, x, rand),
                rand.leader_blind,
            ),
        }
    } else {
        let h = rand.helpers[i - 1];
        InputShareView {
            input_share: ShareView::Helper(h.input_share),
            proof_share: ShareView::Helper(h.proof_share),
            joint_rand_param: joint_rand_param(
                typ,
                seed,
                helper_seed_shares::<T, P, L>(typ, rand.helpers)[i - 1],
                h.blind,
            ),
        }
    }
}

/// What the client sends to the aggregators, if the measurement can be encoded and no stream
/// ends too early.
pub open spec fn shard_spec<T: Type, P: Prg<L>, const L: usize>(
    typ: &T,
    measurement: T::Measurement,
    rand: ShardRandomness,
) -> Result<Seq<InputShareView>, ErrorView> {
    match typ.encode_spec(measurement) {
        None => Err(ErrorView::Pcp(PcpError::Encode)),
        Some(x) => if shard_ok::<T, P, L>(typ, x, rand) {
            Ok(
                Seq::new(
                    rand.helpers.len() + 1,
                    |i: int| client_message::<T, P, L>(typ, x, rand, i),
                ),
            )
        } else {
            Err(exhausted())
        },
    }
}

/// The vector that a share stands for.
pub open spec fn opened<F: FieldElement, P: Prg<L>, const L: usize>(
    share: ShareView,
    info: Seq<u8>,
    n: nat,
) -> Option<Seq<int>> {
    match share {
        ShareView::Leader(data) => Some(data),
        ShareView::Helper(seed) => expand::<F, P, L>(seed, info, n),
    }
}

/// The input share that a message holds.
pub open spec fn opened_input<T: Type, P: Prg<L>, const L: usize>(
    typ: &T,
    share: ShareView,
) -> Option<Seq<int>> {
    opened::<T::Field, P, L>(share, "input share".spec_bytes(), typ.input_len_spec())
}

/// The proof share that a message holds.
pub open spec fn opened_proof<T: Type, P: Prg<L>, const L: usize>(
    typ: &T,
    share: ShareView,
) -> Option<Seq<int>> {
    opened::<T::Field, P, L>(share, "proof share".spec_bytes(), proof_len_spec(typ))
}

/// An aggregator's share of the joint randomness seed, and the seed as it computes it.
pub open spec fn received_seed<T: Type, P: Prg<L>, const L: usize>(
    typ: &T,
    aggregator_id: u8,
    msg: InputShareView,
    x: Seq<int>,
) -> Option<(Seq<u8>, Seq<u8>)> {
    if typ.joint_rand_len_spec() > 0 {
        let param = msg.joint_rand_param->0;
        let share = seed_share::<T::Field, P, L>(param.blind, aggregator_id, x);
        Some((share, xor(param.seed_hint, share)))
    } else {
        None
    }
}

/// The joint randomness as an aggregator computes it.
pub open spec fn received_joint_rand<T: Type, P: Prg<L>, const L: usize>(
    typ: &T,
    received: Option<(Seq<u8>, Seq<u8>)>,
) -> Option<Seq<int>> {
    match received {
        Some((share, seed)) => joint_rand::<T, P, L>(typ, seed),
        None => Some(Seq::empty()),
    }
}

/// The state that an aggregator starts in, for the expanded shares `x` and `pf`.
pub open spec fn ready_state<T: Type>(
    typ: &T,
    num_aggregators: u8,
    share: ShareView,
    x: Seq<int>,
    pf: Seq<int>,
    received: Option<(Seq<u8>, Seq<u8>)>,
    jr: Seq<int>,
    point: int,
) -> Result<PrepareStepView, ErrorView> {
    let p = T::Field::modulus();
    if x.len() != typ.input_len_spec() || pf.len() != proof_len_spec(typ) {
        Err(ErrorView::Pcp(PcpError::Query))
    } else if !query_point_ok(typ, point) {
        Err(ErrorView::Pcp(PcpError::QueryRandomness))
    } else {
        Ok(
            PrepareStepView::Ready {
                input_share: share,
                joint_rand_seed: match received {
                    Some((_, seed)) => Some(seed),
                    None => None,
                },
                verifier_msg: PrepareMessageView {
                    verifier: reduced(
                        query_spec(typ, x, pf, point, jr, inverse(num_aggregators as int, p) % p),
                        p,
                    ),
                    joint_rand_seed: match received {
                        Some((share, _)) => Some(share),
                        None => None,
                    },
                },
            },
        )
    }
}

/// The state that an aggregator starts in.
pub open spec fn prepare_init_spec<T: Type, P: Prg<L>, const L: usize>(
    typ: &T,
    num_aggregators: u8,
    query_rand_init: Seq<u8>,
    aggregator_id: u8,
    nonce: Seq<u8>,
    msg: InputShareView,
) -> Result<PrepareStepView, ErrorView> {
    match (
        opened_input::<T, P, L>(typ, msg.input_share),
        opened_proof::<T, P, L>(typ, msg.proof_share),
        query_rand::<T, P, L>(typ, query_seed::<P, L>(query_rand_init, nonce)),
    ) {
        (Some(x), Some(pf), Some(qr)) => {
            let received = received_seed::<T, P, L>(typ, aggregator_id, msg, x);
            match received_joint_rand::<T, P, L>(typ, received) {
                Some(jr) => ready_state(
                    typ,
                    num_aggregators,
                    msg.input_share,
                    x,
                    pf,
                    received,
                    jr,
                    qr[0],
                ),
                None => Err(exhausted()),
            }
        },
        _ => Err(exhausted()),
    }
}

/// The position of the first message whose verifier does not have the length `n`, or the number
/// of messages if there is none.
pub open spec fn first_misfit(msgs: Seq<PrepareMessageView>, n: nat) -> nat
    decreases msgs.len(),
{
    if msgs.len() == 0 || msgs[0].verifier.len() != n {
        0
    } else {
        1 + first_misfit(msgs.drop_first(), n)
    }
}

pub proof fn lemma_first_misfit(msgs: Seq<PrepareMessageView>, n: nat)
    ensures
        first_misfit(msgs, n) <= msgs.len(),
        forall|i: int|
            0 <= i < first_misfit(msgs, n) ==> (#[trigger] msgs[i]).verifier.len() == n,
        first_misfit(msgs, n) < msgs.len() ==> msgs[first_misfit(msgs, n) as int].verifier.len()
            != n,
    decreases msgs.len(),
{
    if msgs.len() > 0 && msgs[0].verifier.len() == n {
        let rest = msgs.drop_first();
        lemma_first_misfit(rest, n);
        assert forall|i: int| 0 <= i < first_misfit(msgs, n) implies (
        #[trigger] msgs[i]).verifier.len() == n by {
            if i > 0 {
                assert(rest[i - 1].verifier.len() == n);
            }
        }
    }
}

/// The verifier shares of messages.
pub open spec fn verifiers(msgs: Seq<PrepareMessageView>) -> Seq<Seq<int>> {
    Seq::new(msgs.len(), |i: int| msgs[i].verifier)
}

/// The shares of the joint randomness seed of messages.
pub open spec fn message_seeds(msgs: Seq<PrepareMessageView>) -> Seq<Seq<u8>> {
    Seq::new(msgs.len(), |i: int| msgs[i].joint_rand_seed->0)
}

/// The sum of the messages of all aggregators.
pub open spec fn preprocess_spec<T: Type>(
    typ: &T,
    num_aggregators: u8,
    msgs: Seq<PrepareMessageView>,
    seed_len: nat,
) -> Result<PrepareMessageView, ErrorView> {
    let want = verifier_len_spec(typ);
    let misfit = first_misfit(msgs, want);
    if misfit < msgs.len() {
        Err(
            ErrorView::Uncategorized(
                "unexpected verifier share length: got "@ + decimal(
                    msgs[misfit as int].verifier.len(),
                ) + "; want "@ + decimal(want),
            ),
        )
    } else if msgs.len() != num_aggregators {
        Err(
            ErrorView::Uncategorized(
                "unexpected message count: got "@ + decimal(msgs.len()) + "; want "@ + decimal(
                    num_aggregators as nat,
                ),
            ),
        )
    } else {
        Ok(
            PrepareMessageView {
                verifier: reduced(sum_seqs(verifiers(msgs), want), T::Field::modulus()),
                joint_rand_seed: if typ.joint_rand_len_spec() > 0 {
                    Some(xor_all(message_seeds(msgs), seed_len))
                } else {
                    None
                },
            },
        )
    }
}

/// The end of the preparation: the joint randomness and the proof are checked, and the output
/// share is computed.
pub open spec fn finish_spec<T: Type, P: Prg<L>, const L: usize>(
    typ: &T,
    input_share: ShareView,
    joint_rand_seed: Option<Seq<u8>>,
    msg: PrepareMessageView,
) -> TransitionView {
    if typ.joint_rand_len_spec() > 0 && joint_rand_seed != msg.joint_rand_seed {
        TransitionView::Fail(ErrorView::Uncategorized("joint randomness mismatch"@))
    } else if msg.verifier.len() != verifier_len_spec(typ) {
        TransitionView::Fail(ErrorView::Pcp(PcpError::Decide))
    } else if !decide_spec(typ, msg.verifier) {
        TransitionView::Fail(ErrorView::Uncategorized("proof check failed"@))
    } else {
        match opened_input::<T, P, L>(typ, input_share) {
            None => TransitionView::Fail(exhausted()),
            Some(x) => if x.len() != typ.input_len_spec() {
                TransitionView::Fail(ErrorView::Pcp(PcpError::Truncate))
            } else {
                TransitionView::Finish(reduced(typ.truncate_spec(x), T::Field::modulus()))
            },
        }
    }
}

/// What an aggregator does next.
pub open spec fn prepare_step_spec<T: Type, P: Prg<L>, const L: usize>(
    typ: &T,
    state: PrepareStepView,
    input: Option<PrepareMessageView>,
) -> TransitionView {
    match (state, input) {
        (PrepareStepView::Ready { input_share, joint_rand_seed, verifier_msg }, None) => {
            TransitionView::Continue(
                PrepareStepView::Waiting {
                    input_share,
                    joint_rand_seed,
                    verifier_len: verifier_msg.verifier.len(),
                },
                verifier_msg,
            )
        },
        (PrepareStepView::Waiting { input_share, joint_rand_seed, .. }, Some(msg)) => {
            finish_spec::<T, P, L>(typ, input_share, joint_rand_seed, msg)
        },
        _ => TransitionView::Fail(ErrorView::Uncategorized("invalid state transition"@)),
    }
}

/// The position of the first vector that does not have the length `n`, or the number of vectors
/// if there is none.
pub open spec fn first_odd_length(vs: Seq<Seq<int>>, n: nat) -> nat
    decreases vs.len(),
{
    if vs.len() == 0 || vs[0].len() != n {
        0
    } else {
        1 + first_odd_length(vs.drop_first(), n)
    }
}

pub proof fn lemma_first_odd_length(vs: Seq<Seq<int>>, n: nat)
    ensures
        first_odd_length(vs, n) <= vs.len(),
        forall|i: int| 0 <= i < first_odd_length(vs, n) ==> (#[trigger] vs[i]).len() == n,
        first_odd_length(vs, n) < vs.len() ==> vs[first_odd_length(vs, n) as int].len() != n,
    decreases vs.len(),
{
    if vs.len() > 0 && vs[0].len() == n {
        let rest = vs.drop_first();
        lemma_first_odd_length(rest, n);
        assert forall|i: int| 0 <= i < first_odd_length(vs, n) implies (#[trigger] vs[i]).len()
            == n by {
            if i > 0 {
                assert(rest[i - 1].len() == n);
            }
        }
    }
}

/// The sum of vectors of length `n`, or the error if the length of one is another.
pub open spec fn sum_spec(vs: Seq<Seq<int>>, n: nat, p: int) -> Result<Seq<int>, ErrorView> {
    let odd = first_odd_length(vs, n);
    if odd < vs.len() {
        Err(length_mismatch(n, vs[odd as int].len()))
    } else {
        Ok(reduced(sum_seqs(vs, n), p))
    }
}

/// The aggregate result of one number.
pub open spec fn result_spec(data: Seq<int>) -> Result<u64, ErrorView> {
    if data.len() != 1 {
        Err(
            ErrorView::Uncategorized(
                "unexpected aggregate length for count type: got "@ + decimal(data.len())
                    + "; want 1"@,
            ),
        )
    } else if data[0] > u64::MAX {
        Err(too_large())
    } else {
        Ok(data[0] as u64)
    }
}

/// The error of a result that does not fit.
pub open spec fn too_large() -> ErrorView {
    ErrorView::Uncategorized("result too large for output type: TryFromIntError(())"@)
}

/// The aggregate result of several numbers.
pub open spec fn result_vec_spec(data: Seq<int>) -> Result<Seq<u64>, ErrorView> {
    if exists|i: int| 0 <= i < data.len() && #[trigger] data[i] > u64::MAX {
        Err(too_large())
    } else {
        Ok(Seq::new(data.len(), |i: int| data[i] as u64))
    }
}

/// The encoding of an input share.
pub open spec fn encode_input_share(share: InputShareView, size: nat) -> Seq<u8> {
    let shares = encode_share(share.input_share, size) + encode_share(share.proof_share, size);
    match share.joint_rand_param {
        Some(param) => shares + param.seed_hint + param.blind,
        None => shares,
    }
}

/// Reads the joint randomness parameters.
pub open spec fn parse_joint_rand_param(b: Seq<u8>, seed_len: nat) -> Parsed<JointRandParamView> {
    match parse_bytes(b, seed_len) {
        Err(e) => Err(e),
        Ok((seed_hint, rest)) => match parse_bytes(rest, seed_len) {
            Err(e) => Err(e),
            Ok((blind, rest)) => Ok((JointRandParamView { seed_hint, blind }, rest)),
        },
    }
}

/// Reads an input share.
pub open spec fn parse_input_share(
    b: Seq<u8>,
    input: ShareDecodingParameter,
    pf: ShareDecodingParameter,
    with_joint_rand: bool,
    seed_len: nat,
    size: nat,
    p: int,
) -> Parsed<InputShareView> {
    match parse_share(b, input, seed_len, size, p) {
        Err(e) => Err(e),
        Ok((input_share, rest)) => match parse_share(rest, pf, seed_len, size, p) {
            Err(e) => Err(e),
            Ok((proof_share, rest)) => if with_joint_rand {
                match parse_joint_rand_param(rest, seed_len) {
                    Err(e) => Err(e),
                    Ok((param, rest)) => Ok(
                        (
                            InputShareView {
                                input_share,
                                proof_share,
                                joint_rand_param: Some(param),
                            },
                            rest,
                        ),
                    ),
                }
            } else {
                Ok((InputShareView { input_share, proof_share, joint_rand_param: None }, rest))
            },
        },
    }
}

/// The encoding of a prepare message.
pub open spec fn encode_message(msg: PrepareMessageView, size: nat) -> Seq<u8> {
    let verifier = encode_vals(msg.verifier, size);
    match msg.joint_rand_seed {
        Some(seed) => verifier + seed,
        None => verifier,
    }
}

/// Reads a prepare message.
pub open spec fn parse_message(
    b: Seq<u8>,
    verifier_len: nat,
    with_seed: bool,
    seed_len: nat,
    size: nat,
    p: int,
) -> Parsed<PrepareMessageView> {
    match parse_elements(b, verifier_len, size, p) {
        Err(e) => Err(e),
        Ok((verifier, rest)) => if with_seed {
            match parse_bytes(rest, seed_len) {
                Err(e) => Err(e),
                Ok((seed, rest)) => Ok(
                    (PrepareMessageView { verifier, joint_rand_seed: Some(seed) }, rest),
                ),
            }
        } else {
            Ok((PrepareMessageView { verifier, joint_rand_seed: None }, rest))
        },
    }
}

} // verus!

//! What the steps of Prio3 do, said of their inputs and results alone.
use vstd::prelude::*;

verus! {

use vstd::arithmetic::power::pow;
use vstd::string::StringSliceAdditionalSpecFns;
use vstd::arithmetic::power2::lemma_pow2_pos;
use crate::arith::{
    cong, entries_at, law_sum_seqs, lemma_cong_mod, lemma_cong_mul, lemma_reduced_cong,
    lemma_sub_seqs_len, reduced, sub_seqs, sum_seqs, total,
};
use crate::codec::{law_parse_elements, parse_elements, reads_numbers, CodecError, Parsed};
use crate::field::{
    encode_vals, inverse, law_encode_vals, lemma_inverse, lemma_prime, FieldElement,
};
use crate::pcp::gadgets::Gadget;
use crate::pcp::laws::{law_refused_points, lemma_proof_complete, lemma_query_linear};
use crate::pcp::{
    decide_spec, domain, domain_log, proof_len_spec, prove_rand_len_spec, prove_spec,
    query_point_ok, query_spec, verifier_len_spec, PcpError, Type,
};
use crate::prng::PrngError;
use crate::text::{law_decimal, writes};
use crate::vdaf::prg::{
    lemma_xor_all_append, lemma_xor_all_len, lemma_xor_all_one, lemma_xor_all_remove,
    lemma_xor_cancel, lemma_xor_comm, supplied_at, xor, xor_all, Prg, Seed,
};
use crate::vdaf::{
    are_share_bytes, encode_share, expand, first_elements, law_encode_share, law_expand,
    law_parse_share, lemma_expand, parse_share, AggregateShare, ErrorView, OutputShare,
    PrepareTransition, ShareDecodingParameter, ShareView, VdafError,
};
use crate::vdaf::prio3::laws::{
    held_inputs, held_proofs, held_seeds, law_input_shares_sum, law_proof_shares_sum, query_ok,
    sharded,
};
use crate::vdaf::prio3::model::{
    aggregators_error, encode_input_share, encode_message, first_misfit, first_odd_length,
    helper_input, helper_inputs, helper_proof, helper_proofs, helper_seed_shares, inputs_expand,
    joint_rand, joint_seed, leader_seed_share, lemma_first_misfit, lemma_first_odd_length,
    message_seeds, opened, opened_input, opened_proof, parse_input_share, parse_message,
    prepare_init_spec, prepare_step_spec, preprocess_spec, proofs_expand, prove_rand,
    query_rand, query_seed, ready_state, received_seed, result_vec_spec, seed_share, shard_ok,
    shard_spec, sum_spec, verifiers, verify_param, InputShareView, JointRandParamView,
    PrepareMessageView, PrepareStepView, ShardRandomness, TransitionView, VerifyParamView,
};
use crate::vdaf::prio3::{
    aggregate_vals, helper_drawn, helper_views, input_share_views, message_views, output_vals,
    randomness_drawn, seed_view, transition_view, HelperShare, Prio3, Prio3InputShare,
    Prio3PrepareMessage, Prio3PrepareStep, Prio3Result, Prio3ResultVec, Prio3VerifyParam,
};

/// From one to 254 aggregators are accepted. The error for another number names it.
pub proof fn law_aggregators(n: u8)
    ensures
        match aggregators_error(n) {
            None => 1 <= n <= 254,
            Some(e) => exists|d: Seq<char>| #[trigger]
                writes(d, n as int) && (n == 0 && e == ErrorView::Uncategorized(
                    "at least one aggregator is required; got "@ + d,
                ) || n == 255 && e == ErrorView::Uncategorized(
                    "number of aggregators must not exceed 254; got "@ + d,
                )),
        },
{
    law_decimal(n as nat);
}

/// There is one verification parameter for each aggregator, in the order of their identities. All
/// hold the key, and the lengths that the aggregators have to expect.
pub proof fn law_verify_params<T: Type, A, P: Prg<L>, const L: usize>(
    v: &Prio3<T, A, P, L>,
    key: Seq<u8>,
    params: Seq<Prio3VerifyParam<L>>,
)
    requires
        v.wf(),
        v.are_verify_params(key, params),
    ensures
        params.len() == v.num_aggregators_spec(),
        forall|i: int|
            0 <= i < params.len() ==> {
                let typ = v.typ_spec();
                let g = typ.gadget_spec();
                let param = (#[trigger] params[i])@;
                &&& param.query_rand_init == key
                &&& param.aggregator_id == i
                &&& param.input_len == typ.input_len_spec()
                &&& param.proof_len == g.arity_spec() + g.degree_spec() * (domain(&typ)
                    - 1) + 1
                &&& param.joint_rand_len == typ.joint_rand_len_spec()
            },
{
    let typ = v.typ_spec();
    typ.lemma_sizes();
    let m = domain(&typ);
    lemma_pow2_pos(domain_log(&typ));
    let d = typ.gadget_spec().degree_spec();
    assert(d * (m - 1) >= 0) by (nonlinear_arith)
        requires
            d >= 0,
            m >= 1,
    ;
    assert forall|i: int| 0 <= i < params.len() implies ({
        let g = typ.gadget_spec();
        let param = (#[trigger] params[i])@;
        &&& param.query_rand_init == key
        &&& param.aggregator_id == i
        &&& param.input_len == typ.input_len_spec()
        &&& param.proof_len == g.arity_spec() + g.degree_spec() * (m - 1) + 1
        &&& param.joint_rand_len == typ.joint_rand_len_spec()
    }) by {
        assert(params[i]@ == verify_param(&typ, key, i));
    }
}

/// The messages of the aggregators are combined exactly if there is one of the right length from
/// each of them: the verifier shares add up, element by element, and so do the shares of the joint
/// randomness seed, by exclusive or, if the type uses joint randomness. Otherwise the error names
/// the first length that is not right, or the number of messages.
pub proof fn law_preprocess<T: Type>(
    typ: &T,
    num_aggregators: u8,
    msgs: Seq<PrepareMessageView>,
    seed_len: nat,
)
    requires
        typ.wf(),
    ensures
        ({
            let n = typ.gadget_spec().arity_spec() + 2;
            let p = T::Field::modulus();
            match preprocess_spec(typ, num_aggregators, msgs, seed_len) {
                Ok(sum) => {
                    &&& msgs.len() == num_aggregators
                    &&& forall|i: int|
                        0 <= i < msgs.len() ==> (#[trigger] msgs[i]).verifier.len() == n
                    &&& sum.verifier.len() == n
                    &&& forall|j: int|
                        0 <= j < n ==> 0 <= #[trigger] sum.verifier[j] < p && cong(
                            sum.verifier[j],
                            total(Seq::new(msgs.len(), |i: int| msgs[i].verifier[j])),
                            p,
                        )
                    &&& typ.joint_rand_len_spec() > 0 ==> sum.joint_rand_seed == Some(
                        xor_all(
                            Seq::new(msgs.len(), |i: int| msgs[i].joint_rand_seed->0),
                            seed_len,
                        ),
                    )
                    &&& typ.joint_rand_len_spec() == 0 ==> sum.joint_rand_seed is None
                },
                Err(e) => ({
                    &&& forall|i: int|
                        0 <= i < msgs.len() ==> (#[trigger] msgs[i]).verifier.len() == n
                    &&& msgs.len() != num_aggregators
                    &&& exists|c: Seq<char>, d: Seq<char>| #[trigger]
                        writes(c, msgs.len() as int) && #[trigger] writes(d, num_aggregators as int)
                            && e == ErrorView::Uncategorized(
                            "unexpected message count: got "@ + c + "; want "@ + d,
                        )
                }) || exists|k: int, c: Seq<char>, d: Seq<char>|
                    {
                        &&& 0 <= k < msgs.len()
                        &&& forall|i: int|
                            0 <= i < k ==> (#[trigger] msgs[i]).verifier.len() == n
                        &&& (#[trigger] msgs[k]).verifier.len() != n
                        &&& #[trigger] writes(c, msgs[k].verifier.len() as int)
                        &&& #[trigger] writes(d, n as int)
                        &&& e == ErrorView::Uncategorized(
                            "unexpected verifier share length: got "@ + c + "; want "@ + d,
                        )
                    },
            }
        }),
{
    let n = verifier_len_spec(typ);
    let p = T::Field::modulus();
    <T::Field as FieldElement>::lemma_field();
    lemma_first_misfit(msgs, n);
    let k = first_misfit(msgs, n) as int;
    law_decimal(n);
    law_decimal(msgs.len());
    law_decimal(num_aggregators as nat);
    if k < msgs.len() {
        law_decimal(msgs[k].verifier.len());
    } else if msgs.len() == num_aggregators {
        let vs = verifiers(msgs);
        let sum = preprocess_spec(typ, num_aggregators, msgs, seed_len)->Ok_0;
        law_sum_seqs(vs, n);
        lemma_reduced_cong(sum_seqs(vs, n), p);
        assert forall|j: int| 0 <= j < n implies 0 <= #[trigger] sum.verifier[j] < p && cong(
            sum.verifier[j],
            total(Seq::new(msgs.len(), |i: int| msgs[i].verifier[j])),
            p,
        ) by {
            assert(entries_at(vs, j) =~= Seq::new(msgs.len(), |i: int| msgs[i].verifier[j]));
            assert(cong(reduced(sum_seqs(vs, n), p)[j], sum_seqs(vs, n)[j], p));
            assert(sum_seqs(vs, n)[j] == total(entries_at(vs, j)));
        }
        assert(message_seeds(msgs) =~= Seq::new(
            msgs.len(),
            |i: int| msgs[i].joint_rand_seed->0,
        ));
    }
}

/// Vectors are added exactly if all have the length `n`: each entry of the sum is the residue of
/// the sum of the entries at its place. Otherwise the error names the length of the first one that
/// does not.
pub proof fn law_sum(vs: Seq<Seq<int>>, n: nat, p: int)
    requires
        p > 0,
    ensures
        match sum_spec(vs, n, p) {
            Ok(sum) => {
                &&& forall|i: int| 0 <= i < vs.len() ==> (#[trigger] vs[i]).len() == n
                &&& sum.len() == n
                &&& forall|j: int|
                    0 <= j < n ==> 0 <= #[trigger] sum[j] < p && cong(
                        sum[j],
                        total(Seq::new(vs.len(), |i: int| vs[i][j])),
                        p,
                    )
            },
            Err(e) => exists|k: int, c: Seq<char>, d: Seq<char>|
                {
                    &&& 0 <= k < vs.len()
                    &&& forall|i: int| 0 <= i < k ==> (#[trigger] vs[i]).len() == n
                    &&& (#[trigger] vs[k]).len() != n
                    &&& #[trigger] writes(c, n as int)
                    &&& #[trigger] writes(d, vs[k].len() as int)
                    &&& e == ErrorView::Uncategorized(
                        "cannot sum shares of different lengths (left = "@ + c + ", right = "@ + d
                            + ")"@,
                    )
                },
        },
{
    lemma_first_odd_length(vs, n);
    let k = first_odd_length(vs, n) as int;
    law_decimal(n);
    if k < vs.len() {
        law_decimal(vs[k].len());
    } else {
        law_sum_seqs(vs, n);
        lemma_reduced_cong(sum_seqs(vs, n), p);
        let sum = reduced(sum_seqs(vs, n), p);
        assert forall|j: int| 0 <= j < n implies 0 <= #[trigger] sum[j] < p && cong(
            sum[j],
            total(Seq::new(vs.len(), |i: int| vs[i][j])),
            p,
        ) by {
            assert(entries_at(vs, j) =~= Seq::new(vs.len(), |i: int| vs[i][j]));
            assert(cong(sum[j], sum_seqs(vs, n)[j], p));
            assert(sum_seqs(vs, n)[j] == total(entries_at(vs, j)));
        }
    }
}

/// The result of an aggregate is its number, if it is one number that fits 64 bits.
pub proof fn law_result_outcome(data: Seq<int>, r: Result<Prio3Result<u64>, VdafError>)
    requires
        Prio3Result::<u64>::outcome(data, r),
        forall|i: int| 0 <= i < data.len() ==> #[trigger] data[i] >= 0,
    ensures
        match r {
            Ok(out) => data.len() == 1 && data[0] == out.0,
            Err(e) => (data.len() == 1 && data[0] > u64::MAX && e@ == ErrorView::Uncategorized(
                "result too large for output type: TryFromIntError(())"@,
            )) || (data.len() != 1 && exists|d: Seq<char>| #[trigger]
                writes(d, data.len() as int) && e@ == ErrorView::Uncategorized(
                    "unexpected aggregate length for count type: got "@ + d + "; want 1"@,
                )),
        },
{
    law_decimal(data.len());
}

/// The results of an aggregate are its numbers, if all fit 64 bits.
pub proof fn law_result_vec_outcome(data: Seq<int>, r: Result<Prio3ResultVec<u64>, VdafError>)
    requires
        Prio3ResultVec::<u64>::outcome(data, r),
        forall|i: int| 0 <= i < data.len() ==> #[trigger] data[i] >= 0,
    ensures
        match r {
            Ok(out) => out.0@.len() == data.len() && forall|i: int|
                0 <= i < data.len() ==> #[trigger] data[i] == out.0@[i],
            Err(e) => e@ == ErrorView::Uncategorized(
                "result too large for output type: TryFromIntError(())"@,
            ) && exists|i: int| 0 <= i < data.len() && #[trigger] data[i] > u64::MAX,
        },
{
    if let Ok(out) = r {
        assert forall|i: int| 0 <= i < data.len() implies #[trigger] data[i] == out.0@[i] by {
            if data[i] > u64::MAX {
                assert(result_vec_spec(data) is Err);
            }
        }
    }
}

/// Several output shares, aggregate shares, messages or input shares are seen one by one, none
/// left out and in their order.
pub proof fn law_views<F: FieldElement, const L: usize>(
    outputs: Seq<OutputShare<F>>,
    aggregates: Seq<AggregateShare<F>>,
    msgs: Seq<Prio3PrepareMessage<F, L>>,
    shares: Seq<Prio3InputShare<F, L>>,
    helpers: Seq<HelperShare<L>>,
)
    ensures
        output_vals(outputs).len() == outputs.len(),
        forall|i: int, j: int|
            0 <= i < outputs.len() && 0 <= j < outputs[i].0@.len()
                ==> #[trigger] output_vals(outputs)[i][j] == outputs[i].0@[j].val(),
        forall|i: int|
            0 <= i < outputs.len() ==> (#[trigger] output_vals(outputs)[i]).len()
                == outputs[i].0@.len(),
        aggregate_vals(aggregates).len() == aggregates.len(),
        forall|i: int, j: int|
            0 <= i < aggregates.len() && 0 <= j < aggregates[i].0@.len()
                ==> #[trigger] aggregate_vals(aggregates)[i][j] == aggregates[i].0@[j].val(),
        forall|i: int|
            0 <= i < aggregates.len() ==> (#[trigger] aggregate_vals(aggregates)[i]).len()
                == aggregates[i].0@.len(),
        message_views(msgs).len() == msgs.len(),
        forall|i: int| 0 <= i < msgs.len() ==> #[trigger] message_views(msgs)[i] == msgs[i]@,
        input_share_views(shares).len() == shares.len(),
        forall|i: int|
            0 <= i < shares.len() ==> #[trigger] input_share_views(shares)[i] == shares[i]@,
        helper_views(helpers).len() == helpers.len(),
        forall|i: int|
            0 <= i < helpers.len() ==> #[trigger] helper_views(helpers)[i] == helpers[i]@,
{
}

/// Messages, input shares and the randomness of a helper that are seen alike hold the same.
pub proof fn law_view_contents<F: FieldElement, const L: usize>(
    msg: Prio3PrepareMessage<F, L>,
    share: Prio3InputShare<F, L>,
    helper: HelperShare<L>,
)
    ensures
        msg@.verifier.len() == msg.verifier@.len(),
        forall|i: int|
            0 <= i < msg.verifier@.len() ==> #[trigger] msg@.verifier[i] == msg.verifier@[i].val(),
        msg@.joint_rand_seed is Some <==> msg.joint_rand_seed is Some,
        msg.joint_rand_seed matches Some(seed) ==> msg@.joint_rand_seed == Some(seed.0@),
        share@.input_share == share.input_share@,
        share@.proof_share == share.proof_share@,
        share@.joint_rand_param is Some <==> share.joint_rand_param is Some,
        share.joint_rand_param matches Some(param) ==> {
            &&& (share@.joint_rand_param->0).seed_hint == param.seed_hint.0@
            &&& (share@.joint_rand_param->0).blind == param.blind.0@
        },
        helper@.input_share == helper.input_share.0@,
        helper@.proof_share == helper.proof_share.0@,
        helper@.blind == helper.joint_rand_param.blind.0@,
{
}

/// What an aggregator does next is seen as it is.
pub proof fn law_transition_view<F: FieldElement, const L: usize>(
    t: PrepareTransition<Prio3PrepareStep<F, L>, Prio3PrepareMessage<F, L>, OutputShare<F>>,
)
    ensures
        t matches PrepareTransition::Continue(step, msg) ==> transition_view(t)
            == TransitionView::Continue(step@, msg@),
        t matches PrepareTransition::Finish(out) ==> (transition_view(
            t,
        ) matches TransitionView::Finish(v) && v.len() == out.0@.len() && forall|i: int|
            0 <= i < v.len() ==> #[trigger] v[i] == out.0@[i].val()),
        t matches PrepareTransition::Fail(e) ==> transition_view(t) == TransitionView::Fail(e@),
{
}

/// The state of an aggregator is seen as it is.
pub proof fn law_state_view<F: FieldElement, const L: usize>(step: Prio3PrepareStep<F, L>)
    ensures
        match step {
            Prio3PrepareStep::Ready { input_share, joint_rand_seed, verifier_msg } => {
                &&& step@ is Ready
                &&& step@->Ready_input_share == input_share@
                &&& step@->Ready_joint_rand_seed == seed_view(joint_rand_seed)
                &&& step@->verifier_msg == verifier_msg@
                &&& step@.verifier_len() == verifier_msg.verifier@.len()
                &&& step@.has_seed() <==> joint_rand_seed is Some
            },
            Prio3PrepareStep::Waiting { input_share, joint_rand_seed, verifier_len } => {
                &&& step@ is Waiting
                &&& step@->Waiting_input_share == input_share@
                &&& step@->Waiting_joint_rand_seed == seed_view(joint_rand_seed)
                &&& step@.verifier_len() == verifier_len
                &&& step@.has_seed() <==> joint_rand_seed is Some
            },
        },
        forall|seed: Option<Seed<L>>|
            {
                &&& #[trigger] seed_view(seed) is Some <==> seed is Some
                &&& seed matches Some(s) ==> seed_view(seed) == Some(s.0@)
            },
{
}

/// The generator's stream for a seed and a text.
pub open spec fn stream<P: Prg<L>, const L: usize>(seed: Seq<u8>, text: Seq<u8>) -> spec_fn(
    int,
) -> u8 {
    |i: int| P::stream_byte(seed, text, i)
}

/// A share stands for a vector: the leader's for the one it holds, a helper's for the first `n`
/// elements of the stream for its seed and the text, if there are so many.
pub open spec fn opens<F: FieldElement, P: Prg<L>, const L: usize>(
    share: ShareView,
    text: Seq<u8>,
    n: nat,
    v: Option<Seq<int>>,
) -> bool {
    match share {
        ShareView::Leader(data) => v == Some(data),
        ShareView::Helper(seed) => first_elements::<F>(stream::<P, L>(seed, text), n, v),
    }
}

proof fn lemma_expands<F: FieldElement, P: Prg<L>, const L: usize>(
    seed: Seq<u8>,
    text: Seq<u8>,
    n: nat,
)
    ensures
        first_elements::<F>(stream::<P, L>(seed, text), n, expand::<F, P, L>(seed, text, n)),
{
    law_expand::<F, P, L>(seed, text, n);
    assert(stream::<P, L>(seed, text) =~= (|i: int| P::stream_byte(seed, text, i)));
}

proof fn lemma_opens<F: FieldElement, P: Prg<L>, const L: usize>(
    share: ShareView,
    text: Seq<u8>,
    n: nat,
)
    ensures
        opens::<F, P, L>(share, text, n, opened::<F, P, L>(share, text, n)),
{
    if let ShareView::Helper(seed) = share {
        lemma_expands::<F, P, L>(seed, text, n);
    }
}

/// The seed consists of the first bytes of the generator's stream for another seed and a message.
pub open spec fn derives<P: Prg<L>, const L: usize>(
    from: Seq<u8>,
    message: Seq<u8>,
    seed: Seq<u8>,
) -> bool {
    seed.len() == L && forall|i: int|
        0 <= i < L ==> #[trigger] seed[i] == P::stream_byte(from, message, i)
}

/// The message consists of an identity and of the bytes of all numbers, each in `size` bytes, the
/// least significant first.
pub open spec fn identifies(message: Seq<u8>, id: u8, x: Seq<int>, size: nat) -> bool {
    &&& message.len() == 1 + x.len() * size
    &&& message[0] == id
    &&& forall|k: int, j: int|
        0 <= k < x.len() && 0 <= j < size ==> #[trigger] message[1 + (k * size + j)] as int == (x[k]
            / pow(256, j as nat)) % 256
}

/// An aggregator's share of the joint randomness seed is derived, under its blind, from its
/// identity and its whole input share.
pub open spec fn is_seed_share<F: FieldElement, P: Prg<L>, const L: usize>(
    blind: Seq<u8>,
    id: u8,
    x: Seq<int>,
    share: Seq<u8>,
) -> bool {
    exists|message: Seq<u8>|
        identifies(message, id, x, F::encoded_size_spec()) && #[trigger] derives::<P, L>(
            blind,
            message,
            share,
        )
}

/// The share of the joint randomness seed that clients and aggregators compute is that one.
pub proof fn law_seed_share<F: FieldElement, P: Prg<L>, const L: usize>(
    blind: Seq<u8>,
    id: u8,
    x: Seq<int>,
)
    requires
        forall|k: int| 0 <= k < x.len() ==> #[trigger] x[k] >= 0,
    ensures
        is_seed_share::<F, P, L>(blind, id, x, seed_share::<F, P, L>(blind, id, x)),
{
    let size = F::encoded_size_spec();
    let e = encode_vals(x, size);
    law_encode_vals(x, size);
    let message = seq![id] + e;
    assert forall|k: int, j: int| 0 <= k < x.len() && 0 <= j < size implies #[trigger] message[1 + (
    k * size + j)] as int == (x[k] / pow(256, j as nat)) % 256 by {
        assert(0 <= k * size + j < x.len() * size) by (nonlinear_arith)
            requires
                0 <= k,
                k + 1 <= x.len(),
                0 <= j < size,
        ;
        assert(message[1 + (k * size + j)] == e[k * size + j]);
    }
    assert(identifies(message, id, x, size));
    assert(derives::<P, L>(blind, message, seed_share::<F, P, L>(blind, id, x)));
}

/// The query point for a key and a nonce is the first element of the stream of a seed that is
/// derived, under the key, from the byte 255 and the whole nonce.
pub open spec fn is_query_element<F: FieldElement, P: Prg<L>, const L: usize>(
    key: Seq<u8>,
    nonce: Seq<u8>,
    q: Option<Seq<int>>,
) -> bool {
    exists|seed: Seq<u8>| #[trigger]
        derives::<P, L>(key, seq![255u8] + nonce, seed) && first_elements::<F>(
            stream::<P, L>(seed, "query rand".spec_bytes()),
            1,
            q,
        )
}

proof fn lemma_query_element<T: Type, P: Prg<L>, const L: usize>(
    typ: &T,
    key: Seq<u8>,
    nonce: Seq<u8>,
)
    ensures
        is_query_element::<T::Field, P, L>(
            key,
            nonce,
            query_rand::<T, P, L>(typ, query_seed::<P, L>(key, nonce)),
        ),
{
    let seed = query_seed::<P, L>(key, nonce);
    lemma_expands::<T::Field, P, L>(seed, "query rand".spec_bytes(), 1);
    assert(derives::<P, L>(key, seq![255u8] + nonce, seed));
}

/// The state in which an aggregator starts, once its shares `x` and `pf`, the query point and the
/// joint randomness are known: the shares need to have the lengths of the type, and the point must
/// not be a root of unity of the order of the domain. The verifier share is that of the proof
/// system, with an equal share of one for each aggregator.
pub open spec fn starts<T: Type>(
    typ: &T,
    num_aggregators: u8,
    share: ShareView,
    x: Seq<int>,
    pf: Seq<int>,
    point: int,
    jr: Seq<int>,
    seed: Option<Seq<u8>>,
    seed_share: Option<Seq<u8>>,
    r: Result<PrepareStepView, ErrorView>,
) -> bool {
    let p = T::Field::modulus();
    let g = typ.gadget_spec();
    if x.len() != typ.input_len_spec() || pf.len() != g.arity_spec() + g.degree_spec() * (domain(
        typ,
    ) - 1) + 1 {
        r == Err::<PrepareStepView, ErrorView>(ErrorView::Pcp(PcpError::Query))
    } else if cong(pow(point, domain(typ)), 1, p) {
        r == Err::<PrepareStepView, ErrorView>(ErrorView::Pcp(PcpError::QueryRandomness))
    } else {
        &&& r is Ok
        &&& r->Ok_0 is Ready
        &&& r->Ok_0->Ready_input_share == share
        &&& r->Ok_0->Ready_joint_rand_seed == seed
        &&& r->Ok_0->verifier_msg.joint_rand_seed == seed_share
        &&& r->Ok_0->verifier_msg.verifier.len() == g.arity_spec() + 2
        &&& exists|s: int|
            #![trigger query_spec(typ, x, pf, point, jr, s)]
            {
                &&& cong(num_aggregators * s, 1, p)
                &&& forall|k: int|
                    0 <= k < g.arity_spec() + 2 ==> 0
                        <= #[trigger] r->Ok_0->verifier_msg.verifier[k] < p && cong(
                        r->Ok_0->verifier_msg.verifier[k],
                        query_spec(typ, x, pf, point, jr, s)[k],
                        p,
                    )
            }
    }
}

proof fn lemma_starts<T: Type>(
    typ: &T,
    num_aggregators: u8,
    share: ShareView,
    x: Seq<int>,
    pf: Seq<int>,
    received: Option<(Seq<u8>, Seq<u8>)>,
    jr: Seq<int>,
    point: int,
)
    requires
        typ.wf(),
        1 <= num_aggregators <= 254,
        jr.len() == typ.joint_rand_len_spec(),
    ensures
        starts(
            typ,
            num_aggregators,
            share,
            x,
            pf,
            point,
            jr,
            (match received {
                Some((_, seed)) => Some(seed),
                None => None,
            }),
            (match received {
                Some((share, _)) => Some(share),
                None => None,
            }),
            ready_state(typ, num_aggregators, share, x, pf, received, jr, point),
        ),
{
    let p = T::Field::modulus();
    <T::Field as FieldElement>::lemma_field();
    lemma_prime::<T::Field>();
    typ.lemma_sizes();
    let m = domain(typ);
    lemma_pow2_pos(domain_log(typ));
    let d = typ.gadget_spec().degree_spec();
    assert(d * (m - 1) >= 0) by (nonlinear_arith)
        requires
            d >= 0,
            m >= 1,
    ;
    law_refused_points(typ, Set::<int>::empty());
    let n = num_aggregators as int;
    let s = inverse(n, p) % p;
    lemma_inverse(n, p);
    lemma_cong_mod(inverse(n, p), p);
    lemma_cong_mul(n, n, s, inverse(n, p), p);
    if x.len() == typ.input_len_spec() && pf.len() == proof_len_spec(typ) && query_point_ok(
        typ,
        point,
    ) {
        let v = query_spec(typ, x, pf, point, jr, s);
        lemma_query_linear(typ, 1, x, pf, s, 0, x, pf, s, point, jr);
        lemma_reduced_cong(v, p);
        let r = ready_state(typ, num_aggregators, share, x, pf, received, jr, point);
        assert(r->Ok_0->verifier_msg.verifier == reduced(v, p));
        assert forall|k: int| 0 <= k < v.len() implies 0
            <= #[trigger] r->Ok_0->verifier_msg.verifier[k] < p && cong(
            r->Ok_0->verifier_msg.verifier[k],
            v[k],
            p,
        ) by {
            assert(cong(reduced(v, p)[k], v[k], p));
        }
    }
}

/// The joint randomness of an aggregator with the input share `x`, and the state in which it
/// starts: its seed share is derived from its identity and its input share, and the seed is the
/// exclusive or of that and the hint.
pub open spec fn starts_jointly<T: Type, P: Prg<L>, const L: usize>(
    typ: &T,
    num_aggregators: u8,
    id: u8,
    msg: InputShareView,
    x: Seq<int>,
    pf: Seq<int>,
    point: int,
    r: Result<PrepareStepView, ErrorView>,
) -> bool {
    let param = msg.joint_rand_param->0;
    exists|seed_share: Seq<u8>, seed: Seq<u8>, jr: Option<Seq<int>>|
        {
            &&& #[trigger] is_seed_share::<T::Field, P, L>(param.blind, id, x, seed_share)
            &&& seed.len() == L
            &&& forall|i: int|
                0 <= i < L ==> #[trigger] seed[i] == param.seed_hint[i] ^ seed_share[i]
            &&& #[trigger] first_elements::<T::Field>(
                stream::<P, L>(seed, "joint rand".spec_bytes()),
                typ.joint_rand_len_spec(),
                jr,
            )
            &&& match jr {
                None => r == Err::<PrepareStepView, ErrorView>(
                    ErrorView::Prng(PrngError::Exhausted),
                ),
                Some(jr) => starts(
                    typ,
                    num_aggregators,
                    msg.input_share,
                    x,
                    pf,
                    point,
                    jr,
                    Some(seed),
                    Some(seed_share),
                    r,
                ),
            }
        }
}

/// An aggregator opens its shares, computes the query point from the key and the nonce, and the
/// joint randomness if the type uses it, and starts. It does unless a stream ends too early, a
/// share has a wrong length, or the query point is a root of unity of the order of the domain.
pub proof fn law_prepare_init<T: Type, P: Prg<L>, const L: usize>(
    typ: &T,
    num_aggregators: u8,
    key: Seq<u8>,
    id: u8,
    nonce: Seq<u8>,
    msg: InputShareView,
)
    requires
        typ.wf(),
        1 <= num_aggregators <= 254,
        typ.joint_rand_len_spec() > 0 ==> (msg.joint_rand_param matches Some(param)
            && param.seed_hint.len() == L),
        msg.input_share matches ShareView::Leader(data) ==> forall|k: int|
            0 <= k < data.len() ==> #[trigger] data[k] >= 0,
    ensures
        ({
            let r = prepare_init_spec::<T, P, L>(typ, num_aggregators, key, id, nonce, msg);
            let g = typ.gadget_spec();
            exists|x: Option<Seq<int>>, pf: Option<Seq<int>>, q: Option<Seq<int>>|
                {
                    &&& #[trigger] opens::<T::Field, P, L>(
                        msg.input_share,
                        "input share".spec_bytes(),
                        typ.input_len_spec(),
                        x,
                    )
                    &&& #[trigger] opens::<T::Field, P, L>(
                        msg.proof_share,
                        "proof share".spec_bytes(),
                        (g.arity_spec() + g.degree_spec() * (domain(typ) - 1) + 1) as nat,
                        pf,
                    )
                    &&& #[trigger] is_query_element::<T::Field, P, L>(key, nonce, q)
                    &&& match (x, pf, q) {
                        (Some(x), Some(pf), Some(q)) => if typ.joint_rand_len_spec() > 0 {
                            starts_jointly::<T, P, L>(
                                typ,
                                num_aggregators,
                                id,
                                msg,
                                x,
                                pf,
                                q[0],
                                r,
                            )
                        } else {
                            starts(
                                typ,
                                num_aggregators,
                                msg.input_share,
                                x,
                                pf,
                                q[0],
                                Seq::empty(),
                                None,
                                None,
                                r,
                            )
                        },
                        _ => r == Err::<PrepareStepView, ErrorView>(
                            ErrorView::Prng(PrngError::Exhausted),
                        ),
                    }
                }
        }),
{
    let r = prepare_init_spec::<T, P, L>(typ, num_aggregators, key, id, nonce, msg);
    let (it, pt, jt) = (
        "input share".spec_bytes(),
        "proof share".spec_bytes(),
        "joint rand".spec_bytes(),
    );
    let x = opened_input::<T, P, L>(typ, msg.input_share);
    let pf = opened_proof::<T, P, L>(typ, msg.proof_share);
    let q = query_rand::<T, P, L>(typ, query_seed::<P, L>(key, nonce));
    lemma_opens::<T::Field, P, L>(msg.input_share, it, typ.input_len_spec());
    lemma_opens::<T::Field, P, L>(msg.proof_share, pt, proof_len_spec(typ));
    lemma_query_element::<T, P, L>(typ, key, nonce);
    if x is Some && pf is Some && q is Some {
        let (xv, pv, qv) = (x->0, pf->0, q->0);
        let received = received_seed::<T, P, L>(typ, id, msg, xv);
        if typ.joint_rand_len_spec() > 0 {
            let param = msg.joint_rand_param->0;
            let share = seed_share::<T::Field, P, L>(param.blind, id, xv);
            let seed = xor(param.seed_hint, share);
            if let ShareView::Helper(s) = msg.input_share {
                lemma_expand::<T::Field, P, L>(s, it, typ.input_len_spec());
            }
            law_seed_share::<T::Field, P, L>(param.blind, id, xv);
            let jr = joint_rand::<T, P, L>(typ, seed);
            lemma_expands::<T::Field, P, L>(seed, jt, typ.joint_rand_len_spec());
            lemma_expand::<T::Field, P, L>(seed, jt, typ.joint_rand_len_spec());
            if let Some(j) = jr {
                lemma_starts(
                    typ,
                    num_aggregators,
                    msg.input_share,
                    xv,
                    pv,
                    received,
                    j,
                    qv[0],
                );
            }
            assert(is_seed_share::<T::Field, P, L>(param.blind, id, xv, share));
            assert(first_elements::<T::Field>(
                stream::<P, L>(seed, jt),
                typ.joint_rand_len_spec(),
                jr,
            ));
            assert(starts_jointly::<T, P, L>(
                typ,
                num_aggregators,
                id,
                msg,
                xv,
                pv,
                qv[0],
                r,
            ));
        } else {
            lemma_starts(
                typ,
                num_aggregators,
                msg.input_share,
                xv,
                pv,
                received,
                Seq::empty(),
                qv[0],
            );
        }
    }
    assert(opens::<T::Field, P, L>(msg.input_share, it, typ.input_len_spec(), x));
    assert(opens::<T::Field, P, L>(msg.proof_share, pt, proof_len_spec(typ), pf));
    assert(is_query_element::<T::Field, P, L>(key, nonce, q));
}

/// A query point that is no root of unity of the order of the domain lets an aggregator start, and
/// of all elements of the field no more are refused than there are points of interpolation.
pub proof fn law_start_points<T: Type>(
    typ: &T,
    num_aggregators: u8,
    share: ShareView,
    x: Seq<int>,
    pf: Seq<int>,
    received: Option<(Seq<u8>, Seq<u8>)>,
    jr: Seq<int>,
    points: Set<int>,
)
    requires
        typ.wf(),
        1 <= num_aggregators <= 254,
        x.len() == typ.input_len_spec(),
        pf.len() == proof_len_spec(typ),
        jr.len() == typ.joint_rand_len_spec(),
        points.finite(),
        forall|t: int| #[trigger]
            points.contains(t) ==> 0 <= t < T::Field::modulus() && ready_state(
                typ,
                num_aggregators,
                share,
                x,
                pf,
                received,
                jr,
                t,
            ) is Err,
    ensures
        points.len() < 2 * (typ.calls_spec() + 1),
        forall|t: int|
            ready_state(typ, num_aggregators, share, x, pf, received, jr, t) is Ok <==> !cong(
                #[trigger] pow(t, domain(typ)),
                1,
                T::Field::modulus(),
            ),
{
    law_refused_points(typ, Set::<int>::empty());
    assert forall|t: int| #[trigger] points.contains(t) implies 0 <= t < T::Field::modulus()
        && !query_point_ok(typ, t) by {}
    law_refused_points(typ, points);
}

/// The second step of an aggregator ends the process. It fails if the joint randomness seed that
/// the aggregator has computed is not the one that it is told, if the verifier message does not
/// have the right length, or if it is not accepted; otherwise the output share is what the type
/// makes of the input share.
pub proof fn law_finish<T: Type, P: Prg<L>, const L: usize>(
    typ: &T,
    state: PrepareStepView,
    msg: PrepareMessageView,
)
    requires
        typ.wf(),
        state is Waiting,
    ensures
        ({
            let t = prepare_step_spec::<T, P, L>(typ, state, Some(msg));
            let p = T::Field::modulus();
            if typ.joint_rand_len_spec() > 0 && state->Waiting_joint_rand_seed
                != msg.joint_rand_seed {
                t == TransitionView::Fail(ErrorView::Uncategorized("joint randomness mismatch"@))
            } else if msg.verifier.len() != typ.gadget_spec().arity_spec() + 2 {
                t == TransitionView::Fail(ErrorView::Pcp(PcpError::Decide))
            } else if !decide_spec(typ, msg.verifier) {
                t == TransitionView::Fail(ErrorView::Uncategorized("proof check failed"@))
            } else {
                exists|x: Option<Seq<int>>|
                    {
                        &&& #[trigger] opens::<T::Field, P, L>(
                            state->Waiting_input_share,
                            "input share".spec_bytes(),
                            typ.input_len_spec(),
                            x,
                        )
                        &&& match x {
                            None => t == TransitionView::Fail(
                                ErrorView::Prng(PrngError::Exhausted),
                            ),
                            Some(x) => if x.len() != typ.input_len_spec() {
                                t == TransitionView::Fail(ErrorView::Pcp(PcpError::Truncate))
                            } else {
                                t matches TransitionView::Finish(out) && out.len()
                                    == typ.output_len_spec() && forall|j: int|
                                    0 <= j < out.len() ==> 0 <= #[trigger] out[j] < p && cong(
                                        out[j],
                                        typ.truncate_spec(x)[j],
                                        p,
                                    )
                            },
                        }
                    }
            }
        }),
{
    let p = T::Field::modulus();
    <T::Field as FieldElement>::lemma_field();
    let it = "input share".spec_bytes();
    let share = state->Waiting_input_share;
    lemma_opens::<T::Field, P, L>(share, it, typ.input_len_spec());
    let x = opened_input::<T, P, L>(typ, share);
    assert(opens::<T::Field, P, L>(share, it, typ.input_len_spec(), x));
    if let Some(v) = x {
        if v.len() == typ.input_len_spec() {
            typ.lemma_truncate_linear(1, v, 0, v);
            let y = typ.truncate_spec(v);
            lemma_reduced_cong(y, p);
            assert forall|j: int| 0 <= j < y.len() implies 0 <= #[trigger] reduced(y, p)[j] < p
                && cong(reduced(y, p)[j], y[j], p) by {
                assert(cong(reduced(y, p)[j], y[j], p));
            }
        }
    }
}

/// The first step of an aggregator hands out its message and keeps its share and its seed. Any
/// step but a first one without and a second one with a message is refused.
pub proof fn law_first_step<T: Type, P: Prg<L>, const L: usize>(
    typ: &T,
    state: PrepareStepView,
    input: Option<PrepareMessageView>,
)
    ensures
        ({
            let t = prepare_step_spec::<T, P, L>(typ, state, input);
            &&& state is Ready && input is None ==> {
                &&& t is Continue
                &&& t->Continue_1 == state->verifier_msg
                &&& t->Continue_0 is Waiting
                &&& t->Continue_0->Waiting_input_share == state->Ready_input_share
                &&& t->Continue_0->Waiting_joint_rand_seed == state->Ready_joint_rand_seed
                &&& t->Continue_0->verifier_len == state->verifier_msg.verifier.len()
            }
            &&& (state is Ready <==> input is Some) ==> t == TransitionView::Fail(
                ErrorView::Uncategorized("invalid state transition"@),
            )
        }),
{
}

/// The blind of the `i`-th aggregator.
pub open spec fn blind_of(rand: ShardRandomness, i: int) -> Seq<u8> {
    if i == 0 {
        rand.leader_blind
    } else {
        rand.helpers[i - 1].blind
    }
}

/// The messages share out the vector `x` and the proof for it. Each helper gets the seeds that
/// were drawn for it, and the leader what makes the shares `es` of all aggregators add up to the
/// vector, and their shares `qs` to the proof. The prover's randomness is what the seed drawn for
/// it gives, and the joint randomness what the exclusive or of the seed shares of all aggregators
/// gives. If the type uses joint randomness, each aggregator also gets its blind and the exclusive
/// or of the seed shares of all others.
pub open spec fn shares_out<T: Type, P: Prg<L>, const L: usize>(
    typ: &T,
    x: Seq<int>,
    rand: ShardRandomness,
    msgs: Seq<InputShareView>,
    es: Seq<Seq<int>>,
    qs: Seq<Seq<int>>,
    seed_shares: Seq<Seq<u8>>,
    pr: Seq<int>,
    jr: Seq<int>,
) -> bool {
    let n = rand.helpers.len() + 1;
    let p = T::Field::modulus();
    let pf = prove_spec(typ, x, pr, jr);
    &&& msgs.len() == n
    &&& es.len() == n
    &&& qs.len() == n
    &&& seed_shares.len() == n
    &&& msgs[0].input_share == ShareView::Leader(es[0])
    &&& msgs[0].proof_share == ShareView::Leader(qs[0])
    &&& es[0].len() == x.len()
    &&& qs[0].len() == pf.len()
    &&& forall|j: int| 0 <= j < x.len() ==> 0 <= #[trigger] es[0][j] < p
    &&& forall|j: int| 0 <= j < pf.len() ==> 0 <= #[trigger] qs[0][j] < p
    &&& forall|i: int|
        1 <= i < n ==> {
            let h = rand.helpers[i - 1];
            &&& (#[trigger] msgs[i]).input_share == ShareView::Helper(h.input_share)
            &&& msgs[i].proof_share == ShareView::Helper(h.proof_share)
            &&& first_elements::<T::Field>(
                stream::<P, L>(h.input_share, "input share".spec_bytes()),
                x.len(),
                Some(es[i]),
            )
            &&& first_elements::<T::Field>(
                stream::<P, L>(h.proof_share, "proof share".spec_bytes()),
                pf.len(),
                Some(qs[i]),
            )
        }
    &&& forall|j: int| 0 <= j < x.len() ==> cong(total(entries_at(es, j)), #[trigger] x[j], p)
    &&& forall|j: int| 0 <= j < pf.len() ==> cong(total(entries_at(qs, j)), #[trigger] pf[j], p)
    &&& first_elements::<T::Field>(
        stream::<P, L>(rand.prove_seed, "prove rand".spec_bytes()),
        typ.gadget_spec().arity_spec(),
        Some(pr),
    )
    &&& first_elements::<T::Field>(
        stream::<P, L>(xor_all(seed_shares, L as nat), "joint rand".spec_bytes()),
        typ.joint_rand_len_spec(),
        Some(jr),
    )
    &&& forall|i: int|
        0 <= i < n ==> is_seed_share::<T::Field, P, L>(
            blind_of(rand, i),
            i as u8,
            es[i],
            #[trigger] seed_shares[i],
        )
    &&& forall|i: int|
        0 <= i < n ==> if typ.joint_rand_len_spec() > 0 {
            (#[trigger] msgs[i]).joint_rand_param == Some(
                JointRandParamView {
                    seed_hint: xor_all(seed_shares.remove(i), L as nat),
                    blind: blind_of(rand, i),
                },
            )
        } else {
            msgs[i].joint_rand_param is None
        }
}

/// One of the streams that a client reads ends too early: that of the input share or of the proof
/// share of a helper, that of the prover's randomness, or that of some joint randomness.
pub open spec fn stream_ends<T: Type, P: Prg<L>, const L: usize>(
    typ: &T,
    rand: ShardRandomness,
) -> bool {
    let g = typ.gadget_spec();
    ||| exists|i: int|
        0 <= i < rand.helpers.len() && first_elements::<T::Field>(
            stream::<P, L>(
                (#[trigger] rand.helpers[i]).input_share,
                "input share".spec_bytes(),
            ),
            typ.input_len_spec(),
            None,
        )
    ||| exists|i: int|
        0 <= i < rand.helpers.len() && first_elements::<T::Field>(
            stream::<P, L>(
                (#[trigger] rand.helpers[i]).proof_share,
                "proof share".spec_bytes(),
            ),
            (g.arity_spec() + g.degree_spec() * (domain(typ) - 1) + 1) as nat,
            None,
        )
    ||| first_elements::<T::Field>(
        stream::<P, L>(rand.prove_seed, "prove rand".spec_bytes()),
        g.arity_spec(),
        None,
    )
    ||| exists|seed: Seq<u8>|
        seed.len() == L && first_elements::<T::Field>(
            #[trigger] stream::<P, L>(seed, "joint rand".spec_bytes()),
            typ.joint_rand_len_spec(),
            None,
        )
}

/// A client that can encode its measurement shares it out, unless a stream ends too early. A
/// measurement that cannot be encoded is refused.
pub proof fn law_shard<T: Type, P: Prg<L>, const L: usize>(
    typ: &T,
    measurement: T::Measurement,
    rand: ShardRandomness,
)
    requires
        typ.wf(),
        rand.helpers.len() < 254,
    ensures
        match typ.encode_spec(measurement) {
            None => shard_spec::<T, P, L>(typ, measurement, rand) == Err::<
                Seq<InputShareView>,
                ErrorView,
            >(ErrorView::Pcp(PcpError::Encode)),
            Some(x) => match shard_spec::<T, P, L>(typ, measurement, rand) {
                Ok(msgs) => exists|
                    es: Seq<Seq<int>>,
                    qs: Seq<Seq<int>>,
                    seed_shares: Seq<Seq<u8>>,
                    pr: Seq<int>,
                    jr: Seq<int>,
                | #[trigger]
                    shares_out::<T, P, L>(typ, x, rand, msgs, es, qs, seed_shares, pr, jr),
                Err(e) => e == ErrorView::Prng(PrngError::Exhausted) && stream_ends::<T, P, L>(
                    typ,
                    rand,
                ),
            },
        },
{
    typ.lemma_encode(measurement);
    if let Some(x) = typ.encode_spec(measurement) {
        if shard_ok::<T, P, L>(typ, x, rand) {
            lemma_shares_out::<T, P, L>(typ, measurement, x, rand);
        } else {
            lemma_stream_ends::<T, P, L>(typ, x, rand);
        }
    }
}

proof fn lemma_stream_ends<T: Type, P: Prg<L>, const L: usize>(
    typ: &T,
    x: Seq<int>,
    rand: ShardRandomness,
)
    requires
        typ.wf(),
        !shard_ok::<T, P, L>(typ, x, rand),
    ensures
        stream_ends::<T, P, L>(typ, rand),
{
    let (it, pt, jt, rt) = (
        "input share".spec_bytes(),
        "proof share".spec_bytes(),
        "joint rand".spec_bytes(),
        "prove rand".spec_bytes(),
    );
    let hs = rand.helpers;
    if !inputs_expand::<T, P, L>(typ, hs) {
        let i = choose|i: int|
            0 <= i < hs.len() && !(#[trigger] helper_input::<T, P, L>(
                typ,
                hs[i].input_share,
            ) is Some);
        lemma_expands::<T::Field, P, L>(hs[i].input_share, it, typ.input_len_spec());
        assert(first_elements::<T::Field>(
            stream::<P, L>(hs[i].input_share, it),
            typ.input_len_spec(),
            None,
        ));
    } else if !proofs_expand::<T, P, L>(typ, hs) {
        let i = choose|i: int|
            0 <= i < hs.len() && !(#[trigger] helper_proof::<T, P, L>(
                typ,
                hs[i].proof_share,
            ) is Some);
        lemma_expands::<T::Field, P, L>(hs[i].proof_share, pt, proof_len_spec(typ));
        assert(first_elements::<T::Field>(
            stream::<P, L>(hs[i].proof_share, pt),
            proof_len_spec(typ),
            None,
        ));
    } else if prove_rand::<T, P, L>(typ, rand.prove_seed) is None {
        lemma_expands::<T::Field, P, L>(rand.prove_seed, rt, prove_rand_len_spec(typ));
    } else {
        let seed = joint_seed::<T, P, L>(typ, x, rand);
        lemma_xor_all_len(
            helper_seed_shares::<T, P, L>(typ, hs).push(leader_seed_share::<T, P, L>(typ, x, rand)),
            L as nat,
        );
        lemma_expands::<T::Field, P, L>(seed, jt, typ.joint_rand_len_spec());
        assert(first_elements::<T::Field>(
            stream::<P, L>(seed, jt),
            typ.joint_rand_len_spec(),
            None,
        ));
    }
}

/// The exclusive or of one byte string and that of all is that of the others.
proof fn lemma_hint(s: Seq<Seq<u8>>, i: int, n: nat)
    requires
        0 <= i < s.len(),
        forall|k: int| 0 <= k < s.len() ==> (#[trigger] s[k]).len() == n,
    ensures
        xor(s[i], xor_all(s, n)) == xor_all(s.remove(i), n),
{
    let rest = xor_all(s.remove(i), n);
    lemma_xor_all_remove(s, i, n);
    lemma_xor_all_len(s.remove(i), n);
    lemma_xor_all_len(s, n);
    assert(s[i].len() == n);
    lemma_xor_comm(s[i], xor_all(s, n));
    lemma_xor_cancel(rest, s[i]);
}

proof fn lemma_shares_out<T: Type, P: Prg<L>, const L: usize>(
    typ: &T,
    measurement: T::Measurement,
    x: Seq<int>,
    rand: ShardRandomness,
)
    requires
        typ.wf(),
        rand.helpers.len() < 254,
        typ.encode_spec(measurement) == Some(x),
        shard_ok::<T, P, L>(typ, x, rand),
    ensures
        exists|
            es: Seq<Seq<int>>,
            qs: Seq<Seq<int>>,
            seed_shares: Seq<Seq<u8>>,
            pr: Seq<int>,
            jr: Seq<int>,
        | #[trigger]
            shares_out::<T, P, L>(
                typ,
                x,
                rand,
                shard_spec::<T, P, L>(typ, measurement, rand)->Ok_0,
                es,
                qs,
                seed_shares,
                pr,
                jr,
            ),
{
    typ.lemma_encode(measurement);
    <T::Field as FieldElement>::lemma_field();
    let p = T::Field::modulus();
    let hs = rand.helpers;
    let n = (hs.len() + 1) as u8;
    let (it, pt, jt, rt) = (
        "input share".spec_bytes(),
        "proof share".spec_bytes(),
        "joint rand".spec_bytes(),
        "prove rand".spec_bytes(),
    );
    let msgs = shard_spec::<T, P, L>(typ, measurement, rand)->Ok_0;
    let es = held_inputs::<T, P, L>(typ, x, rand);
    let qs = held_proofs::<T, P, L>(typ, x, rand);
    let seed_shares = held_seeds::<T, P, L>(typ, x, rand);
    let seed = joint_seed::<T, P, L>(typ, x, rand);
    let pr = prove_rand::<T, P, L>(typ, rand.prove_seed)->0;
    let jr = joint_rand::<T, P, L>(typ, seed)->0;
    let pf = prove_spec(typ, x, pr, jr);
    lemma_expands::<T::Field, P, L>(rand.prove_seed, rt, prove_rand_len_spec(typ));
    lemma_expand::<T::Field, P, L>(rand.prove_seed, rt, prove_rand_len_spec(typ));
    lemma_expands::<T::Field, P, L>(seed, jt, typ.joint_rand_len_spec());
    lemma_expand::<T::Field, P, L>(seed, jt, typ.joint_rand_len_spec());
    law_input_shares_sum::<T, P, L>(typ, n, x, rand);
    law_proof_shares_sum::<T, P, L>(typ, n, x, rand);
    lemma_proof_complete(typ, x, pr, 0, jr);
    let (a, b) = (sub_seqs(x, helper_inputs::<T, P, L>(typ, hs)), sub_seqs(
        pf,
        helper_proofs::<T, P, L>(typ, hs),
    ));
    lemma_sub_seqs_len(x, helper_inputs::<T, P, L>(typ, hs));
    lemma_sub_seqs_len(pf, helper_proofs::<T, P, L>(typ, hs));
    lemma_reduced_cong(a, p);
    lemma_reduced_cong(b, p);
    assert(es[0] == reduced(a, p));
    assert(qs[0] == reduced(b, p));
    law_sum_seqs(es, x.len());
    law_sum_seqs(qs, pf.len());
    assert forall|j: int| 0 <= j < x.len() implies cong(
        total(entries_at(es, j)),
        #[trigger] x[j],
        p,
    ) by {
        assert(cong(sum_seqs(es, x.len())[j], x[j], p));
    }
    assert forall|j: int| 0 <= j < pf.len() implies cong(
        total(entries_at(qs, j)),
        #[trigger] pf[j],
        p,
    ) by {
        assert(cong(sum_seqs(qs, pf.len())[j], pf[j], p));
    }
    assert forall|i: int| 1 <= i < n implies ({
        let h = hs[i - 1];
        &&& (#[trigger] msgs[i]).input_share == ShareView::Helper(h.input_share)
        &&& msgs[i].proof_share == ShareView::Helper(h.proof_share)
        &&& first_elements::<T::Field>(stream::<P, L>(h.input_share, it), x.len(), Some(es[i]))
        &&& first_elements::<T::Field>(stream::<P, L>(h.proof_share, pt), pf.len(), Some(qs[i]))
        &&& forall|k: int| 0 <= k < es[i].len() ==> #[trigger] es[i][k] >= 0
    }) by {
        let h = hs[i - 1];
        assert(helper_input::<T, P, L>(typ, hs[i - 1].input_share) is Some);
        assert(helper_proof::<T, P, L>(typ, hs[i - 1].proof_share) is Some);
        lemma_expands::<T::Field, P, L>(h.input_share, it, x.len());
        lemma_expand::<T::Field, P, L>(h.input_share, it, x.len());
        lemma_expands::<T::Field, P, L>(h.proof_share, pt, pf.len());
        assert(es[i] == helper_inputs::<T, P, L>(typ, hs)[i - 1]);
        assert(qs[i] == helper_proofs::<T, P, L>(typ, hs)[i - 1]);
    }
    assert forall|i: int| 0 <= i < n implies is_seed_share::<T::Field, P, L>(
        blind_of(rand, i),
        i as u8,
        es[i],
        #[trigger] seed_shares[i],
    ) && seed_shares[i].len() == L by {
        if i > 0 {
            assert(msgs[i].input_share == ShareView::Helper(hs[i - 1].input_share));
            assert(es[i] == helper_inputs::<T, P, L>(typ, hs)[i - 1]);
            assert(seed_shares[i] == helper_seed_shares::<T, P, L>(typ, hs)[i - 1]);
        }
        law_seed_share::<T::Field, P, L>(blind_of(rand, i), i as u8, es[i]);
        assert(seed_shares[i] == seed_share::<T::Field, P, L>(blind_of(rand, i), i as u8, es[i]));
    }
    // The seed is the exclusive or of all shares, in whatever order.
    let hss = helper_seed_shares::<T, P, L>(typ, hs);
    let lead = leader_seed_share::<T, P, L>(typ, x, rand);
    assert(xor_all(seed_shares, L as nat) == seed) by {
        assert(seed_shares =~= seq![lead] + hss);
        let other = hss.push(lead);
        assert forall|i: int| 0 <= i < hss.len() implies (#[trigger] hss[i]).len() == L by {
            assert(seed_shares[i + 1] == hss[i]);
        }
        assert(seed_shares[0] == lead);
        lemma_xor_all_append(seq![lead], hss, L as nat);
        lemma_xor_all_append(hss, seq![lead], L as nat);
        lemma_xor_all_one(lead);
        lemma_xor_all_len(hss, L as nat);
        lemma_xor_comm(lead, xor_all(hss, L as nat));
        assert(other =~= hss + seq![lead]);
    }
    assert forall|i: int| 0 <= i < n implies if typ.joint_rand_len_spec() > 0 {
        (#[trigger] msgs[i]).joint_rand_param == Some(
            JointRandParamView {
                seed_hint: xor_all(seed_shares.remove(i), L as nat),
                blind: blind_of(rand, i),
            },
        )
    } else {
        msgs[i].joint_rand_param is None
    } by {
        lemma_hint(seed_shares, i, L as nat);
        if i > 0 {
            assert(seed_shares[i] == hss[i - 1]);
        }
    }
    assert(shares_out::<T, P, L>(typ, x, rand, msgs, es, qs, seed_shares, pr, jr));
}

/// What a client that has drawn the randomness hands out, or its error, is what the steps above
/// make of the measurement and the randomness.
pub proof fn law_shard_outcome<T: Type, A, P: Prg<L>, const L: usize>(
    v: &Prio3<T, A, P, L>,
    measurement: T::Measurement,
    rand: ShardRandomness,
    r: Result<Vec<Prio3InputShare<T::Field, L>>, VdafError>,
)
    requires
        v.shard_outcome(measurement, rand, r),
    ensures
        match r {
            Ok(shares) => shard_spec::<T, P, L>(&v.typ_spec(), measurement, rand) == Ok::<
                Seq<InputShareView>,
                ErrorView,
            >(Seq::new(shares@.len(), |i: int| shares@[i]@)),
            Err(e) => shard_spec::<T, P, L>(&v.typ_spec(), measurement, rand) == Err::<
                Seq<InputShareView>,
                ErrorView,
            >(e@),
        },
        v.randomness_fits(rand) ==> rand.helpers.len() + 1 == v.num_aggregators_spec()
            && rand.leader_blind.len() == L && rand.prove_seed.len() == L && forall|i: int|
            0 <= i < rand.helpers.len() ==> (#[trigger] rand.helpers[i]).input_share.len() == L
                && rand.helpers[i].proof_share.len() == L && rand.helpers[i].blind.len() == L,
{
    if let Ok(shares) = r {
        assert(input_share_views(shares@) =~= Seq::new(shares@.len(), |i: int| shares@[i]@));
    }
}

/// The conditions under which honest measurements are prepared are met whenever sharding has
/// succeeded and the query point is no root of unity of the order of the domain.
pub proof fn law_honest_conditions<T: Type, P: Prg<L>, const L: usize>(
    typ: &T,
    measurement: T::Measurement,
    x: Seq<int>,
    rand: ShardRandomness,
    key: Seq<u8>,
    nonce: Seq<u8>,
)
    requires
        typ.wf(),
        typ.encode_spec(measurement) == Some(x),
        rand.helpers.len() < 254,
    ensures
        sharded::<T, P, L>(typ, (rand.helpers.len() + 1) as u8, x, rand) <==> shard_spec::<T, P, L>(
            typ,
            measurement,
            rand,
        ) is Ok,
        exists|q: Option<Seq<int>>| #[trigger]
            is_query_element::<T::Field, P, L>(key, nonce, q) && (query_ok::<T, P, L>(
                typ,
                key,
                nonce,
            ) <==> q is Some && !cong(pow((q->0)[0], domain(typ)), 1, T::Field::modulus())),
{
    typ.lemma_encode(measurement);
    let q = query_rand::<T, P, L>(typ, query_seed::<P, L>(key, nonce));
    lemma_query_element::<T, P, L>(typ, key, nonce);
    law_refused_points(typ, Set::<int>::empty());
    assert(is_query_element::<T::Field, P, L>(key, nonce, q));
}

/// Randomness is drawn if the random source has supplied each of its seeds, and no two of them in
/// the same draw.
pub proof fn law_randomness_drawn(rand: ShardRandomness)
    requires
        randomness_drawn(rand),
    ensures
        forall|i: int|
            0 <= i < rand.helpers.len() ==> supplied_at(
                3 * i,
                (#[trigger] rand.helpers[i]).input_share,
            ) && supplied_at(3 * i + 1, rand.helpers[i].proof_share) && supplied_at(
                3 * i + 2,
                rand.helpers[i].blind,
            ),
        supplied_at(3 * (rand.helpers.len() as int), rand.leader_blind),
        supplied_at(3 * (rand.helpers.len() as int) + 1, rand.prove_seed),
{
    assert forall|i: int| 0 <= i < rand.helpers.len() implies supplied_at(
        3 * i,
        (#[trigger] rand.helpers[i]).input_share,
    ) && supplied_at(3 * i + 1, rand.helpers[i].proof_share) && supplied_at(
        3 * i + 2,
        rand.helpers[i].blind,
    ) by {
        assert(helper_drawn(3 * i, rand.helpers[i]));
    }
}

/// An input share is written as the bytes of its share of the measurement, those of its share of
/// the proof, the seed hint and the blind, in this order and with nothing in between; the last two
/// are left out where there are none.
pub proof fn law_input_share_bytes(share: InputShareView, size: nat)
    requires
        share.input_share matches ShareView::Leader(data) ==> forall|k: int|
            0 <= k < data.len() ==> #[trigger] data[k] >= 0,
        share.proof_share matches ShareView::Leader(data) ==> forall|k: int|
            0 <= k < data.len() ==> #[trigger] data[k] >= 0,
    ensures
        exists|a: Seq<u8>, b: Seq<u8>|
            {
                &&& #[trigger] are_share_bytes(share.input_share, size, a)
                &&& #[trigger] are_share_bytes(share.proof_share, size, b)
                &&& encode_input_share(share, size) == match share.joint_rand_param {
                    Some(param) => a + b + param.seed_hint + param.blind,
                    None => a + b,
                }
            },
{
    law_encode_share(share.input_share, size);
    law_encode_share(share.proof_share, size);
    let (a, b) = (encode_share(share.input_share, size), encode_share(share.proof_share, size));
    assert(are_share_bytes(share.input_share, size, a) && are_share_bytes(
        share.proof_share,
        size,
        b,
    ));
}

/// A message is written as the bytes of its numbers, followed by the seed if there is one.
pub proof fn law_message_bytes(msg: PrepareMessageView, size: nat)
    requires
        forall|k: int| 0 <= k < msg.verifier.len() ==> #[trigger] msg.verifier[k] >= 0,
    ensures
        exists|a: Seq<u8>| #[trigger]
            are_share_bytes(ShareView::Leader(msg.verifier), size, a) && encode_message(msg, size)
                == match msg.joint_rand_seed {
                Some(seed) => a + seed,
                None => a,
            },
{
    law_encode_share(ShareView::Leader(msg.verifier), size);
    let a = encode_share(ShareView::Leader(msg.verifier), size);
    assert(are_share_bytes(ShareView::Leader(msg.verifier), size, a));
}

/// Reading a share from the start of `b` gives `r`: the leader's is read as numbers, a helper's as
/// a seed.
pub open spec fn reads_share(
    b: Seq<u8>,
    parameter: ShareDecodingParameter,
    seed_len: nat,
    size: nat,
    p: int,
    r: Parsed<ShareView>,
) -> bool {
    match parameter {
        ShareDecodingParameter::Leader(n) => match r {
            Ok((share, rest)) => share is Leader && reads_numbers(
                b,
                n as nat,
                size,
                p,
                Ok((share->Leader_0, rest)),
            ),
            Err(e) => reads_numbers(b, n as nat, size, p, Err(e)),
        },
        ShareDecodingParameter::Helper => match r {
            Ok((share, rest)) => share is Helper && share->Helper_0.len() == seed_len
                && share->Helper_0 + rest == b,
            Err(e) => b.len() < seed_len && e == CodecError::UnexpectedEnd,
        },
    }
}

/// How the share of the aggregator with this identity is read.
pub open spec fn read_as(aggregator_id: u8, n: usize) -> ShareDecodingParameter {
    if aggregator_id == 0 {
        ShareDecodingParameter::Leader(n)
    } else {
        ShareDecodingParameter::Helper
    }
}

proof fn lemma_reads_share(
    b: Seq<u8>,
    parameter: ShareDecodingParameter,
    seed_len: nat,
    size: nat,
    p: int,
)
    ensures
        reads_share(b, parameter, seed_len, size, p, parse_share(b, parameter, seed_len, size, p)),
{
    law_parse_share(b, parameter, seed_len, size, p);
    if let ShareDecodingParameter::Leader(n) = parameter {
        law_parse_elements(b, n as nat, size, p);
    }
}

/// An input share is read in the order in which it is written: the share of the measurement, the
/// share of the proof, and, if joint randomness is used, the seed hint and the blind. The leader's
/// shares are read as numbers and a helper's as seeds. The first of them that cannot be read gives
/// the error.
pub proof fn law_input_share_read(
    b: Seq<u8>,
    param: VerifyParamView,
    seed_len: nat,
    size: nat,
    p: int,
)
    ensures
        ({
            let input = read_as(param.aggregator_id, param.input_len);
            let pf = read_as(param.aggregator_id, param.proof_len);
            let r = parse_input_share(
                b,
                param.share_parameters().0,
                param.share_parameters().1,
                param.joint_rand_len > 0,
                seed_len,
                size,
                p,
            );
            exists|r1: Parsed<ShareView>| #[trigger]
                reads_share(b, input, seed_len, size, p, r1) && match r1 {
                    Err(e) => r == Err::<(InputShareView, Seq<u8>), CodecError>(e),
                    Ok((input_share, rest1)) => exists|r2: Parsed<ShareView>| #[trigger]
                        reads_share(rest1, pf, seed_len, size, p, r2) && match r2 {
                            Err(e) => r == Err::<(InputShareView, Seq<u8>), CodecError>(e),
                            Ok((proof_share, rest2)) => if param.joint_rand_len == 0 {
                                r == Ok::<(InputShareView, Seq<u8>), CodecError>(
                                    (
                                        InputShareView {
                                            input_share,
                                            proof_share,
                                            joint_rand_param: None,
                                        },
                                        rest2,
                                    ),
                                )
                            } else if rest2.len() < 2 * seed_len {
                                r == Err::<(InputShareView, Seq<u8>), CodecError>(
                                    CodecError::UnexpectedEnd,
                                )
                            } else {
                                r == Ok::<(InputShareView, Seq<u8>), CodecError>(
                                    (
                                        InputShareView {
                                            input_share,
                                            proof_share,
                                            joint_rand_param: Some(
                                                JointRandParamView {
                                                    seed_hint: rest2.subrange(0, seed_len as int),
                                                    blind: rest2.subrange(
                                                        seed_len as int,
                                                        2 * (seed_len as int),
                                                    ),
                                                },
                                            ),
                                        },
                                        rest2.skip(2 * (seed_len as int)),
                                    ),
                                )
                            },
                        },
                }
        }),
{
    let input = read_as(param.aggregator_id, param.input_len);
    let pf = read_as(param.aggregator_id, param.proof_len);
    let r1 = parse_share(b, input, seed_len, size, p);
    lemma_reads_share(b, input, seed_len, size, p);
    assert(reads_share(b, input, seed_len, size, p, r1));
    if let Ok((input_share, rest1)) = r1 {
        let r2 = parse_share(rest1, pf, seed_len, size, p);
        lemma_reads_share(rest1, pf, seed_len, size, p);
        assert(reads_share(rest1, pf, seed_len, size, p, r2));
        if let Ok((proof_share, rest2)) = r2 {
            if rest2.len() >= 2 * seed_len {
                let n = seed_len as int;
                assert(rest2.take(n) =~= rest2.subrange(0, n));
                assert(rest2.skip(n).take(n) =~= rest2.subrange(n, 2 * n));
                assert(rest2.skip(n).skip(n) =~= rest2.skip(2 * n));
            }
        }
    }
}

/// The number of elements that an aggregator expects in a message: as many as its own has.
pub open spec fn expected_len(state: PrepareStepView) -> nat {
    match state {
        PrepareStepView::Ready { verifier_msg, .. } => verifier_msg.verifier.len(),
        PrepareStepView::Waiting { verifier_len, .. } => verifier_len,
    }
}

/// A message is read in the order in which it is written: as many numbers as the aggregator
/// expects, and a seed if it holds one itself. The first of them that cannot be read gives the
/// error.
pub proof fn law_message_read(
    b: Seq<u8>,
    state: PrepareStepView,
    seed_len: nat,
    size: nat,
    p: int,
)
    requires
        expected_len(state) <= usize::MAX,
    ensures
        ({
            let seed = match state {
                PrepareStepView::Ready { joint_rand_seed, .. } => joint_rand_seed,
                PrepareStepView::Waiting { joint_rand_seed, .. } => joint_rand_seed,
            };
            let r = parse_message(b, state.verifier_len(), state.has_seed(), seed_len, size, p);
            exists|r1: Parsed<ShareView>| #[trigger]
                reads_share(
                    b,
                    ShareDecodingParameter::Leader(expected_len(state) as usize),
                    seed_len,
                    size,
                    p,
                    r1,
                ) && match r1 {
                    Err(e) => r == Err::<(PrepareMessageView, Seq<u8>), CodecError>(e),
                    Ok((share, rest)) => if seed is None {
                        r == Ok::<(PrepareMessageView, Seq<u8>), CodecError>(
                            (
                                PrepareMessageView {
                                    verifier: share->Leader_0,
                                    joint_rand_seed: None,
                                },
                                rest,
                            ),
                        )
                    } else if rest.len() < seed_len {
                        r == Err::<(PrepareMessageView, Seq<u8>), CodecError>(
                            CodecError::UnexpectedEnd,
                        )
                    } else {
                        r == Ok::<(PrepareMessageView, Seq<u8>), CodecError>(
                            (
                                PrepareMessageView {
                                    verifier: share->Leader_0,
                                    joint_rand_seed: Some(rest.take(seed_len as int)),
                                },
                                rest.skip(seed_len as int),
                            ),
                        )
                    },
                }
        }),
{
    let parameter = ShareDecodingParameter::Leader(expected_len(state) as usize);
    law_parse_share(b, parameter, seed_len, size, p);
    lemma_reads_share(b, parameter, seed_len, size, p);
    let r1 = parse_share(b, parameter, seed_len, size, p);
    assert(reads_share(b, parameter, seed_len, size, p, r1));
    if r1 is Ok {
        let (share, rest) = r1->Ok_0;
        assert(parse_elements(b, state.verifier_len(), size, p) == Ok::<
            (Seq<int>, Seq<u8>),
            CodecError,
        >((share->Leader_0, rest)));
    }
}

} // verus!

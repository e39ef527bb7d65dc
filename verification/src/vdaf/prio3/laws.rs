//! What Prio3 promises.
use vstd::prelude::*;

verus! {

use vstd::arithmetic::power::pow;
use vstd::arithmetic::power2::lemma_pow2_pos;
use vstd::string::StringSliceAdditionalSpecFns;
use crate::arith::{
    column, column_sums, cong, lemma_cong_add, lemma_cong_from, lemma_cong_mod, lemma_reduced_cong,
    lemma_reduced_residues, lemma_seq_cong_reduced, lemma_seq_cong_trans, lemma_seq_cong_witness,
    lemma_sub_seqs_len, lemma_sub_seqs_sum, lemma_sum_seqs_append, lemma_sum_seqs_cong,
    lemma_sum_seqs_first, lemma_sum_seqs_len, lemma_sum_seqs_order, lemma_sum_seqs_remove,
    lemma_table_sum, lincomb, reduced, row_sums, seq_cong, sub_seqs, sum_seqs, uniform, zeros,
};
use crate::codec::{
    lemma_encode_parsed, lemma_parse_encoded, parse_bytes, parse_elements, CodecError,
};
use crate::field::{encode_vals, inverse, FieldElement};
use crate::pcp::gadgets::Gadget;
use crate::pcp::laws::{
    law_shared_decision, law_shared_proof_complete, lemma_proof_complete, lemma_query_linear,
    query_shares,
};
use crate::pcp::{
    decide_spec, domain, domain_log, proof_len_spec, prove_rand_len_spec, query_point_ok,
    query_spec, verifier_len_spec, Type,
};
use crate::vdaf::prg::{
    lemma_xor_all_append, lemma_xor_all_len, lemma_xor_all_remove, lemma_xor_cancel, lemma_xor_comm,
    xor, xor_all, Prg,
};
use crate::vdaf::{
    encode_share, lemma_expand, parse_share, ErrorView, ShareDecodingParameter, ShareView,
};
use super::model::{
    client_message, client_proof, encode_input_share, encode_message, first_misfit,
    first_odd_length, helper_input, helper_inputs, helper_proof, helper_proofs, helper_seed_shares,
    joint_rand, joint_seed, leader_input, leader_proof, leader_seed_share, lemma_first_misfit,
    lemma_first_odd_length, message_seeds, opened_input, opened_proof, parse_input_share,
    parse_message, prepare_init_spec, prepare_step_spec, preprocess_spec, prove_rand, query_rand,
    query_seed, received_joint_rand, received_seed, result_spec, result_vec_spec, shard_ok,
    sum_spec, verifiers, verify_param, InputShareView, PrepareMessageView, PrepareStepView,
    ShardRandomness, TransitionView, VerifyParamView,
};

/// The input shares that the aggregators hold after the client has shared the encoded
/// measurement `x`.
pub open spec fn held_inputs<T: Type, P: Prg<L>, const L: usize>(
    typ: &T,
    x: Seq<int>,
    rand: ShardRandomness,
) -> Seq<Seq<int>> {
    seq![leader_input::<T, P, L>(typ, x, rand.helpers)] + helper_inputs::<T, P, L>(
        typ,
        rand.helpers,
    )
}

/// The proof shares that the aggregators hold.
pub open spec fn held_proofs<T: Type, P: Prg<L>, const L: usize>(
    typ: &T,
    x: Seq<int>,
    rand: ShardRandomness,
) -> Seq<Seq<int>> {
    seq![leader_proof::<T, P, L>(typ, x, rand)] + helper_proofs::<T, P, L>(typ, rand.helpers)
}

/// The shares of the joint randomness seed that the aggregators hold.
pub open spec fn held_seeds<T: Type, P: Prg<L>, const L: usize>(
    typ: &T,
    x: Seq<int>,
    rand: ShardRandomness,
) -> Seq<Seq<u8>> {
    seq![leader_seed_share::<T, P, L>(typ, x, rand)] + helper_seed_shares::<T, P, L>(
        typ,
        rand.helpers,
    )
}

/// The client has made its messages from an encoded measurement: its randomness fits the number
/// of aggregators, and no stream has ended too early.
pub open spec fn sharded<T: Type, P: Prg<L>, const L: usize>(
    typ: &T,
    num_aggregators: u8,
    x: Seq<int>,
    rand: ShardRandomness,
) -> bool {
    &&& typ.wf()
    &&& 1 <= num_aggregators <= 254
    &&& rand.helpers.len() + 1 == num_aggregators
    &&& x.len() == typ.input_len_spec()
    &&& shard_ok::<T, P, L>(typ, x, rand)
}

/// Sharing does not lose the measurement: the input shares that the aggregators expand the
/// client's messages to add up to the encoded measurement.
pub proof fn law_input_shares_sum<T: Type, P: Prg<L>, const L: usize>(
    typ: &T,
    num_aggregators: u8,
    x: Seq<int>,
    rand: ShardRandomness,
)
    requires
        sharded::<T, P, L>(typ, num_aggregators, x, rand),
    ensures
        held_inputs::<T, P, L>(typ, x, rand).len() == num_aggregators,
        uniform(held_inputs::<T, P, L>(typ, x, rand), typ.input_len_spec()),
        forall|i: int|
            0 <= i < num_aggregators ==> opened_input::<T, P, L>(
                typ,
                #[trigger] client_message::<T, P, L>(typ, x, rand, i).input_share,
            ) == Some(held_inputs::<T, P, L>(typ, x, rand)[i]),
        seq_cong(
            sum_seqs(held_inputs::<T, P, L>(typ, x, rand), typ.input_len_spec()),
            x,
            T::Field::modulus(),
        ),
{
    <T::Field as FieldElement>::lemma_field();
    let (n, p) = (typ.input_len_spec(), T::Field::modulus());
    let ys = helper_inputs::<T, P, L>(typ, rand.helpers);
    let xs = held_inputs::<T, P, L>(typ, x, rand);
    let rest = sub_seqs(x, ys);
    assert forall|i: int| 0 <= i < ys.len() implies (#[trigger] ys[i]).len() == n by {
        assert(helper_input::<T, P, L>(typ, rand.helpers[i].input_share) is Some);
        lemma_expand::<T::Field, P, L>(
            rand.helpers[i].input_share,
            "input share".spec_bytes(),
            n,
        );
    }
    lemma_sub_seqs_len(x, ys);
    assert forall|i: int| 0 <= i < xs.len() implies (#[trigger] xs[i]).len() == n by {
        if i > 0 {
            assert(ys[i - 1].len() == n);
        }
    }
    assert forall|i: int| 0 <= i < num_aggregators implies opened_input::<T, P, L>(
        typ,
        #[trigger] client_message::<T, P, L>(typ, x, rand, i).input_share,
    ) == Some(xs[i]) by {
        if i > 0 {
            assert(helper_input::<T, P, L>(typ, rand.helpers[i - 1].input_share) is Some);
        }
    }
    lemma_reduced_cong(rest, p);
    lemma_sum_seqs_first(reduced(rest, p), rest, ys, n, p);
    lemma_sub_seqs_sum(x, ys);
}

/// The proof shares that the aggregators expand the client's messages to add up to the proof.
pub proof fn law_proof_shares_sum<T: Type, P: Prg<L>, const L: usize>(
    typ: &T,
    num_aggregators: u8,
    x: Seq<int>,
    rand: ShardRandomness,
)
    requires
        sharded::<T, P, L>(typ, num_aggregators, x, rand),
        typ.valid(x),
    ensures
        held_proofs::<T, P, L>(typ, x, rand).len() == num_aggregators,
        uniform(held_proofs::<T, P, L>(typ, x, rand), proof_len_spec(typ)),
        forall|i: int|
            0 <= i < num_aggregators ==> opened_proof::<T, P, L>(
                typ,
                #[trigger] client_message::<T, P, L>(typ, x, rand, i).proof_share,
            ) == Some(held_proofs::<T, P, L>(typ, x, rand)[i]),
        seq_cong(
            sum_seqs(held_proofs::<T, P, L>(typ, x, rand), proof_len_spec(typ)),
            client_proof::<T, P, L>(typ, x, rand),
            T::Field::modulus(),
        ),
{
    <T::Field as FieldElement>::lemma_field();
    let (n, p) = (proof_len_spec(typ), T::Field::modulus());
    let full = client_proof::<T, P, L>(typ, x, rand);
    let seed = joint_seed::<T, P, L>(typ, x, rand);
    lemma_expand::<T::Field, P, L>(seed, "joint rand".spec_bytes(), typ.joint_rand_len_spec());
    lemma_expand::<T::Field, P, L>(
        rand.prove_seed,
        "prove rand".spec_bytes(),
        prove_rand_len_spec(typ),
    );
    lemma_proof_complete(
        typ,
        x,
        prove_rand::<T, P, L>(typ, rand.prove_seed)->0,
        0,
        joint_rand::<T, P, L>(typ, seed)->0,
    );
    assert(full.len() == n);
    let ys = helper_proofs::<T, P, L>(typ, rand.helpers);
    let xs = held_proofs::<T, P, L>(typ, x, rand);
    let rest = sub_seqs(full, ys);
    assert forall|i: int| 0 <= i < ys.len() implies (#[trigger] ys[i]).len() == n by {
        assert(helper_proof::<T, P, L>(typ, rand.helpers[i].proof_share) is Some);
        lemma_expand::<T::Field, P, L>(
            rand.helpers[i].proof_share,
            "proof share".spec_bytes(),
            n,
        );
    }
    lemma_sub_seqs_len(full, ys);
    assert forall|i: int| 0 <= i < xs.len() implies (#[trigger] xs[i]).len() == n by {
        if i > 0 {
            assert(ys[i - 1].len() == n);
        }
    }
    assert forall|i: int| 0 <= i < num_aggregators implies opened_proof::<T, P, L>(
        typ,
        #[trigger] client_message::<T, P, L>(typ, x, rand, i).proof_share,
    ) == Some(xs[i]) by {
        if i > 0 {
            assert(helper_proof::<T, P, L>(typ, rand.helpers[i - 1].proof_share) is Some);
        }
    }
    lemma_reduced_cong(rest, p);
    lemma_sum_seqs_first(reduced(rest, p), rest, ys, n, p);
    lemma_sub_seqs_sum(full, ys);
}

/// Every aggregator computes the joint randomness seed that the client has used, and the shares
/// of the seed that the aggregators send each other make up that seed.
pub proof fn law_joint_seed<T: Type, P: Prg<L>, const L: usize>(
    typ: &T,
    num_aggregators: u8,
    x: Seq<int>,
    rand: ShardRandomness,
)
    requires
        sharded::<T, P, L>(typ, num_aggregators, x, rand),
        typ.joint_rand_len_spec() > 0,
    ensures
        forall|i: int|
            0 <= i < num_aggregators ==> received_seed::<T, P, L>(
                typ,
                i as u8,
                #[trigger] client_message::<T, P, L>(typ, x, rand, i),
                held_inputs::<T, P, L>(typ, x, rand)[i],
            ) == Some(
                (
                    held_seeds::<T, P, L>(typ, x, rand)[i],
                    joint_seed::<T, P, L>(typ, x, rand),
                ),
            ),
        xor_all(held_seeds::<T, P, L>(typ, x, rand), L as nat) == joint_seed::<T, P, L>(
            typ,
            x,
            rand,
        ),
{
    let n = L as nat;
    let seed = joint_seed::<T, P, L>(typ, x, rand);
    let hs = helper_seed_shares::<T, P, L>(typ, rand.helpers);
    let leader = leader_seed_share::<T, P, L>(typ, x, rand);
    let all = held_seeds::<T, P, L>(typ, x, rand);
    lemma_xor_all_len(hs.push(leader), n);
    assert forall|i: int| 0 <= i < num_aggregators implies received_seed::<T, P, L>(
        typ,
        i as u8,
        #[trigger] client_message::<T, P, L>(typ, x, rand, i),
        held_inputs::<T, P, L>(typ, x, rand)[i],
    ) == Some((all[i], seed)) by {
        let share = all[i];
        assert(share.len() == n);
        lemma_xor_comm(share, seed);
        lemma_xor_cancel(seed, share);
    }
    // The client starts with the helpers, the aggregators are in the order of their identities.
    assert(hs.push(leader) =~= hs + seq![leader]);
    lemma_xor_all_append(hs, seq![leader], n);
    lemma_xor_all_append(seq![leader], hs, n);
    lemma_xor_all_len(hs, n);
    lemma_xor_all_len(seq![leader], n);
    lemma_xor_comm(xor_all(hs, n), xor_all(seq![leader], n));
}

/// The state that the `i`-th aggregator starts in.
pub open spec fn started<T: Type, P: Prg<L>, const L: usize>(
    typ: &T,
    num_aggregators: u8,
    key: Seq<u8>,
    nonce: Seq<u8>,
    x: Seq<int>,
    rand: ShardRandomness,
    i: int,
) -> Result<PrepareStepView, ErrorView> {
    prepare_init_spec::<T, P, L>(
        typ,
        num_aggregators,
        key,
        i as u8,
        nonce,
        client_message::<T, P, L>(typ, x, rand, i),
    )
}

/// What the `i`-th aggregator does first.
pub open spec fn first_step<T: Type, P: Prg<L>, const L: usize>(
    typ: &T,
    num_aggregators: u8,
    key: Seq<u8>,
    nonce: Seq<u8>,
    x: Seq<int>,
    rand: ShardRandomness,
    i: int,
) -> TransitionView {
    prepare_step_spec::<T, P, L>(
        typ,
        started::<T, P, L>(typ, num_aggregators, key, nonce, x, rand, i)->Ok_0,
        None,
    )
}

/// The messages that the aggregators send.
pub open spec fn sent<T: Type, P: Prg<L>, const L: usize>(
    typ: &T,
    num_aggregators: u8,
    key: Seq<u8>,
    nonce: Seq<u8>,
    x: Seq<int>,
    rand: ShardRandomness,
) -> Seq<PrepareMessageView> {
    Seq::new(
        num_aggregators as nat,
        |i: int|
            first_step::<T, P, L>(typ, num_aggregators, key, nonce, x, rand, i)->Continue_1,
    )
}

/// The sum of the messages.
pub open spec fn combined<T: Type, P: Prg<L>, const L: usize>(
    typ: &T,
    num_aggregators: u8,
    key: Seq<u8>,
    nonce: Seq<u8>,
    x: Seq<int>,
    rand: ShardRandomness,
) -> Result<PrepareMessageView, ErrorView> {
    preprocess_spec(
        typ,
        num_aggregators,
        sent::<T, P, L>(typ, num_aggregators, key, nonce, x, rand),
        L as nat,
    )
}

/// What the `i`-th aggregator does last.
pub open spec fn second_step<T: Type, P: Prg<L>, const L: usize>(
    typ: &T,
    num_aggregators: u8,
    key: Seq<u8>,
    nonce: Seq<u8>,
    x: Seq<int>,
    rand: ShardRandomness,
    i: int,
) -> TransitionView {
    prepare_step_spec::<T, P, L>(
        typ,
        first_step::<T, P, L>(typ, num_aggregators, key, nonce, x, rand, i)->Continue_0,
        Some(combined::<T, P, L>(typ, num_aggregators, key, nonce, x, rand)->Ok_0),
    )
}

/// The output shares of the aggregators.
pub open spec fn outputs<T: Type, P: Prg<L>, const L: usize>(
    typ: &T,
    num_aggregators: u8,
    key: Seq<u8>,
    nonce: Seq<u8>,
    x: Seq<int>,
    rand: ShardRandomness,
) -> Seq<Seq<int>> {
    Seq::new(
        num_aggregators as nat,
        |i: int|
            second_step::<T, P, L>(typ, num_aggregators, key, nonce, x, rand, i)->Finish_0,
    )
}

/// The query randomness of a key and a nonce can be used: its stream does not end, and it is not
/// one of the points that the prover has used.
pub open spec fn query_ok<T: Type, P: Prg<L>, const L: usize>(
    typ: &T,
    key: Seq<u8>,
    nonce: Seq<u8>,
) -> bool {
    query_rand::<T, P, L>(typ, query_seed::<P, L>(key, nonce)) matches Some(qr) && query_point_ok(
        typ,
        qr[0],
    )
}

/// The verifier message of the `i`-th aggregator, over its shares.
proof fn lemma_started<T: Type, P: Prg<L>, const L: usize>(
    typ: &T,
    num_aggregators: u8,
    key: Seq<u8>,
    nonce: Seq<u8>,
    x: Seq<int>,
    rand: ShardRandomness,
    i: int,
)
    requires
        sharded::<T, P, L>(typ, num_aggregators, x, rand),
        typ.valid(x),
        query_ok::<T, P, L>(typ, key, nonce),
        0 <= i < num_aggregators,
    ensures
        ({
            let p = T::Field::modulus();
            let seed = joint_seed::<T, P, L>(typ, x, rand);
            let jr = joint_rand::<T, P, L>(typ, seed)->0;
            let point = (query_rand::<T, P, L>(typ, query_seed::<P, L>(key, nonce))->0)[0];
            let uses = typ.joint_rand_len_spec() > 0;
            started::<T, P, L>(typ, num_aggregators, key, nonce, x, rand, i) == Ok::<
                PrepareStepView,
                ErrorView,
            >(
                PrepareStepView::Ready {
                    input_share: client_message::<T, P, L>(typ, x, rand, i).input_share,
                    joint_rand_seed: if uses {
                        Some(seed)
                    } else {
                        None
                    },
                    verifier_msg: PrepareMessageView {
                        verifier: reduced(
                            query_spec(
                                typ,
                                held_inputs::<T, P, L>(typ, x, rand)[i],
                                held_proofs::<T, P, L>(typ, x, rand)[i],
                                point,
                                jr,
                                inverse(num_aggregators as int, p) % p,
                            ),
                            p,
                        ),
                        joint_rand_seed: if uses {
                            Some(held_seeds::<T, P, L>(typ, x, rand)[i])
                        } else {
                            None
                        },
                    },
                },
            )
        }),
{
    law_input_shares_sum::<T, P, L>(typ, num_aggregators, x, rand);
    law_proof_shares_sum::<T, P, L>(typ, num_aggregators, x, rand);
    let msg = client_message::<T, P, L>(typ, x, rand, i);
    let xi = held_inputs::<T, P, L>(typ, x, rand)[i];
    let pi = held_proofs::<T, P, L>(typ, x, rand)[i];
    let seed = joint_seed::<T, P, L>(typ, x, rand);
    assert(opened_input::<T, P, L>(typ, msg.input_share) == Some(xi));
    assert(opened_proof::<T, P, L>(typ, msg.proof_share) == Some(pi));
    assert(xi.len() == typ.input_len_spec());
    assert(pi.len() == proof_len_spec(typ));
    if typ.joint_rand_len_spec() > 0 {
        law_joint_seed::<T, P, L>(typ, num_aggregators, x, rand);
    } else {
        lemma_expand::<T::Field, P, L>(seed, "joint rand".spec_bytes(), 0);
        assert(joint_rand::<T, P, L>(typ, seed)->0 =~= Seq::<int>::empty());
    }
}

/// The preparation of an honest measurement succeeds: if the client shards a measurement that can
/// be encoded, every aggregator starts, sends its message, accepts the sum of the messages and
/// gets its output share, and the output shares add up to what the measurement contributes.
pub proof fn law_preparation<T: Type, P: Prg<L>, const L: usize>(
    typ: &T,
    num_aggregators: u8,
    key: Seq<u8>,
    nonce: Seq<u8>,
    measurement: T::Measurement,
    x: Seq<int>,
    rand: ShardRandomness,
)
    requires
        typ.encode_spec(measurement) == Some(x),
        sharded::<T, P, L>(typ, num_aggregators, x, rand),
        query_ok::<T, P, L>(typ, key, nonce),
    ensures
        forall|i: int|
            0 <= i < num_aggregators ==> #[trigger] started::<T, P, L>(
                typ,
                num_aggregators,
                key,
                nonce,
                x,
                rand,
                i,
            ) is Ok,
        forall|i: int|
            0 <= i < num_aggregators ==> #[trigger] first_step::<T, P, L>(
                typ,
                num_aggregators,
                key,
                nonce,
                x,
                rand,
                i,
            ) is Continue,
        combined::<T, P, L>(typ, num_aggregators, key, nonce, x, rand) is Ok,
        forall|i: int|
            0 <= i < num_aggregators ==> #[trigger] second_step::<T, P, L>(
                typ,
                num_aggregators,
                key,
                nonce,
                x,
                rand,
                i,
            ) is Finish,
        uniform(
            outputs::<T, P, L>(typ, num_aggregators, key, nonce, x, rand),
            typ.output_len_spec(),
        ),
        seq_cong(
            sum_seqs(
                outputs::<T, P, L>(typ, num_aggregators, key, nonce, x, rand),
                typ.output_len_spec(),
            ),
            typ.contribution(measurement),
            T::Field::modulus(),
        ),
{
    <T::Field as FieldElement>::lemma_field();
    typ.lemma_encode(measurement);
    let p = T::Field::modulus();
    let n = num_aggregators as int;
    let (xs, pfs) = (held_inputs::<T, P, L>(typ, x, rand), held_proofs::<T, P, L>(typ, x, rand));
    let seed = joint_seed::<T, P, L>(typ, x, rand);
    let jr = joint_rand::<T, P, L>(typ, seed)->0;
    let pr = prove_rand::<T, P, L>(typ, rand.prove_seed)->0;
    let point = (query_rand::<T, P, L>(typ, query_seed::<P, L>(key, nonce))->0)[0];
    let s = inverse(n, p) % p;
    law_input_shares_sum::<T, P, L>(typ, num_aggregators, x, rand);
    law_proof_shares_sum::<T, P, L>(typ, num_aggregators, x, rand);
    lemma_expand::<T::Field, P, L>(seed, "joint rand".spec_bytes(), typ.joint_rand_len_spec());
    lemma_expand::<T::Field, P, L>(
        rand.prove_seed,
        "prove rand".spec_bytes(),
        prove_rand_len_spec(typ),
    );
    let shares = query_shares(typ, xs, pfs, s, point, jr);
    let msgs = sent::<T, P, L>(typ, num_aggregators, key, nonce, x, rand);
    let want = verifier_len_spec(typ);
    // Every aggregator starts and sends its message.
    assert forall|i: int| 0 <= i < n implies {
        &&& #[trigger] started::<T, P, L>(typ, num_aggregators, key, nonce, x, rand, i) is Ok
        &&& first_step::<T, P, L>(typ, num_aggregators, key, nonce, x, rand, i) is Continue
        &&& msgs[i].verifier == reduced(shares[i], p)
        &&& shares[i].len() == want
        &&& typ.joint_rand_len_spec() > 0 ==> msgs[i].joint_rand_seed == Some(
            held_seeds::<T, P, L>(typ, x, rand)[i],
        )
    } by {
        lemma_started::<T, P, L>(typ, num_aggregators, key, nonce, x, rand, i);
        assert(xs[i].len() == typ.input_len_spec());
        assert(pfs[i].len() == proof_len_spec(typ));
        lemma_query_linear(typ, 1, xs[i], pfs[i], s, 0, xs[i], pfs[i], s, point, jr);
    }
    assert forall|i: int| 0 <= i < n implies #[trigger] first_step::<T, P, L>(
        typ,
        num_aggregators,
        key,
        nonce,
        x,
        rand,
        i,
    ) is Continue by {
        assert(started::<T, P, L>(typ, num_aggregators, key, nonce, x, rand, i) is Ok);
    }
    // The messages can be added.
    assert(first_misfit(msgs, want) == msgs.len()) by {
        lemma_first_misfit(msgs, want);
        let k = first_misfit(msgs, want) as int;
        if k < msgs.len() {
            assert(started::<T, P, L>(typ, num_aggregators, key, nonce, x, rand, k) is Ok);
        }
    }
    let total = combined::<T, P, L>(typ, num_aggregators, key, nonce, x, rand)->Ok_0;
    let vs = verifiers(msgs);
    assert forall|i: int| 0 <= i < vs.len() implies seq_cong(#[trigger] vs[i], shares[i], p) by {
        assert(started::<T, P, L>(typ, num_aggregators, key, nonce, x, rand, i) is Ok);
        lemma_reduced_cong(shares[i], p);
    }
    assert forall|i: int| 0 <= i < vs.len() implies (#[trigger] vs[i]).len() == want by {
        assert(started::<T, P, L>(typ, num_aggregators, key, nonce, x, rand, i) is Ok);
    }
    lemma_sum_seqs_cong(vs, shares, want, p);
    lemma_reduced_cong(sum_seqs(vs, want), p);
    lemma_seq_cong_trans(total.verifier, sum_seqs(vs, want), sum_seqs(shares, want), p);
    // Their sum is accepted.
    law_shared_proof_complete(typ, x, pr, xs, pfs, point, jr, total.verifier);
    lemma_sum_seqs_len(vs, want);
    if typ.joint_rand_len_spec() > 0 {
        law_joint_seed::<T, P, L>(typ, num_aggregators, x, rand);
        let all = held_seeds::<T, P, L>(typ, x, rand);
        assert forall|i: int| 0 <= i < n implies #[trigger] message_seeds(msgs)[i] == all[i] by {
            assert(started::<T, P, L>(typ, num_aggregators, key, nonce, x, rand, i) is Ok);
        }
        assert(message_seeds(msgs) =~= all);
    }
    // Every aggregator gets its output share.
    let outs = outputs::<T, P, L>(typ, num_aggregators, key, nonce, x, rand);
    let truncated = truncations(typ, xs);
    assert forall|i: int| 0 <= i < n implies {
        &&& #[trigger] second_step::<T, P, L>(typ, num_aggregators, key, nonce, x, rand, i) is Finish
        &&& outs[i] == reduced(truncated[i], p)
    } by {
        lemma_started::<T, P, L>(typ, num_aggregators, key, nonce, x, rand, i);
        let msg = client_message::<T, P, L>(typ, x, rand, i);
        assert(opened_input::<T, P, L>(typ, msg.input_share) == Some(xs[i]));
        assert(xs[i].len() == typ.input_len_spec());
    }
    // The output shares add up to the contribution.
    let m = typ.output_len_spec();
    lemma_truncations_sum(typ, xs);
    assert forall|i: int| 0 <= i < outs.len() implies seq_cong(
        #[trigger] outs[i],
        truncated[i],
        p,
    ) by {
        assert(second_step::<T, P, L>(typ, num_aggregators, key, nonce, x, rand, i) is Finish);
        lemma_reduced_cong(truncated[i], p);
    }
    assert forall|i: int| 0 <= i < outs.len() implies (#[trigger] outs[i]).len() == m by {
        assert(second_step::<T, P, L>(typ, num_aggregators, key, nonce, x, rand, i) is Finish);
        assert(truncated[i].len() == m);
    }
    lemma_sum_seqs_cong(outs, truncated, m, p);
    let sum = sum_seqs(xs, typ.input_len_spec());
    lemma_truncate_cong(typ, sum, x);
    lemma_seq_cong_trans(sum_seqs(outs, m), typ.truncate_spec(sum), typ.truncate_spec(x), p);
    lemma_seq_cong_trans(
        sum_seqs(outs, m),
        typ.truncate_spec(x),
        typ.contribution(measurement),
        p,
    );
}

/// The outputs of several vectors.
pub open spec fn truncations<T: Type>(typ: &T, xs: Seq<Seq<int>>) -> Seq<Seq<int>> {
    Seq::new(xs.len(), |i: int| typ.truncate_spec(xs[i]))
}

/// The sum of the outputs is the output of the sum.
proof fn lemma_truncations_sum<T: Type>(typ: &T, xs: Seq<Seq<int>>)
    requires
        typ.wf(),
        uniform(xs, typ.input_len_spec()),
    ensures
        uniform(truncations(typ, xs), typ.output_len_spec()),
        sum_seqs(truncations(typ, xs), typ.output_len_spec()) == typ.truncate_spec(
            sum_seqs(xs, typ.input_len_spec()),
        ),
    decreases xs.len(),
{
    let (n, m) = (typ.input_len_spec(), typ.output_len_spec());
    let ts = truncations(typ, xs);
    assert forall|i: int| 0 <= i < ts.len() implies (#[trigger] ts[i]).len() == m by {
        assert(xs[i].len() == n);
        typ.lemma_truncate_linear(1, xs[i], 0, xs[i]);
    }
    if xs.len() == 0 {
        let z = zeros(n);
        typ.lemma_truncate_linear(0, z, 0, z);
        assert(lincomb(0, z, 0, z) =~= z);
        assert(lincomb(0, typ.truncate_spec(z), 0, typ.truncate_spec(z)) =~= zeros(m));
    } else {
        let ys = xs.drop_last();
        lemma_truncations_sum(typ, ys);
        lemma_sum_seqs_len(ys, n);
        assert(truncations(typ, ys) =~= ts.drop_last());
        assert(xs[xs.len() - 1].len() == n);
        typ.lemma_truncate_linear(1, sum_seqs(ys, n), 1, xs.last());
    }
}

/// The output depends on the residues alone.
proof fn lemma_truncate_cong<T: Type>(typ: &T, x: Seq<int>, y: Seq<int>)
    requires
        typ.wf(),
        x.len() == typ.input_len_spec(),
        seq_cong(x, y, T::Field::modulus()),
    ensures
        seq_cong(typ.truncate_spec(x), typ.truncate_spec(y), T::Field::modulus()),
{
    let p = T::Field::modulus();
    <T::Field as FieldElement>::lemma_field();
    let d = lemma_seq_cong_witness(x, y, p);
    typ.lemma_truncate_linear(1, y, p, d);
    let (a, b, c) = (typ.truncate_spec(x), typ.truncate_spec(y), typ.truncate_spec(d));
    assert forall|i: int| 0 <= i < a.len() implies #[trigger] cong(a[i], b[i], p) by {
        lemma_cong_from(a[i], b[i], c[i], p);
    }
}

/// The input shares that arbitrary messages hold.
pub open spec fn received_inputs<T: Type, P: Prg<L>, const L: usize>(
    typ: &T,
    inputs: Seq<InputShareView>,
) -> Seq<Seq<int>> {
    Seq::new(inputs.len(), |i: int| opened_input::<T, P, L>(typ, inputs[i].input_share)->0)
}

/// The proof shares that arbitrary messages hold.
pub open spec fn received_proofs<T: Type, P: Prg<L>, const L: usize>(
    typ: &T,
    inputs: Seq<InputShareView>,
) -> Seq<Seq<int>> {
    Seq::new(inputs.len(), |i: int| opened_proof::<T, P, L>(typ, inputs[i].proof_share)->0)
}

/// The messages that aggregators in the given states send.
pub open spec fn sent_by(states: Seq<PrepareStepView>) -> Seq<PrepareMessageView> {
    Seq::new(states.len(), |i: int| states[i]->verifier_msg)
}

/// The state after the first step.
pub open spec fn waiting<T: Type, P: Prg<L>, const L: usize>(
    typ: &T,
    state: PrepareStepView,
) -> PrepareStepView {
    prepare_step_spec::<T, P, L>(typ, state, None)->Continue_0
}

/// The output shares after the second step.
pub open spec fn finished<T: Type, P: Prg<L>, const L: usize>(
    typ: &T,
    states: Seq<PrepareStepView>,
    total: PrepareMessageView,
) -> Seq<Seq<int>> {
    Seq::new(
        states.len(),
        |i: int|
            prepare_step_spec::<T, P, L>(
                typ,
                waiting::<T, P, L>(typ, states[i]),
                Some(total),
            )->Finish_0,
    )
}

/// The joint randomness that belongs to the combined messages.
pub open spec fn agreed_joint_rand<T: Type, P: Prg<L>, const L: usize>(
    typ: &T,
    total: PrepareMessageView,
) -> Seq<int> {
    if typ.joint_rand_len_spec() > 0 {
        joint_rand::<T, P, L>(typ, total.joint_rand_seed->0)->0
    } else {
        Seq::empty()
    }
}

/// Whatever the messages of a client are, if all aggregators accept them, then the proof system
/// has accepted what the input shares and the proof shares add up to, with the joint randomness
/// that belongs to the shares of all aggregators, and the output shares add up to the output of
/// that input.
pub proof fn law_accepted<T: Type, P: Prg<L>, const L: usize>(
    typ: &T,
    num_aggregators: u8,
    key: Seq<u8>,
    nonce: Seq<u8>,
    inputs: Seq<InputShareView>,
    states: Seq<PrepareStepView>,
    total: PrepareMessageView,
)
    requires
        typ.wf(),
        1 <= num_aggregators <= 254,
        inputs.len() == num_aggregators,
        states.len() == num_aggregators,
        forall|i: int|
            0 <= i < num_aggregators ==> prepare_init_spec::<T, P, L>(
                typ,
                num_aggregators,
                key,
                i as u8,
                nonce,
                inputs[i],
            ) == Ok::<PrepareStepView, ErrorView>(#[trigger] states[i]),
        preprocess_spec(typ, num_aggregators, sent_by(states), L as nat) == Ok::<
            PrepareMessageView,
            ErrorView,
        >(total),
        forall|i: int|
            0 <= i < num_aggregators ==> prepare_step_spec::<T, P, L>(
                typ,
                waiting::<T, P, L>(typ, #[trigger] states[i]),
                Some(total),
            ) is Finish,
    ensures
        ({
            let x = sum_seqs(received_inputs::<T, P, L>(typ, inputs), typ.input_len_spec());
            let pf = sum_seqs(received_proofs::<T, P, L>(typ, inputs), proof_len_spec(typ));
            let jr = agreed_joint_rand::<T, P, L>(typ, total);
            let point = (query_rand::<T, P, L>(typ, query_seed::<P, L>(key, nonce))->0)[0];
            &&& decide_spec(typ, query_spec(typ, x, pf, point, jr, 1))
            &&& seq_cong(
                sum_seqs(finished::<T, P, L>(typ, states, total), typ.output_len_spec()),
                typ.truncate_spec(x),
                T::Field::modulus(),
            )
        }),
{
    <T::Field as FieldElement>::lemma_field();
    let p = T::Field::modulus();
    let n = num_aggregators as int;
    let (xs, pfs) = (
        received_inputs::<T, P, L>(typ, inputs),
        received_proofs::<T, P, L>(typ, inputs),
    );
    let jr = agreed_joint_rand::<T, P, L>(typ, total);
    let point = (query_rand::<T, P, L>(typ, query_seed::<P, L>(key, nonce))->0)[0];
    let s = inverse(n, p) % p;
    let shares = query_shares(typ, xs, pfs, s, point, jr);
    let vs = verifiers(sent_by(states));
    let want = verifier_len_spec(typ);
    let outs = finished::<T, P, L>(typ, states, total);
    let truncated = truncations(typ, xs);
    assert forall|i: int| 0 <= i < n implies {
        &&& (#[trigger] xs[i]).len() == typ.input_len_spec()
        &&& pfs[i].len() == proof_len_spec(typ)
        &&& jr.len() == typ.joint_rand_len_spec()
        &&& vs[i] == reduced(shares[i], p)
        &&& shares[i].len() == want
        &&& outs[i] == reduced(truncated[i], p)
    } by {
        let state = states[i];
        let received = received_seed::<T, P, L>(typ, i as u8, inputs[i], xs[i]);
        assert(prepare_step_spec::<T, P, L>(
            typ,
            waiting::<T, P, L>(typ, state),
            Some(total),
        ) is Finish);
        law_accepts_only_agreed::<T, P, L>(typ, waiting::<T, P, L>(typ, state), total);
        if typ.joint_rand_len_spec() > 0 {
            let seed = (received->0).1;
            lemma_expand::<T::Field, P, L>(
                seed,
                "joint rand".spec_bytes(),
                typ.joint_rand_len_spec(),
            );
        }
        lemma_query_linear(typ, 1, xs[i], pfs[i], s, 0, xs[i], pfs[i], s, point, jr);
    }
    assert(xs[0].len() == typ.input_len_spec());
    assert forall|i: int| 0 <= i < pfs.len() implies (#[trigger] pfs[i]).len() == proof_len_spec(
        typ,
    ) by {
        assert(xs[i].len() == typ.input_len_spec());
    }
    // The sum of the verifier shares is that of the proof system.
    assert forall|i: int| 0 <= i < vs.len() implies seq_cong(#[trigger] vs[i], shares[i], p) by {
        assert(xs[i].len() == typ.input_len_spec());
        lemma_reduced_cong(shares[i], p);
    }
    assert forall|i: int| 0 <= i < vs.len() implies (#[trigger] vs[i]).len() == want by {
        assert(xs[i].len() == typ.input_len_spec());
    }
    lemma_sum_seqs_cong(vs, shares, want, p);
    lemma_reduced_cong(sum_seqs(vs, want), p);
    lemma_seq_cong_trans(total.verifier, sum_seqs(vs, want), sum_seqs(shares, want), p);
    law_shared_decision(typ, xs, pfs, point, jr, total.verifier);
    law_accepts_only_agreed::<T, P, L>(typ, waiting::<T, P, L>(typ, states[0]), total);
    // The output shares add up to the output of the sum.
    let m = typ.output_len_spec();
    lemma_truncations_sum(typ, xs);
    assert forall|i: int| 0 <= i < outs.len() implies seq_cong(
        #[trigger] outs[i],
        truncated[i],
        p,
    ) by {
        assert(xs[i].len() == typ.input_len_spec());
        lemma_reduced_cong(truncated[i], p);
    }
    assert forall|i: int| 0 <= i < outs.len() implies (#[trigger] outs[i]).len() == m by {
        assert(xs[i].len() == typ.input_len_spec());
        assert(truncated[i].len() == m);
    }
    lemma_sum_seqs_cong(outs, truncated, m, p);
}

/// The output shares of several measurements: one row for each measurement.
pub open spec fn output_table<T: Type, P: Prg<L>, const L: usize>(
    typ: &T,
    num_aggregators: u8,
    key: Seq<u8>,
    nonces: Seq<Seq<u8>>,
    xs: Seq<Seq<int>>,
    rands: Seq<ShardRandomness>,
) -> Seq<Seq<Seq<int>>> {
    Seq::new(
        xs.len(),
        |k: int| outputs::<T, P, L>(typ, num_aggregators, key, nonces[k], xs[k], rands[k]),
    )
}

/// What several measurements contribute.
pub open spec fn contributions<T: Type>(typ: &T, measurements: Seq<T::Measurement>) -> Seq<
    Seq<int>,
> {
    Seq::new(measurements.len(), |k: int| typ.contribution(measurements[k]))
}

/// The aggregate shares that the aggregators make of their output shares.
pub open spec fn aggregate_shares(table: Seq<Seq<Seq<int>>>, width: nat, n: nat, p: int) -> Seq<
    Seq<int>,
> {
    Seq::new(width, |i: int| sum_spec(column(table, i), n, p)->Ok_0)
}

/// Aggregation is correct: if honest clients shard measurements that can be encoded, each
/// aggregator can add its output shares, and the aggregate shares of all aggregators add up to
/// the sum of what the measurements contribute.
pub proof fn law_aggregation<T: Type, P: Prg<L>, const L: usize>(
    typ: &T,
    num_aggregators: u8,
    key: Seq<u8>,
    nonces: Seq<Seq<u8>>,
    measurements: Seq<T::Measurement>,
    xs: Seq<Seq<int>>,
    rands: Seq<ShardRandomness>,
)
    requires
        xs.len() == measurements.len(),
        forall|k: int|
            0 <= k < xs.len() ==> {
                &&& typ.encode_spec(measurements[k]) == Some(#[trigger] xs[k])
                &&& sharded::<T, P, L>(typ, num_aggregators, xs[k], rands[k])
                &&& query_ok::<T, P, L>(typ, key, nonces[k])
            },
    ensures
        ({
            let (n, p) = (typ.output_len_spec(), T::Field::modulus());
            let table = output_table::<T, P, L>(typ, num_aggregators, key, nonces, xs, rands);
            &&& forall|i: int|
                0 <= i < num_aggregators ==> sum_spec(#[trigger] column(table, i), n, p) is Ok
            &&& sum_spec(aggregate_shares(table, num_aggregators as nat, n, p), n, p) == Ok::<
                Seq<int>,
                ErrorView,
            >(reduced(sum_seqs(contributions(typ, measurements), n), p))
        }),
{
    <T::Field as FieldElement>::lemma_field();
    let (n, p, width) = (typ.output_len_spec(), T::Field::modulus(), num_aggregators as nat);
    let table = output_table::<T, P, L>(typ, num_aggregators, key, nonces, xs, rands);
    let cs = contributions(typ, measurements);
    assert forall|k: int| 0 <= k < xs.len() implies {
        &&& (#[trigger] table[k]).len() == width
        &&& uniform(table[k], n)
        &&& seq_cong(sum_seqs(table[k], n), cs[k], p)
    } by {
        assert(typ.encode_spec(measurements[k]) == Some(xs[k]));
        law_preparation::<T, P, L>(
            typ,
            num_aggregators,
            key,
            nonces[k],
            measurements[k],
            xs[k],
            rands[k],
        );
    }
    assert forall|i: int| 0 <= i < width implies {
        &&& sum_spec(#[trigger] column(table, i), n, p) == Ok::<Seq<int>, ErrorView>(
            reduced(sum_seqs(column(table, i), n), p),
        )
    } by {
        let col = column(table, i);
        assert forall|k: int| 0 <= k < col.len() implies (#[trigger] col[k]).len() == n by {
            assert(table[k].len() == width && uniform(table[k], n));
            assert(table[k][i].len() == n);
        }
        lemma_sum_spec(col, n, p);
    }
    lemma_table_sum(table, width, n);
    let (shares, sums) = (aggregate_shares(table, width, n, p), column_sums(table, width, n));
    assert forall|i: int| 0 <= i < width implies seq_cong(#[trigger] shares[i], sums[i], p) by {
        assert(sum_spec(column(table, i), n, p) is Ok);
        lemma_reduced_cong(sum_seqs(column(table, i), n), p);
    }
    assert forall|i: int| 0 <= i < width implies (#[trigger] shares[i]).len() == n by {
        assert(sum_spec(column(table, i), n, p) is Ok);
        lemma_sum_seqs_len(column(table, i), n);
    }
    lemma_sum_spec(shares, n, p);
    lemma_sum_seqs_cong(shares, sums, n, p);
    let rows = row_sums(table, n);
    assert forall|k: int| 0 <= k < rows.len() implies seq_cong(#[trigger] rows[k], cs[k], p) by {
        assert(table[k].len() == width);
    }
    assert forall|k: int| 0 <= k < rows.len() implies (#[trigger] rows[k]).len() == n by {
        lemma_sum_seqs_len(table[k], n);
    }
    lemma_sum_seqs_cong(rows, cs, n, p);
    lemma_seq_cong_trans(sum_seqs(shares, n), sum_seqs(rows, n), sum_seqs(cs, n), p);
    lemma_seq_cong_reduced(sum_seqs(shares, n), sum_seqs(cs, n), p);
}

/// Vectors of the expected length can be added.
proof fn lemma_sum_spec(vs: Seq<Seq<int>>, n: nat, p: int)
    requires
        uniform(vs, n),
    ensures
        sum_spec(vs, n, p) == Ok::<Seq<int>, ErrorView>(reduced(sum_seqs(vs, n), p)),
{
    lemma_first_odd_length(vs, n);
    let k = first_odd_length(vs, n) as int;
    if k < vs.len() {
        assert(vs[k].len() == n);
    }
}

/// A sum that is below the modulus and fits 64 bits is the result.
pub proof fn law_result(total: int, p: int)
    requires
        0 <= total < p,
        total <= u64::MAX,
    ensures
        result_spec(reduced(seq![total], p)) == Ok::<u64, ErrorView>(total as u64),
{
    lemma_reduced_residues(seq![total], p);
}

/// Sums that are below the modulus and fit 64 bits are the results.
pub proof fn law_result_vec(totals: Seq<int>, p: int)
    requires
        forall|i: int| 0 <= i < totals.len() ==> 0 <= #[trigger] totals[i] < p,
        forall|i: int| 0 <= i < totals.len() ==> #[trigger] totals[i] <= u64::MAX,
    ensures
        result_vec_spec(reduced(totals, p)) == Ok::<Seq<u64>, ErrorView>(
            Seq::new(totals.len(), |i: int| totals[i] as u64),
        ),
{
    lemma_reduced_residues(totals, p);
}

/// Output shares can be aggregated in batches: the aggregate share of all of them is the sum of
/// the aggregate shares of the batches.
pub proof fn law_aggregate_batches(a: Seq<Seq<int>>, b: Seq<Seq<int>>, n: nat, p: int)
    requires
        p > 0,
        uniform(a, n),
        uniform(b, n),
    ensures
        sum_spec(a, n, p) is Ok,
        sum_spec(b, n, p) is Ok,
        sum_spec(a + b, n, p) == Ok::<Seq<int>, ErrorView>(
            reduced(
                lincomb(1, sum_spec(a, n, p)->Ok_0, 1, sum_spec(b, n, p)->Ok_0),
                p,
            ),
        ),
{
    let c = a + b;
    assert forall|i: int| 0 <= i < c.len() implies (#[trigger] c[i]).len() == n by {
        if i < a.len() {
            assert(a[i].len() == n);
        } else {
            assert(b[i - a.len()].len() == n);
        }
    }
    lemma_sum_spec(a, n, p);
    lemma_sum_spec(b, n, p);
    lemma_sum_spec(c, n, p);
    lemma_sum_seqs_append(a, b, n);
    let (x, y) = (sum_seqs(a, n), sum_seqs(b, n));
    lemma_sum_seqs_len(a, n);
    lemma_sum_seqs_len(b, n);
    let (l, r) = (lincomb(1, reduced(x, p), 1, reduced(y, p)), lincomb(1, x, 1, y));
    assert forall|i: int| 0 <= i < n implies #[trigger] cong(l[i], r[i], p) by {
        lemma_cong_mod(x[i], p);
        lemma_cong_mod(y[i], p);
        lemma_cong_add(reduced(x, p)[i], x[i], reduced(y, p)[i], y[i], p);
    }
    lemma_seq_cong_reduced(l, r, p);
}

/// The order of the output shares, or of the aggregate shares, makes no difference.
pub proof fn law_aggregate_order(a: Seq<Seq<int>>, b: Seq<Seq<int>>, n: nat, p: int)
    requires
        uniform(a, n),
        a.to_multiset() == b.to_multiset(),
    ensures
        sum_spec(a, n, p) == sum_spec(b, n, p),
{
    broadcast use vstd::seq_lib::group_to_multiset_ensures;

    assert forall|i: int| 0 <= i < b.len() implies (#[trigger] b[i]).len() == n by {
        assert(b.contains(b[i]));
        assert(a.to_multiset().contains(b[i]));
        let j = a.index_of(b[i]);
        assert(a[j].len() == n);
    }
    lemma_sum_spec(a, n, p);
    lemma_sum_spec(b, n, p);
    lemma_sum_seqs_order(a, b, n);
}

/// A message that can be added to the others.
pub open spec fn message_fits<T: Type>(typ: &T, msg: PrepareMessageView, seed_len: nat) -> bool {
    &&& msg.verifier.len() == verifier_len_spec(typ)
    &&& typ.joint_rand_len_spec() > 0 ==> (msg.joint_rand_seed matches Some(seed) && seed.len()
        == seed_len)
}

/// The order of the aggregators' messages makes no difference.
pub proof fn law_preprocess_order<T: Type>(
    typ: &T,
    num_aggregators: u8,
    a: Seq<PrepareMessageView>,
    b: Seq<PrepareMessageView>,
    seed_len: nat,
)
    requires
        forall|i: int| 0 <= i < a.len() ==> message_fits(typ, #[trigger] a[i], seed_len),
        a.to_multiset() == b.to_multiset(),
    ensures
        preprocess_spec(typ, num_aggregators, a, seed_len) == preprocess_spec(
            typ,
            num_aggregators,
            b,
            seed_len,
        ),
{
    broadcast use vstd::seq_lib::group_to_multiset_ensures;

    let n = verifier_len_spec(typ);
    assert(a.to_multiset().len() == a.len() && b.to_multiset().len() == b.len());
    assert forall|i: int| 0 <= i < b.len() implies message_fits(
        typ,
        #[trigger] b[i],
        seed_len,
    ) by {
        assert(b.contains(b[i]));
        assert(a.to_multiset().contains(b[i]));
        let j = a.index_of(b[i]);
        assert(message_fits(typ, a[j], seed_len));
    }
    assert forall|s: Seq<PrepareMessageView>|
        (forall|i: int| 0 <= i < s.len() ==> message_fits(typ, #[trigger] s[i], seed_len)) implies
        #[trigger] first_misfit(s, n) == s.len() by {
        lemma_first_misfit(s, n);
        let k = first_misfit(s, n) as int;
        if k < s.len() {
            assert(message_fits(typ, s[k], seed_len));
        }
    }
    lemma_messages_order(typ, a, b, seed_len);
}

proof fn lemma_messages_order<T: Type>(
    typ: &T,
    a: Seq<PrepareMessageView>,
    b: Seq<PrepareMessageView>,
    seed_len: nat,
)
    requires
        forall|i: int| 0 <= i < a.len() ==> message_fits(typ, #[trigger] a[i], seed_len),
        forall|i: int| 0 <= i < b.len() ==> message_fits(typ, #[trigger] b[i], seed_len),
        a.to_multiset() == b.to_multiset(),
    ensures
        sum_seqs(verifiers(a), verifier_len_spec(typ)) == sum_seqs(
            verifiers(b),
            verifier_len_spec(typ),
        ),
        typ.joint_rand_len_spec() > 0 ==> xor_all(message_seeds(a), seed_len) == xor_all(
            message_seeds(b),
            seed_len,
        ),
    decreases a.len(),
{
    broadcast use vstd::seq_lib::group_to_multiset_ensures;

    let n = verifier_len_spec(typ);
    assert(a.to_multiset().len() == a.len() && b.to_multiset().len() == b.len());
    if a.len() > 0 {
        let k = a.len() - 1;
        assert(a.contains(a[k]));
        assert(b.to_multiset().contains(a[k]));
        let j = b.index_of(a[k]);
        let (a1, b1) = (a.remove(k), b.remove(j));
        assert forall|i: int| 0 <= i < a1.len() implies message_fits(
            typ,
            #[trigger] a1[i],
            seed_len,
        ) by {
            assert(message_fits(typ, a[i], seed_len));
        }
        assert forall|i: int| 0 <= i < b1.len() implies message_fits(
            typ,
            #[trigger] b1[i],
            seed_len,
        ) by {
            assert(b1[i] == if i < j {
                b[i]
            } else {
                b[i + 1]
            });
        }
        lemma_messages_order(typ, a1, b1, seed_len);
        assert forall|i: int| 0 <= i < a.len() implies (#[trigger] verifiers(a)[i]).len() == n by {
            assert(message_fits(typ, a[i], seed_len));
        }
        assert forall|i: int| 0 <= i < b.len() implies (#[trigger] verifiers(b)[i]).len() == n by {
            assert(message_fits(typ, b[i], seed_len));
        }
        lemma_sum_seqs_remove(verifiers(a), k, n);
        lemma_sum_seqs_remove(verifiers(b), j, n);
        assert(verifiers(a).remove(k) =~= verifiers(a1));
        assert(verifiers(b).remove(j) =~= verifiers(b1));
        if typ.joint_rand_len_spec() > 0 {
            assert forall|i: int| 0 <= i < a.len() implies (#[trigger] message_seeds(a)[i]).len()
                == seed_len by {
                assert(message_fits(typ, a[i], seed_len));
            }
            assert forall|i: int| 0 <= i < b.len() implies (#[trigger] message_seeds(b)[i]).len()
                == seed_len by {
                assert(message_fits(typ, b[i], seed_len));
            }
            lemma_xor_all_remove(message_seeds(a), k, seed_len);
            lemma_xor_all_remove(message_seeds(b), j, seed_len);
            assert(message_seeds(a).remove(k) =~= message_seeds(a1));
            assert(message_seeds(b).remove(j) =~= message_seeds(b1));
        }
    } else {
        assert(verifiers(a) =~= verifiers(b));
        assert(message_seeds(a) =~= message_seeds(b));
    }
}

/// The process has two steps: a first one without a message, which waits for the others, and a
/// second one with a message, which ends it. Any other step is refused.
pub proof fn law_two_steps<T: Type, P: Prg<L>, const L: usize>(
    typ: &T,
    state: PrepareStepView,
    input: Option<PrepareMessageView>,
)
    ensures
        prepare_step_spec::<T, P, L>(typ, state, input) is Continue <==> state is Ready
            && input is None,
        prepare_step_spec::<T, P, L>(typ, state, input) matches TransitionView::Continue(next, msg)
            ==> next is Waiting && next.seed() == state.seed() && next.verifier_len()
            == msg.verifier.len(),
        prepare_step_spec::<T, P, L>(typ, state, input) is Finish ==> state is Waiting
            && input is Some,
        !(state is Ready && input is None) && !(state is Waiting && input is Some)
            ==> prepare_step_spec::<T, P, L>(typ, state, input) == TransitionView::Fail(
            ErrorView::Uncategorized("invalid state transition"@),
        ),
{
}

/// An aggregator accepts only if the joint randomness seed that it computed is the one that all
/// aggregators together have made up, and if the verifier message shows a valid input.
pub proof fn law_accepts_only_agreed<T: Type, P: Prg<L>, const L: usize>(
    typ: &T,
    state: PrepareStepView,
    msg: PrepareMessageView,
)
    requires
        prepare_step_spec::<T, P, L>(typ, state, Some(msg)) is Finish,
    ensures
        typ.joint_rand_len_spec() > 0 ==> state.seed() == msg.joint_rand_seed,
        decide_spec(typ, msg.verifier),
{
}

/// An aggregator whose seed hint was changed on the way rejects the measurement: it computes
/// another joint randomness seed than the one that the shares of all aggregators make up.
pub proof fn law_changed_hint_rejected<T: Type, P: Prg<L>, const L: usize>(
    typ: &T,
    num_aggregators: u8,
    key: Seq<u8>,
    nonce: Seq<u8>,
    x: Seq<int>,
    rand: ShardRandomness,
    i: int,
    msg: InputShareView,
    state: PrepareStepView,
    msgs: Seq<PrepareMessageView>,
    total: PrepareMessageView,
)
    requires
        sharded::<T, P, L>(typ, num_aggregators, x, rand),
        typ.joint_rand_len_spec() > 0,
        0 <= i < num_aggregators,
        // The message is that of the client, but for the hint.
        msg.joint_rand_param matches Some(param) && param.seed_hint.len() == L && ({
            let honest = client_message::<T, P, L>(typ, x, rand, i);
            &&& msg.input_share == honest.input_share
            &&& msg.proof_share == honest.proof_share
            &&& param.blind == (honest.joint_rand_param->0).blind
            &&& param.seed_hint != (honest.joint_rand_param->0).seed_hint
        }),
        prepare_init_spec::<T, P, L>(typ, num_aggregators, key, i as u8, nonce, msg) == Ok::<
            PrepareStepView,
            ErrorView,
        >(state),
        // The shares of the seed are those of all aggregators.
        message_seeds(msgs) == held_seeds::<T, P, L>(typ, x, rand),
        preprocess_spec(typ, num_aggregators, msgs, L as nat) == Ok::<
            PrepareMessageView,
            ErrorView,
        >(total),
    ensures
        state is Ready,
        state->verifier_msg.joint_rand_seed == Some(held_seeds::<T, P, L>(typ, x, rand)[i]),
        prepare_step_spec::<T, P, L>(typ, state, None) matches TransitionView::Continue(waiting, _)
            && prepare_step_spec::<T, P, L>(typ, waiting, Some(total)) == TransitionView::Fail(
            ErrorView::Uncategorized("joint randomness mismatch"@),
        ),
{
    law_input_shares_sum::<T, P, L>(typ, num_aggregators, x, rand);
    law_joint_seed::<T, P, L>(typ, num_aggregators, x, rand);
    let honest = client_message::<T, P, L>(typ, x, rand, i);
    let share = held_seeds::<T, P, L>(typ, x, rand)[i];
    let seed = joint_seed::<T, P, L>(typ, x, rand);
    let hint = (msg.joint_rand_param->0).seed_hint;
    let xi = held_inputs::<T, P, L>(typ, x, rand)[i];
    assert(opened_input::<T, P, L>(typ, honest.input_share) == Some(xi));
    assert(received_seed::<T, P, L>(typ, i as u8, honest, xi) == Some((share, seed)));
    assert(received_seed::<T, P, L>(typ, i as u8, msg, xi) == Some((share, xor(hint, share))));
    lemma_xor_all_len(held_seeds::<T, P, L>(typ, x, rand), L as nat);
    assert(share.len() == L);
    assert((honest.joint_rand_param->0).seed_hint == xor(share, seed));
    if xor(hint, share) == seed {
        lemma_xor_cancel(hint, share);
        lemma_xor_comm(share, seed);
        assert(false);
    }
}

/// An aggregator rejects the measurement if another one's share of the joint randomness seed is
/// not the one that the client has used, be it that its input share or its blind was changed, or
/// that the share was changed on the way.
pub proof fn law_changed_seed_share_rejected<T: Type, P: Prg<L>, const L: usize>(
    typ: &T,
    num_aggregators: u8,
    key: Seq<u8>,
    nonce: Seq<u8>,
    x: Seq<int>,
    rand: ShardRandomness,
    i: int,
    share: Seq<u8>,
    j: int,
    state: PrepareStepView,
    msgs: Seq<PrepareMessageView>,
    total: PrepareMessageView,
)
    requires
        sharded::<T, P, L>(typ, num_aggregators, x, rand),
        typ.joint_rand_len_spec() > 0,
        // The share of the `i`-th aggregator is another one.
        0 <= i < num_aggregators,
        share.len() == L,
        share != held_seeds::<T, P, L>(typ, x, rand)[i],
        message_seeds(msgs) == held_seeds::<T, P, L>(typ, x, rand).update(i, share),
        preprocess_spec(typ, num_aggregators, msgs, L as nat) == Ok::<
            PrepareMessageView,
            ErrorView,
        >(total),
        // The `j`-th aggregator has got the client's message.
        0 <= j < num_aggregators,
        started::<T, P, L>(typ, num_aggregators, key, nonce, x, rand, j) == Ok::<
            PrepareStepView,
            ErrorView,
        >(state),
    ensures
        prepare_step_spec::<T, P, L>(typ, state, None) matches TransitionView::Continue(waiting, _)
            && prepare_step_spec::<T, P, L>(typ, waiting, Some(total)) == TransitionView::Fail(
            ErrorView::Uncategorized("joint randomness mismatch"@),
        ),
{
    let n = L as nat;
    law_input_shares_sum::<T, P, L>(typ, num_aggregators, x, rand);
    law_joint_seed::<T, P, L>(typ, num_aggregators, x, rand);
    let honest = client_message::<T, P, L>(typ, x, rand, j);
    let seed = joint_seed::<T, P, L>(typ, x, rand);
    let xj = held_inputs::<T, P, L>(typ, x, rand)[j];
    let all = held_seeds::<T, P, L>(typ, x, rand);
    assert(opened_input::<T, P, L>(typ, honest.input_share) == Some(xj));
    assert(received_seed::<T, P, L>(typ, j as u8, honest, xj) == Some((all[j], seed)));
    let changed = all.update(i, share);
    let rest = xor_all(all.remove(i), n);
    lemma_xor_all_len(all.remove(i), n);
    lemma_xor_all_remove(all, i, n);
    lemma_xor_all_remove(changed, i, n);
    assert(changed.remove(i) =~= all.remove(i));
    assert(all[i].len() == n);
    if xor(rest, share) == xor(rest, all[i]) {
        lemma_xor_comm(rest, share);
        lemma_xor_comm(rest, all[i]);
        lemma_xor_cancel(share, rest);
        lemma_xor_cancel(all[i], rest);
        assert(false);
    }
}

/// An input share as the aggregator with the verification parameter `param` expects it.
pub open spec fn input_share_fits(
    param: VerifyParamView,
    share: InputShareView,
    seed_len: nat,
    p: int,
) -> bool {
    &&& share_fits(share.input_share, param.share_parameters().0, seed_len, p)
    &&& share_fits(share.proof_share, param.share_parameters().1, seed_len, p)
    &&& match share.joint_rand_param {
        Some(joint) => param.joint_rand_len > 0 && joint.seed_hint.len() == seed_len
            && joint.blind.len() == seed_len,
        None => param.joint_rand_len == 0,
    }
}

/// A share as it is expected.
pub open spec fn share_fits(
    share: ShareView,
    parameter: ShareDecodingParameter,
    seed_len: nat,
    p: int,
) -> bool {
    match (share, parameter) {
        (ShareView::Leader(data), ShareDecodingParameter::Leader(n)) => data.len() == n && forall|
            i: int,
        |
            0 <= i < n ==> 0 <= #[trigger] data[i] < p,
        (ShareView::Helper(seed), ShareDecodingParameter::Helper) => seed.len() == seed_len,
        _ => false,
    }
}

proof fn lemma_share_round_trip(
    share: ShareView,
    rest: Seq<u8>,
    parameter: ShareDecodingParameter,
    seed_len: nat,
    size: nat,
    p: int,
)
    requires
        p <= pow(256, size),
        share_fits(share, parameter, seed_len, p),
    ensures
        parse_share(encode_share(share, size) + rest, parameter, seed_len, size, p) == Ok::<
            (ShareView, Seq<u8>),
            CodecError,
        >((share, rest)),
{
    match share {
        ShareView::Leader(data) => {
            lemma_parse_encoded(data, rest, size, p);
        },
        ShareView::Helper(seed) => {
            lemma_bytes_round_trip(seed, rest);
        },
    }
}

proof fn lemma_bytes_round_trip(b: Seq<u8>, rest: Seq<u8>)
    ensures
        parse_bytes(b + rest, b.len()) == Ok::<(Seq<u8>, Seq<u8>), CodecError>((b, rest)),
{
    assert((b + rest).take(b.len() as int) =~= b);
    assert((b + rest).skip(b.len() as int) =~= rest);
}

/// An aggregator reads the input share that was written for it, and leaves what follows.
pub proof fn law_input_share_round_trip(
    param: VerifyParamView,
    share: InputShareView,
    rest: Seq<u8>,
    seed_len: nat,
    size: nat,
    p: int,
)
    requires
        p <= pow(256, size),
        input_share_fits(param, share, seed_len, p),
    ensures
        parse_input_share(
            encode_input_share(share, size) + rest,
            param.share_parameters().0,
            param.share_parameters().1,
            param.joint_rand_len > 0,
            seed_len,
            size,
            p,
        ) == Ok::<(InputShareView, Seq<u8>), CodecError>((share, rest)),
{
    let (a, b) = (encode_share(share.input_share, size), encode_share(share.proof_share, size));
    let tail = match share.joint_rand_param {
        Some(joint) => joint.seed_hint + (joint.blind + rest),
        None => rest,
    };
    assert(encode_input_share(share, size) + rest =~= a + (b + tail));
    lemma_share_round_trip(
        share.input_share,
        b + tail,
        param.share_parameters().0,
        seed_len,
        size,
        p,
    );
    lemma_share_round_trip(share.proof_share, tail, param.share_parameters().1, seed_len, size, p);
    if let Some(joint) = share.joint_rand_param {
        lemma_bytes_round_trip(joint.seed_hint, joint.blind + rest);
        lemma_bytes_round_trip(joint.blind, rest);
    }
}

/// No two messages are read as the same input share: writing what was read gives the message.
pub proof fn law_input_share_canonical(
    b: Seq<u8>,
    param: VerifyParamView,
    share: InputShareView,
    rest: Seq<u8>,
    seed_len: nat,
    size: nat,
    p: int,
)
    requires
        parse_input_share(
            b,
            param.share_parameters().0,
            param.share_parameters().1,
            param.joint_rand_len > 0,
            seed_len,
            size,
            p,
        ) == Ok::<(InputShareView, Seq<u8>), CodecError>((share, rest)),
    ensures
        input_share_fits(param, share, seed_len, p),
        encode_input_share(share, size) + rest == b,
{
    let (u, v) = param.share_parameters();
    lemma_share_canonical(b, u, seed_len, size, p);
    let (_, b1) = parse_share(b, u, seed_len, size, p)->Ok_0;
    lemma_share_canonical(b1, v, seed_len, size, p);
    let (_, b2) = parse_share(b1, v, seed_len, size, p)->Ok_0;
    if let Some(joint) = share.joint_rand_param {
        let b3 = b2.skip(seed_len as int);
        assert(joint.seed_hint + b3 =~= b2);
        assert(joint.blind + rest =~= b3);
    }
    let (x, y) = (encode_share(share.input_share, size), encode_share(share.proof_share, size));
    assert(x + (y + b2) =~= b);
    assert(encode_input_share(share, size) + rest =~= b);
}

proof fn lemma_share_canonical(
    b: Seq<u8>,
    parameter: ShareDecodingParameter,
    seed_len: nat,
    size: nat,
    p: int,
)
    ensures
        parse_share(b, parameter, seed_len, size, p) matches Ok((share, rest)) ==> share_fits(
            share,
            parameter,
            seed_len,
            p,
        ) && encode_share(share, size) + rest == b,
{
    match parameter {
        ShareDecodingParameter::Leader(n) => {
            lemma_encode_parsed(b, n as nat, size, p);
        },
        ShareDecodingParameter::Helper => {
            if b.len() >= seed_len {
                assert(b.take(seed_len as int) + b.skip(seed_len as int) =~= b);
            }
        },
    }
}

/// What a client sends to an aggregator is an input share as the aggregator expects it.
pub proof fn law_client_message_fits<T: Type, P: Prg<L>, const L: usize>(
    typ: &T,
    num_aggregators: u8,
    key: Seq<u8>,
    x: Seq<int>,
    rand: ShardRandomness,
    i: int,
)
    requires
        sharded::<T, P, L>(typ, num_aggregators, x, rand),
        typ.valid(x),
        rand.seeds_have_len(L as nat),
        0 <= i < num_aggregators,
    ensures
        input_share_fits(
            verify_param(typ, key, i),
            client_message::<T, P, L>(typ, x, rand, i),
            L as nat,
            T::Field::modulus(),
        ),
{
    let p = T::Field::modulus();
    <T::Field as FieldElement>::lemma_field();
    typ.lemma_sizes();
    lemma_proof_len(typ);
    law_input_shares_sum::<T, P, L>(typ, num_aggregators, x, rand);
    law_proof_shares_sum::<T, P, L>(typ, num_aggregators, x, rand);
    let msg = client_message::<T, P, L>(typ, x, rand, i);
    if i == 0 {
        let (xs, pfs) = (
            held_inputs::<T, P, L>(typ, x, rand),
            held_proofs::<T, P, L>(typ, x, rand),
        );
        assert(xs[0].len() == typ.input_len_spec());
        assert(pfs[0].len() == proof_len_spec(typ));
        lemma_reduced_cong(sub_seqs(x, helper_inputs::<T, P, L>(typ, rand.helpers)), p);
        lemma_reduced_cong(
            sub_seqs(
                client_proof::<T, P, L>(typ, x, rand),
                helper_proofs::<T, P, L>(typ, rand.helpers),
            ),
            p,
        );
    } else {
        assert(rand.helpers[i - 1].input_share.len() == L);
    }
}

/// A proof is not longer than a vector can be.
proof fn lemma_proof_len<T: Type>(typ: &T)
    requires
        typ.wf(),
    ensures
        proof_len_spec(typ) <= usize::MAX,
{
    typ.lemma_sizes();
    lemma_pow2_pos(domain_log(typ));
    let (d, m) = (typ.gadget_spec().degree_spec(), domain(typ));
    assert(d * (m - 1) >= 0) by (nonlinear_arith)
        requires
            d >= 0,
            m >= 1,
    ;
}

/// A message as an aggregator in the given state expects it.
pub open spec fn message_expected(
    state: PrepareStepView,
    msg: PrepareMessageView,
    seed_len: nat,
    p: int,
) -> bool {
    &&& msg.verifier.len() == state.verifier_len()
    &&& forall|i: int| 0 <= i < msg.verifier.len() ==> 0 <= #[trigger] msg.verifier[i] < p
    &&& match msg.joint_rand_seed {
        Some(seed) => state.has_seed() && seed.len() == seed_len,
        None => !state.has_seed(),
    }
}

/// An aggregator reads the message that was written for it, and leaves what follows.
pub proof fn law_message_round_trip(
    state: PrepareStepView,
    msg: PrepareMessageView,
    rest: Seq<u8>,
    seed_len: nat,
    size: nat,
    p: int,
)
    requires
        p <= pow(256, size),
        message_expected(state, msg, seed_len, p),
    ensures
        parse_message(
            encode_message(msg, size) + rest,
            state.verifier_len(),
            state.has_seed(),
            seed_len,
            size,
            p,
        ) == Ok::<(PrepareMessageView, Seq<u8>), CodecError>((msg, rest)),
{
    let v = encode_vals(msg.verifier, size);
    match msg.joint_rand_seed {
        Some(seed) => {
            assert(encode_message(msg, size) + rest =~= v + (seed + rest));
            lemma_parse_encoded(msg.verifier, seed + rest, size, p);
            lemma_bytes_round_trip(seed, rest);
        },
        None => {
            lemma_parse_encoded(msg.verifier, rest, size, p);
        },
    }
}

/// No two messages are read as the same prepare message: writing what was read gives the message.
pub proof fn law_message_canonical(
    b: Seq<u8>,
    state: PrepareStepView,
    msg: PrepareMessageView,
    rest: Seq<u8>,
    seed_len: nat,
    size: nat,
    p: int,
)
    requires
        parse_message(b, state.verifier_len(), state.has_seed(), seed_len, size, p) == Ok::<
            (PrepareMessageView, Seq<u8>),
            CodecError,
        >((msg, rest)),
    ensures
        message_expected(state, msg, seed_len, p),
        encode_message(msg, size) + rest == b,
{
    lemma_encode_parsed(b, state.verifier_len(), size, p);
    let (_, b1) = parse_elements(b, state.verifier_len(), size, p)->Ok_0;
    if let Some(seed) = msg.joint_rand_seed {
        assert(seed + rest =~= b1);
        assert(encode_message(msg, size) + rest =~= encode_vals(msg.verifier, size) + b1);
    }
}

/// What an aggregator sends after its first step can be read by every aggregator that has taken
/// its own first step for the same type.
pub proof fn law_sent_message_expected<T: Type, P: Prg<L>, const L: usize>(
    typ: &T,
    num_aggregators: u8,
    key: Seq<u8>,
    nonce: Seq<u8>,
    i: u8,
    sender: InputShareView,
    j: u8,
    receiver: InputShareView,
    sent_msg: PrepareMessageView,
    sender_state: PrepareStepView,
    other_msg: PrepareMessageView,
    receiver_state: PrepareStepView,
)
    requires
        typ.wf(),
        ({
            let a = prepare_init_spec::<T, P, L>(typ, num_aggregators, key, i, nonce, sender);
            let b = prepare_init_spec::<T, P, L>(typ, num_aggregators, key, j, nonce, receiver);
            &&& a is Ok
            &&& b is Ok
            &&& prepare_step_spec::<T, P, L>(typ, a->Ok_0, None) == TransitionView::Continue(
                sender_state,
                sent_msg,
            )
            &&& prepare_step_spec::<T, P, L>(typ, b->Ok_0, None) == TransitionView::Continue(
                receiver_state,
                other_msg,
            )
        }),
        sender.joint_rand_param matches Some(param) ==> param.seed_hint.len() == L,
        receiver.joint_rand_param matches Some(param) ==> param.seed_hint.len() == L,
    ensures
        message_expected(receiver_state, sent_msg, L as nat, T::Field::modulus()),
{
    <T::Field as FieldElement>::lemma_field();
    let p = T::Field::modulus();
    lemma_verifier_share::<T, P, L>(typ, num_aggregators, key, nonce, i, sender);
    lemma_verifier_share::<T, P, L>(typ, num_aggregators, key, nonce, j, receiver);
}

/// The message of an aggregator that has started has the expected shape.
proof fn lemma_verifier_share<T: Type, P: Prg<L>, const L: usize>(
    typ: &T,
    num_aggregators: u8,
    key: Seq<u8>,
    nonce: Seq<u8>,
    i: u8,
    msg: InputShareView,
)
    requires
        typ.wf(),
    ensures
        prepare_init_spec::<T, P, L>(typ, num_aggregators, key, i, nonce, msg) matches Ok(state)
            ==> ({
            &&& state is Ready
            &&& state->verifier_msg.verifier.len() == verifier_len_spec(typ)
            &&& forall|k: int|
                0 <= k < verifier_len_spec(typ) ==> 0
                    <= #[trigger] state->verifier_msg.verifier[k] < T::Field::modulus()
            &&& state.has_seed() == (typ.joint_rand_len_spec() > 0)
            &&& match state->verifier_msg.joint_rand_seed {
                Some(seed) => typ.joint_rand_len_spec() > 0 && seed.len() == L,
                None => typ.joint_rand_len_spec() == 0,
            }
        }),
{
    <T::Field as FieldElement>::lemma_field();
    let p = T::Field::modulus();
    if let Ok(state) = prepare_init_spec::<T, P, L>(typ, num_aggregators, key, i, nonce, msg) {
        let x = opened_input::<T, P, L>(typ, msg.input_share)->0;
        let pf = opened_proof::<T, P, L>(typ, msg.proof_share)->0;
        let received = received_seed::<T, P, L>(typ, i, msg, x);
        let jr = received_joint_rand::<T, P, L>(typ, received)->0;
        let point = (query_rand::<T, P, L>(typ, query_seed::<P, L>(key, nonce))->0)[0];
        let s = inverse(num_aggregators as int, p) % p;
        if let Some((share, seed)) = received {
            lemma_expand::<T::Field, P, L>(
                seed,
                "joint rand".spec_bytes(),
                typ.joint_rand_len_spec(),
            );
        }
        lemma_query_linear(typ, 1, x, pf, s, 0, x, pf, s, point, jr);
        lemma_reduced_cong(query_spec(typ, x, pf, point, jr, s), p);
    }
}

} // verus!

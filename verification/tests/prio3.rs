use prio::codec::{CodecError, Cursor};
use prio::field::FieldElement;
use prio::field128::Field128;
use prio::field64::Field64;
use prio::pcp::system::prove;
use prio::pcp::types::Count;
use prio::pcp::{PcpError, Type};
use prio::vdaf::prg::{Prg, PrgAes128, Seed};
use prio::vdaf::prio3::{
    HelperShare, JointRandParam, Prio3, Prio3Aes128Count, Prio3Aes128CountVec,
    Prio3Aes128Histogram, Prio3Aes128Sum, Prio3InputShare, Prio3PrepareMessage, Prio3PrepareStep,
    Prio3Result, Prio3ResultVec, Prio3VerifyParam,
};
use prio::vdaf::{
    expand_seed, AggregateShare, OutputShare, PrepareTransition, Share, VdafError,
};

/// Runs the preparation of one measurement among all aggregators, with every message encoded and
/// decoded on its way.
fn run_vdaf_prepare<T, A, P, const L: usize>(
    prio3: &Prio3<T, A, P, L>,
    verify_params: &[Prio3VerifyParam<L>],
    nonce: &[u8],
    input_shares: Vec<Prio3InputShare<T::Field, L>>,
) -> Result<Vec<OutputShare<T::Field>>, VdafError>
where
    T: Type,
    P: Prg<L>,
{
    let mut states = Vec::new();
    for (verify_param, input_share) in verify_params.iter().zip(input_shares.iter()) {
        let mut bytes = Vec::new();
        input_share.encode(&mut bytes);
        let mut cursor = Cursor::new(&bytes);
        let received = Prio3InputShare::decode_with_param(verify_param, &mut cursor).unwrap();
        assert_eq!(cursor.remaining(), 0);
        states.push(prio3.prepare_init(verify_param, &(), nonce, &received)?);
    }

    let mut outbound = Vec::new();
    let mut waiting = Vec::new();
    for state in states.into_iter() {
        match prio3.prepare_step(state, None) {
            PrepareTransition::Continue(next, msg) => {
                let mut bytes = Vec::new();
                msg.encode(&mut bytes);
                let mut cursor = Cursor::new(&bytes);
                outbound.push(Prio3PrepareMessage::decode_with_param(&next, &mut cursor).unwrap());
                assert_eq!(cursor.remaining(), 0);
                waiting.push(next);
            }
            PrepareTransition::Finish(_) => panic!("finished too early"),
            PrepareTransition::Fail(e) => return Err(e),
        }
    }

    let inbound = prio3.prepare_preprocess(outbound)?;
    let mut out = Vec::new();
    for state in waiting.into_iter() {
        let msg = Prio3PrepareMessage {
            verifier: inbound.verifier.to_vec(),
            joint_rand_seed: inbound.joint_rand_seed,
        };
        match prio3.prepare_step(state, Some(msg)) {
            PrepareTransition::Continue(_, _) => panic!("another round"),
            PrepareTransition::Finish(share) => out.push(share),
            PrepareTransition::Fail(e) => return Err(e),
        }
    }
    Ok(out)
}

/// Shards, prepares, aggregates and unshards some measurements.
fn run_vdaf<T, A, P, const L: usize>(
    prio3: &Prio3<T, A, P, L>,
    measurements: Vec<T::Measurement>,
) -> Result<A, VdafError>
where
    T: Type,
    A: TryFrom<AggregateShare<T::Field>, Error = VdafError>,
    P: Prg<L>,
{
    let (_, verify_params) = prio3.setup()?;
    let nonce = b"this is a nonce";
    let mut outputs: Vec<Vec<OutputShare<T::Field>>> = Vec::new();
    for _ in 0..prio3.num_aggregators() {
        outputs.push(Vec::new());
    }
    for measurement in measurements.iter() {
        let input_shares = prio3.shard(&(), measurement)?;
        let shares = run_vdaf_prepare(prio3, &verify_params, nonce, input_shares)?;
        for (share, list) in shares.into_iter().zip(outputs.iter_mut()) {
            list.push(share);
        }
    }
    let mut agg_shares = Vec::new();
    for list in outputs.into_iter() {
        agg_shares.push(prio3.aggregate(&(), list)?);
    }
    prio3.unshard(&(), agg_shares)
}

#[test]
fn test_prio3_count() {
    let prio3 = Prio3Aes128Count::new(2).unwrap();

    assert_eq!(
        run_vdaf(&prio3, vec![1, 0, 0, 1, 1]).unwrap(),
        Prio3Result(3)
    );

    let (_, verify_params) = prio3.setup().unwrap();
    let nonce = b"This is a good nonce.";

    let input_shares = prio3.shard(&(), &0).unwrap();
    run_vdaf_prepare(&prio3, &verify_params, nonce, input_shares).unwrap();

    let input_shares = prio3.shard(&(), &1).unwrap();
    run_vdaf_prepare(&prio3, &verify_params, nonce, input_shares).unwrap();
}

#[test]
fn test_prio3_sum() {
    let prio3 = Prio3Aes128Sum::new(3, 16).unwrap();

    assert_eq!(
        run_vdaf(&prio3, vec![0, (1 << 16) - 1, 0, 1, 1]).unwrap(),
        Prio3Result((1 << 16) + 1)
    );

    let (_, verify_params) = prio3.setup().unwrap();
    let nonce = b"This is a good nonce.";

    let mut input_shares = prio3.shard(&(), &1).unwrap();
    input_shares[0].joint_rand_param.as_mut().unwrap().blind.0[0] ^= 255;
    let result = run_vdaf_prepare(&prio3, &verify_params, nonce, input_shares);
    assert!(matches!(result, Err(VdafError::Uncategorized(_))));

    let mut input_shares = prio3.shard(&(), &1).unwrap();
    input_shares[0]
        .joint_rand_param
        .as_mut()
        .unwrap()
        .seed_hint
        .0[0] ^= 255;
    let result = run_vdaf_prepare(&prio3, &verify_params, nonce, input_shares);
    assert!(matches!(result, Err(VdafError::Uncategorized(_))));

    let mut input_shares = prio3.shard(&(), &1).unwrap();
    match input_shares[0].input_share {
        Share::Leader(ref mut data) => {
            data[0] = data[0].add(&Field128::one());
        }
        Share::Helper(_) => panic!("the leader's share is a seed"),
    }
    let result = run_vdaf_prepare(&prio3, &verify_params, nonce, input_shares);
    assert!(matches!(result, Err(VdafError::Uncategorized(_))));

    let mut input_shares = prio3.shard(&(), &1).unwrap();
    match input_shares[0].proof_share {
        Share::Leader(ref mut data) => {
            data[0] = data[0].add(&Field128::one());
        }
        Share::Helper(_) => panic!("the leader's share is a seed"),
    }
    let result = run_vdaf_prepare(&prio3, &verify_params, nonce, input_shares);
    assert!(matches!(result, Err(VdafError::Uncategorized(_))));
}

#[test]
fn test_prio3_histogram() {
    let prio3 = Prio3Aes128Histogram::new(2, &[0, 10, 20]).unwrap();

    assert_eq!(
        run_vdaf(&prio3, vec![0, 10, 20, 9999]).unwrap(),
        Prio3ResultVec(vec![1, 1, 1, 1])
    );

    assert_eq!(
        run_vdaf(&prio3, vec![0]).unwrap(),
        Prio3ResultVec(vec![1, 0, 0, 0])
    );

    assert_eq!(
        run_vdaf(&prio3, vec![5]).unwrap(),
        Prio3ResultVec(vec![0, 1, 0, 0])
    );

    assert_eq!(
        run_vdaf(&prio3, vec![10]).unwrap(),
        Prio3ResultVec(vec![0, 1, 0, 0])
    );

    assert_eq!(
        run_vdaf(&prio3, vec![15]).unwrap(),
        Prio3ResultVec(vec![0, 0, 1, 0])
    );

    assert_eq!(
        run_vdaf(&prio3, vec![20]).unwrap(),
        Prio3ResultVec(vec![0, 0, 1, 0])
    );

    assert_eq!(
        run_vdaf(&prio3, vec![25]).unwrap(),
        Prio3ResultVec(vec![0, 0, 0, 1])
    );
}

#[test]
fn test_prio3_input_share() {
    let prio3 = Prio3Aes128Sum::new(5, 16).unwrap();
    let input_shares = prio3.shard(&(), &1).unwrap();

    // Check that seed shares are distinct.
    for (i, x) in input_shares.iter().enumerate() {
        for (j, y) in input_shares.iter().enumerate() {
            if i != j {
                if let (Share::Helper(left), Share::Helper(right)) =
                    (&x.input_share, &y.input_share)
                {
                    assert_ne!(left, right);
                }

                if let (Share::Helper(left), Share::Helper(right)) =
                    (&x.proof_share, &y.proof_share)
                {
                    assert_ne!(left, right);
                }

                assert_ne!(x.joint_rand_param, y.joint_rand_param);
            }
        }
    }
}

/// The seed of consecutive bytes from `first` on.
fn counting_seed(first: u8) -> Seed<16> {
    let mut bytes = [0u8; 16];
    for (i, b) in bytes.iter_mut().enumerate() {
        *b = first + i as u8;
    }
    Seed(bytes)
}

fn fixed_helper() -> HelperShare<16> {
    HelperShare {
        input_share: counting_seed(0),
        proof_share: counting_seed(16),
        joint_rand_param: JointRandParam {
            seed_hint: Seed::uninitialized(),
            blind: counting_seed(32),
        },
    }
}

fn numbers<F: FieldElement>(v: &[F]) -> Vec<u128> {
    v.iter().map(|x| x.to_u128()).collect()
}

fn leader_numbers<F: FieldElement, const L: usize>(share: &Share<F, L>) -> Vec<u128> {
    match share {
        Share::Leader(data) => numbers(data),
        Share::Helper(_) => panic!("a seed"),
    }
}

fn error_text<T>(r: Result<T, VdafError>) -> String {
    match r {
        Err(VdafError::Uncategorized(text)) => text,
        _ => panic!("no error with a message"),
    }
}

fn failure_text<S, M, O>(t: PrepareTransition<S, M, O>) -> String {
    match t {
        PrepareTransition::Fail(VdafError::Uncategorized(text)) => text,
        _ => panic!("no failure with a message"),
    }
}

/// Takes the first step.
fn first_step<T, A, P, const L: usize>(
    prio3: &Prio3<T, A, P, L>,
    state: Prio3PrepareStep<T::Field, L>,
) -> (
    Prio3PrepareStep<T::Field, L>,
    Prio3PrepareMessage<T::Field, L>,
)
where
    T: Type,
    P: Prg<L>,
{
    match prio3.prepare_step(state, None) {
        PrepareTransition::Continue(next, msg) => (next, msg),
        _ => panic!("the first step does not go on"),
    }
}

#[test]
fn count_shares_have_the_expected_values() {
    let prio3 = Prio3Aes128Count::new(2).unwrap();
    let shares = prio3
        .shard_with_randomness(
            &1,
            &vec![fixed_helper()],
            &counting_seed(48),
            &counting_seed(64),
        )
        .unwrap();
    assert_eq!(shares.len(), 2);
    assert_eq!(
        leader_numbers(&shares[0].input_share),
        vec![17721762744662265880]
    );
    assert_eq!(
        leader_numbers(&shares[0].proof_share),
        vec![
            7131688296114015842,
            17863954621936833452,
            70816736227468212,
            7365800135260317448,
            7311601377193317935,
        ]
    );
    assert_eq!(shares[0].joint_rand_param, None);
    assert_eq!(shares[1].input_share, Share::Helper(counting_seed(0)));
    assert_eq!(shares[1].proof_share, Share::Helper(counting_seed(16)));
    assert_eq!(shares[1].joint_rand_param, None);

    let params = prio3.verify_params(&counting_seed(80));
    assert_eq!(params.len(), 2);
    let leader = prio3
        .prepare_init(&params[0], &(), b"nonce", &shares[0])
        .unwrap();
    let helper = prio3
        .prepare_init(&params[1], &(), b"nonce", &shares[1])
        .unwrap();
    assert_eq!(leader.verifier_len(), 4);
    assert!(!leader.check_joint_rand());
    let (leader, leader_msg) = first_step(&prio3, leader);
    let (helper, helper_msg) = first_step(&prio3, helper);
    assert_eq!(leader.verifier_len(), 4);
    assert_eq!(
        numbers(&leader_msg.verifier),
        vec![
            741599302912787140,
            9455239485342401086,
            112702552159258359,
            13658144846303343707,
        ]
    );
    assert_eq!(
        numbers(&helper_msg.verifier),
        vec![
            17705144766501797181,
            10795693115919173633,
            15705199001841574556,
            12604651140058426697,
        ]
    );
    assert_eq!(leader_msg.joint_rand_seed, None);

    let total = prio3
        .prepare_preprocess(vec![leader_msg, helper_msg])
        .unwrap();
    assert_eq!(
        numbers(&total.verifier),
        vec![
            0,
            1804188531846990398,
            15817901554000832915,
            7816051916947186083,
        ]
    );
    let mut sum = 0u128;
    for state in vec![leader, helper].into_iter() {
        match prio3.prepare_step(state, Some(total.clone())) {
            PrepareTransition::Finish(out) => sum += numbers(&out.0)[0],
            _ => panic!("not finished"),
        }
    }
    // The two output shares add up to one modulo the order of the field.
    assert_eq!(sum, 18446744069414584321 + 1);
}

#[test]
fn sum_shares_have_the_expected_joint_randomness() {
    let prio3 = Prio3Aes128Sum::new(2, 2).unwrap();
    let shares = prio3
        .shard_with_randomness(
            &2,
            &vec![fixed_helper()],
            &counting_seed(48),
            &counting_seed(64),
        )
        .unwrap();
    assert_eq!(
        leader_numbers(&shares[0].input_share),
        vec![
            281063909087984167031838459654716297239,
            156411792520178726317267488803676089927,
        ]
    );
    let leader_seed_share = Seed([
        233, 251, 81, 230, 142, 242, 111, 221, 222, 108, 223, 8, 35, 136, 163, 41,
    ]);
    let helper_seed_share = Seed([
        215, 2, 151, 110, 108, 250, 254, 89, 208, 69, 199, 62, 60, 250, 104, 179,
    ]);
    let joint = Seed([
        62, 249, 198, 136, 226, 8, 145, 132, 14, 41, 24, 54, 31, 114, 203, 154,
    ]);
    // With two aggregators, the hint of each is the seed share of the other.
    assert_eq!(
        shares[0].joint_rand_param,
        Some(JointRandParam {
            seed_hint: helper_seed_share,
            blind: counting_seed(48),
        })
    );
    assert_eq!(
        shares[1].joint_rand_param,
        Some(JointRandParam {
            seed_hint: leader_seed_share,
            blind: counting_seed(32),
        })
    );

    let params = prio3.verify_params(&counting_seed(80));
    let mut msgs = Vec::new();
    for (param, share) in params.iter().zip(shares.iter()) {
        let state = prio3.prepare_init(param, &(), b"nonce", share).unwrap();
        assert!(state.check_joint_rand());
        match state {
            Prio3PrepareStep::Ready {
                joint_rand_seed,
                ref verifier_msg,
                ..
            } => {
                assert_eq!(joint_rand_seed, Some(joint));
                msgs.push(verifier_msg.clone());
            }
            Prio3PrepareStep::Waiting { .. } => panic!("not ready"),
        }
    }
    assert_eq!(msgs[0].joint_rand_seed, Some(leader_seed_share));
    assert_eq!(msgs[1].joint_rand_seed, Some(helper_seed_share));
    let total = prio3.prepare_preprocess(msgs).unwrap();
    assert_eq!(total.joint_rand_seed, Some(joint));
}

#[test]
fn count_vec_runs() {
    let prio3 = Prio3Aes128CountVec::new(3, 7).unwrap();
    assert_eq!(prio3.output_len(), 7);
    assert_eq!(
        run_vdaf(
            &prio3,
            vec![
                vec![1, 0, 1, 0, 1, 0, 1],
                vec![1, 1, 1, 1, 1, 1, 1],
                vec![0, 0, 0, 0, 0, 0, 0],
                vec![0, 0, 0, 0, 0, 1, 1],
            ]
        )
        .unwrap(),
        Prio3ResultVec(vec![2, 1, 2, 1, 2, 2, 3])
    );
    assert_eq!(
        prio3.shard(&(), &vec![0, 0, 2, 0, 0, 0, 0]).err(),
        Some(VdafError::Pcp(PcpError::Encode))
    );
    assert_eq!(
        prio3.shard(&(), &vec![0, 0, 0]).err(),
        Some(VdafError::Pcp(PcpError::Encode))
    );
}

#[test]
fn empty_count_vec_runs() {
    let prio3 = Prio3Aes128CountVec::new(2, 0).unwrap();
    assert_eq!(
        run_vdaf(&prio3, vec![vec![], vec![]]).unwrap(),
        Prio3ResultVec(vec![])
    );
}

#[test]
fn one_aggregator_and_many() {
    let prio3 = Prio3Aes128Count::new(1).unwrap();
    assert_eq!(
        run_vdaf(&prio3, vec![1, 1, 0]).unwrap(),
        Prio3Result(2)
    );
    let prio3 = Prio3Aes128Count::new(254).unwrap();
    assert_eq!(prio3.num_aggregators(), 254);
    assert_eq!(run_vdaf(&prio3, vec![1]).unwrap(), Prio3Result(1));
}

#[test]
fn sum_at_its_limits() {
    let prio3 = Prio3Aes128Sum::new(2, 0).unwrap();
    assert_eq!(run_vdaf(&prio3, vec![0, 0]).unwrap(), Prio3Result(0));
    assert_eq!(
        prio3.shard(&(), &1).err(),
        Some(VdafError::Pcp(PcpError::Encode))
    );

    let prio3 = Prio3Aes128Sum::new(2, 64).unwrap();
    let max = u64::MAX as u128;
    assert_eq!(run_vdaf(&prio3, vec![max]).unwrap(), Prio3Result(u64::MAX));
    assert_eq!(
        error_text(run_vdaf(&prio3, vec![max, 1])),
        "result too large for output type: TryFromIntError(())"
    );
    assert_eq!(
        prio3.shard(&(), &(max + 1)).err(),
        Some(VdafError::Pcp(PcpError::Encode))
    );
}

#[test]
fn count_refuses_other_measurements() {
    let prio3 = Prio3Aes128Count::new(2).unwrap();
    assert_eq!(
        prio3.shard(&(), &2).err(),
        Some(VdafError::Pcp(PcpError::Encode))
    );
}

#[test]
fn constructors_refuse_bad_parameters() {
    assert_eq!(
        error_text(Prio3Aes128Count::new(0)),
        "at least one aggregator is required; got 0"
    );
    assert_eq!(
        error_text(Prio3Aes128Count::new(255)),
        "number of aggregators must not exceed 254; got 255"
    );
    assert_eq!(
        error_text(Prio3Aes128CountVec::new(0, 5)),
        "at least one aggregator is required; got 0"
    );
    assert_eq!(
        error_text(Prio3Aes128Sum::new(255, 100)),
        "number of aggregators must not exceed 254; got 255"
    );
    assert_eq!(
        error_text(Prio3Aes128Sum::new(2, 65)),
        "bit length (65) exceeds limit for aggregate type (64)"
    );
    assert_eq!(
        error_text(Prio3Aes128Sum::new(2, u32::MAX)),
        "bit length (4294967295) exceeds limit for aggregate type (64)"
    );
    assert_eq!(
        error_text(Prio3Aes128Histogram::new(0, &[1, 2])),
        "at least one aggregator is required; got 0"
    );
    assert_eq!(
        Prio3Aes128Histogram::new(2, &[1, 1]).err(),
        Some(VdafError::Pcp(PcpError::Parameters))
    );
    assert_eq!(
        Prio3Aes128Histogram::new(2, &[5, 1]).err(),
        Some(VdafError::Pcp(PcpError::Parameters))
    );
    let single = Prio3Aes128Histogram::new(2, &[]).unwrap();
    assert_eq!(
        run_vdaf(&single, vec![3, 4]).unwrap(),
        Prio3ResultVec(vec![2])
    );
}

#[test]
fn lengths_are_those_of_the_proof_system() {
    let count = Prio3Aes128Count::new(2).unwrap();
    assert_eq!((count.output_len(), count.verifier_len()), (1, 4));
    let sum = Prio3Aes128Sum::new(2, 8).unwrap();
    assert_eq!((sum.output_len(), sum.verifier_len()), (1, 3));
    let histogram = Prio3Aes128Histogram::new(2, &[1, 2, 3]).unwrap();
    assert_eq!((histogram.output_len(), histogram.verifier_len()), (4, 3));
    let count_vec = Prio3Aes128CountVec::new(2, 9).unwrap();
    assert_eq!((count_vec.output_len(), count_vec.verifier_len()), (9, 8));
    assert_eq!(count_vec.clone().output_len(), 9);
}

#[test]
fn input_shares_add_up_to_the_measurement() {
    let prio3 = Prio3Aes128Sum::new(4, 3).unwrap();
    let shares = prio3.shard(&(), &5).unwrap();
    let mut total = vec![Field128::zero(); 3];
    for share in shares.iter() {
        let data: Vec<Field128> = match &share.input_share {
            Share::Leader(data) => data.clone(),
            Share::Helper(seed) => {
                expand_seed::<Field128, PrgAes128, 16>(seed, "input share", 3).unwrap()
            }
        };
        for (x, y) in total.iter_mut().zip(data.iter()) {
            *x = x.add(y);
        }
    }
    assert_eq!(numbers(&total), vec![1, 0, 1]);
}

#[test]
fn a_changed_seed_hint_is_rejected_by_its_receiver() {
    let prio3 = Prio3Aes128Sum::new(3, 4).unwrap();
    let (_, params) = prio3.setup().unwrap();
    let mut shares = prio3.shard(&(), &9).unwrap();
    shares[1].joint_rand_param.as_mut().unwrap().seed_hint.0[7] ^= 1;
    let mut waiting = Vec::new();
    let mut msgs = Vec::new();
    for (param, share) in params.iter().zip(shares.iter()) {
        let state = prio3.prepare_init(param, &(), b"n", share).unwrap();
        let (next, msg) = first_step(&prio3, state);
        waiting.push(next);
        msgs.push(msg);
    }
    let total = prio3.prepare_preprocess(msgs).unwrap();
    assert_eq!(
        failure_text(prio3.prepare_step(waiting[1].clone(), Some(total))),
        "joint randomness mismatch"
    );
}

#[test]
fn a_changed_seed_share_is_rejected_by_the_others() {
    let prio3 = Prio3Aes128Sum::new(3, 4).unwrap();
    let (_, params) = prio3.setup().unwrap();
    let shares = prio3.shard(&(), &9).unwrap();
    let mut waiting = Vec::new();
    let mut msgs = Vec::new();
    for (param, share) in params.iter().zip(shares.iter()) {
        let state = prio3.prepare_init(param, &(), b"n", share).unwrap();
        let (next, msg) = first_step(&prio3, state);
        waiting.push(next);
        msgs.push(msg);
    }
    msgs[2].joint_rand_seed.as_mut().unwrap().0[0] ^= 4;
    let total = prio3.prepare_preprocess(msgs).unwrap();
    for state in waiting.into_iter() {
        assert_eq!(
            failure_text(prio3.prepare_step(state, Some(total.clone()))),
            "joint randomness mismatch"
        );
    }
}

#[test]
fn a_wrong_verifier_is_rejected() {
    let prio3 = Prio3Aes128Count::new(2).unwrap();
    let (_, params) = prio3.setup().unwrap();
    let mut shares = prio3.shard(&(), &1).unwrap();
    match shares[0].input_share {
        Share::Leader(ref mut data) => {
            data[0] = data[0].add(&Field64::one());
        }
        Share::Helper(_) => panic!("a seed"),
    }
    assert_eq!(
        error_text(run_vdaf_prepare(&prio3, &params, b"n", shares)),
        "proof check failed"
    );
}

#[test]
fn messages_can_be_added_in_any_order() {
    let prio3 = Prio3Aes128Histogram::new(3, &[10, 20]).unwrap();
    let (_, params) = prio3.setup().unwrap();
    let shares = prio3.shard(&(), &15).unwrap();
    let mut msgs = Vec::new();
    for (param, share) in params.iter().zip(shares.iter()) {
        let state = prio3.prepare_init(param, &(), b"n", share).unwrap();
        msgs.push(first_step(&prio3, state).1);
    }
    let forward = prio3.prepare_preprocess(msgs.clone()).unwrap();
    msgs.reverse();
    let backward = prio3.prepare_preprocess(msgs).unwrap();
    assert_eq!(forward.verifier, backward.verifier);
    assert_eq!(forward.joint_rand_seed, backward.joint_rand_seed);
}

#[test]
fn unexpected_messages_are_refused() {
    let prio3 = Prio3Aes128Count::new(2).unwrap();
    let zero = Prio3PrepareMessage::<Field64, 16> {
        verifier: vec![Field64::zero(); 4],
        joint_rand_seed: None,
    };
    let short = Prio3PrepareMessage::<Field64, 16> {
        verifier: vec![Field64::zero(); 3],
        joint_rand_seed: None,
    };
    assert_eq!(
        error_text(prio3.prepare_preprocess(vec![zero.clone(), short.clone()])),
        "unexpected verifier share length: got 3; want 4"
    );
    assert_eq!(
        error_text(prio3.prepare_preprocess(vec![zero.clone()])),
        "unexpected message count: got 1; want 2"
    );
    assert_eq!(
        error_text(prio3.prepare_preprocess(vec![])),
        "unexpected message count: got 0; want 2"
    );
    assert_eq!(
        error_text(prio3.prepare_preprocess(vec![zero.clone(); 12])),
        "unexpected message count: got 12; want 2"
    );
    assert!(prio3
        .prepare_preprocess(vec![zero.clone(), zero.clone()])
        .is_ok());
}

#[test]
fn steps_out_of_order_are_refused() {
    let prio3 = Prio3Aes128Count::new(2).unwrap();
    let msg = || Prio3PrepareMessage::<Field64, 16> {
        verifier: vec![Field64::zero(); 4],
        joint_rand_seed: None,
    };
    let ready = Prio3PrepareStep::Ready {
        input_share: Share::Leader(vec![Field64::zero()]),
        joint_rand_seed: None,
        verifier_msg: msg(),
    };
    let waiting = Prio3PrepareStep::Waiting {
        input_share: Share::Leader(vec![Field64::zero()]),
        joint_rand_seed: None,
        verifier_len: 4,
    };
    assert_eq!(
        failure_text(prio3.prepare_step(ready, Some(msg()))),
        "invalid state transition"
    );
    assert_eq!(
        failure_text(prio3.prepare_step(waiting.clone(), None)),
        "invalid state transition"
    );
    match prio3.prepare_step(waiting, Some(msg())) {
        PrepareTransition::Finish(out) => assert_eq!(numbers(&out.0), vec![0]),
        _ => panic!("not finished"),
    }
}

#[test]
fn errors_of_the_proof_system_are_passed_on() {
    let prio3 = Prio3Aes128Count::new(2).unwrap();
    let (_, params) = prio3.setup().unwrap();
    // An input share that is too long.
    let share = Prio3InputShare::<Field64, 16> {
        input_share: Share::Leader(vec![Field64::zero(); 2]),
        proof_share: Share::Leader(vec![Field64::zero(); 5]),
        joint_rand_param: None,
    };
    assert_eq!(
        prio3.prepare_init(&params[0], &(), b"n", &share).err(),
        Some(VdafError::Pcp(PcpError::Query))
    );
    // A verifier message that is too short.
    let waiting = |n: usize| Prio3PrepareStep::<Field64, 16>::Waiting {
        input_share: Share::Leader(vec![Field64::zero(); n]),
        joint_rand_seed: None,
        verifier_len: 4,
    };
    let msg = |n: usize| Prio3PrepareMessage::<Field64, 16> {
        verifier: vec![Field64::zero(); n],
        joint_rand_seed: None,
    };
    assert!(matches!(
        prio3.prepare_step(waiting(1), Some(msg(3))),
        PrepareTransition::Fail(VdafError::Pcp(PcpError::Decide))
    ));
    // An input share that cannot be truncated.
    assert!(matches!(
        prio3.prepare_step(waiting(2), Some(msg(4))),
        PrepareTransition::Fail(VdafError::Pcp(PcpError::Truncate))
    ));
}

#[test]
fn aggregates_add_up_in_batches() {
    let prio3 = Prio3Aes128Histogram::new(2, &[7]).unwrap();
    let out = |a: u128, b: u128| {
        OutputShare(vec![
            Field128::from_canonical(a).unwrap(),
            Field128::from_canonical(b).unwrap(),
        ])
    };
    let all = prio3
        .aggregate(&(), vec![out(1, 2), out(3, 4), out(5, 6)])
        .unwrap();
    let mut first = prio3.aggregate(&(), vec![out(5, 6), out(1, 2)]).unwrap();
    let second = prio3.aggregate(&(), vec![out(3, 4)]).unwrap();
    first.merge(&second).unwrap();
    assert_eq!(numbers(&all.0), vec![9, 12]);
    assert_eq!(all, first);
    assert_eq!(
        numbers(&prio3.aggregate(&(), vec![]).unwrap().0),
        vec![0, 0]
    );
    assert_eq!(
        prio3.unshard(&(), vec![all, first]).unwrap(),
        Prio3ResultVec(vec![18, 24])
    );
    assert_eq!(
        error_text(prio3.aggregate(&(), vec![out(1, 2), OutputShare(vec![Field128::one()])])),
        "cannot sum shares of different lengths (left = 2, right = 1)"
    );
    assert_eq!(
        error_text(prio3.unshard(&(), vec![AggregateShare(vec![])])),
        "cannot sum shares of different lengths (left = 2, right = 0)"
    );
}

#[test]
fn results_of_unexpected_aggregates_are_refused() {
    let two = AggregateShare(vec![Field64::one(), Field64::one()]);
    assert_eq!(
        error_text(Prio3Result::<u64>::try_from(two.clone())),
        "unexpected aggregate length for count type: got 2; want 1"
    );
    assert_eq!(
        Prio3ResultVec::<u64>::try_from(two).unwrap(),
        Prio3ResultVec(vec![1, 1])
    );
    let large = Field128::from_canonical(1 << 64).unwrap();
    assert_eq!(
        error_text(Prio3Result::<u64>::try_from(AggregateShare(vec![large]))),
        "result too large for output type: TryFromIntError(())"
    );
    assert_eq!(
        error_text(Prio3ResultVec::<u64>::try_from(AggregateShare(vec![
            Field128::one(),
            large
        ]))),
        "result too large for output type: TryFromIntError(())"
    );
}

#[test]
fn input_shares_are_read_back() {
    let prio3 = Prio3Aes128Sum::new(2, 2).unwrap();
    let params = prio3.verify_params(&counting_seed(80));
    let shares = prio3.shard(&(), &3).unwrap();
    let mut all = Vec::new();
    for share in shares.iter() {
        share.encode(&mut all);
    }
    // Two elements, a proof of eight and two seeds for the leader; four seeds for the helper.
    assert_eq!(all.len(), 2 * 16 + 8 * 16 + 32 + 64);
    let mut cursor = Cursor::new(&all);
    for (param, share) in params.iter().zip(shares.iter()) {
        let read = Prio3InputShare::decode_with_param(param, &mut cursor).unwrap();
        assert_eq!(&read, share);
        assert_eq!(&read.clone(), share);
    }
    assert_eq!(cursor.remaining(), 0);

    let mut cursor = Cursor::new(&all[..31]);
    assert_eq!(
        Prio3InputShare::<Field128, 16>::decode_with_param(&params[0], &mut cursor).err(),
        Some(CodecError::UnexpectedEnd)
    );
    let mut cursor = Cursor::new(&all[..63]);
    assert_eq!(
        Prio3InputShare::<Field128, 16>::decode_with_param(&params[1], &mut cursor).err(),
        Some(CodecError::UnexpectedEnd)
    );
    let mut bad = all.clone();
    for b in bad[16..32].iter_mut() {
        *b = 255;
    }
    let mut cursor = Cursor::new(&bad);
    assert_eq!(
        Prio3InputShare::<Field128, 16>::decode_with_param(&params[0], &mut cursor).err(),
        Some(CodecError::InvalidElement)
    );
}

#[test]
fn prepare_messages_are_read_back() {
    let waiting = Prio3PrepareStep::<Field64, 16>::Waiting {
        input_share: Share::Helper(counting_seed(0)),
        joint_rand_seed: Some(counting_seed(1)),
        verifier_len: 2,
    };
    let msg = Prio3PrepareMessage {
        verifier: vec![
            Field64::one(),
            Field64::from_canonical(0x0102030405060708).unwrap(),
        ],
        joint_rand_seed: Some(counting_seed(3)),
    };
    let mut bytes = Vec::new();
    msg.encode(&mut bytes);
    assert_eq!(
        bytes,
        vec![
            1, 0, 0, 0, 0, 0, 0, 0, 8, 7, 6, 5, 4, 3, 2, 1, 3, 4, 5, 6, 7, 8, 9, 10, 11, 12, 13,
            14, 15, 16, 17, 18,
        ]
    );
    let mut cursor = Cursor::new(&bytes);
    let read = Prio3PrepareMessage::decode_with_param(&waiting, &mut cursor).unwrap();
    assert_eq!(read.verifier, msg.verifier);
    assert_eq!(read.joint_rand_seed, msg.joint_rand_seed);
    assert_eq!(cursor.remaining(), 0);
    let mut cursor = Cursor::new(&bytes[..20]);
    assert_eq!(
        Prio3PrepareMessage::decode_with_param(&waiting, &mut cursor).err(),
        Some(CodecError::UnexpectedEnd)
    );
}

#[test]
fn verify_params_are_numbered() {
    let prio3 = Prio3Aes128Sum::new(3, 4).unwrap();
    let (_, params) = prio3.setup().unwrap();
    assert_eq!(params.len(), 3);
    for (i, param) in params.iter().enumerate() {
        assert_eq!(param.aggregator_id as usize, i);
        assert_eq!(param.query_rand_init, params[0].query_rand_init);
    }
    // Another key is drawn each time.
    let (_, others) = prio3.setup().unwrap();
    assert_ne!(others[0].query_rand_init, params[0].query_rand_init);
}

#[test]
fn helper_shares_hold_their_seeds() {
    let helper = HelperShare::from_seeds(counting_seed(0), counting_seed(16), counting_seed(32));
    assert_eq!(helper.input_share, counting_seed(0));
    assert_eq!(helper.proof_share, counting_seed(16));
    assert_eq!(helper.joint_rand_param.blind, counting_seed(32));
    assert_eq!(helper.joint_rand_param.seed_hint, Seed([0; 16]));
}

#[test]
fn helper_shares_are_random() {
    let a = HelperShare::<16>::new().unwrap();
    let b = HelperShare::<16>::new().unwrap();
    assert_ne!(a.input_share, b.input_share);
    assert_ne!(a.input_share, a.proof_share);
    assert_ne!(a.joint_rand_param.blind, b.joint_rand_param.blind);
    assert_eq!(a.joint_rand_param.seed_hint, Seed([0; 16]));
}

#[test]
fn what_was_read_is_written_as_it_was() {
    let prio3 = Prio3Aes128Sum::new(2, 1).unwrap();
    let params = prio3.verify_params(&counting_seed(80));
    // Any bytes will do, as long as the numbers are below the modulus.
    let mut bytes = Vec::new();
    for i in 0..200u8 {
        bytes.push(if i % 16 == 15 { 7 } else { i });
    }
    for param in params.iter() {
        let mut cursor = Cursor::new(&bytes);
        let share: Prio3InputShare<Field128, 16> =
            Prio3InputShare::decode_with_param(param, &mut cursor).unwrap();
        let mut written = Vec::new();
        share.encode(&mut written);
        let read = bytes.len() - cursor.remaining();
        assert_eq!(written.len(), read);
        assert_eq!(written, bytes[..read].to_vec());
    }
    let waiting = Prio3PrepareStep::<Field128, 16>::Waiting {
        input_share: Share::Helper(counting_seed(0)),
        joint_rand_seed: None,
        verifier_len: 3,
    };
    let mut cursor = Cursor::new(&bytes);
    let msg = Prio3PrepareMessage::decode_with_param(&waiting, &mut cursor).unwrap();
    assert_eq!(msg.joint_rand_seed, None);
    let mut written = Vec::new();
    msg.encode(&mut written);
    assert_eq!(written, bytes[..48].to_vec());
}

#[test]
fn proof_shares_add_up_to_the_proof() {
    let prio3 = Prio3Aes128Count::new(3).unwrap();
    let helpers = vec![
        fixed_helper(),
        HelperShare {
            input_share: counting_seed(100),
            proof_share: counting_seed(120),
            joint_rand_param: JointRandParam {
                seed_hint: Seed::uninitialized(),
                blind: counting_seed(140),
            },
        },
    ];
    let shares = prio3
        .shard_with_randomness(&1, &helpers, &counting_seed(48), &counting_seed(64))
        .unwrap();
    let rand: Vec<Field64> =
        expand_seed::<Field64, PrgAes128, 16>(&counting_seed(64), "prove rand", 2).unwrap();
    let count: Count<Field64> = Count::new();
    let proof = prove(&count, &[Field64::one()], &rand, &[]).unwrap();
    let mut total = vec![Field64::zero(); proof.len()];
    for share in shares.iter() {
        let data: Vec<Field64> = match &share.proof_share {
            Share::Leader(data) => data.clone(),
            Share::Helper(seed) => {
                expand_seed::<Field64, PrgAes128, 16>(seed, "proof share", proof.len()).unwrap()
            }
        };
        for (x, y) in total.iter_mut().zip(data.iter()) {
            *x = x.add(y);
        }
    }
    assert_eq!(total, proof);
}

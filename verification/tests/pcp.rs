use prio::bytes::{from_le_bytes, to_le_bytes};
use prio::field::{decode_element, encode_element, share_of_one, FieldElement};
use prio::field128::Field128;
use prio::field64::Field64;
use prio::pcp::gadgets::{BlindPolyEval, Gadget, Mul, ParallelSum, ParallelSumGadget, PolyEval};
use prio::pcp::system::{decide, proof_len, prove, prove_rand_len, query, verifier_len};
use prio::pcp::types::{Count, CountVec, Histogram, Sum};
use prio::pcp::{PcpError, Type};
use prio::poly::{add_polys, multiply, poly_eval};

fn f64s(v: &[u128]) -> Vec<Field64> {
    v.iter()
        .map(|x| Field64::from_canonical(*x).unwrap())
        .collect()
}

fn f128s(v: &[u128]) -> Vec<Field128> {
    v.iter()
        .map(|x| Field128::from_canonical(*x).unwrap())
        .collect()
}

fn numbers<F: FieldElement>(v: &[F]) -> Vec<u128> {
    v.iter().map(|x| x.to_u128()).collect()
}

/// Proves, queries and decides without sharing.
fn accepted<T: Type>(typ: &T, input: &[T::Field], point: u128) -> Result<bool, PcpError> {
    let elements = |n: usize| -> Vec<T::Field> {
        (0..n)
            .map(|i| T::Field::from_canonical(1000 + i as u128).unwrap())
            .collect()
    };
    let joint_rand = elements(typ.joint_rand_len());
    let proof = prove(typ, input, &elements(prove_rand_len(typ)), &joint_rand)?;
    let rand = vec![T::Field::from_canonical(point).unwrap()];
    let verifier = query(typ, input, &proof, &rand, &joint_rand, 1)?;
    decide(typ, &verifier)
}

#[test]
fn field64_computes_modulo_its_order() {
    let p = 18446744069414584321u128;
    let last = Field64::from_canonical(p - 1).unwrap();
    assert!(Field64::from_canonical(p).is_none());
    assert_eq!(last.add(&Field64::one()).to_u128(), 0);
    assert_eq!(last.mul(&last).to_u128(), 1);
    assert_eq!(Field64::zero().sub(&Field64::one()).to_u128(), p - 1);
    let a = Field64::from_canonical(0x123456789abcdef0).unwrap();
    let b = Field64::from_canonical(0xfedcba9876543210).unwrap();
    assert_eq!(
        a.mul(&b).to_u128(),
        0x123456789abcdef0u128 * 0xfedcba9876543210u128 % p
    );
    assert_eq!(Field64::encoded_size(), 8);
    assert!(Field64::valid_integer_bitlength(63));
    assert!(!Field64::valid_integer_bitlength(64));
}

#[test]
fn field128_computes_modulo_its_order() {
    let p = 340282366920938462946865773367900766209u128;
    let last = Field128::from_canonical(p - 1).unwrap();
    assert!(Field128::from_canonical(p).is_none());
    assert_eq!(last.add(&last).to_u128(), p - 2);
    assert_eq!(last.mul(&last).to_u128(), 1);
    assert_eq!(Field128::zero().sub(&Field128::one()).to_u128(), p - 1);
    // 2^64 * 2^64 is 7 * 2^66 - 1 modulo the order.
    let a = Field128::from_canonical(1 << 64).unwrap();
    assert_eq!(a.mul(&a).to_u128(), 7 * (1u128 << 66) - 1);
    assert_eq!(Field128::encoded_size(), 16);
    assert!(Field128::valid_integer_bitlength(127));
    assert!(!Field128::valid_integer_bitlength(128));
}

#[test]
fn roots_have_the_expected_orders() {
    let mut w = Field64::root(32);
    for l in (0..32).rev() {
        w = w.mul(&w);
        assert_eq!(w, Field64::root(l));
    }
    assert_eq!(w.to_u128(), 1);
    let mut w = Field128::root(66);
    for l in (0..66).rev() {
        w = w.mul(&w);
        assert_eq!(w, Field128::root(l));
    }
    assert_eq!(w.to_u128(), 1);
}

#[test]
fn shares_of_one_are_inverses() {
    for n in 1..=255u8 {
        let s: Field64 = share_of_one(n);
        let t: Field128 = share_of_one(n);
        assert_eq!(s.mul(&f64s(&[n as u128])[0]).to_u128(), 1);
        assert_eq!(t.mul(&f128s(&[n as u128])[0]).to_u128(), 1);
    }
}

#[test]
fn elements_are_encoded_little_endian() {
    let x = f64s(&[0x0102030405060708])[0];
    assert_eq!(encode_element(&x), vec![8, 7, 6, 5, 4, 3, 2, 1]);
    assert_eq!(decode_element(&[8, 7, 6, 5, 4, 3, 2, 1]), Some(x));
    assert_eq!(decode_element::<Field64>(&[255; 8]), None);
    assert_eq!(to_le_bytes(258, 3), vec![2, 1, 0]);
    assert_eq!(from_le_bytes(&[2, 1, 0]), 258);
}

#[test]
fn polynomials_are_added_multiplied_and_evaluated() {
    let f = f64s(&[1, 2, 3]);
    let g = f64s(&[5, 7]);
    assert_eq!(numbers(&multiply(&f, &g)), vec![5, 17, 29, 21]);
    assert_eq!(numbers(&add_polys(&f, &f)), vec![2, 4, 6]);
    assert_eq!(poly_eval(&f, &f64s(&[10])[0]).to_u128(), 321);
    assert_eq!(poly_eval(&f64s(&[]), &f64s(&[10])[0]).to_u128(), 0);
}

#[test]
fn gadgets_compute_their_polynomials() {
    assert_eq!(Mul.call(&f64s(&[6, 7])).to_u128(), 42);
    assert_eq!((Gadget::<Field64>::arity(&Mul), Gadget::<Field64>::degree(&Mul)), (2, 2));
    let square = PolyEval {
        poly: f64s(&[1, 0, 1]),
    };
    assert_eq!(square.call(&f64s(&[9])).to_u128(), 82);
    assert_eq!(
        numbers(&square.call_poly(&[f64s(&[1, 2])], 2)),
        vec![2, 4, 4]
    );
    let blind = BlindPolyEval {
        poly: f64s(&[1, 0, 1]),
    };
    assert_eq!(blind.call(&f64s(&[9, 3])).to_u128(), 246);
    assert_eq!(blind.degree(), 3);
    let sum: ParallelSum<Field64, Mul> = ParallelSum::new(Mul, 2);
    assert_eq!(sum.arity(), 4);
    assert_eq!(sum.call(&f64s(&[2, 3, 4, 5])).to_u128(), 26);
    assert_eq!(
        numbers(&sum.call_poly(
            &[
                f64s(&[1, 1]),
                f64s(&[1, 1]),
                f64s(&[0, 1]),
                f64s(&[2, 0])
            ],
            2
        )),
        vec![1, 4, 1]
    );
}

#[test]
fn valid_inputs_are_accepted_and_others_are_not() {
    let count: Count<Field64> = Count::new();
    assert_eq!(accepted(&count, &f64s(&[0]), 77), Ok(true));
    assert_eq!(accepted(&count, &f64s(&[1]), 77), Ok(true));
    assert_eq!(accepted(&count, &f64s(&[2]), 77), Ok(false));

    let sum: Sum<Field128> = Sum::new(3).unwrap();
    assert_eq!(accepted(&sum, &f128s(&[1, 0, 1]), 77), Ok(true));
    assert_eq!(accepted(&sum, &f128s(&[1, 0, 2]), 77), Ok(false));

    let histogram: Histogram<Field128> = Histogram::new(vec![5, 9]).unwrap();
    assert_eq!(accepted(&histogram, &f128s(&[0, 1, 0]), 77), Ok(true));
    assert_eq!(accepted(&histogram, &f128s(&[0, 1, 1]), 77), Ok(false));
    assert_eq!(accepted(&histogram, &f128s(&[0, 0, 0]), 77), Ok(false));
    assert_eq!(accepted(&histogram, &f128s(&[0, 3, 0]), 77), Ok(false));

    let count_vec: CountVec<Field128, ParallelSum<Field128, BlindPolyEval<Field128>>> =
        CountVec::new(5);
    assert_eq!(accepted(&count_vec, &f128s(&[0, 1, 0, 1, 1]), 77), Ok(true));
    assert_eq!(
        accepted(&count_vec, &f128s(&[0, 1, 0, 1, 2]), 77),
        Ok(false)
    );
}

#[test]
fn arguments_of_other_lengths_are_refused() {
    let count: Count<Field64> = Count::new();
    assert_eq!((proof_len(&count), verifier_len(&count)), (5, 4));
    let one = f64s(&[1]);
    let two = f64s(&[1, 2]);
    let five = f64s(&[1, 2, 3, 4, 5]);
    let none = f64s(&[]);
    assert_eq!(prove(&count, &two, &two, &none), Err(PcpError::Prove));
    assert_eq!(prove(&count, &one, &one, &none), Err(PcpError::Prove));
    assert_eq!(prove(&count, &one, &two, &one), Err(PcpError::Prove));
    assert_eq!(
        query(&count, &two, &five, &one, &none, 2),
        Err(PcpError::Query)
    );
    assert_eq!(
        query(&count, &one, &two, &one, &none, 2),
        Err(PcpError::Query)
    );
    assert_eq!(
        query(&count, &one, &five, &two, &none, 2),
        Err(PcpError::Query)
    );
    // The points one and minus one have been used by the prover.
    assert_eq!(
        query(&count, &one, &five, &one, &none, 2),
        Err(PcpError::QueryRandomness)
    );
    assert_eq!(
        query(&count, &one, &five, &f64s(&[18446744069414584320]), &none, 2),
        Err(PcpError::QueryRandomness)
    );
    assert!(query(&count, &one, &five, &f64s(&[3]), &none, 2).is_ok());
    assert_eq!(decide(&count, &five), Err(PcpError::Decide));
    assert_eq!(count.truncate(two), Err(PcpError::Truncate));
}

#[test]
fn measurements_are_encoded() {
    let sum: Sum<Field128> = Sum::new(4).unwrap();
    assert_eq!(numbers(&sum.encode(&6).unwrap()), vec![0, 1, 1, 0]);
    assert_eq!(sum.encode(&16), Err(PcpError::Encode));
    assert_eq!(
        numbers(&sum.truncate(f128s(&[0, 1, 1, 0])).unwrap()),
        vec![6]
    );
    assert!(Sum::<Field64>::new(64).is_err());
    assert!(Sum::<Field64>::new(63).is_ok());
    let histogram: Histogram<Field128> = Histogram::new(vec![5, 9]).unwrap();
    for (m, bucket) in [(0, 0), (5, 0), (6, 1), (9, 1), (10, 2), (u128::MAX, 2)] {
        let mut want = vec![0, 0, 0];
        want[bucket] = 1;
        assert_eq!(numbers(&histogram.encode(&m).unwrap()), want);
    }
}

#[test]
fn shared_proofs_are_accepted() {
    let sum: Sum<Field128> = Sum::new(2).unwrap();
    let joint_rand = f128s(&[123456789]);
    let input = sum.encode(&2).unwrap();
    let proof = prove(&sum, &input, &f128s(&[42]), &joint_rand).unwrap();
    // Three shares of each, the first two of which are arbitrary.
    let mut inputs = vec![f128s(&[7, 8]), f128s(&[1 << 100, 3])];
    let mut proofs = vec![
        (0..proof.len() as u128).collect::<Vec<u128>>(),
        (50..50 + proof.len() as u128).collect::<Vec<u128>>(),
    ]
    .iter()
    .map(|v| f128s(v))
    .collect::<Vec<Vec<Field128>>>();
    let rest = |all: &Vec<Field128>, parts: &Vec<Vec<Field128>>| -> Vec<Field128> {
        (0..all.len())
            .map(|i| all[i].sub(&parts[0][i]).sub(&parts[1][i]))
            .collect()
    };
    let last = rest(&input, &inputs);
    inputs.push(last);
    let last = rest(&proof, &proofs);
    proofs.push(last);
    let point = f128s(&[31337]);
    let mut verifier = vec![Field128::zero(); verifier_len(&sum)];
    for (x, pf) in inputs.iter().zip(proofs.iter()) {
        let share = query(&sum, x, pf, &point, &joint_rand, 3).unwrap();
        for (v, s) in verifier.iter_mut().zip(share.iter()) {
            *v = v.add(s);
        }
    }
    assert_eq!(decide(&sum, &verifier), Ok(true));
    verifier[0] = verifier[0].add(&Field128::one());
    assert_eq!(decide(&sum, &verifier), Ok(false));
}

#[test]
fn a_forged_proof_is_accepted_for_few_query_points() {
    // The input two is not valid. The wire polynomials are 1 - X, whose product is
    // 1 - 2X + X^2, and the gadget polynomial is forged: it claims that the product of two and
    // two is two, at the price of being wrong everywhere but at the points 10 and 20.
    let count: Count<Field64> = Count::new();
    let input = f64s(&[2]);
    let minus = |x: &Field64| Field64::zero().sub(x);
    let inverse: Field64 = {
        // 231 = 11 * 21
        let a: Field64 = share_of_one(11);
        let b: Field64 = share_of_one(21);
        a.mul(&b)
    };
    let k = minus(&f64s(&[2])[0].mul(&inverse));
    // k * (X - 10) * (X - 20)
    let error = [
        k.mul(&f64s(&[200])[0]),
        minus(&k.mul(&f64s(&[30])[0])),
        k,
    ];
    let honest = [
        Field64::one(),
        minus(&f64s(&[2])[0]),
        Field64::one(),
    ];
    let mut proof = f64s(&[0, 0]);
    for (a, b) in honest.iter().zip(error.iter()) {
        proof.push(a.add(b));
    }
    let mut accepting = Vec::new();
    for point in 2..1000 {
        let verifier = query(&count, &input, &proof, &f64s(&[point]), &[], 1).unwrap();
        if decide(&count, &verifier).unwrap() {
            accepting.push(point);
        }
    }
    assert_eq!(accepting, vec![10, 20]);
}

#[test]
fn a_clone_works_like_the_value_it_came_from() {
    let count = Count::<Field64>::new().clone();
    assert_eq!(accepted(&count, &f64s(&[1]), 77), Ok(true));
    assert_eq!(accepted(&count, &f64s(&[2]), 77), Ok(false));

    let sum = Sum::<Field128>::new(3).unwrap().clone();
    assert_eq!(accepted(&sum, &f128s(&[1, 0, 1]), 77), Ok(true));
    assert_eq!(accepted(&sum, &f128s(&[1, 0, 2]), 77), Ok(false));

    let histogram = Histogram::<Field128>::new(vec![5, 9]).unwrap().clone();
    assert_eq!(accepted(&histogram, &f128s(&[0, 1, 0]), 77), Ok(true));
    assert_eq!(accepted(&histogram, &f128s(&[0, 1, 1]), 77), Ok(false));

    let count_vec: CountVec<Field128, ParallelSum<Field128, BlindPolyEval<Field128>>> =
        CountVec::new(5);
    let copy = count_vec.clone();
    assert_eq!(copy.input_len(), 5);
    assert_eq!(verifier_len(&copy), verifier_len(&count_vec));
    assert_eq!(accepted(&copy, &f128s(&[0, 1, 0, 1, 1]), 77), Ok(true));
    assert_eq!(accepted(&copy, &f128s(&[0, 1, 0, 1, 2]), 77), Ok(false));
}

#[test]
fn a_changed_proof_of_a_valid_input_is_accepted_for_few_query_points() {
    let accepting = |count: &Count<Field64>, proof: &[Field64]| -> Vec<u128> {
        (2..1000)
            .filter(|t| {
                let verifier = query(count, &f64s(&[1]), proof, &f64s(&[*t]), &[], 1).unwrap();
                decide(count, &verifier).unwrap()
            })
            .collect()
    };
    let count: Count<Field64> = Count::new();
    let mut proof = prove(&count, &f64s(&[1]), &f64s(&[0, 0]), &[]).unwrap();
    assert_eq!(accepting(&count, &proof).len(), 998);
    // (X + 1) * (X - 10): the claimed output of the gadget call, at -1, stays right.
    let error = [
        Field64::zero().sub(&f64s(&[10])[0]),
        Field64::zero().sub(&f64s(&[9])[0]),
        Field64::one(),
    ];
    for (a, b) in proof[2..].iter_mut().zip(error.iter()) {
        *a = a.add(b);
    }
    assert_eq!(accepting(&count, &proof), vec![10]);

    // Changing the random value of the wire, or one coefficient of the gadget polynomial.
    let sum: Sum<Field128> = Sum::new(3).unwrap();
    let histogram: Histogram<Field128> = Histogram::new(vec![5, 9]).unwrap();
    let accepted_points = |typ: &dyn Fn(&[Field128], u128) -> bool, proof: &[Field128]| -> usize {
        (2..1000).filter(|t| typ(proof, *t)).count()
    };
    let for_sum = |proof: &[Field128], t: u128| -> bool {
        let v = query(&sum, &f128s(&[1, 0, 1]), proof, &f128s(&[t]), &f128s(&[7]), 1).unwrap();
        decide(&sum, &v).unwrap()
    };
    let for_histogram = |proof: &[Field128], t: u128| -> bool {
        let x = f128s(&[0, 1, 0]);
        let v = query(&histogram, &x, proof, &f128s(&[t]), &f128s(&[7, 8]), 1).unwrap();
        decide(&histogram, &v).unwrap()
    };
    let sum_proof = prove(&sum, &f128s(&[1, 0, 1]), &f128s(&[5]), &f128s(&[7])).unwrap();
    let x = f128s(&[0, 1, 0]);
    let histogram_proof = prove(&histogram, &x, &f128s(&[5]), &f128s(&[7, 8])).unwrap();
    assert_eq!(accepted_points(&for_sum, &sum_proof), 998);
    assert_eq!(accepted_points(&for_histogram, &histogram_proof), 998);
    for i in 0..sum_proof.len() {
        let mut changed = sum_proof.clone();
        changed[i] = changed[i].add(&Field128::one());
        assert!(accepted_points(&for_sum, &changed) <= 6);
        let mut changed = histogram_proof.clone();
        changed[i] = changed[i].add(&Field128::one());
        assert!(accepted_points(&for_histogram, &changed) <= 6);
    }
}

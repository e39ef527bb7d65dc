use prio::field::FieldElement;
use prio::field128::Field128;
use prio::field64::Field64;
use prio::prng::Prng;
use prio::vdaf::expand_seed;
use prio::vdaf::prg::{Prg, PrgAes128, Seed, SeedStream};
use prio::vdaf::VdafError;

fn counting() -> Seed<16> {
    Seed([0, 1, 2, 3, 4, 5, 6, 7, 8, 9, 10, 11, 12, 13, 14, 15])
}

#[test]
fn the_stream_has_the_expected_bytes() {
    let mut stream = PrgAes128::seed_stream(&counting(), b"input share");
    assert_eq!(
        stream.fill(16),
        vec![234, 111, 167, 122, 172, 166, 15, 10, 57, 198, 196, 7, 100, 15, 141, 44]
    );
    // Reading goes on within a block and over its end.
    assert_eq!(stream.fill(3), vec![187, 17, 234]);
    assert_eq!(
        stream.fill(21),
        vec![
            216, 72, 136, 131, 243, 10, 125, 161, 62, 60, 47, 84, 138, 203, 129, 221, 199, 34,
            164, 214, 44
        ]
    );
    assert_eq!(stream.remaining(), u64::MAX - 40);
    assert_eq!(stream.fill(0), Vec::<u8>::new());
}

#[test]
fn the_message_can_be_given_in_parts() {
    let mut whole = PrgAes128::init(&counting());
    whole.update(b"input share");
    let mut parts = PrgAes128::init(&counting());
    parts.update(b"input");
    parts.update(b"");
    parts.update(b" share");
    let seed = whole.into_seed();
    assert_eq!(seed, parts.into_seed());
    assert_eq!(
        seed.0,
        [234, 111, 167, 122, 172, 166, 15, 10, 57, 198, 196, 7, 100, 15, 141, 44]
    );
}

#[test]
fn seeds_are_expanded_to_the_expected_elements() {
    let small: Vec<Field64> =
        expand_seed::<Field64, PrgAes128, 16>(&counting(), "input share", 3).unwrap();
    assert_eq!(
        small.iter().map(|x| x.to_u128()).collect::<Vec<u128>>(),
        vec![
            724981324752318442,
            3210239031686514233,
            17547018419623825851
        ]
    );
    let large: Vec<Field128> =
        expand_seed::<Field128, PrgAes128, 16>(&counting(), "input share", 3).unwrap();
    assert_eq!(
        large.iter().map(|x| x.to_u128()).collect::<Vec<u128>>(),
        vec![
            59218457832954295915027313713184468970,
            183870574400759736629598284564224676283,
            226270952653383932478595594076056027595
        ]
    );
    let prng: Prng<Field64, _> =
        Prng::from_seed_stream(PrgAes128::seed_stream(&counting(), b"input share"));
    assert_eq!(prng.take(2).unwrap(), small[..2].to_vec());
}

#[test]
fn seeds_combine() {
    let a = Seed([1u8, 2, 3, 255]);
    let b = Seed([3u8, 2, 1, 15]);
    let mut c = Seed::uninitialized();
    assert_eq!(c, Seed([0u8; 4]));
    c.xor(&a, &b);
    assert_eq!(c, Seed([2u8, 0, 2, 240]));
    c.xor_accumulate(&b);
    assert!(c.equals(&a));
    assert!(!c.equals(&b));
    let mut bytes = vec![9];
    a.encode(&mut bytes);
    assert_eq!(bytes, vec![9, 1, 2, 3, 255]);
    assert_eq!(Seed::<4>::from_bytes(&[1, 2, 3, 255]), a);
}

#[test]
fn generated_seeds_are_random() {
    let a = Seed::<16>::generate().unwrap();
    let b = Seed::<16>::generate().unwrap();
    assert_ne!(a, b);
    assert_ne!(a, Seed::uninitialized());
    assert_eq!(Seed::<0>::generate().unwrap(), Seed([]));
}

#[test]
fn a_seed_follows_the_random_source() {
    let bytes: Vec<u8> = (0..16).collect();
    assert_eq!(Seed::<16>::from_random(Ok(()), &bytes).unwrap(), counting());
    assert!(matches!(
        Seed::<16>::from_random(Err(getrandom::Error::UNSUPPORTED), &bytes),
        Err(VdafError::GetRandom)
    ));
}

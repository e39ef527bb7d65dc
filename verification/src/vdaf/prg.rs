//! Seeds and the pseudorandom generators that expand them.
use vstd::prelude::*;
use aes::cipher::{KeyIvInit, StreamCipher, StreamCipherSeek};
use cmac::Mac;

verus! {

use crate::vdaf::VdafError;

/// A seed of `L` bytes.
#[derive(Clone, Copy, Debug, PartialEq, Eq)]
pub struct Seed<const L: usize>(pub [u8; L]);

impl<const L: usize> View for Seed<L> {
    type V = Seq<u8>;

    open spec fn view(&self) -> Seq<u8> {
        self.0@
    }
}

/// The exclusive or, byte by byte.
pub open spec fn xor(a: Seq<u8>, b: Seq<u8>) -> Seq<u8> {
    Seq::new(a.len(), |i: int| a[i] ^ b[i])
}

/// The byte string of `n` zeros.
pub open spec fn zero_bytes(n: nat) -> Seq<u8> {
    Seq::new(n, |i: int| 0u8)
}

/// The exclusive or of byte strings of length `n`.
pub open spec fn xor_all(s: Seq<Seq<u8>>, n: nat) -> Seq<u8>
    decreases s.len(),
{
    if s.len() == 0 {
        zero_bytes(n)
    } else {
        xor(xor_all(s.drop_last(), n), s.last())
    }
}

pub proof fn lemma_xor_all_len(s: Seq<Seq<u8>>, n: nat)
    ensures
        xor_all(s, n).len() == n,
    decreases s.len(),
{
    if s.len() > 0 {
        lemma_xor_all_len(s.drop_last(), n);
    }
}

pub proof fn lemma_xor_comm(a: Seq<u8>, b: Seq<u8>)
    requires
        a.len() == b.len(),
    ensures
        xor(a, b) == xor(b, a),
{
    assert forall|i: int| 0 <= i < a.len() implies #[trigger] xor(a, b)[i] == xor(b, a)[i] by {
        let (x, y) = (a[i], b[i]);
        assert(x ^ y == y ^ x) by (bit_vector);
    }
    assert(xor(a, b) =~= xor(b, a));
}

pub proof fn lemma_xor_assoc(a: Seq<u8>, b: Seq<u8>, c: Seq<u8>)
    requires
        a.len() == b.len(),
        b.len() == c.len(),
    ensures
        xor(xor(a, b), c) == xor(a, xor(b, c)),
{
    let (l, r) = (xor(xor(a, b), c), xor(a, xor(b, c)));
    assert forall|i: int| 0 <= i < a.len() implies #[trigger] l[i] == r[i] by {
        let (x, y, z) = (a[i], b[i], c[i]);
        assert((x ^ y) ^ z == x ^ (y ^ z)) by (bit_vector);
    }
    assert(l =~= r);
}

/// A byte string is its own inverse.
pub proof fn lemma_xor_cancel(a: Seq<u8>, b: Seq<u8>)
    requires
        a.len() == b.len(),
    ensures
        xor(xor(a, b), b) == a,
{
    let l = xor(xor(a, b), b);
    assert forall|i: int| 0 <= i < a.len() implies #[trigger] l[i] == a[i] by {
        let (x, y) = (a[i], b[i]);
        assert((x ^ y) ^ y == x) by (bit_vector);
    }
    assert(l =~= a);
}

/// The exclusive or of a concatenation is that of the exclusive ors.
pub proof fn lemma_xor_all_append(a: Seq<Seq<u8>>, b: Seq<Seq<u8>>, n: nat)
    requires
        forall|i: int| 0 <= i < b.len() ==> (#[trigger] b[i]).len() == n,
    ensures
        xor_all(a + b, n) == xor(xor_all(a, n), xor_all(b, n)),
    decreases b.len(),
{
    lemma_xor_all_len(a, n);
    if b.len() == 0 {
        assert(a + b =~= a);
        let x = xor_all(a, n);
        assert forall|i: int| 0 <= i < n implies #[trigger] xor(x, zero_bytes(n))[i] == x[i] by {
            let c = x[i];
            assert(c ^ 0u8 == c) by (bit_vector);
        }
        assert(xor(x, zero_bytes(n)) =~= x);
    } else {
        let c = b.drop_last();
        lemma_xor_all_append(a, c, n);
        lemma_xor_all_len(c, n);
        assert((a + b).drop_last() =~= a + c);
        assert(b[b.len() - 1].len() == n);
        lemma_xor_assoc(xor_all(a, n), xor_all(c, n), b.last());
    }
}

/// The exclusive or of one byte string is that string.
pub proof fn lemma_xor_all_one(a: Seq<u8>)
    ensures
        xor_all(seq![a], a.len()) == a,
{
    let n = a.len();
    let empty = seq![a].drop_last();
    assert(empty =~= Seq::<Seq<u8>>::empty());
    assert(xor_all(empty, n) == zero_bytes(n));
    assert forall|i: int| 0 <= i < n implies #[trigger] xor(zero_bytes(n), a)[i] == a[i] by {
        let c = a[i];
        assert(0u8 ^ c == c) by (bit_vector);
    }
    assert(xor(zero_bytes(n), a) =~= a);
}

/// Taking out one byte string takes it out of the exclusive or.
pub proof fn lemma_xor_all_remove(s: Seq<Seq<u8>>, k: int, n: nat)
    requires
        0 <= k < s.len(),
        forall|i: int| 0 <= i < s.len() ==> (#[trigger] s[i]).len() == n,
    ensures
        xor_all(s, n) == xor(xor_all(s.remove(k), n), s[k]),
{
    let (a, b) = (s.take(k), s.skip(k + 1));
    let mid = seq![s[k]];
    assert(s =~= (a + mid) + b);
    assert(s.remove(k) =~= a + b);
    assert forall|i: int| 0 <= i < b.len() implies (#[trigger] b[i]).len() == n by {
        assert(s[k + 1 + i].len() == n);
    }
    assert(s[k].len() == n);
    lemma_xor_all_append(a + mid, b, n);
    lemma_xor_all_append(a, mid, n);
    lemma_xor_all_append(a, b, n);
    lemma_xor_all_one(s[k]);
    lemma_xor_all_len(a, n);
    lemma_xor_all_len(b, n);
    lemma_xor_assoc(xor_all(a, n), s[k], xor_all(b, n));
    lemma_xor_comm(s[k], xor_all(b, n));
    lemma_xor_assoc(xor_all(a, n), xor_all(b, n), s[k]);
}

/// Fills a byte string with random bytes, by `getrandom::getrandom`.
///
/// The length stays the same, and filling an empty string always succeeds. Which bytes come, and
/// whether filling another string succeeds, is up to the system.
#[verifier::external_body]
fn fill_random(bytes: &mut Vec<u8>) -> (r: Result<(), getrandom::Error>)
    ensures
        final(bytes)@.len() == old(bytes)@.len(),
        old(bytes)@.len() == 0 ==> r is Ok,
{
    getrandom::getrandom(bytes)
}

/// Has the random source fill `n` bytes, and hands on whether it did and what it has filled in.
///
/// An operation that needs several byte strings numbers its draws, so that its contract can tell
/// that each comes from a draw of its own.
fn draw(n: usize, Ghost(place): Ghost<int>) -> (r: (Result<(), getrandom::Error>, Vec<u8>))
    ensures
        exists|buffer: &mut Vec<u8>| #[trigger]
            call_ensures(fill_random, (buffer,), r.0) && *final(buffer) == r.1,
        r.1@.len() == n,
        n == 0 ==> r.0 is Ok,
{
    let mut bytes: Vec<u8> = vec![0u8; n];
    let filled = fill_random(&mut bytes);
    (filled, bytes)
}

/// The system's random source has supplied these bytes in the draw with the number `place`.
pub closed spec fn supplied_at(place: int, bytes: Seq<u8>) -> bool {
    exists|n: usize, r: (Result<(), getrandom::Error>, Vec<u8>)| #[trigger]
        call_ensures(draw, (n, Ghost(place)), r) && r.0 is Ok && r.1@ == bytes
}

/// The system's random source has failed to supply `n` bytes in a draw.
pub closed spec fn refused(n: usize) -> bool {
    exists|place: int, r: (Result<(), getrandom::Error>, Vec<u8>)| #[trigger]
        call_ensures(draw, (n, Ghost(place)), r) && r.0 is Err
}

/// What is supplied comes from a draw that has succeeded, and what is refused from one that has
/// not.
proof fn lemma_draws(place: int, bytes: Seq<u8>, n: usize)
    ensures
        supplied_at(place, bytes) ==> exists|
            len: usize,
            r: (Result<(), getrandom::Error>, Vec<u8>),
        | #[trigger]
            call_ensures(draw, (len, Ghost(place)), r) && r.0 is Ok && r.1@ == bytes,
        refused(n) ==> exists|at: int, r: (Result<(), getrandom::Error>, Vec<u8>)| #[trigger]
            call_ensures(draw, (n, Ghost(at)), r) && r.0 is Err,
{
}

/// The error of `getrandom`.
#[verifier::external_type_specification]
#[verifier::external_body]
pub struct ExGetrandomError(getrandom::Error);

impl<const L: usize> Seed<L> {
    /// The seed of zeros.
    pub fn uninitialized() -> (r: Self)
        ensures
            r@ == zero_bytes(L as nat),
    {
        let mut r = Seed([0u8; L]);
        let mut i: usize = 0;
        while i < L
            invariant
                i <= L,
                forall|j: int| 0 <= j < i ==> #[trigger] r.0@[j] == 0u8,
            decreases L - i,
        {
            r.0[i] = 0;
            i += 1;
        }
        assert(r@ =~= zero_bytes(L as nat));
        r
    }

    /// The seed that consists of the given bytes.
    pub fn from_bytes(bytes: &[u8]) -> (r: Self)
        requires
            bytes@.len() == L,
        ensures
            r@ == bytes@,
    {
        let mut r = Seed([0u8; L]);
        let mut i: usize = 0;
        while i < L
            invariant
                i <= L,
                bytes@.len() == L,
                forall|j: int| 0 <= j < i ==> #[trigger] r.0@[j] == bytes@[j],
            decreases L - i,
        {
            r.0[i] = bytes[i];
            i += 1;
        }
        assert(r@ =~= bytes@);
        r
    }

    /// The seed that a source of random bytes has supplied: the bytes, where filling them succeeded,
    /// and an error where it did not.
    pub fn from_random(filled: Result<(), getrandom::Error>, bytes: &[u8]) -> (r: Result<
        Self,
        VdafError,
    >)
        requires
            bytes@.len() == L,
        ensures
            r is Ok <==> filled is Ok,
            r matches Ok(seed) ==> seed@ == bytes@,
            r matches Err(e) ==> e == VdafError::GetRandom,
    {
        match filled {
            Ok(_) => Ok(Seed::from_bytes(bytes)),
            Err(_) => Err(VdafError::GetRandom),
        }
    }

    /// Generates a seed of random bytes.
    ///
    /// The bytes are those that the random source supplies. Which bytes come, and whether the system
    /// can supply them, is not stated; a seed of no bytes is always supplied. [`Seed::from_random`]
    /// says what becomes of each outcome.
    pub fn generate() -> (r: Result<Self, VdafError>)
        ensures
            r matches Err(e) ==> e == VdafError::GetRandom && L > 0,
            r matches Ok(seed) ==> supplied_at(0, seed@),
            r is Err ==> refused(L),
    {
        Seed::generate_at(Ghost(0))
    }

    /// Generates a seed of random bytes, in the draw with the number `place`.
    pub(crate) fn generate_at(Ghost(place): Ghost<int>) -> (r: Result<Self, VdafError>)
        ensures
            r matches Err(e) ==> e == VdafError::GetRandom && L > 0,
            r matches Ok(seed) ==> supplied_at(place, seed@),
            r is Err ==> refused(L),
    {
        let (filled, bytes) = draw(L, Ghost(place));
        Seed::from_random(filled, bytes.as_slice())
    }

    /// Sets the seed to the exclusive or of two seeds.
    pub fn xor(&mut self, left: &Seed<L>, right: &Seed<L>)
        ensures
            final(self)@ == xor(left@, right@),
    {
        let mut i: usize = 0;
        while i < L
            invariant
                i <= L,
                forall|j: int| 0 <= j < i ==> #[trigger] self.0@[j] == left.0@[j] ^ right.0@[j],
            decreases L - i,
        {
            let ghost before = self.0@;
            self.0[i] = left.0[i] ^ right.0[i];
            assert forall|j: int| 0 <= j < i + 1 implies #[trigger] self.0@[j] == left.0@[j]
                ^ right.0@[j] by {
                if j < i {
                    assert(before[j] == left.0@[j] ^ right.0@[j]);
                }
            }
            i += 1;
        }
        assert(self@ =~= xor(left@, right@));
    }

    /// Sets the seed to the exclusive or of itself and another one.
    pub fn xor_accumulate(&mut self, other: &Seed<L>)
        ensures
            final(self)@ == xor(old(self)@, other@),
    {
        let left: Seed<L> = *self;
        self.xor(&left, other);
    }

    /// Tells whether two seeds are equal.
    pub fn equals(&self, other: &Seed<L>) -> (r: bool)
        ensures
            r == (self@ == other@),
    {
        let mut i: usize = 0;
        while i < L
            invariant
                i <= L,
                forall|j: int| 0 <= j < i ==> #[trigger] self.0@[j] == other.0@[j],
            decreases L - i,
        {
            if self.0[i] != other.0[i] {
                return false;
            }
            i += 1;
        }
        assert(self@ =~= other@);
        true
    }

    /// Appends the seed to a message.
    pub fn encode(&self, bytes: &mut Vec<u8>)
        ensures
            final(bytes)@ == old(bytes)@ + self@,
    {
        bytes.extend_from_slice(self.0.as_slice());
    }
}

/// A stream of pseudorandom bytes.
pub trait SeedStream: Sized {
    /// The `i`-th byte of the stream.
    spec fn byte(&self, i: int) -> u8;

    /// The number of bytes that have been read.
    spec fn position(&self) -> nat;

    /// The number of bytes that can still be read.
    fn remaining(&self) -> (r: u64)
        ensures
            self.position() + r == u64::MAX,
    ;

    /// Reads `len` bytes.
    fn fill(&mut self, len: usize) -> (r: Vec<u8>)
        requires
            old(self).position() + len <= u64::MAX,
        ensures
            r@ == Seq::new(len as nat, |i: int| old(self).byte(old(self).position() + i)),
            final(self).position() == old(self).position() + len,
            forall|i: int| #[trigger] final(self).byte(i) == old(self).byte(i),
    ;
}

/// A pseudorandom generator with seeds of `L` bytes.
pub trait Prg<const L: usize>: Sized {
    /// The stream that the generator makes.
    type SeedStream: SeedStream;

    /// The `i`-th byte of the stream that belongs to a seed and a message.
    spec fn stream_byte(seed: Seq<u8>, message: Seq<u8>, i: int) -> u8;

    /// The seed.
    spec fn seed(&self) -> Seq<u8>;

    /// The message so far.
    spec fn message(&self) -> Seq<u8>;

    /// Starts with a seed and an empty message.
    fn init(seed: &Seed<L>) -> (r: Self)
        ensures
            r.seed() == seed@,
            r.message() == Seq::<u8>::empty(),
    ;

    /// Appends to the message.
    fn update(&mut self, data: &[u8])
        ensures
            final(self).seed() == old(self).seed(),
            final(self).message() == old(self).message() + data@,
    ;

    /// The stream that belongs to the seed and the message.
    fn into_seed_stream(self) -> (r: Self::SeedStream)
        ensures
            r.position() == 0,
            forall|i: int|
                #[trigger] r.byte(i) == Self::stream_byte(self.seed(), self.message(), i),
    ;

    /// The seed that the stream starts with.
    fn into_seed(self) -> (r: Seed<L>)
        ensures
            r@ == Seq::new(
                L as nat,
                |i: int| Self::stream_byte(self.seed(), self.message(), i),
            ),
    {
        let ghost (s, m) = (self.seed(), self.message());
        let mut stream = self.into_seed_stream();
        let bytes = stream.fill(L);
        assert(bytes@ =~= Seq::new(L as nat, |i: int| Self::stream_byte(s, m, i)));
        Seed::from_bytes(bytes.as_slice())
    }

    /// The stream that belongs to a seed and a message.
    fn seed_stream(seed: &Seed<L>, message: &[u8]) -> (r: Self::SeedStream)
        ensures
            r.position() == 0,
            forall|i: int| #[trigger] r.byte(i) == Self::stream_byte(seed@, message@, i),
    {
        let mut prg = Self::init(seed);
        prg.update(message);
        assert(prg.message() =~= message@);
        prg.into_seed_stream()
    }
}

/// The seed that the stream of a seed and a message starts with.
pub open spec fn derived<P: Prg<L>, const L: usize>(seed: Seq<u8>, message: Seq<u8>) -> Seq<u8> {
    Seq::new(L as nat, |i: int| P::stream_byte(seed, message, i))
}

/// The message authentication code that [`aes_cmac`] computes.
pub uninterp spec fn aes_cmac_tag(key: Seq<u8>, message: Seq<u8>) -> Seq<u8>;

/// The authentication code of a message under CMAC with AES-128, by `cmac::Cmac` over
/// `aes::Aes128`.
///
/// The code is a function of the key and the message, and has as many bytes as a block.
#[verifier::external_body]
fn aes_cmac(key: &[u8], message: &[u8]) -> (r: Vec<u8>)
    requires
        key@.len() == 16,
    ensures
        r@ == aes_cmac_tag(key@, message@),
        r@.len() == 16,
{
    let mut mac = cmac::Cmac::<aes::Aes128>::new_from_slice(key).unwrap();
    mac.update(message);
    mac.finalize().into_bytes().to_vec()
}

/// A byte of the key stream that [`apply_aes_ctr`] applies.
pub uninterp spec fn aes_ctr_byte(key: Seq<u8>, iv: Seq<u8>, position: int) -> u8;

/// Combines bytes with the key stream of AES-128 in counter mode, from `position` in the stream
/// on, by `ctr::Ctr64BE` over `aes::Aes128`.
///
/// A byte of the stream is a function of the key, the initial counter block and the place of the
/// byte; where the application starts makes no difference to it. Each byte is replaced by its
/// exclusive or with the byte of the stream.
#[verifier::external_body]
fn apply_aes_ctr(key: &[u8], iv: &[u8], position: u64, bytes: &mut Vec<u8>)
    requires
        key@.len() == 16,
        iv@.len() == 16,
        position + old(bytes)@.len() <= u64::MAX,
    ensures
        final(bytes)@ == Seq::new(
            old(bytes)@.len(),
            |i: int| old(bytes)@[i] ^ aes_ctr_byte(key@, iv@, position + i),
        ),
{
    let mut cipher = ctr::Ctr64BE::<aes::Aes128>::new_from_slices(key, iv).unwrap();
    cipher.seek(position);
    cipher.apply_keystream(bytes);
}

/// The generator over AES-128: the message is authenticated under the seed, and the code is the
/// key of a cipher in counter mode whose key stream is the generator's stream.
#[derive(Debug)]
pub struct PrgAes128 {
    key: Seed<16>,
    data: Vec<u8>,
}

/// The stream of [`PrgAes128`].
#[derive(Debug)]
pub struct SeedStreamAes128 {
    key: Seed<16>,
    read: u64,
}

impl SeedStream for SeedStreamAes128 {
    closed spec fn byte(&self, i: int) -> u8 {
        aes_ctr_byte(self.key@, zero_bytes(16), i)
    }

    closed spec fn position(&self) -> nat {
        self.read as nat
    }

    fn remaining(&self) -> (r: u64) {
        u64::MAX - self.read
    }

    fn fill(&mut self, len: usize) -> (r: Vec<u8>) {
        let iv: Seed<16> = Seed::uninitialized();
        let mut bytes: Vec<u8> = vec![0u8; len];
        apply_aes_ctr(self.key.0.as_slice(), iv.0.as_slice(), self.read, &mut bytes);
        self.read = self.read + len as u64;
        proof {
            let want = Seq::new(len as nat, |i: int| old(self).byte(old(self).position() + i));
            assert forall|i: int| 0 <= i < len implies #[trigger] bytes@[i] == want[i] by {
                let b = want[i];
                assert(0u8 ^ b == b) by (bit_vector);
            }
            assert(bytes@ =~= want);
        }
        bytes
    }
}

impl Prg<16> for PrgAes128 {
    type SeedStream = SeedStreamAes128;

    open spec fn stream_byte(seed: Seq<u8>, message: Seq<u8>, i: int) -> u8 {
        aes_ctr_byte(aes_cmac_tag(seed, message), zero_bytes(16), i)
    }

    closed spec fn seed(&self) -> Seq<u8> {
        self.key@
    }

    closed spec fn message(&self) -> Seq<u8> {
        self.data@
    }

    fn init(seed: &Seed<16>) -> (r: Self) {
        PrgAes128 { key: *seed, data: Vec::new() }
    }

    fn update(&mut self, data: &[u8]) {
        self.data.extend_from_slice(data);
    }

    fn into_seed_stream(self) -> (r: SeedStreamAes128) {
        let tag = aes_cmac(self.key.0.as_slice(), self.data.as_slice());
        let r = SeedStreamAes128 { key: Seed::from_bytes(tag.as_slice()), read: 0 };
        assert(r.position() == 0);
        assert forall|i: int| #[trigger] r.byte(i) == Self::stream_byte(
            self.seed(),
            self.message(),
            i,
        ) by {}
        r
    }
}

/// The exclusive or of several byte strings, each of `n` bytes, is taken byte by byte: adding a
/// byte string changes each byte of it, one byte string is its own, and none is all zeros.
pub proof fn law_xor_all(s: Seq<Seq<u8>>, t: Seq<u8>, n: nat)
    requires
        t.len() == n,
    ensures
        xor_all(s, n).len() == n,
        xor_all(s.push(t), n).len() == n,
        forall|i: int|
            0 <= i < n ==> #[trigger] xor_all(s.push(t), n)[i] == xor_all(s, n)[i] ^ t[i],
        xor_all(Seq::empty(), n) == Seq::new(n, |i: int| 0u8),
        xor_all(seq![t], n) == t,
{
    lemma_xor_all_len(s, n);
    lemma_xor_all_len(s.push(t), n);
    assert(s.push(t).drop_last() =~= s);
    lemma_xor_all_one(t);
}

/// The exclusive or of two byte strings is that of their bytes.
pub proof fn law_xor(a: Seq<u8>, b: Seq<u8>)
    requires
        a.len() == b.len(),
    ensures
        xor(a, b).len() == a.len(),
        forall|i: int| 0 <= i < a.len() ==> #[trigger] xor(a, b)[i] == a[i] ^ b[i],
{
}

/// The stream of the generator over AES-128 is the key stream, from the counter block of zeros
/// on, under the code of the whole message under the seed.
pub proof fn law_aes_stream(seed: Seq<u8>, message: Seq<u8>, i: int)
    ensures
        <PrgAes128 as Prg<16>>::stream_byte(seed, message, i) == aes_ctr_byte(
            aes_cmac_tag(seed, message),
            Seq::new(16, |k: int| 0u8),
            i,
        ),
{
}

} // verus!

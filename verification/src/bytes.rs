//! Little-endian byte strings.
use vstd::prelude::*;

verus! {

use vstd::arithmetic::div_mod::lemma_div_denominator;
use vstd::arithmetic::power::{lemma_pow0, lemma_pow_increases, lemma_pow_positive, pow};
use crate::arith::lemma_pow_step;

/// The number that a little-endian byte string stands for.
pub open spec fn le_value(b: Seq<u8>) -> int
    decreases b.len(),
{
    if b.len() == 0 {
        0
    } else {
        b[0] as int + 256 * le_value(b.drop_first())
    }
}

/// The `n` low-order bytes of `v`, least significant first.
pub open spec fn le_bytes(v: int, n: nat) -> Seq<u8>
    decreases n,
{
    if n == 0 {
        Seq::empty()
    } else {
        seq![(v % 256) as u8] + le_bytes(v / 256, (n - 1) as nat)
    }
}

pub proof fn lemma_le_bytes_len(v: int, n: nat)
    ensures
        le_bytes(v, n).len() == n,
    decreases n,
{
    if n > 0 {
        lemma_le_bytes_len(v / 256, (n - 1) as nat);
    }
}

pub proof fn lemma_le_value_bound(b: Seq<u8>)
    ensures
        0 <= le_value(b) < pow(256, b.len()),
    decreases b.len(),
{
    lemma_pow0(256);
    if b.len() > 0 {
        lemma_le_value_bound(b.drop_first());
        lemma_pow_step(256, (b.len() - 1) as nat);
    }
}

/// Reading the bytes of a number gives the number back.
pub proof fn lemma_le_value_of_bytes(v: int, n: nat)
    requires
        0 <= v < pow(256, n),
    ensures
        le_value(le_bytes(v, n)) == v,
    decreases n,
{
    lemma_pow0(256);
    if n > 0 {
        lemma_pow_step(256, (n - 1) as nat);
        lemma_le_value_of_bytes(v / 256, (n - 1) as nat);
        assert(le_bytes(v, n).drop_first() =~= le_bytes(v / 256, (n - 1) as nat));
    }
}

/// The bytes of the number that a byte string stands for are that byte string.
pub proof fn lemma_le_bytes_of_value(b: Seq<u8>)
    ensures
        le_bytes(le_value(b), b.len()) == b,
    decreases b.len(),
{
    if b.len() > 0 {
        let rest = b.drop_first();
        lemma_le_bytes_of_value(rest);
        let v = le_value(b);
        assert(v % 256 == b[0] as int && v / 256 == le_value(rest));
        assert(seq![b[0]] + rest =~= b);
    } else {
        assert(b =~= Seq::empty());
    }
}

/// The `n` low-order bytes of `v`, least significant first.
pub fn to_le_bytes(v: u128, n: usize) -> (r: Vec<u8>)
    ensures
        r@ == le_bytes(v as int, n as nat),
{
    let mut out: Vec<u8> = Vec::new();
    let mut rest: u128 = v;
    let mut i: usize = 0;
    while i < n
        invariant
            i <= n,
            le_bytes(v as int, n as nat) == out@ + le_bytes(rest as int, (n - i) as nat),
        decreases n - i,
    {
        let ghost before = out@;
        out.push((rest % 256) as u8);
        assert(out@ + le_bytes(rest as int / 256, (n - i - 1) as nat) =~= before + (
        seq![(rest as int % 256) as u8] + le_bytes(rest as int / 256, (n - i - 1) as nat)));
        rest = rest / 256;
        i += 1;
    }
    assert(out@ + Seq::<u8>::empty() =~= out@);
    out
}

/// The number that a little-endian byte string of at most 16 bytes stands for.
pub fn from_le_bytes(b: &[u8]) -> (r: u128)
    requires
        b@.len() <= 16,
    ensures
        r == le_value(b@),
{
    let mut acc: u128 = 0;
    let mut i: usize = b.len();
    assert(b@.skip(i as int) =~= Seq::<u8>::empty());
    assert(pow(256, 16) == 0x1_0000_0000_0000_0000_0000_0000_0000_0000) by {
        reveal_with_fuel(pow, 17);
    }
    while i > 0
        invariant
            i <= b@.len() <= 16,
            acc == le_value(b@.skip(i as int)),
            pow(256, 16) == 0x1_0000_0000_0000_0000_0000_0000_0000_0000,
        decreases i,
    {
        let ghost tail = b@.skip(i as int);
        i -= 1;
        proof {
            assert(b@.skip(i as int).drop_first() =~= tail);
            lemma_le_value_bound(b@.skip(i as int));
            lemma_pow_increases(256, (b@.len() - i) as nat, 16);
        }
        acc = b[i] as u128 + 256 * acc;
    }
    assert(b@.skip(0) =~= b@);
    acc
}

/// Each byte of a number is the digit to the base 256 that stands at its place, the least
/// significant first.
pub proof fn law_le_bytes(v: int, n: nat, i: int)
    requires
        v >= 0,
        0 <= i < n,
    ensures
        le_bytes(v, n).len() == n,
        le_bytes(v, n)[i] as int == (v / pow(256, i as nat)) % 256,
    decreases n,
{
    lemma_le_bytes_len(v, n);
    lemma_pow0(256);
    if i > 0 {
        let c = pow(256, (i - 1) as nat);
        law_le_bytes(v / 256, (n - 1) as nat, i - 1);
        lemma_pow_positive(256, (i - 1) as nat);
        lemma_pow_step(256, (i - 1) as nat);
        lemma_div_denominator(v, 256, c);
        assert(le_bytes(v, n)[i] == le_bytes(v / 256, (n - 1) as nat)[i - 1]);
    }
}

/// The number that a byte string stands for has the bytes as its digits to the base 256, the
/// first one being the least significant, and no others.
pub proof fn law_le_value(b: Seq<u8>)
    ensures
        0 <= le_value(b) < pow(256, b.len()),
        forall|i: int|
            0 <= i < b.len() ==> (le_value(b) / pow(256, i as nat)) % 256 == #[trigger] b[i] as int,
{
    lemma_le_value_bound(b);
    lemma_le_bytes_of_value(b);
    assert forall|i: int| 0 <= i < b.len() implies (le_value(b) / pow(256, i as nat)) % 256
        == #[trigger] b[i] as int by {
        law_le_bytes(le_value(b), b.len(), i);
    }
}

} // verus!

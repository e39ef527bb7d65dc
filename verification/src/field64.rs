//! The field of `2^64 - 2^32 + 1` elements.
use vstd::prelude::*;

verus! {

use vstd::arithmetic::power::pow;
use vstd::arithmetic::power2::{
    lemma2_to64, lemma_pow2_adds, lemma_pow2_strictly_increases, lemma_pow2_unfold, pow2,
};
use crate::arith::lemma_residue;
use crate::field::FieldElement;

/// The modulus.
pub const FIELD64_MODULUS: u64 = 18446744069414584321;

/// A generator of the subgroup of order `2^32`.
pub const FIELD64_GENERATOR: u64 = 1753635133440165772;

/// An element of the field of `2^64 - 2^32 + 1` elements.
#[derive(Clone, Copy, Debug, PartialEq, Eq)]
pub struct Field64 {
    v: u64,
}

impl Field64 {
    #[verifier::type_invariant]
    spec fn canonical(self) -> bool {
        self.v < FIELD64_MODULUS
    }
}

/// The square of an element.
pub open spec fn field64_square(x: int) -> int {
    x * x % 18446744069414584321
}

/// The principal `2^l`-th root of unity: the generator, squared `32 - l` times.
pub open spec fn field64_root(l: nat) -> int
    decreases 32 - l,
{
    if l >= 32 {
        FIELD64_GENERATOR as int
    } else {
        field64_square(field64_root(l + 1))
    }
}

impl FieldElement for Field64 {
    type Integer = u64;

    open spec fn modulus() -> int {
        FIELD64_MODULUS as int
    }

    open spec fn encoded_size_spec() -> nat {
        8
    }

    open spec fn num_roots() -> nat {
        32
    }

    open spec fn root_val(l: nat) -> int {
        field64_root(l)
    }

    open spec fn integer_val(i: u64) -> int {
        i as int
    }

    closed spec fn val(&self) -> int {
        self.v as int % (FIELD64_MODULUS as int)
    }

    proof fn lemma_field() {
        reveal_with_fuel(pow, 9);
        lemma2_to64();
        let n = pow2(Self::num_roots());
        assert(n == 0x1_0000_0000);
        assert((n + 1) * (n + 1) == n * n + 2 * n + 1) by (nonlinear_arith);
        assert(n * n == 0x1_0000_0000 * n) by (nonlinear_arith)
            requires
                n == 0x1_0000_0000,
        ;
    }

    proof fn lemma_val(&self) {
    }

    proof fn lemma_integer(i: u64) {
    }

    proof fn lemma_roots(l: nat) {
        assert(field64_square(1753635133440165772) == 4614640910117430873);
        assert(field64_square(4614640910117430873) == 9123114210336311365);
        assert(field64_square(9123114210336311365) == 16116352524544190054);
        assert(field64_square(16116352524544190054) == 6414415596519834757);
        assert(field64_square(6414415596519834757) == 1213594585890690845);
        assert(field64_square(1213594585890690845) == 17096174751763063430);
        assert(field64_square(17096174751763063430) == 5456943929260765144);
        assert(field64_square(5456943929260765144) == 9713644485405565297);
        assert(field64_square(9713644485405565297) == 16905767614792059275);
        assert(field64_square(16905767614792059275) == 5416168637041100469);
        assert(field64_square(5416168637041100469) == 17654865857378133588);
        assert(field64_square(17654865857378133588) == 3511170319078647661);
        assert(field64_square(3511170319078647661) == 18146160046829613826);
        assert(field64_square(18146160046829613826) == 9306717745644682924);
        assert(field64_square(9306717745644682924) == 12380578893860276750);
        assert(field64_square(12380578893860276750) == 6115771955107415310);
        assert(field64_square(6115771955107415310) == 17776499369601055404);
        assert(field64_square(17776499369601055404) == 16207902636198568418);
        assert(field64_square(16207902636198568418) == 1532612707718625687);
        assert(field64_square(1532612707718625687) == 17492915097719143606);
        assert(field64_square(17492915097719143606) == 455906449640507599);
        assert(field64_square(455906449640507599) == 11353340290879379826);
        assert(field64_square(11353340290879379826) == 1803076106186727246);
        assert(field64_square(1803076106186727246) == 13797081185216407910);
        assert(field64_square(13797081185216407910) == 17870292113338400769);
        assert(field64_square(17870292113338400769) == 549755813888);
        assert(field64_square(549755813888) == 70368744161280);
        assert(field64_square(70368744161280) == 17293822564807737345);
        assert(field64_square(17293822564807737345) == 18446744069397807105);
        assert(field64_square(18446744069397807105) == 281474976710656);
        assert(field64_square(281474976710656) == 18446744069414584320);
        reveal_with_fuel(field64_root, 33);
    }

    fn encoded_size() -> (r: usize) {
        8
    }

    fn integer_to_u128(i: u64) -> (r: u128) {
        i as u128
    }

    fn valid_integer_bitlength(bits: usize) -> (r: bool) {
        proof {
            lemma2_to64();
            lemma_pow2_adds(63, 64);
            lemma_pow2_adds(64, 64);
            if bits < 63 {
                lemma_pow2_strictly_increases(bits as nat, 63);
            } else if bits > 64 {
                lemma_pow2_strictly_increases(64, bits as nat);
            }
            lemma_pow2_unfold(64);
        }
        bits < 64
    }

    fn from_canonical(x: u128) -> (r: Option<Self>) {
        if x < FIELD64_MODULUS as u128 {
            proof {
                lemma_residue(x as int, FIELD64_MODULUS as int);
            }
            Some(Field64 { v: x as u64 })
        } else {
            None
        }
    }

    fn to_u128(&self) -> (r: u128) {
        proof {
            use_type_invariant(self);
        }
        self.v as u128
    }

    fn zero() -> (r: Self) {
        Field64 { v: 0 }
    }

    fn one() -> (r: Self) {
        Field64 { v: 1 }
    }

    fn add(&self, other: &Self) -> (r: Self) {
        proof {
            use_type_invariant(self);
            use_type_invariant(other);
        }
        Field64 { v: ((self.v as u128 + other.v as u128) % (FIELD64_MODULUS as u128)) as u64 }
    }

    fn sub(&self, other: &Self) -> (r: Self) {
        proof {
            use_type_invariant(self);
            use_type_invariant(other);
        }
        if self.v >= other.v {
            Field64 { v: self.v - other.v }
        } else {
            Field64 { v: FIELD64_MODULUS - (other.v - self.v) }
        }
    }

    fn mul(&self, other: &Self) -> (r: Self) {
        proof {
            use_type_invariant(self);
            use_type_invariant(other);
            assert(self.v * other.v <= u128::MAX) by (nonlinear_arith)
                requires
                    self.v <= u64::MAX,
                    other.v <= u64::MAX,
            ;
        }
        Field64 { v: ((self.v as u128 * other.v as u128) % (FIELD64_MODULUS as u128)) as u64 }
    }

    fn divide_modulus(n: u8) -> (r: (Self, u8)) {
        let q: u64 = FIELD64_MODULUS / (n as u64);
        proof {
            assert(q < FIELD64_MODULUS) by (nonlinear_arith)
                requires
                    q == FIELD64_MODULUS / (n as u64),
                    n >= 2,
            ;
        }
        (Field64 { v: q }, (FIELD64_MODULUS % (n as u64)) as u8)
    }

    fn root(l: usize) -> (r: Self) {
        let mut w = Field64 { v: FIELD64_GENERATOR };
        let mut i: usize = 32;
        while i > l
            invariant
                l <= i <= 32,
                w.val() == field64_root(i as nat),
            decreases i,
        {
            w = w.mul(&w);
            i -= 1;
        }
        w
    }
}

/// The field has `2^64 - 2^32 + 1` elements, which are encoded in 8 bytes, and machine integers
/// stand for themselves.
pub proof fn law_field64(i: u64)
    ensures
        Field64::modulus() == 18446744069414584321,
        Field64::encoded_size_spec() == 8,
        Field64::integer_val(i) == i,
        Field64::num_roots() == 32,
        Field64::root_val(32) == 1753635133440165772,
{
}

} // verus!

//! Prime fields with a large multiplicative subgroup of two-power order.
use vstd::prelude::*;

verus! {

use vstd::arithmetic::power::{lemma_pow1, pow};
use vstd::arithmetic::power2::{lemma2_to64, lemma_pow2_unfold, pow2};
use vstd::arithmetic::div_mod::{lemma_fundamental_div_mod, lemma_mod_bound};
use crate::arith::{
    cong, lemma_cong_from, lemma_cong_mod, lemma_cong_mul, lemma_cong_pow, lemma_cong_sub,
    lemma_pow_square, lemma_residue,
};
use crate::prime::{is_prime, lemma_prime_from_root};
use crate::bytes::{
    from_le_bytes, law_le_bytes, le_bytes, le_value, lemma_le_bytes_len, to_le_bytes,
};

/// An element of a prime field.
///
/// `val` is the element's canonical representative, an integer in
/// `[0, modulus())`; the operations are described over it.
pub trait FieldElement: Sized + Copy {
    /// The machine integer that measurements over this field are given in.
    type Integer: Copy;

    /// The number of elements of the field.
    spec fn modulus() -> int;

    /// The number of bytes of an encoded element.
    spec fn encoded_size_spec() -> nat;

    /// The field holds principal `2^l`-th roots of unity for every `l` up to this number.
    spec fn num_roots() -> nat;

    /// The canonical representative of the principal `2^l`-th root of unity.
    spec fn root_val(l: nat) -> int;

    /// The number that a machine integer stands for.
    spec fn integer_val(i: Self::Integer) -> int;

    /// The canonical representative.
    spec fn val(&self) -> int;

    /// The modulus is odd and fits the encoding, and the subgroups of two-power order are large
    /// enough for every supported circuit and for showing that the modulus is prime. The modulus is
    /// more than twice as large as the largest of them.
    proof fn lemma_field()
        ensures
            Self::modulus() % 2 == 1,
            Self::modulus() > 255,
            Self::modulus() <= 0x1_0000_0000_0000_0000_0000_0000_0000_0000,
            0 < Self::encoded_size_spec() <= 16,
            Self::modulus() <= pow(256, Self::encoded_size_spec()),
            Self::num_roots() >= 32,
            Self::modulus() < (pow2(Self::num_roots()) + 1) * (pow2(Self::num_roots()) + 1),
            Self::modulus() > 2 * pow2(Self::num_roots()),
    ;

    proof fn lemma_val(&self)
        ensures
            0 <= self.val() < Self::modulus(),
    ;

    proof fn lemma_integer(i: Self::Integer)
        ensures
            0 <= Self::integer_val(i) <= u128::MAX,
    ;

    /// Each root is a square root of the one before it, and the first is minus one.
    proof fn lemma_roots(l: nat)
        requires
            1 <= l <= Self::num_roots(),
        ensures
            Self::root_val(l) * Self::root_val(l) % Self::modulus() == Self::root_val(
                (l - 1) as nat,
            ),
            Self::root_val(1) == Self::modulus() - 1,
    ;

    /// The number of bytes of an encoded element.
    fn encoded_size() -> (r: usize)
        ensures
            r == Self::encoded_size_spec(),
    ;

    /// The number that a machine integer stands for.
    fn integer_to_u128(i: Self::Integer) -> (r: u128)
        ensures
            r == Self::integer_val(i),
    ;

    /// Every number of `bits` bits is the representative of an element.
    fn valid_integer_bitlength(bits: usize) -> (r: bool)
        ensures
            r == (pow2(bits as nat) <= Self::modulus()),
    ;

    /// The element whose representative is `x`, or `None` if `x` is no representative.
    fn from_canonical(x: u128) -> (r: Option<Self>)
        ensures
            r is Some <==> (x as int) < Self::modulus(),
            r matches Some(e) ==> e.val() == x,
    ;

    /// The canonical representative.
    fn to_u128(&self) -> (r: u128)
        ensures
            r == self.val(),
    ;

    fn zero() -> (r: Self)
        ensures
            r.val() == 0,
    ;

    fn one() -> (r: Self)
        ensures
            r.val() == 1,
    ;

    fn add(&self, other: &Self) -> (r: Self)
        ensures
            r.val() == (self.val() + other.val()) % Self::modulus(),
    ;

    fn sub(&self, other: &Self) -> (r: Self)
        ensures
            r.val() == (self.val() - other.val()) % Self::modulus(),
    ;

    fn mul(&self, other: &Self) -> (r: Self)
        ensures
            r.val() == (self.val() * other.val()) % Self::modulus(),
    ;

    /// The quotient of the modulus by `n`, as an element, and the remainder.
    fn divide_modulus(n: u8) -> (r: (Self, u8))
        requires
            n >= 2,
        ensures
            r.0.val() == Self::modulus() / (n as int),
            r.1 == Self::modulus() % (n as int),
    ;

    /// The principal `2^l`-th root of unity.
    fn root(l: usize) -> (r: Self)
        requires
            l <= Self::num_roots(),
        ensures
            r.val() == Self::root_val(l as nat),
    ;
}

/// The representatives of a sequence of elements.
pub open spec fn vals<F: FieldElement>(s: Seq<F>) -> Seq<int> {
    Seq::new(s.len(), |i: int| s[i].val())
}

/// The canonical encoding of a sequence of representatives: each of them little endian, one
/// after the other.
pub open spec fn encode_vals(s: Seq<int>, size: nat) -> Seq<u8>
    decreases s.len(),
{
    if s.len() == 0 {
        Seq::empty()
    } else {
        encode_vals(s.drop_last(), size) + le_bytes(s.last(), size)
    }
}

/// An integer that multiplied with `n` gives one modulo `p`, for a `p` that no number from 2
/// to `n` divides.
pub open spec fn inverse(n: int, p: int) -> int
    decreases n,
{
    if n <= 1 {
        1
    } else {
        if 0 <= p % n < n {
            -(p / n) * inverse(p % n, p)
        } else {
            0
        }
    }
}

pub proof fn lemma_inverse(n: int, p: int)
    requires
        1 <= n < p,
        forall|k: int| 2 <= k <= n ==> #[trigger] (p % k) != 0,
    ensures
        cong(n * inverse(n, p), 1, p),
    decreases n,
{
    if n > 1 {
        lemma_mod_bound(p, n);
        let r = p % n;
        let q = p / n;
        let i = inverse(r, p);
        assert(p % n != 0);
        lemma_inverse(r, p);
        lemma_fundamental_div_mod(p, n);
        assert(n * (-q * i) == r * i + p * (-i)) by (nonlinear_arith)
            requires
                p == n * q + r,
        ;
        lemma_cong_from(n * inverse(n, p), r * i, -i, p);
    }
}

/// The representative of the inverse of two.
pub open spec fn half_val<F: FieldElement>() -> int {
    (F::modulus() + 1) / 2
}

pub proof fn lemma_half<F: FieldElement>()
    ensures
        cong(2 * half_val::<F>(), 1, F::modulus()),
        0 <= half_val::<F>() < F::modulus(),
{
    F::lemma_field();
    lemma_cong_from(2 * half_val::<F>(), 1, 1, F::modulus());
}

/// The principal `2^l`-th root of unity, raised to `2^(l-1)`, is minus one.
pub proof fn lemma_root_order<F: FieldElement>(l: nat)
    requires
        1 <= l <= F::num_roots(),
    ensures
        cong(pow(F::root_val(l), pow2((l - 1) as nat)), -1, F::modulus()),
        cong(pow(F::root_val(l), pow2(l)), 1, F::modulus()),
    decreases l,
{
    let p = F::modulus();
    let w = F::root_val(l);
    F::lemma_field();
    F::lemma_roots(l);
    lemma2_to64();
    let h = pow2((l - 1) as nat);
    if l == 1 {
        lemma_pow1(w);
        lemma_cong_from(w, -1, 1, p);
    } else {
        lemma_root_order::<F>((l - 1) as nat);
        lemma_pow2_unfold((l - 1) as nat);
        let h2 = pow2((l - 2) as nat);
        lemma_pow_square(w, h2);
        lemma_cong_mod(w * w, p);
        lemma_cong_pow(w * w, F::root_val((l - 1) as nat), h2, p);
    }
    lemma_pow2_unfold(l);
    lemma_pow_square(w, h);
    lemma_cong_mul(pow(w, h), -1, pow(w, h), -1, p);
}

/// The modulus is prime.
pub proof fn lemma_prime<F: FieldElement>()
    ensures
        is_prime(F::modulus()),
{
    F::lemma_field();
    lemma_root_order::<F>(F::num_roots());
    lemma_prime_from_root(F::modulus(), F::root_val(F::num_roots()), F::num_roots());
}

/// The inverse of a small number of the field: the share of one that each of `n` parties holds.
pub fn share_of_one<F: FieldElement>(n: u8) -> (r: F)
    requires
        n >= 1,
    ensures
        r.val() == inverse(n as int, F::modulus()) % F::modulus(),
    decreases n,
{
    proof {
        F::lemma_field();
        lemma_prime::<F>();
    }
    let ghost p = F::modulus();
    if n == 1 {
        proof {
            lemma_residue(1, p);
        }
        F::one()
    } else {
        let (q, rem) = F::divide_modulus(n);
        proof {
            assert(p % (n as int) != 0);
            lemma_mod_bound(p, n as int);
        }
        let i: F = share_of_one(rem);
        let t = q.mul(&i);
        proof {
            let iv = inverse(rem as int, p);
            lemma_cong_mod(iv, p);
            lemma_cong_mul(q.val(), q.val(), i.val(), iv, p);
            lemma_cong_mod(q.val() * i.val(), p);
            lemma_cong_sub(0, 0, t.val(), q.val() * iv, p);
            assert(-(p / (n as int)) * iv == 0 - q.val() * iv) by (nonlinear_arith)
                requires
                    q.val() == p / (n as int),
            ;
        }
        F::zero().sub(&t)
    }
}

/// The inverse of two.
pub fn half<F: FieldElement>() -> (r: F)
    ensures
        r.val() == half_val::<F>(),
{
    let h: F = share_of_one(2);
    proof {
        F::lemma_field();
        lemma_prime::<F>();
        lemma_half::<F>();
        let p = F::modulus();
        assert(p % 2 != 0);
        lemma_inverse(2, p);
        let a = inverse(2, p);
        let hv = half_val::<F>();
        // a == a * (2 * hv) == (a * 2) * hv == hv
        lemma_cong_mul(a, a, 2 * hv, 1, p);
        lemma_cong_mul(2 * a, 1, hv, hv, p);
        assert(a * (2 * hv) == (2 * a) * hv) by (nonlinear_arith);
        lemma_residue(hv, p);
    }
    h
}

/// The canonical encoding of one element.
pub fn encode_element<F: FieldElement>(x: &F) -> (r: Vec<u8>)
    ensures
        r@ == le_bytes(x.val(), F::encoded_size_spec()),
{
    to_le_bytes(x.to_u128(), F::encoded_size())
}

/// The element that `bytes` encodes, or `None` if the number in `bytes` is no representative.
pub fn decode_element<F: FieldElement>(bytes: &[u8]) -> (r: Option<F>)
    requires
        bytes@.len() == F::encoded_size_spec(),
    ensures
        r is Some <==> le_value(bytes@) < F::modulus(),
        r matches Some(e) ==> e.val() == le_value(bytes@),
{
    proof {
        F::lemma_field();
    }
    F::from_canonical(from_le_bytes(bytes))
}

/// An encoded vector consists of the digits of its entries to the base 256: each entry takes up
/// the same number of bytes, one entry after the other, the least significant byte first.
pub proof fn law_encode_vals(s: Seq<int>, size: nat)
    requires
        forall|k: int| 0 <= k < s.len() ==> #[trigger] s[k] >= 0,
    ensures
        encode_vals(s, size).len() == s.len() * size,
        forall|k: int, j: int|
            0 <= k < s.len() && 0 <= j < size ==> #[trigger] encode_vals(s, size)[k * size + j]
                as int == (s[k] / pow(256, j as nat)) % 256,
    decreases s.len(),
{
    let e = encode_vals(s, size);
    if s.len() == 0 {
        assert(0 * size == 0) by (nonlinear_arith);
    } else {
        let n = s.len() - 1;
        let (t, last) = (s.drop_last(), s.last());
        let et = encode_vals(t, size);
        law_encode_vals(t, size);
        lemma_le_bytes_len(last, size);
        assert((n + 1) * size == n * size + size) by (nonlinear_arith);
        assert forall|k: int, j: int| 0 <= k < s.len() && 0 <= j < size implies #[trigger] e[k
            * size + j] as int == (s[k] / pow(256, j as nat)) % 256 by {
            if k < n {
                assert(0 <= k * size + j < n * size) by (nonlinear_arith)
                    requires
                        0 <= k,
                        k + 1 <= n,
                        0 <= j < size,
                ;
                assert(e[k * size + j] == et[k * size + j]);
                assert(t[k] == s[k]);
            } else {
                law_le_bytes(last, size, j);
                assert(e[k * size + j] == le_bytes(last, size)[j]);
            }
        }
    }
}

/// The representatives of several elements are those of each of them, in their order.
pub proof fn law_vals<F: FieldElement>(s: Seq<F>)
    ensures
        vals(s).len() == s.len(),
        forall|i: int| 0 <= i < s.len() ==> #[trigger] vals(s)[i] == s[i].val(),
{
}

} // verus!

//! The field of `2^128 - 7 * 2^66 + 1` elements.
use vstd::prelude::*;

verus! {

use vstd::arithmetic::power::pow;
use vstd::arithmetic::power2::{
    lemma2_to64, lemma_pow2_adds, lemma_pow2_strictly_increases, lemma_pow2_unfold, pow2,
};
use crate::arith::{cong, lemma_cong_from, lemma_residue};
use crate::field::FieldElement;

/// The modulus.
pub const FIELD128_MODULUS: u128 = 340282366920938462946865773367900766209;

/// `2^128` less the modulus.
const FIELD128_EXCESS: u128 = 516508834063867445247;

const TWO_64: u128 = 0x1_0000_0000_0000_0000;

/// A generator of the subgroup of order `2^66`.
pub const FIELD128_GENERATOR: u128 = 145091266659756586618791329697897684742;

/// An element of the field of `2^128 - 7 * 2^66 + 1` elements.
#[derive(Clone, Copy, Debug, PartialEq, Eq)]
pub struct Field128 {
    v: u128,
}

impl Field128 {
    #[verifier::type_invariant]
    spec fn canonical(self) -> bool {
        self.v < FIELD128_MODULUS
    }
}

/// The square of an element.
pub open spec fn field128_square(x: int) -> int {
    x * x % 340282366920938462946865773367900766209
}

/// The principal `2^l`-th root of unity: the generator, squared `66 - l` times.
pub open spec fn field128_root(l: nat) -> int
    decreases 66 - l,
{
    if l >= 66 {
        FIELD128_GENERATOR as int
    } else {
        field128_square(field128_root(l + 1))
    }
}

/// The product of two numbers, as its high and low halves.
fn mul_wide(a: u128, b: u128) -> (r: (u128, u128))
    ensures
        a * b == r.0 * 0x1_0000_0000_0000_0000_0000_0000_0000_0000 + r.1,
{
    let (a1, a0): (u128, u128) = (a / TWO_64, a % TWO_64);
    let (b1, b0): (u128, u128) = (b / TWO_64, b % TWO_64);
    proof {
        assert(0 <= a0 * b0 <= (TWO_64 - 1) * (TWO_64 - 1)) by (nonlinear_arith)
            requires
                0 <= a0 < TWO_64,
                0 <= b0 < TWO_64,
        ;
        assert(0 <= a0 * b1 <= (TWO_64 - 1) * (TWO_64 - 1)) by (nonlinear_arith)
            requires
                0 <= a0 < TWO_64,
                0 <= b1 < TWO_64,
        ;
        assert(0 <= a1 * b0 <= (TWO_64 - 1) * (TWO_64 - 1)) by (nonlinear_arith)
            requires
                0 <= a1 < TWO_64,
                0 <= b0 < TWO_64,
        ;
        assert(0 <= a1 * b1 <= (TWO_64 - 1) * (TWO_64 - 1)) by (nonlinear_arith)
            requires
                0 <= a1 < TWO_64,
                0 <= b1 < TWO_64,
        ;
    }
    let low: u128 = a0 * b0;
    let cross0: u128 = a0 * b1;
    let cross1: u128 = a1 * b0;
    let high: u128 = a1 * b1;
    let mid: u128 = low / TWO_64 + cross0 % TWO_64 + cross1 % TWO_64;
    let lo: u128 = (mid % TWO_64) * TWO_64 + low % TWO_64;
    proof {
        assert(a * b == high * 0x1_0000_0000_0000_0000_0000_0000_0000_0000 + (cross0 + cross1) * 0x1_0000_0000_0000_0000 + low)
            by (nonlinear_arith)
            requires
                a == a1 * 0x1_0000_0000_0000_0000 + a0,
                b == b1 * 0x1_0000_0000_0000_0000 + b0,
                low == a0 * b0,
                cross0 == a0 * b1,
                cross1 == a1 * b0,
                high == a1 * b1,
        ;
        let top = high + cross0 / TWO_64 + cross1 / TWO_64 + mid / TWO_64;
        assert(a * b == top * 0x1_0000_0000_0000_0000_0000_0000_0000_0000 + lo);
        assert(a * b <= (0x1_0000_0000_0000_0000_0000_0000_0000_0000 - 1) * (0x1_0000_0000_0000_0000_0000_0000_0000_0000 - 1)) by (nonlinear_arith)
            requires
                0 <= a < 0x1_0000_0000_0000_0000_0000_0000_0000_0000,
                0 <= b < 0x1_0000_0000_0000_0000_0000_0000_0000_0000,
        ;
    }
    let hi: u128 = high + cross0 / TWO_64 + cross1 / TWO_64 + mid / TWO_64;
    (hi, lo)
}

/// The residue of a number given as its high and low halves.
///
/// `2^128` and `FIELD128_EXCESS` are the same residue, so the high half can be folded into
/// the low one until nothing is left of it.
fn reduce_wide(hi: u128, lo: u128) -> (r: u128)
    ensures
        r == (hi * 0x1_0000_0000_0000_0000_0000_0000_0000_0000 + lo) % (FIELD128_MODULUS as int),
        r < FIELD128_MODULUS,
{
    let mut h: u128 = hi;
    let mut l: u128 = lo;
    let ghost p = FIELD128_MODULUS as int;
    let ghost total = hi * 0x1_0000_0000_0000_0000_0000_0000_0000_0000 + lo;
    while h > 0
        invariant
            p == FIELD128_MODULUS,
            cong(h * 0x1_0000_0000_0000_0000_0000_0000_0000_0000 + l, total, p),
        decreases h * 0x1_0000_0000_0000_0000_0000_0000_0000_0000 + l,
    {
        let (h2, l2) = mul_wide(h, FIELD128_EXCESS);
        let ghost (h0, l0) = (h, l);
        proof {
            assert(h * FIELD128_EXCESS + l < h * 0x1_0000_0000_0000_0000_0000_0000_0000_0000 + l) by (nonlinear_arith)
                requires
                    h > 0,
                    FIELD128_EXCESS < 0x1_0000_0000_0000_0000_0000_0000_0000_0000,
            ;
            assert(h2 < u128::MAX) by (nonlinear_arith)
                requires
                    h * FIELD128_EXCESS == h2 * 0x1_0000_0000_0000_0000_0000_0000_0000_0000 + l2,
                    0 <= h < 0x1_0000_0000_0000_0000_0000_0000_0000_0000,
                    FIELD128_EXCESS < 0x1_0000_0000_0000_0000_0000_0000,
                    l2 >= 0,
            ;
            assert(h * 0x1_0000_0000_0000_0000_0000_0000_0000_0000 + l == h * FIELD128_EXCESS + l + p * h) by (nonlinear_arith)
                requires
                    0x1_0000_0000_0000_0000_0000_0000_0000_0000 == FIELD128_EXCESS + p,
            ;
            lemma_cong_from(h * 0x1_0000_0000_0000_0000_0000_0000_0000_0000 + l, h * FIELD128_EXCESS + l, h as int, p);
        }
        if l2 > u128::MAX - l {
            h = h2 + 1;
            l = l2 - (u128::MAX - l) - 1;
        } else {
            h = h2;
            l = l2 + l;
        }
        assert(h * 0x1_0000_0000_0000_0000_0000_0000_0000_0000 + l == h0 * FIELD128_EXCESS + l0);
    }
    if l >= FIELD128_MODULUS {
        l = l - FIELD128_MODULUS;
        proof {
            lemma_cong_from(l as int, l + p, -1, p);
        }
    }
    proof {
        lemma_residue(l as int, p);
    }
    l
}

impl FieldElement for Field128 {
    type Integer = u128;

    open spec fn modulus() -> int {
        FIELD128_MODULUS as int
    }

    open spec fn encoded_size_spec() -> nat {
        16
    }

    open spec fn num_roots() -> nat {
        66
    }

    open spec fn root_val(l: nat) -> int {
        field128_root(l)
    }

    open spec fn integer_val(i: u128) -> int {
        i as int
    }

    closed spec fn val(&self) -> int {
        self.v as int % (FIELD128_MODULUS as int)
    }

    proof fn lemma_field() {
        reveal_with_fuel(pow, 17);
        lemma2_to64();
        lemma_pow2_adds(64, 2);
        let n = pow2(Self::num_roots());
        assert(n == 0x4_0000_0000_0000_0000);
        assert((n + 1) * (n + 1) == n * n + 2 * n + 1) by (nonlinear_arith);
        assert(n * n == 0x4_0000_0000_0000_0000 * n) by (nonlinear_arith)
            requires
                n == 0x4_0000_0000_0000_0000,
        ;
    }

    proof fn lemma_val(&self) {
    }

    proof fn lemma_integer(i: u128) {
    }

    #[verifier::rlimit(60)]
    #[verifier::spinoff_prover]
    proof fn lemma_roots(l: nat) {
        assert(field128_square(145091266659756586618791329697897684742) == 86625320208583566086826203984317585024);
        assert(field128_square(86625320208583566086826203984317585024) == 311886411077723284703901582682233664808);
        assert(field128_square(311886411077723284703901582682233664808) == 100456552961230745129130100547471902317);
        assert(field128_square(100456552961230745129130100547471902317) == 120623656016030334670045309349000121687);
        assert(field128_square(120623656016030334670045309349000121687) == 193986265507002547199640545612671314457);
        assert(field128_square(193986265507002547199640545612671314457) == 8113803720761984513834422645264943178);
        assert(field128_square(8113803720761984513834422645264943178) == 103092366084974087736042506450776252795);
        assert(field128_square(103092366084974087736042506450776252795) == 326319039648717633123606039734865546772);
        assert(field128_square(326319039648717633123606039734865546772) == 165426264980336397945438772700940880811);
        assert(field128_square(165426264980336397945438772700940880811) == 320700491280423486116039102908266308247);
        assert(field128_square(320700491280423486116039102908266308247) == 15969955439487489491340182655538118918);
        assert(field128_square(15969955439487489491340182655538118918) == 231903488175481704286424705201049120989);
        assert(field128_square(231903488175481704286424705201049120989) == 330139941075877292379205440111229355003);
        assert(field128_square(330139941075877292379205440111229355003) == 102054183934057294722319268856311633136);
        assert(field128_square(102054183934057294722319268856311633136) == 215288127941631455376249369110897644368);
        assert(field128_square(215288127941631455376249369110897644368) == 168592440810298607532676059676794073283);
        assert(field128_square(168592440810298607532676059676794073283) == 11527933618270417271153319037870510680);
        assert(field128_square(11527933618270417271153319037870510680) == 134362479177651918469895907702663350227);
        assert(field128_square(134362479177651918469895907702663350227) == 74607240671693018256114645921460412444);
        assert(field128_square(74607240671693018256114645921460412444) == 334148062884068942674517408093273723893);
        assert(field128_square(334148062884068942674517408093273723893) == 103391040357211099386554923247963290919);
        assert(field128_square(103391040357211099386554923247963290919) == 99666088690084148870055939366877902695);
        assert(field128_square(99666088690084148870055939366877902695) == 289561285648662405709988593885012044911);
        assert(field128_square(289561285648662405709988593885012044911) == 318535357410237596781192254130144348528);
        assert(field128_square(318535357410237596781192254130144348528) == 159346507187555487195719333287403366737);
        assert(field128_square(159346507187555487195719333287403366737) == 155922031875079272327617044971662535247);
        assert(field128_square(155922031875079272327617044971662535247) == 156463924233492022818011865070294338019);
        assert(field128_square(156463924233492022818011865070294338019) == 31769637856510632840609960425458956649);
        assert(field128_square(31769637856510632840609960425458956649) == 287838268957986932976524821991315335278);
        assert(field128_square(287838268957986932976524821991315335278) == 208247103343522621288279093603539219811);
        assert(field128_square(208247103343522621288279093603539219811) == 200467131140562697033943509875939614498);
        assert(field128_square(200467131140562697033943509875939614498) == 19174378191971045916276784955566357679);
        assert(field128_square(19174378191971045916276784955566357679) == 274676736149104596651512253707399987304);
        assert(field128_square(274676736149104596651512253707399987304) == 64696717124614176587478565245026814591);
        assert(field128_square(64696717124614176587478565245026814591) == 240132284097975523489668647485403010041);
        assert(field128_square(240132284097975523489668647485403010041) == 145432500667824378249016714272415453571);
        assert(field128_square(145432500667824378249016714272415453571) == 298353500773512692450176587485452064553);
        assert(field128_square(298353500773512692450176587485452064553) == 270548877918352914568302939620931546028);
        assert(field128_square(270548877918352914568302939620931546028) == 340016569969094368294240872476617898097);
        assert(field128_square(340016569969094368294240872476617898097) == 135965727464040418926996694396031446391);
        assert(field128_square(135965727464040418926996694396031446391) == 117085996218356758227256787041360254830);
        assert(field128_square(117085996218356758227256787041360254830) == 332064765402393997366770722859577891805);
        assert(field128_square(332064765402393997366770722859577891805) == 228559068280161436879543619393492845001);
        assert(field128_square(228559068280161436879543619393492845001) == 230098631070884707291510166521957912442);
        assert(field128_square(230098631070884707291510166521957912442) == 21022521936390201372706724542698581485);
        assert(field128_square(21022521936390201372706724542698581485) == 226945609434932365251557460011480688541);
        assert(field128_square(226945609434932365251557460011480688541) == 57121312379300619600318677664786743754);
        assert(field128_square(57121312379300619600318677664786743754) == 271340726413788793770043530061069124228);
        assert(field128_square(271340726413788793770043530061069124228) == 299198373529429211116086663456353592640);
        assert(field128_square(299198373529429211116086663456353592640) == 147080871988918913690578634374576834667);
        assert(field128_square(147080871988918913690578634374576834667) == 335126421064327517058514051787995178667);
        assert(field128_square(335126421064327517058514051787995178667) == 113927287885849408930564061574147684151);
        assert(field128_square(113927287885849408930564061574147684151) == 168312455792500806162843739362957945840);
        assert(field128_square(168312455792500806162843739362957945840) == 133072755800590304806537840801182217618);
        assert(field128_square(133072755800590304806537840801182217618) == 327496357679086322773617020908952188186);
        assert(field128_square(327496357679086322773617020908952188186) == 262214957784317516135383084956054824955);
        assert(field128_square(262214957784317516135383084956054824955) == 209900187991866741754100435606543917556);
        assert(field128_square(209900187991866741754100435606543917556) == 197141068896844615245736127921800600295);
        assert(field128_square(197141068896844615245736127921800600295) == 188322392423650108177730013335772346355);
        assert(field128_square(188322392423650108177730013335772346355) == 71091572554006798545592074489980172409);
        assert(field128_square(71091572554006798545592074489980172409) == 164768177341742407652166710271521887468);
        assert(field128_square(164768177341742407652166710271521887468) == 277977706631875512274059312402750455572);
        assert(field128_square(277977706631875512274059312402750455572) == 139471514523600095951509360044160107293);
        assert(field128_square(139471514523600095951509360044160107293) == 296799510782421792440573396836765619039);
        assert(field128_square(296799510782421792440573396836765619039) == 340282366920938462946865773367900766208);
        reveal_with_fuel(field128_root, 67);
    }

    fn encoded_size() -> (r: usize) {
        16
    }

    fn integer_to_u128(i: u128) -> (r: u128) {
        i
    }

    fn valid_integer_bitlength(bits: usize) -> (r: bool) {
        proof {
            lemma2_to64();
            lemma_pow2_adds(63, 64);
            lemma_pow2_adds(64, 64);
            if bits < 127 {
                lemma_pow2_strictly_increases(bits as nat, 127);
            } else if bits > 128 {
                lemma_pow2_strictly_increases(128, bits as nat);
            }
            lemma_pow2_unfold(128);
        }
        bits < 128
    }

    fn from_canonical(x: u128) -> (r: Option<Self>) {
        if x < FIELD128_MODULUS {
            proof {
                lemma_residue(x as int, FIELD128_MODULUS as int);
            }
            Some(Field128 { v: x })
        } else {
            None
        }
    }

    fn to_u128(&self) -> (r: u128) {
        proof {
            use_type_invariant(self);
        }
        self.v
    }

    fn zero() -> (r: Self) {
        Field128 { v: 0 }
    }

    fn one() -> (r: Self) {
        Field128 { v: 1 }
    }

    fn add(&self, other: &Self) -> (r: Self) {
        proof {
            use_type_invariant(self);
            use_type_invariant(other);
        }
        let room: u128 = FIELD128_MODULUS - other.v;
        if self.v >= room {
            Field128 { v: self.v - room }
        } else {
            Field128 { v: self.v + other.v }
        }
    }

    fn sub(&self, other: &Self) -> (r: Self) {
        proof {
            use_type_invariant(self);
            use_type_invariant(other);
        }
        if self.v >= other.v {
            Field128 { v: self.v - other.v }
        } else {
            Field128 { v: FIELD128_MODULUS - (other.v - self.v) }
        }
    }

    fn mul(&self, other: &Self) -> (r: Self) {
        proof {
            use_type_invariant(self);
            use_type_invariant(other);
        }
        let (hi, lo) = mul_wide(self.v, other.v);
        Field128 { v: reduce_wide(hi, lo) }
    }

    fn divide_modulus(n: u8) -> (r: (Self, u8)) {
        let q: u128 = FIELD128_MODULUS / (n as u128);
        proof {
            assert(q < FIELD128_MODULUS) by (nonlinear_arith)
                requires
                    q == FIELD128_MODULUS / (n as u128),
                    n >= 2,
            ;
        }
        (Field128 { v: q }, (FIELD128_MODULUS % (n as u128)) as u8)
    }

    fn root(l: usize) -> (r: Self) {
        let mut w = Field128 { v: FIELD128_GENERATOR };
        let mut i: usize = 66;
        while i > l
            invariant
                l <= i <= 66,
                w.val() == field128_root(i as nat),
            decreases i,
        {
            w = w.mul(&w);
            i -= 1;
        }
        w
    }
}

/// The field has `2^128 - 7 * 2^66 + 1` elements, which are encoded in 16 bytes, and machine
/// integers stand for themselves.
pub proof fn law_field128(i: u128)
    ensures
        Field128::modulus() == 340282366920938462946865773367900766209,
        Field128::encoded_size_spec() == 16,
        Field128::integer_val(i) == i,
        Field128::num_roots() == 66,
        Field128::root_val(66) == 145091266659756586618791329697897684742,
{
}

} // verus!

//! Binary floating-point arithmetic on bit patterns.
//!
//! An [`F64`] is the 64-bit pattern of an IEEE 754 double.  Every operation
//! is computed on integers: the exact result is formed as a significand and
//! a binary exponent and then rounded once, to nearest with ties to even.
//! The same pixel arithmetic therefore gives the same bytes on every
//! machine.
use vstd::prelude::*;
use vstd::arithmetic::power2::{
    pow2, lemma_pow2_pos, lemma_pow2_unfold, lemma_pow2_adds, lemma_pow2_strictly_increases,
    lemma2_to64, lemma2_to64_rest,
};
use vstd::arithmetic::div_mod::{
    lemma_basic_div, lemma_small_mod, lemma_multiply_divide_lt, lemma_fundamental_div_mod,
    lemma_mod_bound, lemma_div_pos_is_pos,
};
use vstd::arithmetic::mul::{lemma_mul_strict_inequality, lemma_mul_inequality};

verus! {

/// The sign bit of a double.
pub const SIGN_MASK: u64 = 0x8000_0000_0000_0000;

/// `2^52`: the implicit leading bit of a normal significand.
pub const HIDDEN_BIT: u64 = 0x0010_0000_0000_0000;

/// The pattern of positive infinity; every pattern above it (sign aside)
/// is a NaN.
pub const INFINITY_BITS: u64 = 0x7FF0_0000_0000_0000;

/// The NaN that invalid operations return.
pub const NAN_BITS: u64 = 0x7FF8_0000_0000_0000;

/// A double-precision number, held as its bit pattern.
#[derive(Clone, Copy, Debug)]
pub struct F64 {
    pub bits: u64,
}

/// The number of binary digits of `m`: 0 for 0, else `floor(log2 m) + 1`.
pub open spec fn bit_length(m: nat) -> nat
    decreases m,
{
    if m == 0 {
        0
    } else {
        1 + bit_length(m / 2)
    }
}

/// `m / 2^sh`, rounded to the nearest integer, a tie going to the even one.
pub open spec fn round_shift(m: nat, sh: nat) -> nat {
    let q = m / pow2(sh);
    let r = m % pow2(sh);
    if 2 * r > pow2(sh) || (2 * r == pow2(sh) && q % 2 == 1) {
        q + 1
    } else {
        q
    }
}

/// Rounds `m * 2^e` to a significand of at most `p` bits (or `2^p` itself
/// after a carry) over a unit of `2^et`, where `et` is not below `emin`.
/// Returns the significand and `et`.
pub open spec fn round_to(m: nat, e: int, p: nat, emin: int) -> (nat, int) {
    if m == 0 {
        (0, emin)
    } else {
        let top = e + bit_length(m) - p;
        let et = if top > emin { top } else { emin };
        if et <= e {
            (m * pow2((e - et) as nat), et)
        } else {
            (round_shift(m, (et - e) as nat), et)
        }
    }
}

/// The double with significand `sig` (at most `2^53`) over the unit
/// `2^et` (`et` at least -1074), or infinity where that is out of range.
pub open spec fn encode(negative: bool, sig: nat, et: int) -> F64 {
    let mag = (et + 1074) * pow2(52) + sig;
    let mag_bits = if mag >= INFINITY_BITS { INFINITY_BITS } else { mag as u64 };
    F64 { bits: if negative { (mag_bits + SIGN_MASK) as u64 } else { mag_bits } }
}

/// The double nearest to `m * 2^e`, negated if `negative`.
pub open spec fn rounded(negative: bool, m: nat, e: int) -> F64 {
    let (sig, et) = round_to(m, e, 53, -1074);
    encode(negative, sig, et)
}

/// The single-precision number nearest to `m * 2^e`, negated if
/// `negative`, written as a double.
pub open spec fn rounded_single(negative: bool, m: nat, e: int) -> F64 {
    let (sig, et) = round_to(m, e, 24, -149);
    if et + bit_length(sig) > 128 {
        F64 { bits: if negative { (INFINITY_BITS + SIGN_MASK) as u64 } else { INFINITY_BITS } }
    } else {
        rounded(negative, sig, et)
    }
}

/// The result of an operation whose exact value is `m * 2^e`, in the
/// precision asked for.
pub closed spec fn rounded_as(single: bool, negative: bool, m: nat, e: int) -> F64 {
    if single {
        rounded_single(negative, m, e)
    } else {
        rounded(negative, m, e)
    }
}

pub proof fn lemma_bit_length_bounds(m: nat)
    ensures
        m < pow2(bit_length(m)),
        m > 0 ==> pow2((bit_length(m) - 1) as nat) <= m,
    decreases m,
{
    lemma2_to64();
    if m > 0 {
        lemma_bit_length_bounds(m / 2);
        lemma_pow2_unfold(bit_length(m));
        if m / 2 > 0 {
            lemma_pow2_unfold(bit_length(m / 2));
        }
    }
}

pub proof fn lemma_bit_length_at_most(m: nat, k: nat)
    requires
        m < pow2(k),
    ensures
        bit_length(m) <= k,
    decreases m,
{
    lemma2_to64();
    if m > 0 {
        lemma_pow2_unfold(k);
        lemma_bit_length_at_most(m / 2, (k - 1) as nat);
    }
}

pub proof fn lemma_bit_length_at_least(m: nat, k: nat)
    requires
        pow2(k) <= m,
    ensures
        bit_length(m) > k,
{
    lemma_bit_length_bounds(m);
    if bit_length(m) < k {
        lemma_pow2_strictly_increases(bit_length(m), k);
    }
}

proof fn lemma_pow2_128()
    ensures
        pow2(128) == 0x1_0000_0000_0000_0000_0000_0000_0000_0000,
        pow2(127) == 0x8000_0000_0000_0000_0000_0000_0000_0000,
{
    lemma2_to64();
    lemma_pow2_adds(64, 64);
    lemma_pow2_unfold(128);
    assert(0x1_0000_0000_0000_0000int * 0x1_0000_0000_0000_0000int
        == 0x1_0000_0000_0000_0000_0000_0000_0000_0000int) by (nonlinear_arith);
}

proof fn lemma_pow2_le(a: nat, b: nat)
    requires
        a <= b,
    ensures
        pow2(a) <= pow2(b),
{
    if a < b {
        lemma_pow2_strictly_increases(a, b);
    }
}

/// `2^k` as a machine integer.
pub(crate) fn pow2_exec(k: u32) -> (r: u128)
    requires
        k <= 127,
    ensures
        r == pow2(k as nat),
{
    proof {
        lemma2_to64();
        lemma_pow2_128();
    }
    let mut r: u128 = 1;
    let mut rest: u32 = k;
    if rest >= 64 {
        r = 0x1_0000_0000_0000_0000;
        rest = rest - 64;
    }
    if rest >= 32 {
        proof {
            lemma_pow2_adds((k - rest) as nat, 32);
            lemma_pow2_le((k - rest + 32) as nat, 127);
        }
        r = r * 0x1_0000_0000;
        rest = rest - 32;
    }
    if rest >= 16 {
        proof {
            lemma_pow2_adds((k - rest) as nat, 16);
            lemma_pow2_le((k - rest + 16) as nat, 127);
        }
        r = r * 0x1_0000;
        rest = rest - 16;
    }
    if rest >= 8 {
        proof {
            lemma_pow2_adds((k - rest) as nat, 8);
            lemma_pow2_le((k - rest + 8) as nat, 127);
        }
        r = r * 0x100;
        rest = rest - 8;
    }
    if rest >= 4 {
        proof {
            lemma_pow2_adds((k - rest) as nat, 4);
            lemma_pow2_le((k - rest + 4) as nat, 127);
        }
        r = r * 0x10;
        rest = rest - 4;
    }
    if rest >= 2 {
        proof {
            lemma_pow2_adds((k - rest) as nat, 2);
            lemma_pow2_le((k - rest + 2) as nat, 127);
        }
        r = r * 4;
        rest = rest - 2;
    }
    if rest >= 1 {
        proof {
            lemma_pow2_adds((k - rest) as nat, 1);
            lemma_pow2_le((k - rest + 1) as nat, 127);
        }
        r = r * 2;
    }
    r
}

/// The digits of a number are the digits of its upper part and the `k`
/// digits below them.
proof fn lemma_bit_length_split(m: nat, k: nat)
    requires
        m >= pow2(k),
    ensures
        bit_length(m) == k + bit_length(m / pow2(k)),
    decreases k,
{
    lemma2_to64();
    lemma_pow2_pos(k);
    if k > 0 {
        let half = pow2((k - 1) as nat);
        lemma_pow2_unfold(k);
        lemma_pow2_pos((k - 1) as nat);
        assert(m / 2 >= half);
        lemma_bit_length_split(m / 2, (k - 1) as nat);
        vstd::arithmetic::div_mod::lemma_div_denominator(m as int, 2, half as int);
        assert(2 * half == pow2(k));
        assert((m / 2) / half == m / pow2(k));
        assert(bit_length(m) == 1 + bit_length(m / 2));
    } else {
        assert(m / 1 == m);
    }
}

/// Takes the lower `k` digits off a number of at most `2k` digits, if it
/// has more than `k`, and counts them.
fn drop_digits(x: u128, n: u32, k: u32, p: u128) -> (r: (u128, u32))
    requires
        1 <= k <= 64,
        p == pow2(k as nat),
        k == 64 || x < p * p,
        n <= 128,
    ensures
        r.0 < p,
        r.1 + bit_length(r.0 as nat) == n + bit_length(x as nat),
        r.1 == n || r.1 == n + k,
{
    proof {
        lemma_pow2_pos(k as nat);
        lemma_pow2_128();
        lemma_pow2_adds(64, 64);
    }
    if x >= p {
        proof {
            lemma_bit_length_split(x as nat, k as nat);
            if k == 64 {
                lemma2_to64();
                assert(x < p * p);
            }
            lemma_multiply_divide_lt(x as int, p as int, p as int);
        }
        (x / p, n + k)
    } else {
        (x, n)
    }
}

pub(crate) fn bit_length_exec(m: u128) -> (n: u32)
    ensures
        n == bit_length(m as nat),
        n <= 128,
{
    proof {
        lemma2_to64();
    }
    let (x, n) = drop_digits(m, 0, 64, 0x1_0000_0000_0000_0000);
    let (x, n) = drop_digits(x, n, 32, 0x1_0000_0000);
    let (x, n) = drop_digits(x, n, 16, 0x1_0000);
    let (x, n) = drop_digits(x, n, 8, 0x100);
    let (x, n) = drop_digits(x, n, 4, 0x10);
    let (x, n) = drop_digits(x, n, 2, 4);
    let (x, n) = drop_digits(x, n, 1, 2);
    assert(bit_length(x as nat) == x) by {
        assert(bit_length(0) == 0);
        assert(1int / 2 == 0);
    }
    n + x as u32
}

fn round_to_exec(m: u128, e: i64, p: u32, emin: i64) -> (res: (u128, i64))
    requires
        -8000 <= e <= 8000,
        1 <= p <= 64,
        -2000 <= emin <= 0,
    ensures
        (res.0 as nat, res.1 as int) == round_to(m as nat, e as int, p as nat, emin as int),
        res.0 <= pow2(p as nat),
        emin <= res.1 <= 8200,
{
    if m == 0 {
        proof {
            lemma_pow2_pos(p as nat);
        }
        return (0, emin);
    }
    let len: u32 = bit_length_exec(m);
    let top: i64 = e + (len as i64) - (p as i64);
    let et: i64 = if top > emin { top } else { emin };
    proof {
        lemma_bit_length_bounds(m as nat);
        lemma_pow2_128();
    }
    if et <= e {
        let sh: u32 = (e - et) as u32;
        proof {
            // m < 2^len and sh <= p - len, so m * 2^sh < 2^p
            lemma_pow2_adds(len as nat, sh as nat);
            lemma_pow2_le((len + sh) as nat, p as nat);
            lemma_pow2_le(p as nat, 64);
            lemma2_to64();
            lemma_pow2_pos(sh as nat);
            lemma_mul_strict_inequality(m as int, pow2(len as nat) as int, pow2(sh as nat) as int);
        }
        let scale: u128 = pow2_exec(sh);
        (m * scale, et)
    } else {
        let sh: i64 = et - e;
        proof {
            lemma_pow2_pos(sh as nat);
            lemma_pow2_pos(p as nat);
        }
        if sh > 128 {
            proof {
                lemma_pow2_le(129, sh as nat);
                lemma_pow2_unfold(129);
                lemma_basic_div(m as int, pow2(sh as nat) as int);
                lemma_small_mod(m as nat, pow2(sh as nat));
            }
            (0, et)
        } else if sh == 128 {
            proof {
                lemma_basic_div(m as int, pow2(128) as int);
                lemma_small_mod(m as nat, pow2(128));
                lemma_pow2_le(0, p as nat);
                lemma2_to64();
            }
            if m > 0x8000_0000_0000_0000_0000_0000_0000_0000 {
                (1, et)
            } else {
                (0, et)
            }
        } else {
            let d: u128 = pow2_exec(sh as u32);
            let q: u128 = m / d;
            let r: u128 = m % d;
            let half: u128 = d / 2;
            proof {
                lemma_pow2_unfold(sh as nat);
                assert(d == 2 * half);
                // q < 2^p: m < 2^len = 2^sh * 2^(len - sh), with len - sh <= p
                if len as int >= sh {
                    lemma_pow2_adds(sh as nat, (len - sh) as nat);
                    lemma_multiply_divide_lt(m as int, d as int, pow2((len - sh) as nat) as int);
                    lemma_pow2_le((len - sh) as nat, p as nat);
                } else {
                    lemma_pow2_strictly_increases(len as nat, sh as nat);
                    lemma_basic_div(m as int, d as int);
                }
                lemma_pow2_le(p as nat, 64);
                lemma2_to64();
            }
            if r > half || (r == half && q % 2 == 1) {
                (q + 1, et)
            } else {
                (q, et)
            }
        }
    }
}

fn encode_exec(negative: bool, sig: u128, et: i64) -> (r: F64)
    requires
        sig <= pow2(53),
        -1074 <= et <= 9000,
    ensures
        r == encode(negative, sig as nat, et as int),
{
    proof {
        lemma2_to64();
        lemma2_to64_rest();
    }
    let mag_bits: u64 = if et + 1074 >= 2047 {
        INFINITY_BITS
    } else {
        let biased: u64 = (et + 1074) as u64;
        assert(biased * 0x0010_0000_0000_0000 <= 2046 * 0x0010_0000_0000_0000) by (nonlinear_arith)
            requires
                biased <= 2046,
        ;
        let mag: u64 = biased * HIDDEN_BIT + (sig as u64);
        if mag >= INFINITY_BITS {
            INFINITY_BITS
        } else {
            mag
        }
    };
    assert(et + 1074 >= 2047 ==> (et + 1074) * pow2(52) + sig >= INFINITY_BITS) by (nonlinear_arith)
        requires
            pow2(52) == 0x0010_0000_0000_0000,
            sig >= 0,
    ;
    F64 { bits: if negative { mag_bits + SIGN_MASK } else { mag_bits } }
}

/// Rounds `m * 2^e` to a double, or to a single written as a double.
pub(crate) fn round_exec(single: bool, negative: bool, m: u128, e: i64) -> (r: F64)
    requires
        -8000 <= e <= 8000,
    ensures
        r == rounded_as(single, negative, m as nat, e as int),
{
    if single {
        let (s1, e1) = round_to_exec(m, e, 24, -149);
        let len: u32 = bit_length_exec(s1);
        if e1 + (len as i64) > 128 {
            F64 { bits: if negative { INFINITY_BITS + SIGN_MASK } else { INFINITY_BITS } }
        } else {
            let (sig, et) = round_to_exec(s1, e1, 53, -1074);
            encode_exec(negative, sig, et)
        }
    } else {
        let (sig, et) = round_to_exec(m, e, 53, -1074);
        encode_exec(negative, sig, et)
    }
}


/// The quiet NaN.
pub open spec fn nan() -> F64 {
    F64 { bits: NAN_BITS }
}

/// Infinity of the given sign.
pub open spec fn infinity(negative: bool) -> F64 {
    F64 { bits: if negative { (INFINITY_BITS + SIGN_MASK) as u64 } else { INFINITY_BITS } }
}

/// Zero of the given sign.
pub open spec fn zero(negative: bool) -> F64 {
    F64 { bits: if negative { SIGN_MASK } else { 0 } }
}

impl F64 {
    pub open spec fn is_negative(self) -> bool {
        self.bits >= SIGN_MASK
    }

    /// The bit pattern without its sign bit.
    pub open spec fn magnitude(self) -> u64 {
        if self.bits >= SIGN_MASK {
            (self.bits - SIGN_MASK) as u64
        } else {
            self.bits
        }
    }

    pub open spec fn is_nan(self) -> bool {
        self.magnitude() > INFINITY_BITS
    }

    pub open spec fn is_infinite(self) -> bool {
        self.magnitude() == INFINITY_BITS
    }

    pub open spec fn is_finite(self) -> bool {
        self.magnitude() < INFINITY_BITS
    }

    pub open spec fn is_zero(self) -> bool {
        self.magnitude() == 0
    }

    /// The integer significand of a finite number: its absolute value is
    /// `significand() * 2^exponent()`.
    pub open spec fn significand(self) -> nat {
        let a = self.magnitude();
        if a < HIDDEN_BIT {
            a as nat
        } else {
            (a % HIDDEN_BIT + HIDDEN_BIT) as nat
        }
    }

    /// The binary exponent of the unit in the last place of a finite
    /// number.
    pub open spec fn exponent(self) -> int {
        let a = self.magnitude();
        if a < HIDDEN_BIT {
            -1074
        } else {
            a / HIDDEN_BIT - 1075
        }
    }

    /// An integer that orders the numbers as their values do: both zeros
    /// share a key, and NaNs have no place in the order.
    pub open spec fn order_key(self) -> int {
        if self.is_negative() {
            -(self.magnitude() as int)
        } else {
            self.magnitude() as int
        }
    }

    /// The integer part of a finite number, rounded towards zero.
    pub closed spec fn truncated(self) -> int {
        let e = self.exponent();
        let mag = if e >= 0 {
            (self.significand() * pow2(e as nat)) as int
        } else {
            (self.significand() / pow2((-e) as nat)) as int
        };
        if self.is_negative() {
            -mag
        } else {
            mag
        }
    }

    /// The value of a cast to an integer type with the range `lo..=hi`:
    /// the integer part, held to the range; 0 for a NaN.
    pub open spec fn to_int(self, lo: int, hi: int) -> int {
        if self.is_nan() {
            0
        } else if self.is_infinite() {
            if self.is_negative() {
                lo
            } else {
                hi
            }
        } else if self.truncated() < lo {
            lo
        } else if self.truncated() > hi {
            hi
        } else {
            self.truncated()
        }
    }
}

/// A significand with its sign applied.
pub open spec fn signed(negative: bool, m: int) -> int {
    if negative {
        -m
    } else {
        m
    }
}

/// The sum of two finite numbers `±am * 2^ae` and `±bm * 2^be`.
///
/// An operand more than 64 binary places below the other cannot reach the
/// rounding position; it only decides on which side of the larger operand
/// the sum lies, and is counted as one unit 66 places down.
pub open spec fn finite_sum(
    single: bool,
    an: bool,
    am: nat,
    ae: int,
    bn: bool,
    bm: nat,
    be: int,
) -> F64 {
    if am != 0 && bm != 0 && ae - be > 64 {
        rounded_as(single, an, (am * pow2(66) + signed(an != bn, 1)) as nat, ae - 66)
    } else if am != 0 && bm != 0 && be - ae > 64 {
        rounded_as(single, bn, (bm * pow2(66) + signed(an != bn, 1)) as nat, be - 66)
    } else if bm == 0 {
        if am == 0 {
            zero(an && bn)
        } else {
            rounded_as(single, an, am, ae)
        }
    } else if am == 0 {
        rounded_as(single, bn, bm, be)
    } else {
        let e = if ae < be { ae } else { be };
        let s = signed(an, (am * pow2((ae - e) as nat)) as int) + signed(
            bn,
            (bm * pow2((be - e) as nat)) as int,
        );
        if s == 0 {
            zero(false)
        } else {
            rounded_as(single, s < 0, signed(s < 0, s) as nat, e)
        }
    }
}

/// `a + b`.
pub closed spec fn float_add(single: bool, a: F64, b: F64) -> F64 {
    if a.is_nan() || b.is_nan() {
        nan()
    } else if a.is_infinite() {
        if b.is_infinite() && a.is_negative() != b.is_negative() {
            nan()
        } else {
            a
        }
    } else if b.is_infinite() {
        b
    } else {
        finite_sum(
            single,
            a.is_negative(),
            a.significand(),
            a.exponent(),
            b.is_negative(),
            b.significand(),
            b.exponent(),
        )
    }
}

/// `-a`: the same pattern with the sign bit flipped.
pub open spec fn float_neg(a: F64) -> F64 {
    F64 { bits: if a.bits >= SIGN_MASK { (a.bits - SIGN_MASK) as u64 } else { (a.bits + SIGN_MASK) as u64 } }
}

/// `a - b`.
pub closed spec fn float_sub(single: bool, a: F64, b: F64) -> F64 {
    float_add(single, a, float_neg(b))
}

/// `a * b`.
pub closed spec fn float_mul(single: bool, a: F64, b: F64) -> F64 {
    let negative = a.is_negative() != b.is_negative();
    if a.is_nan() || b.is_nan() {
        nan()
    } else if a.is_infinite() || b.is_infinite() {
        if a.is_zero() || b.is_zero() {
            nan()
        } else {
            infinity(negative)
        }
    } else {
        rounded_as(single, negative, a.significand() * b.significand(), a.exponent() + b.exponent())
    }
}

/// The quotient of `am * 2^ae` by `bm * 2^be`, for significands below
/// `2^64`: the dividend's significand is scaled to 127 bits, divided, and
/// a nonzero remainder is kept as one more bit below the quotient.
pub open spec fn finite_quotient(single: bool, negative: bool, am: nat, ae: int, bm: nat, be: int) -> F64 {
    let k = 127 - bit_length(am);
    let n = am * pow2(k as nat);
    let q = n / bm;
    let sticky: nat = if n % bm != 0 { 1 } else { 0 };
    rounded_as(single, negative, 2 * q + sticky, ae - be - k - 1)
}

/// `a / b`.
pub closed spec fn float_div(single: bool, a: F64, b: F64) -> F64 {
    let negative = a.is_negative() != b.is_negative();
    if a.is_nan() || b.is_nan() {
        nan()
    } else if a.is_infinite() {
        if b.is_infinite() {
            nan()
        } else {
            infinity(negative)
        }
    } else if b.is_infinite() {
        zero(negative)
    } else if b.is_zero() {
        if a.is_zero() {
            nan()
        } else {
            infinity(negative)
        }
    } else if a.is_zero() {
        zero(negative)
    } else {
        finite_quotient(single, negative, a.significand(), a.exponent(), b.significand(), b.exponent())
    }
}

/// `s` is the integer square root of `n`.
pub open spec fn is_integer_sqrt(n: nat, s: nat) -> bool {
    s * s <= n < (s + 1) * (s + 1)
}

/// The square root of a finite positive number `m * 2^e`: the significand
/// is scaled to 125 or 126 bits over an even exponent, its integer root is
/// taken, and an inexact root keeps one more bit below it.
pub open spec fn finite_sqrt(m: nat, e: int) -> F64 {
    let k0 = 126 - bit_length(m);
    let k = if (e - k0) % 2 == 0 { k0 } else { k0 - 1 };
    let n = m * pow2(k as nat);
    let s = choose|s: nat| is_integer_sqrt(n, s);
    let sticky: nat = if s * s != n { 1 } else { 0 };
    rounded(false, 2 * s + sticky, (e - k) / 2 - 1)
}

/// The square root of `a`.
pub closed spec fn float_sqrt(a: F64) -> F64 {
    if a.is_nan() {
        nan()
    } else if a.is_zero() {
        a
    } else if a.is_negative() {
        nan()
    } else if a.is_infinite() {
        a
    } else {
        finite_sqrt(a.significand(), a.exponent())
    }
}

/// `a` rounded to an integer, downwards if `up` is false and upwards if it
/// is true.
pub closed spec fn float_round_integral(a: F64, up: bool) -> F64 {
    if !a.is_finite() || a.exponent() >= 0 {
        a
    } else {
        let d = pow2((-a.exponent()) as nat);
        let q = a.significand() / d;
        let away = a.significand() % d != 0 && a.is_negative() != up;
        rounded(a.is_negative(), if away { q + 1 } else { q }, 0)
    }
}

/// `a < b`; false if either is a NaN.
pub open spec fn float_lt(a: F64, b: F64) -> bool {
    !a.is_nan() && !b.is_nan() && a.order_key() < b.order_key()
}

/// `a <= b`; false if either is a NaN.
pub open spec fn float_le(a: F64, b: F64) -> bool {
    !a.is_nan() && !b.is_nan() && a.order_key() <= b.order_key()
}

/// `a == b` as numbers: the two zeros are equal, a NaN equals nothing.
pub open spec fn float_eq(a: F64, b: F64) -> bool {
    !a.is_nan() && !b.is_nan() && a.order_key() == b.order_key()
}

/// The smaller of two numbers; a NaN gives way to the other operand, and
/// of two equal numbers the first is returned.
pub open spec fn float_min(a: F64, b: F64) -> F64 {
    if a.is_nan() {
        b
    } else if float_lt(b, a) {
        b
    } else {
        a
    }
}

/// The larger of two numbers; a NaN gives way to the other operand, and of
/// two equal numbers the first is returned.
pub open spec fn float_max(a: F64, b: F64) -> F64 {
    if a.is_nan() {
        b
    } else if float_lt(a, b) {
        b
    } else {
        a
    }
}

/// The double nearest to the integer `n`.
pub closed spec fn float_from_int(n: int) -> F64 {
    rounded(n < 0, signed(n < 0, n) as nat, 0)
}

proof fn lemma_integer_sqrt_unique(n: nat, s1: nat, s2: nat)
    requires
        is_integer_sqrt(n, s1),
        is_integer_sqrt(n, s2),
    ensures
        s1 == s2,
{
    if s1 < s2 {
        assert((s1 + 1) * (s1 + 1) <= s2 * s2) by (nonlinear_arith)
            requires
                s1 + 1 <= s2,
        ;
    } else if s2 < s1 {
        assert((s2 + 1) * (s2 + 1) <= s1 * s1) by (nonlinear_arith)
            requires
                s2 + 1 <= s1,
        ;
    }
}

/// The integer square root of a number below `2^126`.
fn integer_sqrt(n: u128) -> (s: u128)
    requires
        n < pow2(126),
    ensures
        is_integer_sqrt(n as nat, s as nat),
        s < pow2(63),
{
    proof {
        lemma2_to64();
        lemma2_to64_rest();
        lemma_pow2_adds(63, 63);
    }
    let mut lo: u128 = 0;
    let mut hi: u128 = 0x8000_0000_0000_0000;
    while hi - lo > 1
        invariant
            lo < hi <= 0x8000_0000_0000_0000,
            lo * lo <= n,
            n < hi * hi,
        decreases hi - lo,
    {
        let mid: u128 = lo + (hi - lo) / 2;
        assert(mid * mid < 0x8000_0000_0000_0000 * 0x8000_0000_0000_0000) by (nonlinear_arith)
            requires
                mid < 0x8000_0000_0000_0000,
        ;
        if mid * mid <= n {
            lo = mid;
        } else {
            hi = mid;
        }
    }
    lo
}

impl F64 {
    /// The sign, the significand and the exponent.
    fn parts(self) -> (res: (bool, u64, i64))
        ensures
            res.0 == self.is_negative(),
            res.1 == self.significand(),
            res.2 == self.exponent(),
            res.1 == 0 ==> res.2 == -1074,
            res.1 == 0 <==> self.is_zero(),
            self.is_finite() ==> res.1 < 0x0020_0000_0000_0000 && -1074 <= res.2 <= 971,
    {
        let negative = self.bits >= SIGN_MASK;
        let mag: u64 = if negative { self.bits - SIGN_MASK } else { self.bits };
        if mag < HIDDEN_BIT {
            (negative, mag, -1074)
        } else {
            (negative, mag % HIDDEN_BIT + HIDDEN_BIT, (mag / HIDDEN_BIT) as i64 - 1075)
        }
    }

    fn magnitude_bits(self) -> (mag: u64)
        ensures
            mag == self.magnitude(),
    {
        if self.bits >= SIGN_MASK {
            self.bits - SIGN_MASK
        } else {
            self.bits
        }
    }

    /// Whether this is a NaN.
    pub fn nan(self) -> (r: bool)
        ensures
            r == self.is_nan(),
    {
        self.magnitude_bits() > INFINITY_BITS
    }

    /// The double nearest to `n`.
    pub fn from_i64(n: i64) -> (r: F64)
        ensures
            r == float_from_int(n as int),
    {
        if n < 0 {
            let m: u128 = (-(n as i128)) as u128;
            round_exec(false, true, m, 0)
        } else {
            round_exec(false, false, n as u128, 0)
        }
    }

    /// The double equal to `n`.
    pub fn from_u32(n: u32) -> (r: F64)
        ensures
            r == float_from_int(n as int),
    {
        round_exec(false, false, n as u128, 0)
    }

    /// `-self`.
    pub fn negated(self) -> (r: F64)
        ensures
            r == float_neg(self),
    {
        if self.bits >= SIGN_MASK {
            F64 { bits: self.bits - SIGN_MASK }
        } else {
            F64 { bits: self.bits + SIGN_MASK }
        }
    }
}

fn finite_sum_exec(single: bool, an: bool, am: u64, ae: i64, bn: bool, bm: u64, be: i64) -> (r: F64)
    requires
        am < 0x0020_0000_0000_0000,
        bm < 0x0020_0000_0000_0000,
        -1074 <= ae <= 971,
        -1074 <= be <= 971,
    ensures
        r == finite_sum(single, an, am as nat, ae as int, bn, bm as nat, be as int),
{
    proof {
        lemma2_to64();
        lemma2_to64_rest();
        lemma_pow2_adds(64, 2);
    }
    if am != 0 && bm != 0 && ae - be > 64 {
        let scale: u128 = pow2_exec(66);
        assert(am * scale < 0x0020_0000_0000_0000 * scale) by (nonlinear_arith)
            requires
                am < 0x0020_0000_0000_0000,
                scale > 0,
        ;
        assert(am * scale >= scale) by (nonlinear_arith)
            requires
                am >= 1,
                scale > 0,
        ;
        let m: u128 = (am as u128) * scale;
        let m2: u128 = if an != bn { m - 1 } else { m + 1 };
        round_exec(single, an, m2, ae - 66)
    } else if am != 0 && bm != 0 && be - ae > 64 {
        let scale: u128 = pow2_exec(66);
        assert(bm * scale < 0x0020_0000_0000_0000 * scale) by (nonlinear_arith)
            requires
                bm < 0x0020_0000_0000_0000,
                scale > 0,
        ;
        assert(bm * scale >= scale) by (nonlinear_arith)
            requires
                bm >= 1,
                scale > 0,
        ;
        let m: u128 = (bm as u128) * scale;
        let m2: u128 = if an != bn { m - 1 } else { m + 1 };
        round_exec(single, bn, m2, be - 66)
    } else if bm == 0 {
        if am == 0 {
            F64 { bits: if an && bn { SIGN_MASK } else { 0 } }
        } else {
            round_exec(single, an, am as u128, ae)
        }
    } else if am == 0 {
        round_exec(single, bn, bm as u128, be)
    } else {
        let e: i64 = if ae < be { ae } else { be };
        let sa: u128 = pow2_exec((ae - e) as u32);
        let sb: u128 = pow2_exec((be - e) as u32);
        proof {
            lemma_pow2_le((ae - e) as nat, 64);
            lemma_pow2_le((be - e) as nat, 64);
            assert(am * sa < 0x0020_0000_0000_0000 * 0x1_0000_0000_0000_0000) by (nonlinear_arith)
                requires
                    am < 0x0020_0000_0000_0000,
                    0 <= sa <= 0x1_0000_0000_0000_0000,
            ;
            assert(bm * sb < 0x0020_0000_0000_0000 * 0x1_0000_0000_0000_0000) by (nonlinear_arith)
                requires
                    bm < 0x0020_0000_0000_0000,
                    0 <= sb <= 0x1_0000_0000_0000_0000,
            ;
        }
        let x: u128 = (am as u128) * sa;
        let y: u128 = (bm as u128) * sb;
        if an == bn {
            proof {
                lemma_pow2_pos((ae - e) as nat);
                assert(am * sa > 0) by (nonlinear_arith)
                    requires
                        am > 0,
                        sa > 0,
                ;
            }
            round_exec(single, an, x + y, e)
        } else if x > y {
            round_exec(single, an, x - y, e)
        } else if y > x {
            round_exec(single, bn, y - x, e)
        } else {
            F64 { bits: 0 }
        }
    }
}

fn add_exec(single: bool, a: F64, b: F64) -> (r: F64)
    ensures
        r == float_add(single, a, b),
{
    let amag: u64 = a.magnitude_bits();
    let bmag: u64 = b.magnitude_bits();
    if amag > INFINITY_BITS || bmag > INFINITY_BITS {
        F64 { bits: NAN_BITS }
    } else if amag == INFINITY_BITS {
        if bmag == INFINITY_BITS && (a.bits >= SIGN_MASK) != (b.bits >= SIGN_MASK) {
            F64 { bits: NAN_BITS }
        } else {
            a
        }
    } else if bmag == INFINITY_BITS {
        b
    } else {
        let (an, am, ae) = a.parts();
        let (bn, bm, be) = b.parts();
        finite_sum_exec(single, an, am, ae, bn, bm, be)
    }
}

fn mul_exec(single: bool, a: F64, b: F64) -> (r: F64)
    ensures
        r == float_mul(single, a, b),
{
    let amag: u64 = a.magnitude_bits();
    let bmag: u64 = b.magnitude_bits();
    let negative = (a.bits >= SIGN_MASK) != (b.bits >= SIGN_MASK);
    if amag > INFINITY_BITS || bmag > INFINITY_BITS {
        F64 { bits: NAN_BITS }
    } else if amag == INFINITY_BITS || bmag == INFINITY_BITS {
        if amag == 0 || bmag == 0 {
            F64 { bits: NAN_BITS }
        } else {
            F64 { bits: if negative { INFINITY_BITS + SIGN_MASK } else { INFINITY_BITS } }
        }
    } else {
        let (an, am, ae) = a.parts();
        let (bn, bm, be) = b.parts();
        assert(am * bm < 0x0020_0000_0000_0000 * 0x0020_0000_0000_0000) by (nonlinear_arith)
            requires
                am < 0x0020_0000_0000_0000,
                bm < 0x0020_0000_0000_0000,
        ;
        round_exec(single, negative, (am as u128) * (bm as u128), ae + be)
    }
}

pub(crate) fn finite_quotient_exec(single: bool, negative: bool, am: u64, ae: i64, bm: u64, be: i64) -> (r: F64)
    requires
        0 < am,
        0 < bm,
        -1074 <= ae <= 971,
        -1074 <= be <= 971,
    ensures
        r == finite_quotient(single, negative, am as nat, ae as int, bm as nat, be as int),
{
    let len: u32 = bit_length_exec(am as u128);
    proof {
        lemma2_to64();
        lemma2_to64_rest();
        lemma_bit_length_bounds(am as nat);
        lemma_bit_length_at_most(am as nat, 64);
        lemma_pow2_adds(len as nat, (127 - len) as nat);
        lemma_pow2_128();
        lemma_pow2_pos((127 - len) as nat);
        lemma_mul_strict_inequality(am as int, pow2(len as nat) as int, pow2((127 - len) as nat) as int);
    }
    let k: u32 = 127 - len;
    let scale: u128 = pow2_exec(k);
    let n: u128 = (am as u128) * scale;
    let q: u128 = n / (bm as u128);
    let sticky: u128 = if n % (bm as u128) != 0 { 1 } else { 0 };
    proof {
        vstd::arithmetic::div_mod::lemma_div_is_ordered(0, n as int, bm as int);
        vstd::arithmetic::div_mod::lemma_div_nonincreasing(n as int, bm as int);
    }
    round_exec(single, negative, 2 * q + sticky, ae - be - (k as i64) - 1)
}

fn div_exec(single: bool, a: F64, b: F64) -> (r: F64)
    ensures
        r == float_div(single, a, b),
{
    let amag: u64 = a.magnitude_bits();
    let bmag: u64 = b.magnitude_bits();
    let negative = (a.bits >= SIGN_MASK) != (b.bits >= SIGN_MASK);
    if amag > INFINITY_BITS || bmag > INFINITY_BITS {
        F64 { bits: NAN_BITS }
    } else if amag == INFINITY_BITS {
        if bmag == INFINITY_BITS {
            F64 { bits: NAN_BITS }
        } else {
            F64 { bits: if negative { INFINITY_BITS + SIGN_MASK } else { INFINITY_BITS } }
        }
    } else if bmag == INFINITY_BITS {
        F64 { bits: if negative { SIGN_MASK } else { 0 } }
    } else if bmag == 0 {
        if amag == 0 {
            F64 { bits: NAN_BITS }
        } else {
            F64 { bits: if negative { INFINITY_BITS + SIGN_MASK } else { INFINITY_BITS } }
        }
    } else if amag == 0 {
        F64 { bits: if negative { SIGN_MASK } else { 0 } }
    } else {
        let (an, am, ae) = a.parts();
        let (bn, bm, be) = b.parts();
        finite_quotient_exec(single, negative, am, ae, bm, be)
    }
}

fn finite_sqrt_exec(m: u64, e: i64) -> (r: F64)
    requires
        0 < m < 0x0020_0000_0000_0000,
        -1074 <= e <= 971,
    ensures
        r == finite_sqrt(m as nat, e as int),
{
    let len: u32 = bit_length_exec(m as u128);
    proof {
        lemma2_to64();
        lemma2_to64_rest();
        lemma_bit_length_bounds(m as nat);
        lemma_bit_length_at_most(m as nat, 53);
    }
    let k0: i64 = 126 - (len as i64);
    let k: i64 = if (e - k0 + 4000) % 2 == 0 { k0 } else { k0 - 1 };
    proof {
        lemma_pow2_adds(len as nat, k as nat);
        lemma_pow2_le((len + k) as nat, 126);
        lemma_pow2_le(126, 127);
        lemma_pow2_128();
        lemma_pow2_pos(k as nat);
        lemma_mul_strict_inequality(m as int, pow2(len as nat) as int, pow2(k as nat) as int);
    }
    let scale: u128 = pow2_exec(k as u32);
    let n: u128 = (m as u128) * scale;
    let s: u128 = integer_sqrt(n);
    proof {
        let c = choose|c: nat| is_integer_sqrt(n as nat, c);
        lemma_integer_sqrt_unique(n as nat, s as nat, c);
        assert(s * s < 0x8000_0000_0000_0000 * 0x8000_0000_0000_0000) by (nonlinear_arith)
            requires
                s < 0x8000_0000_0000_0000,
        ;
    }
    let sticky: u128 = if s * s != n { 1 } else { 0 };
    round_exec(false, false, 2 * s + sticky, (e - k + 4000) / 2 - 2001)
}

fn round_integral_exec(a: F64, up: bool) -> (r: F64)
    ensures
        r == float_round_integral(a, up),
{
    let mag: u64 = a.magnitude_bits();
    if mag >= INFINITY_BITS {
        return a;
    }
    let (negative, m, e) = a.parts();
    if e >= 0 {
        return a;
    }
    proof {
        lemma2_to64();
        lemma2_to64_rest();
        lemma_pow2_pos((-e) as nat);
    }
    let (q, inexact): (u64, bool) = if -e > 63 {
        proof {
            lemma_pow2_le(64, (-e) as nat);
            lemma_basic_div(m as int, pow2((-e) as nat) as int);
            lemma_small_mod(m as nat, pow2((-e) as nat));
        }
        (0, m != 0)
    } else {
        let d: u128 = pow2_exec((-e) as u32);
        proof {
            vstd::arithmetic::div_mod::lemma_div_nonincreasing(m as int, d as int);
            lemma_div_pos_is_pos(m as int, d as int);
        }
        (((m as u128) / d) as u64, (m as u128) % d != 0)
    };
    let away = inexact && negative != up;
    round_exec(false, negative, if away { (q + 1) as u128 } else { q as u128 }, 0)
}

impl F64 {
    /// `self + other`.
    pub fn plus(self, other: F64) -> (r: F64)
        ensures
            r == float_add(false, self, other),
    {
        add_exec(false, self, other)
    }

    /// `self - other`.
    pub fn minus(self, other: F64) -> (r: F64)
        ensures
            r == float_sub(false, self, other),
    {
        add_exec(false, self, other.negated())
    }

    /// `self * other`.
    pub fn times(self, other: F64) -> (r: F64)
        ensures
            r == float_mul(false, self, other),
    {
        mul_exec(false, self, other)
    }

    /// `self / other`.
    pub fn over(self, other: F64) -> (r: F64)
        ensures
            r == float_div(false, self, other),
    {
        div_exec(false, self, other)
    }

    /// `self + other` in single precision.
    pub fn plus_single(self, other: F64) -> (r: F64)
        ensures
            r == float_add(true, self, other),
    {
        add_exec(true, self, other)
    }

    /// `self - other` in single precision.
    pub fn minus_single(self, other: F64) -> (r: F64)
        ensures
            r == float_sub(true, self, other),
    {
        add_exec(true, self, other.negated())
    }

    /// `self * other` in single precision.
    pub fn times_single(self, other: F64) -> (r: F64)
        ensures
            r == float_mul(true, self, other),
    {
        mul_exec(true, self, other)
    }

    /// `self / other` in single precision.
    pub fn over_single(self, other: F64) -> (r: F64)
        ensures
            r == float_div(true, self, other),
    {
        div_exec(true, self, other)
    }

    /// The square root.
    pub fn sqrt(self) -> (r: F64)
        ensures
            r == float_sqrt(self),
    {
        let mag: u64 = self.magnitude_bits();
        if mag > INFINITY_BITS {
            F64 { bits: NAN_BITS }
        } else if mag == 0 {
            self
        } else if self.bits >= SIGN_MASK {
            F64 { bits: NAN_BITS }
        } else if mag == INFINITY_BITS {
            self
        } else {
            let (negative, m, e) = self.parts();
            finite_sqrt_exec(m, e)
        }
    }

    /// The largest integer not above `self`.
    pub fn floor(self) -> (r: F64)
        ensures
            r == float_round_integral(self, false),
    {
        round_integral_exec(self, false)
    }

    /// The smallest integer not below `self`.
    pub fn ceil(self) -> (r: F64)
        ensures
            r == float_round_integral(self, true),
    {
        round_integral_exec(self, true)
    }

    fn key(self) -> (k: i128)
        ensures
            k == self.order_key(),
    {
        if self.bits >= SIGN_MASK {
            -((self.bits - SIGN_MASK) as i128)
        } else {
            self.bits as i128
        }
    }

    /// `self < other`.
    pub fn lt(self, other: F64) -> (r: bool)
        ensures
            r == float_lt(self, other),
    {
        !self.nan() && !other.nan() && self.key() < other.key()
    }

    /// `self <= other`.
    pub fn le(self, other: F64) -> (r: bool)
        ensures
            r == float_le(self, other),
    {
        !self.nan() && !other.nan() && self.key() <= other.key()
    }

    /// `self == other`, as numbers.
    pub fn same(self, other: F64) -> (r: bool)
        ensures
            r == float_eq(self, other),
    {
        !self.nan() && !other.nan() && self.key() == other.key()
    }

    /// The smaller of `self` and `other`.
    pub fn min(self, other: F64) -> (r: F64)
        ensures
            r == float_min(self, other),
    {
        if self.nan() {
            other
        } else if other.lt(self) {
            other
        } else {
            self
        }
    }

    /// The larger of `self` and `other`.
    pub fn max(self, other: F64) -> (r: F64)
        ensures
            r == float_max(self, other),
    {
        if self.nan() {
            other
        } else if self.lt(other) {
            other
        } else {
            self
        }
    }

    /// The integer part, held to `lo..=hi`; 0 for a NaN.
    pub fn to_int_exec(self, lo: i128, hi: i128) -> (r: i128)
        requires
            -0x1_0000_0000_0000_0000 <= lo <= 0 <= hi <= 0x1_0000_0000_0000_0000,
        ensures
            r == self.to_int(lo as int, hi as int),
            lo <= r <= hi,
    {
        let mag: u64 = self.magnitude_bits();
        if mag > INFINITY_BITS {
            return 0;
        }
        let (negative, m, e) = self.parts();
        if mag == INFINITY_BITS {
            return if negative { lo } else { hi };
        }
        proof {
            lemma2_to64();
            lemma2_to64_rest();
        }
        if e >= 0 {
            if m == 0 {
                assert(0 * pow2(e as nat) == 0) by (nonlinear_arith);
                return 0;
            }
            if e > 12 {
                proof {
                    // m >= 2^52 here, so the value is at least 2^65
                    lemma_pow2_le(13, e as nat);
                    lemma_pow2_adds(5, 8);
                    assert(m * pow2(e as nat) >= 0x0010_0000_0000_0000 * 0x2000) by (nonlinear_arith)
                        requires
                            m >= 0x0010_0000_0000_0000,
                            pow2(e as nat) >= 0x2000,
                    ;
                }
                return if negative { lo } else { hi };
            }
            let scale: u128 = pow2_exec(e as u32);
            proof {
                lemma_pow2_le(e as nat, 12);
                lemma_pow2_adds(4, 8);
                assert(m * scale < 0x0020_0000_0000_0000 * 0x1000) by (nonlinear_arith)
                    requires
                        m < 0x0020_0000_0000_0000,
                        0 <= scale <= 0x1000,
                ;
            }
            let t: i128 = ((m as u128) * scale) as i128;
            let v: i128 = if negative { -t } else { t };
            if v < lo { lo } else if v > hi { hi } else { v }
        } else {
            let t: i128 = if -e > 63 {
                proof {
                    lemma_pow2_le(64, (-e) as nat);
                    lemma_basic_div(m as int, pow2((-e) as nat) as int);
                }
                0
            } else {
                let d: u128 = pow2_exec((-e) as u32);
                proof {
                    lemma_pow2_pos((-e) as nat);
                    vstd::arithmetic::div_mod::lemma_div_nonincreasing(m as int, d as int);
                    lemma_div_pos_is_pos(m as int, d as int);
                }
                ((m as u128) / d) as i128
            };
            let v: i128 = if negative { -t } else { t };
            if v < lo { lo } else if v > hi { hi } else { v }
        }
    }

    /// The value of a cast to `u8`.
    pub fn to_u8(self) -> (r: u8)
        ensures
            r == self.to_int(0, 255),
    {
        self.to_int_exec(0, 255) as u8
    }

    /// The value of a cast to `u32`.
    pub fn to_u32(self) -> (r: u32)
        ensures
            r == self.to_int(0, u32::MAX as int),
    {
        self.to_int_exec(0, 0xFFFF_FFFF) as u32
    }

    /// The value of a cast to `i32`.
    pub fn to_i32(self) -> (r: i32)
        ensures
            r == self.to_int(i32::MIN as int, i32::MAX as int),
    {
        self.to_int_exec(-0x8000_0000, 0x7FFF_FFFF) as i32
    }

    /// The value of a cast to `i64`.
    pub fn to_i64(self) -> (r: i64)
        ensures
            r == self.to_int(i64::MIN as int, i64::MAX as int),
    {
        self.to_int_exec(-0x8000_0000_0000_0000, 0x7FFF_FFFF_FFFF_FFFF) as i64
    }
}

/// Zero converts to positive zero.
pub proof fn lemma_from_int_zero()
    ensures
        float_from_int(0) == zero(false),
{
    lemma2_to64();
    lemma2_to64_rest();
    assert(round_to(0, 0, 53, -1074) == (0nat, -1074int));
}

/// The larger of a number and 1 is at least 1 when cut to a whole
/// number.
pub proof fn lemma_max_with_one(x: F64)
    ensures
        float_max(x, float_from_int(1)).to_int(0, u32::MAX as int) >= 1,
{
    lemma2_to64();
    lemma2_to64_rest();
    let one = float_from_int(1);
    assert(bit_length(1) == 1) by {
        assert(bit_length(0) == 0);
        assert(1int / 2 == 0);
    }
    assert(round_to(1, 0, 53, -1074) == (pow2(52), -52int)) by {
        assert(1 * pow2(52) == pow2(52)) by (nonlinear_arith);
    }
    assert(one.bits == 0x3FF0_0000_0000_0000) by {
        assert((-52 + 1074) * pow2(52) + pow2(52) == 0x3FF0_0000_0000_0000) by (nonlinear_arith)
            requires
                pow2(52) == 0x0010_0000_0000_0000,
        ;
    }
    let m = float_max(x, one);
    // m is x where x is above 1, and 1 otherwise: its pattern is at least that of 1
    assert(!m.is_nan() && !m.is_negative() && m.magnitude() >= 0x3FF0_0000_0000_0000);
    if m.is_finite() {
        let e = m.exponent();
        let sig = m.significand();
        assert(m.magnitude() / HIDDEN_BIT >= 1023);
        if e >= 0 {
            lemma_pow2_pos(e as nat);
            assert(sig * pow2(e as nat) >= 1) by (nonlinear_arith)
                requires
                    sig >= 1,
                    pow2(e as nat) >= 1,
            ;
        } else {
            // sig >= 2^52 and -e <= 52
            lemma_pow2_le((-e) as nat, 52);
            lemma_pow2_pos((-e) as nat);
            vstd::arithmetic::div_mod::lemma_div_is_ordered(
                pow2((-e) as nat) as int,
                sig as int,
                pow2((-e) as nat) as int,
            );
            vstd::arithmetic::div_mod::lemma_div_by_self(pow2((-e) as nat) as int);
        }
    }
}


/// `m1 * 2^e1 <= m2 * 2^e2`.
pub open spec fn scaled_le(m1: nat, e1: int, m2: nat, e2: int) -> bool {
    if e1 >= e2 {
        m1 * pow2((e1 - e2) as nat) <= m2
    } else {
        m1 <= m2 * pow2((e2 - e1) as nat)
    }
}

/// The pattern of a finite number is its exponent and its significand
/// put together.
pub proof fn lemma_parts_of_bits(a: F64)
    requires
        a.is_finite(),
    ensures
        a.magnitude() == (a.exponent() + 1074) * pow2(52) + a.significand(),
        a.significand() < pow2(53),
        -1074 <= a.exponent() <= 971,
        a.exponent() > -1074 ==> a.significand() >= pow2(52),
        a.significand() == 0 <==> a.is_zero(),
{
    lemma2_to64();
    lemma2_to64_rest();
}

/// A quotient rounded to the nearest whole number is at most a whole
/// number that the quotient is at most.
proof fn lemma_round_shift_at_most(m: nat, sh: nat, cap: nat)
    requires
        m <= cap * pow2(sh),
    ensures
        round_shift(m, sh) <= cap,
{
    let d = pow2(sh);
    lemma_pow2_pos(sh);
    let q = m / d;
    let r = m % d;
    lemma_fundamental_div_mod(m as int, d as int);
    lemma_mod_bound(m as int, d as int);
    vstd::arithmetic::div_mod::lemma_div_is_ordered(m as int, (cap * d) as int, d as int);
    vstd::arithmetic::div_mod::lemma_div_by_multiple(cap as int, d as int);
    assert(q <= cap);
    if q == cap {
        assert(d * q == cap * d) by (nonlinear_arith)
            requires
                q == cap,
        ;
        assert(r == 0);
    }
}

/// The significand that rounding gives has at most 53 bits, or is `2^53`
/// after a carry, over the unit of the number's top 53 bits.
proof fn lemma_round_to_shape(m: nat, e: int)
    requires
        m > 0,
    ensures
        round_to(m, e, 53, -1074).0 <= pow2(53),
        round_to(m, e, 53, -1074).1 == if e + bit_length(m) - 53 > -1074 {
            e + bit_length(m) - 53
        } else {
            -1074
        },
{
    let len = bit_length(m);
    let top = e + len - 53;
    let et = if top > -1074 { top } else { -1074 };
    lemma_bit_length_bounds(m);
    if et <= e {
        let sh = (e - et) as nat;
        // m < 2^len and sh <= 53 - len
        lemma_pow2_adds(len, sh);
        lemma_pow2_le(len + sh, 53);
        lemma_pow2_pos(sh);
        lemma_mul_strict_inequality(m as int, pow2(len) as int, pow2(sh) as int);
    } else {
        let sh = (et - e) as nat;
        // m < 2^len <= 2^(53 + sh)
        lemma_pow2_le(len, 53 + sh);
        lemma_pow2_adds(53, sh);
        lemma_round_shift_at_most(m, sh, pow2(53));
    }
}

/// Rounding does not lift a number above a number that can be written
/// with the significand `cap_m` over the unit `2^cap_e`.
pub proof fn lemma_rounded_at_most(m: nat, e: int, cap_m: nat, cap_e: int)
    requires
        scaled_le(m, e, cap_m, cap_e),
        cap_m < pow2(53),
        -1074 <= cap_e <= 971,
        cap_m >= pow2(52) || cap_e == -1074,
    ensures
        rounded(false, m, e).bits <= (cap_e + 1074) * pow2(52) + cap_m,
        !rounded(false, m, e).is_negative(),
        rounded(false, m, e).is_finite(),
{
    lemma2_to64();
    lemma2_to64_rest();
    let p52 = pow2(52);
    assert((cap_e + 1074) * p52 <= 2045 * p52) by (nonlinear_arith)
        requires
            cap_e + 1074 <= 2045,
            p52 > 0,
    ;
    assert((cap_e + 1074) * p52 >= 0) by (nonlinear_arith)
        requires
            cap_e + 1074 >= 0,
            p52 > 0,
    ;
    if m == 0 {
        assert(0 * p52 == 0) by (nonlinear_arith);
    } else {
        let (sig, et) = round_to(m, e, 53, -1074);
        let len = bit_length(m);
        let top = e + len - 53;
        lemma_round_to_shape(m, e);
        lemma_bit_length_bounds(m);
        // the top of the number is not above the unit of the cap
        if top > cap_e {
            if e >= cap_e {
                let d = (e - cap_e) as nat;
                // 2^(len - 1 + d) <= m * 2^d <= cap_m < 2^53
                lemma_pow2_adds((len - 1) as nat, d);
                lemma_pow2_pos(d);
                lemma_mul_inequality(pow2((len - 1) as nat) as int, m as int, pow2(d) as int);
                lemma_pow2_le(53, (len - 1 + d) as nat);
            } else {
                let d = (cap_e - e) as nat;
                // 2^(len - 1) <= m <= cap_m * 2^d < 2^(53 + d)
                lemma_pow2_adds(53, d);
                lemma_pow2_pos(d);
                lemma_mul_strict_inequality(cap_m as int, pow2(53) as int, pow2(d) as int);
                lemma_pow2_le(53 + d, (len - 1) as nat);
            }
            assert(false);
        }
        assert(et <= cap_e);
        if et < cap_e {
            assert((et + 1074) * p52 + sig <= (cap_e + 1074) * p52 + cap_m) by (nonlinear_arith)
                requires
                    et + 1 <= cap_e,
                    sig <= 2 * p52,
                    cap_m >= p52,
                    p52 > 0,
            ;
        } else {
            if et <= e {
                assert(sig == m * pow2((e - et) as nat));
            } else {
                lemma_round_shift_at_most(m, (et - e) as nat, cap_m);
            }
            assert(sig <= cap_m);
        }
        assert((et + 1074) * p52 + sig <= (cap_e + 1074) * p52 + cap_m);
        assert((et + 1074) * p52 >= 0) by (nonlinear_arith)
            requires
                et + 1074 >= 0,
                p52 > 0,
        ;
    }
}

/// A number that is not above another in pattern is not above it in
/// value.
pub proof fn lemma_order_of_parts(a: F64, b: F64)
    requires
        a.is_finite(),
        b.is_finite(),
        a.magnitude() <= b.magnitude(),
    ensures
        scaled_le(a.significand(), a.exponent(), b.significand(), b.exponent()),
        a.exponent() <= b.exponent(),
{
    lemma_parts_of_bits(a);
    lemma_parts_of_bits(b);
    lemma2_to64();
    lemma2_to64_rest();
    let p52 = pow2(52);
    let (am, ae, bm, be) = (a.significand(), a.exponent(), b.significand(), b.exponent());
    if ae > be {
        assert((ae + 1074) * p52 >= (be + 1075) * p52) by (nonlinear_arith)
            requires
                ae >= be + 1,
                p52 > 0,
        ;
        assert(false);
    } else if ae == be {
        assert(am * pow2(0) == am) by (nonlinear_arith)
            requires
                pow2(0) == 1,
        ;
    } else {
        let d = (be - ae) as nat;
        lemma_pow2_le(1, d);
        assert(bm * pow2(d) >= 2 * p52) by (nonlinear_arith)
            requires
                bm >= p52,
                pow2(d) >= 2,
        ;
    }
}

/// The sum of two numbers that are neither negative nor above a normal
/// number `q` is neither negative nor above twice `q`.  A zero of either
/// sign may stand for the second number.
pub proof fn lemma_sum_of_small(a: F64, b: F64, q: F64)
    requires
        q.is_finite(),
        !q.is_negative(),
        q.bits >= HIDDEN_BIT,
        q.exponent() <= 970,
        a.bits <= q.bits,
        b.bits <= q.bits || b.is_zero(),
    ensures
        float_add(false, a, b).bits <= q.bits + HIDDEN_BIT,
{
    lemma2_to64();
    lemma2_to64_rest();
    lemma_parts_of_bits(a);
    lemma_parts_of_bits(b);
    lemma_parts_of_bits(q);
    let p52 = pow2(52);
    let (am, ae, bm, be) = (a.significand(), a.exponent(), b.significand(), b.exponent());
    let (qm, qe) = (q.significand(), q.exponent());
    let (an, bn) = (a.is_negative(), b.is_negative());
    lemma_order_of_parts(a, q);
    assert((qe + 1 + 1074) * p52 + qm == q.bits + HIDDEN_BIT) by (nonlinear_arith)
        requires
            q.bits == (qe + 1074) * p52 + qm,
            p52 == HIDDEN_BIT,
    ;
    if bm == 0 {
        if am == 0 {
        } else {
            lemma_rounded_at_most(am, ae, qm, qe);
        }
    } else {
        lemma_order_of_parts(b, q);
        assert(!bn);
        if am == 0 {
            lemma_rounded_at_most(bm, be, qm, qe);
        } else if ae - be > 64 {
            lemma_far_sum(am, ae, qm, qe);
            lemma_rounded_at_most((am * pow2(66) + 1) as nat, ae - 66, qm, qe + 1);
        } else if be - ae > 64 {
            lemma_far_sum(bm, be, qm, qe);
            lemma_rounded_at_most((bm * pow2(66) + 1) as nat, be - 66, qm, qe + 1);
        } else {
            let e = if ae < be { ae } else { be };
            let x = am * pow2((ae - e) as nat);
            let y = bm * pow2((be - e) as nat);
            lemma_scaled_to(am, ae, qm, qe, e);
            lemma_scaled_to(bm, be, qm, qe, e);
            lemma_pow2_unfold((qe + 1 - e) as nat);
            lemma_pow2_pos((ae - e) as nat);
            assert(x > 0) by (nonlinear_arith)
                requires
                    x == am * pow2((ae - e) as nat),
                    am > 0,
                    pow2((ae - e) as nat) > 0,
            ;
            assert(x + y <= qm * pow2((qe + 1 - e) as nat)) by (nonlinear_arith)
                requires
                    x <= qm * pow2((qe - e) as nat),
                    y <= qm * pow2((qe - e) as nat),
                    pow2((qe + 1 - e) as nat) == 2 * pow2((qe - e) as nat),
            ;
            lemma_rounded_at_most((x + y) as nat, e, qm, qe + 1);
        }
    }
}

/// A number that is at most `qm * 2^qe`, written over a unit `2^e` not
/// above its own, is at most `qm * 2^(qe - e)` of that unit.
proof fn lemma_scaled_to(m: nat, me: int, qm: nat, qe: int, e: int)
    requires
        scaled_le(m, me, qm, qe),
        e <= me <= qe,
    ensures
        m * pow2((me - e) as nat) <= qm * pow2((qe - e) as nat),
{
    let up = pow2((me - e) as nat);
    lemma_pow2_pos((me - e) as nat);
    lemma_pow2_adds((qe - me) as nat, (me - e) as nat);
    if me == qe {
        lemma2_to64();
        assert(m * pow2(0) == m) by (nonlinear_arith)
            requires
                pow2(0) == 1,
        ;
        lemma_mul_inequality(m as int, qm as int, up as int);
    } else {
        lemma_mul_inequality(m as int, (qm * pow2((qe - me) as nat)) as int, up as int);
        assert((qm * pow2((qe - me) as nat)) * up == qm * (pow2((qe - me) as nat) * up)) by (nonlinear_arith);
    }
}

/// A number that is at most `qm * 2^qe`, with one unit 66 places below
/// its own added, is at most twice `qm * 2^qe`.
proof fn lemma_far_sum(m: nat, me: int, qm: nat, qe: int)
    requires
        scaled_le(m, me, qm, qe),
        m > 0,
        me <= qe,
    ensures
        scaled_le((m * pow2(66) + 1) as nat, me - 66, qm, qe + 1),
{
    let d = (qe + 1 - (me - 66)) as nat;
    lemma_scaled_to(m, me, qm, qe, me - 66);
    lemma_pow2_unfold(d);
    lemma_pow2_pos(66);
    assert(m * pow2(66) >= 1) by (nonlinear_arith)
        requires
            m >= 1,
            pow2(66) >= 1,
    ;
    assert(m * pow2(66) + 1 <= qm * pow2(d)) by (nonlinear_arith)
        requires
            m * pow2(66) <= qm * pow2((qe - (me - 66)) as nat),
            m * pow2(66) >= 1,
            pow2(d) == 2 * pow2((qe - (me - 66)) as nat),
    ;
}

/// Taking a normal number `q` from a number that is above `q` and not
/// above twice `q` leaves a number that is neither negative nor above
/// `q`.
pub proof fn lemma_take_from_small(x: F64, q: F64)
    requires
        q.is_finite(),
        !q.is_negative(),
        q.bits >= HIDDEN_BIT,
        q.exponent() <= 970,
        q.bits < x.bits <= q.bits + HIDDEN_BIT,
    ensures
        float_sub(false, x, q).bits <= q.bits,
{
    lemma2_to64();
    lemma2_to64_rest();
    lemma_parts_of_bits(x);
    lemma_parts_of_bits(q);
    let p52 = pow2(52);
    let (xm, xe) = (x.significand(), x.exponent());
    let (qm, qe) = (q.significand(), q.exponent());
    let nq = float_neg(q);
    assert(nq.magnitude() == q.magnitude());
    assert(nq.is_negative());
    if xe < qe {
        assert((xe + 1074) * p52 <= (qe + 1073) * p52) by (nonlinear_arith)
            requires
                xe + 1 <= qe,
                p52 > 0,
        ;
        assert(false);
    }
    if xe > qe + 1 {
        assert((xe + 1074) * p52 >= (qe + 1076) * p52) by (nonlinear_arith)
            requires
                xe >= qe + 2,
                p52 > 0,
        ;
        assert(false);
    }
    let up = pow2((xe - qe) as nat);
    assert(qm * pow2(0) == qm) by (nonlinear_arith)
        requires
            pow2(0) == 1,
    ;
    let s = xm * up - qm;
    if xe == qe {
        assert(xm * up == xm) by (nonlinear_arith)
            requires
                up == 1,
        ;
        assert(xm > qm);
    } else {
        assert(xm * up == 2 * xm) by (nonlinear_arith)
            requires
                up == 2,
        ;
        assert((xe + 1074) * p52 == (qe + 1075) * p52) by (nonlinear_arith)
            requires
                xe == qe + 1,
        ;
        assert((qe + 1075) * p52 == (qe + 1074) * p52 + p52) by (nonlinear_arith);
        assert(xm <= qm);
    }
    assert(0 < s <= qm);
    assert(s * pow2(0) == s) by (nonlinear_arith)
        requires
            pow2(0) == 1,
    ;
    lemma_rounded_at_most(s as nat, qe, qm, qe);
}

/// `1 / 255` is the normal number with the pattern `0x3F70_1010_1010_1010`.
pub proof fn lemma_quantum_bits()
    ensures
        float_div(false, float_from_int(1), float_from_int(255)).bits == 0x3F70_1010_1010_1010,
{
    lemma2_to64();
    lemma2_to64_rest();
    lemma_pow2_128();
    let one = float_from_int(1);
    let full = float_from_int(255);
    assert(bit_length(1) == 1) by {
        assert(bit_length(0) == 0);
        assert(1int / 2 == 0);
    }
    assert(round_to(1, 0, 53, -1074) == (pow2(52), -52int)) by {
        assert(1 * pow2(52) == pow2(52)) by (nonlinear_arith);
    }
    assert(one.bits == 0x3FF0_0000_0000_0000) by {
        assert((-52 + 1074) * pow2(52) + pow2(52) == 0x3FF0_0000_0000_0000) by (nonlinear_arith)
            requires
                pow2(52) == 0x0010_0000_0000_0000,
        ;
    }
    assert(bit_length(255) == 8) by {
        lemma_bit_length_at_most(255, 8);
        lemma_bit_length_at_least(255, 7);
    }
    assert(round_to(255, 0, 53, -1074) == ((255 * pow2(45)) as nat, -45int));
    assert(255 * pow2(45) == 0x001F_E000_0000_0000) by (nonlinear_arith)
        requires
            pow2(45) == 0x2000_0000_0000,
    ;
    assert(full.bits == 0x406F_E000_0000_0000) by {
        assert((-45 + 1074) * pow2(52) + 0x001F_E000_0000_0000 == 0x406F_E000_0000_0000) by (nonlinear_arith)
            requires
                pow2(52) == 0x0010_0000_0000_0000,
        ;
    }
    assert(one.significand() == 0x0010_0000_0000_0000 && one.exponent() == -52);
    assert(full.significand() == 0x001F_E000_0000_0000 && full.exponent() == -45);
    // the quotient of the significands, scaled to 127 bits
    assert(bit_length(0x0010_0000_0000_0000) == 53) by {
        lemma_bit_length_at_most(0x0010_0000_0000_0000, 53);
        lemma_bit_length_at_least(0x0010_0000_0000_0000, 52);
    }
    lemma_pow2_adds(64, 10);
    assert(pow2(74) == 18889465931478580854784) by (nonlinear_arith)
        requires
            pow2(74) == pow2(64) * pow2(10),
            pow2(64) == 0x1_0000_0000_0000_0000,
            pow2(10) == 0x400,
    ;
    let n: nat = 0x0010_0000_0000_0000 * pow2(74);
    assert(n == 85070591730234615865843651857942052864) by (nonlinear_arith)
        requires
            n == 0x0010_0000_0000_0000 * pow2(74),
            pow2(74) == 18889465931478580854784,
    ;
    let q0 = n / 0x001F_E000_0000_0000;
    assert(q0 == 9481771134232385683970);
    assert(n % 0x001F_E000_0000_0000 != 0);
    let m: nat = 2 * q0 + 1;
    assert(m == 18963542268464771367941);
    lemma_pow2_adds(64, 11);
    assert(pow2(75) == 37778931862957161709568) by (nonlinear_arith)
        requires
            pow2(75) == pow2(64) * pow2(11),
            pow2(64) == 0x1_0000_0000_0000_0000,
            pow2(11) == 0x800,
    ;
    assert(bit_length(m) == 75) by {
        lemma_bit_length_at_most(m, 75);
        lemma_bit_length_at_least(m, 74);
    }
    assert(round_shift(m, 22) == 0x0010_1010_1010_1010) by {
        assert(pow2(22) == 0x40_0000);
        assert(m / 0x40_0000 == 0x0010_1010_1010_1010);
        assert(m % 0x40_0000 == 263173);
    }
    assert(round_to(m, -82, 53, -1074) == (0x0010_1010_1010_1010 as nat, -60int));
    assert((-60 + 1074) * pow2(52) + 0x0010_1010_1010_1010 == 0x3F70_1010_1010_1010) by (nonlinear_arith)
        requires
            pow2(52) == 0x0010_0000_0000_0000,
    ;
}

} // verus!

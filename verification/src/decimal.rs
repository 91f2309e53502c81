//! Decimal numerals: reading a number such as `27`, `16.5` or `1e-3`
//! into the nearest double.
use vstd::prelude::*;
use vstd::string::*;
use vstd::arithmetic::power2::{pow2, lemma2_to64, lemma2_to64_rest, lemma_pow2_adds, lemma_pow2_pos};
use crate::float::{F64, finite_quotient, finite_quotient_exec, round_exec, rounded_as, zero};

verus! {

/// The largest power of ten by which a numeral may be scaled: a numeral
/// is read exactly as long as its digits make a 64-bit number and its
/// decimal exponent lies between `-19` and `19`.
pub const MAX_DECIMAL_EXPONENT: i64 = 19;

pub open spec fn is_digit(c: char) -> bool {
    '0' <= c <= '9'
}

pub open spec fn digit_value(c: char) -> nat {
    (c as int - '0' as int) as nat
}

/// Where the run of digits that begins at `from` ends.
pub open spec fn digits_end(s: Seq<char>, from: int) -> int
    decreases s.len() - from,
{
    if 0 <= from < s.len() && is_digit(s[from]) {
        digits_end(s, from + 1)
    } else {
        from
    }
}

/// The number that the digits of `s` from `from` up to `to` write.
pub open spec fn digits_number(s: Seq<char>, from: int, to: int) -> nat
    decreases to - from,
{
    if from >= to {
        0
    } else {
        digits_number(s, from, to - 1) * 10 + digit_value(s[to - 1])
    }
}

/// `10^n`.
pub open spec fn pow10(n: nat) -> nat
    decreases n,
{
    if n == 0 {
        1
    } else {
        10 * pow10((n - 1) as nat)
    }
}

/// Whether `c` is a sign.
pub open spec fn is_sign(c: char) -> bool {
    c == '+' || c == '-'
}

/// A numeral taken apart: its sign, the numbers that the digits before
/// the point, after the point and in the exponent write, the number of
/// digits after the point, and whether the exponent is negative.
pub struct Numeral {
    pub negative: bool,
    pub whole: nat,
    pub part: nat,
    pub places: nat,
    pub down: bool,
    pub power: nat,
}

/// Takes a numeral apart: `sign digits [. digits] [e sign digits]`, with a
/// digit before or after the point.  Gives nothing for a text that is no
/// numeral.
pub open spec fn read_numeral(s: Seq<char>) -> Option<Numeral> {
    let negative = s.len() > 0 && s[0] == '-';
    let start: int = if s.len() > 0 && is_sign(s[0]) { 1 } else { 0 };
    let a = digits_end(s, start);
    let has_point = a < s.len() && s[a] == '.';
    let b = if has_point { digits_end(s, a + 1) } else { a };
    let places: int = if has_point { b - (a + 1) } else { 0 };
    let whole = digits_number(s, start, a);
    let part = if has_point { digits_number(s, a + 1, b) } else { 0 };
    if (a - start) + places == 0 {
        None
    } else if b == s.len() {
        Some(Numeral { negative, whole, part, places: places as nat, down: false, power: 0 })
    } else if s[b] == 'e' || s[b] == 'E' {
        let down = b + 1 < s.len() && s[b + 1] == '-';
        let es: int = if b + 1 < s.len() && is_sign(s[b + 1]) { b + 2 } else { b + 1 };
        let ee = digits_end(s, es);
        if ee == es || ee != s.len() {
            None
        } else {
            Some(Numeral { negative, whole, part, places: places as nat, down, power: digits_number(s, es, ee) })
        }
    } else {
        None
    }
}

impl Numeral {
    /// The number that all the digits before the exponent write.
    pub open spec fn mantissa(self) -> nat {
        self.whole * pow10(self.places) + self.part
    }

    /// The power of ten that scales the mantissa.
    pub open spec fn exponent(self) -> int {
        (if self.down { -(self.power as int) } else { self.power as int }) - self.places
    }
}

/// The double nearest to `m * 10^e` for a mantissa below `2^64` and an
/// exponent between `-19` and `19`; nothing beyond these.
pub open spec fn scaled(negative: bool, m: nat, e: int) -> Option<F64> {
    if m == 0 {
        Some(zero(negative))
    } else if m >= 0x1_0000_0000_0000_0000 || e < -MAX_DECIMAL_EXPONENT || e > MAX_DECIMAL_EXPONENT {
        None
    } else if e >= 0 {
        Some(rounded_as(false, negative, m * pow10(e as nat), 0))
    } else {
        Some(finite_quotient(false, negative, m, 0, pow10((-e) as nat), 0))
    }
}

/// The double that a numeral writes; nothing for a text that is no
/// numeral or that lies beyond what is read exactly.
pub open spec fn decimal_value(s: Seq<char>) -> Option<F64> {
    match read_numeral(s) {
        None => None,
        Some(n) => scaled(n.negative, n.mantissa(), n.exponent()),
    }
}

proof fn lemma_pow10_values()
    ensures
        pow10(0) == 1,
        pow10(19) == 10_000_000_000_000_000_000,
        forall|n: nat| n <= 19 ==> 1 <= #[trigger] pow10(n) <= 10_000_000_000_000_000_000,
{
    reveal_with_fuel(pow10, 20);
    assert forall|n: nat| n <= 19 implies 1 <= #[trigger] pow10(n) <= 10_000_000_000_000_000_000 by {
        lemma_pow10_grows(n, 19);
    }
}

proof fn lemma_pow10_grows(a: nat, b: nat)
    requires
        a <= b,
    ensures
        1 <= pow10(a) <= pow10(b),
    decreases b,
{
    if a < b {
        lemma_pow10_grows(a, (b - 1) as nat);
    } else if a > 0 {
        lemma_pow10_grows((a - 1) as nat, (a - 1) as nat);
    }
}

/// `10^n` for `n` up to 19.
fn pow10_exec(n: u32) -> (r: u64)
    requires
        n <= 19,
    ensures
        r == pow10(n as nat),
{
    let mut r: u64 = 1;
    let mut i: u32 = 0;
    while i < n
        invariant
            i <= n <= 19,
            r == pow10(i as nat),
        decreases n - i,
    {
        proof {
            lemma_pow10_values();
            lemma_pow10_grows((i + 1) as nat, 19);
        }
        r = r * 10;
        i = i + 1;
    }
    r
}

/// What a scan of digits knows of a number too long to keep: a bound
/// that it has reached.
pub open spec fn capped(value: nat, kept: u128, limit: nat) -> bool {
    if value < limit {
        kept == value
    } else {
        kept >= limit
    }
}

/// Reads the digits from `from` on.  Returns where they end and the
/// number they write; a number of `2^100` or more is given as some number
/// that large.
fn scan_digits(s: &str, n: usize, from: usize) -> (r: (usize, u128))
    requires
        n == s@.len(),
        from <= n,
    ensures
        r.0 == digits_end(s@, from as int),
        from <= r.0 <= n,
        capped(digits_number(s@, from as int, r.0 as int), r.1, pow2(100)),
        r.1 < pow2(104),
        r.0 == from ==> r.1 == 0,
{
    proof {
        lemma2_to64();
        lemma_pow2_adds(64, 36);
        lemma_pow2_adds(64, 40);
        lemma_pow2_adds(32, 4);
        lemma_pow2_adds(32, 8);
        lemma2_to64_rest();
    }
    let mut i = from;
    let mut acc: u128 = 0;
    while i < n
        invariant
            n == s@.len(),
            from <= i <= n,
            digits_end(s@, from as int) == digits_end(s@, i as int),
            capped(digits_number(s@, from as int, i as int), acc, pow2(100)),
            acc < pow2(104),
            i == from ==> acc == 0,
            pow2(100) == 0x10_0000_0000_0000_0000_0000_0000,
            pow2(104) == 0x100_0000_0000_0000_0000_0000_0000,
        decreases n - i,
    {
        let c = s.get_char(i);
        if !(c >= '0' && c <= '9') {
            return (i, acc);
        }
        let d: u128 = (c as u32 - '0' as u32) as u128;
        assert(digits_number(s@, from as int, i + 1) == digits_number(s@, from as int, i as int) * 10 + d);
        if acc < 0x10_0000_0000_0000_0000_0000_0000 {
            acc = acc * 10 + d;
        }
        i = i + 1;
    }
    (i, acc)
}

/// A run of `n` digits writes a number below `10^n`.
proof fn lemma_digits_bound(s: Seq<char>, from: int, to: int)
    requires
        0 <= from <= to <= s.len(),
        forall|k: int| from <= k < to ==> is_digit(#[trigger] s[k]),
    ensures
        digits_number(s, from, to) < pow10((to - from) as nat),
    decreases to - from,
{
    if from < to {
        lemma_digits_bound(s, from, to - 1);
    }
}

/// Every position before the end of a run of digits holds a digit.
proof fn lemma_digits_run(s: Seq<char>, from: int)
    requires
        0 <= from <= s.len(),
    ensures
        from <= digits_end(s, from) <= s.len(),
        forall|k: int| from <= k < digits_end(s, from) ==> is_digit(#[trigger] s[k]),
    decreases s.len() - from,
{
    if from < s.len() && is_digit(s[from]) {
        lemma_digits_run(s, from + 1);
    }
}

/// The double nearest to `m * 10^e`.
fn scale_decimal(negative: bool, m: u128, e: i128) -> (r: Option<F64>)
    ensures
        r == scaled(negative, m as nat, e as int),
{
    proof {
        lemma2_to64();
        lemma2_to64_rest();
        lemma_pow10_values();
    }
    if m == 0 {
        return Some(F64 { bits: if negative { crate::float::SIGN_MASK } else { 0 } });
    }
    if m >= 0x1_0000_0000_0000_0000 || e < -19 || e > 19 {
        return None;
    }
    if e >= 0 {
        let p = pow10_exec(e as u32);
        assert(m * p < 0x1_0000_0000_0000_0000 * 10_000_000_000_000_000_000) by (nonlinear_arith)
            requires
                m < 0x1_0000_0000_0000_0000,
                0 <= p <= 10_000_000_000_000_000_000,
        ;
        Some(round_exec(false, negative, m * (p as u128), 0))
    } else {
        let p = pow10_exec((-e) as u32);
        Some(finite_quotient_exec(false, negative, m as u64, 0, p, 0))
    }
}

/// A number scaled by a power of ten is at least the power, and at least
/// the number.
proof fn lemma_scaled_bound(x: nat, p: nat, y: nat)
    requires
        p >= 1,
    ensures
        x * p + y >= x,
        x >= 1 ==> x * p + y >= p,
        x == 0 ==> x * p + y == y,
{
    assert(x * p >= x) by (nonlinear_arith)
        requires
            p >= 1,
    ;
    if x >= 1 {
        assert(x * p >= p) by (nonlinear_arith)
            requires
                x >= 1,
        ;
    } else {
        assert(0 * p == 0) by (nonlinear_arith);
    }
}

/// Twenty digits are too many for a 64-bit number.
proof fn lemma_pow10_20(n: nat)
    requires
        n >= 20,
    ensures
        pow10(n) >= 0x1_0000_0000_0000_0000,
{
    lemma_pow10_values();
    lemma_pow10_grows(20, n);
    assert(pow10(20) == 10 * pow10(19));
}

/// What a scan kept of a numeral: each number as far as it was kept.
pub struct Scanned {
    pub negative: bool,
    pub whole: u128,
    pub part: u128,
    pub places: usize,
    pub down: bool,
    pub power: u128,
}

impl Scanned {
    /// Whether the scan kept the numeral `n`.
    pub open spec fn keeps(self, n: Numeral) -> bool {
        &&& self.negative == n.negative
        &&& self.down == n.down
        &&& self.places == n.places
        &&& capped(n.whole, self.whole, pow2(100))
        &&& capped(n.part, self.part, pow2(100))
        &&& capped(n.power, self.power, pow2(100))
    }
}

/// Takes a numeral apart.
fn scan_numeral(s: &str) -> (r: Option<Scanned>)
    ensures
        r is None <==> read_numeral(s@) is None,
        r is Some ==> r->0.keeps(read_numeral(s@)->0),
{
    let n = s.unicode_len();
    let negative = n > 0 && s.get_char(0) == '-';
    let start: usize = if n > 0 && (s.get_char(0) == '+' || s.get_char(0) == '-') { 1 } else { 0 };
    let (a, whole) = scan_digits(s, n, start);
    let has_point = a < n && s.get_char(a) == '.';
    let (b, part) = if has_point { scan_digits(s, n, a + 1) } else { (a, 0) };
    let places: usize = if has_point { b - (a + 1) } else { 0 };
    if (a - start) + places == 0 {
        return None;
    }
    proof {
        lemma_pow2_pos(100);
    }
    if b == n {
        return Some(Scanned { negative, whole, part, places, down: false, power: 0 });
    }
    let c = s.get_char(b);
    if !(c == 'e' || c == 'E') {
        return None;
    }
    let down = b + 1 < n && s.get_char(b + 1) == '-';
    let es: usize = if b + 1 < n && (s.get_char(b + 1) == '+' || s.get_char(b + 1) == '-') {
        b + 2
    } else {
        b + 1
    };
    let (ee, power) = scan_digits(s, n, es);
    if ee == es || ee != n {
        return None;
    }
    Some(Scanned { negative, whole, part, places, down, power })
}

/// The double that a scanned numeral writes.
fn scanned_value(sc: Scanned, Ghost(n): Ghost<Numeral>) -> (r: Option<F64>)
    requires
        sc.keeps(n),
    ensures
        r == scaled(n.negative, n.mantissa(), n.exponent()),
{
    proof {
        lemma2_to64();
        lemma2_to64_rest();
        lemma_pow2_adds(64, 36);
        lemma_pow10_values();
        lemma_pow10_grows(0, n.places);
        lemma_scaled_bound(n.whole, pow10(n.places), n.part);
    }
    if sc.whole == 0 && sc.part == 0 {
        return Some(F64 { bits: if sc.negative { crate::float::SIGN_MASK } else { 0 } });
    }
    if sc.whole >= 0x1_0000_0000_0000_0000 || sc.part >= 0x1_0000_0000_0000_0000 {
        return None;
    }
    if sc.whole != 0 && sc.places > 19 {
        proof {
            lemma_pow10_20(n.places);
        }
        return None;
    }
    let lifted: u128 = if sc.whole == 0 {
        0
    } else {
        let p = pow10_exec(sc.places as u32);
        assert(sc.whole * p < 0x1_0000_0000_0000_0000 * 10_000_000_000_000_000_000) by (nonlinear_arith)
            requires
                sc.whole < 0x1_0000_0000_0000_0000,
                0 <= p <= 10_000_000_000_000_000_000,
        ;
        sc.whole * (p as u128)
    };
    let m: u128 = lifted + sc.part;
    // an exponent too long to keep is far out of range either way
    let e: i128 = if sc.power >= 0x10_0000_0000_0000_0000_0000_0000 {
        if sc.down {
            -0x1_0000_0000
        } else {
            0x1_0000_0000
        }
    } else if sc.down {
        -(sc.power as i128) - sc.places as i128
    } else {
        sc.power as i128 - sc.places as i128
    };
    assert(m == n.mantissa());
    scale_decimal(sc.negative, m, e)
}

/// Reads a numeral.  Returns the double nearest to the number it
/// writes; nothing for a text that is no numeral, and nothing for one
/// whose digits do not make a 64-bit number or whose decimal exponent
/// lies beyond 19 either way.
pub fn parse_decimal(s: &str) -> (r: Option<F64>)
    ensures
        r == decimal_value(s@),
{
    match scan_numeral(s) {
        None => None,
        Some(sc) => scanned_value(sc, Ghost(read_numeral(s@)->0)),
    }
}

} // verus!

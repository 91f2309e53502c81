//! Pixel arithmetic: the alpha curves of the tools, the carry of alpha too
//! small for one stamp, and the blends that put a colour over a pixel.
//!
//! Channels and opacities are doubles between 0 and 255 or between 0 and
//! 1; every step is one rounded operation of [`crate::float`], in the
//! order written here.
use vstd::prelude::*;
use crate::{AlphaType, Color};
use crate::float::{
    F64, float_add, float_sub, float_mul, float_div, float_sqrt, float_min, float_max, float_lt,
    float_le, float_neg, float_from_int, float_round_integral,
};

verus! {

/// The double equal to the small integer `n`.
pub open spec fn num(n: int) -> F64 {
    float_from_int(n)
}

/// `1 / 255`: the smallest opacity a pixel can hold.
pub open spec fn quantum() -> F64 {
    float_div(false, num(1), num(255))
}

/// `x` held to the range from 0 to 1.
pub open spec fn unit_clamp(x: F64) -> F64 {
    float_max(float_min(x, num(1)), num(0))
}

/// The pen curve: `1/16 + (a - 1/2) * 30 / 16` above one half, and
/// `sqrt(2a) / 16` up to it, where `a` is the colour's alpha over 255.
pub open spec fn pen_curve(a: F64) -> F64 {
    let half = float_div(false, num(1), num(2));
    if float_lt(half, a) {
        float_add(
            false,
            float_div(false, num(1), num(16)),
            float_div(false, float_mul(false, float_sub(false, a, half), num(30)), num(16)),
        )
    } else {
        float_div(false, float_sqrt(float_mul(false, num(2), a)), num(16))
    }
}

/// The brush curve: `-0.00056 a + 0.0042 / (1 - a) - 0.0042`.
pub open spec fn brush_curve(a: F64) -> F64 {
    let slope = float_neg(float_div(false, num(56), num(100000)));
    let gain = float_div(false, num(42), num(10000));
    float_sub(
        false,
        float_add(false, float_mul(false, slope, a), float_div(false, gain, float_sub(false, num(1), a))),
        gain,
    )
}

/// The opacity of one stamp of a colour with alpha `alpha`, before the
/// carry: the tool's curve, held to the range from 0 to 1.  The fill curve
/// is ten times the brush curve.
pub open spec fn stamp_alpha(alpha_type: AlphaType, alpha: u8) -> F64 {
    let a = float_div(false, num(alpha as int), num(255));
    match alpha_type {
        AlphaType::Pen => unit_clamp(pen_curve(a)),
        AlphaType::Fill => unit_clamp(float_mul(false, brush_curve(a), num(10))),
        AlphaType::Brush => unit_clamp(brush_curve(a)),
    }
}

/// Whether one more quantum can leave the carry: the carry is above one
/// quantum, and without it is a smaller number that is not negative.
pub open spec fn can_release(aerr: F64) -> bool {
    let rest = float_sub(false, aerr, quantum());
    float_lt(quantum(), aerr) && float_lt(rest, aerr) && float_le(num(0), rest)
}

/// Takes quanta out of the carry while it is above one quantum.  Returns
/// the stamp opacity, which is one quantum once any has left and `a1`
/// otherwise, and the carry that is left.
pub open spec fn release(aerr: F64, a1: F64) -> (F64, F64)
    decreases aerr.magnitude(),
    via release_decreases
{
    if can_release(aerr) {
        release(float_sub(false, aerr, quantum()), quantum())
    } else {
        (a1, aerr)
    }
}

#[via_fn]
proof fn release_decreases(aerr: F64, a1: F64) {
    if can_release(aerr) {
        lemma_release_shrinks(aerr);
    }
}

/// The opacity of the next stamp and the carry after it.  An opacity
/// below one quantum is added to the carry and the stamp draws nothing,
/// unless the carry has grown above one quantum: then it gives one back.
pub open spec fn settle(aerr: F64, a1: F64) -> (F64, F64) {
    if float_lt(a1, quantum()) {
        release(float_add(false, aerr, a1), num(0))
    } else {
        (a1, aerr)
    }
}

/// Whether a carry is in its range: not negative, and at most one
/// quantum.
pub open spec fn carry_in_range(aerr: F64) -> bool {
    aerr.bits <= quantum().bits
}

/// The opacity that a curve gives is a number that is not negative, or a
/// zero.
proof fn lemma_unit_clamp_sign(x: F64)
    ensures
        !unit_clamp(x).is_nan() || x.is_nan(),
        !unit_clamp(x).is_negative() || unit_clamp(x).is_zero(),
{
    crate::float::lemma_from_int_zero();
}

/// A carry in its range stays in its range over every stamp: after the
/// opacity of a stamp has been settled against it, it is again not
/// negative and at most one quantum.
pub proof fn lemma_settle_in_range(aerr: F64, kind: AlphaType, alpha: u8)
    requires
        carry_in_range(aerr),
    ensures
        carry_in_range(settle(aerr, stamp_alpha(kind, alpha)).1),
{
    let q = quantum();
    let a1 = stamp_alpha(kind, alpha);
    crate::float::lemma_quantum_bits();
    crate::float::lemma_from_int_zero();
    crate::float::lemma_parts_of_bits(q);
    assert(q.bits == 0x3F70_1010_1010_1010);
    assert(q.exponent() <= 970);
    if float_lt(a1, q) {
        let a = float_div(false, num(alpha as int), num(255));
        match kind {
            AlphaType::Pen => lemma_unit_clamp_sign(pen_curve(a)),
            AlphaType::Fill => lemma_unit_clamp_sign(float_mul(false, brush_curve(a), num(10))),
            AlphaType::Brush => lemma_unit_clamp_sign(brush_curve(a)),
        }
        assert(a1.bits <= q.bits || a1.is_zero());
        let x = float_add(false, aerr, a1);
        crate::float::lemma_sum_of_small(aerr, a1, q);
        reveal_with_fuel(release, 3);
        if x.bits > q.bits {
            let rest = float_sub(false, x, q);
            crate::float::lemma_take_from_small(x, q);
            assert(can_release(x));
            assert(!can_release(rest));
        } else {
            assert(!can_release(x));
        }
    }
}

/// A number rounded towards the source channel: up if the source channel
/// `c1` is above the pixel's `c0`, down otherwise.
pub open spec fn toward_source(c: F64, c1: u8, c0: u8) -> F64 {
    float_round_integral(c, c1 > c0)
}

/// `a0 + a1 - a0 * a1`: the opacity of `a1` over `a0`.
pub open spec fn over_alpha(a0: F64, a1: F64) -> F64 {
    float_sub(false, float_add(false, a0, a1), float_mul(false, a0, a1))
}

/// The alpha byte of an opacity: `ceil(255 a)`, at most 255.
pub open spec fn alpha_byte(a: F64) -> u8 {
    float_min(float_round_integral(float_mul(false, a, num(255)), true), num(255)).to_int(0, 255) as u8
}

/// One channel of the pen: `(c1 a1x + c0 a0 (1 - a1x)) / a`.
pub open spec fn pen_channel(c1: u8, c0: u8, a0: F64, a1x: F64, a: F64) -> u8 {
    let c = float_div(
        false,
        float_add(
            false,
            float_mul(false, num(c1 as int), a1x),
            float_mul(false, float_mul(false, num(c0 as int), a0), float_sub(false, num(1), a1x)),
        ),
        a,
    );
    toward_source(c, c1, c0).to_int(0, 255) as u8
}

/// The pixel `dst` after one pen stamp of the colour `src` with opacity
/// `a1`.  The alpha of `src` plays no part: `a1` stands for it.
pub open spec fn pen_blend(dst: Color, src: Color, a1: F64) -> Color {
    let a0 = float_div(false, num(dst.a as int), num(255));
    let a = over_alpha(a0, a1);
    let a1x = float_max(a1, quantum());
    if float_lt(num(0), a) {
        Color {
            r: pen_channel(src.r, dst.r, a0, a1x, a),
            g: pen_channel(src.g, dst.g, a0, a1x, a),
            b: pen_channel(src.b, dst.b, a0, a1x, a),
            a: alpha_byte(a),
        }
    } else {
        Color { r: dst.r, g: dst.g, b: dst.b, a: alpha_byte(a) }
    }
}

/// One channel of the brush: `(c1 a1x + c0 a0) / (a0 + a1x)`.
pub open spec fn brush_channel(c1: u8, c0: u8, a0: F64, a1x: F64) -> u8 {
    let c = float_div(
        false,
        float_add(false, float_mul(false, num(c1 as int), a1x), float_mul(false, num(c0 as int), a0)),
        float_add(false, a0, a1x),
    );
    toward_source(c, c1, c0).to_int(0, 255) as u8
}

/// The pixel `dst` after one brush stamp of the colour `src` with opacity
/// `a1`.
pub open spec fn brush_blend(dst: Color, src: Color, a1: F64) -> Color {
    let a0 = float_div(false, num(dst.a as int), num(255));
    let a = over_alpha(a0, a1);
    let a1x = float_max(a1, quantum());
    if float_lt(num(0), a) {
        Color {
            r: brush_channel(src.r, dst.r, a0, a1x),
            g: brush_channel(src.g, dst.g, a0, a1x),
            b: brush_channel(src.b, dst.b, a0, a1x),
            a: alpha_byte(a),
        }
    } else {
        Color { r: dst.r, g: dst.g, b: dst.b, a: alpha_byte(a) }
    }
}

/// One channel of a fill: `(c1 + c0 a0 (1 - a1)) / (1 + a0 (1 - a1))`.
pub open spec fn fill_channel(c1: u8, c0: u8, a0: F64, a1: F64) -> u8 {
    let rest = float_sub(false, num(1), a1);
    let c = float_div(
        false,
        float_add(false, num(c1 as int), float_mul(false, float_mul(false, num(c0 as int), a0), rest)),
        float_add(false, num(1), float_mul(false, a0, rest)),
    );
    toward_source(c, c1, c0).to_int(0, 255) as u8
}

/// The pixel `dst` after a fill with the colour `src` and opacity `a1`.
/// The alpha is `ceil(255 a)` held to a byte.
pub open spec fn fill_blend(dst: Color, src: Color, a1: F64) -> Color {
    let a0 = float_div(false, num(dst.a as int), num(255));
    let a = over_alpha(a0, a1);
    let alpha = float_round_integral(float_mul(false, a, num(255)), true).to_int(0, 255) as u8;
    if float_lt(num(0), a) {
        Color {
            r: fill_channel(src.r, dst.r, a0, a1),
            g: fill_channel(src.g, dst.g, a0, a1),
            b: fill_channel(src.b, dst.b, a0, a1),
            a: alpha,
        }
    } else {
        Color { r: dst.r, g: dst.g, b: dst.b, a: alpha }
    }
}

/// `x + 1/2`, cut to a byte: rounding to the nearest, a half going up.
pub open spec fn half_up(x: F64) -> u8 {
    float_add(false, x, float_div(false, num(1), num(2))).to_int(0, 255) as u8
}

/// One channel of a merge: `(c1 a1 + c0 a0 (1 - a1)) / a`.
pub open spec fn merge_channel(c1: u8, c0: u8, a0: F64, a1: F64, a: F64) -> u8 {
    half_up(
        float_div(
            false,
            float_add(
                false,
                float_mul(false, num(c1 as int), a1),
                float_mul(false, float_mul(false, num(c0 as int), a0), float_sub(false, num(1), a1)),
            ),
            a,
        ),
    )
}

/// The pixel `upper` laid over the pixel `lower`, both with their own
/// alpha: straight-alpha over, each channel rounded half up.
pub open spec fn merge_blend(lower: Color, upper: Color) -> Color {
    let a0 = float_div(false, num(lower.a as int), num(255));
    let a1 = float_div(false, num(upper.a as int), num(255));
    let a = over_alpha(a0, a1);
    let alpha = half_up(float_mul(false, a, num(255)));
    if float_lt(num(0), a) {
        Color {
            r: merge_channel(upper.r, lower.r, a0, a1, a),
            g: merge_channel(upper.g, lower.g, a0, a1, a),
            b: merge_channel(upper.b, lower.b, a0, a1, a),
            a: alpha,
        }
    } else {
        Color { r: 0, g: 0, b: 0, a: alpha }
    }
}

/// `fg * alpha + bg * inv` in single precision, cut to a byte.
pub open spec fn mix_channel(fg: u8, bg: u8, alpha: F64, inv: F64) -> u8 {
    float_add(
        true,
        float_mul(true, num(fg as int), alpha),
        float_mul(true, num(bg as int), inv),
    ).to_int(0, 255) as u8
}

/// The opacity of an alpha byte in single precision.
pub open spec fn byte_alpha(a: u8) -> F64 {
    float_div(true, num(a as int), num(255))
}

/// The colour `fg` over an opaque background: `c a + bg (1 - a)` on each
/// channel, in single precision, cut to a byte.  A transparent `fg`
/// leaves the background as it is.
pub open spec fn mix_over(fg: Color, bg: (u8, u8, u8)) -> (u8, u8, u8) {
    let alpha = byte_alpha(fg.a);
    let inv = float_sub(true, num(1), alpha);
    if fg.a > 0 {
        (mix_channel(fg.r, bg.0, alpha, inv), mix_channel(fg.g, bg.1, alpha, inv), mix_channel(fg.b, bg.2, alpha, inv))
    } else {
        bg
    }
}

/// The pixel `dst` under a glyph pixel of the colour `ink` with the alpha
/// byte `alpha`: each channel mixed as in [`mix_over`], and the alpha
/// `alpha + dst.a (1 - alpha / 255)`, at most 255.
pub open spec fn text_blend(dst: Color, ink: Color, alpha: u8) -> Color {
    let af = byte_alpha(alpha);
    let inv = float_sub(true, num(1), af);
    Color {
        r: mix_channel(ink.r, dst.r, af, inv),
        g: mix_channel(ink.g, dst.g, af, inv),
        b: mix_channel(ink.b, dst.b, af, inv),
        a: float_min(
            float_add(true, num(alpha as int), float_mul(true, num(dst.a as int), inv)),
            num(255),
        ).to_int(0, 255) as u8,
    }
}

/// The double equal to `v`.
pub fn num_exec(v: u32) -> (r: F64)
    ensures
        r == num(v as int),
{
    F64::from_u32(v)
}

fn n(v: u32) -> (r: F64)
    ensures
        r == num(v as int),
{
    num_exec(v)
}

fn quantum_exec() -> (r: F64)
    ensures
        r == quantum(),
{
    n(1).over(n(255))
}

fn unit_clamp_exec(x: F64) -> (r: F64)
    ensures
        r == unit_clamp(x),
{
    x.min(n(1)).max(n(0))
}

/// The opacity of one stamp of a colour with alpha `alpha`, before the
/// carry.
pub fn stamp_alpha_exec(alpha_type: AlphaType, alpha: u8) -> (r: F64)
    ensures
        r == stamp_alpha(alpha_type, alpha),
{
    let a = n(alpha as u32).over(n(255));
    match alpha_type {
        AlphaType::Pen => {
            let half = n(1).over(n(2));
            let curve = if half.lt(a) {
                n(1).over(n(16)).plus(a.minus(half).times(n(30)).over(n(16)))
            } else {
                n(2).times(a).sqrt().over(n(16))
            };
            unit_clamp_exec(curve)
        },
        AlphaType::Fill => {
            let slope = n(56).over(n(100000)).negated();
            let gain = n(42).over(n(10000));
            let curve = slope.times(a).plus(gain.over(n(1).minus(a))).minus(gain);
            unit_clamp_exec(curve.times(n(10)))
        },
        AlphaType::Brush => {
            let slope = n(56).over(n(100000)).negated();
            let gain = n(42).over(n(10000));
            let curve = slope.times(a).plus(gain.over(n(1).minus(a))).minus(gain);
            unit_clamp_exec(curve)
        },
    }
}

/// The opacity of the next stamp and the carry after it.
pub fn settle_exec(aerr: F64, a1: F64) -> (r: (F64, F64))
    ensures
        r == settle(aerr, a1),
{
    let q = quantum_exec();
    if !a1.lt(q) {
        return (a1, aerr);
    }
    let mut carry = aerr.plus(a1);
    let mut out = n(0);
    loop
        invariant
            q == quantum(),
            settle(aerr, a1) == release(carry, out),
        decreases carry.magnitude(),
    {
        let rest = carry.minus(q);
        if !(q.lt(carry) && rest.lt(carry) && n(0).le(rest)) {
            return (out, carry);
        }
        proof {
            lemma_release_shrinks(carry);
        }
        carry = rest;
        out = q;
    }
}

/// Where a quantum can leave the carry, the carry's bit pattern shrinks.
proof fn lemma_release_shrinks(aerr: F64)
    requires
        can_release(aerr),
    ensures
        float_sub(false, aerr, quantum()).magnitude() < aerr.magnitude(),
{
    let rest = float_sub(false, aerr, quantum());
    crate::float::lemma_from_int_zero();
    // 0 <= rest < aerr as numbers: both keys are magnitudes
    if rest.is_negative() {
        assert(rest.magnitude() == 0);
    }
}

fn over_alpha_exec(a0: F64, a1: F64) -> (r: F64)
    ensures
        r == over_alpha(a0, a1),
{
    a0.plus(a1).minus(a0.times(a1))
}

fn alpha_byte_exec(a: F64) -> (r: u8)
    ensures
        r == alpha_byte(a),
{
    a.times(n(255)).ceil().min(n(255)).to_u8()
}

fn toward_source_exec(c: F64, c1: u8, c0: u8) -> (r: F64)
    ensures
        r == toward_source(c, c1, c0),
{
    if c1 > c0 {
        c.ceil()
    } else {
        c.floor()
    }
}

fn pen_channel_exec(c1: u8, c0: u8, a0: F64, a1x: F64, a: F64) -> (r: u8)
    ensures
        r == pen_channel(c1, c0, a0, a1x, a),
{
    let c = n(c1 as u32).times(a1x).plus(n(c0 as u32).times(a0).times(n(1).minus(a1x))).over(a);
    toward_source_exec(c, c1, c0).to_u8()
}

/// The pixel `dst` after one pen stamp of the colour `src` with opacity
/// `a1`.
pub fn pen_blend_exec(dst: Color, src: Color, a1: F64) -> (r: Color)
    ensures
        r == pen_blend(dst, src, a1),
{
    let a0 = n(dst.a as u32).over(n(255));
    let a = over_alpha_exec(a0, a1);
    let a1x = a1.max(quantum_exec());
    if n(0).lt(a) {
        Color {
            r: pen_channel_exec(src.r, dst.r, a0, a1x, a),
            g: pen_channel_exec(src.g, dst.g, a0, a1x, a),
            b: pen_channel_exec(src.b, dst.b, a0, a1x, a),
            a: alpha_byte_exec(a),
        }
    } else {
        Color { r: dst.r, g: dst.g, b: dst.b, a: alpha_byte_exec(a) }
    }
}

fn brush_channel_exec(c1: u8, c0: u8, a0: F64, a1x: F64) -> (r: u8)
    ensures
        r == brush_channel(c1, c0, a0, a1x),
{
    let c = n(c1 as u32).times(a1x).plus(n(c0 as u32).times(a0)).over(a0.plus(a1x));
    toward_source_exec(c, c1, c0).to_u8()
}

/// The pixel `dst` after one brush stamp of the colour `src` with opacity
/// `a1`.
pub fn brush_blend_exec(dst: Color, src: Color, a1: F64) -> (r: Color)
    ensures
        r == brush_blend(dst, src, a1),
{
    let a0 = n(dst.a as u32).over(n(255));
    let a = over_alpha_exec(a0, a1);
    let a1x = a1.max(quantum_exec());
    if n(0).lt(a) {
        Color {
            r: brush_channel_exec(src.r, dst.r, a0, a1x),
            g: brush_channel_exec(src.g, dst.g, a0, a1x),
            b: brush_channel_exec(src.b, dst.b, a0, a1x),
            a: alpha_byte_exec(a),
        }
    } else {
        Color { r: dst.r, g: dst.g, b: dst.b, a: alpha_byte_exec(a) }
    }
}

fn fill_channel_exec(c1: u8, c0: u8, a0: F64, a1: F64) -> (r: u8)
    ensures
        r == fill_channel(c1, c0, a0, a1),
{
    let rest = n(1).minus(a1);
    let c = n(c1 as u32).plus(n(c0 as u32).times(a0).times(rest)).over(n(1).plus(a0.times(rest)));
    toward_source_exec(c, c1, c0).to_u8()
}

/// The pixel `dst` after a fill with the colour `src` and opacity `a1`.
pub fn fill_blend_exec(dst: Color, src: Color, a1: F64) -> (r: Color)
    ensures
        r == fill_blend(dst, src, a1),
{
    let a0 = n(dst.a as u32).over(n(255));
    let a = over_alpha_exec(a0, a1);
    let alpha = a.times(n(255)).ceil().to_u8();
    if n(0).lt(a) {
        Color {
            r: fill_channel_exec(src.r, dst.r, a0, a1),
            g: fill_channel_exec(src.g, dst.g, a0, a1),
            b: fill_channel_exec(src.b, dst.b, a0, a1),
            a: alpha,
        }
    } else {
        Color { r: dst.r, g: dst.g, b: dst.b, a: alpha }
    }
}

fn half_up_exec(x: F64) -> (r: u8)
    ensures
        r == half_up(x),
{
    x.plus(n(1).over(n(2))).to_u8()
}

fn merge_channel_exec(c1: u8, c0: u8, a0: F64, a1: F64, a: F64) -> (r: u8)
    ensures
        r == merge_channel(c1, c0, a0, a1, a),
{
    half_up_exec(n(c1 as u32).times(a1).plus(n(c0 as u32).times(a0).times(n(1).minus(a1))).over(a))
}

/// The pixel `upper` laid over the pixel `lower`.
pub fn merge_blend_exec(lower: Color, upper: Color) -> (r: Color)
    ensures
        r == merge_blend(lower, upper),
{
    let a0 = n(lower.a as u32).over(n(255));
    let a1 = n(upper.a as u32).over(n(255));
    let a = over_alpha_exec(a0, a1);
    let alpha = half_up_exec(a.times(n(255)));
    if n(0).lt(a) {
        Color {
            r: merge_channel_exec(upper.r, lower.r, a0, a1, a),
            g: merge_channel_exec(upper.g, lower.g, a0, a1, a),
            b: merge_channel_exec(upper.b, lower.b, a0, a1, a),
            a: alpha,
        }
    } else {
        Color { r: 0, g: 0, b: 0, a: alpha }
    }
}

fn mix_channel_exec(fg: u8, bg: u8, alpha: F64, inv: F64) -> (r: u8)
    ensures
        r == mix_channel(fg, bg, alpha, inv),
{
    n(fg as u32).times_single(alpha).plus_single(n(bg as u32).times_single(inv)).to_u8()
}

/// The colour `fg` over an opaque background.
pub fn mix_over_exec(fg: Color, bg: (u8, u8, u8)) -> (r: (u8, u8, u8))
    ensures
        r == mix_over(fg, bg),
{
    if fg.a > 0 {
        let alpha = n(fg.a as u32).over_single(n(255));
        let inv = n(1).minus_single(alpha);
        (
            mix_channel_exec(fg.r, bg.0, alpha, inv),
            mix_channel_exec(fg.g, bg.1, alpha, inv),
            mix_channel_exec(fg.b, bg.2, alpha, inv),
        )
    } else {
        bg
    }
}

/// The pixel `dst` under a glyph pixel of the colour `ink` with the alpha
/// byte `alpha`.
pub fn text_blend_exec(dst: Color, ink: Color, alpha: u8) -> (r: Color)
    ensures
        r == text_blend(dst, ink, alpha),
{
    let af = n(alpha as u32).over_single(n(255));
    let inv = n(1).minus_single(af);
    Color {
        r: mix_channel_exec(ink.r, dst.r, af, inv),
        g: mix_channel_exec(ink.g, dst.g, af, inv),
        b: mix_channel_exec(ink.b, dst.b, af, inv),
        a: n(alpha as u32).plus_single(n(dst.a as u32).times_single(inv)).min(n(255)).to_u8(),
    }
}

} // verus!

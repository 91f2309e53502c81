// The blends of the library against the same formulas in hardware
// floating point.
use neo_replay::blend::{
    brush_blend_exec, fill_blend_exec, merge_blend_exec, mix_over_exec, pen_blend_exec, settle_exec,
    stamp_alpha_exec, text_blend_exec,
};
use neo_replay::float::F64;
use neo_replay::{AlphaType, Color};

fn d(x: f64) -> F64 {
    F64 { bits: x.to_bits() }
}

fn curve(kind: AlphaType, alpha: u8) -> f64 {
    let mut a1 = alpha as f64 / 255.0;
    match kind {
        AlphaType::Pen => {
            if a1 > 0.5 {
                a1 = 1.0 / 16.0 + ((a1 - 0.5) * 30.0) / 16.0;
            } else {
                a1 = (2.0_f64 * a1).sqrt() / 16.0;
            }
            a1.min(1.0).max(0.0)
        }
        AlphaType::Fill => {
            a1 = -0.00056 * a1 + 0.0042 / (1.0 - a1) - 0.0042;
            (a1 * 10.0).min(1.0).max(0.0)
        }
        AlphaType::Brush => {
            a1 = -0.00056 * a1 + 0.0042 / (1.0 - a1) - 0.0042;
            a1.min(1.0).max(0.0)
        }
    }
}

fn settle(aerr: &mut f64, mut a1: f64) -> f64 {
    if a1 < 1.0 / 255.0 {
        *aerr += a1;
        a1 = 0.0;
        while *aerr > 1.0 / 255.0 {
            a1 = 1.0 / 255.0;
            *aerr -= 1.0 / 255.0;
        }
    }
    a1
}

fn toward(c: f64, c1: f64, c0: f64) -> f64 {
    if c1 > c0 {
        c.ceil()
    } else {
        c.floor()
    }
}

fn pen(dst: Color, src: Color, a1: f64) -> Color {
    let (r0, g0, b0) = (dst.r as f64, dst.g as f64, dst.b as f64);
    let (r1, g1, b1) = (src.r as f64, src.g as f64, src.b as f64);
    let a0 = dst.a as f64 / 255.0;
    let a = a0 + a1 - a0 * a1;
    let (r, g, b) = if a > 0.0 {
        let a1x = a1.max(1.0 / 255.0);
        let r = (r1 * a1x + r0 * a0 * (1.0 - a1x)) / a;
        let g = (g1 * a1x + g0 * a0 * (1.0 - a1x)) / a;
        let b = (b1 * a1x + b0 * a0 * (1.0 - a1x)) / a;
        (toward(r, r1, r0), toward(g, g1, g0), toward(b, b1, b0))
    } else {
        (r0, g0, b0)
    };
    Color {
        r: r.clamp(0.0, 255.0) as u8,
        g: g.clamp(0.0, 255.0) as u8,
        b: b.clamp(0.0, 255.0) as u8,
        a: (a * 255.0).ceil().min(255.0) as u8,
    }
}

fn brush(dst: Color, src: Color, a1: f64) -> Color {
    let (r0, g0, b0) = (dst.r as f64, dst.g as f64, dst.b as f64);
    let (r1, g1, b1) = (src.r as f64, src.g as f64, src.b as f64);
    let a0 = dst.a as f64 / 255.0;
    let a = a0 + a1 - a0 * a1;
    let (r, g, b) = if a > 0.0 {
        let a1x = a1.max(1.0 / 255.0);
        let r = (r1 * a1x + r0 * a0) / (a0 + a1x);
        let g = (g1 * a1x + g0 * a0) / (a0 + a1x);
        let b = (b1 * a1x + b0 * a0) / (a0 + a1x);
        (toward(r, r1, r0), toward(g, g1, g0), toward(b, b1, b0))
    } else {
        (r0, g0, b0)
    };
    Color {
        r: r.clamp(0.0, 255.0) as u8,
        g: g.clamp(0.0, 255.0) as u8,
        b: b.clamp(0.0, 255.0) as u8,
        a: (a * 255.0).ceil().min(255.0) as u8,
    }
}

fn fill(dst: Color, src: Color, a1: f64) -> Color {
    let (r0, g0, b0) = (dst.r, dst.g, dst.b);
    let (r1, g1, b1) = (src.r, src.g, src.b);
    let a0 = dst.a as f64 / 255.0;
    let a = a0 + a1 - a0 * a1;
    let (r, g, b) = if a > 0.0 {
        let a1x = a1;
        let ax = 1.0 + a0 * (1.0 - a1x);
        let r = (r1 as f64 + r0 as f64 * a0 * (1.0 - a1x)) / ax;
        let g = (g1 as f64 + g0 as f64 * a0 * (1.0 - a1x)) / ax;
        let b = (b1 as f64 + b0 as f64 * a0 * (1.0 - a1x)) / ax;
        let r = if r1 > r0 { r.ceil() } else { r.floor() } as u8;
        let g = if g1 > g0 { g.ceil() } else { g.floor() } as u8;
        let b = if b1 > b0 { b.ceil() } else { b.floor() } as u8;
        (r, g, b)
    } else {
        (r0, g0, b0)
    };
    Color { r, g, b, a: (a * 255.0).ceil() as u8 }
}

fn merge(p0: Color, p1: Color) -> Color {
    let (r0, g0, b0) = (p0.r as f64, p0.g as f64, p0.b as f64);
    let a0 = p0.a as f64 / 255.0;
    let (r1, g1, b1) = (p1.r as f64, p1.g as f64, p1.b as f64);
    let a1 = p1.a as f64 / 255.0;
    let a = a0 + a1 - a0 * a1;
    let (r, g, b) = if a > 0.0 {
        let r = (r1 * a1 + r0 * a0 * (1.0 - a1)) / a;
        let g = (g1 * a1 + g0 * a0 * (1.0 - a1)) / a;
        let b = (b1 * a1 + b0 * a0 * (1.0 - a1)) / a;
        ((r + 0.5) as u8, (g + 0.5) as u8, (b + 0.5) as u8)
    } else {
        (0, 0, 0)
    };
    Color { r, g, b, a: (a * 255.0 + 0.5) as u8 }
}

fn over(fg: Color, bg: (u8, u8, u8)) -> (u8, u8, u8) {
    if fg.a > 0 {
        let alpha = fg.a as f32 / 255.0;
        let inv_alpha = 1.0 - alpha;
        (
            (fg.r as f32 * alpha + bg.0 as f32 * inv_alpha) as u8,
            (fg.g as f32 * alpha + bg.1 as f32 * inv_alpha) as u8,
            (fg.b as f32 * alpha + bg.2 as f32 * inv_alpha) as u8,
        )
    } else {
        bg
    }
}

fn text(dst: Color, ink: Color, alpha: u8) -> Color {
    let alpha_f = alpha as f32 / 255.0;
    let inv_alpha = 1.0 - alpha_f;
    Color {
        r: (ink.r as f32 * alpha_f + dst.r as f32 * inv_alpha) as u8,
        g: (ink.g as f32 * alpha_f + dst.g as f32 * inv_alpha) as u8,
        b: (ink.b as f32 * alpha_f + dst.b as f32 * inv_alpha) as u8,
        a: ((alpha as f32 + dst.a as f32 * inv_alpha).min(255.0)) as u8,
    }
}

struct Rng(u64);

impl Rng {
    fn next(&mut self) -> u64 {
        self.0 ^= self.0 << 13;
        self.0 ^= self.0 >> 7;
        self.0 ^= self.0 << 17;
        self.0
    }

    fn byte(&mut self) -> u8 {
        let v = self.next();
        match v % 8 {
            0 => 0,
            1 => 255,
            _ => (v >> 8) as u8,
        }
    }

    fn color(&mut self) -> Color {
        Color { r: self.byte(), g: self.byte(), b: self.byte(), a: self.byte() }
    }
}

#[test]
fn alpha_curves_match_hardware_for_every_alpha() {
    for &kind in &[AlphaType::Pen, AlphaType::Brush, AlphaType::Fill] {
        for alpha in 0..=255u8 {
            let got = stamp_alpha_exec(kind, alpha);
            let want = curve(kind, alpha);
            assert_eq!(got.bits, want.to_bits(), "{:?} {}", kind, alpha);
        }
    }
}

#[test]
fn pen_curve_values() {
    // (a - 119) / 136 above one half, and 1 for the full alpha
    assert_eq!(stamp_alpha_exec(AlphaType::Pen, 255).bits, 1.0f64.to_bits());
    assert_eq!(stamp_alpha_exec(AlphaType::Pen, 0).bits, 0.0f64.to_bits());
    assert_eq!(stamp_alpha_exec(AlphaType::Brush, 255).bits, 1.0f64.to_bits());
    assert_eq!(stamp_alpha_exec(AlphaType::Fill, 255).bits, 1.0f64.to_bits());
    assert_eq!(stamp_alpha_exec(AlphaType::Brush, 0).bits, 0.0f64.to_bits());
}

#[test]
fn carry_matches_hardware_stamp_after_stamp() {
    for &kind in &[AlphaType::Brush, AlphaType::Fill, AlphaType::Pen] {
        for alpha in [0u8, 1, 2, 5, 10, 25, 26, 50, 100, 127, 128, 129, 200, 254, 255] {
            let mut aerr = 0.0f64;
            let mut soft = d(0.0);
            for step in 0..300 {
                let want = settle(&mut aerr, curve(kind, alpha));
                let (got, rest) = settle_exec(soft, stamp_alpha_exec(kind, alpha));
                soft = rest;
                assert_eq!(got.bits, want.to_bits(), "{:?} {} step {}", kind, alpha, step);
                assert_eq!(soft.bits, aerr.to_bits(), "{:?} {} step {}", kind, alpha, step);
                assert!(aerr >= 0.0 && aerr <= 1.0 / 255.0);
            }
        }
    }
}

#[test]
fn carry_gives_a_quantum_back() {
    // a brush at alpha 100 draws nothing at first, then one quantum
    let a1 = stamp_alpha_exec(AlphaType::Brush, 100);
    assert!(f64::from_bits(a1.bits) < 1.0 / 255.0);
    let mut carry = d(0.0);
    let mut quanta = 0;
    for _ in 0..10 {
        let (out, rest) = settle_exec(carry, a1);
        carry = rest;
        if out.bits == (1.0f64 / 255.0).to_bits() {
            quanta += 1;
        } else {
            assert_eq!(out.bits, 0.0f64.to_bits());
        }
    }
    assert!(quanta >= 1);
}

#[test]
fn pen_blend_matches_hardware() {
    let mut rng = Rng(0xA5A5_1234_5678_9ABC);
    let alphas: Vec<f64> = (0..=255u8).step_by(5).map(|a| curve(AlphaType::Pen, a)).collect();
    for _ in 0..400 {
        let (dst, src) = (rng.color(), rng.color());
        let a1 = alphas[(rng.next() % alphas.len() as u64) as usize];
        if a1 == 0.0 {
            continue;
        }
        assert_eq!(pen_blend_exec(dst, src, d(a1)), pen(dst, src, a1), "{:?} {:?} {}", dst, src, a1);
    }
    let q = 1.0 / 255.0;
    let same = Color { r: 200, g: 17, b: 99, a: 255 };
    assert_eq!(pen_blend_exec(same, same, d(0.3)), pen(same, same, 0.3));
    assert_eq!(pen_blend_exec(same, same, d(q)), pen(same, same, q));
}

#[test]
fn pen_at_full_opacity_replaces_the_pixel() {
    let src = Color { r: 10, g: 20, b: 30, a: 255 };
    for dst in [
        Color { r: 0, g: 0, b: 0, a: 0 },
        Color { r: 255, g: 255, b: 255, a: 255 },
        Color { r: 9, g: 200, b: 31, a: 77 },
    ] {
        assert_eq!(pen_blend_exec(dst, src, d(1.0)), Color { r: 10, g: 20, b: 30, a: 255 });
    }
}

#[test]
fn brush_blend_matches_hardware() {
    let mut rng = Rng(0x0123_4567_89AB_CDEF);
    let alphas: Vec<f64> = (1..=255u8).step_by(3).map(|a| curve(AlphaType::Brush, a)).collect();
    for _ in 0..400 {
        let (dst, src) = (rng.color(), rng.color());
        let mut a1 = alphas[(rng.next() % alphas.len() as u64) as usize];
        if a1 < 1.0 / 255.0 {
            a1 = 1.0 / 255.0;
        }
        assert_eq!(brush_blend_exec(dst, src, d(a1)), brush(dst, src, a1), "{:?} {:?} {}", dst, src, a1);
    }
}

#[test]
fn fill_blend_matches_hardware() {
    let mut rng = Rng(0xFEED_FACE_CAFE_BEEF);
    let alphas: Vec<f64> = (0..=255u8).step_by(3).map(|a| curve(AlphaType::Fill, a)).collect();
    for _ in 0..400 {
        let (dst, src) = (rng.color(), rng.color());
        let mut a1 = alphas[(rng.next() % alphas.len() as u64) as usize];
        if a1 < 1.0 / 255.0 {
            a1 = if rng.next() % 2 == 0 { 0.0 } else { 1.0 / 255.0 };
        }
        assert_eq!(fill_blend_exec(dst, src, d(a1)), fill(dst, src, a1), "{:?} {:?} {}", dst, src, a1);
    }
}

#[test]
fn fill_at_full_opacity_on_transparent_is_the_colour() {
    let src = Color { r: 255, g: 0, b: 0, a: 255 };
    let dst = Color { r: 0, g: 0, b: 0, a: 0 };
    assert_eq!(fill_blend_exec(dst, src, d(1.0)), Color { r: 255, g: 0, b: 0, a: 255 });
}

#[test]
fn merge_blend_matches_hardware() {
    let mut rng = Rng(0x1357_9BDF_0246_8ACE);
    for _ in 0..600 {
        let (lower, upper) = (rng.color(), rng.color());
        assert_eq!(merge_blend_exec(lower, upper), merge(lower, upper), "{:?} {:?}", lower, upper);
    }
}

#[test]
fn merge_blend_values() {
    let clear = Color { r: 0, g: 0, b: 0, a: 0 };
    let red = Color { r: 255, g: 0, b: 0, a: 255 };
    let blue = Color { r: 0, g: 0, b: 255, a: 255 };
    assert_eq!(merge_blend_exec(clear, clear), clear);
    assert_eq!(merge_blend_exec(red, clear), red);
    assert_eq!(merge_blend_exec(clear, blue), blue);
    assert_eq!(merge_blend_exec(red, blue), blue);
    // half opaque white over opaque black: 255 * (128 / 255) rounded half up
    let half = Color { r: 255, g: 255, b: 255, a: 128 };
    let black = Color { r: 0, g: 0, b: 0, a: 255 };
    assert_eq!(merge_blend_exec(black, half), Color { r: 128, g: 128, b: 128, a: 255 });
}

#[test]
fn mix_over_matches_hardware_for_every_alpha() {
    let mut rng = Rng(0x2468_ACE0_1357_9BDF);
    for a in 0..=255u8 {
        for _ in 0..3 {
            let fg = Color { r: rng.byte(), g: rng.byte(), b: rng.byte(), a };
            let bg = (rng.byte(), rng.byte(), rng.byte());
            assert_eq!(mix_over_exec(fg, bg), over(fg, bg), "{:?} {:?}", fg, bg);
        }
        let fg = Color { r: 0, g: 128, b: 255, a };
        assert_eq!(mix_over_exec(fg, (255, 255, 255)), over(fg, (255, 255, 255)));
    }
}

#[test]
fn mix_over_values() {
    let white = (255u8, 255u8, 255u8);
    assert_eq!(mix_over_exec(Color { r: 1, g: 2, b: 3, a: 0 }, white), white);
    assert_eq!(mix_over_exec(Color { r: 1, g: 2, b: 3, a: 255 }, white), (1, 2, 3));
    assert_eq!(mix_over_exec(Color { r: 0, g: 0, b: 0, a: 255 }, (9, 9, 9)), (0, 0, 0));
}

#[test]
fn text_blend_matches_hardware() {
    let mut rng = Rng(0x0F0F_F0F0_1234_4321);
    for _ in 0..600 {
        let (dst, ink) = (rng.color(), rng.color());
        let alpha = rng.byte();
        assert_eq!(text_blend_exec(dst, ink, alpha), text(dst, ink, alpha), "{:?} {:?} {}", dst, ink, alpha);
    }
}

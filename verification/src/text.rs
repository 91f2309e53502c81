//! Text: glyph outlines sampled by a rasteriser, and a built-in 8x8 font
//! for when there is none.
use vstd::prelude::*;
use vstd::string::*;
use crate::Color;
use crate::blend::{num, num_exec, text_blend, text_blend_exec};
use crate::clip::{pixel_from_u32, unpack};
use crate::float::{F64, float_div, float_lt, float_max, float_mul};
use crate::renderer::{Renderer, Scene, row_major_before};

verus! {

/// One sample of a glyph outline: a position on the canvas and the share
/// of the pixel that the outline covers, between 0 and 1.
#[derive(Clone, Copy, Debug)]
pub struct GlyphSample {
    pub x: i32,
    pub y: i32,
    pub coverage: F64,
}

/// The colour that a text action names: the three colour bytes of the
/// packed word.
pub open spec fn ink(color: u32) -> Color {
    Color { r: unpack(color).r, g: unpack(color).g, b: unpack(color).b, a: 255 }
}

/// The alpha byte of a text opacity: `255 alpha`, cut to a byte.
pub open spec fn text_alpha(alpha: F64) -> u8 {
    float_mul(false, alpha, num(255)).to_int(0, 255) as u8
}

/// Whether a sample counts as lit: more than half the pixel is covered.
pub open spec fn lit(sample: GlyphSample) -> bool {
    float_lt(float_div(false, num(1), num(2)), sample.coverage)
}

/// A layer after the first `n` samples have been drawn, in their order:
/// each lit sample on the canvas blends the ink over its pixel.
pub open spec fn glyphs_drawn(
    layer: Map<(int, int), Color>,
    samples: Seq<GlyphSample>,
    ink: Color,
    alpha: u8,
    n: int,
) -> Map<(int, int), Color>
    decreases n,
{
    if n <= 0 {
        layer
    } else {
        let prev = glyphs_drawn(layer, samples, ink, alpha, n - 1);
        let s = samples[n - 1];
        let p = (s.x as int, s.y as int);
        if prev.dom().contains(p) && lit(s) {
            prev.insert(p, text_blend(prev[p], ink, alpha))
        } else {
            prev
        }
    }
}

/// The scene after the sampled outlines of a text have been drawn on
/// layer `layer`.
pub open spec fn outline_text_done(s: Scene, layer: int, samples: Seq<GlyphSample>, color: u32, alpha: F64) -> Scene {
    s.with_layer(
        layer,
        glyphs_drawn(s.layer(layer), samples, ink(color), text_alpha(alpha), samples.len() as int),
    )
}

/// The eight rows of a character of the built-in font, the top row in
/// the highest byte and the leftmost pixel in the highest bit of each
/// row.  The font has the capital letters, the digits, a few small
/// letters and a few marks.
pub open spec fn glyph_rows(ch: char) -> Option<u64> {
    if ch == ' ' {
        Some(0x0000_0000_0000_0000u64)
    } else if ch == 'A' {
        Some(0x1824_4242_7E42_4200u64)
    } else if ch == 'B' {
        Some(0x7C42_427C_4242_7C00u64)
    } else if ch == 'C' {
        Some(0x3C42_4040_4042_3C00u64)
    } else if ch == 'D' {
        Some(0x7844_4242_4244_7800u64)
    } else if ch == 'E' {
        Some(0x7E40_407C_4040_7E00u64)
    } else if ch == 'F' {
        Some(0x7E40_407C_4040_4000u64)
    } else if ch == 'G' {
        Some(0x3C42_404E_4242_3C00u64)
    } else if ch == 'H' {
        Some(0x4242_427E_4242_4200u64)
    } else if ch == 'I' {
        Some(0x3E08_0808_0808_3E00u64)
    } else if ch == 'J' {
        Some(0x0202_0202_0242_3C00u64)
    } else if ch == 'K' {
        Some(0x4448_5060_5048_4400u64)
    } else if ch == 'L' {
        Some(0x4040_4040_4040_7E00u64)
    } else if ch == 'M' {
        Some(0x4266_5A42_4242_4200u64)
    } else if ch == 'N' {
        Some(0x4262_524A_4642_4200u64)
    } else if ch == 'O' {
        Some(0x3C42_4242_4242_3C00u64)
    } else if ch == 'P' {
        Some(0x7C42_427C_4040_4000u64)
    } else if ch == 'Q' {
        Some(0x3C42_4242_4A44_3A00u64)
    } else if ch == 'R' {
        Some(0x7C42_427C_4844_4200u64)
    } else if ch == 'S' {
        Some(0x3C42_403C_0242_3C00u64)
    } else if ch == 'T' {
        Some(0x7F08_0808_0808_0800u64)
    } else if ch == 'U' {
        Some(0x4242_4242_4242_3C00u64)
    } else if ch == 'V' {
        Some(0x4242_4242_2418_1800u64)
    } else if ch == 'W' {
        Some(0x4242_4242_5A66_4200u64)
    } else if ch == 'X' {
        Some(0x4224_1818_2442_4200u64)
    } else if ch == 'Y' {
        Some(0x4122_1408_0808_0800u64)
    } else if ch == 'Z' {
        Some(0x7E04_0810_2040_7E00u64)
    } else if ch == '0' {
        Some(0x3C46_4A52_6262_3C00u64)
    } else if ch == '1' {
        Some(0x1828_0808_0808_3E00u64)
    } else if ch == '2' {
        Some(0x3C42_020C_3040_7E00u64)
    } else if ch == '3' {
        Some(0x3C42_021C_0242_3C00u64)
    } else if ch == '4' {
        Some(0x0818_2848_7E08_0800u64)
    } else if ch == '5' {
        Some(0x7E40_7C02_0242_3C00u64)
    } else if ch == '6' {
        Some(0x3C40_407C_4242_3C00u64)
    } else if ch == '7' {
        Some(0x7E02_0408_1020_2000u64)
    } else if ch == '8' {
        Some(0x3C42_423C_4242_3C00u64)
    } else if ch == '9' {
        Some(0x3C42_423E_0202_3C00u64)
    } else if ch == 'a' {
        Some(0x0000_3C02_3E42_3E00u64)
    } else if ch == 'e' {
        Some(0x0000_3C42_7E40_3C00u64)
    } else if ch == 'i' {
        Some(0x0800_1808_0808_1C00u64)
    } else if ch == 'l' {
        Some(0x3010_1010_1010_3800u64)
    } else if ch == 'o' {
        Some(0x0000_3C42_4242_3C00u64)
    } else if ch == 'r' {
        Some(0x0000_5C62_4040_4000u64)
    } else if ch == 's' {
        Some(0x0000_3E40_3C02_7C00u64)
    } else if ch == 't' {
        Some(0x1010_7C10_1012_0C00u64)
    } else if ch == 'u' {
        Some(0x0000_4242_4246_3A00u64)
    } else if ch == '.' {
        Some(0x0000_0000_0018_1800u64)
    } else if ch == ',' {
        Some(0x0000_0000_0018_1830u64)
    } else if ch == '!' {
        Some(0x1818_1818_0000_1800u64)
    } else if ch == '?' {
        Some(0x3C42_0408_0800_0800u64)
    } else {
        None
    }
}

/// The eight rows of a character of the built-in font.
pub fn get_simple_font_data(ch: char) -> (r: Option<u64>)
    ensures
        r == glyph_rows(ch),
{
    match ch {
        ' ' => Some(0x0000_0000_0000_0000),
        'A' => Some(0x1824_4242_7E42_4200),
        'B' => Some(0x7C42_427C_4242_7C00),
        'C' => Some(0x3C42_4040_4042_3C00),
        'D' => Some(0x7844_4242_4244_7800),
        'E' => Some(0x7E40_407C_4040_7E00),
        'F' => Some(0x7E40_407C_4040_4000),
        'G' => Some(0x3C42_404E_4242_3C00),
        'H' => Some(0x4242_427E_4242_4200),
        'I' => Some(0x3E08_0808_0808_3E00),
        'J' => Some(0x0202_0202_0242_3C00),
        'K' => Some(0x4448_5060_5048_4400),
        'L' => Some(0x4040_4040_4040_7E00),
        'M' => Some(0x4266_5A42_4242_4200),
        'N' => Some(0x4262_524A_4642_4200),
        'O' => Some(0x3C42_4242_4242_3C00),
        'P' => Some(0x7C42_427C_4040_4000),
        'Q' => Some(0x3C42_4242_4A44_3A00),
        'R' => Some(0x7C42_427C_4844_4200),
        'S' => Some(0x3C42_403C_0242_3C00),
        'T' => Some(0x7F08_0808_0808_0800),
        'U' => Some(0x4242_4242_4242_3C00),
        'V' => Some(0x4242_4242_2418_1800),
        'W' => Some(0x4242_4242_5A66_4200),
        'X' => Some(0x4224_1818_2442_4200),
        'Y' => Some(0x4122_1408_0808_0800),
        'Z' => Some(0x7E04_0810_2040_7E00),
        '0' => Some(0x3C46_4A52_6262_3C00),
        '1' => Some(0x1828_0808_0808_3E00),
        '2' => Some(0x3C42_020C_3040_7E00),
        '3' => Some(0x3C42_021C_0242_3C00),
        '4' => Some(0x0818_2848_7E08_0800),
        '5' => Some(0x7E40_7C02_0242_3C00),
        '6' => Some(0x3C40_407C_4242_3C00),
        '7' => Some(0x7E02_0408_1020_2000),
        '8' => Some(0x3C42_423C_4242_3C00),
        '9' => Some(0x3C42_423E_0202_3C00),
        'a' => Some(0x0000_3C02_3E42_3E00),
        'e' => Some(0x0000_3C42_7E40_3C00),
        'i' => Some(0x0800_1808_0808_1C00),
        'l' => Some(0x3010_1010_1010_3800),
        'o' => Some(0x0000_3C42_4242_3C00),
        'r' => Some(0x0000_5C62_4040_4000),
        's' => Some(0x0000_3E40_3C02_7C00),
        't' => Some(0x1010_7C10_1012_0C00),
        'u' => Some(0x0000_4242_4246_3A00),
        '.' => Some(0x0000_0000_0018_1800),
        ',' => Some(0x0000_0000_0018_1830),
        '!' => Some(0x1818_1818_0000_1800),
        '?' => Some(0x3C42_0408_0800_0800),
        _ => None,
    }
}

/// Whether the pixel in row `row` and column `col` of a character is
/// set: bit `63 - 8 row - col` of its rows.
pub open spec fn glyph_bit(rows: u64, row: int, col: int) -> bool {
    (rows >> ((63 - 8 * row - col) as u64)) & 1 == 1
}

/// How many canvas pixels one pixel of the built-in font takes, along
/// each axis: an eighth of the font size in single precision, at least 1,
/// cut to a whole number.
pub open spec fn text_scale(size: u32) -> int {
    float_max(float_div(true, num(size as int), num(8)), num(1)).to_int(0, u32::MAX as int)
}

/// Whether a character drawn with its top left corner at `(ox, oy)`
/// covers `p`.
pub open spec fn glyph_covers(rows: u64, scale: int, ox: int, oy: int, p: (int, int)) -> bool {
    let u = p.0 - ox;
    let v = p.1 - oy;
    0 <= u < 8 * scale && 0 <= v < 8 * scale && glyph_bit(rows, v / scale, u / scale)
}

/// A layer after one character of the built-in font has been written on
/// it: the covered pixels are replaced by the pen colour `c`.
pub open spec fn glyph_written(
    layer: Map<(int, int), Color>,
    rows: u64,
    scale: int,
    ox: int,
    oy: int,
    c: Color,
) -> Map<(int, int), Color> {
    Map::new(
        |p: (int, int)| layer.dom().contains(p),
        |p: (int, int)|
            if glyph_covers(rows, scale, ox, oy, p) {
                c
            } else {
                layer[p]
            },
    )
}

/// A layer after the characters of `text` from the `k`-th on have been
/// written, the `k`-th at column `ox`.  Each character takes `8 scale`
/// columns and one more; a character that the font lacks leaves its
/// place empty; and the text ends where the next character would begin at
/// or beyond the canvas's width.
pub open spec fn text_written(
    layer: Map<(int, int), Color>,
    text: Seq<char>,
    k: int,
    ox: int,
    oy: int,
    scale: int,
    c: Color,
    width: int,
) -> Map<(int, int), Color>
    decreases text.len() - k,
{
    if k < 0 || k >= text.len() {
        layer
    } else {
        let written = match glyph_rows(text[k]) {
            Some(rows) => glyph_written(layer, rows, scale, ox, oy, c),
            None => layer,
        };
        let next = ox + 8 * scale + 1;
        if next >= width {
            written
        } else {
            text_written(written, text, k + 1, next, oy, scale, c, width)
        }
    }
}

/// The scene after a text has been written on layer `layer` in the
/// built-in font.
pub open spec fn simple_text_done(
    s: Scene,
    layer: int,
    x: int,
    y: int,
    text: Seq<char>,
    color: u32,
    alpha: F64,
    size: u32,
) -> Scene {
    let c = Color { a: text_alpha(alpha), ..ink(color) };
    s.with_layer(layer, text_written(s.layer(layer), text, 0, x, y, text_scale(size), c, s.width))
}

impl Renderer {
    /// Blends the lit samples of glyph outlines over a layer, in their
    /// order.
    pub fn draw_outline_text(&mut self, layer: usize, samples: &Vec<GlyphSample>, color: u32, alpha: F64)
        requires
            old(self).wf(),
            layer < 2,
        ensures
            final(self).wf(),
            final(self).same_setup(old(self)),
            final(self)@ == outline_text_done(old(self)@, layer as int, samples@, color, alpha),
    {
        let packed = pixel_from_u32(color);
        let tint = Color { r: packed.r, g: packed.g, b: packed.b, a: 255 };
        let final_alpha = alpha.times(num_exec(255)).to_u8();
        let half = num_exec(1).over(num_exec(2));
        let ghost before = old(self).canvas.layers[layer as int]@;
        let mut i: usize = 0;
        while i < samples.len()
            invariant
                old(self).wf(),
                self.wf(),
                self.same_setup(old(self)),
                self.state == old(self).state,
                self.clipboard == old(self).clipboard,
                layer < 2,
                i <= samples@.len(),
                tint == ink(color),
                final_alpha == text_alpha(alpha),
                half == float_div(false, num(1), num(2)),
                before == old(self).canvas.layers[layer as int]@,
                self.canvas.layers[1 - layer] == old(self).canvas.layers[1 - layer],
                self.canvas.layers[layer as int]@ == glyphs_drawn(before, samples@, tint, final_alpha, i as int),
            decreases samples@.len() - i,
        {
            let s = samples[i];
            if s.x >= 0 && s.y >= 0 && (s.x as u32) < self.canvas.width && (s.y as u32)
                < self.canvas.height {
                if half.lt(s.coverage) {
                    let dst = self.canvas.layers[layer].get(s.x as u32, s.y as u32);
                    let out = text_blend_exec(dst, tint, final_alpha);
                    self.canvas.layers[layer].put(s.x as u32, s.y as u32, out);
                }
            }
            i = i + 1;
        }
    }

    /// Writes one character of the built-in font with its top left corner
    /// at `(x, y)`, each of its pixels `scale` canvas pixels wide and
    /// high.
    pub fn draw_character_bitmap(&mut self, layer: usize, x: u64, y: u32, rows: u64, c: Color, scale: u32)
        requires
            old(self).wf(),
            layer < 2,
            scale >= 1,
            x <= u32::MAX,
        ensures
            final(self).wf(),
            final(self).same_setup(old(self)),
            final(self)@ == old(self)@.with_layer(
                layer as int,
                glyph_written(old(self)@.layer(layer as int), rows, scale as int, x as int, y as int, c),
            ),
    {
        let cw: u64 = self.canvas.width as u64;
        let ch: u64 = self.canvas.height as u64;
        let side: u64 = 8 * (scale as u64);
        let end_x: u64 = if x + side <= cw { x + side } else { cw };
        let end_y: u64 = if y as u64 + side <= ch { y as u64 + side } else { ch };
        let ghost before = old(self).canvas.layers[layer as int]@;
        let mut py: u64 = y as u64;
        while py < end_y
            invariant
                old(self).wf(),
                self.wf(),
                self.same_setup(old(self)),
                self.state == old(self).state,
                self.clipboard == old(self).clipboard,
                layer < 2,
                scale >= 1,
                side == 8 * scale,
                cw == self.canvas.width,
                ch == self.canvas.height,
                x <= u32::MAX,
                end_x <= cw,
                end_y <= ch,
                end_x <= x + side,
                end_y <= y + side,
                end_x == cw || end_x == x + side,
                end_y == ch || end_y == y + side,
                y <= py,
                before == old(self).canvas.layers[layer as int]@,
                self.canvas.layers[1 - layer] == old(self).canvas.layers[1 - layer],
                forall|p: (int, int)|
                    self.canvas.holds(p) ==> #[trigger] self.canvas.layers[layer as int]@[p] == if p.1 < py
                        && glyph_covers(rows, scale as int, x as int, y as int, p) {
                        c
                    } else {
                        before[p]
                    },
            decreases end_y + 1 - py,
        {
            let mut px: u64 = x;
            while px < end_x
                invariant
                    old(self).wf(),
                    self.wf(),
                    self.same_setup(old(self)),
                    self.state == old(self).state,
                    self.clipboard == old(self).clipboard,
                    layer < 2,
                    scale >= 1,
                    side == 8 * scale,
                    cw == self.canvas.width,
                    ch == self.canvas.height,
                    x <= u32::MAX,
                    end_x <= cw,
                    end_y <= ch,
                    end_x <= x + side,
                    end_y <= y + side,
                    end_x == cw || end_x == x + side,
                    end_y == ch || end_y == y + side,
                    y <= py < end_y,
                    x <= px,
                    before == old(self).canvas.layers[layer as int]@,
                    self.canvas.layers[1 - layer] == old(self).canvas.layers[1 - layer],
                    forall|p: (int, int)|
                        self.canvas.holds(p) ==> #[trigger] self.canvas.layers[layer as int]@[p]
                            == if row_major_before(p, px as int, py as int) && glyph_covers(
                            rows,
                            scale as int,
                            x as int,
                            y as int,
                            p,
                        ) {
                            c
                        } else {
                            before[p]
                        },
                decreases end_x + 1 - px,
            {
                let row: u64 = (py - y as u64) / (scale as u64);
                let col: u64 = (px - x) / (scale as u64);
                proof {
                    lemma_cell_of(px - x, scale as int);
                    lemma_cell_of(py - y, scale as int);
                }
                if (rows >> (63 - 8 * row - col)) & 1 == 1 {
                    let ghost mid = self.canvas.layers[layer as int]@;
                    self.canvas.layers[layer].put(px as u32, py as u32, c);
                    assert(self.canvas.layers[layer as int]@.dom() =~= mid.dom());
                }
                px = px + 1;
            }
            py = py + 1;
        }
        assert(self.canvas.layers[layer as int]@ =~= glyph_written(
            before,
            rows,
            scale as int,
            x as int,
            y as int,
            c,
        ));
    }

    /// Writes a text in the built-in font, its first character with its
    /// top left corner at `(x, y)`.
    pub fn draw_simple_text(
        &mut self,
        layer: usize,
        x: u32,
        y: u32,
        text: &str,
        color: u32,
        alpha: F64,
        size: u32,
    )
        requires
            old(self).wf(),
            layer < 2,
        ensures
            final(self).wf(),
            final(self).same_setup(old(self)),
            final(self)@ == simple_text_done(
                old(self)@,
                layer as int,
                x as int,
                y as int,
                text@,
                color,
                alpha,
                size,
            ),
    {
        let packed = pixel_from_u32(color);
        let c = Color { r: packed.r, g: packed.g, b: packed.b, a: alpha.times(num_exec(255)).to_u8() };
        let scale: u32 = num_exec(size).over_single(num_exec(8)).max(num_exec(1)).to_u32();
        let n = text.unicode_len();
        let ghost before = old(self).canvas.layers[layer as int]@;
        let ghost want = text_written(before, text@, 0, x as int, y as int, scale as int, c, self.canvas.width as int);
        let mut k: usize = 0;
        let mut ox: u64 = x as u64;
        if scale < 1 {
            // a scale is at least 1: the larger of a number and 1 is
            proof {
                lemma_scale_positive(size);
            }
            return;
        }
        while k < n
            invariant
                old(self).wf(),
                self.wf(),
                self.same_setup(old(self)),
                self@ == old(self)@.with_layer(layer as int, self@.layer(layer as int)),
                layer < 2,
                n == text@.len(),
                k <= n,
                ox <= u32::MAX,
                scale >= 1,
                scale == text_scale(size),
                c == (Color { a: text_alpha(alpha), ..ink(color) }),
                before == old(self).canvas.layers[layer as int]@,
                want == text_written(
                    before,
                    text@,
                    0,
                    x as int,
                    y as int,
                    scale as int,
                    c,
                    self.canvas.width as int,
                ),
                want == text_written(
                    self.canvas.layers[layer as int]@,
                    text@,
                    k as int,
                    ox as int,
                    y as int,
                    scale as int,
                    c,
                    self.canvas.width as int,
                ),
            decreases n - k,
        {
            let ghost at_top = self.canvas.layers[layer as int]@;
            let ch = text.get_char(k);
            match get_simple_font_data(ch) {
                Some(rows) => {
                    self.draw_character_bitmap(layer, ox, y, rows, c, scale);
                },
                None => {},
            }
            let next: u64 = ox + 8 * (scale as u64) + 1;
            let ghost written = self.canvas.layers[layer as int]@;
            assert(written == match glyph_rows(text@[k as int]) {
                Some(rows) => glyph_written(at_top, rows, scale as int, ox as int, y as int, c),
                None => at_top,
            });
            assert(want == if next >= self.canvas.width {
                written
            } else {
                text_written(
                    written,
                    text@,
                    k + 1,
                    next as int,
                    y as int,
                    scale as int,
                    c,
                    self.canvas.width as int,
                )
            });
            if next >= self.canvas.width as u64 {
                return;
            }
            ox = next;
            k = k + 1;
        }
    }
}

/// A pixel `u` columns into a character lies in the column `u / scale` of
/// its 8 columns.
proof fn lemma_cell_of(u: int, scale: int)
    requires
        0 <= u < 8 * scale,
        scale >= 1,
    ensures
        0 <= u / scale < 8,
{
    vstd::arithmetic::div_mod::lemma_div_pos_is_pos(u, scale);
    vstd::arithmetic::div_mod::lemma_multiply_divide_lt(u, scale, 8);
}

/// The scale of the built-in font is at least 1.
proof fn lemma_scale_positive(size: u32)
    ensures
        text_scale(size) >= 1,
{
    crate::float::lemma_max_with_one(float_div(true, num(size as int), num(8)));
}

} // verus!

//! Parametric fills: rectangles and ellipses, outlined or solid.
use vstd::prelude::*;
use crate::{AlphaType, Color, DrawingState, FillType};
use crate::blend::{fill_blend, fill_blend_exec, num, num_exec, settle, stamp_alpha};
use crate::float::{F64, float_add, float_div, float_le, float_lt, float_mul, float_sub};
use crate::renderer::{Renderer, Scene, row_major_before};
use crate::stroke::rounded_width;

verus! {

/// Whether the cell `(u, v)` of a `w` by `h` box lies in the frame of
/// thickness `d` along its sides.
pub open spec fn in_frame(d: int, u: int, v: int, w: int, h: int) -> bool {
    u < d || u > w - 1 - d || v < d || v > h - 1 - d
}

/// The offset of `u` from the centre `c` of an axis, as a share of the
/// half axis `r`: `(u - c) / r`.
pub open spec fn axis_share(u: int, c: F64, r: F64) -> F64 {
    float_div(false, float_sub(false, num(u), c), r)
}

/// `a * a + b * b`.
pub open spec fn square_sum(a: F64, b: F64) -> F64 {
    float_add(false, float_mul(false, a, a), float_mul(false, b, b))
}

/// The centre of an axis of `n` cells: `(n - 1) / 2`.
pub open spec fn axis_centre(n: int) -> F64 {
    float_div(false, num(n - 1), num(2))
}

/// Whether the cell `(u, v)` of a `w` by `h` box lies in the ellipse
/// inscribed in it: `((u - cx) / (cx + 1))^2 + ((v - cy) / (cy + 1))^2 < 1`.
pub open spec fn in_ellipse(u: int, v: int, w: int, h: int) -> bool {
    let cx = axis_centre(w);
    let cy = axis_centre(h);
    float_lt(
        square_sum(
            axis_share(u, cx, float_add(false, cx, num(1))),
            axis_share(v, cy, float_add(false, cy, num(1))),
        ),
        num(1),
    )
}

/// Whether the cell `(u, v)` lies in the outline of the ellipse, `d`
/// thick: in the ellipse, and not within the ellipse whose half axes are
/// shorter by `d`.  An ellipse with a half axis of at most `d` is all
/// outline.
pub open spec fn in_ellipse_ring(d: F64, u: int, v: int, w: int, h: int) -> bool {
    let cx = axis_centre(w);
    let cy = axis_centre(h);
    if float_le(cx, d) || float_le(cy, d) {
        in_ellipse(u, v, w, h)
    } else {
        let inner = square_sum(
            axis_share(u, cx, float_add(false, float_sub(false, cx, d), num(1))),
            axis_share(v, cy, float_add(false, float_sub(false, cy, d), num(1))),
        );
        in_ellipse(u, v, w, h) && float_le(num(1), inner)
    }
}

/// Whether a fill of the shape with the code `code` covers the cell
/// `(u, v)` of its `w` by `h` box, for the stroke width `width`.  A code
/// that names no shape covers nothing.
pub open spec fn fill_covers(code: u32, width: F64, u: int, v: int, w: int, h: int) -> bool {
    match FillType::of_code(code) {
        Some(FillType::Rect) => in_frame(rounded_width(width, u32::MAX as int), u, v, w, h),
        Some(FillType::RectFill) => true,
        Some(FillType::Ellipse) => in_ellipse_ring(width, u, v, w, h),
        Some(FillType::EllipseFill) => in_ellipse(u, v, w, h),
        None => false,
    }
}

/// An outline at least as thick as one of the half axes is the whole
/// ellipse.
pub proof fn lemma_thick_ring_is_solid(d: F64, u: int, v: int, w: int, h: int)
    requires
        float_le(axis_centre(w), d) || float_le(axis_centre(h), d),
    ensures
        in_ellipse_ring(d, u, v, w, h) == in_ellipse(u, v, w, h),
{
}

/// A layer after a fill of the box at `(x, y)`, `w` wide and `h` high,
/// with the colour `src` at the opacity `a1`.
pub open spec fn filled(
    layer: Map<(int, int), Color>,
    code: u32,
    width: F64,
    x: int,
    y: int,
    w: int,
    h: int,
    src: Color,
    a1: F64,
) -> Map<(int, int), Color> {
    Map::new(
        |p: (int, int)| layer.dom().contains(p),
        |p: (int, int)|
            if x <= p.0 < x + w && y <= p.1 < y + h && fill_covers(code, width, p.0 - x, p.1 - y, w, h) {
                fill_blend(layer[p], src, a1)
            } else {
                layer[p]
            },
    )
}

/// The scene after a fill on layer `layer`.  A layer that the canvas does
/// not have is passed over; otherwise the fill settles its opacity
/// against the carry once, whatever it covers.
pub open spec fn fill_done(s: Scene, layer: int, x: int, y: int, w: int, h: int, code: u32) -> Scene {
    if 0 <= layer < 2 {
        let src = s.state.current_color;
        let (a1, aerr) = settle(s.state.aerr, stamp_alpha(AlphaType::Fill, src.a));
        let s1 = Scene { state: DrawingState { aerr: aerr, ..s.state }, ..s };
        s1.with_layer(layer, filled(s.layer(layer), code, s.state.current_width, x, y, w, h, src, a1))
    } else {
        s
    }
}

fn axis_centre_exec(n: u32) -> (r: F64)
    requires
        n >= 1,
    ensures
        r == axis_centre(n as int),
{
    num_exec(n - 1).over(num_exec(2))
}

fn axis_share_exec(u: u32, c: F64, r: F64) -> (s: F64)
    ensures
        s == axis_share(u as int, c, r),
{
    num_exec(u).minus(c).over(r)
}

impl Renderer {
    /// Whether a solid rectangle covers a cell of its box: it always does.
    pub fn rect_fill_mask(&self, x: u32, y: u32, width: u32, height: u32) -> (r: bool)
        ensures
            r,
    {
        true
    }

    /// Whether the outline of a rectangle covers the cell `(x, y)` of its
    /// box.
    pub fn rect_mask(&self, x: u32, y: u32, width: u32, height: u32) -> (r: bool)
        ensures
            r == in_frame(
                rounded_width(self.state.current_width, u32::MAX as int),
                x as int,
                y as int,
                width as int,
                height as int,
            ),
    {
        let d: i64 = self.state.current_width.plus(num_exec(1).over(num_exec(2))).floor().to_int_exec(
            0,
            0xFFFF_FFFF,
        ) as i64;
        let u: i64 = x as i64;
        let v: i64 = y as i64;
        u < d || u > width as i64 - 1 - d || v < d || v > height as i64 - 1 - d
    }

    /// Whether a solid ellipse covers the cell `(x, y)` of its box.
    pub fn ellipse_fill_mask(&self, x: u32, y: u32, width: u32, height: u32) -> (r: bool)
        requires
            width >= 1,
            height >= 1,
        ensures
            r == in_ellipse(x as int, y as int, width as int, height as int),
    {
        let cx = axis_centre_exec(width);
        let cy = axis_centre_exec(height);
        let xn = axis_share_exec(x, cx, cx.plus(num_exec(1)));
        let yn = axis_share_exec(y, cy, cy.plus(num_exec(1)));
        xn.times(xn).plus(yn.times(yn)).lt(num_exec(1))
    }

    /// Whether the outline of an ellipse covers the cell `(x, y)` of its
    /// box.
    pub fn ellipse_mask(&self, x: u32, y: u32, width: u32, height: u32) -> (r: bool)
        requires
            width >= 1,
            height >= 1,
        ensures
            r == in_ellipse_ring(self.state.current_width, x as int, y as int, width as int, height as int),
    {
        let d = self.state.current_width;
        let cx = axis_centre_exec(width);
        let cy = axis_centre_exec(height);
        if cx.le(d) || cy.le(d) {
            return self.ellipse_fill_mask(x, y, width, height);
        }
        let x2 = axis_share_exec(x, cx, cx.minus(d).plus(num_exec(1)));
        let y2 = axis_share_exec(y, cy, cy.minus(d).plus(num_exec(1)));
        if self.ellipse_fill_mask(x, y, width, height) {
            if num_exec(1).le(x2.times(x2).plus(y2.times(y2))) {
                return true;
            }
        }
        false
    }

    /// Whether a fill of the shape with the code `fill_type` covers the
    /// cell `(x, y)` of its box.
    pub fn apply_fill_mask(&self, x: u32, y: u32, width: u32, height: u32, fill_type: u32) -> (r: bool)
        requires
            width >= 1,
            height >= 1,
        ensures
            r == fill_covers(
                fill_type,
                self.state.current_width,
                x as int,
                y as int,
                width as int,
                height as int,
            ),
    {
        match FillType::from_code(fill_type) {
            Some(FillType::Rect) => self.rect_mask(x, y, width, height),
            Some(FillType::RectFill) => self.rect_fill_mask(x, y, width, height),
            Some(FillType::Ellipse) => self.ellipse_mask(x, y, width, height),
            Some(FillType::EllipseFill) => self.ellipse_fill_mask(x, y, width, height),
            None => false,
        }
    }

    /// Fills a shape in the box at `(x, y)`, `width` wide and `height`
    /// high, with the current colour.
    pub fn do_fill(&mut self, layer: usize, x: u32, y: u32, width: u32, height: u32, fill_type: u32)
        requires
            old(self).wf(),
        ensures
            final(self).wf(),
            final(self).same_setup(old(self)),
            final(self)@ == fill_done(
                old(self)@,
                layer as int,
                x as int,
                y as int,
                width as int,
                height as int,
                fill_type,
            ),
    {
        if layer >= 2 {
            return;
        }
        let src = self.state.current_color;
        let a1 = self.get_alpha(AlphaType::Fill);
        let cw: u64 = self.canvas.width as u64;
        let ch: u64 = self.canvas.height as u64;
        let end_x: u64 = if x as u64 + width as u64 <= cw { x as u64 + width as u64 } else { cw };
        let end_y: u64 = if y as u64 + height as u64 <= ch { y as u64 + height as u64 } else { ch };
        let ghost before = old(self).canvas.layers[layer as int]@;
        let ghost stroke_width = old(self).state.current_width;
        let mut j: u64 = y as u64;
        while j < end_y
            invariant
                old(self).wf(),
                self.wf(),
                self.same_setup(old(self)),
                self.state.current_width == stroke_width,
                self.state == (DrawingState { aerr: self.state.aerr, ..old(self).state }),
                (a1, self.state.aerr) == settle(old(self).state.aerr, stamp_alpha(AlphaType::Fill, src.a)),
                self.clipboard == old(self).clipboard,
                layer < 2,
                src == old(self).state.current_color,
                cw == self.canvas.width,
                ch == self.canvas.height,
                end_x <= cw,
                end_y <= ch,
                end_x <= x + width,
                end_y <= y + height,
                end_x == cw || end_x == x + width,
                end_y == ch || end_y == y + height,
                y <= j,
                before == old(self).canvas.layers[layer as int]@,
                self.canvas.layers[1 - layer] == old(self).canvas.layers[1 - layer],
                forall|p: (int, int)|
                    self.canvas.holds(p) ==> #[trigger] self.canvas.layers[layer as int]@[p] == if x <= p.0 < x
                        + width && y <= p.1 < y + height && p.1 < j && fill_covers(
                        fill_type,
                        stroke_width,
                        p.0 - x,
                        p.1 - y,
                        width as int,
                        height as int,
                    ) {
                        fill_blend(before[p], src, a1)
                    } else {
                        before[p]
                    },
            decreases end_y + 1 - j,
        {
            let mut i: u64 = x as u64;
            while i < end_x
                invariant
                    old(self).wf(),
                    self.wf(),
                    self.same_setup(old(self)),
                    self.state.current_width == stroke_width,
                    self.state == (DrawingState { aerr: self.state.aerr, ..old(self).state }),
                    (a1, self.state.aerr) == settle(
                        old(self).state.aerr,
                        stamp_alpha(AlphaType::Fill, src.a),
                    ),
                    self.clipboard == old(self).clipboard,
                    layer < 2,
                    src == old(self).state.current_color,
                    cw == self.canvas.width,
                    ch == self.canvas.height,
                    end_x <= cw,
                    end_y <= ch,
                    end_x <= x + width,
                    end_y <= y + height,
                    end_x == cw || end_x == x + width,
                    end_y == ch || end_y == y + height,
                    y <= j < end_y,
                    x <= i,
                    before == old(self).canvas.layers[layer as int]@,
                    self.canvas.layers[1 - layer] == old(self).canvas.layers[1 - layer],
                    forall|p: (int, int)|
                        self.canvas.holds(p) ==> #[trigger] self.canvas.layers[layer as int]@[p] == if x
                            <= p.0 < x + width && y <= p.1 < y + height && row_major_before(
                            p,
                            i as int,
                            j as int,
                        ) && fill_covers(
                            fill_type,
                            stroke_width,
                            p.0 - x,
                            p.1 - y,
                            width as int,
                            height as int,
                        ) {
                            fill_blend(before[p], src, a1)
                        } else {
                            before[p]
                        },
                decreases end_x + 1 - i,
            {
                if self.apply_fill_mask((i - x as u64) as u32, (j - y as u64) as u32, width, height, fill_type) {
                    let dst = self.canvas.layers[layer].get(i as u32, j as u32);
                    let out = fill_blend_exec(dst, src, a1);
                    let ghost mid = self.canvas.layers[layer as int]@;
                    self.canvas.layers[layer].put(i as u32, j as u32, out);
                    assert(self.canvas.layers[layer as int]@.dom() =~= mid.dom());
                }
                i = i + 1;
            }
            j = j + 1;
        }
        assert(self.canvas.layers[layer as int]@ =~= filled(
            before,
            fill_type,
            stroke_width,
            x as int,
            y as int,
            width as int,
            height as int,
            src,
            a1,
        ));
    }
}

} // verus!

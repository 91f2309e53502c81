//! Strokes: the stamp of each tool, and the line that carries it.
use vstd::prelude::*;
use crate::{AlphaType, Color, LineType};
use crate::blend::{
    brush_blend, brush_blend_exec, num, num_exec, pen_blend, pen_blend_exec, settle, stamp_alpha,
};
use crate::float::{F64, float_add, float_div, float_eq, float_round_integral};
use crate::kernel::{
    lemma_round_mask_entry, round_cell, round_mask, tone_level, tone_level_of, tone_mask,
    MAX_DIAMETER,
};
use crate::raster::clear_pixel;
use crate::renderer::{Renderer, Scene, row_major_before};

verus! {

/// A width rounded to the nearest whole number, a half going up, and held
/// to `0..=limit`.
pub open spec fn rounded_width(width: F64, limit: int) -> int {
    float_round_integral(float_add(false, width, float_div(false, num(1), num(2))), false).to_int(0, limit)
}

/// The diameter of the brush for a stroke width: the rounded width, held
/// to the kernels there are.
pub open spec fn brush_diameter(width: F64) -> int {
    let d = rounded_width(width, MAX_DIAMETER as int);
    if d < 1 {
        1
    } else {
        d
    }
}

/// Whether a stamp of diameter `d` centred on `(x, y)` touches `p`: the
/// mask's top left cell lies `d / 2` to the left of and above the centre.
pub open spec fn stamp_cell(d: int, x: int, y: int, p: (int, int)) -> bool {
    round_cell(d, p.1 - (y - d / 2), p.0 - (x - d / 2))
}

/// A stamp of diameter 1 touches its centre and nothing else, so that a
/// stroke of width 1 draws one pixel for each point of its line.
pub proof fn lemma_unit_stamp(x: int, y: int, p: (int, int))
    ensures
        stamp_cell(1, x, y, p) <==> p == (x, y),
{
    assert(crate::kernel::in_circle(1, 0, 0)) by (nonlinear_arith);
    assert(1int / 2 == 0);
}

/// Whether the tone mask of a level is set at `p`, for a stamp of
/// diameter `d` centred on `(x, y)`.  The mask repeats every four pixels;
/// the pixel `j` columns and `i` rows into the stamp reads the cell in
/// column `(x + j) mod 4` of row `(y + i) mod 4`.
pub open spec fn tone_hit(level: int, d: int, x: int, y: int, p: (int, int)) -> bool {
    let j = p.0 - (x - d / 2);
    let i = p.1 - (y - d / 2);
    tone_mask(level)[((y + i) % 4) * 4 + (x + j) % 4] == 1
}

/// What one touched pixel becomes under a tool.  The eraser leaves
/// nothing; the tone brush writes the colour opaque where its mask is set;
/// the brush and the pen blend, and every other tool draws as the pen.
pub open spec fn stamp_pixel(tool: LineType, dst: Color, src: Color, a1: F64, hit: bool) -> Color {
    match tool {
        LineType::Eraser => clear_pixel(),
        LineType::Tone => if hit {
            Color { r: src.r, g: src.g, b: src.b, a: 255 }
        } else {
            dst
        },
        LineType::Brush => brush_blend(dst, src, a1),
        _ => pen_blend(dst, src, a1),
    }
}

/// A layer after one stamp.
pub open spec fn stamped(
    layer: Map<(int, int), Color>,
    tool: LineType,
    d: int,
    x: int,
    y: int,
    src: Color,
    a1: F64,
) -> Map<(int, int), Color> {
    Map::new(
        |p: (int, int)| layer.dom().contains(p),
        |p: (int, int)|
            if stamp_cell(d, x, y, p) {
                stamp_pixel(tool, layer[p], src, a1, tone_hit(tone_level(src.a as int), d, x, y, p))
            } else {
                layer[p]
            },
    )
}

/// The curve that a tool's stamps take their opacity from; the tone brush
/// and the eraser have none.
pub open spec fn tool_curve(tool: LineType) -> Option<AlphaType> {
    match tool {
        LineType::Eraser => None,
        LineType::Tone => None,
        LineType::Brush => Some(AlphaType::Brush),
        _ => Some(AlphaType::Pen),
    }
}

/// The scene after one point of a stroke on layer `layer`.  A blending
/// tool first settles its opacity against the carry, and draws nothing
/// where that leaves none.
pub open spec fn point_drawn(s: Scene, layer: int, x: int, y: int, tool: LineType) -> Scene {
    let d = brush_diameter(s.state.current_width);
    let src = s.state.current_color;
    match tool_curve(tool) {
        None => s.with_layer(layer, stamped(s.layer(layer), tool, d, x, y, src, num(0))),
        Some(curve) => {
            let (a1, aerr) = settle(s.state.aerr, stamp_alpha(curve, src.a));
            let s1 = Scene { state: crate::DrawingState { aerr: aerr, ..s.state }, ..s };
            if float_eq(a1, num(0)) {
                s1
            } else {
                s1.with_layer(layer, stamped(s.layer(layer), tool, d, x, y, src, a1))
            }
        },
    }
}

impl Renderer {
    /// The diameter of the brush for the current width.
    pub fn diameter(&self) -> (d: usize)
        ensures
            d == brush_diameter(self.state.current_width),
            1 <= d <= MAX_DIAMETER,
    {
        let w = self.state.current_width.plus(num_exec(1).over(num_exec(2))).floor();
        let d = w.to_int_exec(0, 30) as usize;
        if d < 1 {
            1
        } else {
            d
        }
    }

    /// Puts one stamp of the tool on a layer, with the opacity `a1`.
    fn stamp(&mut self, layer: usize, x: u32, y: u32, tool: LineType, a1: F64)
        requires
            old(self).wf(),
            layer < 2,
        ensures
            final(self).wf(),
            final(self).same_setup(old(self)),
            final(self)@ == old(self)@.with_layer(
                layer as int,
                stamped(
                    old(self)@.layer(layer as int),
                    tool,
                    brush_diameter(old(self).state.current_width),
                    x as int,
                    y as int,
                    old(self).state.current_color,
                    a1,
                ),
            ),
    {
        let d = self.diameter();
        let r = d / 2;
        let src = self.state.current_color;
        let level = tone_level_of(src.a);
        let sx: i64 = x as i64 - r as i64;
        let sy: i64 = y as i64 - r as i64;
        let width = self.canvas.width;
        let height = self.canvas.height;
        let ghost before = old(self).canvas.layers[layer as int]@;
        let mut i: usize = 0;
        while i < d
            invariant
                old(self).wf(),
                self.wf(),
                self.same_setup(old(self)),
                self.state == old(self).state,
                self.clipboard == old(self).clipboard,
                layer < 2,
                i <= d,
                1 <= d <= MAX_DIAMETER,
                d == brush_diameter(self.state.current_width),
                r == d / 2,
                sx == x - r,
                sy == y - r,
                level == tone_level(src.a as int),
                level < 16,
                src == self.state.current_color,
                width == self.canvas.width,
                height == self.canvas.height,
                before == old(self).canvas.layers[layer as int]@,
                self.canvas.layers[1 - layer] == old(self).canvas.layers[1 - layer],
                forall|p: (int, int)|
                    self.canvas.holds(p) ==> #[trigger] self.canvas.layers[layer as int]@[p] == if stamp_cell(
                        d as int,
                        x as int,
                        y as int,
                        p,
                    ) && p.1 - sy < i {
                        stamp_pixel(
                            tool,
                            before[p],
                            src,
                            a1,
                            tone_hit(level as int, d as int, x as int, y as int, p),
                        )
                    } else {
                        before[p]
                    },
            decreases d - i,
        {
            let mut j: usize = 0;
            while j < d
                invariant
                    old(self).wf(),
                    self.wf(),
                    self.same_setup(old(self)),
                    self.state == old(self).state,
                    self.clipboard == old(self).clipboard,
                    layer < 2,
                    i < d,
                    j <= d,
                    1 <= d <= MAX_DIAMETER,
                    d == brush_diameter(self.state.current_width),
                    r == d / 2,
                    sx == x - r,
                    sy == y - r,
                    level == tone_level(src.a as int),
                    level < 16,
                level < 16,
                    src == self.state.current_color,
                    width == self.canvas.width,
                    height == self.canvas.height,
                    before == old(self).canvas.layers[layer as int]@,
                    self.canvas.layers[1 - layer] == old(self).canvas.layers[1 - layer],
                    forall|p: (int, int)|
                        self.canvas.holds(p) ==> #[trigger] self.canvas.layers[layer as int]@[p]
                            == if stamp_cell(d as int, x as int, y as int, p) && row_major_before(
                            (p.0 - sx, p.1 - sy),
                            j as int,
                            i as int,
                        ) {
                            stamp_pixel(
                                tool,
                                before[p],
                                src,
                                a1,
                                tone_hit(level as int, d as int, x as int, y as int, p),
                            )
                        } else {
                            before[p]
                        },
                decreases d - j,
            {
                proof {
                    lemma_round_mask_entry(d as int, i as int, j as int);
                    assert(self.round_data@[d as int]@ == round_mask(d as int));
                    assert(self.tone_data@[level as int]@ == tone_mask(level as int));
                    assert(0 <= i * d <= 900) by (nonlinear_arith)
                        requires
                            0 <= i < d <= 30,
                    ;
                }
                let bit = self.round_data[d][i * d + j];
                let px: i64 = sx + j as i64;
                let py: i64 = sy + i as i64;
                if bit == 1 && px >= 0 && py >= 0 && px < width as i64 && py < height as i64 {
                    let cell: usize = (((y as u64 + i as u64) % 4) * 4 + (x as u64 + j as u64) % 4) as usize;
                    let hit = self.tone_data[level][cell] == 1;
                    let dst = self.canvas.layers[layer].get(px as u32, py as u32);
                    let out = match tool {
                        LineType::Eraser => Color { r: 0, g: 0, b: 0, a: 0 },
                        LineType::Tone => if hit {
                            Color { r: src.r, g: src.g, b: src.b, a: 255 }
                        } else {
                            dst
                        },
                        LineType::Brush => brush_blend_exec(dst, src, a1),
                        _ => pen_blend_exec(dst, src, a1),
                    };
                    let ghost mid = self.canvas.layers[layer as int]@;
                    self.canvas.layers[layer].put(px as u32, py as u32, out);
                    assert(self.canvas.layers[layer as int]@.dom() =~= mid.dom());
                }
                j = j + 1;
            }
            i = i + 1;
        }
        assert(self.canvas.layers[layer as int]@ =~= stamped(
            before,
            tool,
            d as int,
            x as int,
            y as int,
            src,
            a1,
        ));
    }

    /// One pen stamp at `(x, y)`.
    pub fn set_pen_point(&mut self, layer: usize, x: u32, y: u32)
        requires
            old(self).wf(),
            layer < 2,
        ensures
            final(self).wf(),
            final(self).same_setup(old(self)),
            final(self)@ == point_drawn(old(self)@, layer as int, x as int, y as int, LineType::Pen),
    {
        let a1 = self.get_alpha(AlphaType::Pen);
        if a1.same(num_exec(0)) {
            return;
        }
        self.stamp(layer, x, y, LineType::Pen, a1);
    }

    /// One brush stamp at `(x, y)`.
    pub fn set_brush_point(&mut self, layer: usize, x: u32, y: u32)
        requires
            old(self).wf(),
            layer < 2,
        ensures
            final(self).wf(),
            final(self).same_setup(old(self)),
            final(self)@ == point_drawn(old(self)@, layer as int, x as int, y as int, LineType::Brush),
    {
        let a1 = self.get_alpha(AlphaType::Brush);
        if a1.same(num_exec(0)) {
            return;
        }
        self.stamp(layer, x, y, LineType::Brush, a1);
    }

    /// One tone stamp at `(x, y)`.
    pub fn set_tone_point(&mut self, layer: usize, x: u32, y: u32)
        requires
            old(self).wf(),
            layer < 2,
        ensures
            final(self).wf(),
            final(self).same_setup(old(self)),
            final(self)@ == point_drawn(old(self)@, layer as int, x as int, y as int, LineType::Tone),
    {
        self.stamp(layer, x, y, LineType::Tone, num_exec(0));
    }

    /// One eraser stamp at `(x, y)`.
    pub fn set_eraser_point(&mut self, layer: usize, x: u32, y: u32)
        requires
            old(self).wf(),
            layer < 2,
        ensures
            final(self).wf(),
            final(self).same_setup(old(self)),
            final(self)@ == point_drawn(old(self)@, layer as int, x as int, y as int, LineType::Eraser),
    {
        self.stamp(layer, x, y, LineType::Eraser, num_exec(0));
    }

    /// One point of a stroke whose segment began at `(x0, y0)`.  The tone
    /// pattern is laid out from the point itself, so the origin of the
    /// segment does not show in the result.
    pub fn draw_point_with_origin(
        &mut self,
        layer: usize,
        x: u32,
        y: u32,
        x0: u32,
        y0: u32,
        line_type: &LineType,
    )
        requires
            old(self).wf(),
            layer < 2,
        ensures
            final(self).wf(),
            final(self).same_setup(old(self)),
            final(self)@ == point_drawn(old(self)@, layer as int, x as int, y as int, *line_type),
    {
        match line_type {
            LineType::Pen => self.set_pen_point(layer, x, y),
            LineType::Brush => self.set_brush_point(layer, x, y),
            LineType::Tone => self.set_tone_point(layer, x, y),
            LineType::Eraser => self.set_eraser_point(layer, x, y),
            _ => {
                let a1 = self.get_alpha(AlphaType::Pen);
                if !a1.same(num_exec(0)) {
                    self.stamp(layer, x, y, *line_type, a1);
                }
            },
        }
    }

    /// One point of a stroke.
    pub fn draw_point(&mut self, layer: usize, x: u32, y: u32, line_type: &LineType)
        requires
            old(self).wf(),
            layer < 2,
        ensures
            final(self).wf(),
            final(self).same_setup(old(self)),
            final(self)@ == point_drawn(old(self)@, layer as int, x as int, y as int, *line_type),
    {
        self.draw_point_with_origin(layer, x, y, x, y, line_type);
    }
}


/// A recorded coordinate as the line walks it: the 32-bit number read as
/// two's complement, so that the upper half of the range lies to the left
/// of and above the canvas.
pub open spec fn wrap_coord(v: u32) -> int {
    if v < 0x8000_0000 {
        v as int
    } else {
        v - 0x1_0000_0000
    }
}

/// The distance between two coordinates.
pub open spec fn span(a: int, b: int) -> int {
    if a < b {
        b - a
    } else {
        a - b
    }
}

/// The number of steps from `a` to `c` on the way to `b`.
pub open spec fn steps_done(a: int, b: int, c: int) -> int {
    if a < b {
        c - a
    } else {
        a - c
    }
}

/// One step from `c` on the way from `a` to `b`.
pub open spec fn step_toward(a: int, b: int, c: int) -> int {
    if a < b {
        c + 1
    } else {
        c - 1
    }
}

/// Whether `(x, y)` with the error term `err` is a state of the walk from
/// `(x0, y0)` to `(x1, y1)`: neither axis has gone past its end, the
/// error term is `dx - dy - i dy + j dx` after `i` steps along x and `j`
/// along y, and twice the error term lies between `-3 dy` and `3 dx`.
pub open spec fn on_line(x0: int, y0: int, x1: int, y1: int, x: int, y: int, err: int) -> bool {
    let dx = span(x0, x1);
    let dy = span(y0, y1);
    let i = steps_done(x0, x1, x);
    let j = steps_done(y0, y1, y);
    &&& 0 <= i <= dx
    &&& 0 <= j <= dy
    &&& err == dx - dy - i * dy + j * dx
    &&& -3 * dy <= 2 * err <= 3 * dx
}

/// The state after `(x, y, err)`: a step along x where twice the error
/// is above `-dy`, and a step along y where it is below `dx`.
pub open spec fn line_step(x0: int, y0: int, x1: int, y1: int, x: int, y: int, err: int) -> (
    int,
    int,
    int,
) {
    let dx = span(x0, x1);
    let dy = span(y0, y1);
    let along_x = 2 * err > -dy;
    let along_y = 2 * err < dx;
    (
        if along_x { step_toward(x0, x1, x) } else { x },
        if along_y { step_toward(y0, y1, y) } else { y },
        err - (if along_x { dy } else { 0 }) + (if along_y { dx } else { 0 }),
    )
}

/// The steps that are left on both axes.
pub open spec fn steps_left(x0: int, y0: int, x1: int, y1: int, x: int, y: int) -> int {
    span(x0, x1) - steps_done(x0, x1, x) + span(y0, y1) - steps_done(y0, y1, y)
}

/// A step of the walk keeps it on the line and brings it nearer its end.
pub proof fn lemma_line_step(x0: int, y0: int, x1: int, y1: int, x: int, y: int, err: int)
    requires
        on_line(x0, y0, x1, y1, x, y, err),
        !(x == x1 && y == y1),
    ensures
        ({
            let (nx, ny, nerr) = line_step(x0, y0, x1, y1, x, y, err);
            &&& on_line(x0, y0, x1, y1, nx, ny, nerr)
            &&& 0 <= steps_left(x0, y0, x1, y1, nx, ny) < steps_left(x0, y0, x1, y1, x, y)
        }),
{
    let dx = span(x0, x1);
    let dy = span(y0, y1);
    let i = steps_done(x0, x1, x);
    let j = steps_done(y0, y1, y);
    let along_x = 2 * err > -dy;
    let along_y = 2 * err < dx;
    if i == dx {
        // x has arrived, so y has not: the error is at most -dy
        assert(dx * (1 + j - dy) <= 0) by (nonlinear_arith)
            requires
                dx >= 0,
                1 + j - dy <= 0,
        ;
        assert(dx - dy - dx * dy + j * dx == dx * (1 + j - dy) - dy) by (nonlinear_arith);
        assert(!along_x);
    }
    if j == dy {
        // y has arrived, so x has not: the error is at least dx
        assert(dy * (dx - 1 - i) >= 0) by (nonlinear_arith)
            requires
                dy >= 0,
                dx - 1 - i >= 0,
        ;
        assert(dx - dy - i * dy + dy * dx == dx + dy * (dx - 1 - i)) by (nonlinear_arith);
        assert(!along_y);
    }
    assert((i + 1) * dy == i * dy + dy) by (nonlinear_arith);
    assert((j + 1) * dx == j * dx + dx) by (nonlinear_arith);
}

/// The scene after the walk from `(x0, y0)` to `(x1, y1)` has drawn the
/// point `(x, y)` and every point after it.  Each point of the walk that
/// lies on the canvas gets one stamp, in the order walked.
pub open spec fn line_drawn(
    s: Scene,
    layer: int,
    tool: LineType,
    x0: int,
    y0: int,
    x1: int,
    y1: int,
    x: int,
    y: int,
    err: int,
) -> Scene
    decreases steps_left(x0, y0, x1, y1, x, y),
    when on_line(x0, y0, x1, y1, x, y, err)
    via line_drawn_decreases
{
    let s1 = if s.holds((x, y)) {
        point_drawn(s, layer, x, y, tool)
    } else {
        s
    };
    if x == x1 && y == y1 {
        s1
    } else {
        let (nx, ny, nerr) = line_step(x0, y0, x1, y1, x, y, err);
        line_drawn(s1, layer, tool, x0, y0, x1, y1, nx, ny, nerr)
    }
}

#[via_fn]
proof fn line_drawn_decreases(
    s: Scene,
    layer: int,
    tool: LineType,
    x0: int,
    y0: int,
    x1: int,
    y1: int,
    x: int,
    y: int,
    err: int,
) {
    if !(x == x1 && y == y1) {
        lemma_line_step(x0, y0, x1, y1, x, y, err);
    }
}

/// The scene after a straight stroke between two recorded points.
pub open spec fn segment_drawn(s: Scene, layer: int, x0: u32, y0: u32, x1: u32, y1: u32, tool: LineType) -> Scene {
    let (ax, ay, bx, by) = (wrap_coord(x0), wrap_coord(y0), wrap_coord(x1), wrap_coord(y1));
    line_drawn(s, layer, tool, ax, ay, bx, by, ax, ay, span(ax, bx) - span(ay, by))
}

fn wrap_coord_exec(v: u32) -> (r: i64)
    ensures
        r == wrap_coord(v),
{
    if v < 0x8000_0000 {
        v as i64
    } else {
        v as i64 - 0x1_0000_0000
    }
}

impl Renderer {
    /// Draws a straight stroke from `(x0, y0)` to `(x1, y1)`: one stamp
    /// on each point of the integer line between them that lies on the
    /// canvas.
    pub fn draw_line_segment(
        &mut self,
        layer: usize,
        x0: u32,
        y0: u32,
        x1: u32,
        y1: u32,
        line_type: &LineType,
    )
        requires
            old(self).wf(),
            layer < 2,
        ensures
            final(self).wf(),
            final(self).same_setup(old(self)),
            final(self)@ == segment_drawn(old(self)@, layer as int, x0, y0, x1, y1, *line_type),
    {
        let ax = wrap_coord_exec(x0);
        let ay = wrap_coord_exec(y0);
        let bx = wrap_coord_exec(x1);
        let by = wrap_coord_exec(y1);
        let dx: i64 = if ax < bx { bx - ax } else { ax - bx };
        let dy: i64 = if ay < by { by - ay } else { ay - by };
        let mut cx: i64 = ax;
        let mut cy: i64 = ay;
        let mut err: i64 = dx - dy;
        assert(0 * dy == 0 && 0 * dx == 0) by (nonlinear_arith);
        loop
            invariant
                old(self).wf(),
                self.wf(),
                self.same_setup(old(self)),
                layer < 2,
                ax == wrap_coord(x0),
                ay == wrap_coord(y0),
                bx == wrap_coord(x1),
                by == wrap_coord(y1),
                dx == span(ax as int, bx as int),
                dy == span(ay as int, by as int),
                on_line(ax as int, ay as int, bx as int, by as int, cx as int, cy as int, err as int),
                segment_drawn(old(self)@, layer as int, x0, y0, x1, y1, *line_type) == line_drawn(
                    self@,
                    layer as int,
                    *line_type,
                    ax as int,
                    ay as int,
                    bx as int,
                    by as int,
                    cx as int,
                    cy as int,
                    err as int,
                ),
            decreases steps_left(ax as int, ay as int, bx as int, by as int, cx as int, cy as int),
        {
            if cx >= 0 && cy >= 0 && cx < self.canvas.width as i64 && cy < self.canvas.height as i64 {
                self.draw_point_with_origin(layer, cx as u32, cy as u32, x0, y0, line_type);
            }
            if cx == bx && cy == by {
                return;
            }
            proof {
                lemma_line_step(ax as int, ay as int, bx as int, by as int, cx as int, cy as int, err as int);
            }
            let e2: i64 = 2 * err;
            if e2 > -dy {
                err = err - dy;
                cx = if ax < bx { cx + 1 } else { cx - 1 };
            }
            if e2 < dx {
                err = err + dx;
                cy = if ay < by { cy + 1 } else { cy - 1 };
            }
        }
    }
}

} // verus!

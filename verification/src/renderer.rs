//! The canvas and the drawing engine.
use vstd::prelude::*;
use crate::{AlphaType, Color, DrawingState, MaskType};
use crate::blend::{
    carry_in_range, lemma_settle_in_range, mix_over, mix_over_exec, settle, settle_exec, stamp_alpha,
    stamp_alpha_exec,
};
use crate::float::{F64, float_from_int, zero};
use crate::kernel::{build_round_tables, build_tone_tables, round_tables, tone_tables};
use crate::raster::{RgbaBuffer, RgbBuffer, in_raster, clear_pixel};

verus! {

/// Two RGBA layers of one size; layer 0 lies under layer 1.
pub struct Canvas {
    pub layers: [RgbaBuffer; 2],
    pub width: u32,
    pub height: u32,
    pub current_layer: usize,
    pub visible: [bool; 2],
}

/// What the replay shows after one step: each layer over white, and both
/// layers over white.
pub struct FrameSet {
    pub layer0: RgbBuffer,
    pub layer1: RgbBuffer,
    pub composite: RgbBuffer,
}

/// The drawing engine: the canvas, the state that actions hand on, the
/// brush kernels and the clipboard.
pub struct Renderer {
    pub canvas: Canvas,
    pub state: DrawingState,
    /// The round mask of each diameter from 0 to 30.
    pub round_data: Vec<Vec<u8>>,
    /// The sixteen 4x4 tone masks.
    pub tone_data: Vec<Vec<u8>>,
    /// The packed pixels taken by the last copy, row by row.
    pub clipboard: Option<Vec<u32>>,
}

/// What the engine holds, as plain values: the pixels of both layers by
/// `(column, row)`, the drawing state and the clipboard.
pub struct Scene {
    pub width: int,
    pub height: int,
    pub lower: Map<(int, int), Color>,
    pub upper: Map<(int, int), Color>,
    pub state: DrawingState,
    pub clipboard: Option<Seq<u32>>,
}

impl Scene {
    /// The pixels of layer `i`.
    pub open spec fn layer(self, i: int) -> Map<(int, int), Color> {
        if i == 0 {
            self.lower
        } else {
            self.upper
        }
    }

    /// The scene with the pixels of layer `i` replaced.
    pub open spec fn with_layer(self, i: int, pixels: Map<(int, int), Color>) -> Scene {
        if i == 0 {
            Scene { lower: pixels, ..self }
        } else {
            Scene { upper: pixels, ..self }
        }
    }

    /// Whether `p` is a position of the canvas.
    pub open spec fn holds(self, p: (int, int)) -> bool {
        in_raster(self.width, self.height, p)
    }
}

/// A layer of the given size with every pixel transparent.
pub open spec fn blank_layer(width: int, height: int) -> Map<(int, int), Color> {
    Map::new(|p: (int, int)| in_raster(width, height, p), |p: (int, int)| clear_pixel())
}

/// Whether `p` comes before column `x` of row `y` in row-major order.
pub open spec fn row_major_before(p: (int, int), x: int, y: int) -> bool {
    p.1 < y || (p.1 == y && p.0 < x)
}

/// White, the background of every exported raster.
pub open spec fn white() -> (u8, u8, u8) {
    (255u8, 255u8, 255u8)
}

/// One layer of a raster of the given size over white.
pub open spec fn layer_over_white(layer: Map<(int, int), Color>, width: int, height: int) -> Map<
    (int, int),
    (u8, u8, u8),
> {
    Map::new(|p: (int, int)| in_raster(width, height, p), |p: (int, int)| mix_over(layer[p], white()))
}

/// The visible layers over white, layer 0 first.
pub open spec fn composite_pixel(lower: Color, upper: Color, show_lower: bool, show_upper: bool) -> (u8, u8, u8) {
    let under = if show_lower { mix_over(lower, white()) } else { white() };
    if show_upper {
        mix_over(upper, under)
    } else {
        under
    }
}

/// Makes every pixel of a raster transparent.
pub fn wipe(buf: &mut RgbaBuffer)
    requires
        old(buf).wf(),
    ensures
        final(buf).wf(),
        final(buf).spec_width() == old(buf).spec_width(),
        final(buf).spec_height() == old(buf).spec_height(),
        final(buf)@ == blank_layer(old(buf).spec_width(), old(buf).spec_height()),
{
    let (w, h) = buf.size();
    let mut y: u32 = 0;
    while y < h
        invariant
            y <= h,
            buf.spec_width() == w == old(buf).spec_width(),
            buf.spec_height() == h == old(buf).spec_height(),
            buf@.dom() == old(buf)@.dom(),
            old(buf).wf(),
            forall|p: (int, int)| buf@.dom().contains(p) && p.1 < y ==> #[trigger] buf@[p] == clear_pixel(),
        decreases h - y,
    {
        let mut x: u32 = 0;
        while x < w
            invariant
                y < h,
                x <= w,
                buf.spec_width() == w == old(buf).spec_width(),
                buf.spec_height() == h == old(buf).spec_height(),
                buf@.dom() == old(buf)@.dom(),
                old(buf).wf(),
                forall|p: (int, int)|
                    buf@.dom().contains(p) && row_major_before(p, x as int, y as int)
                        ==> #[trigger] buf@[p] == clear_pixel(),
            decreases w - x,
        {
            let ghost before = buf@;
            buf.put(x, y, Color { r: 0, g: 0, b: 0, a: 0 });
            assert(buf@.dom() =~= before.dom());
            x = x + 1;
        }
        y = y + 1;
    }
    assert(buf@ =~= blank_layer(w as int, h as int));
}

impl Canvas {
    /// Both layers have the canvas's size, and a raster of that size fits
    /// in memory.
    pub open spec fn wf(&self) -> bool {
        &&& 4 * self.width * self.height <= isize::MAX
        &&& forall|i: int|
            0 <= i < 2 ==> {
                &&& (#[trigger] self.layers[i]).wf()
                &&& self.layers[i].spec_width() == self.width
                &&& self.layers[i].spec_height() == self.height
            }
    }

    /// The pixels of layer `i`.
    pub open spec fn layer(&self, i: int) -> Map<(int, int), Color> {
        self.layers[i]@
    }

    /// Whether `p` is a position of the canvas.
    pub open spec fn holds(&self, p: (int, int)) -> bool {
        in_raster(self.width as int, self.height as int, p)
    }

    /// A canvas of the given size: both layers transparent and visible,
    /// layer 0 current.
    pub fn new(width: u32, height: u32) -> (c: Canvas)
        requires
            4 * width * height <= isize::MAX,
        ensures
            c.wf(),
            c.width == width,
            c.height == height,
            c.current_layer == 0,
            c.visible[0] && c.visible[1],
            c.layer(0) == blank_layer(width as int, height as int),
            c.layer(1) == blank_layer(width as int, height as int),
    {
        Canvas {
            layers: [RgbaBuffer::blank(width, height), RgbaBuffer::blank(width, height)],
            width,
            height,
            current_layer: 0,
            visible: [true, true],
        }
    }

    /// Makes both layers transparent.
    pub fn clear(&mut self)
        requires
            old(self).wf(),
        ensures
            final(self).wf(),
            final(self).width == old(self).width,
            final(self).height == old(self).height,
            final(self).current_layer == old(self).current_layer,
            final(self).visible == old(self).visible,
            final(self).layer(0) == blank_layer(old(self).width as int, old(self).height as int),
            final(self).layer(1) == blank_layer(old(self).width as int, old(self).height as int),
    {
        wipe(&mut self.layers[0]);
        wipe(&mut self.layers[1]);
    }

    /// Makes one layer transparent.  A layer that the canvas does not have
    /// is passed over.
    pub fn clear_layer(&mut self, layer: usize)
        requires
            old(self).wf(),
        ensures
            final(self).wf(),
            final(self).width == old(self).width,
            final(self).height == old(self).height,
            final(self).current_layer == old(self).current_layer,
            final(self).visible == old(self).visible,
            forall|i: int|
                0 <= i < 2 ==> #[trigger] final(self).layer(i) == if i == layer {
                    blank_layer(old(self).width as int, old(self).height as int)
                } else {
                    old(self).layer(i)
                },
    {
        if layer < 2 {
            wipe(&mut self.layers[layer]);
        }
    }

    /// The raster of one layer, if the canvas has that layer.
    pub fn get_layer(&self, layer: usize) -> (r: Option<&RgbaBuffer>)
        ensures
            layer < 2 ==> r == Some(&self.layers[layer as int]),
            layer >= 2 ==> r is None,
    {
        if layer < 2 {
            Some(&self.layers[layer])
        } else {
            None
        }
    }

    /// The visible layers over white, layer 0 under layer 1.
    pub fn composite(&self) -> (out: RgbBuffer)
        requires
            self.wf(),
        ensures
            out.wf(),
            out.spec_width() == self.width,
            out.spec_height() == self.height,
            out@ == Map::new(
                |p: (int, int)| self.holds(p),
                |p: (int, int)|
                    composite_pixel(self.layer(0)[p], self.layer(1)[p], self.visible[0], self.visible[1]),
            ),
    {
        let w = self.width;
        let h = self.height;
        assert(3 * w * h <= 4 * w * h) by (nonlinear_arith);
        let mut out = RgbBuffer::blank(w, h);
        let mut y: u32 = 0;
        while y < h
            invariant
                self.wf(),
                w == self.width,
                h == self.height,
                y <= h,
                out.spec_width() == w,
                out.spec_height() == h,
                forall|p: (int, int)|
                    #![trigger out@.dom().contains(p)]
                    #![trigger self.holds(p)]
                    out@.dom().contains(p) <==> self.holds(p),
                forall|p: (int, int)|
                    self.holds(p) && p.1 < y ==> #[trigger] out@[p] == composite_pixel(
                        self.layer(0)[p],
                        self.layer(1)[p],
                        self.visible[0],
                        self.visible[1],
                    ),
            decreases h - y,
        {
            let mut x: u32 = 0;
            while x < w
                invariant
                    self.wf(),
                    w == self.width,
                    h == self.height,
                    y < h,
                    x <= w,
                    out.spec_width() == w,
                    out.spec_height() == h,
                    forall|p: (int, int)|
                    #![trigger out@.dom().contains(p)]
                    #![trigger self.holds(p)]
                    out@.dom().contains(p) <==> self.holds(p),
                    forall|p: (int, int)|
                        self.holds(p) && row_major_before(p, x as int, y as int) ==> #[trigger] out@[p]
                            == composite_pixel(
                            self.layer(0)[p],
                            self.layer(1)[p],
                            self.visible[0],
                            self.visible[1],
                        ),
                decreases w - x,
            {
                let mut c: (u8, u8, u8) = (255, 255, 255);
                if self.visible[0] {
                    c = mix_over_exec(self.layers[0].get(x, y), c);
                }
                if self.visible[1] {
                    c = mix_over_exec(self.layers[1].get(x, y), c);
                }
                out.put(x, y, c);
                x = x + 1;
            }
            y = y + 1;
        }
        assert(out@ =~= Map::new(
            |p: (int, int)| self.holds(p),
            |p: (int, int)|
                composite_pixel(self.layer(0)[p], self.layer(1)[p], self.visible[0], self.visible[1]),
        ));
        out
    }

    /// One layer over white, if the canvas has that layer.
    pub fn get_layer_as_rgb(&self, layer: usize) -> (r: Option<RgbBuffer>)
        requires
            self.wf(),
        ensures
            layer >= 2 ==> r is None,
            layer < 2 ==> r is Some && r->0.wf() && r->0.spec_width() == self.width
                && r->0.spec_height() == self.height && r->0@ == layer_over_white(
                self.layer(layer as int),
                self.width as int,
                self.height as int,
            ),
    {
        if layer >= 2 {
            return None;
        }
        let w = self.width;
        let h = self.height;
        assert(3 * w * h <= 4 * w * h) by (nonlinear_arith);
        let mut out = RgbBuffer::blank(w, h);
        let mut y: u32 = 0;
        while y < h
            invariant
                self.wf(),
                layer < 2,
                w == self.width,
                h == self.height,
                y <= h,
                out.spec_width() == w,
                out.spec_height() == h,
                forall|p: (int, int)|
                    #![trigger out@.dom().contains(p)]
                    #![trigger self.holds(p)]
                    out@.dom().contains(p) <==> self.holds(p),
                forall|p: (int, int)|
                    self.holds(p) && p.1 < y ==> #[trigger] out@[p] == mix_over(
                        self.layer(layer as int)[p],
                        white(),
                    ),
            decreases h - y,
        {
            let mut x: u32 = 0;
            while x < w
                invariant
                    self.wf(),
                    layer < 2,
                    w == self.width,
                    h == self.height,
                    y < h,
                    x <= w,
                    out.spec_width() == w,
                    out.spec_height() == h,
                    forall|p: (int, int)|
                    #![trigger out@.dom().contains(p)]
                    #![trigger self.holds(p)]
                    out@.dom().contains(p) <==> self.holds(p),
                    forall|p: (int, int)|
                        self.holds(p) && row_major_before(p, x as int, y as int) ==> #[trigger] out@[p]
                            == mix_over(self.layer(layer as int)[p], white()),
                decreases w - x,
            {
                let c = mix_over_exec(self.layers[layer].get(x, y), (255, 255, 255));
                out.put(x, y, c);
                x = x + 1;
            }
            y = y + 1;
        }
        assert(out@ =~= layer_over_white(self.layer(layer as int), w as int, h as int));
        Some(out)
    }
}

impl Renderer {
    /// The canvas is well formed, the kernels are the tables of
    /// [`crate::kernel`], and the carry of alpha is not negative and at
    /// most one quantum.
    pub open spec fn wf(&self) -> bool {
        &&& self.canvas.wf()
        &&& round_tables(self.round_data@)
        &&& tone_tables(self.tone_data@)
        &&& carry_in_range(self.state.aerr)
    }

    /// The scene that the engine holds.
    pub open spec fn view(&self) -> Scene {
        Scene {
            width: self.canvas.width as int,
            height: self.canvas.height as int,
            lower: self.canvas.layer(0),
            upper: self.canvas.layer(1),
            state: self.state,
            clipboard: match self.clipboard {
                Some(v) => Some(v@),
                None => None,
            },
        }
    }

    /// The two engines differ at most in their scenes: they have the
    /// same kernels, and canvases with the same settings.
    pub open spec fn same_setup(&self, other: &Renderer) -> bool {
        &&& self.round_data == other.round_data
        &&& self.tone_data == other.tone_data
        &&& self.canvas.width == other.canvas.width
        &&& self.canvas.height == other.canvas.height
        &&& self.canvas.current_layer == other.canvas.current_layer
        &&& self.canvas.visible == other.canvas.visible
    }

    /// An engine over a blank canvas of the given size.
    pub fn new(width: u32, height: u32) -> (r: Renderer)
        requires
            4 * width * height <= isize::MAX,
        ensures
            r.wf(),
            r.canvas.width == width,
            r.canvas.height == height,
            r.canvas.current_layer == 0,
            r.canvas.visible[0] && r.canvas.visible[1],
            r.canvas.layer(0) == blank_layer(width as int, height as int),
            r.canvas.layer(1) == blank_layer(width as int, height as int),
            r.state.current_color == (Color { r: 0, g: 0, b: 0, a: 255 }),
            r.state.current_mask == (Color { r: 0, g: 0, b: 0, a: 0 }),
            r.state.current_width == float_from_int(1),
            r.state.current_mask_type == MaskType::NoMask,
            r.state.aerr == zero(false),
            r.clipboard is None,
    {
        proof {
            crate::float::lemma_quantum_bits();
        }
        Renderer {
            canvas: Canvas::new(width, height),
            state: DrawingState::default(),
            round_data: build_round_tables(),
            tone_data: build_tone_tables(),
            clipboard: None,
        }
    }

    /// The opacity of the next stamp of the current colour.  The curve of
    /// the tool gives the opacity; one below a quantum goes to the carry
    /// `aerr`, which gives a quantum back once it holds more than one.
    pub fn get_alpha(&mut self, alpha_type: AlphaType) -> (a1: F64)
        ensures
            (a1, final(self).state.aerr) == settle(
                old(self).state.aerr,
                stamp_alpha(alpha_type, old(self).state.current_color.a),
            ),
            final(self).canvas == old(self).canvas,
            final(self).round_data == old(self).round_data,
            final(self).tone_data == old(self).tone_data,
            final(self).clipboard == old(self).clipboard,
            final(self).state.current_color == old(self).state.current_color,
            final(self).state.current_mask == old(self).state.current_mask,
            final(self).state.current_width == old(self).state.current_width,
            final(self).state.current_mask_type == old(self).state.current_mask_type,
            carry_in_range(old(self).state.aerr) ==> carry_in_range(final(self).state.aerr),
    {
        proof {
            if carry_in_range(self.state.aerr) {
                lemma_settle_in_range(self.state.aerr, alpha_type, self.state.current_color.a);
            }
        }
        let raw = stamp_alpha_exec(alpha_type, self.state.current_color.a);
        let (a1, rest) = settle_exec(self.state.aerr, raw);
        self.state.aerr = rest;
        a1
    }
}

} // verus!

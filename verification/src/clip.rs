//! The clipboard and the merge of the two layers.
use vstd::prelude::*;
use crate::Color;
use crate::blend::{merge_blend, merge_blend_exec};
use crate::raster::{clear_pixel, in_raster};
use crate::renderer::{Renderer, Scene, row_major_before};

verus! {

/// A pixel as one 32-bit word: red in the lowest byte, then green, blue
/// and alpha, `(a << 24) | (b << 16) | (g << 8) | r`.
pub open spec fn pack(c: Color) -> u32 {
    (c.r as int + 0x100 * (c.g as int) + 0x1_0000 * (c.b as int) + 0x100_0000 * (c.a as int)) as u32
}

/// The pixel that a 32-bit word packs.
pub open spec fn unpack(v: u32) -> Color {
    Color {
        r: (v % 0x100) as u8,
        g: ((v / 0x100) % 0x100) as u8,
        b: ((v / 0x1_0000) % 0x100) as u8,
        a: (v / 0x100_0000) as u8,
    }
}

/// Packing and unpacking undo each other.
pub proof fn lemma_pack_unpack(c: Color, v: u32)
    ensures
        unpack(pack(c)) == c,
        pack(unpack(v)) == v,
{
    let x = c.r as int + 0x100 * (c.g as int) + 0x1_0000 * (c.b as int) + 0x100_0000 * (c.a as int);
    let hi = c.g as int + 0x100 * (c.b as int) + 0x1_0000 * (c.a as int);
    let top = c.b as int + 0x100 * (c.a as int);
    vstd::arithmetic::div_mod::lemma_fundamental_div_mod_converse(x, 0x100, hi, c.r as int);
    vstd::arithmetic::div_mod::lemma_fundamental_div_mod_converse(hi, 0x100, top, c.g as int);
    vstd::arithmetic::div_mod::lemma_fundamental_div_mod_converse(top, 0x100, c.a as int, c.b as int);
    vstd::arithmetic::div_mod::lemma_fundamental_div_mod_converse(x, 0x1_0000, top, c.r as int + 0x100 * (c.g as int));
    vstd::arithmetic::div_mod::lemma_fundamental_div_mod_converse(
        x,
        0x100_0000,
        c.a as int,
        c.r as int + 0x100 * (c.g as int) + 0x1_0000 * (c.b as int),
    );
    assert(unpack(pack(c)) == c);
    let n = v as int;
    vstd::arithmetic::div_mod::lemma_div_denominator(n, 0x100, 0x100);
    vstd::arithmetic::div_mod::lemma_div_denominator(n, 0x1_0000, 0x100);
    vstd::arithmetic::div_mod::lemma_fundamental_div_mod(n, 0x100);
    vstd::arithmetic::div_mod::lemma_fundamental_div_mod(n / 0x100, 0x100);
    vstd::arithmetic::div_mod::lemma_fundamental_div_mod(n / 0x1_0000, 0x100);
    assert(n / 0x100 / 0x100 == n / 0x1_0000);
    assert(n / 0x1_0000 / 0x100 == n / 0x100_0000);
    assert(pack(unpack(v)) == v);
}

/// A pixel as one 32-bit word.
pub fn pixel_to_u32(pixel: &Color) -> (v: u32)
    ensures
        v == pack(*pixel),
{
    (pixel.r as u32) + 0x100 * (pixel.g as u32) + 0x1_0000 * (pixel.b as u32) + 0x100_0000 * (pixel.a as u32)
}

/// The pixel that a 32-bit word packs.
pub fn pixel_from_u32(v: u32) -> (c: Color)
    ensures
        c == unpack(v),
{
    Color {
        r: (v % 0x100) as u8,
        g: ((v / 0x100) % 0x100) as u8,
        b: ((v / 0x1_0000) % 0x100) as u8,
        a: (v / 0x100_0000) as u8,
    }
}

/// The smaller of `a + n` and `limit`: where a box that starts at `a` and
/// is `n` long ends on an axis of length `limit`.
pub open spec fn box_end(a: int, n: int, limit: int) -> int {
    if a + n <= limit {
        a + n
    } else {
        limit
    }
}

/// Whether `p` lies in the box at `(x, y)`, `w` wide and `h` high.
pub open spec fn in_box(p: (int, int), x: int, y: int, w: int, h: int) -> bool {
    x <= p.0 < x + w && y <= p.1 < y + h
}

/// Row `v`, column `u` of a grid `w` wide is entry `v * w + u` of the
/// grid written row by row.
pub proof fn lemma_row_index(w: int, h: int, u: int, v: int)
    requires
        0 <= u < w,
        0 <= v < h,
    ensures
        0 <= v * w + u < w * h,
        (v * w + u) / w == v,
        (v * w + u) % w == u,
{
    vstd::arithmetic::div_mod::lemma_fundamental_div_mod_converse(v * w + u, w, v, u);
    assert(v * w + u < w * h) by (nonlinear_arith)
        requires
            0 <= u < w,
            0 <= v < h,
    ;
    assert(0 <= v * w) by (nonlinear_arith)
        requires
            0 <= v,
            0 < w,
    ;
}

/// The packed pixels of the box from `(x, y)` to `(ex, ey)`, the end
/// excluded, row by row.
pub open spec fn copied(layer: Map<(int, int), Color>, x: int, y: int, ex: int, ey: int) -> Seq<u32> {
    Seq::new(
        ((ex - x) * (ey - y)) as nat,
        |k: int| pack(layer[(x + k % (ex - x), y + k / (ex - x))]),
    )
}

/// The scene after a copy from layer `layer`.  A layer that the canvas
/// does not have is passed over.  Otherwise the clipboard takes the part
/// of the box that lies on the canvas, and is left empty where no part
/// does.
pub open spec fn copy_done(s: Scene, layer: int, x: int, y: int, w: int, h: int) -> Scene {
    let ex = box_end(x, w, s.width);
    let ey = box_end(y, h, s.height);
    if !(0 <= layer < 2) {
        s
    } else if x >= s.width || y >= s.height || ex <= x || ey <= y {
        Scene { clipboard: None, ..s }
    } else {
        Scene { clipboard: Some(copied(s.layer(layer), x, y, ex, ey)), ..s }
    }
}

/// A layer after the words of `data` have been written over the box from
/// `(x, y)` to `(ex, ey)`, row by row, as far as they reach.
pub open spec fn pasted(layer: Map<(int, int), Color>, data: Seq<u32>, x: int, y: int, ex: int, ey: int) -> Map<
    (int, int),
    Color,
> {
    Map::new(
        |p: (int, int)| layer.dom().contains(p),
        |p: (int, int)|
            if x <= p.0 < ex && y <= p.1 < ey && (p.1 - y) * (ex - x) + (p.0 - x) < data.len() {
                unpack(data[(p.1 - y) * (ex - x) + (p.0 - x)])
            } else {
                layer[p]
            },
    )
}

/// The scene after a paste on layer `layer` of the box at
/// `(x + dx, y + dy)`.  The clipboard is empty afterwards, whatever was
/// pasted.
pub open spec fn paste_done(s: Scene, layer: int, x: int, y: int, w: int, h: int, dx: int, dy: int) -> Scene {
    let tx = x + dx;
    let ty = y + dy;
    let ex = box_end(tx, w, s.width);
    let ey = box_end(ty, h, s.height);
    let emptied = Scene { clipboard: None, ..s };
    match s.clipboard {
        None => emptied,
        Some(data) => if !(0 <= layer < 2) || tx < 0 || ty < 0 || tx >= s.width || ty >= s.height || ex <= tx
            || ey <= ty {
            emptied
        } else {
            emptied.with_layer(layer, pasted(s.layer(layer), data, tx, ty, ex, ey))
        },
    }
}

/// The scene after the box at `(x, y)` of the other layer has been merged
/// into layer `layer`: inside the box, `layer` holds the upper layer over
/// the lower one and the other layer is transparent.
pub open spec fn merge_done(s: Scene, layer: int, x: int, y: int, w: int, h: int) -> Scene {
    if !(0 <= layer < 2) {
        s
    } else {
        let merged = Map::new(
            |p: (int, int)| s.holds(p),
            |p: (int, int)|
                if in_box(p, x, y, w, h) {
                    merge_blend(s.lower[p], s.upper[p])
                } else {
                    s.layer(layer)[p]
                },
        );
        let emptied = Map::new(
            |p: (int, int)| s.holds(p),
            |p: (int, int)|
                if in_box(p, x, y, w, h) {
                    clear_pixel()
                } else {
                    s.layer(1 - layer)[p]
                },
        );
        s.with_layer(layer, merged).with_layer(1 - layer, emptied)
    }
}

/// After a merge into `layer`, the other layer is transparent inside the
/// box and `layer` holds the upper layer over the lower one there;
/// outside the box both layers are as they were.
pub proof fn lemma_merge_done(s: Scene, layer: int, x: int, y: int, w: int, h: int, p: (int, int))
    requires
        0 <= layer < 2,
        s.holds(p),
    ensures
        in_box(p, x, y, w, h) ==> merge_done(s, layer, x, y, w, h).layer(layer)[p] == merge_blend(
            s.lower[p],
            s.upper[p],
        ) && merge_done(s, layer, x, y, w, h).layer(1 - layer)[p] == clear_pixel(),
        !in_box(p, x, y, w, h) ==> merge_done(s, layer, x, y, w, h).layer(layer)[p] == s.layer(layer)[p]
            && merge_done(s, layer, x, y, w, h).layer(1 - layer)[p] == s.layer(1 - layer)[p],
{
}

/// A scene whose layers hold exactly the positions of its canvas.
pub open spec fn scene_wf(s: Scene) -> bool {
    &&& 0 <= s.width
    &&& 0 <= s.height
    &&& forall|p: (int, int)| s.lower.dom().contains(p) <==> in_raster(s.width, s.height, p)
    &&& forall|p: (int, int)| s.upper.dom().contains(p) <==> in_raster(s.width, s.height, p)
}

/// A paste leaves the clipboard empty, and a second paste right after it
/// changes nothing.
pub proof fn lemma_paste_twice(
    s: Scene,
    layer: int,
    x: int,
    y: int,
    w: int,
    h: int,
    dx: int,
    dy: int,
    layer2: int,
    x2: int,
    y2: int,
    w2: int,
    h2: int,
    dx2: int,
    dy2: int,
)
    ensures
        paste_done(s, layer, x, y, w, h, dx, dy).clipboard is None,
        paste_done(paste_done(s, layer, x, y, w, h, dx, dy), layer2, x2, y2, w2, h2, dx2, dy2) == paste_done(
            s,
            layer,
            x,
            y,
            w,
            h,
            dx,
            dy,
        ),
{
}

/// A box copied from a layer and pasted back where it came from leaves
/// every pixel of the scene as it was.
pub proof fn lemma_copy_paste_round_trip(s: Scene, layer: int, x: int, y: int, w: int, h: int)
    requires
        scene_wf(s),
        0 <= layer < 2,
        0 <= x,
        0 <= y,
        0 <= w,
        0 <= h,
    ensures
        paste_done(copy_done(s, layer, x, y, w, h), layer, x, y, w, h, 0, 0) == (Scene { clipboard: None, ..s }),
{
    let ex = box_end(x, w, s.width);
    let ey = box_end(y, h, s.height);
    let c = copy_done(s, layer, x, y, w, h);
    let r = paste_done(c, layer, x, y, w, h, 0, 0);
    if !(x >= s.width || y >= s.height || ex <= x || ey <= y) {
        let data = copied(s.layer(layer), x, y, ex, ey);
        let after = pasted(s.layer(layer), data, x, y, ex, ey);
        assert forall|p: (int, int)| s.layer(layer).dom().contains(p) implies after[p] == s.layer(layer)[p] by {
            if x <= p.0 < ex && y <= p.1 < ey {
                lemma_row_index(ex - x, ey - y, p.0 - x, p.1 - y);
                lemma_pack_unpack(s.layer(layer)[p], 0);
            }
        }
        assert(after =~= s.layer(layer));
        assert(r == (Scene { clipboard: None, ..s }));
    }
}

impl Renderer {
    /// Copies a box of a layer to the clipboard.
    pub fn do_copy(&mut self, layer: usize, x: u32, y: u32, width: u32, height: u32)
        requires
            old(self).wf(),
        ensures
            final(self).wf(),
            final(self).same_setup(old(self)),
            final(self)@ == copy_done(old(self)@, layer as int, x as int, y as int, width as int, height as int),
    {
        if layer >= 2 {
            return;
        }
        self.clipboard = None;
        let cw: u64 = self.canvas.width as u64;
        let ch: u64 = self.canvas.height as u64;
        let end_x: u64 = if x as u64 + width as u64 <= cw { x as u64 + width as u64 } else { cw };
        let end_y: u64 = if y as u64 + height as u64 <= ch { y as u64 + height as u64 } else { ch };
        if x as u64 >= cw || y as u64 >= ch || end_x <= x as u64 || end_y <= y as u64 {
            return;
        }
        let aw: u64 = end_x - x as u64;
        let ah: u64 = end_y - y as u64;
        let ghost src = self.canvas.layers[layer as int]@;
        let ghost want = copied(src, x as int, y as int, end_x as int, end_y as int);
        let mut data: Vec<u32> = Vec::new();
        let mut py: u64 = y as u64;
        while py < end_y
            invariant
                self.wf(),
                layer < 2,
                cw == self.canvas.width,
                ch == self.canvas.height,
                x < end_x <= cw,
                y <= py <= end_y <= ch,
                aw == end_x - x,
                ah == end_y - y,
                src == self.canvas.layers[layer as int]@,
                want == copied(src, x as int, y as int, end_x as int, end_y as int),
                data@.len() == (py - y) * aw,
                forall|k: int| 0 <= k < data@.len() ==> data@[k] == want[k],
            decreases end_y - py,
        {
            let mut px: u64 = x as u64;
            while px < end_x
                invariant
                    self.wf(),
                    layer < 2,
                    cw == self.canvas.width,
                    ch == self.canvas.height,
                    x <= px <= end_x <= cw,
                    y <= py < end_y <= ch,
                    aw == end_x - x,
                    ah == end_y - y,
                    src == self.canvas.layers[layer as int]@,
                    want == copied(src, x as int, y as int, end_x as int, end_y as int),
                    data@.len() == (py - y) * aw + (px - x),
                    forall|k: int| 0 <= k < data@.len() ==> data@[k] == want[k],
                decreases end_x - px,
            {
                proof {
                    lemma_row_index(aw as int, ah as int, px - x, py - y);
                }
                let c = self.canvas.layers[layer].get(px as u32, py as u32);
                data.push(pixel_to_u32(&c));
                px = px + 1;
            }
            assert((py + 1 - y) * aw == (py - y) * aw + aw) by (nonlinear_arith);
            py = py + 1;
        }
        assert(data@ =~= want) by {
            assert(ah * aw == aw * ah) by (nonlinear_arith);
        }
        self.clipboard = Some(data);
    }

    /// Writes the clipboard over a box of a layer, moved by `(dx, dy)`,
    /// and empties the clipboard.
    pub fn do_paste(&mut self, layer: usize, x: u32, y: u32, width: u32, height: u32, dx: i32, dy: i32)
        requires
            old(self).wf(),
        ensures
            final(self).wf(),
            final(self).same_setup(old(self)),
            final(self)@ == paste_done(
                old(self)@,
                layer as int,
                x as int,
                y as int,
                width as int,
                height as int,
                dx as int,
                dy as int,
            ),
    {
        let data = match self.clipboard.take() {
            Some(data) => data,
            None => {
                return;
            },
        };
        if layer >= 2 {
            return;
        }
        let cw: i64 = self.canvas.width as i64;
        let ch: i64 = self.canvas.height as i64;
        let tx: i64 = x as i64 + dx as i64;
        let ty: i64 = y as i64 + dy as i64;
        let end_x: i64 = if tx + width as i64 <= cw { tx + width as i64 } else { cw };
        let end_y: i64 = if ty + height as i64 <= ch { ty + height as i64 } else { ch };
        if tx < 0 || ty < 0 || tx >= cw || ty >= ch || end_x <= tx || end_y <= ty {
            return;
        }
        let aw: i64 = end_x - tx;
        let ghost before = old(self).canvas.layers[layer as int]@;
        let mut index: usize = 0;
        let mut py: i64 = ty;
        while py < end_y
            invariant
                old(self).wf(),
                self.wf(),
                self.same_setup(old(self)),
                self.state == old(self).state,
                self.clipboard is None,
                layer < 2,
                cw == self.canvas.width,
                ch == self.canvas.height,
                0 <= tx < end_x <= cw,
                0 <= ty <= py <= end_y <= ch,
                aw == end_x - tx,
                index == (py - ty) * aw || (index == data@.len() && index <= (py - ty) * aw),
                index <= data@.len(),
                before == old(self).canvas.layers[layer as int]@,
                self.canvas.layers[1 - layer] == old(self).canvas.layers[1 - layer],
                forall|p: (int, int)|
                    self.canvas.holds(p) ==> #[trigger] self.canvas.layers[layer as int]@[p] == if p.1 < py {
                        pasted(before, data@, tx as int, ty as int, end_x as int, end_y as int)[p]
                    } else {
                        before[p]
                    },
            decreases end_y - py,
        {
            let mut px: i64 = tx;
            while px < end_x
                invariant
                    old(self).wf(),
                    self.wf(),
                    self.same_setup(old(self)),
                    self.state == old(self).state,
                    self.clipboard is None,
                    layer < 2,
                    cw == self.canvas.width,
                    ch == self.canvas.height,
                    0 <= tx <= px <= end_x <= cw,
                    0 <= ty <= py < end_y <= ch,
                    aw == end_x - tx,
                    index == (py - ty) * aw + (px - tx) || (index == data@.len() && index <= (py - ty) * aw + (
                    px - tx)),
                    index <= data@.len(),
                    before == old(self).canvas.layers[layer as int]@,
                    self.canvas.layers[1 - layer] == old(self).canvas.layers[1 - layer],
                    forall|p: (int, int)|
                        self.canvas.holds(p) ==> #[trigger] self.canvas.layers[layer as int]@[p]
                            == if row_major_before(p, px as int, py as int) {
                            pasted(before, data@, tx as int, ty as int, end_x as int, end_y as int)[p]
                        } else {
                            before[p]
                        },
                decreases end_x - px,
            {
                proof {
                    lemma_cell_order(aw as int, px - tx, py - ty);
                }
                if index < data.len() {
                    let c = pixel_from_u32(data[index]);
                    let ghost mid = self.canvas.layers[layer as int]@;
                    self.canvas.layers[layer].put(px as u32, py as u32, c);
                    assert(self.canvas.layers[layer as int]@.dom() =~= mid.dom());
                    index = index + 1;
                }
                px = px + 1;
            }
            assert((py + 1 - ty) * aw == (py - ty) * aw + aw) by (nonlinear_arith);
            py = py + 1;
        }
        assert(self.canvas.layers[layer as int]@ =~= pasted(
            before,
            data@,
            tx as int,
            ty as int,
            end_x as int,
            end_y as int,
        ));
    }

    /// Merges a box of the other layer into `layer`: layer 1 over layer
    /// 0, the result in `layer`, and the other layer left transparent
    /// there.
    pub fn do_merge(&mut self, layer: usize, x: u32, y: u32, width: u32, height: u32)
        requires
            old(self).wf(),
        ensures
            final(self).wf(),
            final(self).same_setup(old(self)),
            final(self)@ == merge_done(old(self)@, layer as int, x as int, y as int, width as int, height as int),
    {
        if layer >= 2 {
            return;
        }
        let cw: u64 = self.canvas.width as u64;
        let ch: u64 = self.canvas.height as u64;
        let end_x: u64 = if x as u64 + width as u64 <= cw { x as u64 + width as u64 } else { cw };
        let end_y: u64 = if y as u64 + height as u64 <= ch { y as u64 + height as u64 } else { ch };
        let ghost lower = old(self).canvas.layers[0]@;
        let ghost upper = old(self).canvas.layers[1]@;
        let mut py: u64 = y as u64;
        while py < end_y
            invariant
                old(self).wf(),
                self.wf(),
                self.same_setup(old(self)),
                self.state == old(self).state,
                self.clipboard == old(self).clipboard,
                layer < 2,
                cw == self.canvas.width,
                ch == self.canvas.height,
                end_x <= cw,
                end_y <= ch,
                end_x <= x + width,
                end_y <= y + height,
                end_x == cw || end_x == x + width,
                end_y == ch || end_y == y + height,
                y <= py,
                lower == old(self).canvas.layers[0]@,
                upper == old(self).canvas.layers[1]@,
                forall|p: (int, int)|
                    self.canvas.holds(p) ==> #[trigger] self.canvas.layers[0]@[p] == if in_box(
                        p,
                        x as int,
                        y as int,
                        width as int,
                        height as int,
                    ) && p.1 < py {
                        if layer == 0 {
                            merge_blend(lower[p], upper[p])
                        } else {
                            clear_pixel()
                        }
                    } else {
                        lower[p]
                    },
                forall|p: (int, int)|
                    self.canvas.holds(p) ==> #[trigger] self.canvas.layers[1]@[p] == if in_box(
                        p,
                        x as int,
                        y as int,
                        width as int,
                        height as int,
                    ) && p.1 < py {
                        if layer == 1 {
                            merge_blend(lower[p], upper[p])
                        } else {
                            clear_pixel()
                        }
                    } else {
                        upper[p]
                    },
            decreases end_y + 1 - py,
        {
            let mut px: u64 = x as u64;
            while px < end_x
                invariant
                    old(self).wf(),
                    self.wf(),
                    self.same_setup(old(self)),
                    self.state == old(self).state,
                    self.clipboard == old(self).clipboard,
                    layer < 2,
                    cw == self.canvas.width,
                    ch == self.canvas.height,
                    end_x <= cw,
                    end_y <= ch,
                    end_x <= x + width,
                    end_y <= y + height,
                    end_x == cw || end_x == x + width,
                    end_y == ch || end_y == y + height,
                    y <= py < end_y,
                    x <= px,
                    lower == old(self).canvas.layers[0]@,
                    upper == old(self).canvas.layers[1]@,
                forall|p: (int, int)|
                    self.canvas.holds(p) ==> #[trigger] self.canvas.layers[0]@[p] == if in_box(
                        p,
                        x as int,
                        y as int,
                        width as int,
                        height as int,
                    ) && row_major_before(p, px as int, py as int) {
                        if layer == 0 {
                            merge_blend(lower[p], upper[p])
                        } else {
                            clear_pixel()
                        }
                    } else {
                        lower[p]
                    },
                forall|p: (int, int)|
                    self.canvas.holds(p) ==> #[trigger] self.canvas.layers[1]@[p] == if in_box(
                        p,
                        x as int,
                        y as int,
                        width as int,
                        height as int,
                    ) && row_major_before(p, px as int, py as int) {
                        if layer == 1 {
                            merge_blend(lower[p], upper[p])
                        } else {
                            clear_pixel()
                        }
                    } else {
                        upper[p]
                    },
                decreases end_x + 1 - px,
            {
                let p0 = self.canvas.layers[0].get(px as u32, py as u32);
                let p1 = self.canvas.layers[1].get(px as u32, py as u32);
                let out = merge_blend_exec(p0, p1);
                let ghost mid0 = self.canvas.layers[0]@;
                let ghost mid1 = self.canvas.layers[1]@;
                self.canvas.layers[1 - layer].put(px as u32, py as u32, Color { r: 0, g: 0, b: 0, a: 0 });
                self.canvas.layers[layer].put(px as u32, py as u32, out);
                assert(self.canvas.layers[0]@.dom() =~= mid0.dom());
                assert(self.canvas.layers[1]@.dom() =~= mid1.dom());
                px = px + 1;
            }
            py = py + 1;
        }
        assert(self.canvas.layers[layer as int]@ =~= merge_done(
            old(self)@,
            layer as int,
            x as int,
            y as int,
            width as int,
            height as int,
        ).layer(layer as int));
        assert(self.canvas.layers[1 - layer]@ =~= merge_done(
            old(self)@,
            layer as int,
            x as int,
            y as int,
            width as int,
            height as int,
        ).layer(1 - layer));
    }
}

/// In a grid `w` wide, the cells before `(u, v)` in row-major order are
/// those with a smaller index `v * w + u`.
proof fn lemma_cell_order(w: int, u: int, v: int)
    requires
        0 <= u < w,
        0 <= v,
    ensures
        forall|a: int, b: int|
            0 <= a < w && 0 <= b ==> (#[trigger] row_major_before((a, b), u, v) <==> b * w + a < v * w + u),
{
    assert forall|a: int, b: int| 0 <= a < w && 0 <= b implies (#[trigger] row_major_before((a, b), u, v) <==> b
        * w + a < v * w + u) by {
        if b < v {
            assert(b * w + w <= v * w) by (nonlinear_arith)
                requires
                    b + 1 <= v,
                    w > 0,
            ;
        } else if b > v {
            assert(v * w + w <= b * w) by (nonlinear_arith)
                requires
                    v + 1 <= b,
                    w > 0,
            ;
        }
    }
}

} // verus!

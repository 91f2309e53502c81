//! Flood fill: repainting the region of one colour that contains a seed.
use vstd::prelude::*;
use crate::Color;
use crate::clip::{lemma_pack_unpack, pack, pixel_from_u32, pixel_to_u32, unpack};
use crate::raster::{in_raster, RgbaBuffer};
use crate::renderer::{Renderer, Scene};

verus! {

/// The size of the work list above which a fill gives up.
pub const MAX_STACK_SIZE: usize = 1_000_000;

/// Whether two positions are neighbours along a row or a column.
pub open spec fn adjacent(p: (int, int), q: (int, int)) -> bool {
    ||| p.0 == q.0 && (p.1 == q.1 + 1 || q.1 == p.1 + 1)
    ||| p.1 == q.1 && (p.0 == q.0 + 1 || q.0 == p.0 + 1)
}

/// Whether `path` is a walk over pixels of the colour `base`, each next
/// to the one before it.
pub open spec fn is_path(layer: Map<(int, int), Color>, base: Color, path: Seq<(int, int)>) -> bool {
    &&& path.len() > 0
    &&& forall|k: int|
        0 <= k < path.len() ==> layer.dom().contains(#[trigger] path[k]) && layer[path[k]] == base
    &&& forall|k: int| 0 < k < path.len() ==> adjacent(path[k - 1], #[trigger] path[k])
}

/// Whether `p` belongs to the region of the seed: a walk over pixels of
/// the seed's colour leads from the seed to `p`.
#[verifier::opaque]
pub open spec fn connected(layer: Map<(int, int), Color>, seed: (int, int), p: (int, int)) -> bool {
    exists|path: Seq<(int, int)>|
        #[trigger] is_path(layer, layer[seed], path) && path[0] == seed && path.last() == p
}

/// A layer with the region of the seed repainted, and nothing else
/// changed.
pub open spec fn flooded(layer: Map<(int, int), Color>, seed: (int, int), fill: Color) -> Map<
    (int, int),
    Color,
> {
    Map::new(
        |p: (int, int)| layer.dom().contains(p),
        |p: (int, int)|
            if connected(layer, seed, p) {
                fill
            } else {
                layer[p]
            },
    )
}

/// What holds of a fill however far it got: a pixel is as it was, or it
/// belongs to the region of the seed and has the fill colour.
pub open spec fn flood_partial(
    before: Map<(int, int), Color>,
    after: Map<(int, int), Color>,
    seed: (int, int),
    fill: Color,
) -> bool {
    &&& after.dom() == before.dom()
    &&& forall|p: (int, int)|
        before.dom().contains(p) ==> #[trigger] after[p] == before[p] || (connected(before, seed, p)
            && after[p] == fill)
}

/// Whether a fill from `(x, y)` has anything to do: the layer and the
/// seed exist, and the seed is neither transparent nor of the fill colour
/// already.
pub open spec fn flood_applies(s: Scene, layer: int, x: int, y: int, fill: u32) -> bool {
    &&& 0 <= layer < 2
    &&& s.holds((x, y))
    &&& s.layer(layer)[(x, y)].a != 0
    &&& pack(s.layer(layer)[(x, y)]) != fill
}

/// The scene after a flood fill that ran to its end.
pub open spec fn flood_done(s: Scene, layer: int, x: int, y: int, fill: u32) -> Scene {
    if flood_applies(s, layer, x, y, fill) {
        s.with_layer(layer, flooded(s.layer(layer), (x, y), unpack(fill)))
    } else {
        s
    }
}

/// A fill that ran to its end leaves no pixel of the region in the
/// seed's colour.
pub proof fn lemma_flooded_region(layer: Map<(int, int), Color>, seed: (int, int), fill: Color, p: (int, int))
    requires
        layer.dom().contains(p),
        layer[seed] != fill,
    ensures
        connected(layer, seed, p) ==> flooded(layer, seed, fill)[p] == fill && flooded(layer, seed, fill)[p]
            != layer[seed],
        !connected(layer, seed, p) ==> flooded(layer, seed, fill)[p] == layer[p],
{
}

/// A fill from a seed that has the fill colour already changes nothing,
/// and neither does one from a transparent seed.
pub proof fn lemma_flood_nothing_to_do(s: Scene, layer: int, x: int, y: int, fill: u32)
    requires
        pack(s.layer(layer)[(x, y)]) == fill || s.layer(layer)[(x, y)].a == 0,
    ensures
        flood_done(s, layer, x, y, fill) == s,
{
}

/// The seed belongs to its own region.
pub proof fn lemma_connected_seed(layer: Map<(int, int), Color>, seed: (int, int))
    requires
        layer.dom().contains(seed),
    ensures
        connected(layer, seed, seed),
{
    reveal(connected);
    let path = seq![seed];
    assert(is_path(layer, layer[seed], path));
    assert(path[0] == seed && path.last() == seed);
}

/// A neighbour of the seed's colour of a pixel of the region belongs to
/// the region.
pub proof fn lemma_connected_step(
    layer: Map<(int, int), Color>,
    seed: (int, int),
    p: (int, int),
    q: (int, int),
)
    requires
        connected(layer, seed, p),
        adjacent(p, q),
        layer.dom().contains(q),
        layer[q] == layer[seed],
    ensures
        connected(layer, seed, q),
{
    reveal(connected);
    let path = choose|path: Seq<(int, int)>|
        #[trigger] is_path(layer, layer[seed], path) && path[0] == seed && path.last() == p;
    let longer = path.push(q);
    assert forall|k: int| 0 <= k < longer.len() implies layer.dom().contains(#[trigger] longer[k])
        && layer[longer[k]] == layer[seed] by {
        if k < path.len() {
            assert(longer[k] == path[k]);
        }
    }
    assert forall|k: int| 0 < k < longer.len() implies adjacent(longer[k - 1], #[trigger] longer[k]) by {
        if k < path.len() {
            assert(longer[k] == path[k]);
            assert(longer[k - 1] == path[k - 1]);
        } else {
            assert(longer[k - 1] == path.last());
        }
    }
    assert(is_path(layer, layer[seed], longer));
    assert(longer[0] == path[0]);
    assert(longer.last() == q);
}

/// Whether the layer has the colour `base` at column `x` of row `y`.
pub open spec fn row_has(layer: Map<(int, int), Color>, base: Color, x: int, y: int) -> bool {
    layer.dom().contains((x, y)) && layer[(x, y)] == base
}

/// Along a row, a stretch of the seed's colour that holds a pixel of the
/// region belongs to the region.
pub proof fn lemma_run_connected(
    layer: Map<(int, int), Color>,
    seed: (int, int),
    y: int,
    from: int,
    to: int,
)
    requires
        connected(layer, seed, (from, y)),
        forall|x: int| (from <= x <= to || to <= x <= from) ==> #[trigger] row_has(layer, layer[seed], x, y),
    ensures
        connected(layer, seed, (to, y)),
    decreases
            if from <= to {
                to - from
            } else {
                from - to
            },
{
    if from < to {
        lemma_run_connected(layer, seed, y, from, to - 1);
        assert(row_has(layer, layer[seed], to, y));
        lemma_connected_step(layer, seed, (to - 1, y), (to, y));
    } else if to < from {
        lemma_run_connected(layer, seed, y, from, to + 1);
        assert(row_has(layer, layer[seed], to, y));
        lemma_connected_step(layer, seed, (to + 1, y), (to, y));
    }
}

/// Whether the work list holds the position `p`.
pub open spec fn on_stack(stack: Seq<(u32, u32)>, p: (int, int)) -> bool {
    exists|k: int| 0 <= k < stack.len() && (#[trigger] stack[k]).0 == p.0 && stack[k].1 == p.1
}

/// The position that a work-list entry names.
pub open spec fn at(e: (u32, u32)) -> (int, int) {
    (e.0 as int, e.1 as int)
}

/// Both layers hold exactly the positions of the raster.
pub open spec fn inv_dom(before: Map<(int, int), Color>, cur: Map<(int, int), Color>, w: int, h: int) -> bool {
    &&& forall|p: (int, int)| #[trigger] before.dom().contains(p) <==> in_raster(w, h, p)
    &&& forall|p: (int, int)| #[trigger] cur.dom().contains(p) <==> in_raster(w, h, p)
}

/// No pixel outside the region has changed, and a changed one has the
/// fill colour.
pub open spec fn inv_sound(
    before: Map<(int, int), Color>,
    cur: Map<(int, int), Color>,
    seed: (int, int),
    fill: Color,
    w: int,
    h: int,
) -> bool {
    forall|p: (int, int)|
        in_raster(w, h, p) ==> #[trigger] cur[p] == before[p] || (before[p] == before[seed] && cur[p] == fill
            && connected(before, seed, p))
}

/// Every entry of the work list lies on the raster, and belongs to the
/// region if it had the seed's colour.
pub open spec fn inv_entries(
    before: Map<(int, int), Color>,
    stack: Seq<(u32, u32)>,
    seed: (int, int),
    w: int,
    h: int,
) -> bool {
    forall|k: int|
        0 <= k < stack.len() ==> in_raster(w, h, at(#[trigger] stack[k])) && (before[at(stack[k])]
            == before[seed] ==> connected(before, seed, at(stack[k])))
}

/// Whether `q` is done with or still to do: repainted, or on the work
/// list.
pub open spec fn seen(
    before: Map<(int, int), Color>,
    cur: Map<(int, int), Color>,
    stack: Seq<(u32, u32)>,
    q: (int, int),
) -> bool {
    cur[q] != before[q] || on_stack(stack, q)
}

/// The fill cannot be stuck: the seed, and each neighbour of the seed's
/// colour of a repainted pixel, is repainted or still on the work list.
pub open spec fn inv_front(
    before: Map<(int, int), Color>,
    cur: Map<(int, int), Color>,
    stack: Seq<(u32, u32)>,
    seed: (int, int),
    w: int,
    h: int,
) -> bool {
    &&& seen(before, cur, stack, seed)
    &&& forall|p: (int, int), q: (int, int)|
        in_raster(w, h, p) && in_raster(w, h, q) && #[trigger] adjacent(p, q) && cur[p] != before[p]
            && before[q] == before[seed] ==> seen(before, cur, stack, q)
}

/// What holds between two steps of a fill.
pub open spec fn flood_inv(
    before: Map<(int, int), Color>,
    cur: Map<(int, int), Color>,
    stack: Seq<(u32, u32)>,
    seed: (int, int),
    fill: Color,
    w: int,
    h: int,
) -> bool {
    &&& in_raster(w, h, seed)
    &&& before[seed] != fill
    &&& inv_dom(before, cur, w, h)
    &&& inv_sound(before, cur, seed, fill, w, h)
    &&& inv_entries(before, stack, seed, w, h)
    &&& inv_front(before, cur, stack, seed, w, h)
}

/// When the work list is empty, every pixel on a walk from the seed is
/// repainted.
proof fn lemma_path_painted(
    before: Map<(int, int), Color>,
    cur: Map<(int, int), Color>,
    seed: (int, int),
    w: int,
    h: int,
    path: Seq<(int, int)>,
    k: int,
)
    requires
        inv_dom(before, cur, w, h),
        inv_front(before, cur, Seq::<(u32, u32)>::empty(), seed, w, h),
        is_path(before, before[seed], path),
        path[0] == seed,
        0 <= k < path.len(),
    ensures
        cur[path[k]] != before[path[k]],
    decreases k,
{
    let none = Seq::<(u32, u32)>::empty();
    if k == 0 {
        assert(!on_stack(none, seed));
    } else {
        lemma_path_painted(before, cur, seed, w, h, path, k - 1);
        assert(before.dom().contains(path[k]));
        assert(before.dom().contains(path[k - 1]));
        assert(adjacent(path[k - 1], path[k]));
        assert(!on_stack(none, path[k]));
        assert(seen(before, cur, none, path[k]));
    }
}

/// When the work list is empty, the region of the seed is repainted and
/// nothing else has changed.
proof fn lemma_flood_complete(
    before: Map<(int, int), Color>,
    cur: Map<(int, int), Color>,
    seed: (int, int),
    fill: Color,
    w: int,
    h: int,
)
    requires
        flood_inv(before, cur, Seq::<(u32, u32)>::empty(), seed, fill, w, h),
    ensures
        cur == flooded(before, seed, fill),
{
    let want = flooded(before, seed, fill);
    assert forall|p: (int, int)| cur.dom().contains(p) implies cur[p] == want[p] by {
        assert(in_raster(w, h, p));
        assert(before.dom().contains(p));
        if connected(before, seed, p) {
            reveal(connected);
            let path = choose|path: Seq<(int, int)>|
                #[trigger] is_path(before, before[seed], path) && path[0] == seed && path.last() == p;
            lemma_path_painted(before, cur, seed, w, h, path, path.len() - 1);
        }
    }
    assert forall|p: (int, int)| cur.dom().contains(p) <==> want.dom().contains(p) by {
        assert(before.dom().contains(p) <==> in_raster(w, h, p));
    }
    assert(cur =~= want);
}

/// The invariant gives what holds of a fill that stopped early.
proof fn lemma_flood_sound(
    before: Map<(int, int), Color>,
    cur: Map<(int, int), Color>,
    stack: Seq<(u32, u32)>,
    seed: (int, int),
    fill: Color,
    w: int,
    h: int,
)
    requires
        flood_inv(before, cur, stack, seed, fill, w, h),
    ensures
        flood_partial(before, cur, seed, fill),
{
    assert forall|p: (int, int)| cur.dom().contains(p) <==> before.dom().contains(p) by {
        assert(before.dom().contains(p) <==> in_raster(w, h, p));
    }
    assert(cur.dom() =~= before.dom());
    assert forall|p: (int, int)| before.dom().contains(p) implies #[trigger] cur[p] == before[p] || (
    connected(before, seed, p) && cur[p] == fill) by {
        assert(in_raster(w, h, p));
    }
}

/// An entry of a work list is on the list without its last entry, or is
/// that last entry.
proof fn lemma_on_stack_pop(stack: Seq<(u32, u32)>, q: (int, int))
    requires
        on_stack(stack, q),
    ensures
        on_stack(stack.drop_last(), q) || q == at(stack.last()),
{
    let rest = stack.drop_last();
    let k = choose|k: int| 0 <= k < stack.len() && (#[trigger] stack[k]).0 == q.0 && stack[k].1 == q.1;
    if k < rest.len() {
        assert(rest[k] == stack[k]);
    }
}

/// An entry of a work list is on every list that begins with it.
proof fn lemma_on_stack_grow(rest: Seq<(u32, u32)>, grown: Seq<(u32, u32)>, q: (int, int))
    requires
        on_stack(rest, q),
        rest.len() <= grown.len(),
        forall|k: int| 0 <= k < rest.len() ==> #[trigger] grown[k] == rest[k],
    ensures
        on_stack(grown, q),
{
    let k = choose|k: int| 0 <= k < rest.len() && (#[trigger] rest[k]).0 == q.0 && rest[k].1 == q.1;
    assert(grown[k] == rest[k]);
}

/// Taking an entry that is no longer of the seed's colour off the work
/// list keeps the invariant.
proof fn lemma_flood_skip(
    before: Map<(int, int), Color>,
    cur: Map<(int, int), Color>,
    stack: Seq<(u32, u32)>,
    seed: (int, int),
    fill: Color,
    w: int,
    h: int,
)
    requires
        flood_inv(before, cur, stack, seed, fill, w, h),
        stack.len() > 0,
        cur[at(stack.last())] != before[seed],
    ensures
        flood_inv(before, cur, stack.drop_last(), seed, fill, w, h),
{
    let rest = stack.drop_last();
    assert forall|k: int| 0 <= k < rest.len() implies in_raster(w, h, at(#[trigger] rest[k])) && (before[at(
        rest[k],
    )] == before[seed] ==> connected(before, seed, at(rest[k]))) by {
        assert(rest[k] == stack[k]);
    }
    assert forall|q: (int, int)| before[q] == before[seed] && seen(before, cur, stack, q) implies seen(
        before,
        cur,
        rest,
        q,
    ) by {
        if on_stack(stack, q) {
            lemma_on_stack_pop(stack, q);
        }
    }
    assert forall|p: (int, int), q: (int, int)|
        in_raster(w, h, p) && in_raster(w, h, q) && #[trigger] adjacent(p, q) && cur[p] != before[p]
            && before[q] == before[seed] implies seen(before, cur, rest, q) by {
        assert(seen(before, cur, stack, q));
    }
}

/// Whether `grown` is the work list `rest` followed by entries for the
/// rows above and below the stretch from `x0` to `x1` of row `y`: for
/// each column of the stretch the position below it, where the canvas has
/// one, and the position above it, where it has one, and nothing else.
pub open spec fn stack_grown(
    rest: Seq<(u32, u32)>,
    grown: Seq<(u32, u32)>,
    x0: int,
    x1: int,
    y: int,
    h: int,
) -> bool {
    &&& rest.len() <= grown.len()
    &&& forall|k: int| 0 <= k < rest.len() ==> #[trigger] grown[k] == rest[k]
    &&& forall|k: int|
        rest.len() <= k < grown.len() ==> x0 <= (#[trigger] grown[k]).0 <= x1 && 0 <= grown[k].1 < h && (
        grown[k].1 == y + 1 || grown[k].1 == y - 1)
    &&& forall|x: int| x0 <= x <= x1 && y + 1 < h ==> #[trigger] on_stack(grown, (x, y + 1))
    &&& forall|x: int| x0 <= x <= x1 && y > 0 ==> #[trigger] on_stack(grown, (x, y - 1))
}

/// A layer with the stretch from `x0` to `x1` of row `y` painted.
pub open spec fn run_painted(layer: Map<(int, int), Color>, x0: int, x1: int, y: int, c: Color) -> Map<
    (int, int),
    Color,
> {
    Map::new(
        |p: (int, int)| layer.dom().contains(p),
        |p: (int, int)|
            if p.1 == y && x0 <= p.0 <= x1 {
                c
            } else {
                layer[p]
            },
    )
}

/// Whether the pixel at column `x` of row `y` is an untouched pixel of
/// the region: it is as it was, has the seed's colour and belongs to the
/// region.
pub open spec fn run_pixel(
    before: Map<(int, int), Color>,
    cur: Map<(int, int), Color>,
    seed: (int, int),
    x: int,
    y: int,
) -> bool {
    cur[(x, y)] == before[seed] && before[(x, y)] == before[seed] && connected(before, seed, (x, y))
}

/// Whether the stretch from `x0` to `x1` of row `y` is a whole stretch of
/// untouched pixels of the region: each of its pixels is as it was, has
/// the seed's colour and belongs to the region, and the pixels next to its
/// ends, if there are any, do not have the seed's colour now.
pub open spec fn whole_run(
    before: Map<(int, int), Color>,
    cur: Map<(int, int), Color>,
    seed: (int, int),
    w: int,
    h: int,
    x0: int,
    x1: int,
    y: int,
) -> bool {
    &&& 0 <= x0 <= x1 < w
    &&& 0 <= y < h
    &&& forall|x: int| x0 <= x <= x1 ==> #[trigger] run_pixel(before, cur, seed, x, y)
    &&& x0 == 0 || cur[(x0 - 1, y)] != before[seed]
    &&& x1 == w - 1 || cur[(x1 + 1, y)] != before[seed]
}

/// The stretch of the seed's colour around an entry of the seed's colour
/// is a whole stretch of untouched pixels of the region.
proof fn lemma_whole_run(
    before: Map<(int, int), Color>,
    cur: Map<(int, int), Color>,
    stack: Seq<(u32, u32)>,
    seed: (int, int),
    fill: Color,
    w: int,
    h: int,
    x0: int,
    x1: int,
)
    requires
        inv_dom(before, cur, w, h),
        inv_sound(before, cur, seed, fill, w, h),
        before[seed] != fill,
        stack.len() > 0,
        in_raster(w, h, at(stack.last())),
        connected(before, seed, at(stack.last())),
        cur[at(stack.last())] == before[seed],
        0 <= x0 <= stack.last().0 <= x1 < w,
        forall|x: int| x0 <= x <= x1 ==> #[trigger] cur[(x, stack.last().1 as int)] == before[seed],
        x0 == 0 || cur[(x0 - 1, stack.last().1 as int)] != before[seed],
        x1 == w - 1 || cur[(x1 + 1, stack.last().1 as int)] != before[seed],
    ensures
        whole_run(before, cur, seed, w, h, x0, x1, stack.last().1 as int),
{
    let base = before[seed];
    let top = at(stack.last());
    let y = top.1;
    assert forall|c: int| x0 <= c <= x1 implies #[trigger] row_has(before, base, c, y) by {
        assert(in_raster(w, h, (c, y)));
        assert(cur[(c, y)] == base);
        assert(before.dom().contains((c, y)));
    }
    assert(connected(before, seed, top));
    assert forall|x: int| x0 <= x <= x1 implies #[trigger] run_pixel(before, cur, seed, x, y) by {
        assert(row_has(before, base, x, y));
        assert(cur[(x, y)] == base);
        lemma_run_connected(before, seed, y, top.0, x);
    }
}

/// Repainting a whole stretch keeps every change within the region.
proof fn lemma_run_sound(
    before: Map<(int, int), Color>,
    cur: Map<(int, int), Color>,
    seed: (int, int),
    fill: Color,
    w: int,
    h: int,
    x0: int,
    x1: int,
    y: int,
)
    requires
        inv_dom(before, cur, w, h),
        inv_sound(before, cur, seed, fill, w, h),
        whole_run(before, cur, seed, w, h, x0, x1, y),
    ensures
        inv_dom(before, run_painted(cur, x0, x1, y, fill), w, h),
        inv_sound(before, run_painted(cur, x0, x1, y, fill), seed, fill, w, h),
{
    let next = run_painted(cur, x0, x1, y, fill);
    assert forall|p: (int, int)| in_raster(w, h, p) implies #[trigger] next[p] == before[p] || (before[p]
        == before[seed] && next[p] == fill && connected(before, seed, p)) by {
        assert(cur.dom().contains(p));
        if p.1 == y && x0 <= p.0 <= x1 {
            assert(p == (p.0, y));
            assert(run_pixel(before, cur, seed, p.0, y));
        } else {
            assert(next[p] == cur[p]);
        }
    }
    assert forall|p: (int, int)| #[trigger] next.dom().contains(p) <==> in_raster(w, h, p) by {
        assert(cur.dom().contains(p) <==> in_raster(w, h, p));
    }
}

/// The entries put on the work list for a whole stretch lie on the
/// raster, and belong to the region if they had the seed's colour.
proof fn lemma_run_entries(
    before: Map<(int, int), Color>,
    cur: Map<(int, int), Color>,
    rest: Seq<(u32, u32)>,
    grown: Seq<(u32, u32)>,
    seed: (int, int),
    w: int,
    h: int,
    x0: int,
    x1: int,
    y: int,
)
    requires
        inv_dom(before, cur, w, h),
        inv_entries(before, rest, seed, w, h),
        whole_run(before, cur, seed, w, h, x0, x1, y),
        stack_grown(rest, grown, x0, x1, y, h),
    ensures
        inv_entries(before, grown, seed, w, h),
{
    assert forall|k: int| 0 <= k < grown.len() implies in_raster(w, h, at(#[trigger] grown[k])) && (
    before[at(grown[k])] == before[seed] ==> connected(before, seed, at(grown[k]))) by {
        if k < rest.len() {
            assert(grown[k] == rest[k]);
        } else {
            let q = at(grown[k]);
            assert(in_raster(w, h, q));
            if before[q] == before[seed] {
                assert(before.dom().contains(q));
                assert(run_pixel(before, cur, seed, q.0, y));
                lemma_connected_step(before, seed, (q.0, y), q);
            }
        }
    }
}

/// What was repainted or on the work list before a whole stretch was
/// repainted is so afterwards, where it had the seed's colour.
proof fn lemma_run_keeps_seen(
    before: Map<(int, int), Color>,
    cur: Map<(int, int), Color>,
    stack: Seq<(u32, u32)>,
    grown: Seq<(u32, u32)>,
    seed: (int, int),
    fill: Color,
    w: int,
    h: int,
    x0: int,
    x1: int,
    q: (int, int),
)
    requires
        inv_dom(before, cur, w, h),
        before[seed] != fill,
        stack.len() > 0,
        x0 <= stack.last().0 <= x1,
        whole_run(before, cur, seed, w, h, x0, x1, stack.last().1 as int),
        stack_grown(stack.drop_last(), grown, x0, x1, stack.last().1 as int, h),
        in_raster(w, h, q),
        before[q] == before[seed],
        seen(before, cur, stack, q),
    ensures
        seen(before, run_painted(cur, x0, x1, stack.last().1 as int, fill), grown, q),
{
    let y = stack.last().1 as int;
    let next = run_painted(cur, x0, x1, y, fill);
    assert(cur.dom().contains(q));
    if q.1 == y && x0 <= q.0 <= x1 {
        assert(q == (q.0, y));
        assert(next[q] == fill);
    } else {
        assert(next[q] == cur[q]);
        if cur[q] == before[q] {
            lemma_on_stack_pop(stack, q);
            lemma_on_stack_grow(stack.drop_last(), grown, q);
        }
    }
}

/// After a whole stretch was repainted and the rows above and below it
/// were put on the work list, the fill is not stuck.
proof fn lemma_run_front(
    before: Map<(int, int), Color>,
    cur: Map<(int, int), Color>,
    stack: Seq<(u32, u32)>,
    grown: Seq<(u32, u32)>,
    seed: (int, int),
    fill: Color,
    w: int,
    h: int,
    x0: int,
    x1: int,
)
    requires
        in_raster(w, h, seed),
        inv_dom(before, cur, w, h),
        inv_sound(before, cur, seed, fill, w, h),
        inv_front(before, cur, stack, seed, w, h),
        before[seed] != fill,
        stack.len() > 0,
        x0 <= stack.last().0 <= x1,
        whole_run(before, cur, seed, w, h, x0, x1, stack.last().1 as int),
        stack_grown(stack.drop_last(), grown, x0, x1, stack.last().1 as int, h),
    ensures
        inv_front(before, run_painted(cur, x0, x1, stack.last().1 as int, fill), grown, seed, w, h),
{
    let base = before[seed];
    let y = stack.last().1 as int;
    let next = run_painted(cur, x0, x1, y, fill);
    lemma_run_keeps_seen(before, cur, stack, grown, seed, fill, w, h, x0, x1, seed);
    assert forall|p: (int, int), q: (int, int)|
        in_raster(w, h, p) && in_raster(w, h, q) && #[trigger] adjacent(p, q) && next[p] != before[p]
            && before[q] == base implies seen(before, next, grown, q) by {
        assert(cur.dom().contains(p));
        assert(cur.dom().contains(q));
        if p.1 == y && x0 <= p.0 <= x1 {
            if q.1 == y {
                if x0 <= q.0 <= x1 {
                    assert(q == (q.0, y));
                    assert(next[q] == fill);
                } else {
                    // next to an end of the stretch: repainted earlier
                    assert(q.0 == x0 - 1 || q.0 == x1 + 1);
                    assert(q == (q.0, y));
                    assert(cur[q] != base);
                    assert(next[q] == cur[q]);
                }
            } else if q.1 == y + 1 {
                assert(on_stack(grown, (q.0, y + 1)));
                assert(q == (q.0, y + 1));
            } else {
                assert(on_stack(grown, (q.0, y - 1)));
                assert(q == (q.0, y - 1));
            }
        } else {
            assert(next[p] == cur[p]);
            assert(seen(before, cur, stack, q));
            lemma_run_keeps_seen(before, cur, stack, grown, seed, fill, w, h, x0, x1, q);
        }
        if p.1 == y && x0 <= p.0 <= x1 && q.1 == y && !(x0 <= q.0 <= x1) {
            assert(cur[q] != before[q]);
        }
    }
}

/// Repainting the whole stretch of the seed's colour around an entry, and
/// putting the rows above and below it on the work list, keeps the
/// invariant.
proof fn lemma_flood_run(
    before: Map<(int, int), Color>,
    cur: Map<(int, int), Color>,
    stack: Seq<(u32, u32)>,
    grown: Seq<(u32, u32)>,
    seed: (int, int),
    fill: Color,
    w: int,
    h: int,
    x0: int,
    x1: int,
)
    requires
        flood_inv(before, cur, stack, seed, fill, w, h),
        stack.len() > 0,
        cur[at(stack.last())] == before[seed],
        0 <= x0 <= stack.last().0 <= x1 < w,
        forall|x: int| x0 <= x <= x1 ==> #[trigger] cur[(x, stack.last().1 as int)] == before[seed],
        x0 == 0 || cur[(x0 - 1, stack.last().1 as int)] != before[seed],
        x1 == w - 1 || cur[(x1 + 1, stack.last().1 as int)] != before[seed],
        stack_grown(stack.drop_last(), grown, x0, x1, stack.last().1 as int, h),
    ensures
        flood_inv(
            before,
            run_painted(cur, x0, x1, stack.last().1 as int, fill),
            grown,
            seed,
            fill,
            w,
            h,
        ),
{
    let rest = stack.drop_last();
    let y = stack.last().1 as int;
    let top = at(stack[stack.len() - 1]);
    assert(in_raster(w, h, top));
    assert(cur[top] == before[top]);
    assert(connected(before, seed, top));
    lemma_whole_run(before, cur, stack, seed, fill, w, h, x0, x1);
    lemma_run_sound(before, cur, seed, fill, w, h, x0, x1, y);
    assert(inv_entries(before, rest, seed, w, h)) by {
        assert forall|k: int| 0 <= k < rest.len() implies in_raster(w, h, at(#[trigger] rest[k])) && (
        before[at(rest[k])] == before[seed] ==> connected(before, seed, at(rest[k]))) by {
            assert(rest[k] == stack[k]);
        }
    }
    lemma_run_entries(before, cur, rest, grown, seed, w, h, x0, x1, y);
    lemma_run_front(before, cur, stack, grown, seed, fill, w, h, x0, x1);
}

/// The number of pixels of the colour `base` that come before column `x`
/// of row `y`, in a raster `w` wide.
pub open spec fn count_before(layer: Map<(int, int), Color>, base: Color, w: int, x: int, y: int) -> nat
    decreases y, x,
{
    if 0 < x <= w {
        count_before(layer, base, w, x - 1, y) + if layer[(x - 1, y)] == base {
            1nat
        } else {
            0nat
        }
    } else if 0 < y && 0 <= w {
        count_before(layer, base, w, w, y - 1)
    } else {
        0
    }
}

/// Repainting pixels of the colour `base` in another colour does not
/// raise their number, and lowers it where a pixel was repainted.
proof fn lemma_count_shrinks(
    cur: Map<(int, int), Color>,
    next: Map<(int, int), Color>,
    base: Color,
    w: int,
    x: int,
    y: int,
    hit: (int, int),
)
    requires
        0 <= x <= w,
        0 <= y,
        forall|p: (int, int)|
            0 <= p.0 < w && 0 <= p.1 && (p.1 < y || (p.1 == y && p.0 < x)) && #[trigger] next[p] == base
                ==> cur[p] == base,
        cur[hit] == base,
        next[hit] != base,
        0 <= hit.0 < w,
        0 <= hit.1,
    ensures
        count_before(next, base, w, x, y) <= count_before(cur, base, w, x, y),
        hit.1 < y || (hit.1 == y && hit.0 < x) ==> count_before(next, base, w, x, y) < count_before(
            cur,
            base,
            w,
            x,
            y,
        ),
    decreases y, x,
{
    if x > 0 {
        lemma_count_shrinks(cur, next, base, w, x - 1, y, hit);
        if hit.1 == y && hit.0 == x - 1 {
            assert(hit == (x - 1, y));
        }
    } else if y > 0 {
        lemma_count_shrinks(cur, next, base, w, w, y - 1, hit);
    }
}

/// A raster holds no more pixels of a colour than it holds pixels.
proof fn lemma_count_bound(layer: Map<(int, int), Color>, base: Color, w: int, x: int, y: int)
    requires
        0 <= x <= w,
        0 <= y,
    ensures
        count_before(layer, base, w, x, y) <= y * w + x,
    decreases y, x,
{
    if x > 0 {
        lemma_count_bound(layer, base, w, x - 1, y);
    } else if y > 0 {
        lemma_count_bound(layer, base, w, w, y - 1);
        assert((y - 1) * w + w == y * w) by (nonlinear_arith);
    } else {
        assert(0 * w == 0) by (nonlinear_arith);
    }
}

/// Painting a stretch of pixels of the colour `base` in another colour
/// lowers the number of pixels of that colour by the length of the
/// stretch at least.
proof fn lemma_count_run(
    cur: Map<(int, int), Color>,
    base: Color,
    fill: Color,
    w: int,
    h: int,
    x0: int,
    x1: int,
    y: int,
    k: int,
)
    requires
        0 <= x0,
        x0 - 1 <= k <= x1,
        x1 < w,
        0 <= y < h,
        base != fill,
        forall|p: (int, int)| in_raster(w, h, p) ==> #[trigger] cur.dom().contains(p),
        forall|x: int| x0 <= x <= x1 ==> #[trigger] cur[(x, y)] == base,
    ensures
        count_before(run_painted(cur, x0, k, y, fill), base, w, 0, h) + (k - x0 + 1) <= count_before(
            cur,
            base,
            w,
            0,
            h,
        ),
    decreases k - x0 + 1,
{
    let painted = run_painted(cur, x0, k, y, fill);
    if k < x0 {
        // nothing is painted: each pixel of the raster is as it was
        assert forall|p: (int, int)|
            0 <= p.0 < w && 0 <= p.1 && (p.1 < h || (p.1 == h && p.0 < 0)) && #[trigger] painted[p]
                == base implies cur[p] == base by {
            assert(in_raster(w, h, p));
            assert(cur.dom().contains(p));
        }
        lemma_count_shrinks_or_same(cur, painted, base, w, 0, h);
    } else {
        let less = run_painted(cur, x0, k - 1, y, fill);
        lemma_count_run(cur, base, fill, w, h, x0, x1, y, k - 1);
        assert(cur.dom().contains((k, y)));
        assert(cur[(k, y)] == base);
        assert forall|p: (int, int)|
            0 <= p.0 < w && 0 <= p.1 && (p.1 < h || (p.1 == h && p.0 < 0)) && #[trigger] painted[p]
                == base implies less[p] == base by {
            assert(in_raster(w, h, p));
            assert(cur.dom().contains(p));
        }
        assert(less[(k, y)] == base);
        assert(painted[(k, y)] == fill);
        lemma_count_shrinks(less, painted, base, w, 0, h, (k, y));
    }
}

/// Where every pixel of the colour `base` in one raster has that colour
/// in another, the other holds as many such pixels at least.
proof fn lemma_count_shrinks_or_same(
    cur: Map<(int, int), Color>,
    next: Map<(int, int), Color>,
    base: Color,
    w: int,
    x: int,
    y: int,
)
    requires
        0 <= x <= w,
        0 <= y,
        forall|p: (int, int)|
            0 <= p.0 < w && 0 <= p.1 && (p.1 < y || (p.1 == y && p.0 < x)) && #[trigger] next[p] == base
                ==> cur[p] == base,
    ensures
        count_before(next, base, w, x, y) <= count_before(cur, base, w, x, y),
    decreases y, x,
{
    if x > 0 {
        lemma_count_shrinks_or_same(cur, next, base, w, x - 1, y);
    } else if y > 0 {
        lemma_count_shrinks_or_same(cur, next, base, w, w, y - 1);
    }
}

/// The column where the stretch of the colour `base` around `(px, py)`
/// begins.
fn run_start(buf: &RgbaBuffer, px: u32, py: u32, base: Color) -> (x0: u32)
    requires
        buf.wf(),
        px < buf.spec_width(),
        py < buf.spec_height(),
    ensures
        x0 <= px,
        forall|x: int| x0 <= x < px ==> #[trigger] buf@[(x, py as int)] == base,
        x0 == 0 || buf@[(x0 - 1, py as int)] != base,
{
    let mut x0 = px;
    let mut more = true;
    while more && x0 > 0
        invariant
            buf.wf(),
            x0 <= px < buf.spec_width(),
            py < buf.spec_height(),
            forall|x: int| x0 <= x < px ==> #[trigger] buf@[(x, py as int)] == base,
            !more ==> x0 == 0 || buf@[(x0 - 1, py as int)] != base,
        decreases x0 + (if more { 1int } else { 0int }),
    {
        let left = buf.get(x0 - 1, py);
        if left != base {
            more = false;
        } else {
            x0 = x0 - 1;
        }
    }
    x0
}

/// The column where the stretch of the colour `base` around `(px, py)`
/// ends.
fn run_end(buf: &RgbaBuffer, px: u32, py: u32, base: Color) -> (x1: u32)
    requires
        buf.wf(),
        px < buf.spec_width(),
        py < buf.spec_height(),
    ensures
        px <= x1 < buf.spec_width(),
        forall|x: int| px < x <= x1 ==> #[trigger] buf@[(x, py as int)] == base,
        x1 == buf.spec_width() - 1 || buf@[(x1 + 1, py as int)] != base,
{
    let width = buf.width();
    let mut x1 = px;
    let mut more = true;
    while more && x1 < width - 1
        invariant
            buf.wf(),
            width == buf.spec_width(),
            px <= x1 < width,
            py < buf.spec_height(),
            forall|x: int| px < x <= x1 ==> #[trigger] buf@[(x, py as int)] == base,
            !more ==> x1 == width - 1 || buf@[(x1 + 1, py as int)] != base,
        decreases width - x1 + (if more { 1int } else { 0int }),
    {
        let right = buf.get(x1 + 1, py);
        if right != base {
            more = false;
        } else {
            x1 = x1 + 1;
        }
    }
    x1
}

/// Paints the stretch from `x0` to `x1` of row `y`.
fn paint_run(buf: &mut RgbaBuffer, x0: u32, x1: u32, y: u32, c: Color)
    requires
        old(buf).wf(),
        x0 <= x1 < old(buf).spec_width(),
        y < old(buf).spec_height(),
    ensures
        final(buf).wf(),
        final(buf).spec_width() == old(buf).spec_width(),
        final(buf).spec_height() == old(buf).spec_height(),
        final(buf)@ == run_painted(old(buf)@, x0 as int, x1 as int, y as int, c),
{
    let mut x: u32 = x0;
    while x <= x1
        invariant
            old(buf).wf(),
            buf.wf(),
            buf.spec_width() == old(buf).spec_width(),
            buf.spec_height() == old(buf).spec_height(),
            x0 <= x <= x1 + 1,
            x1 < buf.spec_width(),
            y < buf.spec_height(),
            forall|p: (int, int)|
                buf@.dom().contains(p) ==> #[trigger] buf@[p] == if p.1 == y && x0 <= p.0 < x {
                    c
                } else {
                    old(buf)@[p]
                },
        decreases x1 + 1 - x,
    {
        let ghost mid = buf@;
        buf.put(x, y, c);
        assert(buf@.dom() =~= mid.dom());
        x = x + 1;
    }
    assert(buf@ =~= run_painted(old(buf)@, x0 as int, x1 as int, y as int, c));
}

/// The entries for the columns from `x0` to `x1` of one row.
pub open spec fn row_entries(x0: int, x1: int, row: u32) -> Seq<(u32, u32)> {
    Seq::new((x1 - x0 + 1) as nat, |k: int| ((x0 + k) as u32, row))
}

/// Puts the columns from `x0` to `x1` of one row on the work list.
fn push_row(stack: &mut Vec<(u32, u32)>, x0: u32, x1: u32, row: u32)
    requires
        x0 <= x1 < u32::MAX,
    ensures
        final(stack)@ == old(stack)@ + row_entries(x0 as int, x1 as int, row),
{
    let mut x: u32 = x0;
    while x <= x1
        invariant
            x0 <= x <= x1 + 1,
            x1 < u32::MAX,
            stack@.len() == old(stack)@.len() + (x - x0),
            forall|k: int| 0 <= k < old(stack)@.len() ==> #[trigger] stack@[k] == old(stack)@[k],
            forall|k: int|
                old(stack)@.len() <= k < stack@.len() ==> #[trigger] stack@[k] == (
                    (x0 + (k - old(stack)@.len())) as u32,
                    row,
                ),
        decreases x1 + 1 - x,
    {
        stack.push((x, row));
        x = x + 1;
    }
    assert(stack@ =~= old(stack)@ + row_entries(x0 as int, x1 as int, row));
}

/// The list that [`push_row`] leaves, once or twice over, is a grown
/// work list.
proof fn lemma_stack_grown(
    rest: Seq<(u32, u32)>,
    grown: Seq<(u32, u32)>,
    x0: int,
    x1: int,
    y: int,
    h: int,
)
    requires
        0 <= x0 <= x1 <= u32::MAX,
        0 <= y < h <= u32::MAX,
        grown == rest + (if y + 1 < h {
            row_entries(x0, x1, (y + 1) as u32)
        } else {
            Seq::empty()
        }) + (if y > 0 {
            row_entries(x0, x1, (y - 1) as u32)
        } else {
            Seq::empty()
        }),
    ensures
        stack_grown(rest, grown, x0, x1, y, h),
{
    let n = x1 - x0 + 1;
    let below: Seq<(u32, u32)> = if y + 1 < h {
        row_entries(x0, x1, (y + 1) as u32)
    } else {
        Seq::empty()
    };
    let above: Seq<(u32, u32)> = if y > 0 {
        row_entries(x0, x1, (y - 1) as u32)
    } else {
        Seq::empty()
    };
    assert forall|k: int| rest.len() <= k < grown.len() implies x0 <= (#[trigger] grown[k]).0 <= x1 && 0
        <= grown[k].1 < h && (grown[k].1 == y + 1 || grown[k].1 == y - 1) by {
        if k < rest.len() + below.len() {
            assert(grown[k] == below[k - rest.len()]);
        } else {
            assert(grown[k] == above[k - rest.len() - below.len()]);
        }
    }
    assert forall|x: int| x0 <= x <= x1 && y + 1 < h implies #[trigger] on_stack(grown, (x, y + 1)) by {
        let k = rest.len() + (x - x0);
        assert(grown[k] == below[x - x0]);
    }
    assert forall|x: int| x0 <= x <= x1 && y > 0 implies #[trigger] on_stack(grown, (x, y - 1)) by {
        let k = rest.len() + below.len() + (x - x0);
        assert(grown[k] == above[x - x0]);
    }
}

/// Repaints the region of the seed `(sx, sy)` with `fill`.  Returns
/// whether the fill ran to its end; it gives up when its work list grows
/// beyond [`MAX_STACK_SIZE`], which takes a raster of more than half as
/// many pixels.
pub fn flood(buf: &mut RgbaBuffer, sx: u32, sy: u32, fill: Color) -> (completed: bool)
    requires
        old(buf).wf(),
        sx < old(buf).spec_width(),
        sy < old(buf).spec_height(),
        old(buf)@[(sx as int, sy as int)] != fill,
    ensures
        final(buf).wf(),
        final(buf).spec_width() == old(buf).spec_width(),
        final(buf).spec_height() == old(buf).spec_height(),
        flood_partial(old(buf)@, final(buf)@, (sx as int, sy as int), fill),
        completed ==> final(buf)@ == flooded(old(buf)@, (sx as int, sy as int), fill),
        2 * old(buf).spec_width() * old(buf).spec_height() <= MAX_STACK_SIZE ==> completed,
{
    let (width, height) = buf.size();
    let base = buf.get(sx, sy);
    let ghost before = buf@;
    let ghost seed = (sx as int, sy as int);
    let ghost w = width as int;
    let ghost h = height as int;
    let mut stack: Vec<(u32, u32)> = Vec::new();
    stack.push((sx, sy));
    proof {
        lemma_connected_seed(before, seed);
        assert(stack@[0] == (sx, sy));
        assert(on_stack(stack@, seed));
    }
    while stack.len() > 0
        invariant
            stack@.len() + 2 * count_before(buf@, base, w, 0, h) <= 2 * count_before(before, base, w, 0, h) + 1,
            old(buf).wf(),
            buf.wf(),
            buf.spec_width() == old(buf).spec_width() == width,
            buf.spec_height() == old(buf).spec_height() == height,
            before == old(buf)@,
            seed == (sx as int, sy as int),
            w == width,
            h == height,
            base == before[seed],
            flood_inv(before, buf@, stack@, seed, fill, w, h),
        decreases count_before(buf@, base, w, 0, h), stack@.len(),
    {
        let ghost full = stack@;
        let (px, py) = stack.pop().unwrap();
        assert(stack@ == full.drop_last());
        assert(full.last() == (px, py));
        assert(in_raster(w, h, at(full[full.len() - 1])));
        if stack.len() > MAX_STACK_SIZE {
            proof {
                lemma_flood_sound(before, buf@, full, seed, fill, w, h);
                lemma_count_bound(before, base, w, 0, h);
                assert(2 * (h * w) == 2 * w * h) by (nonlinear_arith);
            }
            return false;
        }
        let current = buf.get(px, py);
        if current != base {
            proof {
                lemma_flood_skip(before, buf@, full, seed, fill, w, h);
            }
            continue;
        }
        let x0 = run_start(buf, px, py, base);
        let x1 = run_end(buf, px, py, base);
        let ghost cur = buf@;
        paint_run(buf, x0, x1, py, fill);
        let ghost rest = stack@;
        if py + 1 < height {
            push_row(&mut stack, x0, x1, py + 1);
        }
        if py > 0 {
            push_row(&mut stack, x0, x1, py - 1);
        }
        proof {
            lemma_stack_grown(rest, stack@, x0 as int, x1 as int, py as int, h);
            assert forall|x: int| x0 <= x <= x1 implies #[trigger] cur[(x, py as int)] == base by {
                if x == px {
                    assert(cur[(px as int, py as int)] == base);
                }
            }
            lemma_flood_run(before, cur, full, stack@, seed, fill, w, h, x0 as int, x1 as int);
            assert forall|p: (int, int)| in_raster(w, h, p) implies #[trigger] cur.dom().contains(p) by {}
            lemma_count_run(cur, base, fill, w, h, x0 as int, x1 as int, py as int, x1 as int);
            assert(stack@.len() <= rest.len() + 2 * (x1 - x0 + 1));
            assert(cur[(px as int, py as int)] == base);
            assert(buf@[(px as int, py as int)] == fill);
            assert forall|p: (int, int)|
                0 <= p.0 < w && 0 <= p.1 < h && #[trigger] buf@[p] == base implies cur[p] == base by {
                assert(cur.dom().contains(p));
            }
            lemma_count_shrinks(cur, buf@, base, w, 0, h, (px as int, py as int));
        }
    }
    proof {
        assert(stack@ =~= Seq::<(u32, u32)>::empty());
        lemma_flood_complete(before, buf@, seed, fill, w, h);
        lemma_flood_sound(before, buf@, stack@, seed, fill, w, h);
    }
    true
}

impl Renderer {
    /// Flood fill from the seed `(x, y)` with the packed colour
    /// `fill_color`.  Nothing is done where the layer or the seed does not
    /// exist, where the seed is transparent, and where it has the fill
    /// colour already.  Returns whether the fill ran to its end, which it
    /// does on every canvas of up to half a million pixels.
    pub fn do_flood_fill(&mut self, layer: usize, x: i32, y: i32, fill_color: u32) -> (completed: bool)
        requires
            old(self).wf(),
        ensures
            final(self).wf(),
            final(self).same_setup(old(self)),
            completed ==> final(self)@ == flood_done(old(self)@, layer as int, x as int, y as int, fill_color),
            !flood_applies(old(self)@, layer as int, x as int, y as int, fill_color) ==> completed,
            2 * old(self).canvas.width * old(self).canvas.height <= MAX_STACK_SIZE ==> completed,
            !completed ==> final(self)@ == old(self)@.with_layer(layer as int, final(self)@.layer(layer as int))
                && flood_partial(
                old(self)@.layer(layer as int),
                final(self)@.layer(layer as int),
                (x as int, y as int),
                unpack(fill_color),
            ),
    {
        if layer >= 2 || x < 0 || y < 0 {
            return true;
        }
        let sx = x as u32;
        let sy = y as u32;
        if sx >= self.canvas.width || sy >= self.canvas.height {
            return true;
        }
        let base = self.canvas.layers[layer].get(sx, sy);
        if base.a == 0 || pixel_to_u32(&base) == fill_color {
            return true;
        }
        let fill = pixel_from_u32(fill_color);
        proof {
            lemma_pack_unpack(base, fill_color);
        }
        flood(&mut self.canvas.layers[layer], sx, sy, fill)
    }
}

} // verus!

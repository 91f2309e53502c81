use neo_replay::clip::{pixel_from_u32, pixel_to_u32};
use neo_replay::dispatch::ReplayError;
use neo_replay::float::F64;
use neo_replay::renderer::{Canvas, Renderer};
use neo_replay::text::{get_simple_font_data, GlyphSample};
use neo_replay::{ActionValue, AlphaType, Color, FillType, LineType, MaskType, PchFile, PchHeader};

fn d(x: f64) -> F64 {
    F64 { bits: x.to_bits() }
}

fn n(x: f64) -> ActionValue {
    ActionValue::Number(d(x))
}

fn s(t: &str) -> ActionValue {
    ActionValue::String(t.to_string())
}

fn nums(op: &str, rest: &[f64]) -> Vec<ActionValue> {
    let mut a = vec![s(op)];
    a.extend(rest.iter().map(|&x| n(x)));
    a
}

fn file(width: u16, height: u16, actions: Vec<Vec<ActionValue>>) -> PchFile {
    PchFile {
        header: PchHeader { magic: *b"NEO ", width, height, reserved: [0; 4] },
        actions,
    }
}

const CLEAR: Color = Color { r: 0, g: 0, b: 0, a: 0 };
const BLACK: Color = Color { r: 0, g: 0, b: 0, a: 255 };
const RED: Color = Color { r: 255, g: 0, b: 0, a: 255 };
const WHITE: Color = Color { r: 255, g: 255, b: 255, a: 255 };

fn px(r: &Renderer, layer: usize, x: u32, y: u32) -> Color {
    r.canvas.layers[layer].pixel(x, y).unwrap()
}

fn layer(r: &Renderer, l: usize) -> Vec<Color> {
    let mut v = Vec::new();
    for y in 0..r.canvas.height {
        for x in 0..r.canvas.width {
            v.push(px(r, l, x, y));
        }
    }
    v
}

fn lit(r: &Renderer, l: usize) -> Vec<(u32, u32)> {
    let mut v = Vec::new();
    for y in 0..r.canvas.height {
        for x in 0..r.canvas.width {
            if px(r, l, x, y) != CLEAR {
                v.push((x, y));
            }
        }
    }
    v
}

fn run(r: &mut Renderer, action: Vec<ActionValue>) {
    assert_eq!(r.execute_action(&action, None), Ok(()));
}

fn paint(r: &mut Renderer, l: usize, x: u32, y: u32, c: Color) {
    // a one-pixel box copied from a pasted word
    r.clipboard = Some(vec![pixel_to_u32(&c)]);
    r.do_paste(l, x, y, 1, 1, 0, 0);
}

fn bresenham(x0: i64, y0: i64, x1: i64, y1: i64) -> Vec<(i64, i64)> {
    let (mut x, mut y) = (x0, y0);
    let dx = (x1 - x0).abs();
    let dy = (y1 - y0).abs();
    let sx = if x0 < x1 { 1 } else { -1 };
    let sy = if y0 < y1 { 1 } else { -1 };
    let mut err = dx - dy;
    let mut out = Vec::new();
    loop {
        out.push((x, y));
        if x == x1 && y == y1 {
            break;
        }
        let e2 = 2 * err;
        if e2 > -dy {
            err -= dy;
            x += sx;
        }
        if e2 < dx {
            err += dx;
            y += sy;
        }
    }
    out
}

#[test]
fn new_canvas_is_blank() {
    let c = Canvas::new(5, 3);
    assert_eq!((c.width, c.height, c.current_layer), (5, 3, 0));
    assert_eq!(c.visible, [true, true]);
    for l in 0..2 {
        assert_eq!(c.layers[l].width(), 5);
        assert_eq!(c.layers[l].height(), 3);
        for y in 0..3 {
            for x in 0..5 {
                assert_eq!(c.layers[l].pixel(x, y), Some(CLEAR));
            }
        }
        assert_eq!(c.layers[l].pixel(5, 0), None);
        assert_eq!(c.layers[l].pixel(0, 3), None);
    }
    assert!(c.get_layer(0).is_some());
    assert!(c.get_layer(1).is_some());
    assert!(c.get_layer(2).is_none());
    assert!(c.get_layer_as_rgb(2).is_none());
}

#[test]
fn new_renderer_has_the_default_state() {
    let r = Renderer::new(4, 4);
    assert_eq!(r.state.current_color, BLACK);
    assert_eq!(r.state.current_mask, CLEAR);
    assert_eq!(r.state.current_width.bits, 1.0f64.to_bits());
    assert_eq!(r.state.current_mask_type, MaskType::NoMask);
    assert_eq!(r.state.aerr.bits, 0);
    assert!(r.clipboard.is_none());
    assert_eq!(r.round_data.len(), 31);
    assert_eq!(r.tone_data.len(), 16);
}

#[test]
fn codes_name_tools_masks_and_shapes() {
    let tools = [
        LineType::NoLine,
        LineType::Pen,
        LineType::Eraser,
        LineType::Brush,
        LineType::Tone,
        LineType::Dodge,
        LineType::Burn,
        LineType::Blur,
    ];
    for (code, tool) in tools.iter().enumerate() {
        assert_eq!(LineType::from(code as i64), *tool);
    }
    assert_eq!(LineType::from(8), LineType::NoLine);
    assert_eq!(LineType::from(-1), LineType::NoLine);
    let masks = [MaskType::NoMask, MaskType::Normal, MaskType::Reverse, MaskType::Add, MaskType::Sub];
    for (code, mask) in masks.iter().enumerate() {
        assert_eq!(MaskType::from(code as i64), *mask);
    }
    assert_eq!(MaskType::from(5), MaskType::NoMask);
    assert_eq!(FillType::from_code(20), Some(FillType::Rect));
    assert_eq!(FillType::from_code(21), Some(FillType::RectFill));
    assert_eq!(FillType::from_code(22), Some(FillType::Ellipse));
    assert_eq!(FillType::from_code(23), Some(FillType::EllipseFill));
    assert_eq!(FillType::from_code(19), None);
    assert_eq!(FillType::from_code(24), None);
}

#[test]
fn packed_pixels_round_trip() {
    let c = Color { r: 0x12, g: 0x34, b: 0x56, a: 0x78 };
    assert_eq!(pixel_to_u32(&c), 0x7856_3412);
    assert_eq!(pixel_from_u32(0x7856_3412), c);
    assert_eq!(pixel_to_u32(&RED), 0xFF00_00FF);
    for v in [0u32, 1, 0xFF, 0xFF00, 0xFF_0000, 0xFF00_0000, u32::MAX, 0xDEAD_BEEF] {
        assert_eq!(pixel_to_u32(&pixel_from_u32(v)), v);
    }
}

#[test]
fn free_hand_pen_draws_two_black_pixels() {
    let mut r = Renderer::new(8, 8);
    run(
        &mut r,
        nums("freeHand", &[0., 0., 0., 0., 255., 0., 0., 0., 1., 0., 1., 3., 3., 4., 4.]),
    );
    assert_eq!(lit(&r, 0), vec![(3, 3), (4, 4)]);
    assert_eq!(px(&r, 0, 3, 3), BLACK);
    assert_eq!(px(&r, 0, 4, 4), BLACK);
    assert!(lit(&r, 1).is_empty());
}

#[test]
fn solid_fill_paints_the_canvas_red() {
    let mut r = Renderer::new(8, 8);
    run(
        &mut r,
        nums("fill", &[0., 255., 0., 0., 255., 0., 0., 0., 2., 0., 0., 0., 8., 8., 21.]),
    );
    assert!(layer(&r, 0).iter().all(|&c| c == RED));
    assert!(lit(&r, 1).is_empty());
    assert_eq!(r.state.current_color, RED);
    assert_eq!(r.state.current_width.bits, 2.0f64.to_bits());
}

#[test]
fn flood_fill_repaints_a_white_canvas() {
    let mut r = Renderer::new(8, 8);
    run(
        &mut r,
        nums("fill", &[0., 255., 255., 255., 255., 0., 0., 0., 1., 0., 0., 0., 8., 8., 21.]),
    );
    assert!(layer(&r, 0).iter().all(|&c| c == WHITE));
    run(&mut r, nums("floodFill", &[0., 0., 0., 0xFF00_00FFu32 as f64]));
    assert!(layer(&r, 0).iter().all(|c| pixel_to_u32(c) == 0xFF00_00FF));
}

#[test]
fn erase_all_clears_one_layer() {
    let mut r = Renderer::new(8, 8);
    run(
        &mut r,
        nums("fill", &[0., 255., 0., 0., 255., 0., 0., 0., 1., 0., 1., 1., 3., 3., 21.]),
    );
    run(
        &mut r,
        nums("fill", &[1., 0., 0., 255., 255., 0., 0., 0., 1., 0., 2., 2., 4., 4., 21.]),
    );
    let upper = layer(&r, 1);
    assert!(!lit(&r, 0).is_empty());
    run(&mut r, nums("eraseAll", &[0.]));
    assert!(lit(&r, 0).is_empty());
    assert_eq!(layer(&r, 1), upper);
    run(&mut r, nums("eraseAll", &[7.]));
    assert_eq!(layer(&r, 1), upper);
    run(&mut r, vec![s("eraseAll"), ActionValue::Integer(1)]);
    assert_eq!(layer(&r, 1), upper);
    run(&mut r, nums("eraseAll", &[1.]));
    assert!(lit(&r, 1).is_empty());
}

#[test]
fn copy_and_paste_move_a_block() {
    let mut r = Renderer::new(8, 8);
    for y in 0..8 {
        for x in 0..8 {
            paint(&mut r, 0, x, y, Color { r: x as u8, g: y as u8, b: 7, a: 200 });
        }
    }
    let before = layer(&r, 0);
    run(&mut r, nums("copy", &[0., 2., 2., 3., 3.]));
    assert_eq!(r.clipboard.as_ref().map(|c| c.len()), Some(9));
    assert_eq!(layer(&r, 0), before);
    run(&mut r, nums("paste", &[0., 2., 2., 3., 3., 2., 0.]));
    assert!(r.clipboard.is_none());
    for y in 0..8u32 {
        for x in 0..8u32 {
            let want = if (4..7).contains(&x) && (2..5).contains(&y) {
                Color { r: (x - 2) as u8, g: y as u8, b: 7, a: 200 }
            } else {
                Color { r: x as u8, g: y as u8, b: 7, a: 200 }
            };
            assert_eq!(px(&r, 0, x, y), want, "{} {}", x, y);
        }
    }
}

#[test]
fn copy_then_paste_in_place_changes_nothing() {
    let mut r = Renderer::new(6, 5);
    for y in 0..5 {
        for x in 0..6 {
            paint(&mut r, 1, x, y, Color { r: (x * 40) as u8, g: (y * 50) as u8, b: 3, a: (x + y) as u8 });
        }
    }
    let before = layer(&r, 1);
    for &(x, y, w, h) in &[(0u32, 0u32, 6u32, 5u32), (1, 1, 3, 2), (4, 3, 10, 10), (5, 4, 1, 1)] {
        r.do_copy(1, x, y, w, h);
        assert!(r.clipboard.is_some());
        r.do_paste(1, x, y, w, h, 0, 0);
        assert!(r.clipboard.is_none());
        assert_eq!(layer(&r, 1), before);
    }
}

#[test]
fn copy_outside_the_canvas_leaves_the_clipboard_empty() {
    let mut r = Renderer::new(4, 4);
    r.do_copy(0, 1, 1, 2, 2);
    assert!(r.clipboard.is_some());
    r.do_copy(0, 4, 0, 2, 2);
    assert!(r.clipboard.is_none());
    r.do_copy(0, 1, 1, 2, 2);
    r.do_copy(0, 1, 1, 0, 2);
    assert!(r.clipboard.is_none());
    r.do_copy(0, 1, 1, 2, 2);
    r.do_copy(2, 1, 1, 2, 2);
    assert!(r.clipboard.is_some());
}

#[test]
fn copy_takes_the_part_on_the_canvas() {
    let mut r = Renderer::new(4, 4);
    paint(&mut r, 0, 3, 3, RED);
    paint(&mut r, 0, 2, 3, BLACK);
    r.do_copy(0, 2, 2, 5, 5);
    assert_eq!(
        r.clipboard,
        Some(vec![0, 0, pixel_to_u32(&BLACK), pixel_to_u32(&RED)])
    );
}

#[test]
fn paste_twice_is_paste_once() {
    let mut r = Renderer::new(4, 4);
    paint(&mut r, 0, 0, 0, RED);
    r.do_copy(0, 0, 0, 2, 2);
    r.do_paste(0, 0, 0, 2, 2, 2, 2);
    assert!(r.clipboard.is_none());
    let once = layer(&r, 0);
    assert_eq!(px(&r, 0, 2, 2), RED);
    r.do_paste(0, 0, 0, 2, 2, 1, 0);
    assert!(r.clipboard.is_none());
    assert_eq!(layer(&r, 0), once);
}

#[test]
fn paste_off_the_canvas_only_empties_the_clipboard() {
    let mut r = Renderer::new(4, 4);
    paint(&mut r, 0, 1, 1, RED);
    let before = layer(&r, 0);
    r.do_copy(0, 0, 0, 2, 2);
    r.do_paste(0, 0, 0, 2, 2, -1, 0);
    assert!(r.clipboard.is_none());
    assert_eq!(layer(&r, 0), before);
    r.do_copy(0, 0, 0, 2, 2);
    r.do_paste(0, 0, 0, 2, 2, 4, 0);
    assert!(r.clipboard.is_none());
    assert_eq!(layer(&r, 0), before);
    r.do_copy(0, 0, 0, 2, 2);
    r.do_paste(3, 0, 0, 2, 2, 0, 0);
    assert!(r.clipboard.is_none());
    assert_eq!(layer(&r, 0), before);
}

#[test]
fn merge_puts_the_upper_layer_over_the_lower() {
    let mut r = Renderer::new(4, 4);
    let half = Color { r: 255, g: 255, b: 255, a: 128 };
    for y in 0..4 {
        for x in 0..4 {
            paint(&mut r, 0, x, y, BLACK);
            paint(&mut r, 1, x, y, half);
        }
    }
    r.do_merge(0, 1, 1, 2, 2);
    for y in 0..4u32 {
        for x in 0..4u32 {
            let inside = (1..3).contains(&x) && (1..3).contains(&y);
            let (want0, want1) = if inside {
                (Color { r: 128, g: 128, b: 128, a: 255 }, CLEAR)
            } else {
                (BLACK, half)
            };
            assert_eq!(px(&r, 0, x, y), want0);
            assert_eq!(px(&r, 1, x, y), want1);
        }
    }
    // into the upper layer: the same blend, the lower layer left clear
    r.do_merge(1, 0, 0, 1, 1);
    assert_eq!(px(&r, 1, 0, 0), Color { r: 128, g: 128, b: 128, a: 255 });
    assert_eq!(px(&r, 0, 0, 0), CLEAR);
    let (l0, l1) = (layer(&r, 0), layer(&r, 1));
    r.do_merge(2, 0, 0, 4, 4);
    r.do_merge(0, 4, 4, 2, 2);
    r.do_merge(0, 1, 1, 0, 5);
    assert_eq!((layer(&r, 0), layer(&r, 1)), (l0, l1));
}

#[test]
fn flood_fill_stays_inside_its_region() {
    let mut r = Renderer::new(7, 5);
    let rows = [
        "WWWBWWW", //
        "WBWBWBW", //
        "WBBBWBW", //
        "WWWBWBW", //
        "BBBBBBW", //
    ];
    for (y, row) in rows.iter().enumerate() {
        for (x, c) in row.chars().enumerate() {
            paint(&mut r, 0, x as u32, y as u32, if c == 'W' { WHITE } else { BLACK });
        }
    }
    assert!(r.do_flood_fill(0, 0, 0, pixel_to_u32(&RED)));
    let want = [
        "RRRBWWW", //
        "RBRBWBW", //
        "RBBBWBW", //
        "RRRBWBW", //
        "BBBBBBW", //
    ];
    for (y, row) in want.iter().enumerate() {
        for (x, c) in row.chars().enumerate() {
            let w = match c {
                'R' => RED,
                'W' => WHITE,
                _ => BLACK,
            };
            assert_eq!(px(&r, 0, x as u32, y as u32), w, "{} {}", x, y);
        }
    }
}

#[test]
fn flood_fill_does_nothing_where_it_has_nothing_to_do() {
    let mut r = Renderer::new(4, 4);
    paint(&mut r, 0, 1, 1, RED);
    paint(&mut r, 0, 2, 1, Color { r: 9, g: 9, b: 9, a: 0 });
    let before = layer(&r, 0);
    // the seed has the fill colour already
    assert!(r.do_flood_fill(0, 1, 1, pixel_to_u32(&RED)));
    assert_eq!(layer(&r, 0), before);
    // the seed is transparent
    assert!(r.do_flood_fill(0, 0, 0, pixel_to_u32(&RED)));
    assert!(r.do_flood_fill(0, 2, 1, pixel_to_u32(&RED)));
    assert_eq!(layer(&r, 0), before);
    // the seed or the layer does not exist
    assert!(r.do_flood_fill(0, -1, 0, 5));
    assert!(r.do_flood_fill(0, 0, 4, 5));
    assert!(r.do_flood_fill(2, 1, 1, 5));
    assert_eq!(layer(&r, 0), before);
    // another colour repaints the one pixel
    assert!(r.do_flood_fill(0, 1, 1, pixel_to_u32(&BLACK)));
    assert_eq!(px(&r, 0, 1, 1), BLACK);
    assert_eq!(lit(&r, 0).len(), 2);
}

#[test]
fn width_one_stroke_draws_one_pixel_for_each_step() {
    for &(x0, y0, x1, y1) in &[(1i64, 1i64, 9i64, 4i64), (9, 9, 0, 2), (3, 0, 3, 9), (0, 5, 9, 5), (4, 4, 4, 4)] {
        let mut r = Renderer::new(10, 10);
        r.draw_line_segment(0, x0 as u32, y0 as u32, x1 as u32, y1 as u32, &LineType::Pen);
        let mut want: Vec<(u32, u32)> = bresenham(x0, y0, x1, y1)
            .into_iter()
            .map(|(x, y)| (x as u32, y as u32))
            .collect();
        let steps = want.len();
        want.sort_by_key(|&(x, y)| (y, x));
        want.dedup();
        assert_eq!(want.len(), steps);
        assert_eq!(lit(&r, 0), want);
        assert!(layer(&r, 0).iter().all(|&c| c == CLEAR || c == BLACK));
    }
}

#[test]
fn strokes_are_clipped_to_the_canvas() {
    let mut r = Renderer::new(6, 6);
    r.state.current_width = d(5.0);
    r.draw_line_segment(1, 0, 0, 20, 3, &LineType::Pen);
    let mut want = Vec::new();
    let mask = &r.round_data[5];
    for (x, y) in bresenham(0, 0, 20, 3) {
        if x < 0 || y < 0 || x >= 6 || y >= 6 {
            continue;
        }
        for i in 0..5i64 {
            for j in 0..5i64 {
                let (px, py) = (x - 2 + j, y - 2 + i);
                if mask[(i * 5 + j) as usize] == 1 && px >= 0 && py >= 0 && px < 6 && py < 6 {
                    want.push((px as u32, py as u32));
                }
            }
        }
    }
    want.sort_by_key(|&(x, y)| (y, x));
    want.dedup();
    assert_eq!(lit(&r, 1), want);
    assert!(lit(&r, 0).is_empty());
}

#[test]
fn a_line_to_the_upper_half_of_the_range_runs_left() {
    let mut r = Renderer::new(4, 2);
    r.draw_line_segment(0, 2, 1, 0xFFFF_FFFD, 1, &LineType::Pen);
    assert_eq!(lit(&r, 0), vec![(0, 1), (1, 1), (2, 1)]);
}

#[test]
fn brush_diameter_is_the_rounded_width() {
    let mut r = Renderer::new(4, 4);
    for &(w, want) in &[
        (1.0, 1usize),
        (1.4, 1),
        (1.5, 2),
        (2.49, 2),
        (2.5, 3),
        (0.0, 1),
        (-3.0, 1),
        (30.0, 30),
        (30.4, 30),
        (31.0, 30),
        (1e9, 30),
        (f64::NAN, 1),
    ] {
        r.state.current_width = d(w);
        assert_eq!(r.diameter(), want, "width {}", w);
    }
}

#[test]
fn eraser_clears_under_its_mask() {
    let mut r = Renderer::new(5, 5);
    for y in 0..5 {
        for x in 0..5 {
            paint(&mut r, 0, x, y, RED);
        }
    }
    r.state.current_width = d(3.0);
    r.set_eraser_point(0, 2, 2);
    let cleared: Vec<(u32, u32)> = vec![(2, 1), (1, 2), (2, 2), (3, 2), (2, 3)];
    for y in 0..5u32 {
        for x in 0..5u32 {
            let want = if cleared.contains(&(x, y)) { CLEAR } else { RED };
            assert_eq!(px(&r, 0, x, y), want);
        }
    }
}

#[test]
fn tone_follows_the_dither_pattern() {
    let base = [0u8, 8, 2, 10, 12, 4, 14, 6, 3, 11, 1, 9, 15, 7, 13, 5];
    for &alpha in &[0u8, 30, 100, 120, 200, 255] {
        let mut r = Renderer::new(12, 12);
        r.state.current_color = Color { r: 10, g: 20, b: 30, a: alpha };
        r.state.current_width = d(4.0);
        let table = [23u8, 47, 69, 92, 114, 114, 114, 138, 161, 184, 184, 207, 230, 230, 253];
        let level = table.iter().position(|&t| alpha < t).unwrap_or(15) as u8;
        let (cx, cy) = (5i64, 6i64);
        r.set_tone_point(0, cx as u32, cy as u32);
        let mask = r.round_data[4].clone();
        for y in 0..12i64 {
            for x in 0..12i64 {
                let (j, i) = (x - (cx - 2), y - (cy - 2));
                let in_mask = (0..4).contains(&i) && (0..4).contains(&j) && mask[(i * 4 + j) as usize] == 1;
                let cell = (((cy + i).rem_euclid(4)) * 4 + (cx + j).rem_euclid(4)) as usize;
                let want = if in_mask && level >= base[cell] {
                    Color { r: 10, g: 20, b: 30, a: 255 }
                } else {
                    CLEAR
                };
                assert_eq!(px(&r, 0, x as u32, y as u32), want, "alpha {} at {} {}", alpha, x, y);
            }
        }
        assert_eq!(r.state.aerr.bits, 0);
    }
}

#[test]
fn other_tools_draw_as_the_pen() {
    for tool in [LineType::NoLine, LineType::Dodge, LineType::Burn, LineType::Blur] {
        let mut a = Renderer::new(6, 6);
        let mut b = Renderer::new(6, 6);
        a.state.current_color = Color { r: 1, g: 2, b: 3, a: 140 };
        b.state.current_color = Color { r: 1, g: 2, b: 3, a: 140 };
        a.draw_point_with_origin(0, 2, 3, 0, 0, &tool);
        b.draw_point(0, 2, 3, &LineType::Pen);
        assert_eq!(layer(&a, 0), layer(&b, 0));
        assert_eq!(lit(&a, 0), vec![(2, 3)]);
    }
}

#[test]
fn thin_brush_strokes_wait_for_the_carry() {
    let mut r = Renderer::new(3, 3);
    r.state.current_color = Color { r: 0, g: 0, b: 0, a: 100 };
    let mut first = None;
    for step in 0..10 {
        r.set_brush_point(0, 1, 1);
        if px(&r, 0, 1, 1) != CLEAR && first.is_none() {
            first = Some(step);
        }
    }
    // the first stamps only feed the carry
    assert!(first.unwrap() >= 1);
    assert_eq!(px(&r, 0, 1, 1).r, 0);
    assert!(px(&r, 0, 1, 1).a >= 1);
    let aerr = f64::from_bits(r.state.aerr.bits);
    assert!(aerr >= 0.0 && aerr <= 1.0 / 255.0);
}

#[test]
fn get_alpha_keeps_the_carry() {
    let mut r = Renderer::new(2, 2);
    r.state.current_color = Color { r: 0, g: 0, b: 0, a: 60 };
    let mut aerr = 0.0f64;
    for _ in 0..50 {
        let a = 60.0 / 255.0;
        let raw = (-0.00056 * a + 0.0042 / (1.0 - a) - 0.0042f64).min(1.0).max(0.0);
        let mut want = raw;
        if want < 1.0 / 255.0 {
            aerr += want;
            want = 0.0;
            while aerr > 1.0 / 255.0 {
                want = 1.0 / 255.0;
                aerr -= 1.0 / 255.0;
            }
        }
        let got = r.get_alpha(AlphaType::Brush);
        assert_eq!(got.bits, want.to_bits());
        assert_eq!(r.state.aerr.bits, aerr.to_bits());
    }
}

#[test]
fn rectangle_outline_is_a_frame() {
    let mut r = Renderer::new(8, 8);
    run(
        &mut r,
        nums("fill", &[0., 0., 0., 0., 255., 0., 0., 0., 2., 0., 1., 1., 6., 6., 20.]),
    );
    for y in 0..8u32 {
        for x in 0..8u32 {
            let inside = (1..7).contains(&x) && (1..7).contains(&y);
            let hole = (3..5).contains(&x) && (3..5).contains(&y);
            let want = if inside && !hole { BLACK } else { CLEAR };
            assert_eq!(px(&r, 0, x, y), want, "{} {}", x, y);
        }
    }
}

fn ellipse(u: u32, v: u32, w: u32, h: u32) -> bool {
    let cx = (w - 1) as f64 / 2.0;
    let cy = (h - 1) as f64 / 2.0;
    let xn = (u as f64 - cx) / (cx + 1.0);
    let yn = (v as f64 - cy) / (cy + 1.0);
    xn * xn + yn * yn < 1.0
}

fn ring(d: f64, u: u32, v: u32, w: u32, h: u32) -> bool {
    let cx = (w - 1) as f64 / 2.0;
    let cy = (h - 1) as f64 / 2.0;
    if cx <= d || cy <= d {
        return ellipse(u, v, w, h);
    }
    let x2 = (u as f64 - cx) / (cx - d + 1.0);
    let y2 = (v as f64 - cy) / (cy - d + 1.0);
    ellipse(u, v, w, h) && x2 * x2 + y2 * y2 >= 1.0
}

#[test]
fn ellipses_match_their_formulas() {
    for &(w, h, width) in &[(9u32, 9u32, 2.0f64), (12, 7, 1.0), (5, 11, 1.5), (10, 10, 3.0), (1, 1, 1.0), (2, 9, 1.0)] {
        let mut solid = Renderer::new(12, 12);
        let mut outline = Renderer::new(12, 12);
        solid.state.current_width = d(width);
        outline.state.current_width = d(width);
        solid.do_fill(0, 0, 0, w, h, 23);
        outline.do_fill(0, 0, 0, w, h, 22);
        for v in 0..12u32 {
            for u in 0..12u32 {
                let inside = u < w && v < h;
                assert_eq!(px(&solid, 0, u, v) != CLEAR, inside && ellipse(u, v, w, h), "solid {} {}", u, v);
                assert_eq!(
                    px(&outline, 0, u, v) != CLEAR,
                    inside && ring(width, u, v, w, h),
                    "outline {} {} in {}x{}",
                    u,
                    v,
                    w,
                    h
                );
                if inside {
                    assert_eq!(solid.ellipse_fill_mask(u, v, w, h), ellipse(u, v, w, h));
                    assert_eq!(outline.ellipse_mask(u, v, w, h), ring(width, u, v, w, h));
                }
            }
        }
    }
}

#[test]
fn thick_ellipse_outline_is_the_solid_ellipse() {
    let mut solid = Renderer::new(9, 7);
    let mut outline = Renderer::new(9, 7);
    solid.state.current_width = d(3.0);
    outline.state.current_width = d(3.0);
    // the shorter half axis is (7 - 1) / 2 = 3
    solid.do_fill(0, 0, 0, 9, 7, 23);
    outline.do_fill(0, 0, 0, 9, 7, 22);
    assert_eq!(layer(&solid, 0), layer(&outline, 0));
    assert!(!lit(&solid, 0).is_empty());
}

#[test]
fn unknown_fill_shape_covers_nothing() {
    let mut r = Renderer::new(4, 4);
    r.do_fill(0, 0, 0, 4, 4, 19);
    assert!(lit(&r, 0).is_empty());
    r.do_fill(2, 0, 0, 4, 4, 21);
    assert!(lit(&r, 0).is_empty() && lit(&r, 1).is_empty());
    assert!(!r.apply_fill_mask(0, 0, 4, 4, 24));
    assert!(r.apply_fill_mask(0, 0, 4, 4, 21));
    assert!(r.rect_fill_mask(3, 3, 4, 4));
}

#[test]
fn fill_is_clipped_and_blends() {
    let mut r = Renderer::new(4, 4);
    r.state.current_color = Color { r: 200, g: 100, b: 50, a: 255 };
    r.do_fill(1, 2, 3, 100, 100, 21);
    assert_eq!(lit(&r, 1), vec![(2, 3), (3, 3)]);
    r.do_fill(1, u32::MAX, u32::MAX, u32::MAX, u32::MAX, 21);
    assert_eq!(lit(&r, 1), vec![(2, 3), (3, 3)]);
}

#[test]
fn state_slots_update_the_drawing_state() {
    let mut r = Renderer::new(4, 4);
    let action = nums("line", &[0., 1., 2., 3., 4., 5., 6., 7., 2.5, 3.]);
    r.update_drawing_state_from_action(&action);
    assert_eq!(r.state.current_color, Color { r: 1, g: 2, b: 3, a: 4 });
    assert_eq!(r.state.current_mask, Color { r: 5, g: 6, b: 7, a: 255 });
    assert_eq!(r.state.current_width.bits, 2.5f64.to_bits());
    assert_eq!(r.state.current_mask_type, MaskType::Add);
    // a text among the colour slots leaves the colour as it was
    let mut odd = nums("line", &[0., 9., 9., 9., 9., 300., -4., 7.9, 4., 9.]);
    odd[3] = s("x");
    r.update_drawing_state_from_action(&odd);
    assert_eq!(r.state.current_color, Color { r: 1, g: 2, b: 3, a: 4 });
    assert_eq!(r.state.current_mask, Color { r: 255, g: 0, b: 7, a: 255 });
    assert_eq!(r.state.current_width.bits, 4.0f64.to_bits());
    assert_eq!(r.state.current_mask_type, MaskType::NoMask);
}

#[test]
fn later_actions_inherit_the_state() {
    let mut r = Renderer::new(8, 8);
    run(
        &mut r,
        nums("line", &[0., 0., 255., 0., 255., 0., 0., 0., 1., 0., 1., 1., 1., 1., 1.]),
    );
    assert_eq!(px(&r, 0, 1, 1), Color { r: 0, g: 255, b: 0, a: 255 });
    r.draw_point(1, 5, 5, &LineType::Pen);
    assert_eq!(px(&r, 1, 5, 5), Color { r: 0, g: 255, b: 0, a: 255 });
}

#[test]
fn short_and_odd_actions_are_skipped() {
    let mut r = Renderer::new(4, 4);
    paint(&mut r, 0, 1, 1, RED);
    let before = (layer(&r, 0), layer(&r, 1));
    let skipped: Vec<Vec<ActionValue>> = vec![
        vec![],
        vec![n(1.0)],
        vec![s("wipe")],
        vec![s("bezier"), n(0.), n(1.)],
        vec![s("restore")],
        vec![s("eraseAll")],
        nums("freeHand", &[0., 0., 0., 0., 255., 0., 0., 0., 1., 0.]),
        nums("line", &[0., 0., 0., 0., 255., 0., 0., 0., 1., 0., 1., 1., 1., 2.]),
        nums("fill", &[0., 0., 0., 0., 255., 0., 0., 0., 1., 0., 0., 0., 4., 4.]),
        nums("floodFill", &[0., 1., 1.]),
        nums("copy", &[0., 0., 0., 1.]),
        nums("paste", &[0., 0., 0., 1., 1., 0.]),
        nums("merge", &[0., 0., 0., 4.]),
        nums("text", &[0., 0., 0., 0., 1.]),
        nums("freeHand", &[2., 0., 0., 0., 255., 0., 0., 0., 1., 0., 1., 1., 1., 2., 2.]),
        nums("line", &[5., 0., 0., 0., 255., 0., 0., 0., 1., 0., 1., 1., 1., 2., 2.]),
        vec![s("floodFill"), s("0"), n(1.), n(1.), n(5.)],
        vec![s("merge"), ActionValue::Integer(0), n(0.), n(0.), n(4.), n(4.)],
    ];
    for action in skipped {
        let state = r.state;
        assert_eq!(r.execute_action(&action, None), Ok(()), "{:?}", action);
        assert_eq!((layer(&r, 0), layer(&r, 1)), before, "{:?}", action);
        assert_eq!(r.state.current_color, state.current_color);
    }
}

#[test]
fn a_text_where_a_number_belongs_stops_the_replay() {
    let mut failing: Vec<Vec<ActionValue>> = Vec::new();
    let mut a = nums("line", &[0., 0., 0., 0., 255., 0., 0., 0., 1., 0., 1., 1., 1., 2., 2.]);
    a[14] = s("2");
    failing.push(a);
    let mut a = nums("freeHand", &[0., 0., 0., 0., 255., 0., 0., 0., 1., 0., 1., 1., 1., 2., 2., 3., 3.]);
    a[17] = s("3");
    failing.push(a);
    let mut a = nums("fill", &[0., 0., 0., 0., 255., 0., 0., 0., 1., 0., 0., 0., 4., 4., 21.]);
    a[15] = s("4");
    failing.push(a);
    failing.push(vec![s("floodFill"), n(0.), n(1.), s("y"), n(5.)]);
    failing.push(vec![s("copy"), n(0.), n(1.), n(1.), n(1.), s("h")]);
    failing.push(vec![s("paste"), n(0.), n(1.), n(1.), n(1.), n(1.), n(0.), s("dy")]);
    failing.push(vec![s("merge"), n(0.), s("x"), n(1.), n(1.), n(1.)]);
    failing.push(vec![s("text"), n(0.), n(1.), n(1.), n(0.), s("a"), s("A"), n(8.), s("f")]);
    for action in failing {
        let mut r = Renderer::new(4, 4);
        assert_eq!(r.execute_action(&action, None), Err(ReplayError::ExpectedNumber), "{:?}", action);
        let pch = file(4, 4, vec![nums("eraseAll", &[0.]), action, nums("eraseAll", &[1.])]);
        let mut r = Renderer::new(4, 4);
        assert!(matches!(r.render_frame_by_frame(&pch, &Vec::new()), Err(ReplayError::ExpectedNumber)));
    }
}

#[test]
fn free_hand_draws_the_segments_before_a_bad_slot() {
    let mut r = Renderer::new(8, 8);
    let mut a = nums("freeHand", &[0., 0., 0., 0., 255., 0., 0., 0., 1., 0., 1., 1., 1., 2., 1., 3., 1.]);
    a[17] = s("1");
    assert_eq!(r.execute_action(&a, None), Err(ReplayError::ExpectedNumber));
    assert_eq!(lit(&r, 0), vec![(1, 1), (2, 1)]);
}

#[test]
fn integers_count_as_numbers_but_for_the_layer() {
    let r = Renderer::new(2, 2);
    assert_eq!(r.get_number(&ActionValue::Integer(-7)).unwrap().bits, (-7.0f64).to_bits());
    assert_eq!(r.get_number(&n(2.5)).unwrap().bits, 2.5f64.to_bits());
    assert!(matches!(r.get_number(&s("2.5")), Err(ReplayError::ExpectedNumber)));
    let mut r = Renderer::new(4, 4);
    let mut a = nums("copy", &[0., 0., 0., 2., 2.]);
    a[2] = ActionValue::Integer(1);
    run(&mut r, a);
    assert_eq!(r.clipboard.as_ref().map(|c| c.len()), Some(4));
}

#[test]
fn replay_gives_a_frame_for_each_action_and_a_white_first_frame() {
    let actions = vec![
        nums("fill", &[0., 255., 0., 0., 255., 0., 0., 0., 1., 0., 0., 0., 2., 2., 21.]),
        vec![s("bezier")],
        nums("fill", &[1., 0., 0., 255., 128., 0., 0., 0., 1., 0., 1., 1., 2., 2., 21.]),
        nums("eraseAll", &[0.]),
    ];
    let pch = file(3, 3, actions);
    let mut r = Renderer::new(3, 3);
    r.draw_point(0, 1, 1, &LineType::Pen);
    let frames = r.render_frame_by_frame(&pch, &Vec::new()).unwrap();
    assert_eq!(frames.len(), 5);
    for f in &frames {
        for img in [&f.layer0, &f.layer1, &f.composite] {
            assert_eq!((img.width(), img.height()), (3, 3));
            assert_eq!(img.pixel(3, 0), None);
            assert_eq!(img.pixel(0, 3), None);
        }
    }
    for y in 0..3 {
        for x in 0..3 {
            assert_eq!(frames[0].layer0.pixel(x, y), Some((255, 255, 255)));
            assert_eq!(frames[0].layer1.pixel(x, y), Some((255, 255, 255)));
            assert_eq!(frames[0].composite.pixel(x, y), Some((255, 255, 255)));
        }
    }
    assert_eq!(frames[1].layer0.pixel(0, 0), Some((255, 0, 0)));
    assert_eq!(frames[1].layer0.pixel(2, 2), Some((255, 255, 255)));
    assert_eq!(frames[1].composite.pixel(1, 1), Some((255, 0, 0)));
    assert_eq!(frames[2].composite.pixel(1, 1), frames[1].composite.pixel(1, 1));
    // half opaque blue over red, and over white
    let blue = px(&r, 1, 1, 1);
    let over = |fg: Color, bg: (u8, u8, u8)| {
        let a = fg.a as f32 / 255.0;
        let i = 1.0 - a;
        (
            (fg.r as f32 * a + bg.0 as f32 * i) as u8,
            (fg.g as f32 * a + bg.1 as f32 * i) as u8,
            (fg.b as f32 * a + bg.2 as f32 * i) as u8,
        )
    };
    assert_eq!(frames[3].layer1.pixel(1, 1), Some(over(blue, (255, 255, 255))));
    assert_eq!(frames[3].composite.pixel(1, 1), Some(over(blue, (255, 0, 0))));
    assert_eq!(frames[3].composite.pixel(2, 2), Some(over(blue, (255, 255, 255))));
    assert_eq!(frames[4].layer0.pixel(0, 0), Some((255, 255, 255)));
    assert_eq!(frames[4].composite.pixel(1, 1), Some(over(blue, (255, 255, 255))));
}

#[test]
fn replay_of_no_actions_is_one_white_frame() {
    let mut r = Renderer::new(2, 1);
    let frames = r.render_frame_by_frame(&file(2, 1, vec![]), &Vec::new()).unwrap();
    assert_eq!(frames.len(), 1);
    assert_eq!(frames[0].composite.pixel(1, 0), Some((255, 255, 255)));
}

#[test]
fn hidden_layers_stay_out_of_the_composite() {
    let mut r = Renderer::new(2, 2);
    paint(&mut r, 0, 0, 0, RED);
    paint(&mut r, 1, 0, 0, BLACK);
    assert_eq!(r.canvas.composite().pixel(0, 0), Some((0, 0, 0)));
    r.canvas.visible = [true, false];
    assert_eq!(r.canvas.composite().pixel(0, 0), Some((255, 0, 0)));
    r.canvas.visible = [false, false];
    assert_eq!(r.canvas.composite().pixel(0, 0), Some((255, 255, 255)));
    assert_eq!(r.canvas.get_layer_as_rgb(1).unwrap().pixel(0, 0), Some((0, 0, 0)));
}

#[test]
fn clear_canvas_clears_both_layers() {
    let mut r = Renderer::new(3, 3);
    paint(&mut r, 0, 0, 0, RED);
    paint(&mut r, 1, 2, 2, BLACK);
    run(&mut r, vec![s("clearCanvas")]);
    assert!(lit(&r, 0).is_empty() && lit(&r, 1).is_empty());
    paint(&mut r, 1, 2, 2, BLACK);
    r.canvas.clear_layer(2);
    assert_eq!(lit(&r, 1), vec![(2, 2)]);
    r.canvas.clear();
    assert!(lit(&r, 1).is_empty());
}

#[test]
fn built_in_font_writes_scaled_characters() {
    let rows = get_simple_font_data('A').unwrap();
    assert_eq!(rows, 0x1824_4242_7E42_4200);
    assert!(get_simple_font_data('#').is_none());
    assert_eq!(get_simple_font_data(' '), Some(0));
    let bitmap: [u8; 8] = [0x18, 0x24, 0x42, 0x42, 0x7E, 0x42, 0x42, 0x00];
    for &(size, scale) in &[(8u32, 1u32), (3, 1), (16, 2), (20, 2)] {
        let mut r = Renderer::new(40, 20);
        r.draw_simple_text(1, 2, 1, "A", 0x0030_2010, d(0.5), size);
        let ink = Color { r: 0x10, g: 0x20, b: 0x30, a: 127 };
        for y in 0..20u32 {
            for x in 0..40u32 {
                let (u, v) = (x as i64 - 2, y as i64 - 1);
                let side = 8 * scale as i64;
                let on = u >= 0 && v >= 0 && u < side && v < side && {
                    let (row, col) = ((v / scale as i64) as usize, (u / scale as i64) as u32);
                    (bitmap[row] >> (7 - col)) & 1 == 1
                };
                assert_eq!(px(&r, 1, x, y), if on { ink } else { CLEAR }, "size {} at {} {}", size, x, y);
            }
        }
    }
}

#[test]
fn built_in_font_spaces_characters_and_stops_at_the_edge() {
    let mut r = Renderer::new(20, 8);
    r.draw_simple_text(0, 0, 0, "I#TTT", 0, d(1.0), 8);
    let mut columns: Vec<u32> = lit(&r, 0).iter().map(|&(x, _)| x).collect();
    columns.sort();
    columns.dedup();
    // `I` spans columns 2 to 6; the second character has no glyph; `T`
    // begins at column 18 and spans columns 19 to 25; the fourth
    // character would begin at column 27
    assert_eq!(columns, vec![2, 3, 4, 5, 6, 19]);
    let mut narrow = Renderer::new(9, 8);
    narrow.draw_simple_text(0, 0, 0, "IT", 0, d(1.0), 8);
    let mut b = Renderer::new(9, 8);
    b.draw_simple_text(0, 0, 0, "I", 0, d(1.0), 8);
    assert_eq!(layer(&narrow, 0), layer(&b, 0));
}

#[test]
fn outline_samples_blend_where_they_are_lit() {
    let mut r = Renderer::new(4, 4);
    paint(&mut r, 0, 1, 1, WHITE);
    let samples = vec![
        GlyphSample { x: 1, y: 1, coverage: d(0.75) },
        GlyphSample { x: 2, y: 1, coverage: d(0.5) },
        GlyphSample { x: 3, y: 3, coverage: d(1.0) },
        GlyphSample { x: -1, y: 0, coverage: d(1.0) },
        GlyphSample { x: 4, y: 0, coverage: d(1.0) },
        GlyphSample { x: 0, y: 0, coverage: d(f64::NAN) },
    ];
    r.draw_outline_text(0, &samples, 0x00FF_0000, d(1.0));
    assert_eq!(lit(&r, 0), vec![(1, 1), (3, 3)]);
    assert_eq!(px(&r, 0, 1, 1), Color { r: 0, g: 0, b: 255, a: 255 });
    assert_eq!(px(&r, 0, 3, 3), Color { r: 0, g: 0, b: 255, a: 255 });
}

#[test]
fn text_action_uses_outlines_or_the_built_in_font() {
    let action = vec![
        s("text"),
        n(0.),
        n(1.),
        n(1.),
        n(0x0000_00FFu32 as f64),
        n(1.0),
        s("T"),
        s("8px"),
        s("Arial"),
    ];
    let mut a = Renderer::new(12, 12);
    run(&mut a, action.clone());
    let mut b = Renderer::new(12, 12);
    b.draw_simple_text(0, 1, 1, "T", 0xFF, d(1.0), 8);
    assert_eq!(layer(&a, 0), layer(&b, 0));
    assert!(!lit(&a, 0).is_empty());
    assert_eq!(px(&a, 0, 2, 1), Color { r: 255, g: 0, b: 0, a: 255 });
    assert_eq!(px(&a, 0, 1, 1), CLEAR);
    let mut c = Renderer::new(12, 12);
    let samples = vec![GlyphSample { x: 5, y: 5, coverage: d(0.9) }];
    assert_eq!(c.execute_action(&action, Some(&samples)), Ok(()));
    assert_eq!(lit(&c, 0), vec![(5, 5)]);
    // the outlines of a replay go with their action by its place
    let pch = file(12, 12, vec![vec![s("bezier")], action.clone()]);
    let mut e = Renderer::new(12, 12);
    let frames = e.render_frame_by_frame(&pch, &vec![None, Some(samples)]).unwrap();
    assert_eq!(frames.len(), 3);
    assert_eq!(lit(&e, 0), vec![(5, 5)]);
    // a sixth slot that holds no text is passed over
    let mut odd = action.clone();
    odd[6] = n(3.);
    let mut f = Renderer::new(12, 12);
    run(&mut f, odd);
    assert!(lit(&f, 0).is_empty());
}

#[test]
fn font_sizes_are_numbers_or_texts_with_units() {
    let r = Renderer::new(1, 1);
    for &(text, want) in &[
        ("27px", 27.0f64),
        ("16pt", 16.0),
        ("1em", 1.0),
        (" 12.5 ", 12.5),
        ("9pxpx", 9.0),
        ("8ptpx", 8.0),
        ("7pxpt", 12.0),
        ("1e1px", 10.0),
        ("large", 12.0),
        ("", 12.0),
        ("px", 12.0),
        ("-3px", -3.0),
        ("+4", 4.0),
        (".5em", 0.5),
        ("5.", 5.0),
        ("14 px", 14.0),
        ("\t 20\u{a0}", 20.0),
    ] {
        assert_eq!(r.parse_font_size(&s(text)).bits, want.to_bits(), "{:?}", text);
    }
    assert_eq!(r.parse_font_size(&n(9.5)).bits, 9.5f64.to_bits());
    assert_eq!(r.parse_font_size(&ActionValue::Integer(30)).bits, 30.0f64.to_bits());
}

#[test]
fn the_carry_can_land_on_one_quantum() {
    // a brush stamp at alpha 1 adds about 1.4e-5; on this carry the sum is
    // one quantum to the bit, which the carry then keeps
    let mut r = Renderer::new(1, 1);
    r.state.current_color = Color { r: 0, g: 0, b: 0, a: 1 };
    r.state.aerr = F64 { bits: 0x3F70_0106_DF1D_7CE8 };
    let quantum = (1.0f64 / 255.0).to_bits();
    assert!(r.state.aerr.bits < quantum);
    let a1 = r.get_alpha(AlphaType::Brush);
    assert_eq!(a1.bits, 0);
    assert_eq!(r.state.aerr.bits, quantum);
    // the next stamp lifts it above one quantum and gives the quantum back
    let a1 = r.get_alpha(AlphaType::Brush);
    assert_eq!(a1.bits, quantum);
    assert!(r.state.aerr.bits < quantum);
}

#[test]
fn the_carry_stays_in_range_over_long_strokes() {
    let quantum = (1.0f64 / 255.0).to_bits();
    for kind in [AlphaType::Brush, AlphaType::Fill, AlphaType::Pen] {
        for alpha in [1u8, 3, 17, 64, 99, 127] {
            let mut r = Renderer::new(1, 1);
            r.state.current_color = Color { r: 0, g: 0, b: 0, a: alpha };
            for _ in 0..500 {
                r.get_alpha(kind);
                assert!(r.state.aerr.bits <= quantum);
            }
        }
    }
}

#[test]
fn flood_fill_fills_a_large_region() {
    let mut r = Renderer::new(300, 200);
    r.state.current_color = WHITE;
    r.do_fill(0, 0, 0, 300, 200, 21);
    for x in 0..300 {
        paint(&mut r, 0, x, 100, BLACK);
    }
    paint(&mut r, 0, 150, 100, WHITE);
    assert!(r.do_flood_fill(0, 7, 3, pixel_to_u32(&RED)));
    for y in 0..200u32 {
        for x in 0..300u32 {
            let want = if y == 100 && x != 150 { BLACK } else { RED };
            assert_eq!(px(&r, 0, x, y), want, "{} {}", x, y);
        }
    }
}

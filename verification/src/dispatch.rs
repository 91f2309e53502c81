//! The replay: reading the slots of each recorded action, applying it to
//! the scene, and showing the scene after each step.
use vstd::prelude::*;
use vstd::string::*;
use crate::{ActionValue, Color, DrawingState, LineType, MaskType, PchFile};
use crate::blend::{num, num_exec};
use crate::clip::{copy_done, merge_done, paste_done, unpack};
use crate::decimal::{decimal_value, parse_decimal};
use crate::fill::fill_done;
use crate::float::{F64, float_from_int};
use crate::flood::{flood_applies, flood_done, flood_partial, MAX_STACK_SIZE};
use crate::raster::in_raster;
use crate::renderer::{
    blank_layer, composite_pixel, layer_over_white, white, FrameSet, Renderer, Scene,
};
use crate::stroke::segment_drawn;
use crate::text::{outline_text_done, simple_text_done, GlyphSample};

verus! {

/// Why a replay stopped.
#[derive(Debug, Clone, Copy, PartialEq, Eq, Structural)]
pub enum ReplayError {
    /// A slot that an action needs as a number holds a text.
    ExpectedNumber,
}

/// The number in a slot, if it holds one.
pub open spec fn number_of(v: ActionValue) -> Option<F64> {
    match v {
        ActionValue::Number(n) => Some(n),
        ActionValue::Integer(k) => Some(float_from_int(k as int)),
        ActionValue::String(_) => None,
    }
}

/// The layer that slot 1 names, if it holds a number written with a
/// fraction part or an exponent: 0, 1, or 2 for every layer that the
/// canvas does not have.
pub open spec fn layer_of(a: Seq<ActionValue>) -> Option<int> {
    match a[1] {
        ActionValue::Number(n) => Some(n.to_int(0, 2)),
        _ => None,
    }
}

/// A slot as an unsigned 32-bit number.
pub open spec fn slot_u32(a: Seq<ActionValue>, i: int) -> int {
    number_of(a[i])->0.to_int(0, u32::MAX as int)
}

/// A slot as a signed 32-bit number.
pub open spec fn slot_i32(a: Seq<ActionValue>, i: int) -> int {
    number_of(a[i])->0.to_int(i32::MIN as int, i32::MAX as int)
}

/// A slot as a byte.
pub open spec fn slot_u8(a: Seq<ActionValue>, i: int) -> u8 {
    number_of(a[i])->0.to_int(0, 255) as u8
}

/// Whether the slots from `from` up to `to` all hold numbers.
pub open spec fn numbers_in(a: Seq<ActionValue>, from: int, to: int) -> bool {
    forall|i: int| from <= i < to ==> (#[trigger] number_of(a[i])) is Some
}

/// The drawing state after the slots 2 to 10 of a stroke or a fill have
/// been read: the colour from slots 2 to 5, the mask colour from slots 6
/// to 8, the width from slot 9 and the mask type from slot 10, each only
/// where all its slots hold numbers.
pub open spec fn state_updated(st: DrawingState, a: Seq<ActionValue>) -> DrawingState {
    DrawingState {
        current_color: if numbers_in(a, 2, 6) {
            Color { r: slot_u8(a, 2), g: slot_u8(a, 3), b: slot_u8(a, 4), a: slot_u8(a, 5) }
        } else {
            st.current_color
        },
        current_mask: if numbers_in(a, 6, 9) {
            Color { r: slot_u8(a, 6), g: slot_u8(a, 7), b: slot_u8(a, 8), a: 255 }
        } else {
            st.current_mask
        },
        current_width: match number_of(a[9]) {
            Some(w) => w,
            None => st.current_width,
        },
        current_mask_type: match number_of(a[10]) {
            Some(m) => MaskType::of_code(m.to_int(i64::MIN as int, i64::MAX as int) as i64),
            None => st.current_mask_type,
        },
        aerr: st.aerr,
    }
}

/// The tool that slot 11 names: the pen where it holds no number written
/// with a fraction part or an exponent.
pub open spec fn tool_of(a: Seq<ActionValue>) -> LineType {
    match a[11] {
        ActionValue::Number(n) => LineType::of_code(n.to_int(i64::MIN as int, i64::MAX as int) as i64),
        _ => LineType::Pen,
    }
}

/// The scene with both layers transparent.
pub open spec fn cleared(s: Scene) -> Scene {
    Scene { lower: blank_layer(s.width, s.height), upper: blank_layer(s.width, s.height), ..s }
}

/// The scene after `eraseAll`: the layer that slot 1 names is
/// transparent.
pub open spec fn erase_all_done(s: Scene, a: Seq<ActionValue>) -> Scene {
    if a.len() >= 2 {
        match layer_of(a) {
            Some(layer) => if layer < 2 {
                s.with_layer(layer, blank_layer(s.width, s.height))
            } else {
                s
            },
            None => s,
        }
    } else {
        s
    }
}

/// The scene after the segments of a free-hand stroke from slot `i` on,
/// and whether all of them could be read.  Each segment takes four slots
/// and begins where the one before it ends.
pub open spec fn strokes_done(s: Scene, a: Seq<ActionValue>, layer: int, tool: LineType, i: int) -> (
    Scene,
    bool,
)
    decreases a.len() - i,
{
    if 0 <= i && i + 3 < a.len() {
        if numbers_in(a, i, i + 4) {
            strokes_done(
                segment_drawn(
                    s,
                    layer,
                    slot_u32(a, i) as u32,
                    slot_u32(a, i + 1) as u32,
                    slot_u32(a, i + 2) as u32,
                    slot_u32(a, i + 3) as u32,
                    tool,
                ),
                a,
                layer,
                tool,
                i + 2,
            )
        } else {
            (s, false)
        }
    } else {
        (s, true)
    }
}

/// The scene after `freeHand`.
pub open spec fn free_hand_done(s: Scene, a: Seq<ActionValue>) -> (Scene, bool) {
    if a.len() < 12 {
        (s, true)
    } else {
        match layer_of(a) {
            Some(layer) => if layer < 2 {
                strokes_done(Scene { state: state_updated(s.state, a), ..s }, a, layer, tool_of(a), 12)
            } else {
                (s, true)
            },
            None => (s, true),
        }
    }
}

/// The scene after `line`.
pub open spec fn line_done(s: Scene, a: Seq<ActionValue>) -> (Scene, bool) {
    if a.len() < 16 {
        (s, true)
    } else {
        match layer_of(a) {
            Some(layer) => if layer < 2 {
                let s1 = Scene { state: state_updated(s.state, a), ..s };
                if numbers_in(a, 12, 16) {
                    (
                        segment_drawn(
                            s1,
                            layer,
                            slot_u32(a, 12) as u32,
                            slot_u32(a, 13) as u32,
                            slot_u32(a, 14) as u32,
                            slot_u32(a, 15) as u32,
                            tool_of(a),
                        ),
                        true,
                    )
                } else {
                    (s1, false)
                }
            } else {
                (s, true)
            },
            None => (s, true),
        }
    }
}

/// The scene after `fill`.
pub open spec fn fill_action_done(s: Scene, a: Seq<ActionValue>) -> (Scene, bool) {
    if a.len() < 16 {
        (s, true)
    } else {
        match layer_of(a) {
            Some(layer) => {
                let s1 = Scene { state: state_updated(s.state, a), ..s };
                if numbers_in(a, 11, 16) {
                    (
                        fill_done(
                            s1,
                            layer,
                            slot_u32(a, 11),
                            slot_u32(a, 12),
                            slot_u32(a, 13),
                            slot_u32(a, 14),
                            slot_u32(a, 15) as u32,
                        ),
                        true,
                    )
                } else {
                    (s1, false)
                }
            },
            None => (s, true),
        }
    }
}

/// The layer, the seed and the packed colour of a `floodFill` whose slots
/// can be read.
pub open spec fn flood_request(a: Seq<ActionValue>) -> Option<(int, int, int, u32)> {
    if a.len() < 5 {
        None
    } else {
        match layer_of(a) {
            Some(layer) => if numbers_in(a, 2, 5) {
                Some((layer, slot_i32(a, 2), slot_i32(a, 3), slot_u32(a, 4) as u32))
            } else {
                None
            },
            None => None,
        }
    }
}

/// The scene after a `floodFill` that ran to its end.
pub open spec fn flood_action_done(s: Scene, a: Seq<ActionValue>) -> (Scene, bool) {
    if a.len() < 5 {
        (s, true)
    } else {
        match layer_of(a) {
            Some(_) => match flood_request(a) {
                Some((layer, x, y, fill)) => (flood_done(s, layer, x, y, fill), true),
                None => (s, false),
            },
            None => (s, true),
        }
    }
}

/// Whether `c` is white space.
pub open spec fn is_space(c: char) -> bool {
    ||| '\u{9}' <= c <= '\u{D}'
    ||| c == ' '
    ||| c == '\u{85}'
    ||| c == '\u{A0}'
    ||| c == '\u{1680}'
    ||| '\u{2000}' <= c <= '\u{200A}'
    ||| c == '\u{2028}'
    ||| c == '\u{2029}'
    ||| c == '\u{202F}'
    ||| c == '\u{205F}'
    ||| c == '\u{3000}'
}

/// Where the text `s[..end]` ends once every `a b` at its end is taken
/// off.
pub open spec fn strip_end(s: Seq<char>, end: int, a: char, b: char) -> int
    decreases end,
{
    if 2 <= end <= s.len() && s[end - 2] == a && s[end - 1] == b {
        strip_end(s, end - 2, a, b)
    } else {
        end
    }
}

/// Where the text `s[start..end]` begins once the white space at its
/// beginning is taken off.
pub open spec fn trim_start(s: Seq<char>, start: int, end: int) -> int
    decreases end - start,
{
    if 0 <= start < end <= s.len() && is_space(s[start]) {
        trim_start(s, start + 1, end)
    } else {
        start
    }
}

/// Where the text `s[start..end]` ends once the white space at its end is
/// taken off.
pub open spec fn trim_end(s: Seq<char>, start: int, end: int) -> int
    decreases end,
{
    if 0 <= start < end <= s.len() && is_space(s[end - 1]) {
        trim_end(s, start, end - 1)
    } else {
        end
    }
}

/// The numeral in a font size: the text without the units `px`, `pt` and
/// `em` at its end, taken off in this order, and without white space
/// around what is left.
pub open spec fn size_numeral(s: Seq<char>) -> Seq<char> {
    let e1 = strip_end(s, s.len() as int, 'p', 'x');
    let e2 = strip_end(s, e1, 'p', 't');
    let e3 = strip_end(s, e2, 'e', 'm');
    let from = trim_start(s, 0, e3);
    let to = trim_end(s, from, e3);
    s.subrange(from, to)
}

/// The font size in a slot: the number, or the numeral of a text, and 12
/// where the text holds none that can be read.
pub open spec fn font_size_of(v: ActionValue) -> F64 {
    match v {
        ActionValue::Number(n) => n,
        ActionValue::Integer(k) => float_from_int(k as int),
        ActionValue::String(s) => match decimal_value(size_numeral(s@)) {
            Some(x) => x,
            None => num(12),
        },
    }
}

/// The scene after `text`.  With sampled outlines the text is drawn from
/// them; without, in the built-in font.
pub open spec fn text_action_done(s: Scene, a: Seq<ActionValue>, outline: Option<Seq<GlyphSample>>) -> (
    Scene,
    bool,
) {
    if a.len() < 9 {
        (s, true)
    } else {
        match layer_of(a) {
            Some(layer) => if layer >= 2 {
                (s, true)
            } else if !numbers_in(a, 2, 6) {
                (s, false)
            } else {
                match a[6] {
                    ActionValue::String(text) => {
                        let color = slot_u32(a, 4) as u32;
                        let alpha = number_of(a[5])->0;
                        match outline {
                            Some(samples) => (outline_text_done(s, layer, samples, color, alpha), true),
                            None => (
                                simple_text_done(
                                    s,
                                    layer,
                                    slot_u32(a, 2),
                                    slot_u32(a, 3),
                                    text@,
                                    color,
                                    alpha,
                                    font_size_of(a[7]).to_int(0, u32::MAX as int) as u32,
                                ),
                                true,
                            ),
                        }
                    },
                    _ => (s, true),
                }
            },
            None => (s, true),
        }
    }
}

/// What a rasteriser needs to know of a `text` action: where the text
/// begins, the text, and the font size.
pub struct TextRequest {
    pub x: u32,
    pub y: u32,
    pub text: String,
    pub size: u32,
}

/// Whether the action is a `text` action that draws: it has its nine
/// slots, names a layer of the canvas, holds numbers where it needs them,
/// and a text in slot 6.
pub open spec fn text_requested(a: Seq<ActionValue>) -> bool {
    &&& a.len() >= 9
    &&& match a[0] {
        ActionValue::String(op) => op@ == "text"@,
        _ => false,
    }
    &&& match layer_of(a) {
        Some(layer) => layer < 2,
        None => false,
    }
    &&& numbers_in(a, 2, 6)
    &&& a[6] is String
}

/// What a rasteriser needs to know of an action, if it is a `text`
/// action that draws.
pub fn text_request(action: &Vec<ActionValue>) -> (r: Option<TextRequest>)
    ensures
        r is Some <==> text_requested(action@),
        r is Some ==> {
            &&& r->0.x == slot_u32(action@, 2)
            &&& r->0.y == slot_u32(action@, 3)
            &&& ActionValue::String(r->0.text) == action@[6]
            &&& r->0.size == font_size_of(action@[7]).to_int(0, u32::MAX as int)
        },
{
    if action.len() < 9 {
        return None;
    }
    let is_text = match &action[0] {
        ActionValue::String(op) => is_op(op, "text"),
        _ => false,
    };
    if !is_text {
        return None;
    }
    let on_canvas = match &action[1] {
        ActionValue::Number(n) => n.to_int_exec(0, 2) < 2,
        _ => false,
    };
    if !on_canvas {
        return None;
    }
    let mut i: usize = 2;
    while i < 6
        invariant
            2 <= i <= 6,
            action@.len() >= 9,
            numbers_in(action@, 2, i as int),
        decreases 6 - i,
    {
        match &action[i] {
            ActionValue::String(_) => {
                assert(number_of(action@[i as int]) is None);
                return None;
            },
            _ => {},
        }
        i = i + 1;
    }
    let x = slot_number(action, 2).to_u32();
    let y = slot_number(action, 3).to_u32();
    match &action[6] {
        ActionValue::String(text) => Some(
            TextRequest { x, y, text: text.clone(), size: font_size(&action[7]).to_u32() },
        ),
        _ => None,
    }
}

/// A slot that holds a number, as that number.
fn slot_number(action: &Vec<ActionValue>, i: usize) -> (r: F64)
    requires
        i < action@.len(),
        number_of(action@[i as int]) is Some,
    ensures
        r == number_of(action@[i as int])->0,
{
    match &action[i] {
        ActionValue::Number(n) => *n,
        ActionValue::Integer(k) => F64::from_i64(*k),
        ActionValue::String(_) => num_exec(0),
    }
}

/// The font size in a slot.
pub fn font_size(value: &ActionValue) -> (r: F64)
    ensures
        r == font_size_of(*value),
{
    match value {
        ActionValue::Number(n) => *n,
        ActionValue::Integer(k) => F64::from_i64(*k),
        ActionValue::String(s) => {
            let text = s.as_str();
            let n = text.unicode_len();
            let e1 = strip_end_exec(text, n, 'p', 'x');
            let e2 = strip_end_exec(text, e1, 'p', 't');
            let e3 = strip_end_exec(text, e2, 'e', 'm');
            let from = trim_start_exec(text, 0, e3);
            let to = trim_end_exec(text, from, e3);
            match parse_decimal(text.substring_char(from, to)) {
                Some(x) => x,
                None => num_exec(12),
            }
        },
    }
}

/// The scene after `copy`.
pub open spec fn copy_action_done(s: Scene, a: Seq<ActionValue>) -> (Scene, bool) {
    if a.len() < 6 {
        (s, true)
    } else {
        match layer_of(a) {
            Some(layer) => if numbers_in(a, 2, 6) {
                (copy_done(s, layer, slot_u32(a, 2), slot_u32(a, 3), slot_u32(a, 4), slot_u32(a, 5)), true)
            } else {
                (s, false)
            },
            None => (s, true),
        }
    }
}

/// The scene after `paste`.
pub open spec fn paste_action_done(s: Scene, a: Seq<ActionValue>) -> (Scene, bool) {
    if a.len() < 8 {
        (s, true)
    } else {
        match layer_of(a) {
            Some(layer) => if numbers_in(a, 2, 8) {
                (
                    paste_done(
                        s,
                        layer,
                        slot_u32(a, 2),
                        slot_u32(a, 3),
                        slot_u32(a, 4),
                        slot_u32(a, 5),
                        slot_i32(a, 6),
                        slot_i32(a, 7),
                    ),
                    true,
                )
            } else {
                (s, false)
            },
            None => (s, true),
        }
    }
}

/// The scene after `merge`.
pub open spec fn merge_action_done(s: Scene, a: Seq<ActionValue>) -> (Scene, bool) {
    if a.len() < 6 {
        (s, true)
    } else {
        match layer_of(a) {
            Some(layer) => if numbers_in(a, 2, 6) {
                (merge_done(s, layer, slot_u32(a, 2), slot_u32(a, 3), slot_u32(a, 4), slot_u32(a, 5)), true)
            } else {
                (s, false)
            },
            None => (s, true),
        }
    }
}

/// The scene after an action, and whether the replay goes on.  The first
/// slot names the operation.  An action with too few slots for its
/// operation, one whose layer slot holds no number written with a
/// fraction part or an exponent, and one with an unknown operation change
/// nothing; `bezier` and `restore` change nothing either.  The replay
/// stops where a slot that the operation needs as a number holds a text.
/// A flood fill is taken to run to its end.
pub open spec fn action_done(s: Scene, a: Seq<ActionValue>, outline: Option<Seq<GlyphSample>>) -> (
    Scene,
    bool,
) {
    if a.len() == 0 {
        (s, true)
    } else {
        match a[0] {
            ActionValue::String(op) => if op@ == "clearCanvas"@ {
                (cleared(s), true)
            } else if op@ == "eraseAll"@ {
                (erase_all_done(s, a), true)
            } else if op@ == "freeHand"@ {
                free_hand_done(s, a)
            } else if op@ == "line"@ {
                line_done(s, a)
            } else if op@ == "bezier"@ {
                (s, true)
            } else if op@ == "fill"@ {
                fill_action_done(s, a)
            } else if op@ == "floodFill"@ {
                flood_action_done(s, a)
            } else if op@ == "text"@ {
                text_action_done(s, a, outline)
            } else if op@ == "copy"@ {
                copy_action_done(s, a)
            } else if op@ == "paste"@ {
                paste_action_done(s, a)
            } else if op@ == "merge"@ {
                merge_action_done(s, a)
            } else if op@ == "restore"@ {
                (s, true)
            } else {
                (s, true)
            },
            _ => (s, true),
        }
    }
}

/// Whether `t` is what the flood fill of an action left when it gave
/// up because its work list overflowed: a part of the region repainted,
/// and nothing else changed.  This takes a canvas of more than half a
/// million pixels.
pub open spec fn flood_left_short(s: Scene, a: Seq<ActionValue>, t: Scene) -> bool {
    match flood_request(a) {
        Some((layer, x, y, fill)) => {
            &&& 2 * s.width * s.height > MAX_STACK_SIZE
            &&& flood_applies(s, layer, x, y, fill)
            &&& t == s.with_layer(layer, t.layer(layer))
            &&& flood_partial(s.layer(layer), t.layer(layer), (x, y), unpack(fill))
        },
        None => false,
    }
}

/// Whether the action is a flood fill.
pub open spec fn is_flood(a: Seq<ActionValue>) -> bool {
    a.len() > 0 && match a[0] {
        ActionValue::String(op) => op@ == "floodFill"@,
        _ => false,
    }
}

/// Whether an action may lead from the scene `s` to the scene `t`, the
/// replay going on or not as `ok` says.
pub open spec fn action_outcome(
    s: Scene,
    a: Seq<ActionValue>,
    outline: Option<Seq<GlyphSample>>,
    t: Scene,
    ok: bool,
) -> bool {
    (t, ok) == action_done(s, a, outline) || (ok && is_flood(a) && flood_left_short(s, a, t))
}

/// The sampled outlines for the action `i`, if there are any.
pub open spec fn outline_at(outlines: Seq<Option<Vec<GlyphSample>>>, i: int) -> Option<Seq<GlyphSample>> {
    if 0 <= i < outlines.len() {
        match outlines[i] {
            Some(v) => Some(v@),
            None => None,
        }
    } else {
        None
    }
}

/// Whether `scenes` are the scenes of a replay of the first `n` actions:
/// the first is the cleared scene, and each action leads from one to the
/// next.
pub open spec fn replayed(
    start: Scene,
    actions: Seq<Vec<ActionValue>>,
    outlines: Seq<Option<Vec<GlyphSample>>>,
    scenes: Seq<Scene>,
    n: int,
) -> bool {
    &&& scenes.len() == n + 1
    &&& scenes[0] == cleared(start)
    &&& forall|i: int|
        0 <= i < n ==> action_outcome(
            #[trigger] scenes[i],
            actions[i]@,
            outline_at(outlines, i),
            scenes[i + 1],
            true,
        )
}

/// Whether a frame shows a scene: each layer over white and both visible
/// layers over white, on rasters of the canvas's size.
pub open spec fn frame_shows(f: FrameSet, s: Scene, show_lower: bool, show_upper: bool) -> bool {
    &&& f.layer0.wf() && f.layer0.spec_width() == s.width && f.layer0.spec_height() == s.height
    &&& f.layer1.wf() && f.layer1.spec_width() == s.width && f.layer1.spec_height() == s.height
    &&& f.composite.wf() && f.composite.spec_width() == s.width && f.composite.spec_height() == s.height
    &&& f.layer0@ == layer_over_white(s.lower, s.width, s.height)
    &&& f.layer1@ == layer_over_white(s.upper, s.width, s.height)
    &&& f.composite@ == Map::new(
        |p: (int, int)| in_raster(s.width, s.height, p),
        |p: (int, int)| composite_pixel(s.lower[p], s.upper[p], show_lower, show_upper),
    )
}

/// Whether every pixel of a frame is white.
pub open spec fn all_white(f: FrameSet) -> bool {
    &&& forall|p: (int, int)| f.layer0@.dom().contains(p) ==> #[trigger] f.layer0@[p] == white()
    &&& forall|p: (int, int)| f.layer1@.dom().contains(p) ==> #[trigger] f.layer1@[p] == white()
    &&& forall|p: (int, int)| f.composite@.dom().contains(p) ==> #[trigger] f.composite@[p] == white()
}

/// A frame that shows a cleared scene is all white.
pub proof fn lemma_cleared_frame_is_white(f: FrameSet, s: Scene, show_lower: bool, show_upper: bool)
    requires
        frame_shows(f, cleared(s), show_lower, show_upper),
    ensures
        all_white(f),
{
}

/// Whether the text `s` is the name `name`.
pub(crate) fn is_op(s: &String, name: &str) -> (r: bool)
    ensures
        r == (s@ == name@),
{
    let t = String::from_str(name);
    *s == t
}

impl Renderer {
    /// The number in a slot.
    pub fn get_number(&self, value: &ActionValue) -> (r: Result<F64, ReplayError>)
        ensures
            match number_of(*value) {
                Some(n) => r == Ok::<F64, ReplayError>(n),
                None => r == Err::<F64, ReplayError>(ReplayError::ExpectedNumber),
            },
    {
        match value {
            ActionValue::Number(n) => Ok(*n),
            ActionValue::Integer(k) => Ok(F64::from_i64(*k)),
            ActionValue::String(_) => Err(ReplayError::ExpectedNumber),
        }
    }

    /// The font size in a slot.
    pub fn parse_font_size(&self, value: &ActionValue) -> (r: F64)
        ensures
            r == font_size_of(*value),
    {
        font_size(value)
    }

    /// Makes both layers transparent.
    pub fn clear_canvas(&mut self)
        requires
            old(self).wf(),
        ensures
            final(self).wf(),
            final(self).same_setup(old(self)),
            final(self)@ == cleared(old(self)@),
    {
        self.canvas.clear();
    }

    /// The layer that slot 1 names.
    fn layer_slot(&self, action: &Vec<ActionValue>) -> (r: Option<usize>)
        requires
            action@.len() >= 2,
        ensures
            match layer_of(action@) {
                Some(layer) => r == Some(layer as usize),
                None => r is None,
            },
            r is Some ==> r->0 <= 2,
    {
        match &action[1] {
            ActionValue::Number(n) => Some(n.to_int_exec(0, 2) as usize),
            _ => None,
        }
    }

    /// Whether the slots from `from` up to `to` all hold numbers.
    fn all_numbers(&self, action: &Vec<ActionValue>, from: usize, to: usize) -> (r: bool)
        requires
            from <= to <= action@.len(),
        ensures
            r == numbers_in(action@, from as int, to as int),
    {
        let mut i = from;
        while i < to
            invariant
                from <= i <= to <= action@.len(),
                numbers_in(action@, from as int, i as int),
            decreases to - i,
        {
            match &action[i] {
                ActionValue::String(_) => {
                    assert(number_of(action@[i as int]) is None);
                    return false;
                },
                _ => {},
            }
            i = i + 1;
        }
        true
    }

    /// A slot that holds a number, as that number.
    fn number_slot(&self, action: &Vec<ActionValue>, i: usize) -> (r: F64)
        requires
            i < action@.len(),
            number_of(action@[i as int]) is Some,
        ensures
            r == number_of(action@[i as int])->0,
    {
        slot_number(action, i)
    }

    /// `eraseAll`: makes one layer transparent.
    pub fn erase_all(&mut self, action: &Vec<ActionValue>)
        requires
            old(self).wf(),
        ensures
            final(self).wf(),
            final(self).same_setup(old(self)),
            final(self)@ == erase_all_done(old(self)@, action@),
    {
        if action.len() >= 2 {
            match self.layer_slot(action) {
                Some(layer) => {
                    self.canvas.clear_layer(layer);
                    assert(self.canvas.layer(0) == self@.layer(0));
                    assert(self.canvas.layer(1) == self@.layer(1));
                },
                None => {},
            }
        }
    }

    /// Reads the colour, the mask colour, the width and the mask type of
    /// a stroke or a fill into the drawing state.
    pub fn update_drawing_state_from_action(&mut self, action: &Vec<ActionValue>)
        requires
            action@.len() >= 11,
        ensures
            final(self).state == state_updated(old(self).state, action@),
            final(self).canvas == old(self).canvas,
            final(self).round_data == old(self).round_data,
            final(self).tone_data == old(self).tone_data,
            final(self).clipboard == old(self).clipboard,
    {
        if self.all_numbers(action, 2, 6) {
            self.state.current_color = Color {
                r: self.number_slot(action, 2).to_u8(),
                g: self.number_slot(action, 3).to_u8(),
                b: self.number_slot(action, 4).to_u8(),
                a: self.number_slot(action, 5).to_u8(),
            };
        }
        if self.all_numbers(action, 6, 9) {
            self.state.current_mask = Color {
                r: self.number_slot(action, 6).to_u8(),
                g: self.number_slot(action, 7).to_u8(),
                b: self.number_slot(action, 8).to_u8(),
                a: 255,
            };
        }
        match self.get_number(&action[9]) {
            Ok(width) => {
                self.state.current_width = width;
            },
            Err(_) => {},
        }
        match self.get_number(&action[10]) {
            Ok(mask_type) => {
                self.state.current_mask_type = MaskType::from(mask_type.to_i64());
            },
            Err(_) => {},
        }
    }

    /// The tool that slot 11 names.
    fn tool_slot(&self, action: &Vec<ActionValue>) -> (r: LineType)
        requires
            action@.len() >= 12,
        ensures
            r == tool_of(action@),
    {
        match &action[11] {
            ActionValue::Number(n) => LineType::from(n.to_i64()),
            _ => LineType::Pen,
        }
    }

    /// `freeHand`: a stroke through the recorded points.
    pub fn free_hand(&mut self, action: &Vec<ActionValue>) -> (r: Result<(), ReplayError>)
        requires
            old(self).wf(),
        ensures
            final(self).wf(),
            final(self).same_setup(old(self)),
            (final(self)@, r is Ok) == free_hand_done(old(self)@, action@),
    {
        if action.len() < 12 {
            return Ok(());
        }
        let layer = match self.layer_slot(action) {
            Some(layer) => layer,
            None => {
                return Ok(());
            },
        };
        if layer >= 2 {
            return Ok(());
        }
        self.update_drawing_state_from_action(action);
        let line_type = self.tool_slot(action);
        let ghost want = free_hand_done(old(self)@, action@);
        let mut i: usize = 12;
        while action.len() - i > 3
            invariant
                old(self).wf(),
                self.wf(),
                self.same_setup(old(self)),
                layer < 2,
                12 <= i <= action@.len(),
                line_type == tool_of(action@),
                want == free_hand_done(old(self)@, action@),
                want == strokes_done(self@, action@, layer as int, line_type, i as int),
            decreases action@.len() - i,
        {
            if !self.all_numbers(action, i, i + 4) {
                return Err(ReplayError::ExpectedNumber);
            }
            let x0 = self.number_slot(action, i).to_u32();
            let y0 = self.number_slot(action, i + 1).to_u32();
            let x1 = self.number_slot(action, i + 2).to_u32();
            let y1 = self.number_slot(action, i + 3).to_u32();
            self.draw_line_segment(layer, x0, y0, x1, y1, &line_type);
            i = i + 2;
        }
        Ok(())
    }

    /// `line`: one straight stroke.
    pub fn draw_line(&mut self, action: &Vec<ActionValue>) -> (r: Result<(), ReplayError>)
        requires
            old(self).wf(),
        ensures
            final(self).wf(),
            final(self).same_setup(old(self)),
            (final(self)@, r is Ok) == line_done(old(self)@, action@),
    {
        if action.len() < 16 {
            return Ok(());
        }
        let layer = match self.layer_slot(action) {
            Some(layer) => layer,
            None => {
                return Ok(());
            },
        };
        if layer >= 2 {
            return Ok(());
        }
        self.update_drawing_state_from_action(action);
        let line_type = self.tool_slot(action);
        if !self.all_numbers(action, 12, 16) {
            return Err(ReplayError::ExpectedNumber);
        }
        let x0 = self.number_slot(action, 12).to_u32();
        let y0 = self.number_slot(action, 13).to_u32();
        let x1 = self.number_slot(action, 14).to_u32();
        let y1 = self.number_slot(action, 15).to_u32();
        self.draw_line_segment(layer, x0, y0, x1, y1, &line_type);
        Ok(())
    }

    /// `bezier`: curves are not drawn.
    pub fn draw_bezier(&mut self, action: &Vec<ActionValue>)
        ensures
            *final(self) == *old(self),
    {
    }

    /// `restore`: nothing is restored.
    pub fn restore(&mut self, action: &Vec<ActionValue>)
        ensures
            *final(self) == *old(self),
    {
    }

    /// `fill`: a rectangle or an ellipse, outlined or solid.
    pub fn fill(&mut self, action: &Vec<ActionValue>) -> (r: Result<(), ReplayError>)
        requires
            old(self).wf(),
        ensures
            final(self).wf(),
            final(self).same_setup(old(self)),
            (final(self)@, r is Ok) == fill_action_done(old(self)@, action@),
    {
        if action.len() < 16 {
            return Ok(());
        }
        let layer = match self.layer_slot(action) {
            Some(layer) => layer,
            None => {
                return Ok(());
            },
        };
        self.update_drawing_state_from_action(action);
        if !self.all_numbers(action, 11, 16) {
            return Err(ReplayError::ExpectedNumber);
        }
        let x = self.number_slot(action, 11).to_u32();
        let y = self.number_slot(action, 12).to_u32();
        let width = self.number_slot(action, 13).to_u32();
        let height = self.number_slot(action, 14).to_u32();
        let fill_type = self.number_slot(action, 15).to_u32();
        self.do_fill(layer, x, y, width, height, fill_type);
        Ok(())
    }

    /// `floodFill`: repaints the region of a seed.
    pub fn flood_fill(&mut self, action: &Vec<ActionValue>) -> (r: Result<(), ReplayError>)
        requires
            old(self).wf(),
        ensures
            final(self).wf(),
            final(self).same_setup(old(self)),
            (final(self)@, r is Ok) == flood_action_done(old(self)@, action@) || (r is Ok && flood_left_short(
                old(self)@,
                action@,
                final(self)@,
            )),
    {
        if action.len() < 5 {
            return Ok(());
        }
        let layer = match self.layer_slot(action) {
            Some(layer) => layer,
            None => {
                return Ok(());
            },
        };
        if !self.all_numbers(action, 2, 5) {
            return Err(ReplayError::ExpectedNumber);
        }
        let x = self.number_slot(action, 2).to_i32();
        let y = self.number_slot(action, 3).to_i32();
        let fill_color = self.number_slot(action, 4).to_u32();
        let completed = self.do_flood_fill(layer, x, y, fill_color);
        Ok(())
    }

    /// `text`: a line of text, from sampled outlines or in the built-in
    /// font.
    pub fn draw_text(&mut self, action: &Vec<ActionValue>, outline: Option<&Vec<GlyphSample>>) -> (r: Result<
        (),
        ReplayError,
    >)
        requires
            old(self).wf(),
        ensures
            final(self).wf(),
            final(self).same_setup(old(self)),
            (final(self)@, r is Ok) == text_action_done(
                old(self)@,
                action@,
                match outline {
                    Some(v) => Some(v@),
                    None => None,
                },
            ),
    {
        if action.len() < 9 {
            return Ok(());
        }
        let layer = match self.layer_slot(action) {
            Some(layer) => layer,
            None => {
                return Ok(());
            },
        };
        if layer >= 2 {
            return Ok(());
        }
        if !self.all_numbers(action, 2, 6) {
            return Err(ReplayError::ExpectedNumber);
        }
        let x = self.number_slot(action, 2).to_u32();
        let y = self.number_slot(action, 3).to_u32();
        let color = self.number_slot(action, 4).to_u32();
        let alpha = self.number_slot(action, 5);
        match &action[6] {
            ActionValue::String(text) => {
                let size = self.parse_font_size(&action[7]).to_u32();
                match outline {
                    Some(samples) => {
                        self.draw_outline_text(layer, samples, color, alpha);
                    },
                    None => {
                        self.draw_simple_text(layer, x, y, text.as_str(), color, alpha, size);
                    },
                }
            },
            _ => {},
        }
        Ok(())
    }

    /// `copy`: takes a box of a layer to the clipboard.
    pub fn copy(&mut self, action: &Vec<ActionValue>) -> (r: Result<(), ReplayError>)
        requires
            old(self).wf(),
        ensures
            final(self).wf(),
            final(self).same_setup(old(self)),
            (final(self)@, r is Ok) == copy_action_done(old(self)@, action@),
    {
        if action.len() < 6 {
            return Ok(());
        }
        let layer = match self.layer_slot(action) {
            Some(layer) => layer,
            None => {
                return Ok(());
            },
        };
        if !self.all_numbers(action, 2, 6) {
            return Err(ReplayError::ExpectedNumber);
        }
        let x = self.number_slot(action, 2).to_u32();
        let y = self.number_slot(action, 3).to_u32();
        let width = self.number_slot(action, 4).to_u32();
        let height = self.number_slot(action, 5).to_u32();
        self.do_copy(layer, x, y, width, height);
        Ok(())
    }

    /// `paste`: writes the clipboard over a box of a layer.
    pub fn paste(&mut self, action: &Vec<ActionValue>) -> (r: Result<(), ReplayError>)
        requires
            old(self).wf(),
        ensures
            final(self).wf(),
            final(self).same_setup(old(self)),
            (final(self)@, r is Ok) == paste_action_done(old(self)@, action@),
    {
        if action.len() < 8 {
            return Ok(());
        }
        let layer = match self.layer_slot(action) {
            Some(layer) => layer,
            None => {
                return Ok(());
            },
        };
        if !self.all_numbers(action, 2, 8) {
            return Err(ReplayError::ExpectedNumber);
        }
        let x = self.number_slot(action, 2).to_u32();
        let y = self.number_slot(action, 3).to_u32();
        let width = self.number_slot(action, 4).to_u32();
        let height = self.number_slot(action, 5).to_u32();
        let dx = self.number_slot(action, 6).to_i32();
        let dy = self.number_slot(action, 7).to_i32();
        self.do_paste(layer, x, y, width, height, dx, dy);
        Ok(())
    }

    /// `merge`: merges a box of the other layer into a layer.
    pub fn merge(&mut self, action: &Vec<ActionValue>) -> (r: Result<(), ReplayError>)
        requires
            old(self).wf(),
        ensures
            final(self).wf(),
            final(self).same_setup(old(self)),
            (final(self)@, r is Ok) == merge_action_done(old(self)@, action@),
    {
        if action.len() < 6 {
            return Ok(());
        }
        let layer = match self.layer_slot(action) {
            Some(layer) => layer,
            None => {
                return Ok(());
            },
        };
        if !self.all_numbers(action, 2, 6) {
            return Err(ReplayError::ExpectedNumber);
        }
        let x = self.number_slot(action, 2).to_u32();
        let y = self.number_slot(action, 3).to_u32();
        let width = self.number_slot(action, 4).to_u32();
        let height = self.number_slot(action, 5).to_u32();
        self.do_merge(layer, x, y, width, height);
        Ok(())
    }

    /// Applies one action to the scene.  `outline` holds the sampled
    /// glyph outlines of a `text` action, if a rasteriser made any.
    pub fn execute_action(&mut self, action: &Vec<ActionValue>, outline: Option<&Vec<GlyphSample>>) -> (r:
        Result<(), ReplayError>)
        requires
            old(self).wf(),
        ensures
            final(self).wf(),
            final(self).same_setup(old(self)),
            action_outcome(
                old(self)@,
                action@,
                match outline {
                    Some(v) => Some(v@),
                    None => None,
                },
                final(self)@,
                r is Ok,
            ),
    {
        if action.len() == 0 {
            return Ok(());
        }
        let command = match &action[0] {
            ActionValue::String(s) => s,
            _ => {
                return Ok(());
            },
        };
        if is_op(command, "clearCanvas") {
            self.clear_canvas();
            Ok(())
        } else if is_op(command, "eraseAll") {
            self.erase_all(action);
            Ok(())
        } else if is_op(command, "freeHand") {
            self.free_hand(action)
        } else if is_op(command, "line") {
            self.draw_line(action)
        } else if is_op(command, "bezier") {
            self.draw_bezier(action);
            Ok(())
        } else if is_op(command, "fill") {
            self.fill(action)
        } else if is_op(command, "floodFill") {
            self.flood_fill(action)
        } else if is_op(command, "text") {
            self.draw_text(action, outline)
        } else if is_op(command, "copy") {
            self.copy(action)
        } else if is_op(command, "paste") {
            self.paste(action)
        } else if is_op(command, "merge") {
            self.merge(action)
        } else if is_op(command, "restore") {
            self.restore(action);
            Ok(())
        } else {
            Ok(())
        }
    }

    /// What the scene looks like now.
    pub fn snapshot(&self) -> (f: FrameSet)
        requires
            self.wf(),
        ensures
            frame_shows(f, self@, self.canvas.visible[0], self.canvas.visible[1]),
    {
        let layer0 = match self.canvas.get_layer_as_rgb(0) {
            Some(img) => img,
            None => self.canvas.composite(),
        };
        let layer1 = match self.canvas.get_layer_as_rgb(1) {
            Some(img) => img,
            None => self.canvas.composite(),
        };
        let composite = self.canvas.composite();
        assert(composite@ =~= Map::new(
            |p: (int, int)| in_raster(self@.width, self@.height, p),
            |p: (int, int)|
                composite_pixel(self@.lower[p], self@.upper[p], self.canvas.visible[0], self.canvas.visible[1]),
        ));
        FrameSet { layer0, layer1, composite }
    }

    /// Replays a recording: clears the canvas, applies the actions in
    /// their order, and returns one frame for the blank canvas and one
    /// after each action.  `outlines` holds, for each action by its
    /// place, the sampled glyph outlines of a `text` action, if a
    /// rasteriser made any.  The replay stops at the first action that
    /// needs a number where its slot holds a text.
    pub fn render_frame_by_frame(&mut self, pch: &PchFile, outlines: &Vec<Option<Vec<GlyphSample>>>) -> (r:
        Result<Vec<FrameSet>, ReplayError>)
        requires
            old(self).wf(),
        ensures
            final(self).wf(),
            final(self).same_setup(old(self)),
            match r {
                Ok(frames) => {
                    &&& frames@.len() == pch.actions@.len() + 1
                    &&& all_white(frames@[0])
                    &&& exists|scenes: Seq<Scene>|
                        {
                            &&& #[trigger] replayed(
                                old(self)@,
                                pch.actions@,
                                outlines@,
                                scenes,
                                pch.actions@.len() as int,
                            )
                            &&& final(self)@ == scenes.last()
                            &&& forall|i: int|
                                0 <= i < frames@.len() ==> frame_shows(
                                    #[trigger] frames@[i],
                                    scenes[i],
                                    old(self).canvas.visible[0],
                                    old(self).canvas.visible[1],
                                )
                        }
                },
                Err(_) => exists|scenes: Seq<Scene>, k: int|
                    {
                        &&& 0 <= k < pch.actions@.len()
                        &&& #[trigger] replayed(old(self)@, pch.actions@, outlines@, scenes, k)
                        &&& action_outcome(
                            scenes[k],
                            pch.actions@[k]@,
                            outline_at(outlines@, k),
                            final(self)@,
                            false,
                        )
                    },
            },
    {
        let mut frames: Vec<FrameSet> = Vec::new();
        self.canvas.clear();
        frames.push(self.snapshot());
        let ghost mut scenes: Seq<Scene> = seq![self@];
        proof {
            lemma_cleared_frame_is_white(
                frames@[0],
                old(self)@,
                self.canvas.visible[0],
                self.canvas.visible[1],
            );
        }
        let mut i: usize = 0;
        while i < pch.actions.len()
            invariant
                old(self).wf(),
                self.wf(),
                self.same_setup(old(self)),
                i <= pch.actions@.len(),
                frames@.len() == i + 1,
                all_white(frames@[0]),
                replayed(old(self)@, pch.actions@, outlines@, scenes, i as int),
                self@ == scenes.last(),
                forall|j: int|
                    0 <= j < frames@.len() ==> frame_shows(
                        #[trigger] frames@[j],
                        scenes[j],
                        old(self).canvas.visible[0],
                        old(self).canvas.visible[1],
                    ),
            decreases pch.actions@.len() - i,
        {
            let outline: Option<&Vec<GlyphSample>> = if i < outlines.len() {
                outlines[i].as_ref()
            } else {
                None
            };
            let ghost before = self@;
            match self.execute_action(&pch.actions[i], outline) {
                Ok(()) => {},
                Err(e) => {
                    return Err(e);
                },
            }
            let ghost grown = scenes.push(self@);
            proof {
                assert forall|j: int| 0 <= j < i + 1 implies action_outcome(
                    #[trigger] grown[j],
                    pch.actions@[j]@,
                    outline_at(outlines@, j),
                    grown[j + 1],
                    true,
                ) by {
                    if j < i {
                        assert(grown[j] == scenes[j]);
                        assert(grown[j + 1] == scenes[j + 1]);
                    }
                }
                scenes = grown;
            }
            frames.push(self.snapshot());
            i = i + 1;
        }
        Ok(frames)
    }
}

/// Takes every `a b` off the end of the text `s[..end]`.
fn strip_end_exec(s: &str, end: usize, a: char, b: char) -> (r: usize)
    requires
        end <= s@.len(),
    ensures
        r == strip_end(s@, end as int, a, b),
        r <= end,
{
    let mut e = end;
    while e >= 2
        invariant
            e <= end <= s@.len(),
            strip_end(s@, end as int, a, b) == strip_end(s@, e as int, a, b),
        decreases e,
    {
        if !(s.get_char(e - 2) == a && s.get_char(e - 1) == b) {
            return e;
        }
        e = e - 2;
    }
    e
}

/// Takes the white space off the beginning of the text `s[start..end]`.
fn trim_start_exec(s: &str, start: usize, end: usize) -> (r: usize)
    requires
        start <= end <= s@.len(),
    ensures
        r == trim_start(s@, start as int, end as int),
        start <= r <= end,
{
    let mut i = start;
    while i < end
        invariant
            start <= i <= end <= s@.len(),
            trim_start(s@, start as int, end as int) == trim_start(s@, i as int, end as int),
        decreases end - i,
    {
        if !is_space_exec(s.get_char(i)) {
            return i;
        }
        i = i + 1;
    }
    i
}

/// Takes the white space off the end of the text `s[start..end]`.
fn trim_end_exec(s: &str, start: usize, end: usize) -> (r: usize)
    requires
        start <= end <= s@.len(),
    ensures
        r == trim_end(s@, start as int, end as int),
        start <= r <= end,
{
    let mut e = end;
    while e > start
        invariant
            start <= e <= end <= s@.len(),
            trim_end(s@, start as int, end as int) == trim_end(s@, start as int, e as int),
        decreases e,
    {
        if !is_space_exec(s.get_char(e - 1)) {
            return e;
        }
        e = e - 1;
    }
    e
}

/// Whether `c` is white space.
fn is_space_exec(c: char) -> (r: bool)
    ensures
        r == is_space(c),
{
    (c >= '\u{9}' && c <= '\u{D}') || c == ' ' || c == '\u{85}' || c == '\u{A0}' || c == '\u{1680}' || (c
        >= '\u{2000}' && c <= '\u{200A}') || c == '\u{2028}' || c == '\u{2029}' || c == '\u{202F}' || c
        == '\u{205F}' || c == '\u{3000}'
}

} // verus!

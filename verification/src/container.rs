//! The container of a recording: a header of twelve bytes, and behind it
//! the actions as compressed JSON text.
use vstd::prelude::*;
use vstd::slice::slice_subrange;
use crate::{ActionValue, PchFile, PchHeader};
use crate::dispatch::is_op;
use crate::float::F64;

verus! {

/// The longest container that is read.  The decompressor is only called
/// on payloads so short that its code width stays far below 32 bits.
pub const MAX_CONTAINER_LEN: usize = 0x800_0000;

/// Why a container could not be read.
#[derive(Debug, Clone, Copy, PartialEq, Eq, Structural)]
pub enum PchError {
    /// Fewer than the twelve bytes of the header.
    TooShort,
    /// The first four bytes are not `NEO `.
    BadMagic,
    /// The payload is no compressed text.
    Decompress,
    /// The text is no JSON array of arrays of texts and numbers.
    Json,
}

#[verifier::external_type_specification]
#[verifier::external_body]
pub struct ExJsonValue(serde_json::Value);

#[verifier::external_type_specification]
#[verifier::external_body]
pub struct ExJsonError(serde_json::Error);

/// A JSON value as far as a recording uses it: a number by its value as
/// a double, a text, an array, or anything else.
pub enum Json {
    Number(F64),
    Text(Seq<char>),
    Array(Seq<Json>),
    Other,
}

/// The UTF-16 code units that the `lz_str` array format packs into a
/// payload; nothing for a payload that is no such format.
pub uninterp spec fn lz_decompressed(data: Seq<u8>) -> Option<Seq<u16>>;

/// The JSON value that a text writes; nothing for a text that is no JSON.
pub uninterp spec fn json_parsed(text: Seq<char>) -> Option<Json>;

/// What a `serde_json::Value` holds.
pub uninterp spec fn json_of(v: serde_json::Value) -> Json;

/// `lz_str::decompress_from_uint8_array`: the code units of a payload.
/// A payload of odd length is none; an empty one holds no units.
#[verifier::external_body]
fn lz_decompress(data: &[u8]) -> (r: Option<Vec<u16>>)
    requires
        data@.len() <= MAX_CONTAINER_LEN,
    ensures
        match r {
            Some(units) => lz_decompressed(data@) == Some(units@),
            None => lz_decompressed(data@) is None,
        },
        data@.len() % 2 == 1 ==> r is None,
        data@.len() == 0 ==> r is Some && r->0@.len() == 0,
{
    lz_str::decompress_from_uint8_array(data)
}

/// `char::from_u32`: the character with a code, which every 16-bit code
/// but a surrogate has.
#[verifier::external_body]
fn char_of_unit(unit: u16) -> (r: Option<char>)
    ensures
        r == if 0xD800 <= unit <= 0xDFFF {
            None
        } else {
            Some(unit as char)
        },
{
    char::from_u32(unit as u32)
}

/// `String::push`: appends one character.
#[verifier::external_body]
fn push_char(s: &mut String, c: char)
    ensures
        final(s)@ == old(s)@.push(c),
{
    s.push(c);
}

/// `serde_json::from_str`: the JSON value that a text writes.
#[verifier::external_body]
fn parse_json(text: &str) -> (r: Result<serde_json::Value, serde_json::Error>)
    ensures
        match r {
            Ok(v) => json_parsed(text@) == Some(json_of(v)),
            Err(_) => json_parsed(text@) is None,
        },
{
    serde_json::from_str::<serde_json::Value>(text)
}

/// `Value::as_array`: the items of an array, and nothing for any other
/// value.
#[verifier::external_body]
fn json_items<'a>(v: &'a serde_json::Value) -> (r: Option<Vec<&'a serde_json::Value>>)
    ensures
        match r {
            Some(items) => match json_of(*v) {
                Json::Array(s) => s.len() == items@.len() && forall|i: int|
                    0 <= i < s.len() ==> json_of(*#[trigger] items@[i]) == s[i],
                _ => false,
            },
            None => !(json_of(*v) is Array),
        },
{
    v.as_array().map(|items| items.iter().collect())
}

/// `Value::as_str`: the text of a string, and nothing for any other
/// value.
#[verifier::external_body]
fn json_text(v: &serde_json::Value) -> (r: Option<String>)
    ensures
        match r {
            Some(t) => json_of(*v) == Json::Text(t@),
            None => !(json_of(*v) is Text),
        },
{
    v.as_str().map(|t| t.to_string())
}

/// `Value::as_f64`: a number as a double, and nothing for any other
/// value.
#[verifier::external_body]
fn json_number(v: &serde_json::Value) -> (r: Option<F64>)
    ensures
        match r {
            Some(n) => json_of(*v) == Json::Number(n),
            None => !(json_of(*v) is Number),
        },
{
    v.as_f64().map(|x| F64 { bits: x.to_bits() })
}

/// The text that code units write, one character for each unit that is
/// no surrogate; surrogates are left out.
pub open spec fn text_of(units: Seq<u16>) -> Seq<char>
    decreases units.len(),
{
    if units.len() == 0 {
        Seq::empty()
    } else {
        let before = text_of(units.drop_last());
        let unit = units.last();
        if 0xD800 <= unit <= 0xDFFF {
            before
        } else {
            before.push(unit as char)
        }
    }
}

/// Whether a JSON value can be a slot of an action: a number or a text.
pub open spec fn slot_shaped(j: Json) -> bool {
    j is Number || j is Text
}

/// Whether every one of the values can be a slot.
pub open spec fn slots_shaped(slots: Seq<Json>) -> bool {
    forall|k: int| 0 <= k < slots.len() ==> slot_shaped(#[trigger] slots[k])
}

/// Whether a JSON value can be an action: an array of slots.
pub open spec fn action_shaped(j: Json) -> bool {
    j is Array && slots_shaped(j->Array_0)
}

/// Whether every one of the values can be an action.
pub open spec fn actions_shaped(rows: Seq<Json>) -> bool {
    forall|i: int| 0 <= i < rows.len() ==> action_shaped(#[trigger] rows[i])
}

/// Whether a JSON value can be a recording: an array of actions.
pub open spec fn log_shaped(j: Json) -> bool {
    j is Array && actions_shaped(j->Array_0)
}

/// Whether a slot holds what a JSON value writes.
pub open spec fn slot_matches(j: Json, v: ActionValue) -> bool {
    match j {
        Json::Number(n) => v == ActionValue::Number(n),
        Json::Text(t) => match v {
            ActionValue::String(s) => s@ == t,
            _ => false,
        },
        _ => false,
    }
}

/// Whether an action holds what a JSON value writes.
pub open spec fn action_matches(j: Json, a: Seq<ActionValue>) -> bool {
    match j {
        Json::Array(slots) => slots.len() == a.len() && forall|k: int|
            0 <= k < slots.len() ==> slot_matches(#[trigger] slots[k], a[k]),
        _ => false,
    }
}

/// Whether the actions hold what a JSON value writes.
pub open spec fn log_matches(j: Json, actions: Seq<Vec<ActionValue>>) -> bool {
    match j {
        Json::Array(rows) => rows.len() == actions.len() && forall|i: int|
            0 <= i < rows.len() ==> action_matches(#[trigger] rows[i], actions[i]@),
        _ => false,
    }
}

/// Whether the bytes begin with the magic `NEO `.
pub open spec fn has_magic(data: Seq<u8>) -> bool {
    data[0] == 0x4E && data[1] == 0x45 && data[2] == 0x4F && data[3] == 0x20
}

/// The JSON value in a container, if it holds one.
pub open spec fn container_json(data: Seq<u8>) -> Option<Json> {
    match lz_decompressed(data.subrange(12, data.len() as int)) {
        Some(units) => json_parsed(text_of(units)),
        None => None,
    }
}

/// What is wrong with a container, if anything is.
pub open spec fn container_fault(data: Seq<u8>) -> Option<PchError> {
    if data.len() < 12 {
        Some(PchError::TooShort)
    } else if !has_magic(data) {
        Some(PchError::BadMagic)
    } else if lz_decompressed(data.subrange(12, data.len() as int)) is None {
        Some(PchError::Decompress)
    } else {
        match container_json(data) {
            Some(j) => if log_shaped(j) {
                None
            } else {
                Some(PchError::Json)
            },
            None => Some(PchError::Json),
        }
    }
}

/// Whether a header holds the first twelve bytes of a container: the
/// magic, the width and the height as 16-bit numbers with the low byte
/// first, and four bytes kept as they are.
pub open spec fn header_matches(h: PchHeader, data: Seq<u8>) -> bool {
    &&& h.magic@ == data.subrange(0, 4)
    &&& h.width == data[4] + 0x100 * data[5]
    &&& h.height == data[6] + 0x100 * data[7]
    &&& h.reserved@ == data.subrange(8, 12)
}

/// The text that code units write.
fn units_to_text(units: &Vec<u16>) -> (text: String)
    ensures
        text@ == text_of(units@),
{
    let mut text = String::new();
    let mut i: usize = 0;
    while i < units.len()
        invariant
            i <= units@.len(),
            text@ == text_of(units@.take(i as int)),
        decreases units@.len() - i,
    {
        assert(units@.take(i + 1).drop_last() =~= units@.take(i as int));
        match char_of_unit(units[i]) {
            Some(c) => {
                push_char(&mut text, c);
            },
            None => {},
        }
        i = i + 1;
    }
    assert(units@.take(i as int) =~= units@);
    text
}

/// The slot that a JSON value writes.
fn slot_from_json(v: &serde_json::Value) -> (r: Option<ActionValue>)
    ensures
        match r {
            Some(slot) => slot_matches(json_of(*v), slot),
            None => !slot_shaped(json_of(*v)),
        },
{
    match json_text(v) {
        Some(t) => Some(ActionValue::String(t)),
        None => match json_number(v) {
            Some(n) => Some(ActionValue::Number(n)),
            None => None,
        },
    }
}

/// The action that a JSON value writes.
fn action_from_json(v: &serde_json::Value) -> (r: Option<Vec<ActionValue>>)
    ensures
        match r {
            Some(a) => action_matches(json_of(*v), a@),
            None => !action_shaped(json_of(*v)),
        },
{
    let items = match json_items(v) {
        Some(items) => items,
        None => {
            return None;
        },
    };
    let ghost slots = json_of(*v)->Array_0;
    let mut action: Vec<ActionValue> = Vec::new();
    let mut k: usize = 0;
    while k < items.len()
        invariant
            json_of(*v) == Json::Array(slots),
            slots.len() == items@.len(),
            forall|i: int| 0 <= i < slots.len() ==> json_of(*#[trigger] items@[i]) == slots[i],
            k <= items@.len(),
            action@.len() == k,
            forall|i: int| 0 <= i < k ==> slot_matches(#[trigger] slots[i], action@[i]),
        decreases items@.len() - k,
    {
        match slot_from_json(items[k]) {
            Some(slot) => {
                action.push(slot);
            },
            None => {
                assert(!slot_shaped(slots[k as int]));
                assert(!slots_shaped(slots));
                return None;
            },
        }
        k = k + 1;
    }
    Some(action)
}

/// The actions that a JSON value writes.
pub fn actions_from_json(v: &serde_json::Value) -> (r: Option<Vec<Vec<ActionValue>>>)
    ensures
        match r {
            Some(actions) => log_matches(json_of(*v), actions@),
            None => !log_shaped(json_of(*v)),
        },
{
    let items = match json_items(v) {
        Some(items) => items,
        None => {
            return None;
        },
    };
    let ghost rows = json_of(*v)->Array_0;
    let mut actions: Vec<Vec<ActionValue>> = Vec::new();
    let mut i: usize = 0;
    while i < items.len()
        invariant
            json_of(*v) == Json::Array(rows),
            rows.len() == items@.len(),
            forall|j: int| 0 <= j < rows.len() ==> json_of(*#[trigger] items@[j]) == rows[j],
            i <= items@.len(),
            actions@.len() == i,
            forall|j: int| 0 <= j < i ==> action_matches(#[trigger] rows[j], actions@[j]@),
        decreases items@.len() - i,
    {
        match action_from_json(items[i]) {
            Some(action) => {
                actions.push(action);
            },
            None => {
                assert(!action_shaped(rows[i as int]));
                assert(!actions_shaped(rows));
                return None;
            },
        }
        i = i + 1;
    }
    Some(actions)
}

/// What matches is shaped.
pub proof fn lemma_matches_is_shaped(j: Json, actions: Seq<Vec<ActionValue>>)
    requires
        log_matches(j, actions),
    ensures
        log_shaped(j),
{
    let rows = j->Array_0;
    assert forall|i: int| 0 <= i < rows.len() implies action_shaped(#[trigger] rows[i]) by {
        assert(action_matches(rows[i], actions[i]@));
        let slots = rows[i]->Array_0;
        assert forall|k: int| 0 <= k < slots.len() implies slot_shaped(#[trigger] slots[k]) by {
            assert(slot_matches(slots[k], actions[i]@[k]));
        }
    }
}

/// Whether the slot holds the text `eraseAll`.
pub open spec fn is_erase_all(v: ActionValue) -> bool {
    match v {
        ActionValue::String(s) => s@ == "eraseAll"@,
        _ => false,
    }
}

/// The last place after the first and before `upto` at which an action
/// holds `eraseAll`; 0 if there is none.
pub open spec fn last_cut(a: Seq<ActionValue>, upto: int) -> int
    decreases upto,
{
    if upto <= 1 {
        0
    } else if is_erase_all(a[upto - 1]) {
        upto - 1
    } else {
        last_cut(a, upto - 1)
    }
}

/// An action cut before every `eraseAll` that is not its first slot.
pub open spec fn split_action(a: Seq<ActionValue>) -> Seq<Seq<ActionValue>>
    decreases a.len(),
    via split_action_decreases
{
    let k = last_cut(a, a.len() as int);
    if 0 < k < a.len() {
        split_action(a.take(k)).push(a.skip(k))
    } else {
        seq![a]
    }
}

#[via_fn]
proof fn split_action_decreases(a: Seq<ActionValue>) {
}

/// The actions of a recording, each cut before every `eraseAll` that is
/// not its first slot.
pub open spec fn normalised(actions: Seq<Seq<ActionValue>>) -> Seq<Seq<ActionValue>>
    decreases actions.len(),
{
    if actions.len() == 0 {
        Seq::empty()
    } else {
        normalised(actions.drop_last()) + split_action(actions.last())
    }
}

/// The actions as sequences of slots.
pub open spec fn slots_of(actions: Seq<Vec<ActionValue>>) -> Seq<Seq<ActionValue>> {
    Seq::new(actions.len(), |i: int| actions[i]@)
}

/// The last place at which an action holds `eraseAll` lies within it, and
/// no place after it holds one.
pub proof fn lemma_last_cut(a: Seq<ActionValue>, upto: int)
    requires
        0 <= upto <= a.len(),
    ensures
        0 <= last_cut(a, upto) < upto || (upto == 0 && last_cut(a, upto) == 0),
        last_cut(a, upto) > 0 ==> is_erase_all(a[last_cut(a, upto)]),
        forall|i: int| last_cut(a, upto) < i < upto && 0 < i ==> !is_erase_all(#[trigger] a[i]),
    decreases upto,
{
    if upto > 1 && !is_erase_all(a[upto - 1]) {
        lemma_last_cut(a, upto - 1);
    }
}

/// An action that holds `eraseAll` at no place after the first is not
/// cut.
pub proof fn lemma_whole_action(a: Seq<ActionValue>, upto: int)
    requires
        0 <= upto <= a.len(),
        forall|i: int| 0 < i < upto ==> !is_erase_all(#[trigger] a[i]),
    ensures
        last_cut(a, upto) == 0,
    decreases upto,
{
    if upto > 1 {
        lemma_whole_action(a, upto - 1);
    }
}

/// No piece of a cut action holds `eraseAll` after its first slot, and
/// the pieces make up the action.
pub proof fn lemma_split_action(a: Seq<ActionValue>)
    ensures
        split_action(a).len() >= 1,
        forall|j: int, i: int|
            0 <= j < split_action(a).len() && 0 < i < split_action(a)[j].len() ==> !is_erase_all(
                #[trigger] split_action(a)[j][i],
            ),
        split_action(a).flatten() == a,
    decreases a.len(),
{
    let k = last_cut(a, a.len() as int);
    lemma_last_cut(a, a.len() as int);
    if 0 < k < a.len() {
        let head = split_action(a.take(k));
        let tail = a.skip(k);
        lemma_split_action(a.take(k));
        let all = head.push(tail);
        assert forall|j: int, i: int| 0 <= j < all.len() && 0 < i < all[j].len() implies !is_erase_all(
            #[trigger] all[j][i],
        ) by {
            if j < head.len() {
                assert(all[j] == head[j]);
            } else {
                assert(all[j][i] == a[k + i]);
            }
        }
        assert(all.flatten() == a) by {
            head.lemma_flatten_push(tail);
            assert(a.take(k) + a.skip(k) =~= a);
        }
    } else {
        assert(seq![a].flatten() =~= a) by {
            Seq::<Seq<ActionValue>>::empty().lemma_flatten_push(a);
            assert(Seq::<Seq<ActionValue>>::empty().push(a) =~= seq![a]);
            assert(Seq::<Seq<ActionValue>>::empty().flatten() =~= Seq::<ActionValue>::empty());
        }
    }
}

/// Cutting the pieces of cut actions again changes nothing.
pub proof fn lemma_normalised_twice(actions: Seq<Seq<ActionValue>>)
    ensures
        normalised(normalised(actions)) == normalised(actions),
    decreases actions.len(),
{
    if actions.len() > 0 {
        let head = normalised(actions.drop_last());
        let pieces = split_action(actions.last());
        lemma_normalised_twice(actions.drop_last());
        lemma_split_action(actions.last());
        lemma_normalised_append(head, pieces);
        lemma_pieces_stay(pieces, pieces.len() as int);
        assert(pieces.take(pieces.len() as int) =~= pieces);
    }
}

/// The pieces of a cut action are not cut again.
proof fn lemma_pieces_stay(pieces: Seq<Seq<ActionValue>>, n: int)
    requires
        0 <= n <= pieces.len(),
        forall|j: int, i: int|
            0 <= j < pieces.len() && 0 < i < pieces[j].len() ==> !is_erase_all(#[trigger] pieces[j][i]),
    ensures
        normalised(pieces.take(n)) == pieces.take(n),
    decreases n,
{
    if n > 0 {
        lemma_pieces_stay(pieces, n - 1);
        let piece = pieces[n - 1];
        assert(pieces.take(n).drop_last() =~= pieces.take(n - 1));
        assert(pieces.take(n).last() == piece);
        lemma_whole_action(piece, piece.len() as int);
        assert(pieces.take(n - 1) + seq![piece] =~= pieces.take(n));
    } else {
        assert(pieces.take(0) =~= Seq::<Seq<ActionValue>>::empty());
    }
}

/// Cutting the actions of two recordings put together is cutting each.
proof fn lemma_normalised_append(a: Seq<Seq<ActionValue>>, b: Seq<Seq<ActionValue>>)
    ensures
        normalised(a + b) == normalised(a) + normalised(b),
    decreases b.len(),
{
    if b.len() == 0 {
        assert(a + b =~= a);
        assert(normalised(a) + normalised(b) =~= normalised(a));
    } else {
        lemma_normalised_append(a, b.drop_last());
        assert((a + b).drop_last() =~= a + b.drop_last());
        assert((a + b).last() == b.last());
        assert(normalised(a) + normalised(b.drop_last()) + split_action(b.last()) =~= normalised(a) + (
        normalised(b.drop_last()) + split_action(b.last())));
    }
}

/// The last place after the first at which an action holds `eraseAll`.
fn find_last_cut(action: &Vec<ActionValue>) -> (k: usize)
    ensures
        k == last_cut(action@, action@.len() as int),
        k < action@.len() || k == 0,
{
    let mut upto = action.len();
    while upto > 1
        invariant
            upto <= action@.len(),
            last_cut(action@, action@.len() as int) == last_cut(action@, upto as int),
        decreases upto,
    {
        let found = match &action[upto - 1] {
            ActionValue::String(s) => is_op(s, "eraseAll"),
            _ => false,
        };
        if found {
            return upto - 1;
        }
        upto = upto - 1;
    }
    0
}

impl PchFile {
    /// Reads a container.
    pub fn from_bytes(data: &[u8]) -> (r: Result<PchFile, PchError>)
        requires
            data@.len() <= MAX_CONTAINER_LEN,
        ensures
            match r {
                Ok(f) => container_fault(data@) is None && header_matches(f.header, data@) && log_matches(
                    container_json(data@)->0,
                    f.actions@,
                ),
                Err(e) => container_fault(data@) == Some(e),
            },
    {
        if data.len() < 12 {
            return Err(PchError::TooShort);
        }
        let header = PchHeader {
            magic: [data[0], data[1], data[2], data[3]],
            width: data[4] as u16 + 0x100 * (data[5] as u16),
            height: data[6] as u16 + 0x100 * (data[7] as u16),
            reserved: [data[8], data[9], data[10], data[11]],
        };
        assert(header.magic@ =~= data@.subrange(0, 4));
        assert(header.reserved@ =~= data@.subrange(8, 12));
        if !(data[0] == 0x4E && data[1] == 0x45 && data[2] == 0x4F && data[3] == 0x20) {
            return Err(PchError::BadMagic);
        }
        let payload = slice_subrange(data, 12, data.len());
        let units = match lz_decompress(payload) {
            Some(units) => units,
            None => {
                return Err(PchError::Decompress);
            },
        };
        let text = units_to_text(&units);
        let value = match parse_json(text.as_str()) {
            Ok(value) => value,
            Err(_) => {
                return Err(PchError::Json);
            },
        };
        match actions_from_json(&value) {
            Some(actions) => {
                proof {
                    lemma_matches_is_shaped(json_of(value), actions@);
                }
                Ok(PchFile { header, actions })
            },
            None => Err(PchError::Json),
        }
    }

    /// Cuts every action before each `eraseAll` that is not its first
    /// slot, so that each `eraseAll` begins an action of its own.
    pub fn fix_actions(&mut self)
        ensures
            final(self).header == old(self).header,
            slots_of(final(self).actions@) == normalised(slots_of(old(self).actions@)),
    {
        let ghost start = slots_of(self.actions@);
        let ghost mut done: int = 0;
        let mut i: usize = 0;
        proof {
            assert(start.take(0) =~= Seq::<Seq<ActionValue>>::empty());
            assert(normalised(start.take(0)) + start.skip(0) =~= start);
        }
        while i < self.actions.len()
            invariant
                self.header == old(self).header,
                start == slots_of(old(self).actions@),
                0 <= done <= start.len(),
                i == normalised(start.take(done)).len(),
                slots_of(self.actions@) == normalised(start.take(done)) + start.skip(done),
            decreases start.len() - done,
        {
            let ghost before = slots_of(self.actions@);
            let ghost head = normalised(start.take(done));
            assert(before[i as int] == start.skip(done)[0]);
            let pieces = cut_action(&mut self.actions, i);
            proof {
                let cur = slots_of(self.actions@);
                let cut = split_action(start[done]);
                assert(start.take(done + 1).drop_last() =~= start.take(done));
                assert(start.take(done + 1).last() == start[done]);
                assert(cur =~= (head + cut) + start.skip(done + 1)) by {
                    assert forall|j: int| 0 <= j < cur.len() implies cur[j] == ((head + cut) + start.skip(
                        done + 1,
                    ))[j] by {
                        if j < i {
                            assert(cur[j] == cur.take(i as int)[j]);
                            assert(before[j] == before.take(i as int)[j]);
                        } else if j < i + pieces + 1 {
                            assert(cur[j] == cur.subrange(i as int, i + pieces + 1)[j - i]);
                        } else {
                            assert(cur[j] == cur.skip(i + pieces + 1)[j - i - pieces - 1]);
                            assert(before.skip(i + 1)[j - i - pieces - 1] == start.skip(done + 1)[j - i - pieces
                                - 1]);
                        }
                    }
                }
                done = done + 1;
            }
            let len = self.actions.len();
            assert(i + pieces < len);
            i = i + pieces + 1;
        }
        proof {
            assert(start.skip(done) =~= Seq::<Seq<ActionValue>>::empty());
            assert(start.take(done) =~= start);
            assert(normalised(start) + Seq::<Seq<ActionValue>>::empty() =~= normalised(start));
        }
    }
}

/// Cuts the action at place `i` before each `eraseAll` that is not its
/// first slot, the pieces taking its place in their order.  Returns the
/// number of cuts.
fn cut_action(actions: &mut Vec<Vec<ActionValue>>, i: usize) -> (pieces: usize)
    requires
        i < old(actions)@.len(),
    ensures
        final(actions)@.len() == old(actions)@.len() + pieces,
        slots_of(final(actions)@).take(i as int) == slots_of(old(actions)@).take(i as int),
        slots_of(final(actions)@).subrange(i as int, i + pieces + 1) == split_action(old(actions)@[i as int]@),
        slots_of(final(actions)@).skip(i + pieces + 1) == slots_of(old(actions)@).skip(i + 1),
{
    let ghost want = split_action(actions@[i as int]@);
    let mut pieces: usize = 0;
    proof {
        assert(slots_of(actions@).subrange(i + 1, i + 1) =~= Seq::<Seq<ActionValue>>::empty());
        assert(want + Seq::<Seq<ActionValue>>::empty() =~= want);
    }
    // cut the action from its end: what is cut off needs no more cuts
    loop
        invariant
            i + pieces < actions@.len(),
            actions@.len() == old(actions)@.len() + pieces,
            slots_of(actions@).take(i as int) == slots_of(old(actions)@).take(i as int),
            slots_of(actions@).skip(i + pieces + 1) == slots_of(old(actions)@).skip(i + 1),
            want == split_action(old(actions)@[i as int]@),
            want == split_action(actions@[i as int]@) + slots_of(actions@).subrange(i + 1, i + 1 + pieces),
        decreases actions@[i as int]@.len(),
    {
        let len = actions.len();
        let k = find_last_cut(&actions[i]);
        if k == 0 {
            proof {
                let cur = slots_of(actions@);
                assert(split_action(actions@[i as int]@) == seq![actions@[i as int]@]);
                assert(cur.subrange(i as int, i + pieces + 1) =~= seq![actions@[i as int]@] + cur.subrange(
                    i + 1,
                    i + 1 + pieces,
                ));
            }
            return pieces;
        }
        assert(i + pieces < len);
        let ghost before = actions@;
        let tail = actions[i].split_off(k);
        let ghost mid = actions@;
        actions.insert(i + 1, tail);
        proof {
            let cur = actions@;
            assert(mid.len() == before.len());
            assert(forall|j: int| 0 <= j < mid.len() && j != i ==> mid[j] == before[j]);
            assert(mid[i as int]@ =~= before[i as int]@.take(k as int));
            assert(tail@ =~= before[i as int]@.skip(k as int));
            assert(slots_of(cur).take(i as int) =~= slots_of(before).take(i as int));
            assert(slots_of(cur).skip(i + pieces + 2) =~= slots_of(before).skip(i + pieces + 1));
            assert(slots_of(cur).subrange(i + 1, i + 2 + pieces) =~= seq![tail@] + slots_of(before).subrange(
                i + 1,
                i + 1 + pieces,
            ));
            assert(split_action(before[i as int]@) == split_action(mid[i as int]@).push(tail@));
            assert(split_action(mid[i as int]@).push(tail@) + slots_of(before).subrange(i + 1, i + 1 + pieces)
                =~= split_action(mid[i as int]@) + (seq![tail@] + slots_of(before).subrange(
                i + 1,
                i + 1 + pieces,
            )));
            assert(cur[i as int] == mid[i as int]);
        }
        pieces = pieces + 1;
    }
}

} // verus!

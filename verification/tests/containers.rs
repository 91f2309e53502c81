use neo_replay::container::PchError;
use neo_replay::float::F64;
use neo_replay::renderer::Renderer;
use neo_replay::{ActionValue, PchFile, PchHeader};

fn n(x: f64) -> ActionValue {
    ActionValue::Number(F64 { bits: x.to_bits() })
}

fn s(t: &str) -> ActionValue {
    ActionValue::String(t.to_string())
}

fn same(a: &ActionValue, b: &ActionValue) -> bool {
    match (a, b) {
        (ActionValue::String(x), ActionValue::String(y)) => x == y,
        (ActionValue::Number(x), ActionValue::Number(y)) => x.bits == y.bits,
        (ActionValue::Integer(x), ActionValue::Integer(y)) => x == y,
        _ => false,
    }
}

fn same_log(a: &[Vec<ActionValue>], b: &[Vec<ActionValue>]) -> bool {
    a.len() == b.len()
        && a.iter().zip(b).all(|(x, y)| x.len() == y.len() && x.iter().zip(y).all(|(p, q)| same(p, q)))
}

fn container(width: u16, height: u16, json: &str) -> Vec<u8> {
    let mut data = b"NEO ".to_vec();
    data.extend_from_slice(&width.to_le_bytes());
    data.extend_from_slice(&height.to_le_bytes());
    data.extend_from_slice(&[9, 8, 7, 6]);
    data.extend_from_slice(&lz_str::compress_to_uint8_array(json));
    data
}

fn fault(data: &[u8]) -> PchError {
    match PchFile::from_bytes(data) {
        Err(e) => e,
        Ok(_) => panic!("the container was read"),
    }
}

#[test]
fn a_container_is_read() {
    let json = r#"[["freeHand",0,0,0,0,255,0,0,0,1,0,1,3,3,4,4],["eraseAll",1],["text",0,1.5,-2,4278190335,0.5,"hé \"x\"","27px","Arial"],[]]"#;
    let f = PchFile::from_bytes(&container(640, 480, json)).unwrap();
    assert_eq!(f.header.magic, *b"NEO ");
    assert_eq!((f.header.width, f.header.height), (640, 480));
    assert_eq!(f.header.reserved, [9, 8, 7, 6]);
    let want = vec![
        vec![
            s("freeHand"), n(0.), n(0.), n(0.), n(0.), n(255.), n(0.), n(0.), n(0.), n(1.), n(0.), n(1.),
            n(3.), n(3.), n(4.), n(4.),
        ],
        vec![s("eraseAll"), n(1.)],
        vec![s("text"), n(0.), n(1.5), n(-2.), n(4278190335.), n(0.5), s("h\u{e9} \"x\""), s("27px"), s("Arial")],
        vec![],
    ];
    assert!(same_log(&f.actions, &want), "{:?}", f.actions);
}

#[test]
fn header_numbers_have_the_low_byte_first() {
    let f = PchFile::from_bytes(&container(0x1234, 0xFFFE, "[]")).unwrap();
    assert_eq!((f.header.width, f.header.height), (0x1234, 0xFFFE));
    assert!(f.actions.is_empty());
}

#[test]
fn characters_beyond_the_basic_plane_are_left_out() {
    // the two surrogates of one character are both dropped
    let f = PchFile::from_bytes(&container(1, 1, "[[\"a\u{1F600}b\u{FFFD}\"]]")).unwrap();
    assert!(same_log(&f.actions, &[vec![s("ab\u{FFFD}")]]));
}

#[test]
fn short_containers_are_refused() {
    assert_eq!(fault(b""), PchError::TooShort);
    assert_eq!(fault(b"NEO "), PchError::TooShort);
    assert_eq!(fault(b"NEO \x01\x00\x01\x00\x00\x00\x00"), PchError::TooShort);
    assert_eq!(fault(b"XXXXXXXXXXX"), PchError::TooShort);
}

#[test]
fn another_magic_is_refused() {
    let mut data = container(2, 2, "[]");
    data[3] = b'_';
    assert_eq!(fault(&data), PchError::BadMagic);
    let mut data = container(2, 2, "[]");
    data[0] = b'n';
    assert_eq!(fault(&data), PchError::BadMagic);
    assert_eq!(fault(b"neo \x01\x00\x01\x00\x00\x00\x00\x00"), PchError::BadMagic);
}

#[test]
fn a_payload_that_is_not_compressed_text_is_refused() {
    let mut data = container(2, 2, "[]");
    data.push(0);
    assert_eq!(data.len() % 2, 1);
    assert_eq!(fault(&data), PchError::Decompress);
    let mut data = b"NEO \x01\x00\x01\x00\x00\x00\x00\x00".to_vec();
    data.extend_from_slice(&[0xFF, 0xFF, 0xFF, 0xFF, 0xFF, 0xFF]);
    assert!(matches!(fault(&data), PchError::Decompress | PchError::Json));
}

#[test]
fn text_that_is_no_log_is_refused() {
    for json in [
        "", "[", "nonsense", "{}", "3", "\"x\"", "null", "[1]", "[[1],2]", "[[null]]", "[[true]]",
        "[[[1]]]", "[[{\"a\":1}]]", "[[1,2] [3]]", "[[1e999]]", "[[1]],",
    ] {
        assert_eq!(fault(&container(2, 2, json)), PchError::Json, "{:?}", json);
    }
    // a header alone holds an empty text
    assert_eq!(fault(b"NEO \x01\x00\x01\x00\x00\x00\x00\x00"), PchError::Json);
}

#[test]
fn numbers_are_read_as_doubles() {
    let f = PchFile::from_bytes(&container(1, 1, "[[0.1, -0, 1e3, 18446744073709551615, -9223372036854775808, 1.7976931348623157e308]]")).unwrap();
    let want = vec![vec![
        n(0.1),
        n(-0.0),
        n(1000.0),
        n(18446744073709551615u64 as f64),
        n(-9223372036854775808i64 as f64),
        n(f64::MAX),
    ]];
    assert!(same_log(&f.actions, &want), "{:?}", f.actions);
}

fn with_actions(actions: Vec<Vec<ActionValue>>) -> PchFile {
    PchFile { header: PchHeader { magic: *b"NEO ", width: 8, height: 8, reserved: [0; 4] }, actions }
}

#[test]
fn an_erase_all_in_the_middle_begins_its_own_action() {
    let stroke = vec![
        s("freeHand"), n(0.), n(0.), n(0.), n(0.), n(255.), n(0.), n(0.), n(0.), n(1.), n(0.), n(1.), n(3.),
        n(3.), n(4.), n(4.),
    ];
    let mut joined = stroke.clone();
    joined.push(s("eraseAll"));
    joined.push(n(1.));
    let mut f = with_actions(vec![joined]);
    f.fix_actions();
    let want = vec![stroke.clone(), vec![s("eraseAll"), n(1.)]];
    assert!(same_log(&f.actions, &want), "{:?}", f.actions);
    // the replay of the cut log is the replay of the two actions
    let mut a = Renderer::new(8, 8);
    let mut b = Renderer::new(8, 8);
    let frames = a.render_frame_by_frame(&f, &Vec::new()).unwrap();
    assert_eq!(frames.len(), 3);
    b.render_frame_by_frame(&with_actions(want), &Vec::new()).unwrap();
    for l in 0..2 {
        for y in 0..8 {
            for x in 0..8 {
                assert_eq!(a.canvas.layers[l].pixel(x, y), b.canvas.layers[l].pixel(x, y));
            }
        }
    }
    assert_eq!(a.canvas.layers[0].pixel(3, 3).unwrap().a, 255);
}

#[test]
fn every_erase_all_after_the_first_slot_cuts() {
    let mut f = with_actions(vec![
        vec![s("eraseAll"), n(0.)],
        vec![s("line"), n(1.), s("eraseAll"), n(0.), s("eraseAll"), s("eraseAll"), n(1.), s("x")],
        vec![],
        vec![n(1.), s("eraseAll")],
        vec![s("eraseall"), s("EraseAll"), ActionValue::Integer(3)],
        vec![s("eraseAll"), s("eraseAll")],
    ]);
    f.fix_actions();
    let want = vec![
        vec![s("eraseAll"), n(0.)],
        vec![s("line"), n(1.)],
        vec![s("eraseAll"), n(0.)],
        vec![s("eraseAll")],
        vec![s("eraseAll"), n(1.), s("x")],
        vec![],
        vec![n(1.)],
        vec![s("eraseAll")],
        vec![s("eraseall"), s("EraseAll"), ActionValue::Integer(3)],
        vec![s("eraseAll")],
        vec![s("eraseAll")],
    ];
    assert!(same_log(&f.actions, &want), "{:?}", f.actions);
    f.fix_actions();
    assert!(same_log(&f.actions, &want), "{:?}", f.actions);
    assert_eq!(f.header.width, 8);
}

#[test]
fn a_log_without_erase_all_stays_as_it_is() {
    let actions = vec![vec![s("copy"), n(0.)], vec![], vec![s("x")]];
    let mut f = with_actions(actions.clone());
    f.fix_actions();
    assert!(same_log(&f.actions, &actions));
    let mut empty = with_actions(vec![]);
    empty.fix_actions();
    assert!(empty.actions.is_empty());
}

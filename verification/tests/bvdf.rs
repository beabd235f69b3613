use slinky::bvdf::{decode, decode_int, decode_map, decode_str, encode, DecodeError, MAX_DEPTH};
use slinky::value::{Text, Val, VdfMap};

fn text(s: &str) -> Text {
    Text::new(s.as_bytes().to_vec()).unwrap()
}

/// A canonical document: a nested map with a text, an integer and an
/// empty map inside, then a text at the top level.
fn canonical() -> Vec<u8> {
    let mut b = Vec::new();
    b.extend_from_slice(b"\x00shortcuts\x00");
    b.extend_from_slice(b"\x000\x00");
    b.extend_from_slice(b"\x02appid\x00\x05\x2c\x13\xa6");
    b.extend_from_slice(b"\x01AppName\x00Anki\x00");
    b.extend_from_slice(b"\x00tags\x00\x08");
    b.extend_from_slice(b"\x08");
    b.extend_from_slice(b"\x08");
    b.extend_from_slice(b"\x01version\x001\x00");
    b.extend_from_slice(b"\x08");
    b
}

fn nested(depth: usize) -> Vec<u8> {
    let mut b = Vec::new();
    for _ in 0..depth {
        b.extend_from_slice(b"\x00k\x00");
    }
    for _ in 0..depth {
        b.push(0x08);
    }
    b.push(0x08);
    b
}

#[test]
fn decode_reads_the_tree() {
    let doc = decode(&canonical()).unwrap();
    assert_eq!(doc.len(), 2);
    let (key, value) = doc.get_index(0).unwrap();
    assert_eq!(key, b"shortcuts");
    let shortcuts = match value {
        Val::Nested(m) => m,
        other => panic!("not a map: {:?}", other),
    };
    assert_eq!(shortcuts.len(), 1);
    let first = match shortcuts.get(b"0") {
        Some(Val::Nested(m)) => m,
        other => panic!("not a map: {:?}", other),
    };
    assert_eq!(first.len(), 3);
    assert!(matches!(first.get(b"appid"), Some(Val::Int(2786274309))));
    match first.get(b"AppName") {
        Some(Val::Str(t)) => assert_eq!(t.as_bytes(), b"Anki"),
        other => panic!("not a text: {:?}", other),
    }
    match first.get_index(2) {
        Some((key, Val::Nested(tags))) => {
            assert_eq!(key, b"tags");
            assert_eq!(tags.len(), 0);
        },
        other => panic!("not a map: {:?}", other),
    }
    assert!(first.get(b"appname").is_none());
    match doc.get_index(1) {
        Some((key, Val::Str(t))) => {
            assert_eq!(key, b"version");
            assert_eq!(t.as_bytes(), b"1");
        },
        other => panic!("not a text: {:?}", other),
    }
    assert!(doc.get_index(2).is_none());
}

#[test]
fn encode_writes_every_entry_and_closes_every_map() {
    let mut tags = VdfMap::new();
    tags.insert(text("0"), Val::Str(text("favorite")));
    let mut doc = VdfMap::new();
    doc.insert(text("appid"), Val::Int(0x12345678));
    doc.insert(text("tags"), Val::Nested(tags));
    doc.insert(text(""), Val::Str(text("")));
    assert_eq!(
        encode(&doc),
        b"\x02appid\x00\x78\x56\x34\x12\x00tags\x00\x010\x00favorite\x00\x08\x01\x00\x00\x08"
            .to_vec()
    );
    assert_eq!(encode(&VdfMap::new()), vec![0x08]);
}

#[test]
fn canonical_buffer_round_trips() {
    let b = canonical();
    assert_eq!(encode(&decode(&b).unwrap()), b);
    let deep = nested(MAX_DEPTH);
    assert_eq!(encode(&decode(&deep).unwrap()), deep);
    assert_eq!(encode(&decode(b"\x08").unwrap()), b"\x08".to_vec());
}

#[test]
fn decoding_what_was_encoded_gives_the_same_tree() {
    let mut inner = VdfMap::new();
    inner.insert(text("n"), Val::Int(u32::MAX));
    inner.insert(text("s"), Val::Str(text("text")));
    let mut doc = VdfMap::new();
    doc.insert(text("inner"), Val::Nested(inner));
    doc.insert(text("z"), Val::Int(0));
    let bytes = encode(&doc);
    let back = decode(&bytes).unwrap();
    assert_eq!(back.len(), 2);
    assert_eq!(encode(&back), bytes);
    match back.get(b"inner") {
        Some(Val::Nested(m)) => {
            assert!(matches!(m.get(b"n"), Some(Val::Int(u32::MAX))));
            assert_eq!(m.get_index(1).unwrap().0, b"s");
        },
        other => panic!("not a map: {:?}", other),
    }
}

#[test]
fn reencoding_is_idempotent() {
    // Not canonical: no end marker at the top, a key twice, bytes after nothing.
    let b = b"\x01k\x00first\x00\x02n\x00\x01\x00\x00\x00\x01k\x00second\x00".to_vec();
    let once = encode(&decode(&b).unwrap());
    assert_ne!(once, b);
    assert_eq!(once, b"\x01k\x00second\x00\x02n\x00\x01\x00\x00\x00\x08".to_vec());
    let twice = encode(&decode(&once).unwrap());
    assert_eq!(twice, once);
}

#[test]
fn top_level_may_end_with_the_buffer() {
    let doc = decode(b"\x02n\x00\x2a\x00\x00\x00").unwrap();
    assert_eq!(doc.len(), 1);
    assert!(matches!(doc.get(b"n"), Some(Val::Int(42))));
    assert_eq!(decode(b"").unwrap().len(), 0);
    // What follows the end marker of the top level is not read.
    assert_eq!(decode(b"\x08\xff\xff").unwrap().len(), 0);
}

#[test]
fn nested_map_must_be_closed() {
    assert_eq!(decode(b"\x00m\x00").unwrap_err(), DecodeError::UnexpectedEndOfInput);
    assert_eq!(
        decode(b"\x00m\x00\x02n\x00\x01\x00\x00\x00").unwrap_err(),
        DecodeError::UnexpectedEndOfInput
    );
    assert!(decode(b"\x00m\x00\x08").is_ok());
}

#[test]
fn truncation_inside_a_field_is_reported() {
    let b = canonical();
    // Positions at which a tag is due at the top level: the buffer may end there.
    let top_tags = [0usize, 48, 59];
    for i in 0..b.len() {
        let result = decode(&b[..i]);
        if top_tags.contains(&i) {
            assert!(result.is_ok(), "cut at {}", i);
        } else {
            assert_eq!(result.unwrap_err(), DecodeError::UnexpectedEndOfInput, "cut at {}", i);
        }
    }
    // Inside the four bytes of an integer.
    assert_eq!(decode(b"\x02n\x00\x01\x02").unwrap_err(), DecodeError::UnexpectedEndOfInput);
    assert_eq!(decode(b"\x02n\x00").unwrap_err(), DecodeError::UnexpectedEndOfInput);
    // Before the terminator of a key and of a text.
    assert_eq!(decode(b"\x01ke").unwrap_err(), DecodeError::UnexpectedEndOfInput);
    assert_eq!(decode(b"\x01k\x00tex").unwrap_err(), DecodeError::UnexpectedEndOfInput);
}

#[test]
fn unknown_tag_is_rejected_where_it_stands() {
    let b = canonical();
    let tags = [0usize, 11, 14, 25, 39, 45, 46, 47, 48, 59];
    for &p in tags.iter() {
        for bad in [0x03u8, 0x07, 0x09, 0x41, 0xff] {
            let mut broken = b.clone();
            broken[p] = bad;
            assert_eq!(
                decode(&broken).unwrap_err(),
                DecodeError::InvalidMapItemPrefix { position: p },
                "tag at {}",
                p
            );
        }
    }
    assert_eq!(decode(b"\x05").unwrap_err(), DecodeError::InvalidMapItemPrefix { position: 0 });
}

#[test]
fn nesting_is_bounded() {
    assert!(decode(&nested(MAX_DEPTH)).is_ok());
    assert_eq!(decode(&nested(MAX_DEPTH + 1)).unwrap_err(), DecodeError::NestingTooDeep);
    let mut endless = Vec::new();
    for _ in 0..100_000 {
        endless.extend_from_slice(b"\x00\x00");
    }
    assert_eq!(decode(&endless).unwrap_err(), DecodeError::NestingTooDeep);
}

#[test]
fn repeated_key_keeps_its_place_and_takes_the_last_value() {
    let doc = decode(b"\x02a\x00\x01\x00\x00\x00\x02b\x00\x02\x00\x00\x00\x01a\x00x\x00\x08").unwrap();
    assert_eq!(doc.len(), 2);
    match doc.get_index(0) {
        Some((key, Val::Str(t))) => {
            assert_eq!(key, b"a");
            assert_eq!(t.as_bytes(), b"x");
        },
        other => panic!("not a text: {:?}", other),
    }
    assert_eq!(doc.get_index(1).unwrap().0, b"b");
}

#[test]
fn pieces_are_read_at_a_position() {
    let b = b"\x01key\x00\x78\x56\x34\x12";
    let (key, next) = decode_str(b, 1).unwrap();
    assert_eq!(key.as_bytes(), b"key");
    assert_eq!(next, 5);
    assert_eq!(decode_int(b, next).unwrap(), (0x12345678, 9));
    assert_eq!(decode_int(b, 6).unwrap_err(), DecodeError::UnexpectedEndOfInput);
    assert_eq!(decode_str(b, 5).unwrap_err(), DecodeError::UnexpectedEndOfInput);
    assert_eq!(decode_str(b, 4).unwrap().1, 5);
    let (map, end) = decode_map(b"\x08\x02n\x00\x01\x00\x00\x00\x08rest", 1, 0, false).unwrap();
    assert_eq!(map.len(), 1);
    assert_eq!(end, 9);
    assert_eq!(
        decode_map(b"\x00m\x00\x08\x08", 0, 0, true).unwrap_err(),
        DecodeError::NestingTooDeep
    );
}

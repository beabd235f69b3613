use slinky::value::{Text, Val, VdfMap};

fn text(s: &str) -> Text {
    Text::new(s.as_bytes().to_vec()).unwrap()
}

#[test]
fn text_holds_no_zero_byte() {
    assert!(Text::new(b"a\x00b".to_vec()).is_none());
    assert!(Text::new(vec![0]).is_none());
    assert!(Text::new(b"tail\x00".to_vec()).is_none());
    let t = Text::new(b"plain".to_vec()).unwrap();
    assert_eq!(t.as_bytes(), b"plain");
    assert_eq!(t.len(), 5);
    let empty = Text::new(Vec::new()).unwrap();
    assert_eq!(empty.len(), 0);
    assert_eq!(Text::new(vec![0xff, 0x01]).unwrap().as_bytes(), &[0xff, 0x01]);
}

#[test]
fn insert_appends_new_keys_in_order() {
    let mut m = VdfMap::new();
    assert_eq!(m.len(), 0);
    assert!(m.insert(text("b"), Val::Int(1)).is_none());
    assert!(m.insert(text("a"), Val::Int(2)).is_none());
    assert!(m.insert(text("c"), Val::Str(text("x"))).is_none());
    assert_eq!(m.len(), 3);
    let keys: Vec<&[u8]> = (0..m.len()).map(|i| m.get_index(i).unwrap().0).collect();
    assert_eq!(keys, vec![b"b".as_slice(), b"a".as_slice(), b"c".as_slice()]);
    assert!(m.get_index(3).is_none());
}

#[test]
fn insert_replaces_in_place() {
    let mut m = VdfMap::new();
    m.insert(text("first"), Val::Int(1));
    m.insert(text("second"), Val::Int(2));
    m.insert(text("third"), Val::Int(3));
    let old = m.insert(text("second"), Val::Str(text("two")));
    assert!(matches!(old, Some(Val::Int(2))));
    assert_eq!(m.len(), 3);
    match m.get_index(1) {
        Some((key, Val::Str(t))) => {
            assert_eq!(key, b"second");
            assert_eq!(t.as_bytes(), b"two");
        },
        other => panic!("not replaced in place: {:?}", other),
    }
    assert!(matches!(m.get_index(0), Some((_, Val::Int(1)))));
    assert!(matches!(m.get_index(2), Some((_, Val::Int(3)))));
    let old = m.insert(text("third"), Val::Int(33));
    assert!(matches!(old, Some(Val::Int(3))));
    assert!(matches!(m.get(b"third"), Some(Val::Int(33))));
}

#[test]
fn lookup_finds_by_exact_key() {
    let mut m = VdfMap::new();
    m.insert(text("AppName"), Val::Str(text("Anki")));
    m.insert(text(""), Val::Int(9));
    assert!(matches!(m.get(b""), Some(Val::Int(9))));
    assert!(m.get(b"appname").is_none());
    assert!(m.get(b"AppName\x00").is_none());
    match m.get(b"AppName") {
        Some(Val::Str(t)) => assert_eq!(t.as_bytes(), b"Anki"),
        other => panic!("not found: {:?}", other),
    }
}

#[test]
fn logo_sits_at_the_bottom_left_by_default() {
    assert_eq!(
        slinky::rich::ShortcutLogoPosition::default(),
        slinky::rich::ShortcutLogoPosition::BottomLeft
    );
}

#[test]
fn clone_copies_the_whole_tree() {
    let mut inner = VdfMap::new();
    inner.insert(text("x"), Val::Int(1));
    let mut m = VdfMap::new();
    m.insert(text("inner"), Val::Nested(inner));
    m.insert(text("t"), Val::Str(text("v")));
    let mut copy = m.clone();
    assert_eq!(slinky::bvdf::encode(&copy), slinky::bvdf::encode(&m));
    copy.insert(text("t"), Val::Int(2));
    copy.insert(text("new"), Val::Int(3));
    assert_eq!(m.len(), 2);
    assert!(matches!(m.get(b"t"), Some(Val::Str(_))));
    assert_eq!(copy.len(), 3);
    assert_eq!(text("abc").clone(), text("abc"));
}

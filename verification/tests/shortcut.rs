use slinky::bvdf::{decode, encode};
use slinky::shortcut::{
    after_many_case_insensitive, appid_marker_bytes, derive_app_id, dir_marker_bytes,
    exe_marker_bytes, extract_shortcuts, has_unique_leading_byte, maybe_u8_eq_ignore_ascii_case,
    name_marker_bytes, parse_shortcuts, parse_value_str, parse_value_u32, shortcut_app_id,
    steam_long_id, Shortcut,
};

fn text_entry(buf: &mut Vec<u8>, key: &str, value: &[u8]) {
    buf.push(0x01);
    buf.extend_from_slice(key.as_bytes());
    buf.push(0x00);
    buf.extend_from_slice(value);
    buf.push(0x00);
}

fn int_entry(buf: &mut Vec<u8>, key: &str, value: u32) {
    buf.push(0x02);
    buf.extend_from_slice(key.as_bytes());
    buf.push(0x00);
    buf.extend_from_slice(&value.to_le_bytes());
}

fn open_map(buf: &mut Vec<u8>, key: &str) {
    buf.push(0x00);
    buf.extend_from_slice(key.as_bytes());
    buf.push(0x00);
}

/// One record as Steam writes it, between the keys given.
fn record(
    buf: &mut Vec<u8>,
    index: &str,
    keys: [&str; 4],
    appid: u32,
    name: &str,
    exe: &str,
    dir: &str,
) {
    open_map(buf, index);
    int_entry(buf, keys[0], appid);
    text_entry(buf, keys[1], name.as_bytes());
    text_entry(buf, keys[2], exe.as_bytes());
    text_entry(buf, keys[3], dir.as_bytes());
    text_entry(buf, "icon", b"");
    text_entry(buf, "ShortcutPath", b"");
    text_entry(buf, "LaunchOptions", b"");
    int_entry(buf, "IsHidden", 0);
    int_entry(buf, "AllowDesktopConfig", 1);
    int_entry(buf, "AllowOverlay", 1);
    int_entry(buf, "OpenVR", 0);
    int_entry(buf, "Devkit", 0);
    text_entry(buf, "DevkitGameID", b"");
    int_entry(buf, "DevkitOverrideAppID", 0);
    int_entry(buf, "LastPlayTime", 0);
    text_entry(buf, "FlatpakAppID", b"");
    open_map(buf, "tags");
    buf.push(0x08);
    buf.push(0x08);
}

const CANONICAL_KEYS: [&str; 4] = ["appid", "AppName", "Exe", "StartDir"];

fn sample_shortcuts() -> Vec<u8> {
    let mut buf = Vec::new();
    open_map(&mut buf, "shortcuts");
    record(&mut buf, "0", CANONICAL_KEYS, 2786274309, "Anki", "\"anki\"", "\"./\"");
    record(
        &mut buf,
        "1",
        CANONICAL_KEYS,
        2492174738,
        "LibreOffice Calc",
        "\"libreoffice\"",
        "\"./\"",
    );
    record(
        &mut buf,
        "2",
        CANONICAL_KEYS,
        3703025501,
        "foo.sh",
        "\"/usr/local/bin/foo.sh\"",
        "\"/usr/local/bin/\"",
    );
    buf.push(0x08);
    buf.push(0x08);
    buf
}

fn sample_shortcuts_with_keys(keys: [&str; 4]) -> Vec<u8> {
    let mut buf = Vec::new();
    open_map(&mut buf, "shortcuts");
    record(
        &mut buf,
        "0",
        keys,
        2931025216,
        "Second Life",
        "\"/Applications/Second Life Viewer.app\"",
        "\"/Applications/\"",
    );
    buf.push(0x08);
    buf.push(0x08);
    buf
}

fn second_life() -> Shortcut {
    Shortcut {
        appid: 2931025216,
        app_name: "Second Life".into(),
        executable: "\"/Applications/Second Life Viewer.app\"".into(),
        start_dir: "\"/Applications/\"".into(),
    }
}

#[test]
fn sanity() {
    let contents = sample_shortcuts();
    let shortcuts = parse_shortcuts(&contents).unwrap();
    assert_eq!(
        shortcuts,
        vec![
            Shortcut {
                appid: 2786274309,
                app_name: "Anki".into(),
                executable: "\"anki\"".into(),
                start_dir: "\"./\"".into(),
            },
            Shortcut {
                appid: 2492174738,
                app_name: "LibreOffice Calc".into(),
                executable: "\"libreoffice\"".into(),
                start_dir: "\"./\"".into(),
            },
            Shortcut {
                appid: 3703025501,
                app_name: "foo.sh".into(),
                executable: "\"/usr/local/bin/foo.sh\"".into(),
                start_dir: "\"/usr/local/bin/\"".into(),
            }
        ],
    );

    let contents = sample_shortcuts_with_keys(["AppId", "appname", "exe", "startdir"]);
    let shortcuts = parse_shortcuts(&contents).unwrap();
    assert_eq!(
        shortcuts,
        vec![Shortcut {
            appid: 2931025216,
            app_name: "Second Life".into(),
            executable: "\"/Applications/Second Life Viewer.app\"".into(),
            start_dir: "\"/Applications/\"".into(),
        }]
    );
}

#[test]
fn shortcuts_extras() {
    let contents = sample_shortcuts();
    let shortcuts = parse_shortcuts(&contents).unwrap();
    let ideal_ids: Vec<u64> = vec![0xe89614fe02000000, 0xdb01c79902000000, 0x9d55017302000000];
    assert_eq!(shortcuts.len(), ideal_ids.len());
    for (id, shortcut) in ideal_ids.into_iter().zip(shortcuts.iter()) {
        // The ideal id is the one that Steam derives from executable and name.
        let derived = Shortcut::new(shortcut.app_name.clone(), shortcut.executable.clone());
        assert_eq!(id, derived.steam_id());
        // The id of the record itself follows the app id that the file holds.
        assert_eq!(shortcut.steam_id(), ((shortcut.appid as u64) << 32) | 0x02000000);
    }
}

#[test]
fn extract_returns_the_three_records_in_order() {
    let shortcuts = extract_shortcuts(&sample_shortcuts());
    let names: Vec<&str> = shortcuts.iter().map(|s| s.app_name.as_str()).collect();
    assert_eq!(names, vec!["Anki", "LibreOffice Calc", "foo.sh"]);
    let ids: Vec<u32> = shortcuts.iter().map(|s| s.appid).collect();
    assert_eq!(ids, vec![2786274309, 2492174738, 3703025501]);
    assert_eq!(Some(shortcuts), parse_shortcuts(&sample_shortcuts()));
}

#[test]
fn keys_match_in_any_letter_case() {
    let canonical = extract_shortcuts(&sample_shortcuts_with_keys(CANONICAL_KEYS));
    let upper =
        extract_shortcuts(&sample_shortcuts_with_keys(["APPID", "APPNAME", "EXE", "STARTDIR"]));
    let lower =
        extract_shortcuts(&sample_shortcuts_with_keys(["appid", "appname", "exe", "startdir"]));
    assert_eq!(canonical, vec![second_life()]);
    assert_eq!(upper, canonical);
    assert_eq!(lower, canonical);
}

#[test]
fn tag_byte_of_a_marker_is_matched_exactly() {
    // "Bappid\0": the letter B is 0x42, which no folding turns into the tag 0x02.
    let mut buf = vec![0x42];
    buf.extend_from_slice(b"appid\x00\x01\x00\x00\x00");
    assert_eq!(extract_shortcuts(&buf), vec![]);
    assert_eq!(after_many_case_insensitive(b"xAbC", 0, b"abc"), None);
    assert_eq!(after_many_case_insensitive(b"xaBC", 0, b"abc"), Some(4));
}

#[test]
fn empty_and_foreign_buffers_hold_no_record() {
    assert_eq!(extract_shortcuts(b""), vec![]);
    assert_eq!(parse_shortcuts(b""), Some(vec![]));
    assert_eq!(extract_shortcuts(b"neither keys nor values"), vec![]);
    assert_eq!(parse_shortcuts(b"\x00shortcuts\x00\x08\x08"), Some(vec![]));
}

#[test]
fn a_record_cut_short_is_left_out() {
    let whole = sample_shortcuts();
    let full = extract_shortcuts(&whole);
    // Cut inside the name of the third record.
    let third = whole.windows(6).rposition(|w| w == b"foo.sh").unwrap();
    let cut = &whole[..third + 3];
    assert_eq!(extract_shortcuts(cut), full[..2].to_vec());
    assert_eq!(parse_shortcuts(cut), Some(full[..2].to_vec()));
    // Cut inside the four bytes of the first id.
    let first_id = whole.windows(7).position(|w| w == b"\x02appid\x00").unwrap() + 7;
    assert_eq!(extract_shortcuts(&whole[..first_id + 2]), vec![]);
    assert_eq!(parse_shortcuts(&whole[..first_id + 2]), Some(vec![]));
    // Cut after the executable of the second record: the start dir is missing.
    let second_exe = whole.windows(13).position(|w| w == b"\"libreoffice\"").unwrap() + 14;
    assert_eq!(extract_shortcuts(&whole[..second_exe]), full[..1].to_vec());
    assert_eq!(parse_shortcuts(&whole[..second_exe]), Some(full[..1].to_vec()));
}

#[test]
fn unknown_fields_between_the_keys_are_passed_over() {
    let mut buf = Vec::new();
    int_entry(&mut buf, "appid", 7);
    int_entry(&mut buf, "extra", 99);
    text_entry(&mut buf, "AppName", b"Game");
    text_entry(&mut buf, "note", b"x");
    text_entry(&mut buf, "Exe", b"/bin/game");
    text_entry(&mut buf, "StartDir", b"/bin");
    assert_eq!(
        extract_shortcuts(&buf),
        vec![Shortcut {
            appid: 7,
            app_name: "Game".into(),
            executable: "/bin/game".into(),
            start_dir: "/bin".into(),
        }]
    );
}

#[test]
fn text_that_is_not_utf8_is_replaced() {
    let mut buf = Vec::new();
    int_entry(&mut buf, "appid", 1);
    text_entry(&mut buf, "AppName", b"a\xffb");
    text_entry(&mut buf, "Exe", "caf\u{e9}".as_bytes());
    text_entry(&mut buf, "StartDir", b"");
    let shortcuts = extract_shortcuts(&buf);
    assert_eq!(shortcuts.len(), 1);
    assert_eq!(shortcuts[0].app_name, "a\u{fffd}b");
    assert_eq!(shortcuts[0].executable, "caf\u{e9}");
    assert_eq!(shortcuts[0].start_dir, "");
}

#[test]
fn scan_finds_the_first_match_and_stops_behind_it() {
    let hay = b"..\x01ex\x01EXE\x00rest\x01exe\x00";
    assert_eq!(after_many_case_insensitive(hay, 0, b"\x01Exe\x00"), Some(10));
    assert_eq!(after_many_case_insensitive(hay, 6, b"\x01Exe\x00"), Some(19));
    assert_eq!(after_many_case_insensitive(hay, 15, b"\x01Exe\x00"), None);
    assert_eq!(after_many_case_insensitive(hay, 100, b"\x01Exe\x00"), None);
    assert_eq!(after_many_case_insensitive(hay, 0, b""), None);
    assert_eq!(after_many_case_insensitive(b"\x01", 0, b"\x01"), Some(1));
}

#[test]
fn bytes_compare_up_to_ascii_case() {
    assert!(maybe_u8_eq_ignore_ascii_case(Some(b'a'), Some(b'A')));
    assert!(maybe_u8_eq_ignore_ascii_case(Some(b'Z'), Some(b'z')));
    assert!(maybe_u8_eq_ignore_ascii_case(Some(0), Some(0)));
    assert!(!maybe_u8_eq_ignore_ascii_case(Some(b'a'), Some(b'b')));
    assert!(!maybe_u8_eq_ignore_ascii_case(Some(b'@'), Some(b'`')));
    assert!(!maybe_u8_eq_ignore_ascii_case(Some(b'['), Some(b'{')));
    assert!(!maybe_u8_eq_ignore_ascii_case(None, Some(b'a')));
    assert!(!maybe_u8_eq_ignore_ascii_case(Some(b'a'), None));
    assert!(!maybe_u8_eq_ignore_ascii_case(None, None));
}

#[test]
fn values_are_read_at_the_cursor() {
    assert_eq!(parse_value_u32(b"\x78\x56\x34\x12", 0), Some((0x12345678, 4)));
    assert_eq!(parse_value_u32(b"..\x01\x00\x00\x80!", 2), Some((0x80000001, 6)));
    assert_eq!(parse_value_u32(b"\x01\x02\x03", 0), None);
    assert_eq!(parse_value_u32(b"\x01\x02\x03\x04", 1), None);
    assert_eq!(parse_value_u32(b"", usize::MAX), None);
    assert_eq!(parse_value_str(b"abc\x00def", 0), Some(("abc".to_string(), 4)));
    assert_eq!(parse_value_str(b"abc\x00def", 3), Some((String::new(), 4)));
    assert_eq!(parse_value_str(b"abc\x00def", 4), None);
    assert_eq!(parse_value_str(b"abc", 9), None);
}

#[test]
fn app_id_is_the_checksum_with_the_high_bit() {
    assert_eq!(derive_app_id("\"anki\"", "Anki"), 0xe89614fe);
    assert_eq!(derive_app_id("\"libreoffice\"", "LibreOffice Calc"), 0xdb01c799);
    assert_eq!(derive_app_id("\"/usr/local/bin/foo.sh\"", "foo.sh"), 0x9d550173);
    // CRC-32/ISO-HDLC of "123456789" is 0xcbf43926, whichever way it is split.
    assert_eq!(derive_app_id("123456789", ""), 0xcbf43926);
    assert_eq!(derive_app_id("1234", "56789"), 0xcbf43926);
    assert_eq!(derive_app_id("", "123456789"), 0xcbf43926);
    // The checksum of nothing is 0: only the high bit is left.
    assert_eq!(derive_app_id("", ""), 0x80000000);
    assert_eq!(shortcut_app_id(0x12345678), 0x92345678);
    assert_eq!(shortcut_app_id(0), 0x80000000);
}

#[test]
fn app_id_is_deterministic_and_marked() {
    let inputs = [("a", "b"), ("", ""), ("/usr/bin/game", "My Game"), ("x", "x")];
    for (exe, name) in inputs {
        let first = derive_app_id(exe, name);
        let second = derive_app_id(exe, name);
        assert_eq!(first, second);
        assert_ne!(first & 0x80000000, 0);
    }
    assert_ne!(derive_app_id("ab", "c"), derive_app_id("ab", "d"));
}

#[test]
fn long_id_holds_the_app_id_in_its_upper_half() {
    assert_eq!(steam_long_id(0x12345678), 0x1234567802000000);
    assert_eq!(steam_long_id(0), 0x02000000);
    assert_eq!(steam_long_id(u32::MAX), 0xffffffff02000000);
    let shortcut = Shortcut {
        appid: 0x12345678,
        app_name: String::new(),
        executable: String::new(),
        start_dir: String::new(),
    };
    assert_eq!(shortcut.steam_id(), 0x1234567802000000);
}

#[test]
fn new_shortcut_starts_beside_its_executable() {
    let shortcut = Shortcut::new("My Game".to_string(), "/opt/games/mygame".to_string());
    assert_eq!(shortcut.app_name, "My Game");
    assert_eq!(shortcut.executable, "/opt/games/mygame");
    assert_eq!(shortcut.start_dir, "/opt/games");
    assert_eq!(shortcut.appid, derive_app_id("/opt/games/mygame", "My Game"));
    assert_ne!(shortcut.appid & 0x80000000, 0);
    // A root has no parent: the shortcut starts in the path itself.
    let root = Shortcut::new("Root".to_string(), "/".to_string());
    assert_eq!(root.start_dir, "/");
    let given = Shortcut::with_parent("A".to_string(), "b".to_string(), Some("dir".to_string()));
    assert_eq!(given.start_dir, "dir");
    assert_eq!(given.appid, derive_app_id("b", "A"));
    let none = Shortcut::with_parent("A".to_string(), "b".to_string(), None);
    assert_eq!(none.start_dir, "b");
}

#[test]
fn markers_start_with_a_byte_that_does_not_recur() {
    assert_eq!(appid_marker_bytes(), b"\x02appid\x00".to_vec());
    assert_eq!(name_marker_bytes(), b"\x01AppName\x00".to_vec());
    assert_eq!(exe_marker_bytes(), b"\x01Exe\x00".to_vec());
    assert_eq!(dir_marker_bytes(), b"\x01StartDir\x00".to_vec());
    for marker in [appid_marker_bytes(), name_marker_bytes(), exe_marker_bytes(), dir_marker_bytes()]
    {
        assert!(has_unique_leading_byte(&marker));
    }
    assert!(has_unique_leading_byte(b""));
    assert!(has_unique_leading_byte(b"x"));
    assert!(has_unique_leading_byte(b"abc"));
    assert!(!has_unique_leading_byte(b"aba"));
    assert!(!has_unique_leading_byte(b"abA"));
    assert!(!has_unique_leading_byte(b"Exe\x00"));
    assert!(!has_unique_leading_byte(b"\x00key\x00"));
}

#[test]
fn test_round_trip_real_data() {
    let shortcut_data = vec![
        sample_shortcuts(),
        sample_shortcuts_with_keys(CANONICAL_KEYS),
        sample_shortcuts_with_keys(["APPID", "APPNAME", "EXE", "STARTDIR"]),
    ];
    for contents in &shortcut_data {
        let decoded = decode(&contents).unwrap();
        let encoded = encode(&decoded);
        assert_eq!(contents, &encoded);
    }
}

#[test]
fn test_really_add_something_to_your_library_for_real_maybe_remove_this_test() {
    let shortcut = Shortcut::new(
        "My Game".to_string(),
        "C:\\Program Files\\My Game\\MyGame.exe".to_string(),
    );
    assert_eq!(shortcut.app_name, "My Game");
    assert_eq!(shortcut.executable, "C:\\Program Files\\My Game\\MyGame.exe");
    assert_eq!(
        shortcut.appid,
        derive_app_id("C:\\Program Files\\My Game\\MyGame.exe", "My Game")
    );
    assert_ne!(shortcut.appid & 0x80000000, 0);
    assert_eq!(shortcut.steam_id(), ((shortcut.appid as u64) << 32) | 0x02000000);
}

#[test]
fn record_before_a_cut_one_is_kept() {
    let contents = b"\x02appid\0\x01\0\0\0\x01AppName\0A\0\x01Exe\0e\0\x01StartDir\0d\0\x02appid\0\x02\0\0\0\x01AppName\0B";
    let first = Shortcut {
        appid: 1,
        app_name: "A".into(),
        executable: "e".into(),
        start_dir: "d".into(),
    };
    assert_eq!(parse_shortcuts(contents), Some(vec![first.clone()]));
    assert_eq!(extract_shortcuts(contents), vec![first]);
}

#[test]
fn records_are_no_more_than_id_markers() {
    let whole = sample_shortcuts();
    for cut in 0..=whole.len() {
        let found = extract_shortcuts(&whole[..cut]);
        let markers = whole[..cut]
            .windows(7)
            .filter(|w| w[0] == 0x02 && w[1..].eq_ignore_ascii_case(b"appid\0"))
            .count();
        assert!(found.len() <= markers, "cut at {}", cut);
        assert_eq!(parse_shortcuts(&whole[..cut]), Some(found));
    }
}

#[test]
fn start_dir_is_what_the_executable_begins_with() {
    let paths = [
        "/opt/games/mygame",
        "/opt/games/mygame/",
        "relative/dir/game",
        "game",
        ".",
        "..",
        "a/./b",
        "/a//b",
        "/sp\u{e9}cial/\u{1f353}/jeu",
        "/",
        "",
        "//",
        "C:\\Program Files\\My Game\\MyGame.exe",
    ];
    for path in paths {
        let shortcut = Shortcut::new("n".to_string(), path.to_string());
        assert!(path.starts_with(&shortcut.start_dir), "{:?}", path);
        if shortcut.start_dir != path {
            assert!(shortcut.start_dir.len() < path.len(), "{:?}", path);
        }
    }
    assert_eq!(Shortcut::new("n".to_string(), "/a//b".to_string()).start_dir, "/a");
    assert_eq!(Shortcut::new("n".to_string(), "game".to_string()).start_dir, "");
    assert_eq!(Shortcut::new("n".to_string(), "".to_string()).start_dir, "");
    assert_eq!(Shortcut::new("n".to_string(), "/sp\u{e9}cial/jeu".to_string()).start_dir, "/sp\u{e9}cial");
}

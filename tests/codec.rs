use vdf_shortcuts::error::VdfError;
use vdf_shortcuts::schema::ShortcutProp;
use vdf_shortcuts::shortcut::Shortcut;
use vdf_shortcuts::shortcuts::Shortcuts;

fn push_str(out: &mut Vec<u8>, s: &str) {
    out.extend_from_slice(s.as_bytes());
    out.push(0);
}

fn push_u32(out: &mut Vec<u8>, key: &str, n: u32) {
    out.push(2);
    push_str(out, key);
    out.extend_from_slice(&n.to_le_bytes());
}

fn push_text(out: &mut Vec<u8>, key: &str, v: &str) {
    out.push(1);
    push_str(out, key);
    push_str(out, v);
}

/// A file with one entry at index 0 holding the given properties.
fn one_entry(body: &[u8]) -> Vec<u8> {
    let mut b = vec![0u8];
    push_str(&mut b, "shortcuts");
    b.push(0);
    push_str(&mut b, "0");
    b.extend_from_slice(body);
    b.extend_from_slice(&[8, 8, 8]);
    b
}

fn load(bytes: &[u8]) -> Result<Shortcuts, VdfError> {
    let mut index = 0usize;
    Shortcuts::from(bytes, &mut index)
}

fn save(scs: &Shortcuts) -> Vec<u8> {
    let mut out = Vec::new();
    scs.store_into(&mut out);
    out
}

fn empty_file() -> Vec<u8> {
    let mut b = vec![0u8];
    push_str(&mut b, "shortcuts");
    b.extend_from_slice(&[8, 8]);
    b
}

#[test]
fn empty_collection_encodes_to_minimal_file() {
    let scs = Shortcuts::empty();
    assert_eq!(scs.len(), 0);
    assert_eq!(save(&scs), empty_file());
}

#[test]
fn empty_shortcuts_map_decodes_to_no_entry() {
    let bytes = empty_file();
    let mut index = 0usize;
    let scs = Shortcuts::from(&bytes, &mut index).unwrap();
    assert_eq!(scs.len(), 0);
    assert_eq!(index, bytes.len());
    assert_eq!(save(&scs), bytes);
}

#[test]
fn unknown_tag_byte_is_malformed() {
    for tag in [3u8, 4, 7, 9, 0x41, 0xff] {
        let bytes = vec![tag, b'a', 0, 8];
        assert!(matches!(load(&bytes), Err(VdfError::MalformedInput)));
    }
    let mut bytes = one_entry(&[]);
    bytes.insert(bytes.len() - 3, 5);
    assert!(matches!(load(&bytes), Err(VdfError::MalformedInput)));
}

#[test]
fn truncated_input_is_malformed() {
    let full = one_entry(&{
        let mut b = Vec::new();
        push_u32(&mut b, "AppId", 7);
        b
    });
    for cut in 0..full.len() {
        assert!(matches!(load(&full[..cut]), Err(VdfError::MalformedInput)), "cut {}", cut);
    }
    assert!(load(&full).is_ok());
}

#[test]
fn missing_root_key_is_malformed() {
    let mut b = vec![0u8];
    push_str(&mut b, "other");
    b.extend_from_slice(&[8, 8]);
    assert!(matches!(load(&b), Err(VdfError::MalformedInput)));
}

#[test]
fn non_numeric_entry_key_is_malformed() {
    let mut b = vec![0u8];
    push_str(&mut b, "shortcuts");
    b.push(0);
    push_str(&mut b, "first");
    b.extend_from_slice(&[8, 8, 8]);
    assert!(matches!(load(&b), Err(VdfError::MalformedInput)));
}

#[test]
fn wrong_kind_for_known_property_is_type_mismatch() {
    let mut body = Vec::new();
    push_text(&mut body, "IsHidden", "yes");
    assert!(matches!(load(&one_entry(&body)), Err(VdfError::TypeMismatch)));
    let mut body = Vec::new();
    push_u32(&mut body, "AppName", 3);
    assert!(matches!(load(&one_entry(&body)), Err(VdfError::TypeMismatch)));
}

#[test]
fn missing_property_takes_default_and_is_written() {
    let mut body = Vec::new();
    push_text(&mut body, "AppName", "Game");
    let scs = load(&one_entry(&body)).unwrap();
    let sc = scs.at(&0).unwrap();
    assert_eq!(sc.prop_to_u32("is_hidden"), None);
    assert_eq!(sc.prop_to_u32("index"), Some(0));
    let out = save(&scs);
    let again = load(&out).unwrap();
    assert_eq!(again.at(&0).unwrap().prop_to_u32("is_hidden"), Some(0));
    let mut needle = vec![2u8];
    push_str(&mut needle, "IsHidden");
    needle.extend_from_slice(&[0, 0, 0, 0]);
    assert!(out.windows(needle.len()).any(|w| w == &needle[..]));
}

#[test]
fn unknown_key_is_dropped() {
    let mut body = Vec::new();
    push_text(&mut body, "AppName", "Game");
    push_text(&mut body, "SomethingNew", "x");
    push_u32(&mut body, "OpenVR", 1);
    let scs = load(&one_entry(&body)).unwrap();
    let sc = scs.at(&0).unwrap();
    assert_eq!(sc.prop_to_string("app_name"), Some("Game".to_string()));
    assert_eq!(sc.prop_to_u32("open_vr"), Some(1));
    let out = save(&scs);
    let needle = b"SomethingNew";
    assert!(!out.windows(needle.len()).any(|w| w == &needle[..]));
}

#[test]
fn keys_match_without_regard_to_case() {
    let mut body = Vec::new();
    push_text(&mut body, "APPNAME", "Loud");
    push_u32(&mut body, "openvr", 1);
    let scs = load(&one_entry(&body)).unwrap();
    let sc = scs.at(&0).unwrap();
    assert_eq!(sc.prop_to_string("app_name"), Some("Loud".to_string()));
    assert_eq!(sc.prop_to_u32("open_vr"), Some(1));
}

#[test]
fn utf8_app_name_round_trips() {
    let mut body = Vec::new();
    push_text(&mut body, "AppName", "Café™ x");
    let scs = load(&one_entry(&body)).unwrap();
    assert_eq!(scs.at(&0).unwrap().prop_to_string("app_name"), Some("Café™ x".to_string()));
    let again = load(&save(&scs)).unwrap();
    assert_eq!(again.at(&0).unwrap().prop_to_string("app_name"), Some("Café™ x".to_string()));
}

#[test]
fn lone_high_byte_is_malformed() {
    let mut body = vec![1u8];
    push_str(&mut body, "AppName");
    body.extend_from_slice(&[b'a', 0xc3, b'b', 0]);
    assert!(matches!(load(&one_entry(&body)), Err(VdfError::MalformedInput)));
}

#[test]
fn invalid_utf8_run_is_malformed() {
    let mut body = vec![1u8];
    push_str(&mut body, "AppName");
    body.extend_from_slice(&[0xff, 0xfe, 0]);
    assert!(matches!(load(&one_entry(&body)), Err(VdfError::MalformedInput)));
}

#[test]
fn string_may_end_at_end_of_buffer() {
    let mut index = 0usize;
    let bytes = b"abc".to_vec();
    assert_eq!(
        vdf_shortcuts::text::consume_string(&bytes, &mut index),
        Some("abc".to_string())
    );
    assert_eq!(index, 3);
    let mut index = 0usize;
    assert_eq!(vdf_shortcuts::text::consume_string(&[], &mut index), None);
    let mut index = 0usize;
    assert_eq!(vdf_shortcuts::text::consume_string(&[0], &mut index), Some(String::new()));
    assert_eq!(index, 1);
}

#[test]
fn u32_is_little_endian() {
    let mut index = 1usize;
    let bytes = [9u8, 0x78, 0x56, 0x34, 0x12, 7];
    assert_eq!(vdf_shortcuts::cursor::consume_u32(&bytes, &mut index), Some(0x1234_5678));
    assert_eq!(index, 5);
    let mut index = 3usize;
    assert_eq!(vdf_shortcuts::cursor::consume_u32(&bytes, &mut index), None);
}

#[test]
fn tags_list_decodes_in_order_and_writes_escaped() {
    let mut body = vec![0u8];
    push_str(&mut body, "tags");
    push_text(&mut body, "0", "favorite");
    push_text(&mut body, "1", "a\"b");
    push_u32(&mut body, "2", 5);
    body.push(8);
    let scs = load(&one_entry(&body)).unwrap();
    let sc = scs.at(&0).unwrap();
    match sc.prop("tags") {
        Some(ShortcutProp::Strings(v)) => {
            assert_eq!(v, &vec!["favorite".to_string(), "a\"b".to_string(), String::new()])
        }
        other => panic!("unexpected {:?}", other),
    }
    assert_eq!(
        sc.prop_to_string("tags"),
        Some("[\"favorite\",\"a\\\"b\",\"\"]".to_string())
    );
    let out = save(&scs);
    let mut needle = vec![1u8];
    push_str(&mut needle, "1");
    push_str(&mut needle, "a\\\"b");
    assert!(out.windows(needle.len()).any(|w| w == &needle[..]));
}

#[test]
fn escape_doubles_backslashes_and_quotes() {
    assert_eq!(vdf_shortcuts::text::escape_json_string("a\\b\"c"), "a\\\\b\\\"c");
    assert_eq!(vdf_shortcuts::text::escape_json_string("plain"), "plain");
}

#[test]
fn decimal_and_parse() {
    assert_eq!(vdf_shortcuts::text::decimal(0), "0");
    assert_eq!(vdf_shortcuts::text::decimal(4294967295), "4294967295");
    assert_eq!(vdf_shortcuts::text::parse_u32("17"), Some(17));
    assert_eq!(vdf_shortcuts::text::parse_u32("+17"), Some(17));
    assert_eq!(vdf_shortcuts::text::parse_u32("4294967295"), Some(u32::MAX));
    assert_eq!(vdf_shortcuts::text::parse_u32("4294967296"), None);
    assert_eq!(vdf_shortcuts::text::parse_u32(""), None);
    assert_eq!(vdf_shortcuts::text::parse_u32("+"), None);
    assert_eq!(vdf_shortcuts::text::parse_u32("-1"), None);
    assert_eq!(vdf_shortcuts::text::parse_u32("1x"), None);
}

#[test]
fn fold_case_lowers_ascii_capitals_only() {
    assert_eq!(vdf_shortcuts::text::fold_case("DevkitGameID"), "devkitgameid");
    assert_eq!(vdf_shortcuts::text::fold_case("É_Z1"), "É_z1");
}

#[test]
fn entries_iterate_in_ascending_index() {
    let mut scs = Shortcuts::empty();
    scs.set_field(&5, "app_name", "five").unwrap();
    scs.set_field(&1, "app_name", "one").unwrap();
    scs.set_field(&3, "app_name", "three").unwrap();
    let mut it = scs.iter();
    let mut names = Vec::new();
    while let Some(sc) = it.next() {
        names.push(sc.prop_to_string("app_name").unwrap());
    }
    assert_eq!(names, vec!["one", "three", "five"]);
    let again = load(&save(&scs)).unwrap();
    assert_eq!(again.len(), 3);
    assert_eq!(again.at(&3).unwrap().prop_to_u32("index"), Some(3));
}

#[test]
fn typed_edit_rejects_non_number() {
    let mut scs = Shortcuts::empty();
    scs.set_field(&0, "app_name", "Game").unwrap();
    let before = save(&scs);
    assert_eq!(scs.set_field(&0, "open_vr", "notanumber"), Err(VdfError::TypeMismatch));
    assert_eq!(scs.set_field(&4, "open_vr", "notanumber"), Err(VdfError::TypeMismatch));
    assert_eq!(save(&scs), before);
    assert_eq!(scs.len(), 1);
}

#[test]
fn edit_with_unknown_key_is_refused() {
    let mut scs = Shortcuts::empty();
    assert_eq!(scs.set_field(&0, "colour", "red"), Err(VdfError::UnknownSchemaKey));
    assert_eq!(scs.len(), 0);
}

#[test]
fn edits_store_typed_values() {
    let mut scs = Shortcuts::empty();
    assert_eq!(scs.set_field(&2, "open_vr", "1"), Ok(true));
    assert_eq!(scs.set_field(&2, "tags", "[\"x\",\"y z\"]"), Ok(false));
    assert_eq!(scs.set_field(&2, "tags", "not json"), Err(VdfError::TypeMismatch));
    assert_eq!(scs.set_field(&2, "exe", "\"C:\\game.exe\""), Ok(false));
    let sc = scs.at(&2).unwrap();
    assert_eq!(sc.prop_to_u32("open_vr"), Some(1));
    assert_eq!(sc.prop_to_string("open_vr"), Some("1".to_string()));
    assert_eq!(sc.prop_to_string("tags"), Some("[\"x\",\"y z\"]".to_string()));
    assert_eq!(sc.prop_to_string("exe"), Some("\"C:\\game.exe\"".to_string()));
    assert_eq!(sc.prop_to_u32("exe"), None);
    assert!(scs.at(&1).is_none());
}

#[test]
fn at_or_new_adds_empty_entry_once() {
    let mut scs = Shortcuts::empty();
    assert!(scs.at_or_new(&9));
    assert!(!scs.at_or_new(&9));
    assert_eq!(scs.len(), 1);
    assert_eq!(scs.at(&9).unwrap().prop_to_u32("app_id"), None);
}

#[test]
fn saved_entry_has_canonical_layout() {
    let mut scs = Shortcuts::empty();
    scs.set_field(&0, "app_id", "258").unwrap();
    let out = save(&scs);
    let mut expect = vec![0u8];
    push_str(&mut expect, "shortcuts");
    expect.push(0);
    push_str(&mut expect, "0");
    push_u32(&mut expect, "AppId", 258);
    push_text(&mut expect, "AppName", "ERROR");
    push_text(&mut expect, "Exe", "ERROR");
    push_text(&mut expect, "StartDir", "");
    push_text(&mut expect, "Icon", "");
    push_text(&mut expect, "ShortcutPath", "");
    push_text(&mut expect, "LaunchOptions", "");
    push_u32(&mut expect, "IsHidden", 0);
    push_u32(&mut expect, "AllowDesktopConfig", 0);
    push_u32(&mut expect, "AllowOverlay", 0);
    push_u32(&mut expect, "OpenVR", 0);
    push_u32(&mut expect, "Devkit", 0);
    push_text(&mut expect, "DevkitGameID", "ERROR");
    push_u32(&mut expect, "DevkitOverrideAppID", 0);
    push_u32(&mut expect, "LastPlayTime", 0);
    push_text(&mut expect, "FlatpakAppID", "");
    expect.push(0);
    push_str(&mut expect, "Tags");
    expect.extend_from_slice(&[8, 8, 8, 8]);
    assert_eq!(out, expect);
    assert_eq!(save(&load(&out).unwrap()), out);
}

#[test]
fn repeated_entry_key_keeps_last() {
    let mut b = vec![0u8];
    push_str(&mut b, "shortcuts");
    for (key, name) in [("1", "first"), ("01", "second")] {
        b.push(0);
        push_str(&mut b, key);
        push_text(&mut b, "AppName", name);
        b.push(8);
    }
    b.extend_from_slice(&[8, 8]);
    let scs = load(&b).unwrap();
    assert_eq!(scs.len(), 1);
    assert_eq!(scs.at(&1).unwrap().prop_to_string("app_name"), Some("second".to_string()));
}

#[test]
fn nesting_beyond_limit_is_malformed() {
    let mut b = Vec::new();
    for _ in 0..10 {
        b.push(0);
        push_str(&mut b, "k");
    }
    b.extend(std::iter::repeat(8).take(11));
    let mut index = 0usize;
    assert!(matches!(
        vdf_shortcuts::tree::consume_map(&b, &mut index, 8),
        Err(VdfError::MalformedInput)
    ));
    let mut index = 0usize;
    assert!(vdf_shortcuts::tree::consume_map(&b, &mut index, 12).is_ok());
}

#[test]
fn schema_table_is_ordered() {
    for i in 0..vdf_shortcuts::schema::PROP_COUNT {
        let info = vdf_shortcuts::schema::prop_info(i);
        assert_eq!(info.order as usize, i);
        assert_eq!(info.name, info.switchname.replace('_', ""));
    }
    let e = Shortcut::empty();
    assert_eq!(e.prop_to_string("app_name"), None);
}

fn sample() -> Shortcuts {
    let mut scs = Shortcuts::empty();
    scs.set_field(&7, "app_name", "Café™ Deluxe").unwrap();
    scs.set_field(&7, "exe", "/usr/bin/game").unwrap();
    scs.set_field(&7, "last_play_time", "1672531200").unwrap();
    scs.set_field(&7, "tags", "[\"favorite\",\"rpg\"]").unwrap();
    scs.set_field(&2, "app_id", "4294967295").unwrap();
    scs.set_field(&2, "launch_options", "-fullscreen").unwrap();
    scs.set_field(&11, "is_hidden", "1").unwrap();
    scs
}

#[test]
fn round_trip_keeps_indices_and_values() {
    let scs = sample();
    let back = load(&save(&scs)).unwrap();
    assert_eq!(back.len(), 3);
    let sc = back.at(&7).unwrap();
    assert_eq!(sc.prop_to_string("app_name"), Some("Café™ Deluxe".to_string()));
    assert_eq!(sc.prop_to_string("exe"), Some("/usr/bin/game".to_string()));
    assert_eq!(sc.prop_to_u32("last_play_time"), Some(1672531200));
    assert_eq!(sc.prop_to_string("tags"), Some("[\"favorite\",\"rpg\"]".to_string()));
    assert_eq!(sc.prop_to_u32("index"), Some(7));
    assert_eq!(sc.prop_to_u32("open_vr"), Some(0));
    assert_eq!(sc.prop_to_string("devkit_game_id"), Some("ERROR".to_string()));
    let sc = back.at(&2).unwrap();
    assert_eq!(sc.prop_to_u32("app_id"), Some(u32::MAX));
    assert_eq!(sc.prop_to_string("launch_options"), Some("-fullscreen".to_string()));
    assert_eq!(back.at(&11).unwrap().prop_to_u32("is_hidden"), Some(1));
}

#[test]
fn resave_is_byte_identical() {
    let once = save(&sample());
    let twice = save(&load(&once).unwrap());
    assert_eq!(once, twice);
}

#[test]
fn text_round_trips_through_bytes() {
    for text in ["Café™", "plain", "", "ÅÄÖ-ü/漢字 x", "a\u{1F600}b"] {
        let mut bytes = Vec::new();
        push_str(&mut bytes, text);
        let mut index = 0usize;
        let read = vdf_shortcuts::text::consume_string(&bytes, &mut index);
        if text.is_empty() {
            assert_eq!(read, Some(String::new()));
        } else {
            assert_eq!(read, Some(text.to_string()));
        }
        assert_eq!(index, bytes.len());
    }
}

#[test]
fn reading_stops_after_root_map() {
    let mut bytes = empty_file();
    let end = bytes.len();
    bytes.extend_from_slice(&[0xde, 0xad]);
    let mut index = 0usize;
    assert!(Shortcuts::from(&bytes, &mut index).is_ok());
    assert_eq!(index, end);
}

use handy::id_map::IdMap;
use handy::model::{insert_unique, kind_str, quoted, TargetKind};
use handy::text::{
    char_is_whitespace, char_size_of, chars_of, contains_text, fitting_prefix, is_absolute, is_blank_str, lines_of, push_decimal,
    push_signed_decimal, safe_relative_path, text_le_of,
};

#[test]
fn blank_text_is_white_space_only() {
    assert!(is_blank_str(""));
    assert!(is_blank_str(" \t\r\n\u{3000}\u{a0}"));
    assert!(!is_blank_str("  x "));
    assert!(!is_blank_str("\u{200b}"));
}

#[test]
fn decimal_numbers() {
    let mut s = String::from("n=");
    push_decimal(&mut s, 0);
    assert_eq!(s, "n=0");
    let mut s = String::new();
    push_decimal(&mut s, 1234567890123456789);
    assert_eq!(s, "1234567890123456789");
    let mut s = String::new();
    push_decimal(&mut s, u128::MAX);
    assert_eq!(s, u128::MAX.to_string());
    let mut s = String::new();
    push_signed_decimal(&mut s, -42);
    assert_eq!(s, "-42");
    let mut s = String::new();
    push_signed_decimal(&mut s, i32::MIN);
    assert_eq!(s, "-2147483648");
    let mut s = String::new();
    push_signed_decimal(&mut s, 7);
    assert_eq!(s, "7");
}

#[test]
fn absolute_paths_start_at_the_root() {
    assert!(is_absolute("/srv/web"));
    assert!(!is_absolute("srv/web"));
    assert!(!is_absolute(""));
}

#[test]
fn working_directories_stay_below_the_project() {
    assert!(safe_relative_path("."));
    assert!(safe_relative_path(""));
    assert!(safe_relative_path("packages/api"));
    assert!(safe_relative_path("./a/./b/"));
    assert!(safe_relative_path("...") );
    assert!(safe_relative_path("a..b/..c"));
    assert!(!safe_relative_path(".."));
    assert!(!safe_relative_path("../secret"));
    assert!(!safe_relative_path("a/../../b"));
    assert!(!safe_relative_path("a/.."));
    assert!(!safe_relative_path("/etc"));
}

#[test]
fn lines_skip_empty_ones_and_carriage_returns() {
    assert_eq!(lines_of("one\ntwo\r\n\n\r\nthree"), vec!["one", "two", "three"]);
    assert_eq!(lines_of("tail\r"), vec!["tail\r"]);
    assert!(lines_of("").is_empty());
    assert!(lines_of("\n\n").is_empty());
    assert_eq!(lines_of("a\rb\n"), vec!["a\rb"]);
}

#[test]
fn character_sizes_follow_utf8() {
    assert_eq!(char_size_of('a'), 1);
    assert_eq!(char_size_of('é'), 2);
    assert_eq!(char_size_of('€'), 3);
    assert_eq!(char_size_of('😀'), 4);
    assert_eq!(fitting_prefix("aé€", 3), 2);
    assert_eq!(fitting_prefix("aé€", 5), 2);
    assert_eq!(fitting_prefix("aé€", 6), 3);
    assert_eq!(fitting_prefix("", 0), 0);
    assert_eq!(chars_of("aé€"), vec!['a', 'é', '€']);
}

#[test]
fn texts_compare_by_character() {
    assert!(text_le_of("", "a"));
    assert!(text_le_of("a", "ab"));
    assert!(!text_le_of("b", "ab"));
    assert!(text_le_of("Z", "a"));
    assert!(text_le_of("same", "same"));
}

#[test]
fn lists_of_ids() {
    let mut list = vec!["a".to_string()];
    insert_unique(&mut list, "b".to_string());
    insert_unique(&mut list, "a".to_string());
    assert_eq!(list, vec!["a", "b"]);
    assert!(contains_text(&list, &"b".to_string()));
    assert!(!contains_text(&list, &"c".to_string()));
}

#[test]
fn messages_quote_names() {
    assert_eq!(quoted("Stop '", &"API".to_string(), "' now"), "Stop 'API' now");
    assert_eq!(kind_str(TargetKind::Project), "Project");
    assert_eq!(kind_str(TargetKind::Command), "Command");
    assert_eq!(kind_str(TargetKind::Group), "Group");
}

#[test]
fn id_map_keeps_insertion_order_and_replaces_in_place() {
    let mut map: IdMap<String> = IdMap::new();
    map.insert("b".into(), "1".into());
    map.insert("a".into(), "2".into());
    map.insert("b".into(), "3".into());
    assert_eq!(map.len(), 2);
    assert_eq!(map.key_at(0), "b");
    assert_eq!(map.value_at(0), "3");
    assert_eq!(map.key_at(1), "a");
    assert_eq!(map.get(&"a".to_string()), Some(&"2".to_string()));
    assert_eq!(map.remove(&"b".to_string()), Some("3".to_string()));
    assert_eq!(map.remove(&"b".to_string()), None);
    assert_eq!(map.len(), 1);
    assert!(map.contains_key(&"a".to_string()));
    assert!(!map.contains_key(&"b".to_string()));
}

#[test]
fn white_space_is_that_of_std() {
    for c in (0u32..=0x10ffff).filter_map(char::from_u32) {
        assert_eq!(char_is_whitespace(c), c.is_whitespace(), "{:x}", c as u32);
    }
}

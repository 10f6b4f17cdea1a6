use ovos_bus::json::{
    read_container, skip_number, skip_text, skip_value, skip_ws, Member, MAX_DEPTH,
};
use ovos_bus::keys::{find, key_is, read_decimal, read_ids, Found};

fn members(text: &[u8], at: usize) -> Option<(Vec<Member>, usize)> {
    read_container(text, at, MAX_DEPTH - 1, true)
}

#[test]
fn whitespace_is_space_tab_and_line_ends() {
    assert_eq!(skip_ws(b" \t\r\n x", 0), 5);
    assert_eq!(skip_ws(b"x ", 0), 0);
    assert_eq!(skip_ws(b"  ", 0), 2);
    assert_eq!(skip_ws(b"\x0b", 0), 0);
}

#[test]
fn strings_end_at_their_closing_quote() {
    assert_eq!(skip_text(b"abc\" rest", 0), Some(4));
    assert_eq!(skip_text(b"a\\\"b\"", 0), Some(5));
    assert_eq!(skip_text(b"\\u00e9\"", 0), Some(7));
    assert_eq!(skip_text(b"\\u00g9\"", 0), None);
    assert_eq!(skip_text(b"\\x\"", 0), None);
    assert_eq!(skip_text(b"a\nb\"", 0), None);
    assert_eq!(skip_text(b"never", 0), None);
    assert_eq!(skip_text(b"\\", 0), None);
    assert_eq!(skip_text("\u{e9}\"".as_bytes(), 0), Some(3));
}

#[test]
fn numbers_follow_the_grammar() {
    assert_eq!(skip_number(b"0", 0), Some(1));
    assert_eq!(skip_number(b"-0", 0), Some(2));
    assert_eq!(skip_number(b"123,", 0), Some(3));
    assert_eq!(skip_number(b"01", 0), Some(1));
    assert_eq!(skip_number(b"1.5e+10]", 0), Some(7));
    assert_eq!(skip_number(b"1E5", 0), Some(3));
    assert_eq!(skip_number(b"1.", 0), None);
    assert_eq!(skip_number(b"1e", 0), None);
    assert_eq!(skip_number(b"1e+", 0), None);
    assert_eq!(skip_number(b"-", 0), None);
    assert_eq!(skip_number(b".5", 0), None);
    assert_eq!(skip_number(b"+1", 0), None);
}

#[test]
fn values_of_every_kind() {
    assert_eq!(skip_value(b"true", 0, 0), Some(4));
    assert_eq!(skip_value(b"false", 0, 0), Some(5));
    assert_eq!(skip_value(b"null", 0, 0), Some(4));
    assert_eq!(skip_value(b"nul", 0, 0), None);
    assert_eq!(skip_value(b"tru", 0, 0), None);
    assert_eq!(skip_value(b"\"s\"", 0, 0), Some(3));
    assert_eq!(skip_value(b"[]", 0, 1), Some(2));
    assert_eq!(skip_value(b"[]", 0, 0), None);
    assert_eq!(skip_value(b"{ }", 0, 1), Some(3));
    assert_eq!(skip_value(b"[1, [2, {\"a\": null}], \"x\"]", 0, 3), Some(26));
    assert_eq!(skip_value(b"[1, [2, {\"a\": null}], \"x\"]", 0, 2), None);
    assert_eq!(skip_value(b"[1,]", 0, 5), None);
    assert_eq!(skip_value(b"[,1]", 0, 5), None);
    assert_eq!(skip_value(b"[1 2]", 0, 5), None);
    assert_eq!(skip_value(b"{\"a\" 1}", 0, 5), None);
    assert_eq!(skip_value(b"{a:1}", 0, 5), None);
    assert_eq!(skip_value(b"{\"a\":1,}", 0, 5), None);
    assert_eq!(skip_value(b"[1", 0, 5), None);
    assert_eq!(skip_value(b"", 0, 5), None);
    assert_eq!(skip_value(b"x", 0, 5), None);
}

#[test]
fn members_come_with_their_places() {
    let text = b"{ \"a\" : 1 , \"bc\":[true] }";
    let (found, end) = members(text, 0).expect("an object");
    assert_eq!(end, text.len());
    assert_eq!(found.len(), 2);
    assert_eq!((found[0].key.start, found[0].key.end), (3, 4));
    assert_eq!(&text[found[0].value.start..found[0].value.end], b"1");
    assert_eq!(&text[found[1].key.start..found[1].key.end], b"bc");
    assert_eq!(&text[found[1].value.start..found[1].value.end], b"[true]");
    let (none, end) = members(b"{}", 0).expect("an empty object");
    assert!(none.is_empty());
    assert_eq!(end, 2);
}

#[test]
fn members_are_not_kept_unless_asked_for() {
    let (found, end) = read_container(b"[1,2,3]", 0, 4, false).expect("an array");
    assert!(found.is_empty());
    assert_eq!(end, 7);
}

#[test]
fn keys_are_read_with_their_escapes() {
    let text = b"{\"type\":1,\"t\\u0079pe\":2,\"ty\\/pe\":3,\"a\\nb\":4,\"\":5}";
    let (found, _) = members(text, 0).expect("an object");
    assert!(key_is(text, found[0].key, b"type"));
    assert!(key_is(text, found[1].key, b"type"));
    assert!(!key_is(text, found[2].key, b"type"));
    assert!(key_is(text, found[2].key, b"ty/pe"));
    assert!(key_is(text, found[3].key, b"a\nb"));
    assert!(!key_is(text, found[0].key, b"typ"));
    assert!(!key_is(text, found[0].key, b"types"));
    assert!(key_is(text, found[4].key, b""));
    assert!(!key_is(text, found[4].key, b"x"));
}

#[test]
fn lookup_tells_absent_one_and_repeated() {
    let text = b"{\"a\":1,\"b\":2,\"\\u0061\":3}";
    let (found, _) = members(text, 0).expect("an object");
    assert!(matches!(find(text, &found, b"a"), Found::Repeated));
    assert!(matches!(find(text, &found, b"b"), Found::One(1)));
    assert!(matches!(find(text, &found, b"c"), Found::Absent));
}

#[test]
fn decimals_are_bounded() {
    assert_eq!(read_decimal(b"x1234y", 1, 5, 10_000), Some(1234));
    assert_eq!(read_decimal(b"1234", 0, 4, 1234), Some(1234));
    assert_eq!(read_decimal(b"1234", 0, 4, 1233), None);
    assert_eq!(read_decimal(b"1234", 2, 2, 9), None);
    assert_eq!(read_decimal(b"12a4", 0, 4, 10_000), None);
    assert_eq!(read_decimal(b"000", 0, 3, 0), Some(0));
    assert_eq!(read_decimal(b"18446744073709551615", 0, 20, u64::MAX), Some(u64::MAX));
    assert_eq!(read_decimal(b"18446744073709551616", 0, 20, u64::MAX), None);
    assert_eq!(read_decimal(b"99999999999999999999", 0, 20, u64::MAX), None);
}

#[test]
fn id_lists_hold_ids_only() {
    let ids = |text: &[u8]| -> Option<Vec<u64>> {
        let (items, _) = read_container(text, 0, 4, true).expect("an array");
        read_ids(text, &items)
    };
    assert_eq!(ids(b"[2]"), Some(vec![2]));
    assert_eq!(ids(b"[ 3 , 1 , 3 ]"), Some(vec![3, 1, 3]));
    assert_eq!(ids(b"[18446744073709551615]"), Some(vec![u64::MAX]));
    assert_eq!(ids(b"[18446744073709551616]"), None);
    assert_eq!(ids(b"[]"), None);
    assert_eq!(ids(b"[1,\"2\"]"), None);
    assert_eq!(ids(b"[1.0]"), None);
    assert_eq!(ids(b"[-1]"), None);
    assert_eq!(ids(b"[1e2]"), None);
    assert_eq!(ids(b"[[1]]"), None);
}

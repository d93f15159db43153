use process_scheduler::bytes;
use process_scheduler::number::parse;
use process_scheduler::process::Process;
use process_scheduler::service::Service;
use process_scheduler::text;
use process_scheduler::text_map::TextMap;

#[test]
fn texts_are_ordered_by_code_point() {
    assert!(text::before("", "a"));
    assert!(text::before("a", "ab"));
    assert!(text::before("Z", "a"));
    assert!(text::before("z", "\u{e9}"));
    assert!(text::before("\u{ffff}", "\u{10000}"));
    assert!(!text::before("a", "a"));
    assert!(!text::before("b", "ab"));
}

#[test]
fn maps_hold_their_keys_in_order() {
    let mut map = TextMap::new();
    for (key, value) in [("b", 1), ("", 2), ("a", 3), ("b", 4), ("ab", 5)] {
        map.insert(key.to_owned(), value);
    }
    let keys: Vec<&str> = map.entries.iter().map(|entry| entry.0.as_str()).collect();
    assert_eq!(keys, ["", "a", "ab", "b"]);
    assert_eq!(map.get("b"), Some(&4));
    assert_eq!(map.get("c"), None);
    assert_eq!(map.remove("a"), Some(3));
    assert_eq!(map.remove("a"), None);
    assert!(!map.contains_key("a") && map.contains_key("ab"));
    assert_eq!(map.len(), 3);
}

#[test]
fn texts_are_split_and_searched() {
    assert_eq!(text::split("", '/'), [""]);
    assert_eq!(text::split("/a//b", '/'), ["", "a", "", "b"]);
    assert_eq!(text::find("aabaab", "ab"), Some(1));
    assert_eq!(text::find("abc", ""), Some(0));
    assert_eq!(text::find("abc", "d"), None);
    assert_eq!(text::strip_prefix("\u{e9}ab", "\u{e9}").unwrap(), "ab");
    assert!(text::strip_prefix("ab", "b").is_none());
    assert!(text::ends_with("abc", "bc") && !text::ends_with("c", "bc"));
    assert_eq!(text::trim("\u{3000}a b\r\n"), "a b");
    assert_eq!(text::trim_end_matches("a//", '/'), "a");
}

#[test]
fn numbers_have_a_bound() {
    assert_eq!(parse("0", 0), Some(0));
    assert_eq!(parse("1", 0), None);
    assert_eq!(parse("+0018446744073709551615", u64::MAX), Some(u64::MAX));
    assert_eq!(parse("18446744073709551616", u64::MAX), None);
    assert_eq!(parse("12x", 100), None);
    assert_eq!(parse("\u{663}", 100), None);
    assert_eq!(parse("", 100), None);
}

#[test]
fn bytes_are_counted_and_split() {
    assert_eq!(bytes::count_byte(b"a\n\nb\n", b'\n'), 3);
    assert_eq!(bytes::count_byte(b"", b'\n'), 0);
    assert_eq!(bytes::split(b"a  b", b' '), [&b"a"[..], b"", b"b"]);
    assert_eq!(bytes::nul_or_len(b"ab\0c\0"), 2);
    assert_eq!(bytes::nul_or_len(b"ab"), 2);
    assert_eq!(bytes::read_le_u32(&[9, 1, 2, 3, 4], 1), 0x0403_0201);
}

#[test]
fn a_process_is_inserted_once() {
    let mut service: Service<String> = Service::new(None);
    assert_eq!(service.process_map_insert(Process::new(5, 1)), 0);
    assert_eq!(service.process_map_insert(Process::new(6, 5)), 1);
    assert_eq!(service.process_map_insert(Process::new(5, 9)), 0);
    assert_eq!(service.process_map.get_pid(5).unwrap().parent_id, 1);
    assert_eq!(service.process_map.processes.len(), 2);
}

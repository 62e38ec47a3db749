//! Strings and tables.

use radii::table::Table;
use radii::text::{
    align, bytes_in, chars_of, contains, count, decimal, find, finds, join, lower, pad, same, spaces,
    split, strip_prefix, trim, trim_end, trim_tail,
};

#[test]
fn strings_compare_by_their_characters() {
    assert!(same("h\u{e9}", "h\u{e9}"));
    assert!(!same("a", "ab"));
    assert_eq!(bytes_in("h\u{e9}"), 3);
    assert_eq!(chars_of("h\u{e9}"), vec!['h', '\u{e9}']);
    let list = vec!["a".to_string(), "b".to_string()];
    assert!(contains(&list, "b"));
    assert!(!contains(&list, "c"));
}

#[test]
fn numbers_are_written_without_leading_zeros() {
    assert_eq!(decimal(0), "0");
    assert_eq!(decimal(1090), "1090");
    assert_eq!(decimal(u128::MAX), u128::MAX.to_string());
}

#[test]
fn white_space_is_trimmed_as_unicode_has_it() {
    for text in [" a b ", "\u{2003}x\u{85}", "\u{200b}x\u{200b}", "", "\t\r\n"] {
        assert_eq!(trim(text), text.trim());
        assert_eq!(trim_end(text), text.trim_end());
    }
    assert_eq!(trim_tail("a//", '/'), "a");
    assert_eq!(trim_tail("//", '/'), "");
}

#[test]
fn strings_are_taken_apart_and_put_together() {
    assert_eq!(split("a,,b,", ','), vec!["a", "", "b", ""]);
    assert_eq!(split("", ','), vec![""]);
    let list = vec!["a".to_string(), "b".to_string(), "c".to_string()];
    assert_eq!(join(&list, ", "), "a, b, c");
    assert_eq!(join(&vec![], ", "), "");
    assert_eq!(strip_prefix("tcp://x", "tcp://"), Some("x"));
    assert_eq!(strip_prefix("tcp", "tcp://"), None);
    assert_eq!(find("a=b=c", '='), 1);
    assert_eq!(find("abc", '='), 3);
    assert_eq!(count("a:b:c", ':'), 2);
    assert!(finds("en_US.utf-8", "utf-8"));
    assert!(finds("x", ""));
    assert!(!finds("utf", "utf-8"));
}

#[test]
fn columns_are_filled_with_spaces() {
    assert_eq!(spaces(3), "   ");
    assert_eq!(pad("\u{e9}", 3), "\u{e9}  ");
    assert_eq!(pad("long", 3), "long");
    assert_eq!(align("7", 2), " 7");
    assert_eq!(lower("UTF-8 \u{c9}"), "utf-8 \u{c9}");
}

#[test]
fn a_table_keeps_its_order_and_one_value_per_key() {
    let mut table = Table::new();
    table.insert("a".to_string(), 1);
    table.insert("b".to_string(), 2);
    table.insert("a".to_string(), 3);
    assert_eq!(table.len(), 2);
    assert_eq!(table.get("a"), Some(&3));
    assert_eq!(table.entry(0).0, "a");
    assert_eq!(table.entry(1).1, &2);
    table.remove("a");
    assert!(!table.contains_key("a"));
    assert_eq!(table.entry(0).0, "b");
    table.remove("absent");
    assert_eq!(table.len(), 1);
}

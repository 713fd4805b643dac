//! Texts, tallies and orders.

use nippo_collector::order::stable_sort;
use nippo_collector::tally::{count_name, distinct_names, rank, tally_names, Count, CountTable};
use nippo_collector::text::{
    contains, decimal_text, has_prefix, join, len_in_bytes, pad_left, pad_right,
    same_text, signed_decimal_text, sort_distinct, take_chars, text_at_or_before, trim, ByText,
};

fn texts(items: &[&str]) -> Vec<String> {
    items.iter().map(|item| item.to_string()).collect()
}

#[test]
fn equal_texts_are_the_same() {
    assert!(same_text("", ""));
    assert!(same_text("日報", "日報"));
    assert!(!same_text("日報", "日"));
    assert!(!same_text("日", "日報"));
    assert!(!same_text("a", "b"));
}

#[test]
fn texts_stand_in_dictionary_order() {
    assert!(text_at_or_before("", "a"));
    assert!(text_at_or_before("a", "a"));
    assert!(text_at_or_before("ab", "b"));
    assert!(!text_at_or_before("b", "ab"));
    assert!(!text_at_or_before("aa", "a"));
    assert!(text_at_or_before("Z", "a"));
    assert!(text_at_or_before("opencode-dev.db", "opencode.db"));
}

#[test]
fn sorting_orders_and_keeps_repeats() {
    assert_eq!(
        stable_sort::<String, ByText>(texts(&["b", "a", "c", "a"])),
        texts(&["a", "a", "b", "c"])
    );
}

#[test]
fn sorting_to_different_texts_drops_repeats() {
    assert_eq!(
        sort_distinct(texts(&["src/b", "README.md", "src/b", "src/a"])),
        texts(&["README.md", "src/a", "src/b"])
    );
    assert_eq!(sort_distinct(Vec::new()), Vec::<String>::new());
}

#[test]
fn parts_are_found_anywhere() {
    assert!(contains("Python ではなく Rust", "ではなく"));
    assert!(contains("abc", ""));
    assert!(contains("", ""));
    assert!(contains("aab", "ab"));
    assert!(!contains("ab", "abc"));
    assert!(!contains("", "a"));
}

#[test]
fn prefixes_stand_at_the_start() {
    assert!(has_prefix("/tmp/nippo/a", "/tmp/nippo/"));
    assert!(has_prefix("abc", ""));
    assert!(!has_prefix("ab", "abc"));
    assert!(!has_prefix("xabc", "abc"));
}

#[test]
fn lengths_are_in_bytes_and_cuts_in_characters() {
    assert_eq!(len_in_bytes("日報"), 6);
    assert_eq!(len_in_bytes(""), 0);
    assert_eq!(take_chars("日報を書く", 2), "日報");
    assert_eq!(take_chars("日報", 5), "日報");
    assert_eq!(take_chars("日報", 0), "");
}

#[test]
fn white_space_is_trimmed_at_both_ends() {
    assert_eq!(trim("  a b\n\t"), "a b");
    assert_eq!(trim("\u{3000}指示\u{a0}"), "指示");
    assert_eq!(trim(" \r\n "), "");
    assert_eq!(trim("\u{200b}a"), "\u{200b}a");
    for code in 0u32..0x3100 {
        if let Some(c) = char::from_u32(code) {
            let framed = format!("{c}x{c}");
            assert_eq!(trim(&framed), framed.trim(), "code {code:x}");
        }
    }
}

#[test]
fn numbers_are_written_in_decimal() {
    for n in [0u64, 7, 10, 99, 100, 1234567890, u64::MAX] {
        assert_eq!(decimal_text(n), n.to_string());
    }
    for n in [0i64, -1, -10, 60, i64::MIN, i64::MAX] {
        assert_eq!(signed_decimal_text(n), n.to_string());
    }
}

#[test]
fn padding_counts_characters() {
    assert_eq!(pad_right("日報", 4), format!("{:<4}", "日報"));
    assert_eq!(pad_left("42", 5), "   42");
    assert_eq!(pad_left("123456", 5), "123456");
    assert_eq!(pad_right("abc", 3), "abc");
}

#[test]
fn joining_puts_the_separator_between() {
    assert_eq!(join(&texts(&["opencode", "codex"]), ", "), "opencode, codex");
    assert_eq!(join(&texts(&["opencode"]), ", "), "opencode");
    assert_eq!(join(&Vec::new(), ", "), "");
    assert_eq!(join(&texts(&["", "", "a"]), "-"), "--a");
}

#[test]
fn names_are_counted_in_order_of_appearance() {
    let names = texts(&["b", "a", "b", "c", "b"]);
    assert_eq!(distinct_names(&names), texts(&["b", "a", "c"]));
    assert_eq!(count_name(&names, "b"), 3);
    assert_eq!(count_name(&names, "x"), 0);
    let table = tally_names(&names);
    let entries: Vec<(&str, u32)> = table
        .entries
        .iter()
        .map(|entry| (entry.name.as_str(), entry.count))
        .collect();
    assert_eq!(entries, vec![("b", 3), ("a", 1), ("c", 1)]);
}

#[test]
fn sorting_agrees_with_the_order_of_strings() {
    let mut items = Vec::new();
    let mut seed: u32 = 7;
    for _ in 0..500 {
        seed = seed.wrapping_mul(1_103_515_245).wrapping_add(12_345);
        items.push(format!("{}日{}", seed % 97, seed % 13));
    }
    let mut expected = items.clone();
    expected.sort();
    assert_eq!(stable_sort::<String, ByText>(items.clone()), expected);
    expected.dedup();
    assert_eq!(sort_distinct(items), expected);
}

#[test]
fn ranking_puts_the_greatest_count_first_and_then_the_name() {
    let mut table = CountTable::new();
    for (name, count) in [("read", 2u32), ("write", 5), ("bash", 2), ("edit", 1)] {
        table.entries.push(Count {
            name: name.to_string(),
            count,
        });
    }
    let ranked: Vec<(String, u32)> = rank(&table)
        .into_iter()
        .map(|entry| (entry.name, entry.count))
        .collect();
    assert_eq!(
        ranked,
        vec![
            ("write".to_string(), 5),
            ("bash".to_string(), 2),
            ("read".to_string(), 2),
            ("edit".to_string(), 1),
        ]
    );
    assert_eq!(table.get("read"), Some(2));
    assert_eq!(table.get("grep"), None);
}

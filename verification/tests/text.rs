use dfw::order::{compare, same, KeyOrder};
use dfw::sorted::SortedMap;
use dfw::text::{decimal_string, is_whitespace, join, split_newlines, trim};

const SAMPLES: [&str; 16] = [
    "",
    " ",
    "a",
    "A",
    "ab",
    "a b",
    "b",
    "nat",
    "filter",
    "é",
    "e\u{301}",
    "\u{7f}",
    "\u{80}",
    "\u{7ff}\u{800}",
    "\u{ffff}",
    "\u{10000}",
];

#[test]
fn whitespace_is_that_of_the_standard_library() {
    for n in 0..=0x10ffffu32 {
        if let Some(c) = char::from_u32(n) {
            assert_eq!(is_whitespace(c), c.is_whitespace(), "U+{:04X}", n);
        }
    }
}

#[test]
fn trim_removes_white_space_at_both_ends_only() {
    assert_eq!(trim(""), "");
    assert_eq!(trim(" \t\r\n"), "");
    assert_eq!(trim("  a b  "), "a b");
    assert_eq!(trim("a"), "a");
    assert_eq!(trim("\n*nat\nCOMMIT\n"), "*nat\nCOMMIT");
    assert_eq!(trim("\u{3000}é \u{a0}x\u{2028}\u{85}"), "é \u{a0}x");
    assert_eq!(trim("\u{200b}a\u{200b}"), "\u{200b}a\u{200b}");
    let cases = ["", " ", " a", "a ", " a b \n", "\u{1680}\u{2003}a\u{202f}\u{205f}"];
    for s in cases.iter() {
        assert_eq!(trim(s), s.trim());
    }
}

#[test]
fn split_newlines_gives_one_piece_more_than_newlines() {
    assert_eq!(split_newlines(""), vec![""]);
    assert_eq!(split_newlines("a"), vec!["a"]);
    assert_eq!(split_newlines("\n"), vec!["", ""]);
    assert_eq!(split_newlines("a\n"), vec!["a", ""]);
    assert_eq!(split_newlines("\na"), vec!["", "a"]);
    assert_eq!(split_newlines("a\n\nb"), vec!["a", "", "b"]);
    assert_eq!(split_newlines("é\r\nü"), vec!["é\r", "ü"]);
    let cases = ["", "\n\n\n", "one\ntwo\nthree", "x\n", "\u{10000}\n\u{7ff}"];
    for s in cases.iter() {
        let expected: Vec<String> = s.split('\n').map(|e| e.to_owned()).collect();
        assert_eq!(split_newlines(s), expected);
    }
}

#[test]
fn join_puts_the_separator_between_the_parts() {
    assert_eq!(join(&[], " "), "");
    assert_eq!(join(&["a"], " "), "a");
    assert_eq!(join(&["a", "b"], " "), "a b");
    assert_eq!(join(&["", "", ""], ", "), ", , ");
    assert_eq!(join(&["t", "c", "-j r"], ""), "tc-j r");
}

#[test]
fn decimal_string_is_to_string() {
    assert_eq!(decimal_string(0), "0");
    assert_eq!(decimal_string(7), "7");
    assert_eq!(decimal_string(10), "10");
    assert_eq!(decimal_string(-1), "-1");
    assert_eq!(decimal_string(1000), "1000");
    assert_eq!(decimal_string(i32::MAX), "2147483647");
    assert_eq!(decimal_string(i32::MIN), "-2147483648");
    let mut n: i32 = -1_000_003;
    while n < 1_000_000 {
        assert_eq!(decimal_string(n), n.to_string());
        n += 997;
    }
}

#[test]
fn compare_orders_as_strings_are_ordered() {
    for a in SAMPLES.iter() {
        for b in SAMPLES.iter() {
            let expected = match a.cmp(b) {
                std::cmp::Ordering::Less => KeyOrder::Before,
                std::cmp::Ordering::Equal => KeyOrder::Same,
                std::cmp::Ordering::Greater => KeyOrder::After,
            };
            assert_eq!(compare(a, b), expected, "{:?} and {:?}", a, b);
            assert_eq!(same(a, b), a == b);
        }
    }
}

#[test]
fn compare_puts_a_prefix_first() {
    assert_eq!(compare("a", "ab"), KeyOrder::Before);
    assert_eq!(compare("ab", "a"), KeyOrder::After);
    assert_eq!(compare("", "a"), KeyOrder::Before);
    assert_eq!(compare("Z", "a"), KeyOrder::Before);
    assert_eq!(compare("a\u{ffff}", "a\u{10000}"), KeyOrder::Before);
    assert_eq!(compare("filter", "filter"), KeyOrder::Same);
}

#[test]
fn sorted_map_walks_in_the_order_of_the_names() {
    let mut m: SortedMap<u32> = SortedMap::new();
    assert_eq!(m.len(), 0);
    for (i, name) in SAMPLES.iter().enumerate() {
        m.insert(name, i as u32);
    }
    assert_eq!(m.len(), SAMPLES.len());
    let mut sorted: Vec<&str> = SAMPLES.to_vec();
    sorted.sort();
    for (i, name) in sorted.iter().enumerate() {
        assert_eq!(m.key(i), *name);
        let at = SAMPLES.iter().position(|s| s == name).unwrap() as u32;
        assert_eq!(*m.value(i), at);
        assert_eq!(m.get(name), Some(&at));
        assert!(m.contains_key(name));
    }
    assert_eq!(m.get("missing"), None);
    assert!(!m.contains_key("missing"));
}

#[test]
fn sorted_map_insert_overwrites() {
    let mut m: SortedMap<&str> = SortedMap::new();
    m.insert("k", "one");
    m.insert("k", "two");
    assert_eq!(m.len(), 1);
    assert_eq!(m.get("k"), Some(&"two"));
}

#[test]
fn sorted_map_entry_fills_only_what_is_missing() {
    let mut m: SortedMap<Vec<u8>> = SortedMap::new();
    m.entry("b", vec![1]).push(2);
    m.entry("a", vec![]).push(3);
    m.entry("b", vec![9, 9, 9]).push(4);
    assert_eq!(m.len(), 2);
    assert_eq!(m.key(0), "a");
    assert_eq!(m.get("a"), Some(&vec![3]));
    assert_eq!(m.get("b"), Some(&vec![1, 2, 4]));
}

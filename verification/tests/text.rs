//! Plain text and sorted maps.

use rbx_inject::text::{append_int, append_nat, chars_of, join_with, parse_int, same, split_at_each};
use rbx_inject::text::{stands_before, starts_with, strip_prefix, text_of, trim_prefixes};
use rbx_inject::text_map::{TextMap, TextSet};

#[test]
fn splitting_and_joining() {
    assert_eq!(split_at_each("a.b.c", '.'), ["a", "b", "c"]);
    assert_eq!(split_at_each("", '.'), [""]);
    assert_eq!(split_at_each(".a.", '.'), ["", "a", ""]);
    for text in ["a.b.c", "", ".", "..x", "é.ü"] {
        assert_eq!(join_with(&split_at_each(text, '.'), "."), text);
    }
    assert_eq!(join_with(&Vec::new(), ", "), "");
}

#[test]
fn prefixes() {
    assert!(starts_with("$require:x", "$require:"));
    assert!(!starts_with("$req", "$require:"));
    assert!(starts_with("x", ""));
    assert_eq!(strip_prefix("$$x", "$").as_deref(), Some("$x"));
    assert_eq!(strip_prefix("x", "$"), None);
    assert_eq!(trim_prefixes("ababac", "ab"), "ac");
    assert_eq!(trim_prefixes("x", "ab"), "x");
    assert_eq!(text_of(&chars_of("hällo"), 1, 3), "äl");
    assert!(same("a", "a") && !same("a", "b") && !same("a", "aa"));
}

#[test]
fn decimal_numbers() {
    let mut out = String::new();
    append_nat(&mut out, 0);
    append_int(&mut out, -42);
    append_nat(&mut out, u64::MAX);
    append_int(&mut out, i64::MIN);
    assert_eq!(out, "0-4218446744073709551615-9223372036854775808");

    assert_eq!(parse_int("17", -128, 127), Some(17));
    assert_eq!(parse_int("+17", -128, 127), Some(17));
    assert_eq!(parse_int("-128", -128, 127), Some(-128));
    assert_eq!(parse_int("-129", -128, 127), None);
    assert_eq!(parse_int("128", -128, 127), None);
    assert_eq!(parse_int("007", 0, 127), Some(7));
    assert_eq!(parse_int("-0", 0, 127), None);
    assert_eq!(parse_int("-0", -1, 127), Some(0));
    for bad in ["", "+", "-", "1a", " 1", "1 ", "٣"] {
        assert_eq!(parse_int(bad, -128, 127), None, "{bad}");
    }
}

#[test]
fn texts_are_ordered_by_their_characters() {
    let mut words = vec!["b", "a", "", "ab", "é", "Z", "aa", "z", "\u{10000}", "\u{ffff}"];
    words.sort();
    for pair in words.windows(2) {
        assert!(stands_before(pair[0], pair[1]), "{pair:?}");
        assert!(!stands_before(pair[1], pair[0]), "{pair:?}");
    }
    assert!(!stands_before("a", "a"));
}

#[test]
fn a_map_is_in_the_order_of_its_keys() {
    let mut map = TextMap::from_pairs(&[("b", "1"), ("a", "2"), ("b", "3")]);
    assert_eq!(map.keys(), ["a", "b"]);
    assert_eq!(map.get("b"), Some("3"));
    assert_eq!(map.get("c"), None);
    map.insert("ab".to_string(), "4".to_string());
    assert_eq!(map.keys(), ["a", "ab", "b"]);
    assert_eq!((map.len(), map.key(1), map.value(1)), (3, "ab", "4"));
    assert!(!map.is_empty() && TextMap::new().is_empty());
}

#[test]
fn a_set_holds_each_text_once() {
    let mut set = TextSet::new();
    for name in ["b", "a", "b", "c", "a"] {
        set.insert(name.to_string());
    }
    assert_eq!(set.len(), 3);
    assert_eq!([set.item(0), set.item(1), set.item(2)], ["a", "b", "c"]);
    assert_eq!(set.clone(), set);
}

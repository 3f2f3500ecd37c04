//! Numbers, texts, orders, maps and hashes.
use serde_json::Value;
use system_one::binary64::{greatest_of, Binary64};
use system_one::hash::{hash_bytes, hash_json};
use system_one::json::{get_member, sorted_keys};
use system_one::numeral::{decimal_of, parse_usize};
use system_one::order::{compare_bytes, compare_text, Rel};
use system_one::sorted_map::{Copied, SortedMap};
use system_one::sorting::sort;
use system_one::text::{equal, join_texts, occurs_in, pad, pad_behind, space, split_lines, split_on, trimmed};

fn bits(x: f64) -> Binary64 {
    Binary64 { bits: x.to_bits() }
}

fn chars(s: &str) -> Vec<char> {
    s.chars().collect()
}

fn string(cs: &[char]) -> String {
    cs.iter().collect()
}

fn samples() -> Vec<f64> {
    vec![
        f64::NEG_INFINITY,
        -2.5,
        -1.0,
        -f64::MIN_POSITIVE,
        -5e-324,
        -0.0,
        0.0,
        5e-324,
        f64::MIN_POSITIVE,
        0.1,
        0.5,
        1.0,
        1.0000000000000002,
        1e300,
        f64::INFINITY,
        f64::NAN,
    ]
}

#[test]
fn comparisons_agree_with_the_machine() {
    for a in samples() {
        assert_eq!(bits(a).nan(), a.is_nan());
        for b in samples() {
            assert_eq!(bits(a).lt(bits(b)), a < b, "{a} < {b}");
            assert_eq!(bits(a).ge(bits(b)), a >= b, "{a} >= {b}");
            assert_eq!(bits(a).total_lt(bits(b)), a.total_cmp(&b).is_lt(), "{a} before {b}");
        }
        let c = f64::from_bits(bits(a).clamp01().bits);
        assert!(c == a.clamp(0.0, 1.0) || (c.is_nan() && a.is_nan()));
    }
}

#[test]
fn the_last_of_the_greatest_is_kept() {
    assert_eq!(greatest_of(&vec![bits(0.25), bits(0.5), bits(0.5), bits(0.0)]), 2);
    assert_eq!(greatest_of(&vec![]), 0);
    assert_eq!(greatest_of(&vec![bits(-1.0)]), 0);
}

#[test]
fn numerals_read_back() {
    for n in [0u128, 7, 10, 255, 1_000_000, u64::MAX as u128] {
        assert_eq!(string(&decimal_of(n)), n.to_string());
        assert_eq!(parse_usize(&decimal_of(n)), Some(n as usize));
    }
    assert_eq!(string(&decimal_of(u128::MAX)), u128::MAX.to_string());
    for s in ["", "+", "-1", "1.0", " 1", "1 ", "18446744073709551616", "٣"] {
        assert_eq!(parse_usize(&chars(s)), s.parse::<usize>().ok(), "{s}");
    }
    assert_eq!(parse_usize(&chars("+007")), Some(7));
}

#[test]
fn texts_are_taken_apart_as_usual() {
    for s in ["", "\n", "a", "a\n", "a\r\nb", "a\n\nb\r", "\r\n\r", "x\ny\n\n"] {
        let ours: Vec<String> = split_lines(&chars(s)).iter().map(|l| string(l)).collect();
        assert_eq!(ours, s.lines().collect::<Vec<_>>(), "{s:?}");
    }
    for s in ["", ",", "a,b", ",a,", "a"] {
        let ours: Vec<String> = split_on(&chars(s), ',').iter().map(|l| string(l)).collect();
        assert_eq!(ours, s.split(',').collect::<Vec<_>>(), "{s:?}");
    }
    for s in ["", " ", " a ", "\u{a0}a\u{3000}", "\u{85}\u{2028}x\t", "a b", "\u{200b}a"] {
        assert_eq!(string(trimmed(&chars(s))), s.trim(), "{s:?}");
    }
    assert!((char::MIN..=char::MAX).all(|c| space(c) == c.is_whitespace()));
    assert_eq!(string(&join_texts(&vec![chars("a"), chars(""), chars("b")], &chars(", "))), "a, , b");
    assert_eq!(string(&join_texts(&vec![], &chars(", "))), "");
    assert!(occurs_in(&chars("bc"), &chars("abcd")));
    assert!(occurs_in(&chars(""), &chars("")));
    assert!(!occurs_in(&chars("cb"), &chars("abcd")));
    assert!(equal("é", "é") && !equal("é", "e"));
    assert_eq!(pad("7", 3), "  7");
    assert_eq!(pad("1234", 3), "1234");
    assert_eq!(pad_behind("é", 3), "é  ");
}

#[test]
fn texts_and_bytes_are_ordered() {
    let words = ["", "a", "ab", "b", "é", "\u{ffff}", "\u{10000}"];
    for a in words {
        for b in words {
            let expected = match a.cmp(b) {
                std::cmp::Ordering::Less => Rel::Before,
                std::cmp::Ordering::Equal => Rel::Same,
                std::cmp::Ordering::Greater => Rel::After,
            };
            assert_eq!(compare_text(&chars(a), &chars(b)), expected);
            assert_eq!(compare_bytes(a.as_bytes(), b.as_bytes()), expected);
        }
    }
    let mut v: Vec<String> = ["b", "a", "c", "a"].iter().map(|s| s.to_string()).collect();
    sort(&mut v);
    assert_eq!(v, ["a", "a", "b", "c"]);
}

#[test]
fn maps_keep_their_keys_in_order() {
    let mut m: SortedMap<String, String> = SortedMap::new();
    assert!(m.is_empty());
    for k in ["b", "c", "a", "b"] {
        m.insert(k.to_string(), format!("{k}{}", m.len()));
    }
    assert_eq!(m.len(), 3);
    let keys: Vec<&str> = (0..3).map(|i| m.key_at(i).as_str()).collect();
    assert_eq!(keys, ["a", "b", "c"]);
    assert_eq!(m.get(&"b".to_string()).unwrap(), "b3", "the later value stays");
    assert_eq!(m.get(&"d".to_string()), None);
    assert_eq!(m.copied(), m);
    let mut pairs: SortedMap<(String, String), u8> = SortedMap::new();
    pairs.insert(("b".to_string(), "a".to_string()), 1);
    pairs.insert(("a".to_string(), "z".to_string()), 2);
    assert_eq!(*pairs.value_at(0), 2);
    assert_eq!(String::from("x").copied(), "x");
}

#[test]
fn hashes_are_sha256_in_hexadecimal() {
    assert_eq!(hash_bytes(b""), "e3b0c44298fc1c149afbf4c8996fb92427ae41e4649b934ca495991b7852b855");
    assert_eq!(hash_bytes(b"abc"), "ba7816bf8f01cfea414140de5dae2223b00361a396177a9cb410ff61f20015ad");
    assert_eq!(hash_json(&Value::String("abc".to_string())), hash_bytes(b"\"abc\""));
    let a: Value = serde_json::from_str("{\"b\":1,\"a\":2}").unwrap();
    let b: Value = serde_json::from_str("{\"a\":2,\"b\":1}").unwrap();
    assert_eq!(hash_json(&a), hash_json(&b));
    assert_eq!(sorted_keys(a.as_object().unwrap()), ["a", "b"]);
    assert_eq!(get_member(&a, "a"), Some(&Value::from(2u64)));
    assert_eq!(get_member(&a, "c"), None);
    assert_eq!(get_member(&Value::Null, "c"), None);
}

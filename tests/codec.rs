use ngram_log::{decode, encode, FormatError, FreqTable};

fn key(s: &str) -> Vec<char> {
    s.chars().collect()
}

fn table(pairs: &[(&str, u64)]) -> FreqTable {
    let mut t = FreqTable::new();
    for (k, v) in pairs {
        t.set(key(k), *v);
    }
    t
}

fn same_counts(a: &FreqTable, b: &FreqTable) -> bool {
    if a.len() != b.len() {
        return false;
    }
    for i in 0..a.len() {
        if b.get(a.key_at(i)) != a.count_at(i) {
            return false;
        }
    }
    true
}

#[test]
fn round_trip_plain_keys() {
    let t = table(&[("a", 1), ("ab", 2), ("abc", u64::MAX), ("\0\0a", 7), (" ", 0)]);
    let back = decode(&encode(&t)).unwrap();
    assert!(same_counts(&t, &back));
}

#[test]
fn round_trip_escaped_keys() {
    let t = table(&[("\\", 3), ("\n", 4), ("a\\nb", 5), ("x\ny\\", 6), ("\\\\n", 8), ("q", 9)]);
    let text = encode(&t);
    assert_eq!(text.lines().count(), 6);
    let back = decode(&text).unwrap();
    assert!(same_counts(&t, &back));
    assert_eq!(back.get(&key("q")), 9);
}

#[test]
fn encode_exact_lines() {
    assert_eq!(encode(&table(&[("a\\b", 3)])), "3 a\\\\b\n");
    assert_eq!(encode(&table(&[("x\ny", 1)])), "1 x\\ny\n");
    assert_eq!(encode(&table(&[("ab", 120)])), "120 ab\n");
    assert_eq!(encode(&table(&[("a", 0)])), "0 a\n");
    assert_eq!(encode(&FreqTable::new()), "");
}

#[test]
fn decode_empty_and_blank_lines() {
    assert_eq!(decode("").unwrap().len(), 0);
    let t = decode("\n\n3 a\n\n").unwrap();
    assert_eq!(t.len(), 1);
    assert_eq!(t.get(&key("a")), 3);
}

#[test]
fn decode_splits_on_first_space() {
    let t = decode("5 a b\n2  \n").unwrap();
    assert_eq!(t.get(&key("a b")), 5);
    assert_eq!(t.get(&key(" ")), 2);
}

#[test]
fn decode_last_line_wins() {
    let t = decode("1 a\n2 a\n").unwrap();
    assert_eq!(t.len(), 1);
    assert_eq!(t.get(&key("a")), 2);
}

#[test]
fn decode_without_final_break() {
    let t = decode("4 xy").unwrap();
    assert_eq!(t.get(&key("xy")), 4);
}

#[test]
fn decode_unescapes() {
    let t = decode("1 a\\\\b\n2 c\\nd\n3 e\\q\n4 f\\\n").unwrap();
    assert_eq!(t.get(&key("a\\b")), 1);
    assert_eq!(t.get(&key("c\nd")), 2);
    assert_eq!(t.get(&key("e\\q")), 3);
    assert_eq!(t.get(&key("f\\")), 4);
}

#[test]
fn decode_missing_separator() {
    assert_eq!(decode("12\n").err(), Some(FormatError::MissingSeparator));
    assert_eq!(decode("1 a\nabc\n").err(), Some(FormatError::MissingSeparator));
}

#[test]
fn decode_invalid_count() {
    assert_eq!(decode("x a\n").err(), Some(FormatError::InvalidCount));
    assert_eq!(decode(" a\n").err(), Some(FormatError::InvalidCount));
    assert_eq!(decode("-1 a\n").err(), Some(FormatError::InvalidCount));
    assert_eq!(decode("18446744073709551616 a\n").err(), Some(FormatError::InvalidCount));
    assert_eq!(decode("99999999999999999999 a\n").err(), Some(FormatError::InvalidCount));
}

#[test]
fn decode_largest_count() {
    let t = decode("18446744073709551615 a\n").unwrap();
    assert_eq!(t.get(&key("a")), u64::MAX);
}

#[test]
fn table_set_replaces() {
    let mut t = FreqTable::new();
    t.set(key("ab"), 1);
    t.set(key("ab"), 5);
    t.set(key("b"), 2);
    assert_eq!(t.len(), 2);
    assert_eq!(t.get(&key("ab")), 5);
    assert_eq!(t.get(&key("zz")), 0);
}

#[test]
fn decode_count_with_plus_sign() {
    let t = decode("+7 a\n+0 b\n").unwrap();
    assert_eq!(t.get(&key("a")), 7);
    assert_eq!(t.get(&key("b")), 0);
    assert_eq!(decode("+ a\n").err(), Some(FormatError::InvalidCount));
    assert_eq!(decode("++1 a\n").err(), Some(FormatError::InvalidCount));
    assert_eq!(decode("1+ a\n").err(), Some(FormatError::InvalidCount));
}

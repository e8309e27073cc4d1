use versioned_data_engine::event::{decode_event, encode_event};
use versioned_data_engine::fault::{child_path, item_path, join};
use versioned_data_engine::names::{contains, numbered_name, read_number, starts_with};
use versioned_data_engine::number::{mag_add, mag_cmp, mag_sub, number_eq, BigInt, Decimal};
use versioned_data_engine::numeral::{decimal, fixed_decimal, fixed_hex};
use versioned_data_engine::sorted_map::{reversed, SortedMap};
use versioned_data_engine::text::{chars_of, split_at, string_of};

fn big(digits: &str, non_negative: bool) -> BigInt {
    BigInt::from_digits(digits, non_negative)
}

fn shown(b: &BigInt) -> String {
    if b.non_negative {
        b.digits.clone()
    } else {
        format!("-{}", b.digits)
    }
}

#[test]
fn magnitudes_are_added_and_subtracted() {
    assert_eq!(mag_add("999", "1"), "1000");
    assert_eq!(mag_add("0", "0"), "0");
    assert_eq!(mag_add("5", "12345678901234567890123"), "12345678901234567890128");
    assert_eq!(mag_sub("1000", "1"), "999");
    assert_eq!(mag_sub("77", "77"), "0");
    assert_eq!(mag_cmp("9", "10"), std::cmp::Ordering::Less);
    assert_eq!(mag_cmp("21", "12"), std::cmp::Ordering::Greater);
    assert_eq!(mag_cmp("7", "7"), std::cmp::Ordering::Equal);
}

#[test]
fn big_integers_keep_sign_and_shortest_digits() {
    assert_eq!(shown(&big("007", false)), "-7");
    assert_eq!(shown(&big("000", false)), "0");
    assert_eq!(shown(&BigInt::from_u64(u64::MAX)), "18446744073709551615");
    assert_eq!(shown(&BigInt::zero()), "0");
    assert_eq!(shown(&big("5", true).add(&big("7", false))), "-2");
    assert_eq!(shown(&big("7", true).add(&big("7", false))), "0");
    assert_eq!(shown(&big("5", false).sub(&big("7", true))), "-12");
    assert_eq!(shown(&big("5", true).sub(&big("0", true))), "5");
}

#[test]
fn numbers_are_compared_exactly() {
    assert!(number_eq("1.50", "15e-1"));
    assert!(!number_eq("1e99999999999999999999", "1e99999999999999999998"));
    assert!(number_eq("10e99999999999999999998", "1e99999999999999999999"));
    assert!(number_eq("-0.0e7", "0"));
    assert!(number_eq("x", "x"));
    assert!(!number_eq("x", "1"));
}

#[test]
fn numerals_are_written_out() {
    assert_eq!(decimal(0), "0");
    assert_eq!(decimal(u64::MAX), "18446744073709551615");
    assert_eq!(fixed_decimal(42, 5), "00042");
    assert_eq!(fixed_hex(0xbeef, 8), "0000beef");
}

#[test]
fn paths_are_written_out() {
    assert_eq!(join("a", "b"), "ab");
    assert_eq!(child_path("/rows", "id"), "/rows/id");
    assert_eq!(item_path("/rows", 10), "/rows/10");
}

#[test]
fn texts_are_taken_apart() {
    assert_eq!(string_of(&chars_of("h\u{e9}")), "h\u{e9}");
    let parts: Vec<String> = split_at(&chars_of("a  b"), ' ')
        .iter()
        .map(|p| string_of(p))
        .collect();
    assert_eq!(parts, vec!["a", "", "b"]);
    assert!(starts_with("abc", "ab"));
    assert!(!starts_with("a", "ab"));
    assert!(contains("abcd", "bc"));
    assert!(contains("abcd", ""));
    assert!(!contains("abcd", "bd"));
    assert_eq!(read_number(&numbered_name(5, ".x"), ".x"), Some(5));
    assert_eq!(read_number(&numbered_name(5, ".x"), ".y"), None);
}

#[test]
fn sorted_maps_keep_their_keys_in_order() {
    let mut m: SortedMap<u32> = SortedMap::new();
    assert_eq!(m.insert("b".to_owned(), 1), None);
    assert_eq!(m.insert("a".to_owned(), 2), None);
    assert_eq!(m.insert("\u{e9}".to_owned(), 3), None);
    assert_eq!(m.insert("b".to_owned(), 4), Some(1));
    let keys: Vec<&str> = m.entries.iter().map(|(k, _)| k.as_str()).collect();
    assert_eq!(keys, vec!["a", "b", "\u{e9}"]);
    assert_eq!(m.get("b"), Some(&4));
    assert_eq!(m.remove("a"), Some(2));
    assert_eq!(m.remove("a"), None);
    assert!(!m.contains_key("a"));
    assert_eq!(m.len(), 2);
    assert_eq!(reversed(vec![1, 2, 3]), vec![3, 2, 1]);
}

#[test]
fn events_cut_short_or_changed_are_reported() {
    let bytes = encode_event(b"{\"kind\":\"write\"}");
    for k in 0..bytes.len() {
        assert!(decode_event(&bytes[..k], "f").is_err());
    }
    let start = bytes.iter().position(|b| *b == b'\n').unwrap() + 1;
    for i in start..bytes.len() {
        let mut wrong = bytes.clone();
        wrong[i] ^= 0x10;
        assert!(decode_event(&wrong, "f").is_err());
    }
}

#[test]
fn only_legal_json_numbers_are_read() {
    for bad in [
        "", "-", "+1", "01", "-01", "00", "1.", ".5", "-.5", "1.e5", "01.5", "1e", "1e+", "1e5x",
        "1.5.2", "1 ", "0x1",
    ] {
        assert!(Decimal::parse(bad).is_none(), "{bad}");
    }
    for good in ["0", "-0", "0.0", "10", "-10.50", "0e00", "1E+05", "0.5e-07"] {
        assert!(Decimal::parse(good).is_some(), "{good}");
    }
    assert!(number_eq("01", "01"));
    assert!(!number_eq("01", "1"));
}

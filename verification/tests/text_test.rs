use simple_geo_server::double::{
    abs_bits, finite, greater_of, is_equal, is_less, lesser_of, number, rank_of,
};
use simple_geo_server::numbers::{decimal_text, hex16, parse_unsigned, signed_decimal_text};
use simple_geo_server::order::stable_order;
use simple_geo_server::table::Table;
use simple_geo_server::text::{
    contains_text, is_before, is_letter_or_digit, lower, split, trim, trim_end_char,
    trim_start_char, upper,
};

#[test]
fn cases_of_letters() {
    assert_eq!(lower("GeoTIFF"), "geotiff");
    assert_eq!(lower("ÄÖ"), "äö");
    assert_eq!(upper("epsg:4326"), "EPSG:4326");
    assert_eq!(upper("straße"), "STRASSE");
    assert!(is_letter_or_digit('7') && is_letter_or_digit('é') && !is_letter_or_digit('-'));
}

#[test]
fn pieces_of_texts() {
    assert_eq!(split("a,b,,c", ','), vec!["a", "b", "", "c"]);
    assert_eq!(split("", ','), vec![""]);
    assert_eq!(trim("  \t a b \n"), "a b");
    assert_eq!(trim_end_char("ab\0\0", '\0'), "ab");
    assert_eq!(trim_start_char("//a/", '/'), "a/");
    assert!(contains_text("UTM zone 33N", "zone") && !contains_text("abc", "abcd"));
    assert!(contains_text("abc", ""));
}

#[test]
fn texts_are_ordered_as_std_orders_them() {
    let words = ["", "a", "aa", "b", "B", "é", "z", "Ω", "10", "9"];
    for a in words {
        for b in words {
            assert_eq!(is_before(a, b), a < b);
        }
    }
}

#[test]
fn numbers_as_texts() {
    assert_eq!(decimal_text(0), "0");
    assert_eq!(decimal_text(18446744073709551615), "18446744073709551615");
    assert_eq!(signed_decimal_text(-42), "-42");
    assert_eq!(signed_decimal_text(i64::MIN), "-9223372036854775808");
    assert_eq!(hex16(0xabc), "0000000000000abc");
    assert_eq!(parse_unsigned("65535", 65535), Some(65535));
    assert_eq!(parse_unsigned("65536", 65535), None);
    assert_eq!(parse_unsigned("+7", 255), Some(7));
    assert_eq!(parse_unsigned("", 255), None);
    assert_eq!(parse_unsigned("+", 255), None);
    assert_eq!(parse_unsigned("-1", 255), None);
    assert_eq!(parse_unsigned("0007", 255), Some(7));
    for n in [0u64, 9, 10, 99, 100, 12345, 4294967295] {
        assert_eq!(parse_unsigned(&decimal_text(n), u64::MAX), Some(n));
        assert_eq!(decimal_text(n), n.to_string());
    }
}

#[test]
fn doubles_are_ordered_by_their_bits() {
    let values = [
        0.0, -0.0, 1.0, -1.0, 1.5, 1e300, -1e300, 5e-324, f64::INFINITY, f64::NEG_INFINITY,
        f64::NAN,
    ];
    for a in values {
        assert_eq!(finite(a.to_bits()), a.is_finite());
        assert_eq!(number(a.to_bits()), !a.is_nan());
        if !a.is_nan() {
            assert_eq!(abs_bits(a.to_bits()), a.abs().to_bits());
        }
        for b in values {
            assert_eq!(is_less(a.to_bits(), b.to_bits()), a < b);
            assert_eq!(is_equal(a.to_bits(), b.to_bits()), a == b);
            if !a.is_nan() && !b.is_nan() {
                assert_eq!(rank_of(a.to_bits()) < rank_of(b.to_bits()), a < b);
            }
            let low = f64::from_bits(lesser_of(a.to_bits(), b.to_bits()));
            let high = f64::from_bits(greater_of(a.to_bits(), b.to_bits()));
            assert!(low == a.min(b) || (low.is_nan() && a.min(b).is_nan()));
            assert!(high == a.max(b) || (high.is_nan() && a.max(b).is_nan()));
        }
    }
}

#[test]
fn equal_keys_keep_their_order() {
    let keys: Vec<u64> = vec![3, 1, 2, 1, 3, 0];
    assert_eq!(stable_order(&keys), vec![5, 1, 3, 2, 0, 4]);
    let names: Vec<String> = vec!["b".to_string(), "a".to_string(), "b".to_string()];
    assert_eq!(stable_order(&names), vec![1, 0, 2]);
    let none: Vec<i64> = vec![];
    assert_eq!(stable_order(&none), Vec::<usize>::new());
}

#[test]
fn a_large_list_is_ordered() {
    let mut keys: Vec<u64> = Vec::new();
    let mut x: u64 = 12345;
    for _ in 0..20000 {
        x = x.wrapping_mul(6364136223846793005).wrapping_add(1442695040888963407);
        keys.push(x >> 40);
    }
    let order = stable_order(&keys);
    for i in 1..order.len() {
        let (a, b) = (order[i - 1], order[i]);
        assert!(keys[a] < keys[b] || (keys[a] == keys[b] && a < b));
    }
}

#[test]
fn a_table_holds_one_value_for_a_name() {
    let mut t: Table<u32> = Table::new();
    t.insert("a", 1);
    t.insert("b", 2);
    t.insert("a", 3);
    assert_eq!(t.len(), 2);
    assert_eq!(t.get("a"), Some(&3));
    assert!(t.contains("b") && !t.contains("c"));
    assert_eq!(t.remove("a"), Some(3));
    assert_eq!(t.remove("a"), None);
    assert_eq!(t.names(), vec!["b"]);
}

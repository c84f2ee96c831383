use onebrc::reading::{
    floor_div, magnitude, round_mean_of_tenths, parse_reading, push_decimal, push_hundredths, push_signed_tenths,
    push_tenths,
};
use onebrc::search::{compare_bytes, find_byte, ByteOrder};

fn written(f: impl FnOnce(&mut Vec<u8>)) -> String {
    let mut out = b"<".to_vec();
    f(&mut out);
    String::from_utf8(out).unwrap()
}

#[test]
fn search_find_byte_first_occurrence() {
    assert_eq!(find_byte(b';', b"a;b;c"), Some(1));
    assert_eq!(find_byte(b';', b";"), Some(0));
    assert_eq!(find_byte(b';', b"abc"), None);
    assert_eq!(find_byte(b'\n', b""), None);
}

#[test]
fn search_compare_bytes_order() {
    assert_eq!(compare_bytes(b"abc", b"abd"), ByteOrder::Less);
    assert_eq!(compare_bytes(b"abd", b"abc"), ByteOrder::Greater);
    assert_eq!(compare_bytes(b"ab", b"abc"), ByteOrder::Less);
    assert_eq!(compare_bytes(b"abc", b"ab"), ByteOrder::Greater);
    assert_eq!(compare_bytes(b"", b""), ByteOrder::Equal);
    assert_eq!(compare_bytes(b"Z", b"a"), ByteOrder::Less);
    assert_eq!(compare_bytes("é".as_bytes(), b"z"), ByteOrder::Greater);
    let words: [&[u8]; 5] = [b"", b"a", b"ab", b"b", b"ba"];
    for (i, x) in words.iter().enumerate() {
        for (j, y) in words.iter().enumerate() {
            let expected = if i < j {
                ByteOrder::Less
            } else if i == j {
                ByteOrder::Equal
            } else {
                ByteOrder::Greater
            };
            assert_eq!(compare_bytes(x, y), expected);
            assert_eq!(x.cmp(y) == std::cmp::Ordering::Less, expected == ByteOrder::Less);
        }
    }
}

#[test]
fn reading_parse_reading_scales() {
    assert_eq!(parse_reading(b"12.3", 1), Some(123));
    assert_eq!(parse_reading(b"12.3", 10), Some(1230));
    assert_eq!(parse_reading(b"-12.3", 10), Some(-1230));
    assert_eq!(parse_reading(b"214748364.8", 1), None);
    assert_eq!(parse_reading(b"214748364", 10), Some(2147483640));
    assert_eq!(parse_reading(b"-214748364", 10), Some(-2147483640));
    assert_eq!(parse_reading(b"214748365", 10), None);
    assert_eq!(parse_reading(b"abc", 1), Some(0));
}

#[test]
fn reading_fixed_point_text() {
    assert_eq!(written(|o| push_decimal(o, 0)), "<0");
    assert_eq!(written(|o| push_decimal(o, 18446744073709551615)), "<18446744073709551615");
    assert_eq!(written(|o| push_tenths(o, false, 7)), "<0.7");
    assert_eq!(written(|o| push_tenths(o, true, 1234)), "<-123.4");
    assert_eq!(written(|o| push_signed_tenths(o, -5)), "<-0.5");
    assert_eq!(written(|o| push_signed_tenths(o, 0)), "<0.0");
    assert_eq!(written(|o| push_signed_tenths(o, i64::MIN)), "<-922337203685477580.8");
    assert_eq!(written(|o| push_hundredths(o, -3)), "<-0.0");
    assert_eq!(written(|o| push_hundredths(o, 16)), "<0.2");
    assert_eq!(written(|o| push_hundredths(o, -16)), "<-0.2");
    assert_eq!(written(|o| push_hundredths(o, i32::MIN)), "<-21474836.5");
}

#[test]
fn reading_integer_helpers() {
    assert_eq!(magnitude(i64::MIN), 9223372036854775808);
    assert_eq!(magnitude(-3), 3);
    assert_eq!(floor_div(-7, 2), -4);
    assert_eq!(floor_div(7, 2), 3);
    assert_eq!(floor_div(-6, 2), -3);
    assert_eq!(floor_div(i64::MIN, 1), i64::MIN);
    assert_eq!(floor_div(i64::MIN, 10), i64::MIN.div_euclid(10));
    assert_eq!(floor_div(i64::MAX, u64::MAX), 0);
    assert_eq!(floor_div(-1, u64::MAX), -1);
    assert_eq!(round_mean_of_tenths(21, 2), 11);
    assert_eq!(round_mean_of_tenths(-21, 2), -10);
    assert_eq!(round_mean_of_tenths(-22, 3), -7);
    assert_eq!(round_mean_of_tenths(i64::MAX, 1), i64::MAX);
    assert_eq!(round_mean_of_tenths(i64::MIN, 1), i64::MIN);
    assert_eq!(round_mean_of_tenths(i64::MAX, u32::MAX), 2147483648);
}

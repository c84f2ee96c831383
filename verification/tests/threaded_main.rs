//! The temperature reader of the threaded program's entry point, which
//! shares the single-threaded station model (tenths of a degree).

use onebrc::baseline::parse_float_str_to_int;

#[test]
fn float_parse_pos() {
    assert_eq!(parse_float_str_to_int(b"10.20"), 1020);
}

#[test]
fn float_parse_neg() {
    assert_eq!(parse_float_str_to_int(b"-10.20"), -1020);
}

#[test]
fn float_parse_large() {
    assert_eq!(parse_float_str_to_int(b"11110.20"), 1111020);
}

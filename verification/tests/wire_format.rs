use floorcast::wire::{
    format_frame, format_i32, format_u128, parse_i32, parse_u128, split_bytes, strip_newlines,
    COMMA,
};

#[test]
fn parse_u128_reads_decimal_numerals() {
    assert_eq!(parse_u128(b"0"), Some(0));
    assert_eq!(parse_u128(b"1000"), Some(1000));
    assert_eq!(parse_u128(b"007"), Some(7));
    assert_eq!(
        parse_u128(b"340282366920938463463374607431768211455"),
        Some(u128::MAX)
    );
}

#[test]
fn parse_u128_rejects_non_numerals() {
    assert_eq!(parse_u128(b""), None);
    assert_eq!(parse_u128(b"12a"), None);
    assert_eq!(parse_u128(b"-1"), None);
    assert_eq!(parse_u128(b" 1"), None);
    assert_eq!(parse_u128(b"340282366920938463463374607431768211456"), None);
}

#[test]
fn parse_i32_reads_signed_tokens() {
    assert_eq!(parse_i32(b"0"), Some(0));
    assert_eq!(parse_i32(b"36"), Some(36));
    assert_eq!(parse_i32(b"-17"), Some(-17));
    assert_eq!(parse_i32(b"+5"), Some(5));
    assert_eq!(parse_i32(b"-0"), Some(0));
    assert_eq!(parse_i32(b"2147483647"), Some(i32::MAX));
    assert_eq!(parse_i32(b"-2147483648"), Some(i32::MIN));
}

#[test]
fn parse_i32_rejects_out_of_range_and_malformed() {
    assert_eq!(parse_i32(b"2147483648"), None);
    assert_eq!(parse_i32(b"-2147483649"), None);
    assert_eq!(parse_i32(b""), None);
    assert_eq!(parse_i32(b"-"), None);
    assert_eq!(parse_i32(b"+"), None);
    assert_eq!(parse_i32(b"1.5"), None);
    assert_eq!(parse_i32(b"99999999999999999999999999999999999999990"), None);
}

#[test]
fn format_u128_writes_canonical_numerals() {
    assert_eq!(format_u128(0), b"0".to_vec());
    assert_eq!(format_u128(10), b"10".to_vec());
    assert_eq!(format_u128(1665000000123), b"1665000000123".to_vec());
    assert_eq!(
        format_u128(u128::MAX),
        b"340282366920938463463374607431768211455".to_vec()
    );
}

#[test]
fn format_i32_writes_signed_tokens() {
    assert_eq!(format_i32(0), b"0".to_vec());
    assert_eq!(format_i32(42), b"42".to_vec());
    assert_eq!(format_i32(-17), b"-17".to_vec());
    assert_eq!(format_i32(i32::MIN), b"-2147483648".to_vec());
}

#[test]
fn decimal_round_trip_on_samples() {
    for v in [0i32, 1, -1, 36, -36, 999, i32::MAX, i32::MIN] {
        let bytes = format_i32(v);
        assert_eq!(parse_i32(&bytes), Some(v));
    }
}

#[test]
fn split_bytes_keeps_empty_tokens() {
    let r = split_bytes(b"a,,b", COMMA);
    assert_eq!(r, vec![b"a".to_vec(), b"".to_vec(), b"b".to_vec()]);
    let empty = split_bytes(b"", COMMA);
    assert_eq!(empty, vec![b"".to_vec()]);
    let trailing = split_bytes(b"1,2,", COMMA);
    assert_eq!(trailing, vec![b"1".to_vec(), b"2".to_vec(), b"".to_vec()]);
}

#[test]
fn strip_newlines_removes_every_newline() {
    assert_eq!(strip_newlines(b"1,2\n"), b"1,2".to_vec());
    assert_eq!(strip_newlines(b"a\nb\n"), b"ab".to_vec());
    assert_eq!(strip_newlines(b"plain"), b"plain".to_vec());
}

#[test]
fn format_frame_joins_rows_and_cells() {
    let matrix = vec![vec![1, -2, 3], vec![4, 5, 6]];
    let s = format_frame(12345, &matrix);
    assert_eq!(s, "12345:1,-2,3;4,5,6");
}

#[test]
fn format_frame_single_row() {
    let matrix = vec![vec![7]];
    assert_eq!(format_frame(0, &matrix), "0:7");
}

#[test]
fn format_frame_empty_matrix_is_just_the_prefix() {
    let matrix: Vec<Vec<i32>> = vec![];
    assert_eq!(format_frame(42, &matrix), "42:");
}

#[test]
fn format_frame_carries_negative_cells() {
    let matrix = vec![vec![i32::MIN, i32::MAX]];
    assert_eq!(format_frame(1, &matrix), "1:-2147483648,2147483647");
}

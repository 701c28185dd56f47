use mandart_engine::decimal::{format_decimal, parse_decimal_at, UNIT};
use mandart_engine::field_text::{decode_grid, encode_grid, MalformedGrid};

fn fixed(x: f64) -> i64 {
    (x * 1_000_000.0).round() as i64
}

#[test]
fn test_save_and_read_grid_csv() {
    let grid: Vec<Vec<f64>> = vec![vec![0.0, 1.0, 2.0], vec![3.0, 4.0, 5.0]];
    let fixed_grid: Vec<Vec<i64>> = grid
        .iter()
        .map(|row| row.iter().map(|v| fixed(*v)).collect())
        .collect();

    let text = encode_grid(&fixed_grid);
    assert_eq!(
        String::from_utf8(text.clone()).unwrap(),
        "0.000000,1.000000,2.000000\n3.000000,4.000000,5.000000\n"
    );

    let read = decode_grid(&text).expect("Failed to read CSV");
    let parsed_read_result: Vec<Vec<f64>> = read
        .iter()
        .map(|row| row.iter().map(|v| *v as f64 / 1_000_000.0).collect())
        .collect();
    assert_eq!(parsed_read_result, grid, "Grid CSV content mismatch");
}

#[test]
fn decimal_text_forms() {
    assert_eq!(format_decimal(0), b"0.000000".to_vec());
    assert_eq!(format_decimal(-1), b"-0.000001".to_vec());
    assert_eq!(format_decimal(1_500_000), b"1.500000".to_vec());
    assert_eq!(format_decimal(-12_345_678), b"-12.345678".to_vec());
    assert_eq!(format_decimal(50 * UNIT), b"50.000000".to_vec());
    assert_eq!(format_decimal(i64::MAX), b"9223372036854.775807".to_vec());
    assert_eq!(format_decimal(i64::MIN), b"-9223372036854.775808".to_vec());
}

#[test]
fn decimal_parse_cases() {
    assert_eq!(parse_decimal_at(b"1.500000", 0), Some((1_500_000, 8)));
    assert_eq!(parse_decimal_at(b"x-0.000001,", 1), Some((-1, 10)));
    assert_eq!(parse_decimal_at(b"-9223372036854.775808", 0), Some((i64::MIN, 21)));
    assert_eq!(parse_decimal_at(b"9223372036854.775807", 0), Some((i64::MAX, 20)));
    assert_eq!(parse_decimal_at(b"9223372036854.775808", 0), None);
    assert_eq!(parse_decimal_at(b"1.5", 0), None);
    assert_eq!(parse_decimal_at(b".500000", 0), None);
    assert_eq!(parse_decimal_at(b"1,500000", 0), None);
    assert_eq!(parse_decimal_at(b"12345678901234.000000", 0), None);
    assert_eq!(parse_decimal_at(b"", 0), None);
}

#[test]
fn grid_round_trip_extremes() {
    let grid: Vec<Vec<i64>> = vec![
        vec![i64::MIN, -1, 0, 1, i64::MAX],
        vec![],
        vec![42_123_456],
    ];
    let text = encode_grid(&grid);
    assert_eq!(decode_grid(&text), Ok(grid));
}

#[test]
fn grid_empty_and_blank_rows() {
    assert_eq!(encode_grid(&vec![]), Vec::<u8>::new());
    assert_eq!(decode_grid(b""), Ok(vec![]));
    assert_eq!(decode_grid(b"\n"), Ok(vec![vec![]]));
    assert_eq!(encode_grid(&vec![vec![], vec![]]), b"\n\n".to_vec());
}

#[test]
fn grid_malformed_texts() {
    assert_eq!(decode_grid(b"1.000000"), Err(MalformedGrid));
    assert_eq!(decode_grid(b"1.000000,\n"), Err(MalformedGrid));
    assert_eq!(decode_grid(b"01.000000\n"), Err(MalformedGrid));
    assert_eq!(decode_grid(b"-0.000000\n"), Err(MalformedGrid));
    assert_eq!(decode_grid(b"1.0000000\n"), Err(MalformedGrid));
    assert_eq!(decode_grid(b"abc\n"), Err(MalformedGrid));
    assert_eq!(decode_grid(b"1.000000;2.000000\n"), Err(MalformedGrid));
}

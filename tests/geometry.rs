use cropped::geometry::{length_number, read_coordinate, scaled_number, Size};
use cropped::object::{Decimal, Value};
use cropped::overlay::{
    format_timestamp, pad_digits,
    digits, generate_crop_marks, generate_datetime, generate_page_number, make_op, GlyphWidth,
};

fn number(v: &Value) -> f64 {
    match v {
        Value::Integer(i) => *i as f64,
        Value::Real(d) => d.mantissa as f64 / 10f64.powi(d.scale as i32),
        other => panic!("not a number: {:?}", other),
    }
}

#[test]
fn whole_points_become_integers() {
    assert_eq!(scaled_number(59_500_000), Value::Integer(595));
    assert_eq!(scaled_number(8_150_000), Value::Real(Decimal { mantissa: 8_150_000, scale: 5 }));
    assert_eq!(length_number(8_420_000), Value::Integer(842));
    assert_eq!(length_number(5), Value::Real(Decimal { mantissa: 5, scale: 4 }));
}

#[test]
fn coordinates_are_read_exactly() {
    assert_eq!(read_coordinate(&Value::Integer(612)), Some(6_120_000));
    assert_eq!(read_coordinate(&Value::Real(Decimal { mantissa: 4325, scale: 1 })), Some(4_325_000));
    // Finer than 1/10000 point: rounded toward zero.
    assert_eq!(read_coordinate(&Value::Real(Decimal { mantissa: 123_456, scale: 5 })), Some(12_345));
    assert_eq!(read_coordinate(&Value::Real(Decimal { mantissa: 59_527_559, scale: 5 })), Some(5_952_755));
    assert_eq!(read_coordinate(&Value::Real(Decimal { mantissa: -59_527_559, scale: 5 })), Some(-5_952_755));
    assert_eq!(read_coordinate(&Value::Real(Decimal { mantissa: 7, scale: 30 })), Some(0));
    assert_eq!(read_coordinate(&Value::Real(Decimal { mantissa: i64::MIN, scale: 5 })), None);
    assert_eq!(read_coordinate(&Value::Name("x".to_string())), None);
}

#[test]
fn size_in_points() {
    assert_eq!(Size::points(595, 842), Size { width: 5_950_000, height: 8_420_000 });
}

#[test]
fn crop_marks_surround_the_trim_box() {
    // Trim 432 x 648 centered on 595 x 842: lower-left corner at (81.5, 97).
    let ops = generate_crop_marks(8_150_000, 9_700_000, 43_200_000, 64_800_000);
    assert_eq!(ops.len(), 26);
    assert_eq!(ops[0].operator, "w");
    assert_eq!(number(&ops[0].operands[0]), 0.5);
    assert_eq!(ops[1].operator, "G");
    assert_eq!(ops[2].operator, "m");
    assert_eq!(number(&ops[2].operands[0]), 56.5);
    assert_eq!(number(&ops[2].operands[1]), 97.0);
    assert_eq!(ops[3].operator, "l");
    assert_eq!(number(&ops[3].operands[0]), 76.5);
    assert_eq!(ops[4].operator, "S");
    // Top-right vertical mark runs from top + 5 to top + 25.
    assert_eq!(ops[23].operator, "m");
    assert_eq!(number(&ops[23].operands[0]), 513.5);
    assert_eq!(number(&ops[23].operands[1]), 750.0);
    assert_eq!(number(&ops[24].operands[1]), 770.0);
}

#[test]
fn timestamp_is_shown_bottom_left() {
    let ops = generate_datetime(b"2025-01-02 03:04:05 AEDT", "F1");
    let names: Vec<&str> = ops.iter().map(|o| o.operator.as_str()).collect();
    assert_eq!(names, vec!["BT", "Tf", "Td", "Tj", "ET"]);
    assert_eq!(ops[1].operands, vec![Value::Name("F1".to_string()), Value::Integer(10)]);
    assert_eq!(number(&ops[2].operands[0]), 28.35);
    assert_eq!(number(&ops[2].operands[1]), 28.35);
    assert_eq!(ops[3].operands, vec![Value::String(b"2025-01-02 03:04:05 AEDT".to_vec())]);
}

#[test]
fn footer_uses_the_given_font_name() {
    let ops = generate_datetime(b"", "F2");
    assert_eq!(ops[1].operands, vec![Value::Name("F2".to_string()), Value::Integer(10)]);
    assert_eq!(ops[3].operands, vec![Value::String(vec![])]);
    let ops = generate_page_number(3, 5_950_000, "F7", GlyphWidth { advance: 1, units_per_em: 2 });
    assert_eq!(ops[1].operands[0], Value::Name("F7".to_string()));
}

#[test]
fn page_number_is_right_aligned() {
    let ops = generate_page_number(12, 5_950_000, "F1", GlyphWidth { advance: 500, units_per_em: 1000 });
    assert_eq!(ops[3].operands, vec![Value::String(b"12".to_vec())]);
    // 595 - 28.35 - 2 * 0.5 * 10 = 556.65
    assert!((number(&ops[2].operands[0]) - 556.65).abs() < 1e-9);
    assert_eq!(number(&ops[2].operands[1]), 28.35);
}

#[test]
fn digits_of_numbers() {
    assert_eq!(digits(0), b"0".to_vec());
    assert_eq!(digits(7), b"7".to_vec());
    assert_eq!(digits(1040), b"1040".to_vec());
    assert_eq!(digits(u64::MAX), u64::MAX.to_string().into_bytes());
}

#[test]
fn numeric_operation() {
    let op = make_op("cm", vec![100_000, 0, 0, 100_000, 8_150_000, 9_700_000]);
    assert_eq!(op.operator, "cm");
    assert_eq!(op.operands[0], Value::Integer(1));
    assert_eq!(number(&op.operands[4]), 81.5);
    assert_eq!(number(&op.operands[5]), 97.0);
}

#[test]
fn timestamp_is_formatted_with_padding() {
    assert_eq!(format_timestamp(2025, 1, 2, 3, 4, 5, b"AEDT"), b"2025-01-02 03:04:05 AEDT".to_vec());
    assert_eq!(format_timestamp(987, 12, 31, 23, 59, 0, b"UTC"), b"0987-12-31 23:59:00 UTC".to_vec());
    assert_eq!(pad_digits(7, 3), b"007".to_vec());
    assert_eq!(pad_digits(12345, 2), b"12345".to_vec());
}

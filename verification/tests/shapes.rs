use tsv_reader::{Error, FieldShape, FieldValue, IntWidth, parse_by_shape, Walker};

fn object_shape() -> FieldShape {
    // colour: 3 hex bytes; fill: bool; shape: one of three variants
    FieldShape::Record(vec![
        FieldShape::Hex(3),
        FieldShape::Bool,
        FieldShape::Tagged(vec![
            (b"Line".to_vec(), vec![
                FieldShape::UInt(IntWidth::W32),
                FieldShape::UInt(IntWidth::W32),
                FieldShape::UInt(IntWidth::W32),
                FieldShape::UInt(IntWidth::W32),
            ]),
            (b"Circle".to_vec(), vec![
                FieldShape::UInt(IntWidth::W32),
                FieldShape::UInt(IntWidth::W32),
                FieldShape::UInt(IntWidth::W32),
            ]),
        ]),
    ])
}

#[test]
fn shape_parses_a_record_with_a_variant() {
    let shape = object_shape();
    let mut fields = Walker::new(b"550055\ttrue\tCircle\t200\t300\t20");
    let v = parse_by_shape(&shape, &mut fields).unwrap();
    assert!(fields.is_empty());
    assert_eq!(
        v,
        FieldValue::Record(vec![
            FieldValue::Bytes(vec![0x55, 0x00, 0x55]),
            FieldValue::Bool(true),
            FieldValue::Variant(
                1,
                vec![
                    FieldValue::UInt(200),
                    FieldValue::UInt(300),
                    FieldValue::UInt(20),
                ]
            ),
        ])
    );
}

#[test]
fn shape_rejects_an_unknown_variant_tag() {
    let shape = object_shape();
    let mut fields = Walker::new(b"550055\ttrue\tSquare\t1\t2");
    let r = parse_by_shape(&shape, &mut fields);
    assert_eq!(r.err().unwrap(), Error::ParseField);
}

#[test]
fn shape_tag_match_is_exact_and_case_sensitive() {
    let shape = object_shape();
    let mut fields = Walker::new(b"550055\ttrue\tcircle\t200\t300\t20");
    let r = parse_by_shape(&shape, &mut fields);
    assert_eq!(r.err().unwrap(), Error::ParseField);
}

#[test]
fn shape_propagates_a_payload_failure() {
    let shape = object_shape();
    let mut fields = Walker::new(b"550055\ttrue\tCircle\t200\tx\t20");
    let r = parse_by_shape(&shape, &mut fields);
    assert_eq!(r.err().unwrap(), Error::ParseField);
}

#[test]
fn shape_scalars_and_text() {
    let shape = FieldShape::Record(vec![
        FieldShape::UInt(IntWidth::W8),
        FieldShape::Int(IntWidth::W8),
        FieldShape::Text,
        FieldShape::Unit,
    ]);
    let mut fields = Walker::new(b"255\t-128\thello");
    let v = parse_by_shape(&shape, &mut fields).unwrap();
    assert_eq!(
        v,
        FieldValue::Record(vec![
            FieldValue::UInt(255),
            FieldValue::Int(-128),
            FieldValue::Text(b"hello"),
            FieldValue::Unit,
        ])
    );
    assert!(fields.is_empty());
}

#[test]
fn shape_truncated_line_is_end_of_line() {
    let shape = FieldShape::Record(vec![
        FieldShape::UInt(IntWidth::W8),
        FieldShape::UInt(IntWidth::W8),
    ]);
    let mut fields = Walker::new(b"42");
    let r = parse_by_shape(&shape, &mut fields);
    assert_eq!(r.err().unwrap(), Error::EndOfLine);
}

#[test]
fn shape_round_trip_of_a_rendered_value() {
    let shape = object_shape();
    let line = format!("{}\t{}\t{}\t{}\t{}\t{}", "a0b1c2", "false", "Line", 0, 0, 500);
    let mut fields = Walker::new(line.as_bytes());
    let r = parse_by_shape(&shape, &mut fields);
    // the Line variant takes four coordinates; the rendering above gives three
    assert_eq!(r.err().unwrap(), Error::EndOfLine);

    let line = format!("{}\t{}\t{}\t{}\t{}\t{}\t{}", "a0b1c2", "false", "Line", 0, 0, 500, 500);
    let mut fields = Walker::new(line.as_bytes());
    let v = parse_by_shape(&shape, &mut fields).unwrap();
    assert!(fields.is_empty());
    assert_eq!(
        v,
        FieldValue::Record(vec![
            FieldValue::Bytes(vec![0xa0, 0xb1, 0xc2]),
            FieldValue::Bool(false),
            FieldValue::Variant(
                0,
                vec![
                    FieldValue::UInt(0),
                    FieldValue::UInt(0),
                    FieldValue::UInt(500),
                    FieldValue::UInt(500),
                ]
            ),
        ])
    );
}

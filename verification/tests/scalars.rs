use tsv_reader::{Document, Error, Walker};

#[test]
fn text_borrows_field() {
    let data = b"hello\tworld";
    let mut doc = Document::new(data).unwrap();
    let pair: (&[u8], &[u8]) = doc.parse_one().unwrap();
    assert_eq!(pair.0, b"hello");
    assert_eq!(pair.1, b"world");
}

#[test]
fn bool_true_and_false() {
    let mut doc = Document::new(b"true\nfalse").unwrap();
    let t: bool = doc.parse_one().unwrap();
    let f: bool = doc.parse_one().unwrap();
    assert!(t);
    assert!(!f);
}

#[test]
fn bool_rejects_other_text() {
    let mut doc = Document::new(b"True").unwrap();
    let r: Result<bool, Error> = doc.parse_one();
    assert_eq!(r.err().unwrap(), Error::ParseField);
}

#[test]
fn uint_bounds() {
    let mut doc = Document::new(b"255\n0\n256").unwrap();
    let hi: u8 = doc.parse_one().unwrap();
    assert_eq!(hi, 255);
    let lo: u8 = doc.parse_one().unwrap();
    assert_eq!(lo, 0);
    let over: Result<u8, Error> = doc.parse_one();
    assert_eq!(over.err().unwrap(), Error::ParseField);
}

#[test]
fn uint_accepts_leading_plus() {
    let mut doc = Document::new(b"+42").unwrap();
    let v: u8 = doc.parse_one().unwrap();
    assert_eq!(v, 42);
}

#[test]
fn uint_rejects_minus() {
    let mut doc = Document::new(b"-1").unwrap();
    let r: Result<u32, Error> = doc.parse_one();
    assert_eq!(r.err().unwrap(), Error::ParseField);
}

#[test]
fn int_bounds() {
    let mut doc = Document::new(b"-128\n127\n-129\n128").unwrap();
    let lo: i8 = doc.parse_one().unwrap();
    assert_eq!(lo, -128);
    let hi: i8 = doc.parse_one().unwrap();
    assert_eq!(hi, 127);
    let under: Result<i8, Error> = doc.parse_one();
    assert_eq!(under.err().unwrap(), Error::ParseField);
    let over: Result<i8, Error> = doc.parse_one();
    assert_eq!(over.err().unwrap(), Error::ParseField);
}

#[test]
fn int_minus_zero() {
    let mut doc = Document::new(b"-0").unwrap();
    let v: i64 = doc.parse_one().unwrap();
    assert_eq!(v, 0);
}

#[test]
fn widest_integers() {
    let mut doc = Document::new(
        b"340282366920938463463374607431768211455\n\
          -170141183460469231731687303715884105728\n\
          170141183460469231731687303715884105727",
    )
    .unwrap();
    let umax: u128 = doc.parse_one().unwrap();
    assert_eq!(umax, u128::MAX);
    let imin: i128 = doc.parse_one().unwrap();
    assert_eq!(imin, i128::MIN);
    let imax: i128 = doc.parse_one().unwrap();
    assert_eq!(imax, i128::MAX);
}

#[test]
fn widest_integer_overflow() {
    let mut doc = Document::new(
        b"340282366920938463463374607431768211456\n\
          -170141183460469231731687303715884105729",
    )
    .unwrap();
    let over: Result<u128, Error> = doc.parse_one();
    assert_eq!(over.err().unwrap(), Error::ParseField);
    let under: Result<i128, Error> = doc.parse_one();
    assert_eq!(under.err().unwrap(), Error::ParseField);
}

#[test]
fn empty_field_is_not_a_number() {
    let mut doc = Document::new(b"").unwrap();
    let r: Result<u32, Error> = doc.parse_one();
    assert_eq!(r.err().unwrap(), Error::ParseField);
}

#[test]
fn hex_single_byte() {
    let mut doc = Document::new(b"0A").unwrap();
    let v: [u8; 1] = doc.parse_one().unwrap();
    assert_eq!(v, [10]);
}

#[test]
fn hex_three_bytes_mixed_case() {
    let mut doc = Document::new(b"FFFFFF\na0B1c2").unwrap();
    let white: [u8; 3] = doc.parse_one().unwrap();
    assert_eq!(white, [255, 255, 255]);
    let mixed: [u8; 3] = doc.parse_one().unwrap();
    assert_eq!(mixed, [0xa0, 0xb1, 0xc2]);
}

#[test]
fn hex_wrong_length() {
    let mut doc = Document::new(b"FFF").unwrap();
    let r: Result<[u8; 2], Error> = doc.parse_one();
    assert_eq!(r.err().unwrap(), Error::ParseField);
}

#[test]
fn hex_bad_digit() {
    let mut doc = Document::new(b"GG").unwrap();
    let r: Result<[u8; 1], Error> = doc.parse_one();
    assert_eq!(r.err().unwrap(), Error::ParseField);
}

#[test]
fn next_field_walks_and_stays_at_end() {
    let mut fields = Walker::new(b"a\tb");
    assert_eq!(fields.next_field().unwrap(), b"a");
    assert_eq!(fields.next_field().unwrap(), b"b");
    assert_eq!(fields.next_field().err().unwrap(), Error::EndOfLine);
    assert_eq!(fields.next_field().err().unwrap(), Error::EndOfLine);
}

#[test]
fn end_of_document_is_stable() {
    let mut doc = Document::new(b"7").unwrap();
    let v: u8 = doc.parse_one().unwrap();
    assert_eq!(v, 7);
    let e1: Result<u8, Error> = doc.parse_one();
    let e2: Result<u8, Error> = doc.parse_one();
    assert_eq!(e1.err().unwrap(), Error::EndOfDocument);
    assert_eq!(e2.err().unwrap(), Error::EndOfDocument);
}

#[test]
fn error_messages() {
    assert_eq!(Error::Utf8.message(), "Error::Utf8");
    assert_eq!(Error::ParseField.message(), "Error::ParseField");
    assert_eq!(Error::EndOfDocument.message(), "Error::EndOfDocument");
    assert_eq!(Error::EndOfLine.message(), "Error::EndOfLine");
    assert_eq!(Error::SurplusFields.message(), "Error::SurplusFields");
}

#[test]
fn utf8_boundary_cases() {
    assert!(Document::new(b"").is_ok());
    assert!(Document::new("h\u{00e9}llo\tw\u{00f6}rld\n\u{4e2d}\u{6587}".as_bytes()).is_ok());
    assert_eq!(Document::new(b"\x80").err().unwrap(), Error::Utf8);
    assert_eq!(Document::new(b"\xC0\xAF").err().unwrap(), Error::Utf8);
    assert_eq!(Document::new(b"\xED\xA0\x80").err().unwrap(), Error::Utf8);
    assert_eq!(Document::new(b"\xF4\x90\x80\x80").err().unwrap(), Error::Utf8);
}

#[test]
fn empty_line_is_one_empty_field() {
    let mut doc = Document::new(b"").unwrap();
    let text: &[u8] = doc.parse_one().unwrap();
    assert_eq!(text, b"");
    let done: Result<&[u8], Error> = doc.parse_one();
    assert_eq!(done.err().unwrap(), Error::EndOfDocument);
}

#[test]
fn unit_type_consumes_no_fields() {
    let mut fields = Walker::new(b"anything");
    let () = fields.parse_one().unwrap();
    assert!(!fields.is_empty());
    assert_eq!(fields.next_field().unwrap(), b"anything");
}

use tsv_reader::{Document, Error, Read, Walker};

#[derive(PartialEq, Debug)]
struct Header<'doc> {
    version: u32,
    title: &'doc [u8],
    background: [u8; 3],
}

impl<'doc> Read<'doc> for Header<'doc> {
    fn parse_tsv(fields: &mut Walker<'doc>) -> Result<Self, Error> {
        Ok(Header {
            version: fields.parse_one()?,
            title: fields.parse_one()?,
            background: fields.parse_one()?,
        })
    }
}

#[derive(PartialEq, Debug)]
enum Shape {
    Line(u32, u32, u32, u32),
    Circle(u32, u32, u32),
    Rectangle(u32, u32, u32, u32),
}

impl<'doc> Read<'doc> for Shape {
    fn parse_tsv(fields: &mut Walker<'doc>) -> Result<Self, Error> {
        match fields.parse_tag(&[b"Line" as &[u8], b"Circle", b"Rectangle"])? {
            0 => Ok(Shape::Line(
                fields.parse_one()?,
                fields.parse_one()?,
                fields.parse_one()?,
                fields.parse_one()?,
            )),
            1 => Ok(Shape::Circle(
                fields.parse_one()?,
                fields.parse_one()?,
                fields.parse_one()?,
            )),
            2 => Ok(Shape::Rectangle(
                fields.parse_one()?,
                fields.parse_one()?,
                fields.parse_one()?,
                fields.parse_one()?,
            )),
            _ => Err(Error::ParseField),
        }
    }
}

#[test]
fn header_end_to_end() {
    let mut doc = Document::new(b"1\tTitle\tFFFFFF\n").unwrap();
    let header: Header = doc.parse_one().unwrap();
    assert_eq!(
        header,
        Header {
            version: 1,
            title: b"Title",
            background: [255, 255, 255],
        }
    );
}

#[test]
fn tuple_record_parsed_twice() {
    let mut doc = Document::new(b"42\t31").unwrap();
    let first: (u8, u8) = doc.parse_one().unwrap();
    assert_eq!(first, (42, 31));
    let second: Result<(u8, u8), Error> = doc.parse_one();
    assert_eq!(second.err().unwrap(), Error::EndOfDocument);
}

#[test]
fn enum_dispatches_on_variant_name() {
    let mut doc = Document::new(b"Circle\t200\t300\t20\nLine\t0\t0\t500\t500").unwrap();
    let c: Shape = doc.parse_one().unwrap();
    assert_eq!(c, Shape::Circle(200, 300, 20));
    let l: Shape = doc.parse_one().unwrap();
    assert_eq!(l, Shape::Line(0, 0, 500, 500));
}

#[test]
fn enum_rejects_unknown_tag() {
    let mut doc = Document::new(b"Triangle\t1\t2\t3").unwrap();
    let r: Result<Shape, Error> = doc.parse_one();
    assert_eq!(r.err().unwrap(), Error::ParseField);
}

#[test]
fn enum_tag_match_is_exact() {
    let mut doc = Document::new(b"circle\t200\t300\t20").unwrap();
    let r: Result<Shape, Error> = doc.parse_one();
    assert_eq!(r.err().unwrap(), Error::ParseField);
}

#[test]
fn round_trip_rendered_records() {
    let pairs: Vec<(u32, u32)> = vec![(0, 0), (42, 31), (4294967295, 1)];
    for &(a, b) in pairs.iter() {
        let line = format!("{}\t{}", a, b);
        let mut doc = Document::new(line.as_bytes()).unwrap();
        let back: (u32, u32) = doc.parse_one().unwrap();
        assert_eq!(back, (a, b));
    }
}

#[test]
fn round_trip_rendered_header() {
    let line = format!("{}\t{}\t{}", 7, "Example Title", "00FF7f");
    let mut doc = Document::new(line.as_bytes()).unwrap();
    let header: Header = doc.parse_one().unwrap();
    assert_eq!(
        header,
        Header {
            version: 7,
            title: b"Example Title",
            background: [0x00, 0xff, 0x7f],
        }
    );
}

#[test]
fn parse_iter_collects_until_first_failure() {
    let doc = Document::new(b"1\n2\n3").unwrap();
    let all: Vec<u8> = doc.parse_iter();
    assert_eq!(all, vec![1, 2, 3]);

    let doc = Document::new(b"1\nx\n3").unwrap();
    let some: Vec<u8> = doc.parse_iter();
    assert_eq!(some, vec![1]);
}

#[test]
fn parse_iter_after_header() {
    let data = b"1\tExample\tFFFFFF\nCircle\t1\t2\t3\nLine\t1\t2\t3\t4";
    let mut doc = Document::new(data).unwrap();
    let header: Header = doc.parse_one().unwrap();
    assert_eq!(header.version, 1);
    let shapes: Vec<Shape> = doc.parse_iter();
    assert_eq!(shapes, vec![Shape::Circle(1, 2, 3), Shape::Line(1, 2, 3, 4)]);
}

#[test]
fn strict_line_entry_rejects_surplus() {
    let r: Result<u8, Error> = Walker::parse_one_line(b"42\t0");
    assert_eq!(r.err().unwrap(), Error::SurplusFields);
    let ok: u8 = Walker::parse_one_line(b"42").unwrap();
    assert_eq!(ok, 42);
}

#[test]
fn walker_parse_one_leaves_remaining_fields() {
    let mut fields = Walker::new(b"42\trest");
    let v: u8 = fields.parse_one().unwrap();
    assert_eq!(v, 42);
    assert!(!fields.is_empty());
    assert_eq!(fields.next_field().unwrap(), b"rest");
    assert!(fields.is_empty());
}

#[test]
fn round_trip_rendered_document() {
    let recs = vec![(1u32, 2u32), (300, 400), (0, 4294967295)];
    let mut text = String::new();
    for (i, &(a, b)) in recs.iter().enumerate() {
        if i > 0 {
            text.push('\n');
        }
        text += &format!("{}\t{}", a, b);
    }
    let doc = Document::new(text.as_bytes()).unwrap();
    let back: Vec<(u32, u32)> = doc.parse_iter();
    assert_eq!(back, recs);
}

#[test]
fn parse_tag_picks_the_matching_name() {
    let mut fields = Walker::new(b"Circle\t7");
    let i = fields.parse_tag(&[b"Line" as &[u8], b"Circle"]).unwrap();
    assert_eq!(i, 1);
    assert_eq!(fields.next_field().unwrap(), b"7");
}

#[test]
fn parse_tag_consumes_an_unknown_tag() {
    let mut fields = Walker::new(b"Square\t7");
    let r = fields.parse_tag(&[b"Line" as &[u8], b"Circle"]);
    assert_eq!(r.err().unwrap(), Error::ParseField);
    assert_eq!(fields.next_field().unwrap(), b"7");
}

#[test]
fn parse_tag_at_end_of_line() {
    let mut fields = Walker::new(b"only");
    assert_eq!(fields.next_field().unwrap(), b"only");
    let r = fields.parse_tag(&[b"only" as &[u8]]);
    assert_eq!(r.err().unwrap(), Error::EndOfLine);
}

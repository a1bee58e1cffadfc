use tsv_reader::{Document, Error, Read, Walker};

#[derive(PartialEq, Debug)]
struct Pair(u8, u8);

impl<'doc> Read<'doc> for Pair {
    fn parse_tsv(fields: &mut Walker<'doc>) -> Result<Self, Error> {
        Ok(Pair(fields.parse_one()?, fields.parse_one()?))
    }
}

#[test]
fn test_bad_utf8() {
    let doc = Document::new(b"\xF0\xA4\xAD");
    assert!(doc.is_err());
    assert_eq!(doc.err().unwrap(), Error::Utf8);
}

#[test]
fn test_parse_field() {
    let mut doc = Document::new(b"abc").unwrap();
    let obj: Result<u8, Error> = doc.parse_one();
    assert!(obj.is_err());
    assert_eq!(obj.err().unwrap(), Error::ParseField);
}

#[test]
fn test_parse_subfield() {
    let mut doc = Document::new(b"42\txyz").unwrap();
    let obj: Result<Pair, Error> = doc.parse_one();
    assert!(obj.is_err());
    assert_eq!(obj.err().unwrap(), Error::ParseField);
}

#[test]
fn test_endofdocument() {
    let mut doc = Document::new(b"42\t31").unwrap();
    let _: Pair = doc.parse_one().unwrap();
    let obj2: Result<Pair, Error> = doc.parse_one();
    assert!(obj2.is_err());
    assert_eq!(obj2.err().unwrap(), Error::EndOfDocument);
}

#[test]
fn test_endofline() {
    let mut doc = Document::new(b"42").unwrap();
    let obj: Result<Pair, Error> = doc.parse_one();
    assert!(obj.is_err());
    assert_eq!(obj.err().unwrap(), Error::EndOfLine);
}

#[test]
fn test_surplusfields() {
    let mut doc = Document::new(b"42\t21\t0").unwrap();
    let obj: Result<Pair, Error> = doc.parse_one();
    assert!(obj.is_err());
    assert_eq!(obj.err().unwrap(), Error::SurplusFields);
}

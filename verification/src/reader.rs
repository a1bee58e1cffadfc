//! The cursors over documents and lines, and the [`Read`] trait through
//! which values are assembled from a line's fields.

use vstd::prelude::*;
use crate::cursor::Cursor;
use crate::encoding::is_utf8;
use crate::err::Error;
use crate::split::{split_on, FIELD_SEP, LINE_SEP};
use vstd::utf8::valid_utf8;

verus! {

/// The tab-delimited fields of one line.
pub open spec fn line_fields(line: Seq<u8>) -> Seq<Seq<u8>> {
    split_on(line, FIELD_SEP)
}

/// An iterator over fields of a single line, as parsed into a single data
/// value. Fields are consumed strictly left to right; no field is ever
/// revisited. Its view is the sequence of fields not yet consumed.
pub struct Walker<'doc> {
    fields: Cursor<'doc>,
}

impl<'doc> View for Walker<'doc> {
    type V = Seq<Seq<u8>>;

    closed spec fn view(&self) -> Seq<Seq<u8>> {
        self.fields@
    }
}

/// The trait that must be implemented by types which can be constructed
/// from a sequence of text fields.
///
/// An implementation comes in two halves. The spec functions are the
/// type's parse relation on the mathematical field sequence:
/// `spec_parse_ok(fields, v)` holds when parsing the remaining fields
/// yields the value `v`, `spec_parse_err(fields, e, n)` holds when
/// parsing them fails with `e` after the cursor has advanced over `n`
/// of them, and `spec_consumed(fields)` is the number of fields a
/// successful parse consumes. The executable [`Read::parse_tsv`] must
/// agree with that relation, so for every implementation written in
/// this crate the outcome of a parse — the value or the error, and the
/// fields consumed on either path — is determined, field by field, by
/// the spec functions alone.
///
/// Record types implement this trait by reading each of their fields in
/// declaration order from the same walker; an enum first reads one field,
/// which must match a variant's identifier exactly, and then reads that
/// variant's payload the same way. Unit types consume no fields.
pub trait Read<'doc>: Sized {
    /// The successful-parse relation of the type: from the fields not yet
    /// consumed, the value `v` is assembled. An implementation that keeps
    /// the default leaves its relation unspecified; every implementation
    /// in this crate replaces it with the type's actual relation.
    open spec fn spec_parse_ok(fields: Seq<Seq<u8>>, v: Self) -> bool {
        arbitrary()
    }

    /// The failed-parse relation of the type: parsing the fields not yet
    /// consumed fails with the error `e`, the cursor having advanced
    /// over the first `n` of them. Unspecified by default, as
    /// [`Read::spec_parse_ok`] is.
    open spec fn spec_parse_err(fields: Seq<Seq<u8>>, e: Error, n: int) -> bool {
        arbitrary()
    }

    /// How many of the fields not yet consumed a successful parse of the
    /// type consumes. Unspecified by default, as [`Read::spec_parse_ok`]
    /// is.
    open spec fn spec_consumed(fields: Seq<Seq<u8>>) -> int {
        arbitrary()
    }

    /// Retrieve zero or more fields from `fields` and convert them into a
    /// value of type `Self`, or return an error if parsing fails. On
    /// either path the cursor has advanced over exactly the fields the
    /// parse relation says were consumed, and over no others: fields are
    /// never revisited, on failure as on success.
    fn parse_tsv(fields: &mut Walker<'doc>) -> (r: Result<Self, Error>)
        ensures
            match r {
                Ok(v) => Self::spec_parse_ok(old(fields)@, v) && 0 <= Self::spec_consumed(
                    old(fields)@,
                ) <= old(fields)@.len() && final(fields)@ == old(fields)@.skip(
                    Self::spec_consumed(old(fields)@),
                ),
                Err(e) => exists|n: int|
                    0 <= n <= old(fields)@.len() && Self::spec_parse_err(old(fields)@, e, n)
                        && final(fields)@ == #[trigger] old(fields)@.skip(n),
            },
    ;
}

/// Parsing one whole line as a `T` succeeds with `v`: the fields of the
/// line assemble `v` and are consumed completely, none left over.
pub open spec fn line_parse_ok<'doc, T: Read<'doc>>(line: Seq<u8>, v: T) -> bool {
    &&& T::spec_parse_ok(line_fields(line), v)
    &&& T::spec_consumed(line_fields(line)) == line_fields(line).len()
}

/// Parsing one whole line as a `T` fails with `e`: either the parse
/// relation of `T` itself fails with `e`, or — for `Error::SurplusFields`
/// — the parse succeeds without consuming every field of the line.
pub open spec fn line_parse_err<'doc, T: Read<'doc>>(line: Seq<u8>, e: Error) -> bool {
    ||| (exists|n: int|
        0 <= n <= line_fields(line).len() && #[trigger] T::spec_parse_err(
            line_fields(line),
            e,
            n,
        ))
    ||| (e == Error::SurplusFields && T::spec_consumed(line_fields(line)) < line_fields(
        line,
    ).len() && exists|v: T| #[trigger] T::spec_parse_ok(line_fields(line), v))
}

/// Whether two byte slices hold the same bytes.
pub(crate) fn bytes_eq(a: &[u8], b: &[u8]) -> (r: bool)
    ensures
        r == (a@ == b@),
{
    let n = a.len();
    if n != b.len() {
        return false;
    }
    let mut i: usize = 0;
    while i < n
        invariant
            i <= n,
            n == a@.len(),
            n == b@.len(),
            forall|j: int| 0 <= j < i ==> a@[j] == b@[j],
        decreases n - i,
    {
        if a[i] != b[i] {
            return false;
        }
        i = i + 1;
    }
    proof {
        assert(a@ =~= b@);
    }
    true
}

impl<'doc> Walker<'doc> {
    /// A walker over the tab-delimited fields of one line.
    pub fn new(line: &'doc [u8]) -> (w: Walker<'doc>)
        ensures
            w@ == line_fields(line@),
    {
        Walker { fields: Cursor::new(line, FIELD_SEP) }
    }

    /// Whether every field of the line has been consumed. A fresh walker
    /// always has at least one field: a line with no tab is one field.
    pub fn is_empty(&self) -> (b: bool)
        ensures
            b == (self@.len() == 0),
    {
        self.fields.is_exhausted()
    }

    /// Return the next unparsed field. Returns an error if there are no
    /// more fields to parse on this line; the walker is then unchanged,
    /// and every further call fails the same way.
    pub fn next_field(&mut self) -> (r: Result<&'doc [u8], Error>)
        ensures
            match r {
                Ok(f) => old(self)@.len() >= 1 && f@ == old(self)@[0] && final(self)@ == old(
                    self,
                )@.skip(1),
                Err(e) => e == Error::EndOfLine && old(self)@.len() == 0 && final(self)@ == old(
                    self,
                )@ && final(self)@ == old(self)@.skip(0),
            },
    {
        match self.fields.next() {
            Some(f) => Ok(f),
            None => {
                proof {
                    assert(self@.skip(0) =~= self@);
                }
                Err(Error::EndOfLine)
            },
        }
    }

    /// Read the next field as the tag of a sum type: the rule by which
    /// an enum is parsed. The field must equal one of the given variant
    /// names exactly, byte for byte and case-sensitively; the position of
    /// the first such name is returned — with distinct names, of the one
    /// such name. A field matching no name is a field-format error; the
    /// tag field stays consumed either way, so the variant's payload (or
    /// nothing, on failure) is what follows it.
    pub fn parse_tag(&mut self, names: &[&[u8]]) -> (r: Result<usize, Error>)
        ensures
            match r {
                Ok(i) => {
                    &&& old(self)@.len() >= 1
                    &&& 0 <= i < names@.len()
                    &&& names@[i as int]@ == old(self)@[0]
                    &&& forall|j: int| 0 <= j < i ==> #[trigger] names@[j]@ != old(self)@[0]
                    &&& final(self)@ == old(self)@.skip(1)
                },
                Err(e) => {
                    ||| (old(self)@.len() == 0 && e == Error::EndOfLine && final(self)@ == old(
                        self,
                    )@)
                    ||| (old(self)@.len() >= 1 && e == Error::ParseField && (forall|j: int|
                        0 <= j < names@.len() ==> #[trigger] names@[j]@ != old(self)@[0])
                        && final(self)@ == old(self)@.skip(1))
                },
            },
    {
        let tag = self.next_field()?;
        let n = names.len();
        let mut i: usize = 0;
        while i < n
            invariant
                i <= n,
                n == names@.len(),
                forall|j: int| 0 <= j < i ==> #[trigger] names@[j]@ != tag@,
                old(self)@.len() >= 1,
                tag@ == old(self)@[0],
                self@ == old(self)@.skip(1),
            decreases n - i,
        {
            if bytes_eq(tag, names[i]) {
                return Ok(i);
            }
            i = i + 1;
        }
        Err(Error::ParseField)
    }

    /// Parse a value of type `T` from the remaining fields on this line.
    /// Called recursively to parse nested data structures. Returns an
    /// error if the end of line is unexpectedly reached, or if a field is
    /// not of the correct format.
    pub fn parse_one<T: Read<'doc>>(&mut self) -> (r: Result<T, Error>)
        ensures
            match r {
                Ok(v) => T::spec_parse_ok(old(self)@, v) && 0 <= T::spec_consumed(old(self)@)
                    <= old(self)@.len() && final(self)@ == old(self)@.skip(
                    T::spec_consumed(old(self)@),
                ),
                Err(e) => exists|n: int|
                    0 <= n <= old(self)@.len() && T::spec_parse_err(old(self)@, e, n)
                        && final(self)@ == #[trigger] old(self)@.skip(n),
            },
    {
        T::parse_tsv(self)
    }

    /// Parse one whole line as a value of type `T`. The fields of the
    /// line must be consumed exactly: reaching the end of the line early
    /// fails inside `T`'s parser, and fields left unconsumed after `T`
    /// has been assembled fail with `Error::SurplusFields`.
    pub fn parse_one_line<T: Read<'doc>>(line: &'doc [u8]) -> (r: Result<T, Error>)
        ensures
            match r {
                Ok(v) => line_parse_ok::<T>(line@, v),
                Err(e) => line_parse_err::<T>(line@, e),
            },
    {
        let mut fields = Walker::new(line);
        let ghost f0 = fields@;
        match T::parse_tsv(&mut fields) {
            Err(e) => {
                proof {
                    let n = choose|n: int|
                        0 <= n <= f0.len() && T::spec_parse_err(f0, e, n) && fields@ == f0.skip(
                            n,
                        );
                    assert(T::spec_parse_err(line_fields(line@), e, n));
                }
                Err(e)
            },
            Ok(v) => {
                proof {
                    assert(fields@.len() == f0.len() - T::spec_consumed(f0));
                }
                if fields.is_empty() {
                    Ok(v)
                } else {
                    Err(Error::SurplusFields)
                }
            },
        }
    }
}

/// An iterator over the lines of a TSV document. Its view is the sequence
/// of lines not yet parsed; a document never yields the same line twice.
pub struct Document<'doc> {
    lines: Cursor<'doc>,
}

impl<'doc> View for Document<'doc> {
    type V = Seq<Seq<u8>>;

    closed spec fn view(&self) -> Seq<Seq<u8>> {
        self.lines@
    }
}

impl<'doc> Document<'doc> {
    /// Initialise a `Document` from a byte sequence. Returns an error if
    /// and only if the data is not valid UTF-8; on success the document
    /// holds every newline-delimited line of the buffer, in order.
    pub fn new(data: &'doc [u8]) -> (r: Result<Document<'doc>, Error>)
        ensures
            match r {
                Ok(d) => valid_utf8(data@) && d@ == split_on(data@, LINE_SEP),
                Err(e) => e == Error::Utf8 && !valid_utf8(data@),
            },
    {
        if is_utf8(data) {
            Ok(Document { lines: Cursor::new(data, LINE_SEP) })
        } else {
            Err(Error::Utf8)
        }
    }

    /// Parses the next line of the document as a value of type `T`.
    /// Returns `Error::EndOfDocument` if no lines remain, leaving the
    /// document unchanged, so every further call fails the same way.
    /// Otherwise the next line is consumed, whether or not it parses, and
    /// the result is that of [`Walker::parse_one_line`] on it: the line's
    /// fields must assemble a `T` exactly, with none left over.
    pub fn parse_one<T: Read<'doc>>(&mut self) -> (r: Result<T, Error>)
        ensures
            old(self)@.len() == 0 ==> r == Err::<T, Error>(Error::EndOfDocument) && final(self)@
                == old(self)@,
            old(self)@.len() >= 1 ==> final(self)@ == old(self)@.skip(1) && (match r {
                Ok(v) => line_parse_ok::<T>(old(self)@[0], v),
                Err(e) => line_parse_err::<T>(old(self)@[0], e),
            }),
    {
        match self.lines.next() {
            None => Err(Error::EndOfDocument),
            Some(line) => Walker::parse_one_line::<T>(line),
        }
    }

    /// Parses the remaining lines of the document as values of type `T`,
    /// in order, stopping at the first line that fails to parse (or at
    /// the end of the document). This method consumes the document; a
    /// parsing failure terminates the result but is not reported.
    pub fn parse_iter<T: Read<'doc>>(self) -> (r: Vec<T>)
        ensures
            r@.len() <= self@.len(),
            forall|i: int| 0 <= i < r@.len() ==> line_parse_ok::<T>(self@[i], #[trigger] r@[i]),
            r@.len() < self@.len() ==> exists|e: Error|
                line_parse_err::<T>(self@[r@.len() as int], e),
    {
        let ghost all = self@;
        let mut doc = self;
        let mut out: Vec<T> = Vec::new();
        loop
            invariant
                all == self@,
                out@.len() <= all.len(),
                doc@ == all.skip(out@.len() as int),
                forall|i: int|
                    0 <= i < out@.len() ==> line_parse_ok::<T>(all[i], #[trigger] out@[i]),
            decreases all.len() - out@.len(),
        {
            let ghost k = out@.len() as int;
            match doc.parse_one::<T>() {
                Ok(v) => {
                    out.push(v);
                    proof {
                        assert(all.skip(k).skip(1) =~= all.skip(k + 1));
                    }
                },
                Err(e) => {
                    proof {
                        if out@.len() < all.len() {
                            assert(all.skip(k)[0] == all[k]);
                            assert(line_parse_err::<T>(all[k], e));
                        }
                    }
                    return out;
                },
            }
        }
    }
}

} // verus!

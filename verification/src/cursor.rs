//! A forward-only cursor over the separator-delimited pieces of a byte
//! slice. Both the document (lines separated by newlines) and a single
//! line (fields separated by tabs) are walked by this cursor.

use vstd::prelude::*;
use crate::split::{lemma_split_on_first_sep, lemma_split_on_len, lemma_split_on_no_sep, split_on};
use vstd::slice::slice_subrange;

verus! {

/// Position of the first occurrence of `sep` in `s`, or the length of `s`
/// if `sep` does not occur.
fn find_byte(s: &[u8], sep: u8) -> (r: usize)
    ensures
        r <= s@.len(),
        forall|j: int| 0 <= j < r ==> s@[j] != sep,
        r < s@.len() ==> s@[r as int] == sep,
{
    let n: usize = s.len();
    let mut i: usize = 0;
    while i < n
        invariant
            i <= n,
            n == s@.len(),
            forall|j: int| 0 <= j < i ==> s@[j] != sep,
        decreases n - i,
    {
        if s[i] == sep {
            return i;
        }
        i = i + 1;
    }
    i
}

/// Yields the separator-delimited pieces of a byte slice, in order, each
/// exactly once. Its view is the sequence of pieces not yet yielded.
pub(crate) struct Cursor<'doc> {
    rest: &'doc [u8],
    sep: u8,
    done: bool,
}

impl<'doc> View for Cursor<'doc> {
    type V = Seq<Seq<u8>>;

    closed spec fn view(&self) -> Seq<Seq<u8>> {
        if self.done {
            Seq::<Seq<u8>>::empty()
        } else {
            split_on(self.rest@, self.sep)
        }
    }
}

impl<'doc> Cursor<'doc> {
    /// A cursor over all pieces of `data` delimited by `sep`.
    pub(crate) fn new(data: &'doc [u8], sep: u8) -> (c: Cursor<'doc>)
        ensures
            c@ == split_on(data@, sep),
    {
        Cursor { rest: data, sep, done: false }
    }

    /// Whether every piece has been yielded. A cursor always starts with
    /// at least one piece remaining.
    pub(crate) fn is_exhausted(&self) -> (b: bool)
        ensures
            b == (self@.len() == 0),
    {
        proof {
            if !self.done {
                lemma_split_on_len(self.rest@, self.sep);
            }
        }
        self.done
    }

    /// The next piece, advancing past it, or `None` once all pieces have
    /// been yielded; in that case the cursor is unchanged.
    pub(crate) fn next(&mut self) -> (r: Option<&'doc [u8]>)
        ensures
            match r {
                Some(p) => old(self)@.len() >= 1 && p@ == old(self)@[0] && final(self)@ == old(
                    self,
                )@.skip(1),
                None => old(self)@.len() == 0 && final(self)@ == old(self)@,
            },
    {
        if self.done {
            return None;
        }
        let piece_src: &'doc [u8] = self.rest;
        let n: usize = piece_src.len();
        let i = find_byte(piece_src, self.sep);
        if i < n {
            let piece = slice_subrange(piece_src, 0, i);
            self.rest = slice_subrange(piece_src, i + 1, n);
            proof {
                lemma_split_on_first_sep(piece_src@, self.sep, i as int);
                assert(old(self)@ == seq![piece_src@.take(i as int)] + split_on(
                    piece_src@.skip(i + 1),
                    self.sep,
                ));
                assert(piece@ =~= old(self)@[0]);
                assert(self@ =~= old(self)@.skip(1));
            }
            Some(piece)
        } else {
            self.done = true;
            proof {
                lemma_split_on_no_sep(piece_src@, self.sep);
                assert(self@ =~= old(self)@.skip(1));
            }
            Some(piece_src)
        }
    }
}

} // verus!

//! Separator-based splitting of byte sequences, as a specification.
//!
//! A document is the sequence of its newline-separated lines; a line is the
//! sequence of its tab-separated fields. Both are instances of [`split_on`],
//! which mirrors the behaviour of splitting text on a single separator byte:
//! the result always has at least one piece, and an empty input yields one
//! empty piece.

use vstd::prelude::*;
use vstd::assert_seqs_equal;

verus! {

/// The byte separating fields within a line (horizontal tab).
pub const FIELD_SEP: u8 = 9;

/// The byte separating lines within a document (line feed).
pub const LINE_SEP: u8 = 10;

/// The pieces of `s` delimited by the separator byte `sep`.
///
/// There is always at least one piece; `n` occurrences of `sep` yield
/// `n + 1` pieces, and no piece contains `sep`.
pub open spec fn split_on(s: Seq<u8>, sep: u8) -> Seq<Seq<u8>>
    decreases s.len(),
{
    if s.len() == 0 {
        seq![Seq::<u8>::empty()]
    } else if s[0] == sep {
        seq![Seq::<u8>::empty()] + split_on(s.skip(1), sep)
    } else {
        let rest = split_on(s.skip(1), sep);
        seq![seq![s[0]] + rest[0]] + rest.skip(1)
    }
}

/// The pieces joined back into one sequence with `sep` between them.
pub open spec fn join_with(pieces: Seq<Seq<u8>>, sep: u8) -> Seq<u8>
    decreases pieces.len(),
{
    if pieces.len() <= 1 {
        if pieces.len() == 0 {
            Seq::<u8>::empty()
        } else {
            pieces[0]
        }
    } else {
        pieces[0] + seq![sep] + join_with(pieces.skip(1), sep)
    }
}

/// Splitting always yields at least one piece.
pub proof fn lemma_split_on_len(s: Seq<u8>, sep: u8)
    ensures
        split_on(s, sep).len() >= 1,
    decreases s.len(),
{
}

/// A sequence free of the separator splits into exactly itself.
pub proof fn lemma_split_on_no_sep(s: Seq<u8>, sep: u8)
    requires
        forall|j: int| 0 <= j < s.len() ==> s[j] != sep,
    ensures
        split_on(s, sep) == seq![s],
    decreases s.len(),
{
    if s.len() == 0 {
        assert_seqs_equal!(split_on(s, sep)[0], s);
        assert(split_on(s, sep) =~= seq![s]);
    } else {
        lemma_split_on_no_sep(s.skip(1), sep);
        let rest = split_on(s.skip(1), sep);
        assert_seqs_equal!(seq![s[0]] + rest[0], s);
        assert(rest.skip(1) =~= Seq::<Seq<u8>>::empty());
        assert(split_on(s, sep) =~= seq![s]);
    }
}

/// Splitting at the first occurrence of the separator: the first piece is
/// everything before it, and the remaining pieces are the split of
/// everything after it.
pub proof fn lemma_split_on_first_sep(s: Seq<u8>, sep: u8, i: int)
    requires
        0 <= i < s.len(),
        s[i] == sep,
        forall|j: int| 0 <= j < i ==> s[j] != sep,
    ensures
        split_on(s, sep) =~= seq![s.take(i)] + split_on(s.skip(i + 1), sep),
    decreases i,
{
    if i == 0 {
        assert_seqs_equal!(s.take(0), Seq::<u8>::empty());
    } else {
        assert(s.skip(1)[i - 1] == sep);
        lemma_split_on_first_sep(s.skip(1), sep, i - 1);
        lemma_split_on_len(s.skip(1).skip(i), sep);
        assert_seqs_equal!(s.skip(1).skip(i), s.skip(i + 1));
        assert_seqs_equal!(seq![s[0]] + s.skip(1).take(i - 1), s.take(i));
    }
}

/// Joining pieces that are free of the separator and splitting the result
/// recovers the pieces exactly: the split/join round trip.
pub proof fn lemma_split_join(pieces: Seq<Seq<u8>>, sep: u8)
    requires
        pieces.len() >= 1,
        forall|k: int, j: int|
            0 <= k < pieces.len() && 0 <= j < pieces[k].len() ==> #[trigger] pieces[k][j] != sep,
    ensures
        split_on(join_with(pieces, sep), sep) =~= pieces,
    decreases pieces.len(),
{
    if pieces.len() == 1 {
        lemma_split_on_no_sep(pieces[0], sep);
    } else {
        let s = join_with(pieces, sep);
        let i = pieces[0].len() as int;
        assert(s == pieces[0] + seq![sep] + join_with(pieces.skip(1), sep));
        assert(s[i] == sep);
        assert(forall|j: int| 0 <= j < i ==> s[j] == pieces[0][j]);
        lemma_split_on_first_sep(s, sep, i);
        assert_seqs_equal!(s.take(i), pieces[0]);
        assert_seqs_equal!(s.skip(i + 1), join_with(pieces.skip(1), sep));
        lemma_split_join(pieces.skip(1), sep);
    }
}

} // verus!

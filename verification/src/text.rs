//! Byte strings: copying, and splitting into lines and paragraphs.

use vstd::prelude::*;
use vstd::slice::slice_subrange;

verus! {

/// Appends the bytes of `src` to `out`.
pub fn append_bytes(out: &mut Vec<u8>, src: &[u8])
    ensures
        final(out)@ == old(out)@ + src@,
{
    let mut i: usize = 0;
    while i < src.len()
        invariant
            i <= src@.len(),
            out@ == old(out)@ + src@.take(i as int),
        decreases src@.len() - i,
    {
        out.push(src[i]);
        proof {
            assert(src@.take(i + 1) =~= src@.take(i as int).push(src@[i as int]));
        }
        i += 1;
    }
    proof {
        assert(src@.take(i as int) =~= src@);
    }
}

/// The byte that ends a line.
pub const NEWLINE: u8 = 10;

/// The contents of a list of byte slices.
pub open spec fn views(pieces: Seq<&[u8]>) -> Seq<Seq<u8>> {
    Seq::new(pieces.len(), |i: int| pieces[i]@)
}

/// The sum of the lengths of `pieces`.
pub open spec fn total_len(pieces: Seq<Seq<u8>>) -> nat
    decreases pieces.len(),
{
    if pieces.len() == 0 {
        0
    } else {
        total_len(pieces.drop_last()) + pieces.last().len()
    }
}

/// The first index at or after `from` that holds a newline, or `s.len()` if
/// there is none.
pub open spec fn line_end(s: Seq<u8>, from: int) -> int
    decreases s.len() - from,
{
    if from >= s.len() {
        s.len() as int
    } else if s[from] == NEWLINE {
        from
    } else {
        line_end(s, from + 1)
    }
}

/// The lines of `s` from index `from` on: the stretches between single
/// newlines. There is always a last line, which is empty when `s` ends in a
/// newline.
pub open spec fn lines_from(s: Seq<u8>, from: int) -> Seq<Seq<u8>>
    decreases s.len() - from,
    when 0 <= from <= s.len()
    via lines_from_decreases
{
    let end = line_end(s, from);
    if end >= s.len() {
        seq![s.subrange(from, s.len() as int)]
    } else {
        seq![s.subrange(from, end)] + lines_from(s, end + 1)
    }
}

#[via_fn]
proof fn lines_from_decreases(s: Seq<u8>, from: int) {
    lemma_line_end_bounds(s, from);
}

/// The lines of `s`.
pub open spec fn lines_of(s: Seq<u8>) -> Seq<Seq<u8>> {
    lines_from(s, 0)
}

/// The first index at or after `from` at which two newlines stand side by
/// side, or `s.len()` if there is none.
pub open spec fn break_start(s: Seq<u8>, from: int) -> int
    decreases s.len() - from,
{
    if from + 1 >= s.len() {
        s.len() as int
    } else if s[from] == NEWLINE && s[from + 1] == NEWLINE {
        from
    } else {
        break_start(s, from + 1)
    }
}

/// The first index at or after `from` that holds no newline, or `s.len()` if
/// there is none.
pub open spec fn break_end(s: Seq<u8>, from: int) -> int
    decreases s.len() - from,
{
    if from >= s.len() {
        s.len() as int
    } else if s[from] == NEWLINE {
        break_end(s, from + 1)
    } else {
        from
    }
}

/// The paragraphs of `s` from index `from` on: the stretches between
/// separators, where a separator is a run of two or more newlines taken as
/// long as it goes. A separator at the very start or end of the text has an
/// empty paragraph on its outer side.
pub open spec fn paragraphs_from(s: Seq<u8>, from: int) -> Seq<Seq<u8>>
    decreases s.len() - from,
    when 0 <= from <= s.len()
    via paragraphs_from_decreases
{
    let sep = break_start(s, from);
    if sep >= s.len() {
        seq![s.subrange(from, s.len() as int)]
    } else {
        seq![s.subrange(from, sep)] + paragraphs_from(s, break_end(s, sep))
    }
}

#[via_fn]
proof fn paragraphs_from_decreases(s: Seq<u8>, from: int) {
    lemma_break_start_bounds(s, from);
    lemma_break_end_bounds(s, break_start(s, from));
}

/// The paragraphs of `s`.
pub open spec fn paragraphs_of(s: Seq<u8>) -> Seq<Seq<u8>> {
    paragraphs_from(s, 0)
}

pub proof fn lemma_line_end_bounds(s: Seq<u8>, from: int)
    requires
        0 <= from <= s.len(),
    ensures
        from <= line_end(s, from) <= s.len(),
        line_end(s, from) < s.len() ==> s[line_end(s, from)] == NEWLINE,
        forall|i: int| from <= i < line_end(s, from) ==> s[i] != NEWLINE,
    decreases s.len() - from,
{
    if from < s.len() && s[from] != NEWLINE {
        lemma_line_end_bounds(s, from + 1);
    }
}

pub proof fn lemma_break_start_bounds(s: Seq<u8>, from: int)
    requires
        0 <= from <= s.len(),
    ensures
        from <= break_start(s, from) <= s.len(),
        break_start(s, from) < s.len() ==> break_start(s, from) + 1 < s.len() && s[break_start(
            s,
            from,
        )] == NEWLINE && s[break_start(s, from) + 1] == NEWLINE,
    decreases s.len() - from,
{
    if from + 1 < s.len() && !(s[from] == NEWLINE && s[from + 1] == NEWLINE) {
        lemma_break_start_bounds(s, from + 1);
    }
}

pub proof fn lemma_break_end_bounds(s: Seq<u8>, from: int)
    requires
        0 <= from <= s.len(),
    ensures
        from <= break_end(s, from) <= s.len(),
        from + 1 < s.len() && s[from] == NEWLINE && s[from + 1] == NEWLINE ==> from + 2
            <= break_end(s, from),
        break_end(s, from) < s.len() ==> s[break_end(s, from)] != NEWLINE,
    decreases s.len() - from,
{
    if from < s.len() && s[from] == NEWLINE {
        lemma_break_end_bounds(s, from + 1);
    }
}

/// The lengths of a concatenation add up.
pub proof fn lemma_total_len_concat(a: Seq<Seq<u8>>, b: Seq<Seq<u8>>)
    ensures
        total_len(a + b) == total_len(a) + total_len(b),
    decreases b.len(),
{
    if b.len() == 0 {
        assert(a + b =~= a);
    } else {
        assert((a + b).drop_last() =~= a + b.drop_last());
        lemma_total_len_concat(a, b.drop_last());
    }
}

/// A prefix of a list of pieces is no longer than the whole list.
pub proof fn lemma_total_len_take(pieces: Seq<Seq<u8>>, k: int)
    requires
        0 <= k <= pieces.len(),
    ensures
        total_len(pieces.take(k)) <= total_len(pieces),
{
    assert(pieces =~= pieces.take(k) + pieces.skip(k));
    lemma_total_len_concat(pieces.take(k), pieces.skip(k));
}

/// The lines of a text and the newlines between them make up the text.
pub proof fn lemma_lines_total_len(s: Seq<u8>, from: int)
    requires
        0 <= from <= s.len(),
    ensures
        lines_from(s, from).len() >= 1,
        total_len(lines_from(s, from)) + lines_from(s, from).len() - 1 == s.len() - from,
    decreases s.len() - from,
{
    let end = line_end(s, from);
    lemma_line_end_bounds(s, from);
    let first = seq![s.subrange(from, if end >= s.len() { s.len() as int } else { end })];
    assert(first.drop_last() =~= Seq::<Seq<u8>>::empty());
    assert(total_len(first.drop_last()) == 0);
    assert(total_len(first) == first[0].len());
    if end < s.len() {
        lemma_lines_total_len(s, end + 1);
        lemma_total_len_concat(first, lines_from(s, end + 1));
    }
}

proof fn lemma_views_push(pieces: Seq<&[u8]>, piece: &[u8])
    ensures
        views(pieces.push(piece)) == views(pieces).push(piece@),
{
    assert(views(pieces.push(piece)) =~= views(pieces).push(piece@));
}

/// Splits `text` into its lines.
pub fn split_lines<'a>(text: &'a [u8]) -> (pieces: Vec<&'a [u8]>)
    ensures
        views(pieces@) == lines_of(text@),
{
    let len: usize = text.len();
    let mut pieces: Vec<&'a [u8]> = Vec::new();
    let mut start: usize = 0;
    let mut i: usize = 0;
    proof {
        assert(views(pieces@) =~= Seq::<Seq<u8>>::empty());
        assert(views(pieces@) + lines_from(text@, 0) =~= lines_from(text@, 0));
    }
    while i < len
        invariant
            len == text@.len(),
            start <= i <= len,
            line_end(text@, start as int) == line_end(text@, i as int),
            lines_of(text@) == views(pieces@) + lines_from(text@, start as int),
        decreases len - i,
    {
        if text[i] == NEWLINE {
            let piece: &'a [u8] = slice_subrange(text, start, i);
            proof {
                lemma_views_push(pieces@, piece);
                assert(views(pieces@).push(piece@) + lines_from(text@, i + 1) =~= views(pieces@)
                    + (seq![piece@] + lines_from(text@, i + 1)));
            }
            pieces.push(piece);
            start = i + 1;
        }
        i += 1;
    }
    let piece: &'a [u8] = slice_subrange(text, start, len);
    proof {
        lemma_views_push(pieces@, piece);
        assert(views(pieces@).push(piece@) =~= views(pieces@) + seq![piece@]);
    }
    pieces.push(piece);
    pieces
}

/// Splits `text` into its paragraphs.
pub fn split_paragraphs<'a>(text: &'a [u8]) -> (pieces: Vec<&'a [u8]>)
    ensures
        views(pieces@) == paragraphs_of(text@),
{
    let len: usize = text.len();
    let mut pieces: Vec<&'a [u8]> = Vec::new();
    let mut start: usize = 0;
    let mut i: usize = 0;
    proof {
        assert(views(pieces@) =~= Seq::<Seq<u8>>::empty());
        assert(views(pieces@) + paragraphs_from(text@, 0) =~= paragraphs_from(text@, 0));
    }
    while i < len
        invariant
            len == text@.len(),
            start <= i <= len,
            break_start(text@, start as int) == break_start(text@, i as int),
            paragraphs_of(text@) == views(pieces@) + paragraphs_from(text@, start as int),
        decreases len - i,
    {
        if text[i] == NEWLINE && i + 1 < len && text[i + 1] == NEWLINE {
            let piece: &'a [u8] = slice_subrange(text, start, i);
            let mut j: usize = i + 2;
            proof {
                assert(break_end(text@, i as int) == break_end(text@, i + 1));
                assert(break_end(text@, i + 1) == break_end(text@, i + 2));
            }
            while j < len && text[j] == NEWLINE
                invariant
                    len == text@.len(),
                    i + 2 <= j <= len,
                    break_end(text@, i as int) == break_end(text@, j as int),
                decreases len - j,
            {
                j += 1;
            }
            proof {
                lemma_views_push(pieces@, piece);
                assert(views(pieces@).push(piece@) + paragraphs_from(text@, j as int) =~= views(
                    pieces@,
                ) + (seq![piece@] + paragraphs_from(text@, j as int)));
            }
            pieces.push(piece);
            start = j;
            i = j;
        } else {
            i += 1;
        }
    }
    let piece: &'a [u8] = slice_subrange(text, start, len);
    proof {
        lemma_views_push(pieces@, piece);
        assert(views(pieces@).push(piece@) =~= views(pieces@) + seq![piece@]);
    }
    pieces.push(piece);
    pieces
}

} // verus!

//! What holds of every split: lines hold no newline and rebuild the text
//! when joined by newlines; paragraphs hold no two newlines side by side and
//! neither end nor start in the middle of a separator.

use vstd::prelude::*;
use crate::text::{
    break_end, break_start, lemma_break_end_bounds, lemma_break_start_bounds,
    lemma_line_end_bounds, line_end, lines_from, lines_of, paragraphs_from, paragraphs_of,
    NEWLINE,
};

verus! {

/// No byte of `piece` is a newline.
pub open spec fn newline_free(piece: Seq<u8>) -> bool {
    forall|i: int| 0 <= i < piece.len() ==> piece[i] != NEWLINE
}

/// Nowhere in `piece` do two newlines stand side by side.
pub open spec fn break_free(piece: Seq<u8>) -> bool {
    forall|i: int| 0 <= i && i + 1 < piece.len() ==> !(piece[i] == NEWLINE && #[trigger] piece[i
        + 1] == NEWLINE)
}

/// The pieces, joined by single newlines.
pub open spec fn joined(pieces: Seq<Seq<u8>>) -> Seq<u8>
    decreases pieces.len(),
{
    if pieces.len() == 0 {
        Seq::empty()
    } else if pieces.len() == 1 {
        pieces[0]
    } else {
        pieces[0] + seq![NEWLINE] + joined(pieces.drop_first())
    }
}

/// The lines from `from` on hold no newline, and joined by newlines they
/// give back the text from `from` on.
pub proof fn lemma_lines_from_rebuild(s: Seq<u8>, from: int)
    requires
        0 <= from <= s.len(),
    ensures
        lines_from(s, from).len() >= 1,
        forall|k: int|
            0 <= k < lines_from(s, from).len() ==> newline_free(#[trigger] lines_from(s, from)[k]),
        joined(lines_from(s, from)) == s.subrange(from, s.len() as int),
    decreases s.len() - from,
{
    let end = line_end(s, from);
    lemma_line_end_bounds(s, from);
    if end < s.len() {
        let rest = lines_from(s, end + 1);
        let all = lines_from(s, from);
        lemma_lines_from_rebuild(s, end + 1);
        assert(all.drop_first() =~= rest);
        assert(all[0] == s.subrange(from, end));
        assert forall|k: int| 0 <= k < all.len() implies newline_free(#[trigger] all[k]) by {
            if k > 0 {
                assert(all[k] == rest[k - 1]);
            }
        }
        assert(joined(all) =~= s.subrange(from, s.len() as int));
    }
}

/// The lines of a text hold no newline, and joined by newlines they give
/// back the text.
pub proof fn lemma_lines_rebuild(s: Seq<u8>)
    ensures
        lines_of(s).len() >= 1,
        forall|k: int| 0 <= k < lines_of(s).len() ==> newline_free(#[trigger] lines_of(s)[k]),
        joined(lines_of(s)) == s,
{
    lemma_lines_from_rebuild(s, 0);
    assert(s.subrange(0, s.len() as int) =~= s);
}

proof fn lemma_break_start_is_first(s: Seq<u8>, from: int)
    requires
        0 <= from <= s.len(),
    ensures
        forall|i: int|
            from <= i && i + 1 < break_start(s, from) + 1 && i + 1 < s.len() ==> !(s[i] == NEWLINE
                && #[trigger] s[i + 1] == NEWLINE),
    decreases s.len() - from,
{
    if from + 1 < s.len() && !(s[from] == NEWLINE && s[from + 1] == NEWLINE) {
        lemma_break_start_is_first(s, from + 1);
    }
}

proof fn lemma_paragraphs_from_shape(s: Seq<u8>, from: int)
    requires
        0 <= from <= s.len(),
    ensures
        paragraphs_from(s, from).len() >= 1,
        forall|k: int|
            0 <= k < paragraphs_from(s, from).len() ==> break_free(
                #[trigger] paragraphs_from(s, from)[k],
            ),
        forall|k: int|
            0 <= k < paragraphs_from(s, from).len() - 1 ==> (#[trigger] paragraphs_from(
                s,
                from,
            )[k]).len() == 0 || paragraphs_from(s, from)[k].last() != NEWLINE,
        forall|k: int|
            1 <= k < paragraphs_from(s, from).len() ==> ((#[trigger] paragraphs_from(
                s,
                from,
            )[k]).len() > 0 && paragraphs_from(s, from)[k][0] != NEWLINE) || k == paragraphs_from(
                s,
                from,
            ).len() - 1,
        forall|k: int|
            1 <= k < paragraphs_from(s, from).len() && (#[trigger] paragraphs_from(
                s,
                from,
            )[k]).len() > 0 ==> paragraphs_from(s, from)[k][0] != NEWLINE,
    decreases s.len() - from,
{
    let sep = break_start(s, from);
    let all = paragraphs_from(s, from);
    lemma_break_start_bounds(s, from);
    lemma_break_start_is_first(s, from);
    if sep >= s.len() {
        let only = s.subrange(from, s.len() as int);
        assert(all =~= seq![only]);
        assert forall|i: int| 0 <= i && i + 1 < only.len() implies !(only[i] == NEWLINE
            && #[trigger] only[i + 1] == NEWLINE) by {
            assert(only[i + 1] == s[from + i + 1]);
        }
    } else {
        let next = break_end(s, sep);
        lemma_break_end_bounds(s, sep);
        let rest = paragraphs_from(s, next);
        lemma_paragraphs_from_shape(s, next);
        let first = s.subrange(from, sep);
        assert(all =~= seq![first] + rest);
        assert forall|i: int| 0 <= i && i + 1 < first.len() implies !(first[i] == NEWLINE
            && #[trigger] first[i + 1] == NEWLINE) by {
            assert(first[i + 1] == s[from + i + 1]);
        }
        if first.len() > 0 && first.last() == NEWLINE {
            assert(first.last() == s[sep - 1]);
            assert(s[(sep - 1) + 1] == NEWLINE);
            assert(false);
        }
        lemma_break_start_bounds(s, next);
        assert(rest[0] == s.subrange(next, break_start(s, next)) || rest[0] == s.subrange(
            next,
            s.len() as int,
        ));
        assert forall|k: int| 0 <= k < all.len() implies break_free(#[trigger] all[k]) by {
            if k > 0 {
                assert(all[k] == rest[k - 1]);
            }
        }
        assert forall|k: int| 0 <= k < all.len() - 1 implies (#[trigger] all[k]).len() == 0
            || all[k].last() != NEWLINE by {
            if k > 0 {
                assert(all[k] == rest[k - 1]);
            }
        }
        assert forall|k: int| 1 <= k < all.len() && (#[trigger] all[k]).len() > 0 implies all[k][0]
            != NEWLINE by {
            assert(all[k] == rest[k - 1]);
            if k == 1 {
                assert(rest[0][0] == s[next]);
            }
        }
        assert forall|k: int| 1 <= k < all.len() implies ((#[trigger] all[k]).len() > 0
            && all[k][0] != NEWLINE) || k == all.len() - 1 by {
            assert(all[k] == rest[k - 1]);
            if k == 1 && k < all.len() - 1 {
                assert(rest.len() >= 2);
                assert(break_start(s, next) < s.len());
                if rest[0].len() == 0 {
                    assert(break_start(s, next) == next);
                    assert(false);
                }
            }
        }
    }
}

/// Of the paragraphs of a text: none holds two newlines side by side, none
/// but the last ends in a newline, and none but the first starts with one.
/// An empty paragraph can only come first, before a separator that opens the
/// text, or last, behind one that closes it.
pub proof fn lemma_paragraphs_shape(s: Seq<u8>)
    ensures
        paragraphs_of(s).len() >= 1,
        forall|k: int| 0 <= k < paragraphs_of(s).len() ==> break_free(#[trigger] paragraphs_of(s)[k]),
        forall|k: int|
            0 <= k < paragraphs_of(s).len() - 1 ==> (#[trigger] paragraphs_of(s)[k]).len() == 0
                || paragraphs_of(s)[k].last() != NEWLINE,
        forall|k: int|
            1 <= k < paragraphs_of(s).len() && (#[trigger] paragraphs_of(s)[k]).len() > 0
                ==> paragraphs_of(s)[k][0] != NEWLINE,
        forall|k: int|
            1 <= k < paragraphs_of(s).len() - 1 ==> (#[trigger] paragraphs_of(s)[k]).len() > 0,
{
    lemma_paragraphs_from_shape(s, 0);
    let all = paragraphs_of(s);
    assert forall|k: int| 1 <= k < all.len() - 1 implies (#[trigger] all[k]).len() > 0 by {
        assert((all[k].len() > 0 && all[k][0] != NEWLINE) || k == all.len() - 1);
    }
}

} // verus!

//! What holds of every deduplication run: the filter remembers each line it
//! was shown, so a document that is processed again is dropped whole.

use vstd::prelude::*;
use crate::bloom::FilterView;
use crate::dedup::{dedup_result, scan_duplicates, scan_lines, scan_paragraphs, Threshold};
use crate::filter_laws::{
    lemma_found_key_stays_found, lemma_insert_never_clears, lemma_insert_shape,
    lemma_inserted_key_is_found, never_cleared,
};
use crate::text::{lines_of, paragraphs_of};

verus! {

/// The filter `v` contains every line of `lines`.
pub open spec fn all_found(lines: Seq<Seq<u8>>, v: FilterView) -> bool {
    forall|i: int| 0 <= i < lines.len() ==> v.contains(#[trigger] lines[i])
}

/// The filter `v` contains every line of every paragraph of `paragraphs`.
pub open spec fn all_lines_found(paragraphs: Seq<Seq<u8>>, v: FilterView) -> bool {
    forall|i: int| 0 <= i < paragraphs.len() ==> all_found(lines_of(#[trigger] paragraphs[i]), v)
}

/// After a list of lines has been processed, the filter contains each of
/// them and whatever it contained before.
pub proof fn lemma_scan_lines_records(lines: Seq<Seq<u8>>, v: FilterView)
    requires
        v.wf(),
    ensures
        scan_lines(lines, v).1.wf(),
        all_found(lines, scan_lines(lines, v).1),
        forall|key: Seq<u8>| #[trigger] v.contains(key) ==> scan_lines(lines, v).1.contains(key),
    decreases lines.len(),
{
    if lines.len() > 0 {
        let front = lines.drop_last();
        let line = lines.last();
        let mid = scan_lines(front, v).1;
        let after = scan_lines(lines, v).1;
        lemma_scan_lines_records(front, v);
        if mid.contains(line) {
            assert(after == mid);
        } else {
            assert(after == mid.insert(line));
            lemma_insert_shape(mid, line);
            lemma_inserted_key_is_found(mid, line);
            assert forall|key: Seq<u8>| #[trigger] mid.contains(key) implies after.contains(
                key,
            ) by {
                lemma_found_key_stays_found(mid, key, line);
            }
        }
        assert forall|i: int| 0 <= i < lines.len() implies after.contains(#[trigger] lines[i]) by {
            if i < front.len() {
                assert(lines[i] == front[i]);
                assert(mid.contains(front[i]));
            }
        }
        assert forall|key: Seq<u8>| #[trigger] v.contains(key) implies after.contains(key) by {
            assert(mid.contains(key));
        }
    }
}

/// After a list of paragraphs has been processed, the filter contains every
/// line of each of them and whatever it contained before.
pub proof fn lemma_scan_paragraphs_records(paragraphs: Seq<Seq<u8>>, v: FilterView, t: Threshold)
    requires
        v.wf(),
    ensures
        scan_paragraphs(paragraphs, v, t).1.wf(),
        all_lines_found(paragraphs, scan_paragraphs(paragraphs, v, t).1),
        forall|key: Seq<u8>| #[trigger]
            v.contains(key) ==> scan_paragraphs(paragraphs, v, t).1.contains(key),
    decreases paragraphs.len(),
{
    if paragraphs.len() > 0 {
        let front = paragraphs.drop_last();
        let paragraph = paragraphs.last();
        let mid = scan_paragraphs(front, v, t).1;
        let after = scan_paragraphs(paragraphs, v, t).1;
        lemma_scan_paragraphs_records(front, v, t);
        lemma_scan_lines_records(lines_of(paragraph), mid);
        assert(after == scan_lines(lines_of(paragraph), mid).1);
        assert forall|i: int| 0 <= i < paragraphs.len() implies all_found(
            lines_of(#[trigger] paragraphs[i]),
            after,
        ) by {
            if i < front.len() {
                assert(paragraphs[i] == front[i]);
                let lines = lines_of(front[i]);
                assert(all_found(lines, mid));
                assert forall|j: int| 0 <= j < lines.len() implies after.contains(
                    #[trigger] lines[j],
                ) by {
                    assert(mid.contains(lines[j]));
                }
            }
        }
        assert forall|key: Seq<u8>| #[trigger] v.contains(key) implies after.contains(key) by {
            assert(mid.contains(key));
        }
    }
}

/// Monotonicity: processing lines clears no bit of the filter.
pub proof fn lemma_scan_lines_never_clears(lines: Seq<Seq<u8>>, v: FilterView)
    requires
        v.wf(),
    ensures
        never_cleared(v, scan_lines(lines, v).1),
    decreases lines.len(),
{
    if lines.len() > 0 {
        let mid = scan_lines(lines.drop_last(), v).1;
        lemma_scan_lines_never_clears(lines.drop_last(), v);
        lemma_scan_lines_records(lines.drop_last(), v);
        if !mid.contains(lines.last()) {
            lemma_insert_never_clears(mid, lines.last());
        }
    }
}

/// Monotonicity: reporting duplicate lines clears no bit of the filter.
pub proof fn lemma_scan_duplicates_never_clears(lines: Seq<Seq<u8>>, v: FilterView)
    requires
        v.wf(),
    ensures
        scan_duplicates(lines, v).1.wf(),
        never_cleared(v, scan_duplicates(lines, v).1),
    decreases lines.len(),
{
    if lines.len() > 0 {
        let mid = scan_duplicates(lines.drop_last(), v).1;
        lemma_scan_duplicates_never_clears(lines.drop_last(), v);
        lemma_insert_never_clears(mid, lines.last());
        lemma_insert_shape(mid, lines.last());
    }
}

/// Monotonicity: deduplicating a document clears no bit of the filter.
pub proof fn lemma_dedup_never_clears(text: Seq<u8>, v: FilterView, t: Threshold)
    requires
        v.wf(),
    ensures
        dedup_result(text, v, t).1.wf(),
        never_cleared(v, dedup_result(text, v, t).1),
{
    lemma_scan_paragraphs_never_clears(paragraphs_of(text), v, t);
}

proof fn lemma_scan_paragraphs_never_clears(paragraphs: Seq<Seq<u8>>, v: FilterView, t: Threshold)
    requires
        v.wf(),
    ensures
        scan_paragraphs(paragraphs, v, t).1.wf(),
        never_cleared(v, scan_paragraphs(paragraphs, v, t).1),
    decreases paragraphs.len(),
{
    if paragraphs.len() > 0 {
        let mid = scan_paragraphs(paragraphs.drop_last(), v, t).1;
        lemma_scan_paragraphs_never_clears(paragraphs.drop_last(), v, t);
        lemma_scan_lines_never_clears(lines_of(paragraphs.last()), mid);
        lemma_scan_lines_records(lines_of(paragraphs.last()), mid);
    }
}

/// Lines that the filter already contains count no new byte and leave the
/// filter as it is.
pub proof fn lemma_scan_found_lines(lines: Seq<Seq<u8>>, v: FilterView)
    requires
        all_found(lines, v),
    ensures
        scan_lines(lines, v) == (0nat, v),
    decreases lines.len(),
{
    if lines.len() > 0 {
        let front = lines.drop_last();
        assert forall|i: int| 0 <= i < front.len() implies v.contains(#[trigger] front[i]) by {
            assert(front[i] == lines[i]);
        }
        lemma_scan_found_lines(front, v);
        assert(v.contains(lines[lines.len() - 1]));
    }
}

/// Paragraphs whose lines the filter already contains are all dropped,
/// whatever the threshold as long as it is not negative, and leave the filter
/// as it is.
pub proof fn lemma_scan_found_paragraphs(paragraphs: Seq<Seq<u8>>, v: FilterView, t: Threshold)
    requires
        all_lines_found(paragraphs, v),
        t.num >= 0,
    ensures
        scan_paragraphs(paragraphs, v, t) == (Seq::<u8>::empty(), v),
    decreases paragraphs.len(),
{
    if paragraphs.len() > 0 {
        let front = paragraphs.drop_last();
        let paragraph = paragraphs.last();
        assert forall|i: int| 0 <= i < front.len() implies all_found(
            lines_of(#[trigger] front[i]),
            v,
        ) by {
            assert(front[i] == paragraphs[i]);
        }
        lemma_scan_found_paragraphs(front, v, t);
        assert(all_found(lines_of(paragraphs[paragraphs.len() - 1]), v));
        lemma_scan_found_lines(lines_of(paragraph), v);
        assert(!t.exceeded_by(0, paragraph.len())) by {
            assert(t.num * paragraph.len() >= 0) by (nonlinear_arith)
                requires
                    t.num >= 0,
                    paragraph.len() >= 0,
            ;
        }
    }
}

/// Retention is monotonic: when a document is processed a second time, none
/// of its lines is new, so every paragraph is dropped, whatever threshold
/// the first pass used and whatever non-negative threshold the second uses,
/// and the filter stays as the first pass left it.
pub proof fn lemma_second_pass_drops_all(
    text: Seq<u8>,
    v: FilterView,
    first: Threshold,
    second: Threshold,
)
    requires
        v.wf(),
        second.num >= 0,
    ensures
        dedup_result(text, dedup_result(text, v, first).1, second) == (
            Seq::<u8>::empty(),
            dedup_result(text, v, first).1,
        ),
{
    let after = dedup_result(text, v, first).1;
    lemma_scan_paragraphs_records(paragraphs_of(text), v, first);
    lemma_scan_found_paragraphs(paragraphs_of(text), after, second);
}

} // verus!

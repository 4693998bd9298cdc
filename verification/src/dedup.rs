//! Paragraph-level deduplication. A document is split into paragraphs and
//! each paragraph into lines; every line is looked up in the membership
//! filter and inserted if it is new. A paragraph is retained when the share
//! of its bytes that lie on new lines exceeds a threshold.

use vstd::prelude::*;
use crate::bloom::{BloomFilter, FilterView};
use crate::text::{
    append_bytes, lemma_lines_total_len, lemma_total_len_take, lines_of, paragraphs_of,
    split_lines, split_paragraphs, total_len, views, NEWLINE,
};

verus! {

/// The retention threshold `num / den`, a fraction of the bytes of a
/// paragraph.
#[derive(Clone, Copy, Debug, PartialEq, Eq)]
pub struct Threshold {
    pub num: i64,
    pub den: u64,
}

impl Threshold {
    /// `kept / len` is strictly greater than the threshold. The quotient of
    /// an empty paragraph counts as exceeding no threshold.
    pub open spec fn exceeded_by(self, kept: nat, len: nat) -> bool {
        len > 0 && kept * self.den > self.num * len
    }

    /// Tells whether `kept` new bytes out of `len` exceed the threshold.
    pub fn is_exceeded_by(&self, kept: usize, len: usize) -> (b: bool)
        ensures
            b == self.exceeded_by(kept as nat, len as nat),
    {
        if len == 0 {
            false
        } else if self.num < 0 {
            proof {
                assert(self.num * len < 0) by (nonlinear_arith)
                    requires
                        self.num < 0,
                        len > 0,
                ;
                assert(kept * self.den >= 0) by (nonlinear_arith)
                    requires
                        kept >= 0,
                        self.den >= 0,
                ;
            }
            true
        } else {
            proof {
                assert(kept * self.den <= 0xffff_ffff_ffff_ffff * 0xffff_ffff_ffff_ffff)
                    by (nonlinear_arith)
                    requires
                        0 <= kept <= 0xffff_ffff_ffff_ffff,
                        0 <= self.den <= 0xffff_ffff_ffff_ffff,
                ;
                assert(self.num * len <= 0xffff_ffff_ffff_ffff * 0xffff_ffff_ffff_ffff)
                    by (nonlinear_arith)
                    requires
                        0 <= self.num <= 0xffff_ffff_ffff_ffff,
                        0 <= len <= 0xffff_ffff_ffff_ffff,
                ;
                assert(self.num * len >= 0) by (nonlinear_arith)
                    requires
                        0 <= self.num,
                        0 <= len,
                ;
            }
            (kept as u128) * (self.den as u128) > (self.num as u128) * (len as u128)
        }
    }
}

/// The number of bytes on new lines, and the filter, after `lines` have been
/// looked up and inserted in order, starting from the filter `v`. A line is
/// new when the filter does not contain it at the moment it is looked up.
pub open spec fn scan_lines(lines: Seq<Seq<u8>>, v: FilterView) -> (nat, FilterView)
    decreases lines.len(),
{
    if lines.len() == 0 {
        (0, v)
    } else {
        let (kept, mid) = scan_lines(lines.drop_last(), v);
        let line = lines.last();
        if mid.contains(line) {
            (kept, mid)
        } else {
            (kept + line.len(), mid.insert(line))
        }
    }
}

/// The output and the filter after `paragraphs` have been processed in
/// order, starting from the filter `v`. Every line of every paragraph is
/// looked up and inserted; a retained paragraph is written out unchanged,
/// followed by two newlines.
pub open spec fn scan_paragraphs(paragraphs: Seq<Seq<u8>>, v: FilterView, t: Threshold) -> (
    Seq<u8>,
    FilterView,
)
    decreases paragraphs.len(),
{
    if paragraphs.len() == 0 {
        (Seq::empty(), v)
    } else {
        let (out, mid) = scan_paragraphs(paragraphs.drop_last(), v, t);
        let paragraph = paragraphs.last();
        let (kept, after) = scan_lines(lines_of(paragraph), mid);
        if t.exceeded_by(kept, paragraph.len()) {
            (out + paragraph + seq![NEWLINE, NEWLINE], after)
        } else {
            (out, after)
        }
    }
}

/// The deduplicated text and the filter after the document `text` has been
/// processed, starting from the filter `v`.
pub open spec fn dedup_result(text: Seq<u8>, v: FilterView, t: Threshold) -> (
    Seq<u8>,
    FilterView,
) {
    scan_paragraphs(paragraphs_of(text), v, t)
}

/// The lines, among `lines`, that the filter contained at the moment they
/// were met, and the filter after every line has been inserted in order,
/// starting from the filter `v`.
pub open spec fn scan_duplicates(lines: Seq<Seq<u8>>, v: FilterView) -> (
    Seq<Seq<u8>>,
    FilterView,
)
    decreases lines.len(),
{
    if lines.len() == 0 {
        (Seq::empty(), v)
    } else {
        let (found, mid) = scan_duplicates(lines.drop_last(), v);
        let line = lines.last();
        if mid.contains(line) {
            (found.push(line), mid.insert(line))
        } else {
            (found, mid.insert(line))
        }
    }
}

/// New lines never account for more bytes than the lines have.
pub proof fn lemma_scan_lines_bound(lines: Seq<Seq<u8>>, v: FilterView)
    ensures
        scan_lines(lines, v).0 <= total_len(lines),
    decreases lines.len(),
{
    if lines.len() > 0 {
        lemma_scan_lines_bound(lines.drop_last(), v);
    }
}

/// Looks up and inserts each line of `paragraph`, and returns the number of
/// bytes that lie on lines which the filter did not contain.
pub fn count_new_bytes(paragraph: &[u8], filter: &mut BloomFilter) -> (kept: usize)
    ensures
        kept == scan_lines(lines_of(paragraph@), old(filter)@).0,
        final(filter)@ == scan_lines(lines_of(paragraph@), old(filter)@).1,
        kept <= paragraph@.len(),
{
    let lines: Vec<&[u8]> = split_lines(paragraph);
    let len: usize = paragraph.len();
    let mut kept: usize = 0;
    let mut k: usize = 0;
    proof {
        lemma_lines_total_len(paragraph@, 0);
    }
    while k < lines.len()
        invariant
            k <= lines@.len(),
            views(lines@) == lines_of(paragraph@),
            len == paragraph@.len(),
            total_len(views(lines@)) <= len,
            kept == scan_lines(views(lines@).take(k as int), old(filter)@).0,
            filter@ == scan_lines(views(lines@).take(k as int), old(filter)@).1,
        decreases lines@.len() - k,
    {
        let line: &[u8] = lines[k];
        proof {
            let next = views(lines@).take(k + 1);
            assert(next.drop_last() =~= views(lines@).take(k as int));
            assert(next.last() == line@);
            lemma_scan_lines_bound(next.drop_last(), old(filter)@);
            lemma_total_len_take(views(lines@), k + 1);
            assert(total_len(next) == total_len(next.drop_last()) + line@.len());
        }
        if !filter.get(line) {
            kept += line.len();
            filter.set(line);
        }
        k += 1;
    }
    proof {
        assert(views(lines@).take(k as int) =~= views(lines@));
        lemma_scan_lines_bound(views(lines@), old(filter)@);
    }
    kept
}

/// Inserts every line of `text` into `filter` and returns, in their order,
/// the lines that the filter already contained when they were met: those
/// seen in an earlier text or earlier in this one.
pub fn duplicate_lines<'a>(text: &'a [u8], filter: &mut BloomFilter) -> (found: Vec<&'a [u8]>)
    ensures
        views(found@) == scan_duplicates(lines_of(text@), old(filter)@).0,
        final(filter)@ == scan_duplicates(lines_of(text@), old(filter)@).1,
{
    let lines: Vec<&'a [u8]> = split_lines(text);
    let mut found: Vec<&'a [u8]> = Vec::new();
    let mut k: usize = 0;
    proof {
        assert(views(found@) =~= Seq::<Seq<u8>>::empty());
    }
    while k < lines.len()
        invariant
            k <= lines@.len(),
            views(lines@) == lines_of(text@),
            views(found@) == scan_duplicates(views(lines@).take(k as int), old(filter)@).0,
            filter@ == scan_duplicates(views(lines@).take(k as int), old(filter)@).1,
        decreases lines@.len() - k,
    {
        let line: &'a [u8] = lines[k];
        proof {
            let next = views(lines@).take(k + 1);
            assert(next.drop_last() =~= views(lines@).take(k as int));
            assert(next.last() == line@);
        }
        if filter.get(line) {
            proof {
                assert(views(found@.push(line)) =~= views(found@).push(line@));
            }
            found.push(line);
        }
        filter.set(line);
        k += 1;
    }
    proof {
        assert(views(lines@).take(k as int) =~= views(lines@));
    }
    found
}

/// Removes from the document `text` the paragraphs that are mostly made of
/// lines seen before, and records every line of the document in `filter`.
///
/// The result holds, in their order, the paragraphs whose share of bytes on
/// new lines exceeds `threshold`, each followed by two newlines. Lines are
/// recorded whether or not their paragraph is retained.
pub fn dedup_document(text: &[u8], filter: &mut BloomFilter, threshold: Threshold) -> (out: Vec<
    u8,
>)
    ensures
        out@ == dedup_result(text@, old(filter)@, threshold).0,
        final(filter)@ == dedup_result(text@, old(filter)@, threshold).1,
        old(filter)@.wf(),
        final(filter)@.wf(),
{
    proof {
        use_type_invariant(&*filter);
    }
    let paragraphs: Vec<&[u8]> = split_paragraphs(text);
    let mut out: Vec<u8> = Vec::new();
    let mut p: usize = 0;
    while p < paragraphs.len()
        invariant
            p <= paragraphs@.len(),
            views(paragraphs@) == paragraphs_of(text@),
            out@ == scan_paragraphs(views(paragraphs@).take(p as int), old(filter)@, threshold).0,
            filter@ == scan_paragraphs(
                views(paragraphs@).take(p as int),
                old(filter)@,
                threshold,
            ).1,
        decreases paragraphs@.len() - p,
    {
        let paragraph: &[u8] = paragraphs[p];
        proof {
            let next = views(paragraphs@).take(p + 1);
            assert(next.drop_last() =~= views(paragraphs@).take(p as int));
            assert(next.last() == paragraph@);
        }
        let kept: usize = count_new_bytes(paragraph, filter);
        if threshold.is_exceeded_by(kept, paragraph.len()) {
            append_bytes(&mut out, paragraph);
            out.push(NEWLINE);
            out.push(NEWLINE);
            proof {
                let before = scan_paragraphs(
                    views(paragraphs@).take(p as int),
                    old(filter)@,
                    threshold,
                ).0;
                assert(out@ =~= before + paragraph@ + seq![NEWLINE, NEWLINE]);
            }
        }
        p += 1;
    }
    proof {
        assert(views(paragraphs@).take(p as int) =~= views(paragraphs@));
        use_type_invariant(&*filter);
    }
    out
}

} // verus!

//! Word and character statistics of a document. Words are the stretches of
//! text between white space; their lengths are counted in bytes of UTF-8.

use vstd::prelude::*;
use vstd::string::StringSliceAdditionalSpecFns;
use vstd::utf8::{char_is_scalar, encode_scalar, encode_utf8};
use crate::ratio::Ratio;

verus! {

/// What the statistics need to know of one character.
#[derive(Clone, Copy, Debug, PartialEq, Eq)]
pub struct CharClass {
    /// The character is white space.
    pub whitespace: bool,
    /// The character is an ASCII punctuation mark or a numeric character.
    pub numpunc: bool,
    /// The number of bytes of the character.
    pub width: usize,
}

/// The statistics of one document.
#[derive(Clone, Copy, Debug, PartialEq, Eq)]
pub struct DocumentStats {
    /// Number of words longer than `LONG_WORD` bytes.
    pub n_long_words: usize,
    /// Mean length of a word in bytes, rounded down; 0 without words.
    pub avg_word_length: usize,
    /// Number of words.
    pub n_words: usize,
    /// Sum of the lengths of the words in bytes.
    pub total_length: usize,
    /// Number of characters.
    pub n_chars: usize,
    /// Number of characters that are punctuation marks or numeric.
    pub n_numpunc: usize,
}

/// A word counts as long when it has more bytes than this.
pub const LONG_WORD: usize = 15;

/// The bytes of the characters `a .. b`.
pub open spec fn width_sum(cs: Seq<CharClass>, a: int, b: int) -> nat
    decreases b - a,
{
    if b <= a {
        0
    } else {
        width_sum(cs, a, b - 1) + cs[b - 1].width as nat
    }
}

/// The first index at or after `from` that holds white space, or `cs.len()`
/// if there is none.
pub open spec fn word_end(cs: Seq<CharClass>, from: int) -> int
    decreases cs.len() - from,
{
    if from >= cs.len() {
        cs.len() as int
    } else if cs[from].whitespace {
        from
    } else {
        word_end(cs, from + 1)
    }
}

/// The lengths in bytes of the words that start at or after `from`, in
/// their order. A word is a stretch of characters that are not white space,
/// taken as long as it goes.
pub open spec fn words_from(cs: Seq<CharClass>, from: int) -> Seq<nat>
    decreases cs.len() - from,
    when 0 <= from <= cs.len()
    via words_from_decreases
{
    if from >= cs.len() {
        Seq::empty()
    } else if cs[from].whitespace {
        words_from(cs, from + 1)
    } else {
        seq![width_sum(cs, from, word_end(cs, from))] + words_from(cs, word_end(cs, from))
    }
}

#[via_fn]
proof fn words_from_decreases(cs: Seq<CharClass>, from: int) {
    lemma_word_end_bounds(cs, from);
}

/// The lengths in bytes of the words of a text.
pub open spec fn words_of(cs: Seq<CharClass>) -> Seq<nat> {
    words_from(cs, 0)
}

/// The sum of the first `m` of `lengths`.
pub open spec fn sum_of(lengths: Seq<nat>, m: int) -> nat
    decreases m,
{
    if m <= 0 {
        0
    } else {
        sum_of(lengths, m - 1) + lengths[m - 1]
    }
}

/// How many of the first `m` of `lengths` are greater than `bound`.
pub open spec fn count_above(lengths: Seq<nat>, bound: nat, m: int) -> nat
    decreases m,
{
    if m <= 0 {
        0
    } else {
        count_above(lengths, bound, m - 1) + (if lengths[m - 1] > bound {
            1nat
        } else {
            0nat
        })
    }
}

/// The sum of those of the first `m` of `lengths` that are at least `min`.
pub open spec fn sum_at_least(lengths: Seq<nat>, min: nat, m: int) -> nat
    decreases m,
{
    if m <= 0 {
        0
    } else {
        sum_at_least(lengths, min, m - 1) + (if lengths[m - 1] >= min {
            lengths[m - 1]
        } else {
            0nat
        })
    }
}

/// How many of the first `m` characters are punctuation marks or numeric.
pub open spec fn numpunc_count(cs: Seq<CharClass>, m: int) -> nat
    decreases m,
{
    if m <= 0 {
        0
    } else {
        numpunc_count(cs, m - 1) + (if cs[m - 1].numpunc {
            1nat
        } else {
            0nat
        })
    }
}

/// `stats` are the statistics of a text whose characters have the classes
/// `cs`.
pub open spec fn is_stats_of(stats: DocumentStats, cs: Seq<CharClass>) -> bool {
    let words = words_of(cs);
    let total = sum_of(words, words.len() as int);
    &&& stats.n_words == words.len()
    &&& stats.total_length == total
    &&& stats.n_long_words == count_above(words, LONG_WORD as nat, words.len() as int)
    &&& stats.avg_word_length == (if words.len() == 0 {
        total
    } else {
        total / words.len()
    })
    &&& stats.n_chars == cs.len()
    &&& stats.n_numpunc == numpunc_count(cs, cs.len() as int)
}

/// The number of bytes in words of at least `min_length` bytes.
pub open spec fn long_word_bytes(cs: Seq<CharClass>, min_length: nat) -> nat {
    sum_at_least(words_of(cs), min_length, words_of(cs).len() as int)
}

pub proof fn lemma_word_end_bounds(cs: Seq<CharClass>, from: int)
    requires
        0 <= from <= cs.len(),
    ensures
        from <= word_end(cs, from) <= cs.len(),
        from < cs.len() && !cs[from].whitespace ==> from < word_end(cs, from),
    decreases cs.len() - from,
{
    if from < cs.len() && !cs[from].whitespace {
        lemma_word_end_bounds(cs, from + 1);
    }
}

/// The bytes of two adjoining stretches add up.
pub proof fn lemma_width_sum_split(cs: Seq<CharClass>, a: int, b: int, c: int)
    requires
        a <= b <= c,
    ensures
        width_sum(cs, a, c) == width_sum(cs, a, b) + width_sum(cs, b, c),
    decreases c - b,
{
    if b < c {
        lemma_width_sum_split(cs, a, b, c - 1);
    }
}

/// A stretch of the text has no more bytes than the text.
pub proof fn lemma_width_sum_bound(cs: Seq<CharClass>, a: int, b: int)
    requires
        0 <= a <= b <= cs.len(),
    ensures
        width_sum(cs, a, b) <= width_sum(cs, 0, cs.len() as int),
{
    lemma_width_sum_split(cs, 0, a, b);
    lemma_width_sum_split(cs, 0, b, cs.len() as int);
}

/// The words from `from` on have no more bytes than the characters from
/// `from` on, and there are no more words than characters.
pub proof fn lemma_words_bound(cs: Seq<CharClass>, from: int)
    requires
        0 <= from <= cs.len(),
    ensures
        sum_of(words_from(cs, from), words_from(cs, from).len() as int) <= width_sum(
            cs,
            from,
            cs.len() as int,
        ),
        words_from(cs, from).len() <= cs.len() - from,
    decreases cs.len() - from,
{
    if from < cs.len() {
        if cs[from].whitespace {
            lemma_words_bound(cs, from + 1);
            lemma_width_sum_split(cs, from, from + 1, cs.len() as int);
        } else {
            let end = word_end(cs, from);
            lemma_word_end_bounds(cs, from);
            lemma_words_bound(cs, end);
            lemma_width_sum_split(cs, from, end, cs.len() as int);
            let first = seq![width_sum(cs, from, end)];
            let rest = words_from(cs, end);
            lemma_sum_of_concat(first, rest);
            assert(sum_of(first, 1) == sum_of(first, 0) + first[0]);
        }
    }
}

/// The sums of two lists add up to the sum of their concatenation.
pub proof fn lemma_sum_of_concat(a: Seq<nat>, b: Seq<nat>)
    ensures
        sum_of(a + b, (a + b).len() as int) == sum_of(a, a.len() as int) + sum_of(
            b,
            b.len() as int,
        ),
    decreases b.len(),
{
    if b.len() == 0 {
        assert(a + b =~= a);
    } else {
        let front = b.drop_last();
        lemma_sum_of_concat(a, front);
        lemma_sum_of_prefix(a + b, a + front, (a + front).len() as int);
        lemma_sum_of_prefix(b, front, front.len() as int);
        assert((a + b)[(a + b).len() - 1] == b[b.len() - 1]);
    }
}

/// The sum of the first `m` lengths depends on those lengths only.
pub proof fn lemma_sum_of_prefix(a: Seq<nat>, b: Seq<nat>, m: int)
    requires
        0 <= m <= a.len(),
        m <= b.len(),
        forall|i: int| 0 <= i < m ==> a[i] == b[i],
    ensures
        sum_of(a, m) == sum_of(b, m),
    decreases m,
{
    if m > 0 {
        lemma_sum_of_prefix(a, b, m - 1);
    }
}

/// The lengths held in `v`, as natural numbers.
pub open spec fn lengths_of(v: Seq<usize>) -> Seq<nat> {
    Seq::new(v.len(), |i: int| v[i] as nat)
}

/// Measures the words of a text, given the classes of its characters: the
/// length in bytes of each word, in their order.
pub fn word_lengths(classes: &[CharClass]) -> (lengths: Vec<usize>)
    requires
        width_sum(classes@, 0, classes@.len() as int) <= usize::MAX,
    ensures
        lengths_of(lengths@) == words_of(classes@),
{
    let len: usize = classes.len();
    let mut lengths: Vec<usize> = Vec::new();
    let mut in_word: bool = false;
    let mut current: usize = 0;
    let mut i: usize = 0;
    let ghost mut start: int = 0;
    proof {
        assert(lengths_of(lengths@) =~= Seq::<nat>::empty());
        assert(lengths_of(lengths@) + words_from(classes@, 0) =~= words_from(classes@, 0));
    }
    while i < len
        invariant
            len == classes@.len(),
            width_sum(classes@, 0, len as int) <= usize::MAX,
            0 <= start <= i <= len,
            words_of(classes@) == lengths_of(lengths@) + words_from(classes@, start),
            in_word ==> start < i && !classes@[start].whitespace && word_end(classes@, start)
                == word_end(classes@, i as int) && current == width_sum(classes@, start, i as int),
            !in_word ==> start == i,
        decreases len - i,
    {
        let class: CharClass = classes[i];
        if class.whitespace {
            if in_word {
                proof {
                    let done = lengths_of(lengths@);
                    assert(lengths_of(lengths@.push(current)) =~= done.push(current as nat));
                    assert(done.push(current as nat) + words_from(classes@, i as int) =~= done + (
                    seq![current as nat] + words_from(classes@, i as int)));
                }
                lengths.push(current);
                in_word = false;
            }
            proof {
                start = i + 1;
            }
        } else {
            proof {
                lemma_width_sum_bound(classes@, if in_word { start } else { i as int }, i + 1);
            }
            if in_word {
                current += class.width;
            } else {
                proof {
                    start = i as int;
                    assert(width_sum(classes@, i as int, i as int) == 0);
                }
                in_word = true;
                current = class.width;
            }
        }
        i += 1;
    }
    if in_word {
        proof {
            let done = lengths_of(lengths@);
            assert(lengths_of(lengths@.push(current)) =~= done.push(current as nat));
            assert(words_from(classes@, len as int) =~= Seq::<nat>::empty());
            assert(done.push(current as nat) =~= done + (seq![current as nat] + words_from(
                classes@,
                len as int,
            )));
        }
        lengths.push(current);
    } else {
        proof {
            assert(words_from(classes@, len as int) =~= Seq::<nat>::empty());
            assert(lengths_of(lengths@) + words_from(classes@, len as int) =~= lengths_of(
                lengths@,
            ));
        }
    }
    lengths
}

/// Computes the statistics of a text from the classes of its characters.
pub fn stats_of_classes(classes: &[CharClass]) -> (stats: DocumentStats)
    requires
        width_sum(classes@, 0, classes@.len() as int) <= usize::MAX,
    ensures
        is_stats_of(stats, classes@),
{
    let lengths: Vec<usize> = word_lengths(classes);
    let ghost words = words_of(classes@);
    let n_words: usize = lengths.len();
    let mut n_long_words: usize = 0;
    let mut total_length: usize = 0;
    let mut k: usize = 0;
    proof {
        lemma_words_bound(classes@, 0);
    }
    while k < n_words
        invariant
            k <= n_words == lengths@.len(),
            words == lengths_of(lengths@),
            sum_of(words, words.len() as int) <= usize::MAX,
            total_length == sum_of(words, k as int),
            n_long_words == count_above(words, LONG_WORD as nat, k as int),
            n_long_words <= k,
        decreases n_words - k,
    {
        proof {
            lemma_sum_of_monotone(words, k + 1, words.len() as int);
            assert(words[k as int] == lengths@[k as int]);
        }
        if lengths[k] > LONG_WORD {
            n_long_words += 1;
        }
        total_length += lengths[k];
        k += 1;
    }
    let len: usize = classes.len();
    let mut n_numpunc: usize = 0;
    let mut i: usize = 0;
    while i < len
        invariant
            i <= len == classes@.len(),
            n_numpunc == numpunc_count(classes@, i as int),
            n_numpunc <= i,
        decreases len - i,
    {
        if classes[i].numpunc {
            n_numpunc += 1;
        }
        i += 1;
    }
    let avg_word_length: usize = if n_words == 0 {
        total_length
    } else {
        total_length / n_words
    };
    DocumentStats {
        n_long_words,
        avg_word_length,
        n_words,
        total_length,
        n_chars: len,
        n_numpunc,
    }
}

/// Counts the bytes of a text that lie in words of at least `min_length`
/// bytes, given the classes of its characters.
pub fn long_word_bytes_of_classes(classes: &[CharClass], min_length: usize) -> (bytes: usize)
    requires
        width_sum(classes@, 0, classes@.len() as int) <= usize::MAX,
    ensures
        bytes == long_word_bytes(classes@, min_length as nat),
        bytes <= width_sum(classes@, 0, classes@.len() as int),
{
    let lengths: Vec<usize> = word_lengths(classes);
    let ghost words = words_of(classes@);
    let n_words: usize = lengths.len();
    let mut bytes: usize = 0;
    let mut k: usize = 0;
    proof {
        lemma_words_bound(classes@, 0);
    }
    while k < n_words
        invariant
            k <= n_words == lengths@.len(),
            words == lengths_of(lengths@),
            sum_of(words, words.len() as int) <= usize::MAX,
            bytes == sum_at_least(words, min_length as nat, k as int),
            bytes <= sum_of(words, k as int),
        decreases n_words - k,
    {
        proof {
            lemma_sum_of_monotone(words, k + 1, words.len() as int);
            assert(words[k as int] == lengths@[k as int]);
        }
        if lengths[k] >= min_length {
            bytes += lengths[k];
        }
        k += 1;
    }
    bytes
}

/// Names what `char::is_whitespace` of the standard library returns:
/// whether the character has the Unicode property `White_Space`.
pub uninterp spec fn char_is_whitespace(c: char) -> bool;

/// Names what `char::is_numeric` of the standard library returns: whether
/// the character is in one of the Unicode general categories for numbers.
pub uninterp spec fn char_is_numeric(c: char) -> bool;

/// The character is one of the ASCII punctuation marks.
pub open spec fn char_is_ascii_punctuation(c: char) -> bool {
    let v = c as u32;
    (0x21 <= v <= 0x2f) || (0x3a <= v <= 0x40) || (0x5b <= v <= 0x60) || (0x7b <= v <= 0x7e)
}

/// The number of bytes of the UTF-8 encoding of the character.
pub open spec fn char_width(c: char) -> nat {
    encode_scalar(c as u32).len()
}

/// The class of a character.
pub open spec fn class_of(c: char) -> CharClass {
    CharClass {
        whitespace: char_is_whitespace(c),
        numpunc: char_is_ascii_punctuation(c) || char_is_numeric(c),
        width: char_width(c) as usize,
    }
}

/// The classes of the characters of a text.
pub open spec fn classes_of(s: Seq<char>) -> Seq<CharClass> {
    Seq::new(s.len(), |i: int| class_of(s[i]))
}

/// Asks `char::is_whitespace` of the standard library whether `c` is white
/// space. Nothing is claimed of the answer but that it depends on `c` alone.
#[verifier::external_body]
fn is_whitespace(c: char) -> (b: bool)
    ensures
        b == char_is_whitespace(c),
{
    c.is_whitespace()
}

/// Asks `char::is_numeric` of the standard library whether `c` is numeric.
/// Nothing is claimed of the answer but that it depends on `c` alone.
#[verifier::external_body]
fn is_numeric(c: char) -> (b: bool)
    ensures
        b == char_is_numeric(c),
{
    c.is_numeric()
}

/// Tells whether `c` is an ASCII punctuation mark.
pub fn is_ascii_punctuation(c: char) -> (b: bool)
    ensures
        b == char_is_ascii_punctuation(c),
{
    let v: u32 = c as u32;
    (0x21 <= v && v <= 0x2f) || (0x3a <= v && v <= 0x40) || (0x5b <= v && v <= 0x60) || (0x7b <= v
        && v <= 0x7e)
}

/// Returns the number of bytes that `c` takes in UTF-8.
pub fn utf8_width(c: char) -> (w: usize)
    ensures
        w == char_width(c),
        1 <= w <= 4,
{
    let v: u32 = c as u32;
    proof {
        char_is_scalar(c);
    }
    if v < 0x80 {
        1
    } else if v < 0x800 {
        2
    } else if v < 0x10000 {
        3
    } else {
        4
    }
}

/// Returns the class of `c`.
pub fn classify_char(c: char) -> (class: CharClass)
    ensures
        class == class_of(c),
{
    CharClass {
        whitespace: is_whitespace(c),
        numpunc: is_ascii_punctuation(c) || is_numeric(c),
        width: utf8_width(c),
    }
}

/// Returns the classes of the characters of `text`.
pub fn classify(text: &str) -> (classes: Vec<CharClass>)
    ensures
        classes@ == classes_of(text@),
{
    let mut classes: Vec<CharClass> = Vec::new();
    for c in it: text.chars()
        invariant
            it.seq() == text@,
            classes@ == classes_of(text@.take(it.index() as int)),
    {
        proof {
            assert(classes_of(text@.take(it.index() + 1)) =~= classes_of(
                text@.take(it.index() as int),
            ).push(class_of(c)));
        }
        classes.push(classify_char(c));
    }
    proof {
        assert(text@.take(text@.len() as int) =~= text@);
    }
    classes
}

proof fn lemma_width_sum_shift(cs: Seq<CharClass>, a: int, b: int)
    requires
        0 <= a <= b < cs.len(),
    ensures
        width_sum(cs, a + 1, b + 1) == width_sum(cs.drop_first(), a, b),
    decreases b - a,
{
    if a < b {
        lemma_width_sum_shift(cs, a, b - 1);
    }
}

/// The widths of the characters of a text add up to the length of its UTF-8
/// encoding.
pub proof fn lemma_width_sum_is_byte_len(s: Seq<char>)
    ensures
        width_sum(classes_of(s), 0, s.len() as int) == encode_utf8(s).len(),
    decreases s.len(),
{
    if s.len() > 0 {
        let cs = classes_of(s);
        let n = s.len() as int;
        lemma_width_sum_is_byte_len(s.drop_first());
        assert(classes_of(s.drop_first()) =~= cs.drop_first());
        lemma_width_sum_shift(cs, 0, n - 1);
        lemma_width_sum_split(cs, 0, 1, n);
        assert(width_sum(cs, 0, 1) == width_sum(cs, 0, 0) + cs[0].width as nat);
        char_is_scalar(s[0]);
    }
}

/// Computes the word and character statistics of `text`.
pub fn compute_stats(text: &str) -> (stats: DocumentStats)
    ensures
        is_stats_of(stats, classes_of(text@)),
{
    let classes: Vec<CharClass> = classify(text);
    let byte_len: usize = text.as_bytes().len();
    proof {
        lemma_width_sum_is_byte_len(text@);
    }
    stats_of_classes(classes.as_slice())
}

/// Measures the share of long words in `text`: the number of bytes that lie
/// in words of at least `min_length` bytes, over the length of the text in
/// bytes. The share of an empty text is zero.
pub fn compute_long_words(text: &str, min_length: usize) -> (r: Ratio)
    ensures
        r.num == long_word_bytes(classes_of(text@), min_length as nat),
        r.den == (if text@.len() == 0 {
            1
        } else {
            encode_utf8(text@).len()
        }),
        r.is_proper(),
{
    let classes: Vec<CharClass> = classify(text);
    let byte_len: usize = text.as_bytes().len();
    proof {
        lemma_width_sum_is_byte_len(text@);
        if text@.len() == 0 {
            assert(encode_utf8(text@).len() == 0);
        } else {
            char_is_scalar(text@[0]);
        }
    }
    let bytes: usize = long_word_bytes_of_classes(classes.as_slice(), min_length);
    Ratio::of_counts(bytes, byte_len)
}

/// A sum over fewer lengths is no greater.
pub proof fn lemma_sum_of_monotone(lengths: Seq<nat>, m: int, n: int)
    requires
        m <= n,
    ensures
        sum_of(lengths, m) <= sum_of(lengths, n),
    decreases n - m,
{
    if m < n {
        lemma_sum_of_monotone(lengths, m, n - 1);
    }
}

} // verus!

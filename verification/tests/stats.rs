use dactory::ratio::Ratio;
use dactory::stats::{
    classify, classify_char, compute_long_words, compute_stats, is_ascii_punctuation,
    long_word_bytes_of_classes, stats_of_classes, utf8_width, word_lengths, CharClass,
    DocumentStats,
};

const SAMPLES: [&str; 12] = [
    "",
    " ",
    "word",
    "two words",
    "  leading and trailing  ",
    "tabs\tand\nnewlines\r\nmixed",
    "Hello, world! 123",
    "a-word-that-is-longer-than-fifteen-bytes and short",
    "exactly15bytes! exactly16bytes!!",
    "caf\u{e9} na\u{ef}ve \u{4e2d}\u{6587} \u{1f600}\u{1f600}\u{1f600}\u{1f600}",
    "no\u{a0}break\u{2003}space\u{3000}here",
    "\u{663}\u{bd}\u{2167} digits of other scripts 42",
];

fn word(width: usize) -> CharClass {
    CharClass { whitespace: false, numpunc: false, width }
}

fn space() -> CharClass {
    CharClass { whitespace: true, numpunc: false, width: 1 }
}

#[test]
fn statistics_of_a_short_sentence() {
    let stats = compute_stats("Hello, world! 123");
    assert_eq!(
        stats,
        DocumentStats {
            n_long_words: 0,
            avg_word_length: 5,
            n_words: 3,
            total_length: 15,
            n_chars: 17,
            n_numpunc: 5,
        }
    );
}

#[test]
fn statistics_of_an_empty_text() {
    let zero = DocumentStats {
        n_long_words: 0,
        avg_word_length: 0,
        n_words: 0,
        total_length: 0,
        n_chars: 0,
        n_numpunc: 0,
    };
    assert_eq!(compute_stats(""), zero);
    assert_eq!(compute_stats(" \n\t").n_words, 0);
    assert_eq!(compute_stats(" \n\t").n_chars, 3);
}

#[test]
fn statistics_match_the_standard_library() {
    for sample in SAMPLES {
        let stats = compute_stats(sample);
        let tokens: Vec<&str> =
            sample.split(char::is_whitespace).filter(|t| !t.is_empty()).collect();
        let total: usize = tokens.iter().map(|t| t.len()).sum();
        assert_eq!(stats.n_words, tokens.len());
        assert_eq!(stats.total_length, total);
        assert_eq!(stats.n_long_words, tokens.iter().filter(|t| t.len() > 15).count());
        assert_eq!(stats.avg_word_length, total / std::cmp::max(1, tokens.len()));
        assert_eq!(stats.n_chars, sample.chars().count());
        assert_eq!(
            stats.n_numpunc,
            sample.chars().filter(|c| c.is_ascii_punctuation() || c.is_numeric()).count()
        );
    }
}

#[test]
fn long_words_match_the_standard_library() {
    for sample in SAMPLES {
        for min_length in [0usize, 1, 4, 5, 6, 15, 16, 100] {
            let expected: usize =
                sample.split_whitespace().filter(|w| w.len() >= min_length).map(|w| w.len()).sum();
            let r = compute_long_words(sample, min_length);
            assert_eq!(r.num, expected);
            assert_eq!(r.den, std::cmp::max(1, sample.len()));
        }
    }
}

#[test]
fn long_word_share_of_a_sentence() {
    assert_eq!(compute_long_words("tiny enormous words", 5), Ratio { num: 13, den: 19 });
    assert_eq!(compute_long_words("", 5), Ratio { num: 0, den: 1 });
    assert_eq!(compute_long_words("abc", 4), Ratio { num: 0, den: 3 });
    assert_eq!(compute_long_words("abcd", 4), Ratio { num: 4, den: 4 });
}

#[test]
fn long_word_boundary_is_sixteen_bytes() {
    assert_eq!(compute_stats("exactly15bytes!").n_long_words, 0);
    assert_eq!(compute_stats("exactly16bytes!!").n_long_words, 1);
}

#[test]
fn words_are_measured_from_classes() {
    let classes = [space(), word(1), word(2), space(), space(), word(4), word(3), word(1)];
    assert_eq!(word_lengths(&classes), vec![3usize, 8]);
    assert_eq!(word_lengths(&[]), Vec::<usize>::new());
    assert_eq!(word_lengths(&[space(), space()]), Vec::<usize>::new());
    assert_eq!(word_lengths(&[word(2)]), vec![2usize]);
    assert_eq!(word_lengths(&[word(0), space(), word(0)]), vec![0usize, 0]);
    assert_eq!(long_word_bytes_of_classes(&classes, 4), 8);
    assert_eq!(long_word_bytes_of_classes(&classes, 3), 11);
    assert_eq!(long_word_bytes_of_classes(&classes, 9), 0);
}

#[test]
fn statistics_are_computed_from_classes() {
    let mark = CharClass { whitespace: false, numpunc: true, width: 1 };
    let wide = CharClass { whitespace: true, numpunc: true, width: 3 };
    let classes = [word(4), word(4), word(4), word(4), mark, wide, word(2), space()];
    assert_eq!(
        stats_of_classes(&classes),
        DocumentStats {
            n_long_words: 1,
            avg_word_length: 9,
            n_words: 2,
            total_length: 19,
            n_chars: 8,
            n_numpunc: 2,
        }
    );
}

#[test]
fn characters_are_classified() {
    assert_eq!(classify_char('a'), CharClass { whitespace: false, numpunc: false, width: 1 });
    assert_eq!(classify_char(' '), CharClass { whitespace: true, numpunc: false, width: 1 });
    assert_eq!(classify_char('7'), CharClass { whitespace: false, numpunc: true, width: 1 });
    assert_eq!(classify_char('!'), CharClass { whitespace: false, numpunc: true, width: 1 });
    assert_eq!(classify_char('\u{e9}'), CharClass { whitespace: false, numpunc: false, width: 2 });
    assert_eq!(classify_char('\u{3000}'), CharClass { whitespace: true, numpunc: false, width: 3 });
    assert_eq!(classify_char('\u{bd}'), CharClass { whitespace: false, numpunc: true, width: 2 });
    assert_eq!(classify("a 1").len(), 3);
    assert_eq!(classify(""), Vec::<CharClass>::new());
}

#[test]
fn widths_and_punctuation_match_the_standard_library() {
    for v in 0..0x11_0000u32 {
        if let Some(c) = char::from_u32(v) {
            assert_eq!(utf8_width(c), c.len_utf8());
            assert_eq!(is_ascii_punctuation(c), c.is_ascii_punctuation());
        }
    }
}

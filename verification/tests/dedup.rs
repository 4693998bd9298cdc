use dactory::bloom::BloomFilter;
use dactory::dedup::{count_new_bytes, dedup_document, duplicate_lines, Threshold};

fn half() -> Threshold {
    Threshold { num: 1, den: 2 }
}

#[test]
fn second_identical_paragraph_is_dropped() {
    let mut filter = BloomFilter::new(1024, 2).unwrap();
    let out = dedup_document(b"A\nB\n\n\nA\nB\n", &mut filter, half());
    assert_eq!(out, b"A\nB\n\n".to_vec());
    assert!(filter.get(b"A"));
    assert!(filter.get(b"B"));
    assert!(filter.get(b""));
}

#[test]
fn second_pass_drops_everything() {
    let text = b"first line\nsecond line\n\nthird\n\n\nfourth\nfifth\nsixth";
    let mut filter = BloomFilter::new(1 << 16, 2).unwrap();
    let first = dedup_document(text, &mut filter, Threshold { num: 0, den: 1 });
    assert_eq!(first, b"first line\nsecond line\n\nthird\n\nfourth\nfifth\nsixth\n\n".to_vec());
    let bits = filter.bits().to_vec();
    for t in [Threshold { num: 0, den: 1 }, half(), Threshold { num: 99, den: 100 }] {
        assert_eq!(dedup_document(text, &mut filter, t), Vec::<u8>::new());
        assert_eq!(filter.bits(), &bits[..]);
    }
}

#[test]
fn retention_is_strictly_above_the_threshold() {
    // "old" is known; "new" is not: 3 new bytes out of 7.
    let mut filter = BloomFilter::new(1 << 12, 2).unwrap();
    filter.set(b"old");
    let out = dedup_document(b"old\nnew", &mut filter, Threshold { num: 3, den: 7 });
    assert_eq!(out, Vec::<u8>::new());

    let mut filter = BloomFilter::new(1 << 12, 2).unwrap();
    filter.set(b"old");
    let out = dedup_document(b"old\nnew", &mut filter, Threshold { num: 2, den: 7 });
    assert_eq!(out, b"old\nnew\n\n".to_vec());
}

#[test]
fn zero_threshold_keeps_any_new_byte() {
    let mut filter = BloomFilter::new(1 << 12, 2).unwrap();
    filter.set(b"a long line that was seen before");
    let text = b"a long line that was seen before\nx";
    let out = dedup_document(text, &mut filter, Threshold { num: 0, den: 1 });
    assert_eq!(out, [&text[..], b"\n\n"].concat());
    let out = dedup_document(text, &mut filter, Threshold { num: 0, den: 1 });
    assert_eq!(out, Vec::<u8>::new());
}

#[test]
fn empty_paragraphs_are_dropped_whatever_the_threshold() {
    for t in [Threshold { num: -1, den: 1 }, Threshold { num: 0, den: 1 }, half()] {
        let mut filter = BloomFilter::new(1024, 2).unwrap();
        assert_eq!(dedup_document(b"", &mut filter, t), Vec::<u8>::new());
        assert!(filter.get(b""));
        let mut filter = BloomFilter::new(1024, 2).unwrap();
        assert_eq!(dedup_document(b"\n\n\n", &mut filter, t), Vec::<u8>::new());
    }
}

#[test]
fn negative_threshold_keeps_every_non_empty_paragraph() {
    let mut filter = BloomFilter::new(1024, 2).unwrap();
    let t = Threshold { num: -1, den: 10 };
    assert_eq!(dedup_document(b"a\n\na\n\n\na", &mut filter, t), b"a\n\na\n\na\n\n".to_vec());
}

#[test]
fn threshold_of_one_or_more_keeps_nothing() {
    let mut filter = BloomFilter::new(1024, 2).unwrap();
    let out = dedup_document(b"all new", &mut filter, Threshold { num: 1, den: 1 });
    assert_eq!(out, Vec::<u8>::new());
    assert!(filter.get(b"all new"));
}

#[test]
fn lines_of_dropped_paragraphs_are_recorded() {
    let mut filter = BloomFilter::new(1 << 12, 2).unwrap();
    filter.set(b"known known known");
    let out = dedup_document(b"known known known\nnew", &mut filter, half());
    assert_eq!(out, Vec::<u8>::new());
    assert!(filter.get(b"new"));
}

#[test]
fn separators_are_normalised_to_two_newlines() {
    let mut filter = BloomFilter::new(1 << 12, 2).unwrap();
    let out = dedup_document(b"a\n\n\n\n\nb\nc\n\nd", &mut filter, half());
    assert_eq!(out, b"a\n\nb\nc\n\nd\n\n".to_vec());
}

#[test]
fn comparison_is_exact_on_large_numbers() {
    let t = Threshold { num: i64::MAX, den: u64::MAX };
    // kept / len > (2^63 - 1) / (2^64 - 1), which is a little under 1/2.
    assert!(t.is_exceeded_by(1, 2));
    assert!(!t.is_exceeded_by(usize::MAX / 2 - 1, usize::MAX));
    assert!(t.is_exceeded_by(usize::MAX / 2 + 1, usize::MAX));
    assert!(!Threshold { num: 1, den: 0 }.is_exceeded_by(5, 5));
    assert!(!Threshold { num: -1, den: 1 }.is_exceeded_by(0, 0));
    assert!(Threshold { num: -1, den: 1 }.is_exceeded_by(0, 1));
}

#[test]
fn new_bytes_leave_newlines_out() {
    let mut filter = BloomFilter::new(1 << 12, 2).unwrap();
    assert_eq!(count_new_bytes(b"ab\ncd\nab\n", &mut filter), 4);
    assert_eq!(count_new_bytes(b"ab\ncd\nab\n", &mut filter), 0);
    assert_eq!(count_new_bytes(b"xyz", &mut filter), 3);
}

#[test]
fn duplicate_lines_are_reported_in_order() {
    let mut filter = BloomFilter::new(1 << 12, 2).unwrap();
    let first = duplicate_lines(b"a\nb\na\nc\nb", &mut filter);
    assert_eq!(first, vec![&b"a"[..], &b"b"[..]]);
    let second = duplicate_lines(b"c\nd\n", &mut filter);
    assert_eq!(second, vec![&b"c"[..]]);
    assert!(filter.get(b"d"));
    assert!(filter.get(b""));
    let third = duplicate_lines(b"", &mut filter);
    assert_eq!(third, vec![&b""[..]]);
}

use dactory::ratio::Ratio;
use dactory::repetitions::{
    compute_repetitions, compute_repetitions_rolling, init_adler_32, windows_equal,
};

#[test]
fn repeated_trigrams_are_counted() {
    // Windows: abc, bca, cab, abc, bca, cab, abc. The last four repeat.
    let r = compute_repetitions_rolling(b"abcabcabc", 3);
    assert_eq!(r, Ratio { num: 4, den: 9 });
}

#[test]
fn text_not_longer_than_window_has_ratio_zero() {
    assert_eq!(compute_repetitions_rolling(b"abc", 3).num, 0);
    assert_eq!(compute_repetitions_rolling(b"ab", 3).num, 0);
    assert_eq!(compute_repetitions_rolling(b"", 0), Ratio { num: 0, den: 1 });
    assert_eq!(compute_repetitions_rolling(b"", 5), Ratio { num: 0, den: 1 });
}

#[test]
fn window_of_length_zero_repeats_at_every_byte() {
    assert_eq!(compute_repetitions_rolling(b"abc", 0), Ratio { num: 3, den: 3 });
}

#[test]
fn distinct_windows_do_not_repeat() {
    assert_eq!(compute_repetitions_rolling(b"abcdefghij", 3), Ratio { num: 0, den: 10 });
    assert_eq!(compute_repetitions_rolling(b"abcd", 3), Ratio { num: 0, den: 4 });
}

#[test]
fn constant_text_repeats_all_but_the_first_window() {
    let text = vec![b'x'; 1000];
    assert_eq!(compute_repetitions_rolling(&text, 40), Ratio { num: 960, den: 1000 });
    let zeros = vec![0u8; 50];
    assert_eq!(compute_repetitions_rolling(&zeros, 8), Ratio { num: 42, den: 50 });
}

#[test]
fn rolling_count_agrees_with_recomputed_hashes() {
    // A text with bytes of every size, long enough for the hash to wrap.
    let text: Vec<u8> = (0..600u32).map(|i| ((i * i + 7 * i) % 251) as u8 ^ 0x80).collect();
    for n in [1usize, 2, 5, 7, 16, 64] {
        let mut seen: Vec<u64> = Vec::new();
        let mut repeats = 0usize;
        for j in 0..=(text.len() - n) {
            let mut h: u64 = 0;
            for b in &text[j..j + n] {
                h = (h * 33 + *b as u64) % 1_000_000_007;
            }
            if seen.contains(&h) {
                repeats += 1;
            } else {
                seen.push(h);
            }
        }
        assert_eq!(compute_repetitions_rolling(&text, n), Ratio { num: repeats, den: text.len() });
    }
}

#[test]
fn exact_count_leaves_the_last_window_out() {
    // Windows abc, bca, cab, abc, bca, cab are compared; the seventh is not.
    assert_eq!(compute_repetitions(b"abcabcabc", 3), 3);
    assert_eq!(compute_repetitions(b"abc", 3), 0);
    assert_eq!(compute_repetitions(b"ab", 3), 0);
    assert_eq!(compute_repetitions(b"aaaa", 1), 2);
    assert_eq!(compute_repetitions(b"abcd", 0), 3);
    assert_eq!(compute_repetitions(b"", 0), 0);
}

#[test]
fn windows_are_compared_byte_by_byte() {
    assert!(windows_equal(b"abcabd", 2, 0, 3));
    assert!(!windows_equal(b"abcabd", 3, 0, 3));
    assert!(windows_equal(b"abcabd", 0, 1, 5));
    assert!(windows_equal(b"abcabd", 6, 0, 0));
}

#[test]
fn adler_state_of_a_known_text() {
    // Adler-32 of "Wikipedia" is 0x11E60398.
    assert_eq!(init_adler_32(b"Wikipedia", 9), (0x0398, 0x11e6));
    assert_eq!(init_adler_32(b"Wikipedia", 0), (1, 0));
    assert_eq!(init_adler_32(b"Wikipedia", 1), (88, 88));
    let big = vec![0xffu8; 6000];
    let (a, b) = init_adler_32(&big, 6000);
    assert_eq!(a as u64, (1 + 255 * 6000u64) % 65521);
    assert_eq!(b as u64, (6000 + 255 * (6000u64 * 6001 / 2)) % 65521);
}

use dactory::text::{append_bytes, split_lines, split_paragraphs};
use regex::Regex;

const SAMPLES: [&str; 24] = [
    "",
    "\n",
    "\n\n",
    "\n\n\n",
    "a",
    "a\n",
    "\na",
    "a\nb",
    "a\n\nb",
    "a\n\n\nb",
    "a\n\n\n\nb\n\nc",
    "\n\na",
    "a\n\n",
    "\n\na\n\n",
    "\n\n\na\nb\n\n\n",
    "a\nb\nc\n",
    "A\nB\n\n\nA\nB\n",
    "x\n\ny\n\n\nz\nw\n\n",
    "one line only",
    "caf\u{e9}\n\n\u{2603} snow\nman\n\n\n\u{1f600}",
    "a\n \n\nb",
    "\n \n",
    "tab\t\n\n\r\n\r\n",
    "a\n\nb\n\nc\n\nd\n\n\n\n\n\ne",
];

#[test]
fn lines_match_std_split() {
    for sample in SAMPLES {
        let expected: Vec<&[u8]> = sample.split('\n').map(|l| l.as_bytes()).collect();
        assert_eq!(split_lines(sample.as_bytes()), expected);
    }
}

#[test]
fn paragraphs_match_regex_split() {
    let re = Regex::new(r"\n\n+").unwrap();
    for sample in SAMPLES {
        let expected: Vec<&[u8]> = re.split(sample).map(|p| p.as_bytes()).collect();
        assert_eq!(split_paragraphs(sample.as_bytes()), expected);
    }
}

#[test]
fn paragraphs_match_regex_split_on_generated_texts() {
    // Every text of up to 9 characters over the alphabet {newline, 'a'}.
    let re = Regex::new(r"\n\n+").unwrap();
    for len in 0..10u32 {
        for code in 0..(1u32 << len) {
            let text: String =
                (0..len).map(|i| if code >> i & 1 == 1 { '\n' } else { 'a' }).collect();
            let expected: Vec<&[u8]> = re.split(&text).map(|p| p.as_bytes()).collect();
            assert_eq!(split_paragraphs(text.as_bytes()), expected);
            let lines: Vec<&[u8]> = text.split('\n').map(|l| l.as_bytes()).collect();
            assert_eq!(split_lines(text.as_bytes()), lines);
        }
    }
}

#[test]
fn split_edge_cases() {
    let empty: &[u8] = b"";
    assert_eq!(split_lines(b""), vec![empty]);
    assert_eq!(split_paragraphs(b""), vec![empty]);
    assert_eq!(split_lines(b"a\n"), vec![&b"a"[..], empty]);
    assert_eq!(split_paragraphs(b"a\n"), vec![&b"a\n"[..]]);
    assert_eq!(split_paragraphs(b"\n\na\n\n\nb\n"), vec![empty, &b"a"[..], &b"b\n"[..]]);
    assert_eq!(split_paragraphs(b"a\n\n"), vec![&b"a"[..], empty]);
}

#[test]
fn append_bytes_appends() {
    let mut out = vec![1u8, 2];
    append_bytes(&mut out, &[3, 4, 5]);
    append_bytes(&mut out, &[]);
    assert_eq!(out, vec![1u8, 2, 3, 4, 5]);
}

use reedline::history::codec::{chars_of, decode_entry, encode_entry, NEWLINE_ESCAPE};
use reedline::history::lines::{read_entries, write_entries};
use std::collections::VecDeque;

fn read(contents: &[u8]) -> (Vec<String>, usize) {
    let (entries, lossy) = read_entries(contents);
    (entries.into_iter().collect(), lossy)
}

fn written(entries: &[&str], from: usize) -> Vec<u8> {
    let entries: VecDeque<String> = entries.iter().map(|e| e.to_string()).collect();
    let mut out = b">".to_vec();
    write_entries(&entries, from, &mut out);
    out
}

#[test]
fn line_breaks_are_escaped() {
    assert_eq!(NEWLINE_ESCAPE, "<\\n>");
    assert_eq!(encode_entry("a\nb\n\nc"), "a<\\n>b<\\n><\\n>c");
    assert_eq!(encode_entry(""), "");
    assert_eq!(encode_entry("\u{e4}\t\r"), "\u{e4}\t\r");
}

#[test]
fn escapes_are_read_as_line_breaks() {
    assert_eq!(decode_entry("a<\\n>b<\\n><\\n>c"), "a\nb\n\nc");
    assert_eq!(decode_entry("<<\\n>\\n>"), "<\n\\n>");
    assert_eq!(decode_entry("<\\n"), "<\\n");
    assert_eq!(decode_entry(""), "");
}

#[test]
fn an_entry_reads_back_unless_it_holds_the_escape() {
    for s in ["plain", "a\nb", "\n\n", "<\\", "<\n>", "\u{1f600}\n"] {
        assert_eq!(decode_entry(&encode_entry(s)), s);
    }
    assert_eq!(decode_entry(&encode_entry("a<\\n>b")), "a\nb");
}

#[test]
fn characters_are_taken_one_by_one() {
    assert_eq!(chars_of("a\u{e4}\u{1f600}"), vec!['a', '\u{e4}', '\u{1f600}']);
}

#[test]
fn lines_end_at_line_feeds() {
    assert_eq!(read(b""), (vec![], 0));
    assert_eq!(read(b"a\nb\n"), (vec!["a".into(), "b".into()], 0));
    assert_eq!(read(b"a\nb"), (vec!["a".into(), "b".into()], 0));
    assert_eq!(read(b"\n\na\n"), (vec!["".into(), "".into(), "a".into()], 0));
}

#[test]
fn one_carriage_return_before_a_line_feed_is_dropped() {
    assert_eq!(read(b"a\r\nb\r\r\n"), (vec!["a".into(), "b\r".into()], 0));
    // but not at the end of an unfinished line, nor inside a line
    assert_eq!(read(b"a\rb\nc\r"), (vec!["a\rb".into(), "c\r".into()], 0));
    assert_eq!(read(b"\r\n"), (vec!["".into()], 0));
}

#[test]
fn bad_bytes_cost_one_record_each() {
    assert_eq!(
        read(b"ok\n\xff\xfe\ncaf\xba!\n<\\n>\xc3\nok\n"),
        (
            vec![
                "ok".into(),
                "\u{fffd}\u{fffd}".into(),
                "caf\u{fffd}!".into(),
                "\n\u{fffd}".into(),
                "ok".into(),
            ],
            3
        )
    );
    // U+FFFD itself is valid
    assert_eq!(read("\u{fffd}\n".as_bytes()), (vec!["\u{fffd}".into()], 0));
}

#[test]
fn entries_are_written_one_per_line() {
    assert_eq!(written(&["a", "b\nc"], 0), b">a\nb<\\n>c\n");
    assert_eq!(written(&["a", "b\nc"], 1), b">b<\\n>c\n");
    assert_eq!(written(&["a"], 1), b">");
    assert_eq!(written(&["", "\u{e4}"], 0), ">\n\u{e4}\n".as_bytes());
}

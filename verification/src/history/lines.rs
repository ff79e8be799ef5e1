//! The history file: one entry per line, read byte by byte so that a line that
//! is not valid UTF-8 costs that one record and no other.
use std::borrow::Cow;
use std::collections::VecDeque;
use vstd::prelude::*;
use vstd::slice::slice_subrange;
use vstd::utf8::*;

use crate::history::codec;

verus! {

/// The line feed, which ends a line.
pub const LF: u8 = 0x0a;

/// The carriage return, dropped where it stands right before the line feed.
pub const CR: u8 = 0x0d;

/// The index of the first line feed in `bytes`, or the length if there is none.
pub open spec fn first_newline(bytes: Seq<u8>) -> int
    decreases bytes.len(),
{
    if bytes.len() == 0 || bytes[0] == LF {
        0
    } else {
        1 + first_newline(bytes.skip(1))
    }
}

/// `line` without the carriage return that it ends in, if it ends in one.
pub open spec fn strip_cr(line: Seq<u8>) -> Seq<u8> {
    if line.len() > 0 && line.last() == CR {
        line.drop_last()
    } else {
        line
    }
}

/// The lines of a file: each ends at a line feed, which is dropped together with
/// a carriage return before it. Bytes after the last line feed are one more
/// line, kept as they are.
pub open spec fn split_lines(bytes: Seq<u8>) -> Seq<Seq<u8>>
    decreases bytes.len(),
    via split_lines_decreases
{
    if bytes.len() == 0 {
        Seq::empty()
    } else if first_newline(bytes) == bytes.len() {
        seq![bytes]
    } else {
        seq![strip_cr(bytes.take(first_newline(bytes)))] + split_lines(
            bytes.skip(first_newline(bytes) + 1),
        )
    }
}

#[via_fn]
proof fn split_lines_decreases(bytes: Seq<u8>) {
    lemma_first_newline(bytes);
}

/// What [`first_newline`] says of the bytes around the index that it gives.
proof fn lemma_first_newline(bytes: Seq<u8>)
    ensures
        0 <= first_newline(bytes) <= bytes.len(),
        forall|i: int| 0 <= i < first_newline(bytes) ==> bytes[i] != LF,
        first_newline(bytes) < bytes.len() ==> bytes[first_newline(bytes)] == LF,
    decreases bytes.len(),
{
    if bytes.len() > 0 && bytes[0] != LF {
        let rest = bytes.skip(1);
        lemma_first_newline(rest);
        assert forall|i: int| 0 <= i < first_newline(bytes) implies bytes[i] != LF by {
            if i > 0 {
                assert(rest[i - 1] == bytes[i]);
            }
        }
    }
}

/// The text of `bytes` as `String::from_utf8_lossy` gives it where they are not
/// valid UTF-8.
pub uninterp spec fn utf8_replaced(bytes: Seq<u8>) -> Seq<char>;

/// `String::from_utf8_lossy`: valid UTF-8 is borrowed and keeps its characters.
/// Anything else comes back as a new string, a function of the bytes alone, in
/// which U+FFFD stands for what could not be decoded.
pub assume_specification<'a>[ String::from_utf8_lossy ](v: &'a [u8]) -> (text: Cow<'a, str>)
    ensures
        text is Borrowed <==> valid_utf8(v@),
        valid_utf8(v@) ==> text@ == decode_utf8(v@),
        !valid_utf8(v@) ==> text@ == utf8_replaced(v@),
        !valid_utf8(v@) ==> text@.contains('\u{FFFD}'),
;

/// The text of a line: its characters, or, where it is not valid UTF-8, what
/// could be recovered of it.
pub open spec fn line_text(line: Seq<u8>) -> Seq<char> {
    if valid_utf8(line) {
        decode_utf8(line)
    } else {
        utf8_replaced(line)
    }
}

/// The entry that a line of the file stands for.
pub open spec fn line_entry(line: Seq<u8>) -> Seq<char> {
    codec::decode_chars(line_text(line))
}

/// The entries of a file with the given bytes, oldest first.
pub open spec fn file_entries(bytes: Seq<u8>) -> Seq<Seq<char>> {
    split_lines(bytes).map_values(|line: Seq<u8>| line_entry(line))
}

/// How many of `lines` are not valid UTF-8.
pub open spec fn lossy_lines(lines: Seq<Seq<u8>>) -> nat
    decreases lines.len(),
{
    if lines.len() == 0 {
        0
    } else {
        lossy_lines(lines.drop_last()) + if valid_utf8(lines.last()) {
            0nat
        } else {
            1
        }
    }
}

/// The texts of `strings`.
pub open spec fn texts(strings: Seq<String>) -> Seq<Seq<char>> {
    strings.map_values(|s: String| s@)
}

/// A character that is no part of the escape is still there once a line has
/// been decoded.
proof fn lemma_decoding_keeps(s: Seq<char>, c: char)
    requires
        s.contains(c),
        c != '<' && c != '\\' && c != 'n' && c != '>',
    ensures
        codec::decode_chars(s).contains(c),
    decreases s.len(),
{
    let i = choose|i: int| 0 <= i < s.len() && s[i] == c;
    let d = codec::decode_chars(s);
    if codec::starts_with_escape(s) {
        assert(s.take(4)[0] == s[0] && s.take(4)[1] == s[1] && s.take(4)[2] == s[2] && s.take(4)[3]
            == s[3]);
        assert(i >= 4);
        assert(s.skip(4)[i - 4] == c);
        lemma_decoding_keeps(s.skip(4), c);
        let j = choose|j: int|
            0 <= j < codec::decode_chars(s.skip(4)).len() && codec::decode_chars(s.skip(4))[j] == c;
        assert(d[j + 1] == c);
    } else if i == 0 {
        assert(d[0] == c);
    } else {
        assert(s.skip(1)[i - 1] == c);
        lemma_decoding_keeps(s.skip(1), c);
        let j = choose|j: int|
            0 <= j < codec::decode_chars(s.skip(1)).len() && codec::decode_chars(s.skip(1))[j] == c;
        assert(d[j + 1] == c);
    }
}

/// Reads one line: the entry, and whether it had to be recovered lossily.
fn read_line(line: &[u8]) -> (read: (String, bool))
    ensures
        read.0@ == line_entry(line@),
        valid_utf8(line@) ==> read.0@ == codec::decode_chars(decode_utf8(line@)),
        !valid_utf8(line@) ==> read.0@ == codec::decode_chars(utf8_replaced(line@)),
        read.1 == !valid_utf8(line@),
        read.1 ==> read.0@.contains('\u{FFFD}'),
{
    let text = String::from_utf8_lossy(line);
    match text {
        Cow::Borrowed(valid) => (codec::decode_entry(valid), false),
        Cow::Owned(recovered) => {
            let entry = codec::decode_entry(recovered.as_str());
            proof {
                lemma_decoding_keeps(recovered@, '\u{FFFD}');
            }
            (entry, true)
        },
    }
}

/// Splitting off a line that ends at the first line feed.
proof fn lemma_split_line(bytes: Seq<u8>, end: int)
    requires
        0 <= end <= bytes.len(),
        forall|i: int| 0 <= i < end ==> bytes[i] != LF,
        end < bytes.len() ==> bytes[end] == LF,
    ensures
        first_newline(bytes) == end,
{
    lemma_first_newline(bytes);
    if first_newline(bytes) < end {
        assert(bytes[first_newline(bytes)] == LF);
    }
}

/// Reads a whole history file: its entries, oldest first, and how many of its
/// lines had to be recovered lossily because they were not valid UTF-8.
///
/// Such a line is kept like any other, as one entry, with U+FFFD for the bytes
/// that could not be decoded.
pub fn read_entries(contents: &[u8]) -> (read: (VecDeque<String>, usize))
    ensures
        texts(read.0@) == file_entries(contents@),
        read.1 == lossy_lines(split_lines(contents@)),
        forall|i: int|
            0 <= i < split_lines(contents@).len() && !valid_utf8(
                #[trigger] split_lines(contents@)[i],
            ) ==> read.0@[i]@ == codec::decode_chars(utf8_replaced(split_lines(contents@)[i]))
                && read.0@[i]@.contains('\u{FFFD}'),
{
    let mut entries: VecDeque<String> = VecDeque::new();
    let mut lossy: usize = 0;
    let mut start: usize = 0;
    let ghost mut done: Seq<Seq<u8>> = Seq::empty();
    assert(contents@.skip(0) == contents@);
    assert(done + split_lines(contents@) == split_lines(contents@));
    while start < contents.len()
        invariant
            start <= contents.len(),
            done + split_lines(contents@.skip(start as int)) == split_lines(contents@),
            entries@.len() == done.len(),
            forall|i: int| 0 <= i < done.len() ==> entries@[i]@ == line_entry(#[trigger] done[i]),
            forall|i: int|
                0 <= i < done.len() && !valid_utf8(#[trigger] done[i]) ==> entries@[i]@.contains(
                    '\u{FFFD}',
                ),
            lossy == lossy_lines(done),
            lossy <= start,
        decreases contents.len() - start,
    {
        let mut end: usize = start;
        while end < contents.len() && contents[end] != LF
            invariant
                start <= end <= contents.len(),
                forall|i: int| start <= i < end ==> contents@[i] != LF,
            decreases contents.len() - end,
        {
            end = end + 1;
        }
        let ghost rest = contents@.skip(start as int);
        proof {
            lemma_split_line(rest, end - start);
        }
        let mut stop: usize = end;
        let mut next: usize = end;
        if end < contents.len() {
            if stop > start && contents[stop - 1] == CR {
                stop = stop - 1;
            }
            next = end + 1;
        }
        let line = slice_subrange(contents, start, stop);
        assert(rest.take(end - start) == contents@.subrange(start as int, end as int));
        if end < contents.len() {
            assert(line@ == strip_cr(rest.take(end - start)));
        } else {
            assert(line@ == rest);
        }
        assert(contents@.skip(next as int) == rest.skip(next - start));
        let (entry, recovered) = read_line(line);
        if recovered {
            lossy = lossy + 1;
        }
        entries.push_back(entry);
        proof {
            let before = done;
            done = done.push(line@);
            assert(done.drop_last() == before);
            if end == contents.len() {
                assert(rest.skip(next - start) == Seq::<u8>::empty());
            }
            assert(split_lines(rest) == seq![line@] + split_lines(rest.skip(next - start)));
            assert(before + (seq![line@] + split_lines(rest.skip(next - start))) == done
                + split_lines(rest.skip(next - start)));
        }
        start = next;
    }
    assert(contents@.skip(start as int) == Seq::<u8>::empty());
    assert(done == split_lines(contents@));
    assert(texts(entries@) == file_entries(contents@));
    (entries, lossy)
}

/// The line that an entry takes in the file, with the line feed that ends it.
pub open spec fn entry_bytes(entry: Seq<char>) -> Seq<u8> {
    encode_utf8(codec::encode_chars(entry)).push(LF)
}

/// The bytes of a file that holds `entries`, one after the other.
pub open spec fn entries_bytes(entries: Seq<Seq<char>>) -> Seq<u8>
    decreases entries.len(),
{
    if entries.len() == 0 {
        Seq::empty()
    } else {
        entries_bytes(entries.drop_last()) + entry_bytes(entries.last())
    }
}

/// Writes `entries[from..]` behind `out`, one line each.
pub fn write_entries(entries: &VecDeque<String>, from: usize, out: &mut Vec<u8>)
    requires
        from <= entries@.len(),
    ensures
        final(out)@ == old(out)@ + entries_bytes(texts(entries@.skip(from as int))),
{
    let ghost unwritten = texts(entries@.skip(from as int));
    let mut i: usize = from;
    assert(old(out)@ + entries_bytes(unwritten.take(0)) == old(out)@);
    while i < entries.len()
        invariant
            from <= i <= entries@.len(),
            unwritten == texts(entries@.skip(from as int)),
            out@ == old(out)@ + entries_bytes(unwritten.take(i - from)),
        decreases entries.len() - i,
    {
        let line = codec::encode_entry(entries[i].as_str());
        let ghost before = out@;
        out.extend_from_slice(line.as_str().as_bytes());
        assert(out@ == before + encode_utf8(line@));
        out.push(LF);
        proof {
            let n = i - from;
            assert(unwritten.take(n + 1).drop_last() == unwritten.take(n));
            assert(unwritten.take(n + 1).last() == entries@[i as int]@);
            assert(out@ == before + entry_bytes(unwritten[n]));
        }
        i = i + 1;
    }
    assert(unwritten.take(i - from) == unwritten);
}

/// Whether `bytes` end where a line ends, so that what follows is a new line.
pub open spec fn terminated(bytes: Seq<u8>) -> bool {
    bytes.len() == 0 || bytes.last() == LF
}

/// Whether an entry survives being written and read: it does not hold the escape
/// that stands for a line break, and does not end in a carriage return, which
/// would be taken for a part of the line's end.
pub open spec fn storable(entry: Seq<char>) -> bool {
    &&& !codec::contains_escape(entry)
    &&& entry.len() > 0 ==> entry.last() != '\r'
}

/// The lines behind the end of a line are split on their own.
proof fn lemma_split_concat(a: Seq<u8>, b: Seq<u8>)
    requires
        terminated(a),
    ensures
        split_lines(a + b) == split_lines(a) + split_lines(b),
    decreases a.len(),
{
    if a.len() == 0 {
        assert(a + b == b);
        assert(split_lines(a) + split_lines(b) == split_lines(b));
    } else {
        let n = first_newline(a);
        lemma_first_newline(a);
        assert(a[a.len() - 1] == LF);
        assert(n < a.len());
        lemma_split_line(a + b, n);
        let rest = a.skip(n + 1);
        assert((a + b).take(n) == a.take(n));
        assert((a + b).skip(n + 1) == rest + b);
        if rest.len() > 0 {
            assert(rest.last() == a.last());
        }
        lemma_split_concat(rest, b);
        let line = seq![strip_cr(a.take(n))];
        assert(line + (split_lines(rest) + split_lines(b)) == split_lines(a) + split_lines(b));
    }
}

/// What is put behind an unfinished line joins it: the last line of the one and
/// the first of the other become one.
pub proof fn lemma_split_joined(a: Seq<u8>, b: Seq<u8>)
    requires
        !terminated(a),
        b.len() > 0,
    ensures
        split_lines(a + b).len() == split_lines(a).len() + split_lines(b).len() - 1,
    decreases a.len(),
{
    let n = first_newline(a);
    let m = first_newline(b);
    lemma_first_newline(a);
    lemma_first_newline(b);
    if n == a.len() {
        assert forall|i: int| 0 <= i < n + m implies (a + b)[i] != LF by {
            if i >= n {
                assert((a + b)[i] == b[i - n]);
            }
        }
        lemma_split_line(a + b, n + m);
        if m < b.len() {
            assert((a + b).skip(n + m + 1) == b.skip(m + 1));
        }
    } else {
        let rest = a.skip(n + 1);
        lemma_split_line(a + b, n);
        assert(n < a.len() - 1);
        assert(rest.last() == a.last());
        assert((a + b).skip(n + 1) == rest + b);
        lemma_split_joined(rest, b);
    }
}

/// One line, with the line feed that ends it, is one line.
proof fn lemma_split_one(line: Seq<u8>)
    requires
        !line.contains(LF),
    ensures
        split_lines(line.push(LF)) == seq![strip_cr(line)],
{
    let bytes = line.push(LF);
    assert forall|i: int| 0 <= i < line.len() implies bytes[i] != LF by {
        assert(line.contains(line[i]));
    }
    lemma_split_line(bytes, line.len() as int);
    assert(bytes.take(line.len() as int) == line);
    assert(bytes.skip(line.len() as int + 1) == Seq::<u8>::empty());
    assert(split_lines(bytes.skip(line.len() as int + 1)) == Seq::<Seq<u8>>::empty());
    assert(split_lines(bytes) == seq![strip_cr(line)] + Seq::<Seq<u8>>::empty());
}

/// Counting lossy lines in two parts.
proof fn lemma_lossy_concat(a: Seq<Seq<u8>>, b: Seq<Seq<u8>>)
    ensures
        lossy_lines(a + b) == lossy_lines(a) + lossy_lines(b),
    decreases b.len(),
{
    if b.len() == 0 {
        assert(a + b == a);
    } else {
        lemma_lossy_concat(a, b.drop_last());
        assert((a + b).drop_last() == a + b.drop_last());
    }
}

/// Files are read line by line: what stands behind the end of a line is read as
/// it would be on its own.
pub proof fn law_files_are_read_line_by_line(a: Seq<u8>, b: Seq<u8>)
    requires
        terminated(a),
    ensures
        file_entries(a + b) == file_entries(a) + file_entries(b),
        lossy_lines(split_lines(a + b)) == lossy_lines(split_lines(a)) + lossy_lines(
            split_lines(b),
        ),
{
    lemma_split_concat(a, b);
    lemma_lossy_concat(split_lines(a), split_lines(b));
    assert(file_entries(a + b) == file_entries(a) + file_entries(b));
}

/// One bad line costs one record, never the file: whatever bytes a line holds,
/// it is exactly one entry, it counts as at most one lossy recovery, and what
/// stands before and behind it is read as if it were not there.
pub proof fn law_one_line_is_one_record(before: Seq<u8>, line: Seq<u8>, behind: Seq<u8>)
    requires
        terminated(before),
        !line.contains(LF),
    ensures
        file_entries(before + line.push(LF) + behind) == file_entries(before).push(
            line_entry(strip_cr(line)),
        ) + file_entries(behind),
        lossy_lines(split_lines(before + line.push(LF) + behind)) == lossy_lines(
            split_lines(before),
        ) + lossy_lines(split_lines(behind)) + if valid_utf8(strip_cr(line)) {
            0nat
        } else {
            1
        },
{
    let whole = line.push(LF);
    assert((before + whole).last() == LF);
    law_files_are_read_line_by_line(before + whole, behind);
    law_files_are_read_line_by_line(before, whole);
    lemma_split_one(line);
    let lines = seq![strip_cr(line)];
    assert(lines.drop_last() == Seq::<Seq<u8>>::empty());
    assert(lines.last() == strip_cr(line));
    assert(lossy_lines(lines.drop_last()) == 0);
    assert(file_entries(whole) == seq![line_entry(strip_cr(line))]);
    assert(file_entries(before) + seq![line_entry(strip_cr(line))] == file_entries(before).push(
        line_entry(strip_cr(line)),
    ));
}

/// A byte below 0x80 is valid UTF-8 on its own.
proof fn lemma_ascii_byte(b: u8)
    requires
        b < 0x80,
    ensures
        valid_utf8(seq![b]),
{
    let bytes = seq![b];
    assert((b & 0x7f) as u32 <= 0x7f) by (bit_vector);
    assert(pop_first_scalar(bytes) == Seq::<u8>::empty());
    reveal_with_fuel(valid_utf8, 2);
}

/// Bytes up to, and behind, one that is below 0x80 are valid on their own if and
/// only if they are valid together.
proof fn lemma_valid_around(bytes: Seq<u8>, i: int)
    requires
        0 <= i < bytes.len(),
        bytes[i] < 0x80,
    ensures
        valid_utf8(bytes) <==> valid_utf8(bytes.take(i)) && valid_utf8(bytes.skip(i + 1)),
{
    let head = bytes.take(i);
    let tail = bytes.skip(i + 1);
    let from = bytes.subrange(i, bytes.len() as int);
    if valid_utf8(bytes) {
        is_char_boundary_iff_not_is_continuation_byte(bytes, i);
        valid_utf8_split(bytes, i);
        assert(bytes.subrange(0, i) == head);
        assert(from[0] == bytes[i]);
        assert(pop_first_scalar(from) == tail);
    }
    if valid_utf8(head) && valid_utf8(tail) {
        lemma_ascii_byte(bytes[i]);
        valid_utf8_concat(seq![bytes[i]], tail);
        valid_utf8_concat(head, seq![bytes[i]] + tail);
        assert(head + (seq![bytes[i]] + tail) == bytes);
    }
}

/// Whether a line is valid does not depend on the carriage return at its end.
proof fn lemma_valid_strip_cr(line: Seq<u8>)
    ensures
        valid_utf8(strip_cr(line)) <==> valid_utf8(line),
{
    if line.len() > 0 && line.last() == CR {
        lemma_valid_around(line, line.len() - 1);
        assert(line.take(line.len() - 1) == line.drop_last());
        assert(line.skip(line.len() as int) == Seq::<u8>::empty());
    }
}

/// A file reports no lossy recoveries if and only if it is valid UTF-8.
pub proof fn law_no_recoveries_iff_valid(contents: Seq<u8>)
    ensures
        lossy_lines(split_lines(contents)) == 0 <==> valid_utf8(contents),
    decreases contents.len(),
{
    lemma_first_newline(contents);
    let n = first_newline(contents);
    if contents.len() == 0 {
    } else if n == contents.len() {
        let lines = seq![contents];
        assert(lines.drop_last() == Seq::<Seq<u8>>::empty());
        assert(lossy_lines(lines.drop_last()) == 0);
        assert(lines.last() == contents);
    } else {
        let line = contents.take(n);
        let rest = contents.skip(n + 1);
        law_no_recoveries_iff_valid(rest);
        lemma_valid_around(contents, n);
        lemma_valid_strip_cr(line);
        let lines = seq![strip_cr(line)];
        lemma_lossy_concat(lines, split_lines(rest));
        assert(lines.drop_last() == Seq::<Seq<u8>>::empty());
        assert(lossy_lines(lines.drop_last()) == 0);
        assert(lines.last() == strip_cr(line));
    }
}

/// The bytes of one character: the line feed and the carriage return are one
/// byte each, and no other character has them among its bytes.
proof fn lemma_scalar_bytes(c: char)
    ensures
        encode_scalar(c as u32).len() > 0,
        c != '\n' ==> forall|i: int|
            0 <= i < encode_scalar(c as u32).len() ==> (#[trigger] encode_scalar(c as u32)[i])
                != LF,
        c != '\r' ==> encode_scalar(c as u32).last() != CR,
        c == '\r' ==> encode_scalar(c as u32) == seq![CR],
        c == '>' ==> encode_scalar(c as u32) == seq![0x3eu8],
{
    let s = c as u32;
    char_is_scalar(c);
    if s < 0x80 {
        assert((s & 0x7F) as u8 == s as u8) by (bit_vector)
            requires
                s < 0x80,
        ;
        assert(encode_scalar(s) == seq![s as u8]);
    } else {
        assert((0xC0 | ((s >> 6) & 0x1F) as u8) >= 0x80u8) by (bit_vector);
        assert((0xE0 | ((s >> 12) & 0x0F) as u8) >= 0x80u8) by (bit_vector);
        assert((0xF0 | ((s >> 18) & 0x7) as u8) >= 0x80u8) by (bit_vector);
        assert((0x80 | (s & 0x3F) as u8) >= 0x80u8) by (bit_vector);
        assert((0x80 | ((s >> 6) & 0x3F) as u8) >= 0x80u8) by (bit_vector);
        assert((0x80 | ((s >> 12) & 0x3F) as u8) >= 0x80u8) by (bit_vector);
    }
}

/// A text without a line break has no line feed among its bytes.
proof fn lemma_no_line_feed(chars: Seq<char>)
    requires
        !chars.contains('\n'),
    ensures
        !encode_utf8(chars).contains(LF),
    decreases chars.len(),
{
    if chars.len() > 0 {
        let rest = chars.drop_first();
        assert forall|i: int| 0 <= i < rest.len() implies rest[i] != '\n' by {
            assert(rest[i] == chars[i + 1]);
            assert(chars.contains(chars[i + 1]));
        }
        lemma_no_line_feed(rest);
        let c: char = chars[0];
        lemma_scalar_bytes(c);
        assert(chars.contains(c));
        let head = encode_scalar(c as u32);
        let bytes = encode_utf8(chars);
        assert forall|i: int| 0 <= i < bytes.len() implies bytes[i] != LF by {
            if i < head.len() {
                assert(bytes[i] == head[i]);
            } else {
                assert(bytes[i] == encode_utf8(rest)[i - head.len()]);
                assert(encode_utf8(rest).contains(bytes[i]));
            }
        }
    }
}

/// The bytes of two texts one after the other.
proof fn lemma_encode_utf8_concat(a: Seq<char>, b: Seq<char>)
    ensures
        encode_utf8(a + b) == encode_utf8(a) + encode_utf8(b),
    decreases a.len(),
{
    if a.len() == 0 {
        assert(a + b == b);
        assert(encode_utf8(a) + encode_utf8(b) == encode_utf8(b));
    } else {
        lemma_encode_utf8_concat(a.drop_first(), b);
        assert((a + b).drop_first() == a.drop_first() + b);
        assert(encode_scalar(a[0] as u32) + (encode_utf8(a.drop_first()) + encode_utf8(b))
            == encode_utf8(a) + encode_utf8(b));
    }
}

/// What the line of an entry becomes once the carriage return at its end is
/// dropped: it is the line of the entry without the one at its end.
proof fn lemma_strip_written_line(entry: Seq<char>)
    ensures
        strip_cr(encode_utf8(codec::encode_chars(entry))) == encode_utf8(
            codec::encode_chars(
                if entry.len() > 0 && entry.last() == '\r' {
                    entry.drop_last()
                } else {
                    entry
                },
            ),
        ),
{
    let line = encode_utf8(codec::encode_chars(entry));
    if entry.len() > 0 {
        let init = entry.drop_last();
        let last = seq![entry.last()];
        assert(init + last == entry);
        codec::lemma_encode_concat(init, last);
        let c: char = entry.last();
        assert(last.skip(1) == Seq::<char>::empty());
        assert(codec::encode_chars(last.skip(1)) == Seq::<char>::empty());
        assert(codec::encode_chars(last) == codec::encode_char(c));
        let written = codec::encode_char(c);
        let head = encode_utf8(codec::encode_chars(init));
        lemma_encode_utf8_concat(codec::encode_chars(init), written);
        if entry.last() == '\n' {
            let start = seq!['<', '\\', 'n'];
            assert(start + seq!['>'] == written);
            lemma_encode_utf8_concat(start, seq!['>']);
            lemma_one_char('>');
            assert(line.last() == 0x3e);
        } else {
            lemma_one_char(c);
            lemma_scalar_bytes(c);
            let tail = encode_scalar(c as u32);
            assert(line == head + tail);
            assert(line.last() == tail[tail.len() - 1]);
            if c == '\r' {
                assert(line.drop_last() == head);
            }
        }
    } else {
        assert(line == Seq::<u8>::empty());
    }
}

/// The bytes of a text of one character.
proof fn lemma_one_char(c: char)
    ensures
        encode_utf8(seq![c]) == encode_scalar(c as u32),
        c == '>' ==> encode_utf8(seq![c]) == seq![0x3eu8],
{
    let chars = seq![c];
    assert(chars.drop_first() == Seq::<char>::empty());
    assert(encode_utf8(chars.drop_first()) == Seq::<u8>::empty());
    assert(encode_utf8(chars) == encode_scalar(chars[0] as u32) + encode_utf8(chars.drop_first()));
    assert(encode_scalar(c as u32) + Seq::<u8>::empty() == encode_scalar(c as u32));
    lemma_scalar_bytes(c);
}

/// What reading makes of the line that was written for `entry`.
pub open spec fn reread(entry: Seq<char>) -> Seq<char> {
    line_entry(strip_cr(encode_utf8(codec::encode_chars(entry))))
}

/// An entry that is written and read is the same if and only if it is storable.
pub proof fn law_written_entry_reads_back(entry: Seq<char>)
    ensures
        reread(entry) == entry <==> storable(entry),
{
    let kept = if entry.len() > 0 && entry.last() == '\r' {
        entry.drop_last()
    } else {
        entry
    };
    lemma_strip_written_line(entry);
    encode_utf8_valid_utf8(codec::encode_chars(kept));
    encode_utf8_decode_utf8(codec::encode_chars(kept));
    codec::law_encoding_is_undone(kept);
    codec::lemma_decoded(kept);
    codec::law_entry_round_trip(entry);
}

/// What is written for `entries` ends where a line ends, is valid UTF-8, and is
/// read as one entry for each of them.
proof fn lemma_written_entries(entries: Seq<Seq<char>>)
    ensures
        terminated(entries_bytes(entries)),
        valid_utf8(entries_bytes(entries)),
        file_entries(entries_bytes(entries)) == entries.map_values(|e: Seq<char>| reread(e)),
    decreases entries.len(),
{
    let bytes = entries_bytes(entries);
    if entries.len() == 0 {
        assert(file_entries(bytes) == entries.map_values(|e: Seq<char>| reread(e)));
    } else {
        let init = entries.drop_last();
        let line = encode_utf8(codec::encode_chars(entries.last()));
        lemma_written_entries(init);
        codec::law_encoded_entry_is_one_line(entries.last());
        lemma_no_line_feed(codec::encode_chars(entries.last()));
        lemma_split_one(line);
        assert(line.push(LF) == line + seq![LF]);
        encode_utf8_valid_utf8(codec::encode_chars(entries.last()));
        lemma_ascii_byte(LF);
        valid_utf8_concat(line, seq![LF]);
        valid_utf8_concat(entries_bytes(init), line.push(LF));
        law_files_are_read_line_by_line(entries_bytes(init), line.push(LF));
        assert(file_entries(line.push(LF)) == seq![reread(entries.last())]);
        assert(bytes.last() == LF);
        assert(file_entries(bytes) == entries.map_values(|e: Seq<char>| reread(e)));
    }
}

/// What is written is valid UTF-8 and ends where a line ends.
pub proof fn law_written_file_is_valid(entries: Seq<Seq<char>>)
    ensures
        valid_utf8(entries_bytes(entries)),
        terminated(entries_bytes(entries)),
        lossy_lines(split_lines(entries_bytes(entries))) == 0,
{
    lemma_written_entries(entries);
    law_no_recoveries_iff_valid(entries_bytes(entries));
}

/// Reading a file gives back the entries that were written to it, one for one,
/// if and only if each of them is storable.
pub proof fn law_written_file_reads_back(entries: Seq<Seq<char>>)
    ensures
        file_entries(entries_bytes(entries)).len() == entries.len(),
        file_entries(entries_bytes(entries)) == entries <==> forall|i: int|
            0 <= i < entries.len() ==> storable(#[trigger] entries[i]),
{
    lemma_written_entries(entries);
    let read = entries.map_values(|e: Seq<char>| reread(e));
    assert forall|i: int| 0 <= i < entries.len() implies (read[i] == entries[i] <==> storable(
        #[trigger] entries[i],
    )) by {
        law_written_entry_reads_back(entries[i]);
    }
    if forall|i: int| 0 <= i < entries.len() ==> storable(#[trigger] entries[i]) {
        assert(read == entries);
    }
}

/// How one line is read, with what ends it and what stands around it.
proof fn lemma_line_in_place(before: Seq<u8>, line: Seq<u8>, behind: Seq<u8>)
    requires
        before.len() == 0 || before.last() == 0x0a,
        !line.contains(0x0a),
    ensures
        (line.len() == 0 || line.last() != 0x0d) ==> {
            &&& file_entries(before + line + seq![0x0au8] + behind) == file_entries(before) + seq![
                line_entry(line),
            ] + file_entries(behind)
            &&& lossy_lines(split_lines(before + line + seq![0x0au8] + behind)) == lossy_lines(
                split_lines(before),
            ) + lossy_lines(seq![line]) + lossy_lines(split_lines(behind))
        },
        file_entries(before + line + seq![0x0du8, 0x0a] + behind) == file_entries(before) + seq![
            line_entry(line),
        ] + file_entries(behind),
        lossy_lines(split_lines(before + line + seq![0x0du8, 0x0a] + behind)) == lossy_lines(
            split_lines(before),
        ) + lossy_lines(seq![line]) + lossy_lines(split_lines(behind)),
        line.len() > 0 ==> {
            &&& file_entries(before + line) == file_entries(before) + seq![line_entry(line)]
            &&& lossy_lines(split_lines(before + line)) == lossy_lines(split_lines(before))
                + lossy_lines(seq![line])
        },
        lossy_lines(seq![line]) == if valid_utf8(line) {
            0nat
        } else {
            1
        },
{
    let returned = line.push(CR);
    assert(seq![line].drop_last() == Seq::<Seq<u8>>::empty());
    assert(lossy_lines(seq![line].drop_last()) == 0);
    assert(seq![line].last() == line);
    assert forall|i: int| 0 <= i < returned.len() implies returned[i] != LF by {
        if i < line.len() {
            assert(line.contains(line[i]));
        }
    }
    assert(returned.drop_last() == line);
    let kept = file_entries(before) + seq![line_entry(line)];
    assert(file_entries(before).push(line_entry(line)) == kept);
    if line.len() == 0 || line.last() != 0x0d {
        assert(before + line.push(LF) + behind == before + line + seq![0x0au8] + behind);
        law_one_line_is_one_record(before, line, behind);
    }
    assert(before + returned.push(LF) + behind == before + line + seq![0x0du8, 0x0a] + behind);
    law_one_line_is_one_record(before, returned, behind);
    if line.len() > 0 {
        law_files_are_read_line_by_line(before, line);
        assert forall|i: int| 0 <= i < line.len() implies line[i] != LF by {
            assert(line.contains(line[i]));
        }
        lemma_split_line(line, line.len() as int);
        assert(split_lines(line) == seq![line]);
        assert(file_entries(line) == seq![line_entry(line)]);
    }
}

/// A file without bytes holds no entries.
pub proof fn law_empty_file_holds_nothing()
    ensures
        file_entries(Seq::empty()) == Seq::<Seq<char>>::empty(),
        lossy_lines(split_lines(Seq::empty())) == 0,
{
    assert(file_entries(Seq::empty()) == Seq::<Seq<char>>::empty());
}

/// A line that is valid UTF-8 is read as the entry that all of its characters
/// stand for, whether it ends in a line feed, in a carriage return and a line
/// feed, or with the file. It counts as no recovery, and nothing around it is
/// read differently.
pub proof fn law_valid_line_is_read_whole(before: Seq<u8>, line: Seq<u8>, behind: Seq<u8>)
    requires
        before.len() == 0 || before.last() == 0x0a,
        !line.contains(0x0a),
        valid_utf8(line),
    ensures
        line.len() == 0 || line.last() != 0x0d ==> {
            &&& file_entries(before + line + seq![0x0au8] + behind) == file_entries(before) + seq![
                codec::decode_chars(decode_utf8(line)),
            ] + file_entries(behind)
            &&& lossy_lines(split_lines(before + line + seq![0x0au8] + behind)) == lossy_lines(
                split_lines(before),
            ) + lossy_lines(split_lines(behind))
        },
        file_entries(before + line + seq![0x0du8, 0x0a] + behind) == file_entries(before) + seq![
            codec::decode_chars(decode_utf8(line)),
        ] + file_entries(behind),
        lossy_lines(split_lines(before + line + seq![0x0du8, 0x0a] + behind)) == lossy_lines(
            split_lines(before),
        ) + lossy_lines(split_lines(behind)),
        line.len() > 0 ==> {
            &&& file_entries(before + line) == file_entries(before) + seq![
                codec::decode_chars(decode_utf8(line)),
            ]
            &&& lossy_lines(split_lines(before + line)) == lossy_lines(split_lines(before))
        },
{
    lemma_line_in_place(before, line, behind);
}

/// A line that is not valid UTF-8 is read as the entry that the whole text of
/// its lossy recovery stands for: nothing of that text is lost. It counts as one
/// recovery, and nothing around it is read differently.
pub proof fn law_lossy_line_is_kept_whole(before: Seq<u8>, line: Seq<u8>, behind: Seq<u8>)
    requires
        before.len() == 0 || before.last() == 0x0a,
        !line.contains(0x0a),
        !valid_utf8(line),
    ensures
        line.last() != 0x0d ==> {
            &&& file_entries(before + line + seq![0x0au8] + behind) == file_entries(before) + seq![
                codec::decode_chars(utf8_replaced(line)),
            ] + file_entries(behind)
            &&& lossy_lines(split_lines(before + line + seq![0x0au8] + behind)) == lossy_lines(
                split_lines(before),
            ) + 1 + lossy_lines(split_lines(behind))
        },
        file_entries(before + line + seq![0x0du8, 0x0a] + behind) == file_entries(before) + seq![
            codec::decode_chars(utf8_replaced(line)),
        ] + file_entries(behind),
        lossy_lines(split_lines(before + line + seq![0x0du8, 0x0a] + behind)) == lossy_lines(
            split_lines(before),
        ) + 1 + lossy_lines(split_lines(behind)),
        file_entries(before + line) == file_entries(before) + seq![
            codec::decode_chars(utf8_replaced(line)),
        ],
        lossy_lines(split_lines(before + line)) == lossy_lines(split_lines(before)) + 1,
{
    assert(line.len() > 0);
    lemma_line_in_place(before, line, behind);
}

/// Entries are written one after the other, each as the UTF-8 of its encoded
/// text with a line feed behind it, and nothing else is written.
pub proof fn law_entries_are_written_one_by_one(entries: Seq<Seq<char>>, entry: Seq<char>)
    ensures
        entries_bytes(Seq::empty()) == Seq::<u8>::empty(),
        entries_bytes(entries.push(entry)) == entries_bytes(entries) + encode_utf8(
            codec::encode_chars(entry),
        ) + seq![0x0au8],
{
    assert(entries.push(entry).drop_last() == entries);
    assert(entries.push(entry).last() == entry);
    assert(entries_bytes(entries.push(entry)) == entries_bytes(entries) + encode_utf8(
        codec::encode_chars(entry),
    ) + seq![0x0au8]);
}

/// The texts of strings are theirs, one for one.
pub proof fn law_texts_are_those_of_the_strings(strings: Seq<String>)
    ensures
        texts(strings).len() == strings.len(),
        forall|i: int| 0 <= i < strings.len() ==> (#[trigger] texts(strings)[i]) == strings[i]@,
{
}

} // verus!

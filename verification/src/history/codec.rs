//! How one entry becomes one line of text, and how that line becomes the entry
//! again: a line break inside an entry is written as [`NEWLINE_ESCAPE`].
use vstd::prelude::*;

verus! {

/// What stands in the history file for a line break inside an entry.
pub const NEWLINE_ESCAPE: &'static str = "<\\n>";

/// The characters of [`NEWLINE_ESCAPE`].
pub open spec fn escape() -> Seq<char> {
    seq!['<', '\\', 'n', '>']
}

/// How one character is written.
pub open spec fn encode_char(c: char) -> Seq<char> {
    if c == '\n' {
        escape()
    } else {
        seq![c]
    }
}

/// `s` with every line break replaced by the escape.
pub open spec fn encode_chars(s: Seq<char>) -> Seq<char>
    decreases s.len(),
{
    if s.len() == 0 {
        Seq::empty()
    } else {
        encode_char(s[0]) + encode_chars(s.skip(1))
    }
}

/// Whether `s` begins with the escape.
pub open spec fn starts_with_escape(s: Seq<char>) -> bool {
    s.len() >= 4 && s.take(4) == escape()
}

/// `s` with every escape replaced by a line break, taken from left to right.
pub open spec fn decode_chars(s: Seq<char>) -> Seq<char>
    decreases s.len(),
{
    if s.len() == 0 {
        Seq::empty()
    } else if starts_with_escape(s) {
        seq!['\n'] + decode_chars(s.skip(4))
    } else {
        seq![s[0]] + decode_chars(s.skip(1))
    }
}

/// Whether the escape occurs anywhere in `s`.
pub open spec fn contains_escape(s: Seq<char>) -> bool {
    exists|i: int| 0 <= i <= s.len() && starts_with_escape(#[trigger] s.skip(i))
}

/// `String::push`: appends the given character to the end of the string.
pub assume_specification[ String::push ](s: &mut String, c: char)
    ensures
        final(s)@ == old(s)@.push(c),
;

/// The characters of `s`, one by one.
pub fn chars_of(s: &str) -> (chars: Vec<char>)
    ensures
        chars@ == s@,
{
    let mut chars: Vec<char> = Vec::new();
    for c in it: s.chars()
        invariant
            it.seq() == s@,
            chars@ == it.seq().take(it.index()),
    {
        chars.push(c);
    }
    chars
}

/// The text that stands for `s` in the history file: `s` with every line break
/// written as [`NEWLINE_ESCAPE`].
pub fn encode_entry(s: &str) -> (line: String)
    ensures
        line@ == encode_chars(s@),
{
    let chars = chars_of(s);
    let mut line = String::new();
    let mut i: usize = 0;
    assert(s@.skip(0) == s@);
    while i < chars.len()
        invariant
            chars@ == s@,
            i <= chars.len(),
            line@ + encode_chars(s@.skip(i as int)) == encode_chars(s@),
        decreases chars.len() - i,
    {
        let c: char = chars[i];
        let ghost before = line@;
        let ghost rest = s@.skip(i as int);
        assert(rest.skip(1) == s@.skip(i + 1));
        if c == '\n' {
            proof {
                reveal_strlit("<\\n>");
            }
            line.append(NEWLINE_ESCAPE);
        } else {
            line.push(c);
        }
        assert(line@ == before + encode_char(c));
        assert(before + (encode_char(c) + encode_chars(rest.skip(1))) == line@ + encode_chars(
            rest.skip(1),
        ));
        i = i + 1;
    }
    assert(line@ + encode_chars(s@.skip(i as int)) == line@);
    line
}

/// The entry that a line of the history file stands for: `s` with every
/// [`NEWLINE_ESCAPE`] turned into a line break, taken from left to right.
pub fn decode_entry(s: &str) -> (entry: String)
    ensures
        entry@ == decode_chars(s@),
{
    let chars = chars_of(s);
    let mut entry = String::new();
    let mut i: usize = 0;
    assert(s@.skip(0) == s@);
    while i < chars.len()
        invariant
            chars@ == s@,
            i <= chars.len(),
            entry@ + decode_chars(s@.skip(i as int)) == decode_chars(s@),
        decreases chars.len() - i,
    {
        let ghost before = entry@;
        let ghost rest = s@.skip(i as int);
        if chars.len() - i >= 4 && chars[i] == '<' && chars[i + 1] == '\\' && chars[i + 2] == 'n'
            && chars[i + 3] == '>' {
            assert(rest.take(4) == escape());
            assert(rest.skip(4) == s@.skip(i + 4));
            entry.push('\n');
            assert(before + (seq!['\n'] + decode_chars(rest.skip(4))) == entry@ + decode_chars(
                rest.skip(4),
            ));
            i = i + 4;
        } else {
            assert(!starts_with_escape(rest)) by {
                if starts_with_escape(rest) {
                    assert(rest.take(4)[0] == rest[0] && rest.take(4)[1] == rest[1]
                        && rest.take(4)[2] == rest[2] && rest.take(4)[3] == rest[3]);
                }
            }
            assert(rest.skip(1) == s@.skip(i + 1));
            entry.push(chars[i]);
            assert(before + (seq![rest[0]] + decode_chars(rest.skip(1))) == entry@ + decode_chars(
                rest.skip(1),
            ));
            i = i + 1;
        }
    }
    assert(entry@ + decode_chars(s@.skip(i as int)) == entry@);
    entry
}

/// What the first characters of an encoded text tell of the text: as long as
/// they are none of the escape's first character, they stand there unchanged.
proof fn lemma_encoded_head(s: Seq<char>)
    ensures
        s.len() == 0 <==> encode_chars(s).len() == 0,
        s.len() > 0 && encode_chars(s)[0] != '<' ==> {
            &&& s[0] == encode_chars(s)[0]
            &&& encode_chars(s).skip(1) == encode_chars(s.skip(1))
        },
{
    if s.len() > 0 {
        assert(encode_chars(s)[0] == encode_char(s[0])[0]);
        if encode_chars(s)[0] != '<' {
            assert(encode_chars(s).skip(1) == encode_chars(s.skip(1)));
        }
    }
}

/// The same of a decoded text: what is no line break stands unchanged.
proof fn lemma_decoded_head(s: Seq<char>)
    ensures
        s.len() == 0 <==> decode_chars(s).len() == 0,
        s.len() > 0 && decode_chars(s)[0] != '\n' ==> {
            &&& s[0] == decode_chars(s)[0]
            &&& decode_chars(s).skip(1) == decode_chars(s.skip(1))
        },
{
    if s.len() > 0 {
        if decode_chars(s)[0] != '\n' {
            assert(decode_chars(s).skip(1) == decode_chars(s.skip(1)));
        }
    }
}

/// The escape, character by character.
proof fn lemma_escape_chars(s: Seq<char>)
    ensures
        starts_with_escape(s) <==> {
            &&& s.len() >= 4
            &&& s[0] == '<'
            &&& s[1] == '\\'
            &&& s[2] == 'n'
            &&& s[3] == '>'
        },
{
    if s.len() >= 4 {
        let t = s.take(4);
        assert(t[0] == s[0] && t[1] == s[1] && t[2] == s[2] && t[3] == s[3]);
        if s[0] == '<' && s[1] == '\\' && s[2] == 'n' && s[3] == '>' {
            assert(t == escape());
        }
    }
}

/// Whether the escape occurs is decided by the head and the tail of the text.
proof fn lemma_contains_escape_step(s: Seq<char>)
    requires
        s.len() > 0,
    ensures
        contains_escape(s) <==> starts_with_escape(s) || contains_escape(s.skip(1)),
{
    assert(s.skip(0) == s);
    if contains_escape(s) && !starts_with_escape(s) {
        let i = choose|i: int| 0 <= i <= s.len() && starts_with_escape(#[trigger] s.skip(i));
        assert(s.skip(1).skip(i - 1) == s.skip(i));
    }
    if contains_escape(s.skip(1)) {
        let t = s.skip(1);
        let i = choose|i: int| 0 <= i <= t.len() && starts_with_escape(#[trigger] t.skip(i));
        assert(s.skip(i + 1) == t.skip(i));
    }
}

/// An encoded entry holds no line break, so that it takes exactly one line of
/// the history file.
pub proof fn law_encoded_entry_is_one_line(s: Seq<char>)
    ensures
        !encode_chars(s).contains('\n'),
    decreases s.len(),
{
    if s.len() > 0 {
        law_encoded_entry_is_one_line(s.skip(1));
        let e = encode_chars(s);
        let head = encode_char(s[0]);
        let tail = encode_chars(s.skip(1));
        assert forall|i: int| 0 <= i < e.len() implies e[i] != '\n' by {
            if i >= head.len() {
                assert(e[i] == tail[i - head.len()]);
                assert(tail.contains(tail[i - head.len()]) || tail[i - head.len()] != '\n');
            }
        }
    }
}

/// A decoded line never holds the escape: every one of them was taken for a
/// line break.
pub proof fn law_decoded_line_holds_no_escape(s: Seq<char>)
    ensures
        !contains_escape(decode_chars(s)),
    decreases s.len(),
{
    let d = decode_chars(s);
    if s.len() == 0 {
        assert forall|i: int| 0 <= i <= d.len() implies !starts_with_escape(
            #[trigger] d.skip(i),
        ) by {}
    } else {
        lemma_contains_escape_step(d);
        lemma_escape_chars(d);
        if starts_with_escape(s) {
            law_decoded_line_holds_no_escape(s.skip(4));
            assert(d.skip(1) == decode_chars(s.skip(4)));
            assert(d[0] == '\n');
        } else {
            let t = s.skip(1);
            law_decoded_line_holds_no_escape(t);
            assert(d.skip(1) == decode_chars(t));
            if starts_with_escape(d) {
                lemma_decoded_head(t);
                lemma_decoded_head(t.skip(1));
                lemma_decoded_head(t.skip(1).skip(1));
                assert(decode_chars(t)[0] == d[1]);
                assert(decode_chars(t.skip(1))[0] == decode_chars(t).skip(1)[0]);
                assert(decode_chars(t.skip(1).skip(1))[0] == decode_chars(t.skip(1)).skip(1)[0]);
                lemma_escape_chars(s);
                assert(false);
            }
        }
    }
}

/// Writing and reading a text has the effect of reading it right away: the line
/// breaks come back, and the escapes that it held before become line breaks too.
pub proof fn law_encoding_is_undone(s: Seq<char>)
    ensures
        decode_chars(encode_chars(s)) == decode_chars(s),
    decreases s.len(),
{
    if s.len() > 0 {
        let t = s.skip(1);
        let e = encode_chars(s);
        lemma_escape_chars(e);
        lemma_escape_chars(s);
        if s[0] == '\n' {
            law_encoding_is_undone(t);
            assert(e.skip(4) == encode_chars(t));
            assert(e[0] == escape()[0] && e[1] == escape()[1] && e[2] == escape()[2] && e[3]
                == escape()[3]);
        } else if starts_with_escape(s) {
            let rest = s.skip(4);
            law_encoding_is_undone(rest);
            assert(t.skip(1).skip(1).skip(1) == rest);
            assert(encode_chars(t) == seq![s[1]] + encode_chars(t.skip(1)));
            assert(encode_chars(t.skip(1)) == seq![s[2]] + encode_chars(t.skip(1).skip(1)));
            assert(encode_chars(t.skip(1).skip(1)) == seq![s[3]] + encode_chars(rest));
            assert(e.skip(4) == encode_chars(rest));
            assert(starts_with_escape(e));
        } else {
            law_encoding_is_undone(t);
            assert(e.skip(1) == encode_chars(t));
            assert(e[0] == s[0]);
            if starts_with_escape(e) {
                lemma_encoded_head(t);
                lemma_encoded_head(t.skip(1));
                lemma_encoded_head(t.skip(1).skip(1));
                assert(encode_chars(t)[0] == e[1]);
                assert(encode_chars(t.skip(1))[0] == encode_chars(t).skip(1)[0]);
                assert(encode_chars(t.skip(1).skip(1))[0] == encode_chars(t.skip(1)).skip(1)[0]);
                assert(false);
            }
        }
    }
}

/// Decoding never makes a text longer, and leaves it alone if it holds no
/// escape.
pub proof fn lemma_decoded(s: Seq<char>)
    ensures
        decode_chars(s).len() <= s.len(),
        !contains_escape(s) ==> decode_chars(s) == s,
    decreases s.len(),
{
    if s.len() == 0 {
        assert(s == Seq::<char>::empty());
    } else {
        lemma_contains_escape_step(s);
        if starts_with_escape(s) {
            lemma_decoded(s.skip(4));
        } else {
            lemma_decoded(s.skip(1));
            assert(seq![s[0]] + s.skip(1) == s);
        }
    }
}

/// Reading an encoded entry gives the entry back, if and only if the entry does
/// not itself hold the escape.
pub proof fn law_entry_round_trip(s: Seq<char>)
    ensures
        decode_chars(encode_chars(s)) == s <==> !contains_escape(s),
{
    law_encoding_is_undone(s);
    law_decoded_line_holds_no_escape(s);
    lemma_decoded(s);
}

/// Encoding two texts one after the other is encoding them as one.
pub proof fn lemma_encode_concat(a: Seq<char>, b: Seq<char>)
    ensures
        encode_chars(a + b) == encode_chars(a) + encode_chars(b),
    decreases a.len(),
{
    if a.len() == 0 {
        assert(a + b == b);
        assert(encode_chars(a) + encode_chars(b) == encode_chars(b));
    } else {
        lemma_encode_concat(a.skip(1), b);
        assert((a + b).skip(1) == a.skip(1) + b);
        assert(encode_char(a[0]) + (encode_chars(a.skip(1)) + encode_chars(b)) == encode_chars(a)
            + encode_chars(b));
    }
}

/// A text is encoded character by character: a line break becomes the four
/// characters of the escape, and any other character stays.
pub proof fn law_encoding_replaces_line_breaks_alone(a: Seq<char>, c: char, b: Seq<char>)
    ensures
        encode_chars(Seq::empty()) == Seq::<char>::empty(),
        c == '\n' ==> encode_chars(a + seq![c] + b) == encode_chars(a) + seq!['<', '\\', 'n', '>']
            + encode_chars(b),
        c != '\n' ==> encode_chars(a + seq![c] + b) == encode_chars(a) + seq![c] + encode_chars(b),
{
    lemma_encode_concat(a + seq![c], b);
    lemma_encode_concat(a, seq![c]);
    assert(seq![c].skip(1) == Seq::<char>::empty());
    assert(encode_chars(seq![c].skip(1)) == Seq::<char>::empty());
    assert(encode_chars(seq![c]) == encode_char(c));
}

/// Every escape becomes a line break, wherever it stands.
pub proof fn law_decoding_replaces_every_escape(a: Seq<char>, b: Seq<char>)
    ensures
        decode_chars(a + seq!['<', '\\', 'n', '>'] + b) == decode_chars(a) + seq!['\n']
            + decode_chars(b),
    decreases a.len(),
{
    let e = seq!['<', '\\', 'n', '>'];
    let s = a + e + b;
    lemma_escape_chars(s);
    lemma_escape_chars(a);
    if a.len() == 0 {
        assert(s.skip(4) == b);
        assert(s[0] == e[0] && s[1] == e[1] && s[2] == e[2] && s[3] == e[3]);
        assert(decode_chars(s) == seq!['\n'] + decode_chars(b));
        assert(decode_chars(a) + seq!['\n'] == seq!['\n']);
    } else if starts_with_escape(a) {
        let t = a.skip(4);
        law_decoding_replaces_every_escape(t, b);
        assert(s.skip(4) == t + e + b);
        assert(s[0] == a[0] && s[1] == a[1] && s[2] == a[2] && s[3] == a[3]);
        assert(seq!['\n'] + (decode_chars(t) + seq!['\n'] + decode_chars(b)) == decode_chars(a)
            + seq!['\n'] + decode_chars(b));
    } else {
        let t = a.skip(1);
        law_decoding_replaces_every_escape(t, b);
        assert(s.skip(1) == t + e + b);
        assert(s[0] == a[0]);
        if starts_with_escape(s) {
            if a.len() < 4 {
                assert(s[a.len() as int] == e[0]);
            } else {
                assert(s[1] == a[1] && s[2] == a[2] && s[3] == a[3]);
            }
            assert(false);
        }
        assert(seq![a[0]] + (decode_chars(t) + seq!['\n'] + decode_chars(b)) == decode_chars(a)
            + seq!['\n'] + decode_chars(b));
    }
}

/// A text in which the escape stands nowhere is decoded as it is.
pub proof fn law_decoding_keeps_everything_else(s: Seq<char>)
    requires
        forall|i: int|
            0 <= i <= s.len() - 4 ==> (#[trigger] s.subrange(i, i + 4)) != seq!['<', '\\', 'n', '>'],
    ensures
        decode_chars(s) == s,
{
    if contains_escape(s) {
        let i = choose|i: int| 0 <= i <= s.len() && starts_with_escape(#[trigger] s.skip(i));
        assert(s.skip(i).take(4) == s.subrange(i, i + 4));
        assert(escape() == seq!['<', '\\', 'n', '>']);
    }
    lemma_decoded(s);
}

} // verus!

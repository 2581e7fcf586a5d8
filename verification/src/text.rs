//! Text as bytes: trailing whitespace, lines and their byte ranges.

use vstd::prelude::*;
use vstd::string::StringSliceAdditionalSpecFns;
use vstd::utf8::*;

verus! {

/// A half-open range of byte offsets into a text.
#[derive(Clone, Copy, Debug, PartialEq, Eq, Structural)]
pub struct Span {
    pub start: usize,
    pub end: usize,
}

/// The characters that Unicode classes as `White_Space`.
pub open spec fn is_whitespace(c: char) -> bool {
    let u = c as u32;
    ||| 0x09 <= u <= 0x0D
    ||| u == 0x20
    ||| u == 0x85
    ||| u == 0xA0
    ||| u == 0x1680
    ||| 0x2000 <= u <= 0x200A
    ||| u == 0x2028
    ||| u == 0x2029
    ||| u == 0x202F
    ||| u == 0x205F
    ||| u == 0x3000
}

/// `s` without its trailing whitespace.
pub open spec fn trim_end(s: Seq<char>) -> Seq<char>
    decreases s.len(),
{
    if s.len() > 0 && is_whitespace(s.last()) {
        trim_end(s.drop_last())
    } else {
        s
    }
}

/// Calls `str::trim_end`, which returns the slice of `text` that is left when
/// the trailing characters that Unicode classes as `White_Space` are removed.
#[verifier::external_body]
pub(crate) fn trim_trailing<'a>(text: &'a str) -> (r: &'a str)
    ensures
        r@ == trim_end(text@),
{
    text.trim_end()
}

/// Trimming is idempotent, and a trimmed text does not end in whitespace.
pub proof fn lemma_trim_end(s: Seq<char>)
    ensures
        trim_end(trim_end(s)) == trim_end(s),
        trim_end(s).len() <= s.len(),
        trim_end(s).len() > 0 ==> !is_whitespace(trim_end(s).last()),
        trim_end(s) == s <==> (s.len() == 0 || !is_whitespace(s.last())),
    decreases s.len(),
{
    if s.len() > 0 && is_whitespace(s.last()) {
        lemma_trim_end(s.drop_last());
    }
}

/// The byte that ends a line.
pub const LINE_FEED: u8 = 0x0A;

/// The byte that may stand before a line feed without belonging to the line.
pub const CARRIAGE_RETURN: u8 = 0x0D;

/// The offset of the first line feed at or after `from`, or the length of
/// `bytes` where there is none.
pub open spec fn next_newline(bytes: Seq<u8>, from: int) -> int
    decreases bytes.len() - from,
{
    if from < 0 || from >= bytes.len() {
        bytes.len() as int
    } else if bytes[from] == LINE_FEED {
        from
    } else {
        next_newline(bytes, from + 1)
    }
}

/// Where the line that starts at `start` ends: at its line feed, at the
/// carriage return before that line feed, or at the end of the text.
pub open spec fn line_end(bytes: Seq<u8>, start: int) -> int {
    let nl = next_newline(bytes, start);
    if start < nl < bytes.len() && bytes[nl - 1] == CARRIAGE_RETURN {
        nl - 1
    } else {
        nl
    }
}

/// The non-empty lines of `bytes` that start at or after the line start
/// `start`, in the order of the text.
pub open spec fn lines_from(bytes: Seq<u8>, start: int) -> Seq<Span>
    decreases bytes.len() + 1 - start,
    via lines_from_decreases
{
    if start < 0 || start >= bytes.len() {
        Seq::empty()
    } else {
        let rest = lines_from(bytes, next_newline(bytes, start) + 1);
        let end = line_end(bytes, start);
        if start < end {
            seq![Span { start: start as usize, end: end as usize }] + rest
        } else {
            rest
        }
    }
}

#[via_fn]
proof fn lines_from_decreases(bytes: Seq<u8>, start: int) {
    if 0 <= start {
        lemma_next_newline(bytes, start);
    }
}

/// The non-empty lines of `bytes`, in the order of the text.
pub open spec fn non_empty_lines(bytes: Seq<u8>) -> Seq<Span> {
    lines_from(bytes, 0)
}

/// `span` is a non-empty line of `bytes`: it starts where a line starts and
/// ends where that line ends.
pub open spec fn is_line(bytes: Seq<u8>, span: Span) -> bool {
    &&& span.start < span.end <= bytes.len()
    &&& span.start == 0 || bytes[span.start - 1] == LINE_FEED
    &&& span.end == line_end(bytes, span.start as int)
}

/// `next_newline` stays in the text, stops at a line feed and passes none.
pub proof fn lemma_next_newline(bytes: Seq<u8>, from: int)
    requires
        0 <= from,
    ensures
        from <= bytes.len() ==> from <= next_newline(bytes, from) <= bytes.len(),
        next_newline(bytes, from) < bytes.len() ==> bytes[next_newline(bytes, from)] == LINE_FEED,
        forall|k: int| from <= k < next_newline(bytes, from) ==> bytes[k] != LINE_FEED,
    decreases bytes.len() - from,
{
    if from < bytes.len() && bytes[from] != LINE_FEED {
        lemma_next_newline(bytes, from + 1);
    }
}

/// Every span of `lines_from` is a line at or after `start`, and each one
/// ends before the next one starts.
pub proof fn lemma_lines_from(bytes: Seq<u8>, start: int)
    requires
        bytes.len() <= usize::MAX,
        0 <= start,
        start == 0 || start > bytes.len() || bytes[start - 1] == LINE_FEED,
    ensures
        forall|i: int|
            0 <= i < lines_from(bytes, start).len() ==> {
                &&& is_line(bytes, #[trigger] lines_from(bytes, start)[i])
                &&& start <= lines_from(bytes, start)[i].start
            },
        forall|i: int, j: int|
            0 <= i < j < lines_from(bytes, start).len() ==> (#[trigger] lines_from(
                bytes,
                start,
            )[i]).end < (#[trigger] lines_from(bytes, start)[j]).start,
    decreases bytes.len() + 1 - start,
{
    if start < bytes.len() {
        let nl = next_newline(bytes, start);
        lemma_next_newline(bytes, start);
        lemma_lines_from(bytes, nl + 1);
        let rest = lines_from(bytes, nl + 1);
        let all = lines_from(bytes, start);
        let end = line_end(bytes, start);
        if start < end {
            assert forall|i: int| 0 <= i < all.len() implies {
                &&& is_line(bytes, #[trigger] all[i])
                &&& start <= all[i].start
            } by {
                if i > 0 {
                    assert(all[i] == rest[i - 1]);
                }
            }
            assert forall|i: int, j: int| 0 <= i < j < all.len() implies (#[trigger] all[i]).end < (
            #[trigger] all[j]).start by {
                assert(all[j] == rest[j - 1]);
                if i > 0 {
                    assert(all[i] == rest[i - 1]);
                }
            }
        }
    }
}

/// Finds the non-empty lines of `bytes`.
pub fn scan_lines(bytes: &[u8]) -> (spans: Vec<Span>)
    ensures
        spans@ == non_empty_lines(bytes@),
{
    let n: usize = bytes.len();
    let mut spans: Vec<Span> = Vec::new();
    let mut start: usize = 0;
    while start < n
        invariant
            n == bytes@.len(),
            start <= n,
            spans@ + lines_from(bytes@, start as int) == lines_from(bytes@, 0),
        decreases n - start,
    {
        let mut nl: usize = start;
        while nl < n && bytes[nl] != LINE_FEED
            invariant
                n == bytes@.len(),
                start <= nl <= n,
                next_newline(bytes@, nl as int) == next_newline(bytes@, start as int),
            decreases n - nl,
        {
            nl = nl + 1;
        }
        let end: usize = if start < nl && nl < n && bytes[nl - 1] == CARRIAGE_RETURN {
            nl - 1
        } else {
            nl
        };
        let ghost before = spans@;
        let ghost rest = lines_from(bytes@, nl + 1);
        if start < end {
            spans.push(Span { start, end });
            assert(spans@ + rest == before + (seq![Span { start, end }] + rest));
        }
        start = if nl < n {
            nl + 1
        } else {
            n
        };
    }
    assert(spans@ + lines_from(bytes@, start as int) == spans@);
    spans
}

/// In well-formed text a character starts right after a single-byte one.
pub proof fn lemma_boundary_after_ascii(bytes: Seq<u8>, i: int)
    requires
        valid_utf8(bytes),
        0 <= i < bytes.len(),
        bytes[i] < 0x80,
    ensures
        is_char_boundary(bytes, i + 1),
{
    broadcast use group_utf8_lib;

    assert(!is_continuation_byte(bytes[i]));
    assert(is_char_boundary(bytes, i));
    let tail = bytes.subrange(i, bytes.len() as int);
    valid_utf8_split(bytes, i);
    assert(tail[0] == bytes[i]);
    assert(is_leading_byte_width_1(tail[0]));
    assert(length_of_first_scalar(tail) == 1);
    let after = pop_first_scalar(tail);
    assert(valid_utf8(after));
    assert(after =~= bytes.subrange(i + 1, bytes.len() as int));
    if i + 1 < bytes.len() {
        assert(valid_first_scalar(after));
        assert(after[0] == bytes[i + 1]);
        assert(!is_continuation_byte(bytes[i + 1]));
    }
}

/// A line of well-formed text starts and ends between characters.
pub proof fn lemma_line_boundaries(bytes: Seq<u8>, span: Span)
    requires
        valid_utf8(bytes),
        is_line(bytes, span),
    ensures
        is_char_boundary(bytes, span.start as int),
        is_char_boundary(bytes, span.end as int),
{
    broadcast use group_utf8_lib;

    if span.start > 0 {
        lemma_boundary_after_ascii(bytes, span.start - 1);
    }
    lemma_next_newline(bytes, span.start as int);
    if span.end < bytes.len() {
        assert(bytes[span.end as int] == LINE_FEED || bytes[span.end as int] == CARRIAGE_RETURN);
        assert(!is_continuation_byte(bytes[span.end as int]));
    }
}

/// The characters that the bytes of `span` encode.
pub open spec fn span_text(bytes: Seq<u8>, span: Span) -> Seq<char> {
    decode_utf8(bytes.subrange(span.start as int, span.end as int))
}

/// The part of `text` that `span` covers.
pub fn slice_text<'a>(text: &'a str, span: Span) -> (part: &'a str)
    requires
        span.start <= span.end <= text.spec_bytes().len(),
        is_char_boundary(text.spec_bytes(), span.start as int),
        is_char_boundary(text.spec_bytes(), span.end as int),
    ensures
        part.spec_bytes() == text.spec_bytes().subrange(span.start as int, span.end as int),
        part@ == span_text(text.spec_bytes(), span),
{
    broadcast use group_utf8_lib;

    let ghost bytes = text.spec_bytes();
    let (head, _) = text.split_at(span.end);
    proof {
        let prefix = head.spec_bytes();
        assert(valid_utf8(bytes));
        valid_utf8_split(bytes, span.end as int);
        assert(prefix == bytes.subrange(0, span.end as int));
        assert(valid_utf8(prefix));
        if span.start < span.end {
            assert(prefix[span.start as int] == bytes[span.start as int]);
            is_char_boundary_iff_not_is_continuation_byte(bytes, span.start as int);
            is_char_boundary_iff_not_is_continuation_byte(prefix, span.start as int);
        } else {
            is_char_boundary_start_end_of_seq(prefix);
        }
    }
    let (_, part) = head.split_at(span.start);
    assert(part.spec_bytes() =~= bytes.subrange(span.start as int, span.end as int));
    part
}

/// Bytes that do not end in a line feed end in a non-empty line.
pub proof fn lemma_last_line(bytes: Seq<u8>, start: int)
    requires
        0 <= start < bytes.len(),
        bytes.last() != LINE_FEED,
    ensures
        lines_from(bytes, start).len() > 0,
    decreases bytes.len() - start,
{
    let nl = next_newline(bytes, start);
    lemma_next_newline(bytes, start);
    if nl < bytes.len() {
        lemma_last_line(bytes, nl + 1);
    }
}

/// The bytes of a text that does not end in whitespace end neither in a
/// line feed nor in a carriage return.
pub proof fn lemma_last_byte_of_trimmed_text(text: Seq<char>)
    requires
        text.len() > 0,
        !is_whitespace(text.last()),
    ensures
        encode_utf8(text).len() > 0,
        encode_utf8(text).last() != LINE_FEED,
        encode_utf8(text).last() != CARRIAGE_RETURN,
{
    broadcast use group_utf8_lib;

    let bytes = encode_utf8(text);
    assert(valid_utf8(bytes));
    assert(decode_utf8(bytes) == text);
    assert(bytes.len() > 0);
    let last = bytes.len() - 1;
    let byte = bytes[last];
    if byte == LINE_FEED || byte == CARRIAGE_RETURN {
        assert(!is_continuation_byte(byte));
        assert(is_char_boundary(bytes, last));
        let tail = bytes.subrange(last, bytes.len() as int);
        valid_utf8_split(bytes, last);
        decode_utf8_split(bytes, last);
        assert(tail.len() == 1 && tail[0] == byte);
        assert(is_leading_byte_width_1(tail[0]));
        assert(length_of_first_scalar(tail) == 1);
        assert(pop_first_scalar(tail) =~= Seq::<u8>::empty());
        assert(decode_utf8(pop_first_scalar(tail)) =~= Seq::<char>::empty());
        assert(0x0Au8 & 0x7F == 0x0A) by (bit_vector);
        assert(0x0Du8 & 0x7F == 0x0D) by (bit_vector);
        assert(decode_first_scalar(tail) == byte);
        assert(decode_utf8(tail) =~= seq![(byte as u32) as char]);
        assert(text.last() == (byte as u32) as char);
        assert(is_whitespace(text.last()));
    }
}

/// A text that does not end in whitespace has a non-empty line.
pub proof fn lemma_trimmed_text_has_a_line(text: Seq<char>)
    requires
        text.len() > 0,
        !is_whitespace(text.last()),
    ensures
        non_empty_lines(encode_utf8(text)).len() > 0,
{
    lemma_last_byte_of_trimmed_text(text);
    lemma_last_line(encode_utf8(text), 0);
}

/// The bytes of two texts written one after the other are the bytes of the
/// first followed by the bytes of the second.
pub proof fn lemma_encode_concat(a: Seq<char>, b: Seq<char>)
    ensures
        encode_utf8(a + b) == encode_utf8(a) + encode_utf8(b),
    decreases a.len(),
{
    if a.len() == 0 {
        assert(a + b =~= b);
        assert(encode_utf8(a) =~= Seq::<u8>::empty());
        assert(encode_utf8(a) + encode_utf8(b) =~= encode_utf8(b));
    } else {
        assert((a + b).drop_first() =~= a.drop_first() + b);
        lemma_encode_concat(a.drop_first(), b);
        assert(encode_utf8(a + b) =~= encode_utf8(a) + encode_utf8(b));
    }
}

/// What trimming leaves of a text is the beginning of the text.
pub proof fn lemma_trim_end_is_a_prefix(s: Seq<char>)
    ensures
        trim_end(s).len() <= s.len(),
        trim_end(s) == s.subrange(0, trim_end(s).len() as int),
    decreases s.len(),
{
    if s.len() > 0 && is_whitespace(s.last()) {
        lemma_trim_end_is_a_prefix(s.drop_last());
        assert(trim_end(s) =~= s.subrange(0, trim_end(s).len() as int));
    } else {
        assert(s =~= s.subrange(0, s.len() as int));
    }
}

/// A look for the next line feed in the first `n` bytes finds the one that a
/// look in all bytes finds, unless that one lies behind them.
proof fn lemma_next_newline_of_prefix(bytes: Seq<u8>, n: int, from: int)
    requires
        0 <= from <= n <= bytes.len(),
    ensures
        next_newline(bytes, from) < n ==> next_newline(bytes.subrange(0, n), from) == next_newline(
            bytes,
            from,
        ),
        next_newline(bytes, from) >= n ==> next_newline(bytes.subrange(0, n), from) == n
            && next_newline(bytes, from) == next_newline(bytes, n),
    decreases n - from,
{
    let front = bytes.subrange(0, n);
    lemma_next_newline(bytes, from);
    if from < n {
        assert(front[from] == bytes[from]);
        if bytes[from] != LINE_FEED {
            lemma_next_newline_of_prefix(bytes, n, from + 1);
        }
    }
}

/// Where the first `n` bytes end in a character of a line, every non-empty
/// line of the first `n` bytes begins where a non-empty line of all bytes
/// begins, in the same order, and what all bytes have more are the non-empty
/// lines behind that line.
proof fn lemma_lines_of_prefix(bytes: Seq<u8>, n: int, start: int)
    requires
        0 <= start < n <= bytes.len(),
        bytes[n - 1] != LINE_FEED,
        bytes[n - 1] != CARRIAGE_RETURN,
    ensures
        lines_from(bytes, start).len() == lines_from(bytes.subrange(0, n), start).len()
            + lines_from(bytes, next_newline(bytes, n) + 1).len(),
        forall|i: int|
            0 <= i < lines_from(bytes.subrange(0, n), start).len() ==> (#[trigger] lines_from(
                bytes.subrange(0, n),
                start,
            )[i]).start == lines_from(bytes, start)[i].start,
    decreases n - start,
{
    let front = bytes.subrange(0, n);
    let nl = next_newline(bytes, start);
    lemma_next_newline(bytes, start);
    lemma_next_newline(bytes, n);
    lemma_next_newline_of_prefix(bytes, n, start);
    let all = lines_from(bytes, start);
    let part = lines_from(front, start);
    if nl < n {
        assert(next_newline(front, start) == nl);
        if nl > start {
            assert(front[nl - 1] == bytes[nl - 1]);
        }
        assert(line_end(front, start) == line_end(bytes, start));
        assert(nl + 1 < n);
        lemma_lines_of_prefix(bytes, n, nl + 1);
        let rest_all = lines_from(bytes, nl + 1);
        let rest_part = lines_from(front, nl + 1);
        if start < line_end(bytes, start) {
            assert forall|i: int| 0 <= i < part.len() implies (#[trigger] part[i]).start
                == all[i].start by {
                if i > 0 {
                    assert(part[i] == rest_part[i - 1]);
                    assert(all[i] == rest_all[i - 1]);
                }
            }
        }
    } else {
        assert(next_newline(front, start) == n);
        assert(line_end(front, start) == n);
        assert(lines_from(front, n + 1) =~= Seq::<Span>::empty());
        assert(nl == next_newline(bytes, n));
        assert(line_end(bytes, start) >= n);
        assert(part.len() == 1);
        assert(all.len() == 1 + lines_from(bytes, nl + 1).len());
    }
}

/// The non-empty lines that begin behind the line in which the first `kept`
/// bytes end; all non-empty lines where `kept` is 0.
pub open spec fn lines_behind(bytes: Seq<u8>, kept: int) -> Seq<Span> {
    lines_from(
        bytes,
        if kept == 0 {
            0
        } else {
            next_newline(bytes, kept) + 1
        },
    )
}

/// Every non-empty line of what trimming leaves of a text begins where a
/// non-empty line of the text begins, in the same order. What the text has
/// more are the non-empty lines that lie in its trailing whitespace.
pub proof fn lemma_lines_of_trimmed_text(text: Seq<char>)
    ensures
        non_empty_lines(encode_utf8(text)).len() == non_empty_lines(
            encode_utf8(trim_end(text)),
        ).len() + lines_behind(
            encode_utf8(text),
            encode_utf8(trim_end(text)).len() as int,
        ).len(),
        forall|i: int|
            0 <= i < non_empty_lines(encode_utf8(trim_end(text))).len() ==> (
            #[trigger] non_empty_lines(encode_utf8(trim_end(text)))[i]).start == non_empty_lines(
                encode_utf8(text),
            )[i].start,
{
    let kept = trim_end(text);
    let rest = text.subrange(kept.len() as int, text.len() as int);
    lemma_trim_end_is_a_prefix(text);
    lemma_trim_end(text);
    assert(text =~= kept + rest);
    lemma_encode_concat(kept, rest);
    let bytes = encode_utf8(text);
    let n = encode_utf8(kept).len() as int;
    assert(bytes.subrange(0, n) =~= encode_utf8(kept));
    if kept.len() == 0 {
        assert(encode_utf8(kept) =~= Seq::<u8>::empty());
    } else {
        lemma_last_byte_of_trimmed_text(kept);
        assert(bytes[n - 1] == encode_utf8(kept).last());
        lemma_lines_of_prefix(bytes, n, 0);
    }
}

/// The texts of `strings`, place by place.
pub open spec fn string_views(strings: Seq<String>) -> Seq<Seq<char>> {
    Seq::new(strings.len(), |i: int| strings[i]@)
}

/// `lines` written one after the other with a line feed between each two.
pub open spec fn joined(lines: Seq<Seq<char>>) -> Seq<char>
    decreases lines.len(),
{
    if lines.len() == 0 {
        Seq::empty()
    } else if lines.len() == 1 {
        lines[0]
    } else {
        joined(lines.drop_last()) + seq!['\n'] + lines.last()
    }
}

/// Writes `lines` one after the other with a line feed between each two.
pub fn join_lines(lines: &Vec<String>) -> (text: String)
    ensures
        text@ == joined(string_views(lines@)),
{
    let ghost all = string_views(lines@);
    let mut text = String::new();
    let mut i: usize = 0;
    while i < lines.len()
        invariant
            i <= lines@.len(),
            all == string_views(lines@),
            text@ == joined(all.take(i as int)),
        decreases lines@.len() - i,
    {
        proof {
            reveal_strlit("\n");
            let next = all.take(i + 1);
            assert(next.drop_last() =~= all.take(i as int));
            assert(next.last() == lines@[i as int]@);
            assert("\n"@ =~= seq!['\n']);
        }
        if i > 0 {
            text.append("\n");
        }
        text.append(lines[i].as_str());
        i = i + 1;
    }
    assert(all.take(i as int) =~= all);
    text
}

} // verus!

//! Character-level helpers shared by the extractor and the matchers.
//!
//! Text is modelled as its sequence of characters (`Seq<char>`). Positions that
//! come from byte-oriented searches are UTF-8 byte offsets; `byte_offset` gives
//! the offset at which a character starts.

use vstd::prelude::*;
use vstd::utf8::*;

verus! {

/// Whether a character below U+0080 is white space: the space, and the
/// characters from U+0009 (tab) to U+000D (carriage return).
pub open spec fn ascii_space(c: char) -> bool {
    c == ' ' || 0x09 <= c as u32 <= 0x0D
}

/// Whether a character from U+0080 on is white space, as `char::is_whitespace`
/// reports it.
pub uninterp spec fn wide_space(c: char) -> bool;

/// Whether `c` counts as white space, as `char::is_whitespace` reports it.
pub open spec fn is_space(c: char) -> bool {
    if (c as u32) < 0x80 {
        ascii_space(c)
    } else {
        wide_space(c)
    }
}

/// `char::is_whitespace`: the result is the Unicode `White_Space` property of
/// the character. Below U+0080 the space and U+0009 to U+000D have it and no
/// other character; from U+0080 on the library only refers to it by name.
pub assume_specification[ char::is_whitespace ](c: char) -> (r: bool)
    ensures
        r == is_space(c),
        (c as u32) >= 0x80 ==> r == wide_space(c),
;

/// `String::push`: appends one character to the end of the string.
pub assume_specification[ String::push ](s: &mut String, c: char)
    ensures
        final(s)@ == old(s)@.push(c),
;

/// Number of bytes that `c` takes in UTF-8.
pub open spec fn char_width(c: char) -> int {
    encode_scalar(c as u32).len() as int
}

/// UTF-8 byte offset at which the character with index `i` starts in `s`
/// (for `i == s.len()`: the length of the whole encoding).
pub open spec fn byte_offset(s: Seq<char>, i: int) -> int
    decreases i,
{
    if i <= 0 {
        0
    } else {
        byte_offset(s, i - 1) + char_width(s[i - 1])
    }
}

/// A line is blank when every character of it is white space.
pub open spec fn blank(line: Seq<char>) -> bool {
    forall|i: int| 0 <= i < line.len() ==> is_space(#[trigger] line[i])
}

/// Index of the first line feed at or after `from`, or `s.len()` if there is none.
pub open spec fn line_end(s: Seq<char>, from: int) -> int
    decreases s.len() - from,
{
    if from >= s.len() {
        s.len() as int
    } else if s[from] == '\n' {
        from
    } else {
        line_end(s, from + 1)
    }
}

/// Where the content of the line `[from, e)` ends, given that a line feed
/// stands at `e`: a carriage return directly before the line feed is left out.
pub open spec fn content_end(s: Seq<char>, from: int, e: int) -> int {
    if e > from && s[e - 1] == '\r' {
        e - 1
    } else {
        e
    }
}

/// The segments into which the line feeds cut `s` from `from` on, as spans
/// `(start, end)` of character indices. Each line feed ends one segment, and
/// what follows the last line feed is a segment too, even when it is empty: a
/// text with `n` line feeds has `n + 1` segments. The span of a segment leaves
/// out its line feed and a carriage return directly before it.
pub open spec fn segments_from(s: Seq<char>, from: int) -> Seq<(int, int)>
    decreases s.len() - from,
{
    if from < 0 || from >= s.len() {
        seq![(from, from)]
    } else {
        let e = line_end(s, from);
        if e < s.len() {
            proof {
                lemma_line_end_bounds(s, from);
            }
            seq![(from, content_end(s, from, e))] + segments_from(s, e + 1)
        } else {
            seq![(from, e)]
        }
    }
}

/// The segments of the whole text.
pub open spec fn segments(s: Seq<char>) -> Seq<(int, int)> {
    segments_from(s, 0)
}

/// Number of lines of `s`, counting what follows the last line feed.
pub open spec fn line_count(s: Seq<char>) -> int {
    segments(s).len() as int
}

/// The spans of the lines of `s` as `str::lines` yields them: the segments,
/// without the last one when it is empty.
pub open spec fn line_spans(s: Seq<char>) -> Seq<(int, int)> {
    let g = segments(s);
    if g.last().0 == g.last().1 {
        g.drop_last()
    } else {
        g
    }
}

/// The lines of `s`.
pub open spec fn lines_of(s: Seq<char>) -> Seq<Seq<char>> {
    let spans = line_spans(s);
    Seq::new(spans.len(), |k: int| s.subrange(spans[k].0, spans[k].1))
}

/// Number of the segments among the first `k` whose first character stands at
/// byte offset `pos` or before it.
pub open spec fn starts_upto(s: Seq<char>, k: int, pos: int) -> int
    decreases k,
{
    if k <= 0 {
        0
    } else {
        starts_upto(s, k - 1, pos) + if byte_offset(s, segments(s)[k - 1].0) <= pos {
            1int
        } else {
            0int
        }
    }
}

/// The 1-based number of the line that holds byte offset `pos`: the number of
/// lines that start at `pos` or before it.
pub open spec fn line_at(s: Seq<char>, pos: int) -> int {
    starts_upto(s, line_count(s), pos)
}

pub proof fn lemma_line_end_bounds(s: Seq<char>, from: int)
    requires
        0 <= from <= s.len(),
    ensures
        from <= line_end(s, from) <= s.len(),
        line_end(s, from) < s.len() ==> s[line_end(s, from)] == '\n',
        forall|j: int| from <= j < line_end(s, from) ==> s[j] != '\n',
    decreases s.len() - from,
{
    if from < s.len() && s[from] != '\n' {
        lemma_line_end_bounds(s, from + 1);
    }
}

/// Every segment lies inside the text, and there is at least one.
pub proof fn lemma_segments_bounds(s: Seq<char>, from: int)
    requires
        0 <= from <= s.len(),
    ensures
        segments_from(s, from).len() >= 1,
        forall|k: int|
            0 <= k < segments_from(s, from).len() ==> from <= (#[trigger] segments_from(
                s,
                from,
            )[k]).0 <= segments_from(s, from)[k].1 <= s.len(),
    decreases s.len() - from,
{
    if from < s.len() {
        lemma_line_end_bounds(s, from);
        let e = line_end(s, from);
        let spans = segments_from(s, from);
        if e < s.len() {
            lemma_segments_bounds(s, e + 1);
            let tail = segments_from(s, e + 1);
            assert forall|k: int| 0 <= k < spans.len() implies from <= (#[trigger] spans[k]).0
                <= spans[k].1 <= s.len() by {
                if k > 0 {
                    assert(spans[k] == tail[k - 1]);
                }
            }
        }
    }
}

/// Segments follow one another: a later segment starts further right.
pub proof fn lemma_segments_increasing(s: Seq<char>, from: int)
    requires
        0 <= from <= s.len(),
    ensures
        forall|a: int, b: int|
            0 <= a < b < segments_from(s, from).len() ==> (#[trigger] segments_from(s, from)[a]).0
                < (#[trigger] segments_from(s, from)[b]).0,
        segments_from(s, from)[0].0 == from,
    decreases s.len() - from,
{
    if from < s.len() {
        lemma_line_end_bounds(s, from);
        let e = line_end(s, from);
        let spans = segments_from(s, from);
        if e < s.len() {
            lemma_segments_increasing(s, e + 1);
            lemma_segments_bounds(s, e + 1);
            let tail = segments_from(s, e + 1);
            assert forall|a: int, b: int| 0 <= a < b < spans.len() implies (#[trigger] spans[a]).0
                < (#[trigger] spans[b]).0 by {
                assert(spans[b] == tail[b - 1]);
                if a > 0 {
                    assert(spans[a] == tail[a - 1]);
                }
            }
        }
    }
}

/// The offsets at which the segments start grow from segment to segment.
pub proof fn lemma_segment_offsets_increasing(s: Seq<char>, a: int, b: int)
    requires
        0 <= a < b < segments(s).len(),
    ensures
        byte_offset(s, segments(s)[a].0) < byte_offset(s, segments(s)[b].0),
{
    lemma_segments_increasing(s, 0);
    lemma_segments_bounds(s, 0);
    lemma_byte_offset_monotonic(s, segments(s)[a].0, segments(s)[b].0);
}

/// The further right a position, the higher the number of its line.
pub proof fn lemma_line_at_monotonic(s: Seq<char>, k: int, first: int, second: int)
    requires
        first <= second,
    ensures
        starts_upto(s, k, first) <= starts_upto(s, k, second),
    decreases k,
{
    if k > 0 {
        lemma_line_at_monotonic(s, k - 1, first, second);
    }
}

proof fn lemma_starts_upto_segment(s: Seq<char>, i: int, k: int)
    requires
        0 <= i < segments(s).len(),
        0 <= k <= segments(s).len(),
    ensures
        starts_upto(s, k, byte_offset(s, segments(s)[i].0)) == if k <= i + 1 {
            k
        } else {
            i + 1
        },
    decreases k,
{
    if k > 0 {
        lemma_starts_upto_segment(s, i, k - 1);
        if k - 1 < i {
            lemma_segment_offsets_increasing(s, k - 1, i);
        } else if k - 1 > i {
            lemma_segment_offsets_increasing(s, i, k - 1);
        }
    }
}

/// The line that holds the first character of segment `i` has number `i + 1`.
pub proof fn lemma_line_of_segment(s: Seq<char>, i: int)
    requires
        0 <= i < segments(s).len(),
    ensures
        line_at(s, byte_offset(s, segments(s)[i].0)) == i + 1,
{
    lemma_starts_upto_segment(s, i, line_count(s));
}

/// The length of the UTF-8 encoding of `s`, in bytes.
pub open spec fn byte_len(s: Seq<char>) -> int {
    byte_offset(s, s.len() as int)
}

proof fn lemma_last_segment(s: Seq<char>, from: int)
    requires
        0 <= from <= s.len(),
    ensures
        segments_from(s, from).last().1 == s.len(),
    decreases s.len() - from,
{
    if from < s.len() {
        lemma_line_end_bounds(s, from);
        let e = line_end(s, from);
        if e < s.len() {
            lemma_last_segment(s, e + 1);
            lemma_segments_bounds(s, e + 1);
            let tail = segments_from(s, e + 1);
            let spans = segments_from(s, from);
            assert(spans.last() == tail[tail.len() - 1]);
        }
    }
}

/// A position inside the text is on one of its lines: its line number is at
/// least 1 and at most the number of lines of the text.
pub proof fn lemma_line_inside(s: Seq<char>, pos: int)
    requires
        0 <= pos < byte_len(s),
    ensures
        1 <= line_at(s, pos) <= lines_of(s).len(),
{
    let g = segments(s);
    let n = g.len() as int;
    lemma_segments_bounds(s, 0);
    lemma_line_at_bounds(s, pos);
    lemma_last_segment(s, 0);
    if g.last().0 == g.last().1 {
        lemma_starts_upto_bounds(s, n - 1, pos);
        assert(g[n - 1] == g.last());
    }
}

/// A line number is at least 1 and at most the number of lines.
pub proof fn lemma_line_at_bounds(s: Seq<char>, pos: int)
    requires
        0 <= pos,
    ensures
        1 <= line_at(s, pos) <= line_count(s),
{
    lemma_segments_bounds(s, 0);
    lemma_starts_upto_bounds(s, line_count(s), pos);
}

proof fn lemma_starts_upto_bounds(s: Seq<char>, k: int, pos: int)
    requires
        0 <= pos,
        0 <= k <= line_count(s),
    ensures
        starts_upto(s, k, pos) <= k,
        k >= 1 ==> starts_upto(s, k, pos) >= 1,
    decreases k,
{
    if k > 0 {
        lemma_starts_upto_bounds(s, k - 1, pos);
        if k == 1 {
            lemma_segments_bounds(s, 0);
            assert(segments(s)[0].0 == 0) by {
                if s.len() > 0 {
                    lemma_line_end_bounds(s, 0);
                }
            }
            assert(byte_offset(s, 0) == 0);
        }
    }
}

/// The characters of `text`, in order.
pub fn to_chars(text: &str) -> (chars: Vec<char>)
    ensures
        chars@ == text@,
{
    let mut chars: Vec<char> = Vec::new();
    for c in it: text.chars()
        invariant
            chars@ == it.seq().take(it.index() as int),
            it.seq() == text@,
    {
        chars.push(c);
    }
    chars
}

/// The string made of `chars[from..to]`.
pub(crate) fn string_of(chars: &Vec<char>, from: usize, to: usize) -> (s: String)
    requires
        from <= to <= chars.len(),
    ensures
        s@ == chars@.subrange(from as int, to as int),
{
    let mut s = String::new();
    let mut i: usize = from;
    while i < to
        invariant
            from <= i <= to <= chars.len(),
            s@ == chars@.subrange(from as int, i as int),
        decreases to - i,
    {
        s.push(chars[i]);
        i += 1;
    }
    s
}

/// Whether `chars[from..to]` is blank.
pub(crate) fn is_blank(chars: &Vec<char>, from: usize, to: usize) -> (b: bool)
    requires
        from <= to <= chars.len(),
    ensures
        b == blank(chars@.subrange(from as int, to as int)),
{
    let mut i: usize = from;
    while i < to
        invariant
            from <= i <= to <= chars.len(),
            blank(chars@.subrange(from as int, i as int)),
        decreases to - i,
    {
        if !chars[i].is_whitespace() {
            assert(chars@.subrange(from as int, to as int)[i - from] == chars@[i as int]);
            return false;
        }
        assert forall|j: int| 0 <= j < i + 1 - from implies is_space(
            #[trigger] chars@.subrange(from as int, i + 1)[j],
        ) by {
            if j < i - from {
                assert(chars@.subrange(from as int, i as int)[j] == chars@[from + j]);
            }
        }
        i += 1;
    }
    true
}

/// One segment of a text: the characters `[start, end)` of it, and the byte
/// offset at which the segment starts.
#[derive(Clone, Copy, Debug)]
pub struct Segment {
    pub start: usize,
    pub end: usize,
    pub offset: usize,
}

/// `segs` is the segment table of `s`.
pub open spec fn is_segment_table(segs: Seq<Segment>, s: Seq<char>) -> bool {
    &&& segs.len() == segments(s).len()
    &&& forall|k: int|
        0 <= k < segs.len() ==> {
            &&& (#[trigger] segs[k]).start == segments(s)[k].0
            &&& segs[k].end == segments(s)[k].1
            &&& segs[k].offset == byte_offset(s, segments(s)[k].0)
        }
}

pub proof fn lemma_char_width_bounds(c: char)
    ensures
        1 <= char_width(c) <= 4,
{
}

pub proof fn lemma_byte_offset_monotonic(s: Seq<char>, i: int, j: int)
    requires
        0 <= i <= j,
    ensures
        byte_offset(s, i) <= byte_offset(s, j),
        byte_offset(s, i) + (j - i) <= byte_offset(s, j),
    decreases j - i,
{
    if i < j {
        lemma_byte_offset_monotonic(s, i, j - 1);
        lemma_char_width_bounds(s[j - 1]);
    }
}

proof fn lemma_byte_offset_drop_first(s: Seq<char>, i: int)
    requires
        1 <= i <= s.len(),
    ensures
        byte_offset(s, i) == char_width(s[0]) + byte_offset(s.drop_first(), i - 1),
    decreases i,
{
    let d = s.drop_first();
    if i > 1 {
        lemma_byte_offset_drop_first(s, i - 1);
        assert(d[i - 2] == s[i - 1]);
        assert(byte_offset(d, i - 1) == byte_offset(d, i - 2) + char_width(d[i - 2]));
    } else {
        assert(byte_offset(s, 0) == 0);
        assert(byte_offset(d, 0) == 0);
    }
}

/// The byte offset of the end of a text is the length of its UTF-8 encoding.
pub proof fn lemma_byte_offset_total(s: Seq<char>)
    ensures
        byte_offset(s, s.len() as int) == encode_utf8(s).len(),
    decreases s.len(),
{
    if s.len() > 0 {
        lemma_byte_offset_drop_first(s, s.len() as int);
        lemma_byte_offset_total(s.drop_first());
    }
}

/// Number of bytes that `c` takes in UTF-8.
pub fn utf8_width(c: char) -> (w: usize)
    ensures
        w == char_width(c),
        1 <= w <= 4,
{
    let v: u32 = c as u32;
    if v < 0x80 {
        1
    } else if v < 0x800 {
        2
    } else if v < 0x10000 {
        3
    } else {
        4
    }
}

/// The segment table of `chars`.
pub(crate) fn split_segments(chars: &Vec<char>) -> (segs: Vec<Segment>)
    requires
        byte_offset(chars@, chars@.len() as int) <= usize::MAX,
    ensures
        is_segment_table(segs@, chars@),
        segs@.len() >= 1,
        forall|k: int|
            0 <= k < segs@.len() ==> (#[trigger] segs@[k]).start <= segs@[k].end <= chars@.len(),
{
    let mut segs: Vec<Segment> = Vec::new();
    let n = chars.len();
    let mut from: usize = 0;
    let mut off: usize = 0;
    let ghost s = chars@;
    let ghost all = segments(s);
    proof {
        lemma_segments_bounds(s, 0);
    }
    loop
        invariant_except_break
            s == chars@,
            all == segments(s),
            n == s.len(),
            from <= n,
            off == byte_offset(s, from as int),
            byte_offset(s, s.len() as int) <= usize::MAX,
            all.len() == segs@.len() + segments_from(s, from as int).len(),
            forall|k: int|
                0 <= k < segs@.len() ==> {
                    &&& (#[trigger] segs@[k]).start == all[k].0
                    &&& segs@[k].end == all[k].1
                    &&& segs@[k].offset == byte_offset(s, all[k].0)
                },
            forall|k: int|
                0 <= k < segments_from(s, from as int).len() ==> all[segs@.len() + k]
                    == #[trigger] segments_from(s, from as int)[k],
            forall|k: int| 0 <= k < all.len() ==> 0 <= (#[trigger] all[k]).0 <= all[k].1 <= s.len(),
        ensures
            s == chars@,
            all.len() == segs@.len(),
            forall|k: int|
                0 <= k < segs@.len() ==> {
                    &&& (#[trigger] segs@[k]).start == all[k].0
                    &&& segs@[k].end == all[k].1
                    &&& segs@[k].offset == byte_offset(s, all[k].0)
                },
            forall|k: int| 0 <= k < all.len() ==> 0 <= (#[trigger] all[k]).0 <= all[k].1 <= s.len(),
        decreases n - from,
    {
        let mut e: usize = from;
        let mut off_e: usize = off;
        while e < n && chars[e] != '\n'
            invariant
                s == chars@,
                n == s.len(),
                from <= e <= n,
                off_e == byte_offset(s, e as int),
                byte_offset(s, s.len() as int) <= usize::MAX,
                line_end(s, from as int) == line_end(s, e as int),
            decreases n - e,
        {
            proof {
                lemma_byte_offset_monotonic(s, e + 1, s.len() as int);
            }
            off_e = off_e + utf8_width(chars[e]);
            e += 1;
        }
        proof {
            lemma_line_end_bounds(s, from as int);
        }
        assert(e as int == line_end(s, from as int));
        let ghost rest = segments_from(s, from as int);
        if e < n {
            let end: usize = if e > from && chars[e - 1] == '\r' {
                e - 1
            } else {
                e
            };
            let ghost tail = segments_from(s, e + 1);
            assert(rest =~= seq![(from as int, end as int)] + tail);
            assert(rest[0] == (from as int, end as int));
            assert forall|k: int| 0 <= k < tail.len() implies all[segs@.len() + 1 + k]
                == #[trigger] tail[k] by {
                assert(rest[k + 1] == tail[k]);
            }
            proof {
                lemma_byte_offset_monotonic(s, e + 1, s.len() as int);
            }
            segs.push(Segment { start: from, end, offset: off });
            off = off_e + utf8_width(chars[e]);
            from = e + 1;
        } else {
            assert(rest =~= seq![(from as int, e as int)]);
            assert(rest[0] == (from as int, e as int));
            segs.push(Segment { start: from, end: e, offset: off });
            break;
        }
    }
    segs
}

/// The number of the line that holds byte offset `pos`, from the segment table
/// `segs` of a text `s`.
pub(crate) fn line_number(segs: &Vec<Segment>, pos: usize, Ghost(s): Ghost<Seq<char>>) -> (line: usize)
    requires
        is_segment_table(segs@, s),
    ensures
        line == line_at(s, pos as int),
        1 <= line <= line_count(s),
        pos < byte_len(s) ==> line <= lines_of(s).len(),
{
    let mut count: usize = 0;
    let mut k: usize = 0;
    while k < segs.len()
        invariant
            is_segment_table(segs@, s),
            k <= segs.len(),
            count == starts_upto(s, k as int, pos as int),
            count <= k,
        decreases segs.len() - k,
    {
        if segs[k].offset <= pos {
            count += 1;
        }
        k += 1;
    }
    proof {
        lemma_line_at_bounds(s, pos as int);
        if pos < byte_len(s) {
            lemma_line_inside(s, pos as int);
        }
    }
    count
}

/// A line with every run of white space made one space, and none at its ends.
pub open spec fn normalized(s: Seq<char>) -> Seq<char>
    decreases s.len(),
{
    if s.len() == 0 {
        Seq::empty()
    } else {
        let head = normalized(s.drop_last());
        let c = s.last();
        if is_space(c) {
            head
        } else if s.len() >= 2 && !is_space(s[s.len() - 2]) {
            head.push(c)
        } else if head.len() == 0 {
            seq![c]
        } else {
            head.push(' ').push(c)
        }
    }
}

/// White space at the end of a line makes no difference to its normal form.
pub proof fn lemma_normalized_trailing_space(s: Seq<char>, w: char)
    requires
        is_space(w),
    ensures
        normalized(s.push(w)) == normalized(s),
{
    assert(s.push(w).drop_last() =~= s);
}

/// White space at the start of a line makes no difference to its normal form.
pub proof fn lemma_normalized_leading_space(s: Seq<char>, w: char)
    requires
        is_space(w),
    ensures
        normalized(seq![w] + s) == normalized(s),
    decreases s.len(),
{
    let t = seq![w] + s;
    if s.len() == 0 {
        assert(t.drop_last() =~= s);
        assert(t.last() == w);
    } else {
        lemma_normalized_leading_space(s.drop_last(), w);
        assert(t.drop_last() =~= seq![w] + s.drop_last());
        assert(t.last() == s.last());
        if s.len() >= 2 {
            assert(t[t.len() - 2] == s[s.len() - 2]);
        } else {
            assert(t[t.len() - 2] == w);
        }
    }
}

/// White space in a line counts once, however much of it there is: a second
/// white space character after a first makes no difference to the normal form.
pub proof fn lemma_normalized_repeated_space(a: Seq<char>, w1: char, w2: char, b: Seq<char>)
    requires
        is_space(w1),
        is_space(w2),
    ensures
        normalized(a + seq![w1, w2] + b) == normalized(a + seq![w1] + b),
    decreases b.len(),
{
    let long = a + seq![w1, w2] + b;
    let short = a + seq![w1] + b;
    if b.len() == 0 {
        assert(long.drop_last() =~= short);
        assert(long.last() == w2);
    } else {
        lemma_normalized_repeated_space(a, w1, w2, b.drop_last());
        assert(long.drop_last() =~= a + seq![w1, w2] + b.drop_last());
        assert(short.drop_last() =~= a + seq![w1] + b.drop_last());
        assert(long.last() == b.last() && short.last() == b.last());
        if b.len() >= 2 {
            assert(long[long.len() - 2] == b[b.len() - 2]);
            assert(short[short.len() - 2] == b[b.len() - 2]);
        } else {
            assert(long[long.len() - 2] == w2);
            assert(short[short.len() - 2] == w1);
        }
    }
}

/// `line` with every run of white space made one space, and none at its ends.
pub fn normalize(line: &str) -> (out: String)
    ensures
        out@ == normalized(line@),
{
    let chars = to_chars(line);
    let mut out = String::new();
    let mut after_space = true;
    let mut i: usize = 0;
    assert(chars@.take(0) =~= Seq::<char>::empty());
    while i < chars.len()
        invariant
            i <= chars.len(),
            out@ == normalized(chars@.take(i as int)),
            after_space == (i == 0 || is_space(chars@[i - 1])),
        decreases chars.len() - i,
    {
        let c = chars[i];
        proof {
            let t = chars@.take(i + 1);
            assert(t.drop_last() =~= chars@.take(i as int));
            assert(t.last() == c);
            if i > 0 {
                assert(t[t.len() - 2] == chars@[i - 1]);
            }
        }
        if c.is_whitespace() {
            after_space = true;
        } else {
            if after_space && !out.as_str().is_empty() {
                out.push(' ');
            }
            out.push(c);
            after_space = false;
        }
        i += 1;
    }
    assert(chars@.take(chars.len() as int) =~= chars@);
    out
}

/// Number of lines in a segment table: the segments, without the last one when
/// it is empty.
pub(crate) fn count_lines(segs: &Vec<Segment>, Ghost(text): Ghost<Seq<char>>) -> (n: usize)
    requires
        is_segment_table(segs@, text),
    ensures
        n == line_spans(text).len(),
        n == lines_of(text).len(),
        n <= segs@.len(),
        forall|k: int| 0 <= k < n ==> line_spans(text)[k] == segments(text)[k],
{
    proof {
        lemma_segments_bounds(text, 0);
    }
    let last = segs.len() - 1;
    if segs[last].start == segs[last].end {
        last
    } else {
        segs.len()
    }
}

/// The length of `text` in bytes.
pub(crate) fn len_in_bytes(text: &str) -> (n: usize)
    ensures
        n == byte_len(text@),
{
    proof {
        lemma_byte_offset_total(text@);
    }
    text.as_bytes().len()
}

/// The characters of `text` and its segment table.
pub(crate) fn scan(text: &str) -> (r: (Vec<char>, Vec<Segment>))
    ensures
        r.0@ == text@,
        is_segment_table(r.1@, text@),
{
    let chars = to_chars(text);
    let total = text.as_bytes().len();
    proof {
        lemma_byte_offset_total(text@);
    }
    let segs = split_segments(&chars);
    (chars, segs)
}

/// The lines of `text`: what stands between its line feeds, without a carriage
/// return before a line feed, and without an empty line after the last line
/// feed.
pub fn lines(text: &str) -> (all: Vec<String>)
    ensures
        all@.len() == lines_of(text@).len(),
        forall|k: int| 0 <= k < all@.len() ==> (#[trigger] all@[k])@ == lines_of(text@)[k],
{
    let (chars, segs) = scan(text);
    let n = count_lines(&segs, Ghost(text@));
    proof {
        lemma_segments_bounds(text@, 0);
    }
    let mut all: Vec<String> = Vec::new();
    let mut k: usize = 0;
    while k < n
        invariant
            chars@ == text@,
            is_segment_table(segs@, text@),
            n == lines_of(text@).len(),
            n == line_spans(text@).len(),
            n <= segs@.len(),
            k <= n,
            forall|j: int| 0 <= j < n ==> line_spans(text@)[j] == segments(text@)[j],
            forall|j: int|
                0 <= j < segments(text@).len() ==> 0 <= (#[trigger] segments(text@)[j]).0
                    <= segments(text@)[j].1 <= text@.len(),
            all@.len() == k,
            forall|j: int| 0 <= j < k ==> (#[trigger] all@[j])@ == lines_of(text@)[j],
        decreases n - k,
    {
        let seg = segs[k];
        assert(line_spans(text@)[k as int] == segments(text@)[k as int]);
        all.push(string_of(&chars, seg.start, seg.end));
        k += 1;
    }
    all
}

} // verus!

//! Code blocks found in markdown and chat text.

use crate::search::{
    find_matches, found, left_to_right, match_models, pattern_matches, MatchModel, PatternMatch,
};
use crate::text::{
    blank, byte_len, byte_offset, count_lines, is_blank, is_segment_table, lemma_line_at_monotonic,
    lemma_line_of_segment, lemma_segment_offsets_increasing, lemma_segments_bounds, len_in_bytes,
    line_at, line_count, line_number, line_spans, lines_of, scan, segments, Segment,
};
use vstd::prelude::*;

verus! {

/// A code block extracted from text.
#[derive(Debug, Clone)]
pub struct CodeBlock {
    /// The code itself.
    pub content: String,
    /// The language tag of the block, if it has one (`"rust"`, `"diff"`).
    pub language: Option<String>,
    /// The 1-based number of the line on which the block starts in its text.
    pub source_line: usize,
}

/// The mathematical value of a `CodeBlock`.
pub struct BlockModel {
    pub content: Seq<char>,
    pub language: Option<Seq<char>>,
    pub source_line: int,
}

impl View for CodeBlock {
    type V = BlockModel;

    open spec fn view(&self) -> BlockModel {
        BlockModel {
            content: self.content@,
            language: match self.language {
                Some(l) => Some(l@),
                None => None,
            },
            source_line: self.source_line as int,
        }
    }
}

impl PartialEq for CodeBlock {
    /// Two blocks are equal when their content, language and line are.
    fn eq(&self, other: &CodeBlock) -> (equal: bool) {
        let same_language = match (&self.language, &other.language) {
            (Some(a), Some(b)) => *a == *b,
            (None, None) => true,
            _ => false,
        };
        self.content == other.content && same_language && self.source_line == other.source_line
    }
}

impl vstd::std_specs::cmp::PartialEqSpecImpl for CodeBlock {
    open spec fn obeys_eq_spec() -> bool {
        true
    }

    open spec fn eq_spec(&self, other: &CodeBlock) -> bool {
        self@ == other@
    }
}

/// The values of a list of blocks.
pub open spec fn block_models(blocks: Seq<CodeBlock>) -> Seq<BlockModel> {
    blocks.map_values(|b: CodeBlock| b@)
}

impl CodeBlock {
    /// A code block with the given content, language tag and line number.
    pub fn new(content: String, language: Option<String>, source_line: usize) -> (b: Self)
        ensures
            b.content == content,
            b.language == language,
            b.source_line == source_line,
    {
        Self { content, language, source_line }
    }
}

/// A block together with the byte offset of its first character in the text.
pub struct Placed {
    pub pos: usize,
    pub block: CodeBlock,
}

/// The mathematical value of a `Placed`.
pub struct PlacedModel {
    pub pos: int,
    pub block: BlockModel,
}

impl View for Placed {
    type V = PlacedModel;

    open spec fn view(&self) -> PlacedModel {
        PlacedModel { pos: self.pos as int, block: self.block@ }
    }
}

/// The values of a list of placed blocks.
pub open spec fn placed_models(ps: Seq<Placed>) -> Seq<PlacedModel> {
    ps.map_values(|p: Placed| p@)
}

/// The pattern of a fenced block: three backticks, a language tag of word
/// characters (group 1), a line feed, the content (group 2, as short as
/// possible) and three backticks at the start of a line. Backticks inside a
/// line of the content close nothing.
pub const FENCE_PATTERN: &'static str = "(?m)```(\\w*)\\n([\\s\\S]*?)^```";

/// The pattern of a diff hunk: a hunk header on a line of its own, then the
/// lines that begin with `+`, `-` or a space (group 1).
pub const HUNK_PATTERN: &'static str = "(?m)^@@[^@]+@@\\n((?:[+\\- ].*\\n?)+)";

/// The fenced block that a match of `FENCE_PATTERN` stands for.
pub open spec fn fenced_block(text: Seq<char>, m: MatchModel) -> PlacedModel {
    PlacedModel {
        pos: m.start,
        block: BlockModel {
            content: match m.group(2) {
                Some(c) => c,
                None => Seq::empty(),
            },
            language: match m.group(1) {
                Some(l) => if l.len() > 0 {
                    Some(l)
                } else {
                    None
                },
                None => None,
            },
            source_line: line_at(text, m.start),
        },
    }
}

/// Whether a match that starts at byte offset `start` starts inside the
/// text: on one of its characters.
pub open spec fn starts_inside(text: Seq<char>, start: int) -> bool {
    0 <= start < byte_len(text)
}

/// What a match of `FENCE_PATTERN` gives: its fenced block, and nothing where
/// the match does not start inside the text.
pub open spec fn fence_block(text: Seq<char>, m: MatchModel) -> Seq<PlacedModel> {
    if starts_inside(text, m.start) {
        seq![fenced_block(text, m)]
    } else {
        Seq::empty()
    }
}

/// The fenced blocks of a text, given the matches of `FENCE_PATTERN` in it.
pub open spec fn fenced_blocks(text: Seq<char>, ms: Seq<MatchModel>) -> Seq<PlacedModel>
    decreases ms.len(),
{
    if ms.len() == 0 {
        Seq::empty()
    } else {
        fenced_blocks(text, ms.drop_last()) + fence_block(text, ms.last())
    }
}

fn copy_string(s: &String) -> (r: String)
    ensures
        r@ == s@,
{
    s.clone()
}

fn collect_fenced(
    matches: &Vec<PatternMatch>,
    segs: &Vec<Segment>,
    total: usize,
    Ghost(text): Ghost<Seq<char>>,
) -> (out: Vec<Placed>)
    requires
        is_segment_table(segs@, text),
        total == byte_len(text),
    ensures
        placed_models(out@) == fenced_blocks(text, match_models(matches@)),
        forall|i: int|
            0 <= i < out@.len() ==> 1 <= (#[trigger] out@[i]).block.source_line <= lines_of(
                text,
            ).len(),
{
    let mut out: Vec<Placed> = Vec::new();
    let mut i: usize = 0;
    let ghost ms = match_models(matches@);
    assert(ms.take(0) =~= Seq::<MatchModel>::empty());
    while i < matches.len()
        invariant
            is_segment_table(segs@, text),
            total == byte_len(text),
            ms == match_models(matches@),
            i <= matches.len(),
            placed_models(out@) == fenced_blocks(text, ms.take(i as int)),
            forall|k: int|
                0 <= k < out@.len() ==> 1 <= (#[trigger] out@[k]).block.source_line <= lines_of(
                    text,
                ).len(),
        decreases matches.len() - i,
    {
        let m = &matches[i];
        let ghost before = placed_models(out@);
        assert(ms.take(i + 1).drop_last() =~= ms.take(i as int));
        assert(ms.take(i + 1).last() == m@);
        if m.start < total {
            let line = line_number(segs, m.start, Ghost(text));
            let language: Option<String> = if m.groups.len() >= 1 {
                match &m.groups[0] {
                    Some(l) => if l.as_str().is_empty() {
                        None
                    } else {
                        Some(copy_string(l))
                    },
                    None => None,
                }
            } else {
                None
            };
            let content: String = if m.groups.len() >= 2 {
                match &m.groups[1] {
                    Some(c) => copy_string(c),
                    None => String::new(),
                }
            } else {
                String::new()
            };
            out.push(Placed { pos: m.start, block: CodeBlock::new(content, language, line) });
            assert(placed_models(out@) =~= before + seq![out@[out@.len() - 1]@]);
        }
        assert(placed_models(out@) =~= before + fence_block(text, m@));
        i += 1;
    }
    assert(ms.take(matches.len() as int) =~= ms);
    out
}

/// Whether a line begins with four spaces.
pub open spec fn indented(line: Seq<char>) -> bool {
    line.len() >= 4 && line[0] == ' ' && line[1] == ' ' && line[2] == ' ' && line[3] == ' '
}

/// A line that can begin an indented block: indented and not blank.
pub open spec fn opens_block(line: Seq<char>) -> bool {
    indented(line) && !blank(line)
}

/// A line that an indented block runs through: indented, or blank.
pub open spec fn in_block(line: Seq<char>) -> bool {
    indented(line) || blank(line)
}

/// What a line contributes to an indented block: the line without its four
/// leading spaces, or the whole line where it has none.
pub open spec fn body_line(line: Seq<char>) -> Seq<char> {
    if indented(line) {
        line.skip(4)
    } else {
        line
    }
}

/// Index of the first line at or after `i` that no indented block runs
/// through, or the number of lines.
pub open spec fn run_end(lines: Seq<Seq<char>>, i: int) -> int
    decreases lines.len() - i,
{
    if i < 0 || i >= lines.len() || !in_block(lines[i]) {
        i
    } else {
        run_end(lines, i + 1)
    }
}

/// Where the run `[i, j)` ends once the lines at its end whose contribution is
/// blank are dropped.
pub open spec fn kept_end(lines: Seq<Seq<char>>, i: int, j: int) -> int
    decreases j - i,
{
    if j <= i || j > lines.len() || !blank(body_line(lines[j - 1])) {
        j
    } else {
        kept_end(lines, i, j - 1)
    }
}

/// The contributions of the lines `[i, e)`, each followed by a line feed.
pub open spec fn body_text(lines: Seq<Seq<char>>, i: int, e: int) -> Seq<char>
    decreases e - i,
{
    if e <= i {
        Seq::empty()
    } else {
        body_text(lines, i, e - 1) + body_line(lines[e - 1]) + seq!['\n']
    }
}

pub proof fn lemma_run_end_bounds(lines: Seq<Seq<char>>, i: int)
    requires
        0 <= i <= lines.len(),
    ensures
        i <= run_end(lines, i) <= lines.len(),
    decreases lines.len() - i,
{
    if i < lines.len() && in_block(lines[i]) {
        lemma_run_end_bounds(lines, i + 1);
    }
}

/// The indented blocks of `text` that start at line index `i` or later. A
/// block starts at a line that `opens_block`, runs through the lines that
/// follow as long as they are `in_block`, and loses the blank lines at its end.
pub open spec fn indented_from(text: Seq<char>, i: int) -> Seq<PlacedModel>
    decreases lines_of(text).len() - i,
{
    let lines = lines_of(text);
    if i < 0 || i >= lines.len() {
        Seq::empty()
    } else if opens_block(lines[i]) {
        let j = run_end(lines, i + 1);
        let e = kept_end(lines, i, j);
        let found = if e > i {
            seq![
                PlacedModel {
                    pos: byte_offset(text, line_spans(text)[i].0),
                    block: BlockModel {
                        content: body_text(lines, i, e),
                        language: None,
                        source_line: i + 1,
                    },
                },
            ]
        } else {
            Seq::empty()
        };
        proof {
            lemma_run_end_bounds(lines, i + 1);
        }
        found + indented_from(text, j)
    } else {
        indented_from(text, i + 1)
    }
}

/// The indented blocks of a text.
pub open spec fn indented_blocks(text: Seq<char>) -> Seq<PlacedModel> {
    indented_from(text, 0)
}

/// Whether `chars[from..to]` begins with four spaces.
fn is_indented(chars: &Vec<char>, from: usize, to: usize) -> (b: bool)
    requires
        from <= to <= chars.len(),
    ensures
        b == indented(chars@.subrange(from as int, to as int)),
{
    to - from >= 4 && chars[from] == ' ' && chars[from + 1] == ' ' && chars[from + 2] == ' '
        && chars[from + 3] == ' '
}

/// Appends `chars[from..to]` to `s`.
fn push_range(s: &mut String, chars: &Vec<char>, from: usize, to: usize)
    requires
        from <= to <= chars.len(),
    ensures
        final(s)@ == old(s)@ + chars@.subrange(from as int, to as int),
{
    let mut i: usize = from;
    while i < to
        invariant
            from <= i <= to <= chars.len(),
            s@ == old(s)@ + chars@.subrange(from as int, i as int),
        decreases to - i,
    {
        s.push(chars[i]);
        assert(chars@.subrange(from as int, i + 1) =~= chars@.subrange(from as int, i as int).push(
            chars@[i as int],
        ));
        i += 1;
    }
    assert(s@ =~= old(s)@ + chars@.subrange(from as int, to as int));
}

/// Where the contribution of line `k` starts in `chars`.
fn body_start(chars: &Vec<char>, seg: &Segment) -> (from: usize)
    requires
        seg.start <= seg.end <= chars.len(),
    ensures
        seg.start <= from <= seg.end,
        chars@.subrange(from as int, seg.end as int) == body_line(
            chars@.subrange(seg.start as int, seg.end as int),
        ),
{
    if is_indented(chars, seg.start, seg.end) {
        assert(chars@.subrange(seg.start as int, seg.end as int).skip(4) =~= chars@.subrange(
            seg.start + 4,
            seg.end as int,
        ));
        seg.start + 4
    } else {
        seg.start
    }
}

fn collect_indented(chars: &Vec<char>, segs: &Vec<Segment>) -> (out: Vec<Placed>)
    requires
        is_segment_table(segs@, chars@),
    ensures
        placed_models(out@) == indented_blocks(chars@),
        forall|i: int|
            0 <= i < out@.len() ==> 1 <= (#[trigger] out@[i]).block.source_line <= lines_of(
                chars@,
            ).len(),
{
    let ghost text = chars@;
    let ghost lines = lines_of(text);
    let n = count_lines(segs, Ghost(text));
    proof {
        lemma_segments_bounds(text, 0);
    }
    assert forall|k: int| 0 <= k < n implies {
        &&& (#[trigger] segs@[k]).start <= segs@[k].end <= chars@.len()
        &&& lines[k] == text.subrange(segs@[k].start as int, segs@[k].end as int)
    } by {
        assert(line_spans(text)[k] == segments(text)[k]);
    }
    let mut out: Vec<Placed> = Vec::new();
    let mut i: usize = 0;
    while i < n
        invariant
            text == chars@,
            lines == lines_of(text),
            is_segment_table(segs@, text),
            n == lines.len(),
            n == line_spans(text).len(),
            n <= segs@.len(),
            i <= n,
            forall|k: int| 0 <= k < n ==> line_spans(text)[k] == segments(text)[k],
            forall|k: int|
                0 <= k < n ==> {
                    &&& (#[trigger] segs@[k]).start <= segs@[k].end <= chars@.len()
                    &&& lines[k] == text.subrange(segs@[k].start as int, segs@[k].end as int)
                },
            indented_blocks(text) == placed_models(out@) + indented_from(text, i as int),
            forall|k: int|
                0 <= k < out@.len() ==> 1 <= (#[trigger] out@[k]).block.source_line <= lines_of(
                    text,
                ).len(),
        decreases n - i,
    {
        let seg = segs[i];
        if is_indented(chars, seg.start, seg.end) && !is_blank(chars, seg.start, seg.end) {
            let mut j: usize = i + 1;
            loop
                invariant_except_break
                    i < j <= n,
                    run_end(lines, i + 1) == run_end(lines, j as int),
                invariant
                    text == chars@,
                    lines == lines_of(text),
                    n == lines.len(),
                    n <= segs@.len(),
                    forall|k: int|
                        0 <= k < n ==> {
                            &&& (#[trigger] segs@[k]).start <= segs@[k].end <= chars@.len()
                            &&& lines[k] == text.subrange(
                                segs@[k].start as int,
                                segs@[k].end as int,
                            )
                        },
                ensures
                    i < j <= n,
                    j == run_end(lines, i + 1),
                decreases n - j,
            {
                if j >= n {
                    break ;
                }
                let sj = segs[j];
                if !(is_indented(chars, sj.start, sj.end) || is_blank(chars, sj.start, sj.end)) {
                    break ;
                }
                j += 1;
            }
            let mut e: usize = j;
            loop
                invariant_except_break
                    i <= e <= j,
                    kept_end(lines, i as int, j as int) == kept_end(lines, i as int, e as int),
                invariant
                    text == chars@,
                    lines == lines_of(text),
                    n == lines.len(),
                    n <= segs@.len(),
                    j <= n,
                    forall|k: int|
                        0 <= k < n ==> {
                            &&& (#[trigger] segs@[k]).start <= segs@[k].end <= chars@.len()
                            &&& lines[k] == text.subrange(
                                segs@[k].start as int,
                                segs@[k].end as int,
                            )
                        },
                ensures
                    i <= e <= j,
                    e == kept_end(lines, i as int, j as int),
                decreases e - i,
            {
                if e <= i {
                    break ;
                }
                let se = segs[e - 1];
                let from = body_start(chars, &se);
                if !is_blank(chars, from, se.end) {
                    break ;
                }
                e -= 1;
            }
            let ghost before = placed_models(out@);
            if e > i {
                let mut content = String::new();
                let mut k: usize = i;
                while k < e
                    invariant
                        text == chars@,
                        lines == lines_of(text),
                        n == lines.len(),
                        n <= segs@.len(),
                        i <= k <= e <= n,
                        forall|k: int|
                            0 <= k < n ==> {
                                &&& (#[trigger] segs@[k]).start <= segs@[k].end <= chars@.len()
                                &&& lines[k] == text.subrange(
                                    segs@[k].start as int,
                                    segs@[k].end as int,
                                )
                            },
                        content@ == body_text(lines, i as int, k as int),
                    decreases e - k,
                {
                    let sk = segs[k];
                    let from = body_start(chars, &sk);
                    push_range(&mut content, chars, from, sk.end);
                    content.push('\n');
                    k += 1;
                }
                out.push(Placed { pos: seg.offset, block: CodeBlock::new(content, None, i + 1) });
                assert(placed_models(out@) =~= before + seq![out@[out@.len() - 1]@]);
            }
            assert(indented_blocks(text) =~= placed_models(out@) + indented_from(text, j as int));
            i = j;
        } else {
            i += 1;
        }
    }
    assert(indented_from(text, n as int) =~= Seq::<PlacedModel>::empty());
    assert(placed_models(out@) =~= indented_blocks(text));
    out
}

/// The language tag of the blocks taken from diff hunks.
pub const DIFF_TAG: &'static str = "diff";

/// A line that a diff adds: it begins with `+`.
pub open spec fn is_added(line: Seq<char>) -> bool {
    line.len() > 0 && line[0] == '+'
}

/// Number of added lines among the first `k` lines.
pub open spec fn added_count(lines: Seq<Seq<char>>, k: int) -> int
    decreases k,
{
    if k <= 0 {
        0
    } else if is_added(lines[k - 1]) {
        added_count(lines, k - 1) + 1
    } else {
        added_count(lines, k - 1)
    }
}

/// The added lines among the first `k` lines, each without its `+` and
/// followed by a line feed.
pub open spec fn added_text(lines: Seq<Seq<char>>, k: int) -> Seq<char>
    decreases k,
{
    if k <= 0 {
        Seq::empty()
    } else if is_added(lines[k - 1]) {
        added_text(lines, k - 1) + lines[k - 1].skip(1) + seq!['\n']
    } else {
        added_text(lines, k - 1)
    }
}

/// The block that a match of `HUNK_PATTERN` stands for: the added lines of the
/// hunk's body (group 1), or nothing when the hunk adds no line or the match
/// does not start inside the text.
pub open spec fn hunk_block(text: Seq<char>, m: MatchModel) -> Seq<PlacedModel> {
    match m.group(1) {
        Some(body) => {
            let lines = lines_of(body);
            if starts_inside(text, m.start) && added_count(lines, lines.len() as int) > 0 {
                seq![
                    PlacedModel {
                        pos: m.start,
                        block: BlockModel {
                            content: added_text(lines, lines.len() as int),
                            language: Some(DIFF_TAG@),
                            source_line: line_at(text, m.start),
                        },
                    },
                ]
            } else {
                Seq::empty()
            }
        },
        None => Seq::empty(),
    }
}

/// The blocks of the diff hunks of a text, given the matches of `HUNK_PATTERN`
/// in it.
pub open spec fn hunk_blocks(text: Seq<char>, ms: Seq<MatchModel>) -> Seq<PlacedModel>
    decreases ms.len(),
{
    if ms.len() == 0 {
        Seq::empty()
    } else {
        hunk_blocks(text, ms.drop_last()) + hunk_block(text, ms.last())
    }
}

/// The added lines of a hunk body, each without its `+` and followed by a line
/// feed; `None` when the body adds no line.
fn added_lines(body: &str) -> (r: Option<String>)
    ensures
        match r {
            Some(content) => added_count(lines_of(body@), lines_of(body@).len() as int) > 0
                && content@ == added_text(lines_of(body@), lines_of(body@).len() as int),
            None => added_count(lines_of(body@), lines_of(body@).len() as int) == 0,
        },
{
    let (chars, segs) = scan(body);
    let ghost lines = lines_of(body@);
    let n = count_lines(&segs, Ghost(body@));
    proof {
        lemma_segments_bounds(body@, 0);
    }
    assert forall|k: int| 0 <= k < n implies {
        &&& (#[trigger] segs@[k]).start <= segs@[k].end <= chars@.len()
        &&& lines[k] == body@.subrange(segs@[k].start as int, segs@[k].end as int)
    } by {
        assert(line_spans(body@)[k] == segments(body@)[k]);
    }
    let mut content = String::new();
    let mut found = false;
    let mut k: usize = 0;
    while k < n
        invariant
            chars@ == body@,
            lines == lines_of(body@),
            n == lines.len(),
            n <= segs@.len(),
            k <= n,
            forall|k: int|
                0 <= k < n ==> {
                    &&& (#[trigger] segs@[k]).start <= segs@[k].end <= chars@.len()
                    &&& lines[k] == body@.subrange(segs@[k].start as int, segs@[k].end as int)
                },
            content@ == added_text(lines, k as int),
            found == (added_count(lines, k as int) > 0),
            added_count(lines, k as int) >= 0,
        decreases n - k,
    {
        let seg = segs[k];
        if seg.end > seg.start && chars[seg.start] == '+' {
            assert(lines[k as int].skip(1) =~= chars@.subrange(seg.start + 1, seg.end as int));
            push_range(&mut content, &chars, seg.start + 1, seg.end);
            content.push('\n');
            found = true;
        }
        k += 1;
    }
    if found {
        Some(content)
    } else {
        None
    }
}

fn collect_hunks(
    matches: &Vec<PatternMatch>,
    segs: &Vec<Segment>,
    total: usize,
    Ghost(text): Ghost<Seq<char>>,
) -> (out: Vec<Placed>)
    requires
        is_segment_table(segs@, text),
        total == byte_len(text),
    ensures
        placed_models(out@) == hunk_blocks(text, match_models(matches@)),
        forall|i: int|
            0 <= i < out@.len() ==> 1 <= (#[trigger] out@[i]).block.source_line <= lines_of(
                text,
            ).len(),
{
    let mut out: Vec<Placed> = Vec::new();
    let mut i: usize = 0;
    let ghost ms = match_models(matches@);
    assert(ms.take(0) =~= Seq::<MatchModel>::empty());
    while i < matches.len()
        invariant
            is_segment_table(segs@, text),
            total == byte_len(text),
            ms == match_models(matches@),
            i <= matches.len(),
            placed_models(out@) == hunk_blocks(text, ms.take(i as int)),
            forall|k: int|
                0 <= k < out@.len() ==> 1 <= (#[trigger] out@[k]).block.source_line <= lines_of(
                    text,
                ).len(),
        decreases matches.len() - i,
    {
        let m = &matches[i];
        let ghost before = placed_models(out@);
        assert(ms.take(i + 1).drop_last() =~= ms.take(i as int));
        assert(ms.take(i + 1).last() == m@);
        if m.start < total && m.groups.len() >= 1 {
            if let Some(body) = &m.groups[0] {
                if let Some(content) = added_lines(body.as_str()) {
                    let line = line_number(segs, m.start, Ghost(text));
                    let tag = DIFF_TAG.to_owned();
                    out.push(
                        Placed { pos: m.start, block: CodeBlock::new(content, Some(tag), line) },
                    );
                    assert(placed_models(out@) =~= before + seq![out@[out@.len() - 1]@]);
                }
            }
        }
        assert(placed_models(out@) =~= before + hunk_block(text, m@));
        i += 1;
    }
    assert(ms.take(matches.len() as int) =~= ms);
    out
}

/// Two lists of placed blocks as one, by the position of their first
/// character; where two blocks start at the same place, the one of `a` comes
/// first. Each list keeps its own order.
pub open spec fn merged(a: Seq<PlacedModel>, b: Seq<PlacedModel>) -> Seq<PlacedModel>
    decreases a.len() + b.len(),
{
    if a.len() == 0 {
        b
    } else if b.len() == 0 {
        a
    } else if a[0].pos <= b[0].pos {
        seq![a[0]] + merged(a.drop_first(), b)
    } else {
        seq![b[0]] + merged(a, b.drop_first())
    }
}

fn copy_placed(p: &Placed) -> (r: Placed)
    ensures
        r@ == p@,
{
    let language = match &p.block.language {
        Some(l) => Some(copy_string(l)),
        None => None,
    };
    Placed {
        pos: p.pos,
        block: CodeBlock::new(copy_string(&p.block.content), language, p.block.source_line),
    }
}

fn merge(a: &Vec<Placed>, b: &Vec<Placed>, Ghost(bound): Ghost<int>) -> (out: Vec<Placed>)
    requires
        forall|i: int| 0 <= i < a@.len() ==> 1 <= (#[trigger] a@[i]).block.source_line <= bound,
        forall|i: int| 0 <= i < b@.len() ==> 1 <= (#[trigger] b@[i]).block.source_line <= bound,
    ensures
        placed_models(out@) == merged(placed_models(a@), placed_models(b@)),
        forall|i: int| 0 <= i < out@.len() ==> 1 <= (#[trigger] out@[i]).block.source_line <= bound,
{
    let ghost am = placed_models(a@);
    let ghost bm = placed_models(b@);
    let mut out: Vec<Placed> = Vec::new();
    let mut i: usize = 0;
    let mut j: usize = 0;
    assert(am.skip(0) =~= am);
    assert(bm.skip(0) =~= bm);
    while i < a.len() || j < b.len()
        invariant
            am == placed_models(a@),
            bm == placed_models(b@),
            i <= a.len(),
            j <= b.len(),
            merged(am, bm) == placed_models(out@) + merged(am.skip(i as int), bm.skip(j as int)),
            forall|k: int| 0 <= k < a@.len() ==> 1 <= (#[trigger] a@[k]).block.source_line <= bound,
            forall|k: int| 0 <= k < b@.len() ==> 1 <= (#[trigger] b@[k]).block.source_line <= bound,
            forall|k: int|
                0 <= k < out@.len() ==> 1 <= (#[trigger] out@[k]).block.source_line <= bound,
        decreases (a.len() - i) + (b.len() - j),
    {
        let ghost before = placed_models(out@);
        let ghost ra = am.skip(i as int);
        let ghost rb = bm.skip(j as int);
        let take_a = if i >= a.len() {
            false
        } else if j >= b.len() {
            true
        } else {
            a[i].pos <= b[j].pos
        };
        if take_a {
            assert(ra.drop_first() =~= am.skip(i + 1));
            assert(ra[0] == a@[i as int]@);
            assert(merged(ra, rb) =~= seq![ra[0]] + merged(ra.drop_first(), rb));
            out.push(copy_placed(&a[i]));
            i += 1;
        } else {
            assert(rb.drop_first() =~= bm.skip(j + 1));
            assert(rb[0] == b@[j as int]@);
            assert(merged(ra, rb) =~= seq![rb[0]] + merged(ra, rb.drop_first()));
            out.push(copy_placed(&b[j]));
            j += 1;
        }
        assert(placed_models(out@) =~= before + seq![out@[out@.len() - 1]@]);
    }
    assert(merged(am.skip(i as int), bm.skip(j as int)) =~= Seq::<PlacedModel>::empty());
    out
}

/// The code blocks of `text` with their places, given the matches of
/// `FENCE_PATTERN` and of `HUNK_PATTERN` in it: the fenced blocks, the
/// indented blocks and the blocks of the diff hunks, in the order of their
/// first characters. Of blocks that start at the same place the fenced one
/// comes first and the hunk's last.
pub open spec fn placed(
    text: Seq<char>,
    fences: Seq<MatchModel>,
    hunks: Seq<MatchModel>,
) -> Seq<PlacedModel> {
    merged(merged(fenced_blocks(text, fences), indented_blocks(text)), hunk_blocks(text, hunks))
}

/// The code blocks of `text`, given the matches of `FENCE_PATTERN` and of
/// `HUNK_PATTERN` in it.
pub open spec fn extracted(
    text: Seq<char>,
    fences: Seq<MatchModel>,
    hunks: Seq<MatchModel>,
) -> Seq<BlockModel> {
    placed(text, fences, hunks).map_values(|p: PlacedModel| p.block)
}

/// The blocks stand in the order of their places, each on the line of its
/// place, and none before `floor`.
pub open spec fn in_order(text: Seq<char>, ps: Seq<PlacedModel>, floor: int) -> bool {
    &&& forall|i: int, j: int|
        0 <= i <= j < ps.len() ==> (#[trigger] ps[i]).pos <= (#[trigger] ps[j]).pos
    &&& forall|i: int|
        0 <= i < ps.len() ==> floor <= (#[trigger] ps[i]).pos && ps[i].block.source_line
            == line_at(text, ps[i].pos)
}

proof fn lemma_merged_in_order(
    text: Seq<char>,
    a: Seq<PlacedModel>,
    b: Seq<PlacedModel>,
    floor: int,
)
    requires
        in_order(text, a, floor),
        in_order(text, b, floor),
    ensures
        in_order(text, merged(a, b), floor),
    decreases a.len() + b.len(),
{
    if a.len() > 0 && b.len() > 0 {
        let all = merged(a, b);
        if a[0].pos <= b[0].pos {
            let rest = a.drop_first();
            assert forall|i: int| 0 <= i < rest.len() implies a[0].pos <= (#[trigger] rest[i]).pos
                && rest[i].block.source_line == line_at(text, rest[i].pos) by {
                assert(rest[i] == a[i + 1]);
            }
            assert forall|i: int, j: int| 0 <= i <= j < rest.len() implies (#[trigger] rest[i]).pos
                <= (#[trigger] rest[j]).pos by {
                assert(rest[i] == a[i + 1] && rest[j] == a[j + 1]);
            }
            assert forall|i: int| 0 <= i < b.len() implies a[0].pos <= (#[trigger] b[i]).pos by {
                assert(b[0].pos <= b[i].pos);
            }
            lemma_merged_in_order(text, rest, b, a[0].pos);
            let tail = merged(rest, b);
            assert forall|i: int, j: int| 0 <= i <= j < all.len() implies (#[trigger] all[i]).pos
                <= (#[trigger] all[j]).pos by {
                if i > 0 {
                    assert(all[i] == tail[i - 1] && all[j] == tail[j - 1]);
                } else if j > 0 {
                    assert(all[j] == tail[j - 1]);
                }
            }
            assert forall|i: int| 0 <= i < all.len() implies floor <= (#[trigger] all[i]).pos
                && all[i].block.source_line == line_at(text, all[i].pos) by {
                if i > 0 {
                    assert(all[i] == tail[i - 1]);
                }
            }
        } else {
            let rest = b.drop_first();
            assert forall|i: int| 0 <= i < rest.len() implies b[0].pos <= (#[trigger] rest[i]).pos
                && rest[i].block.source_line == line_at(text, rest[i].pos) by {
                assert(rest[i] == b[i + 1]);
            }
            assert forall|i: int, j: int| 0 <= i <= j < rest.len() implies (#[trigger] rest[i]).pos
                <= (#[trigger] rest[j]).pos by {
                assert(rest[i] == b[i + 1] && rest[j] == b[j + 1]);
            }
            assert forall|i: int| 0 <= i < a.len() implies b[0].pos <= (#[trigger] a[i]).pos by {
                assert(a[0].pos <= a[i].pos);
            }
            lemma_merged_in_order(text, a, rest, b[0].pos);
            let tail = merged(a, rest);
            assert forall|i: int, j: int| 0 <= i <= j < all.len() implies (#[trigger] all[i]).pos
                <= (#[trigger] all[j]).pos by {
                if i > 0 {
                    assert(all[i] == tail[i - 1] && all[j] == tail[j - 1]);
                } else if j > 0 {
                    assert(all[j] == tail[j - 1]);
                }
            }
            assert forall|i: int| 0 <= i < all.len() implies floor <= (#[trigger] all[i]).pos
                && all[i].block.source_line == line_at(text, all[i].pos) by {
                if i > 0 {
                    assert(all[i] == tail[i - 1]);
                }
            }
        }
    }
}

proof fn lemma_fences_in_order(text: Seq<char>, ms: Seq<MatchModel>)
    requires
        left_to_right(ms),
    ensures
        in_order(text, fenced_blocks(text, ms), 0),
        forall|i: int|
            0 <= i < fenced_blocks(text, ms).len() ==> (#[trigger] fenced_blocks(text, ms)[i]).pos
                <= ms.last().start,
    decreases ms.len(),
{
    if ms.len() > 0 {
        let head = ms.drop_last();
        assert(left_to_right(head)) by {
            assert forall|i: int, j: int| 0 <= i <= j < head.len() implies (#[trigger] head[i]).start
                <= (#[trigger] head[j]).start by {
                assert(head[i] == ms[i] && head[j] == ms[j]);
            }
        }
        lemma_fences_in_order(text, head);
        let before = fenced_blocks(text, head);
        let last = fence_block(text, ms.last());
        let all = fenced_blocks(text, ms);
        assert(all == before + last);
        if head.len() > 0 {
            assert(head.last() == ms[ms.len() - 2]);
            assert(ms[ms.len() - 2].start <= ms[ms.len() - 1].start);
        }
        assert forall|i: int| 0 <= i < all.len() implies (#[trigger] all[i]).pos
            <= ms.last().start && 0 <= all[i].pos && all[i].block.source_line == line_at(
            text,
            all[i].pos,
        ) by {
            if i < before.len() {
                assert(all[i] == before[i]);
            } else {
                assert(all[i] == last[i - before.len()]);
            }
        }
        assert forall|i: int, j: int| 0 <= i <= j < all.len() implies (#[trigger] all[i]).pos
            <= (#[trigger] all[j]).pos by {
            if j < before.len() {
                assert(all[i] == before[i] && all[j] == before[j]);
            } else if i < before.len() {
                assert(all[i] == before[i]);
                assert(all[j] == last[j - before.len()]);
            } else {
                assert(all[i] == last[i - before.len()] && all[j] == last[j - before.len()]);
            }
        }
    }
}

proof fn lemma_hunks_in_order(text: Seq<char>, ms: Seq<MatchModel>)
    requires
        left_to_right(ms),
    ensures
        in_order(text, hunk_blocks(text, ms), 0),
        forall|i: int|
            0 <= i < hunk_blocks(text, ms).len() ==> (#[trigger] hunk_blocks(text, ms)[i]).pos
                <= ms.last().start,
    decreases ms.len(),
{
    if ms.len() > 0 {
        let head = ms.drop_last();
        assert(left_to_right(head)) by {
            assert forall|i: int, j: int| 0 <= i <= j < head.len() implies (#[trigger] head[i]).start
                <= (#[trigger] head[j]).start by {
                assert(head[i] == ms[i] && head[j] == ms[j]);
            }
        }
        lemma_hunks_in_order(text, head);
        let before = hunk_blocks(text, head);
        let last = hunk_block(text, ms.last());
        let all = hunk_blocks(text, ms);
        assert(all == before + last);
        if head.len() > 0 {
            assert(head.last() == ms[ms.len() - 2]);
            assert(ms[ms.len() - 2].start <= ms[ms.len() - 1].start);
        }
        assert forall|i: int| 0 <= i < all.len() implies (#[trigger] all[i]).pos
            <= ms.last().start && 0 <= all[i].pos && all[i].block.source_line == line_at(
            text,
            all[i].pos,
        ) by {
            if i < before.len() {
                assert(all[i] == before[i]);
            } else {
                assert(all[i] == last[i - before.len()]);
            }
        }
        assert forall|i: int, j: int| 0 <= i <= j < all.len() implies (#[trigger] all[i]).pos
            <= (#[trigger] all[j]).pos by {
            if j < before.len() {
                assert(all[i] == before[i] && all[j] == before[j]);
            } else if i < before.len() {
                assert(all[i] == before[i]);
                assert(all[j] == last[j - before.len()]);
            } else {
                assert(all[i] == last[i - before.len()] && all[j] == last[j - before.len()]);
            }
        }
    }
}

proof fn lemma_indented_in_order(text: Seq<char>, i: int)
    requires
        0 <= i,
    ensures
        in_order(
            text,
            indented_from(text, i),
            if i < lines_of(text).len() {
                byte_offset(text, segments(text)[i].0)
            } else {
                0
            },
        ),
    decreases lines_of(text).len() - i,
{
    let lines = lines_of(text);
    lemma_segments_bounds(text, 0);
    if i < lines.len() {
        assert(line_spans(text)[i] == segments(text)[i]);
        let here = byte_offset(text, segments(text)[i].0);
        let next = if opens_block(lines[i]) {
            run_end(lines, i + 1)
        } else {
            i + 1
        };
        lemma_run_end_bounds(lines, i + 1);
        lemma_indented_in_order(text, next);
        let rest = indented_from(text, next);
        if next < lines.len() {
            lemma_segment_offsets_increasing(text, i, next);
        }
        crate::text::lemma_byte_offset_monotonic(text, 0, segments(text)[i].0);
        let all = indented_from(text, i);
        if opens_block(lines[i]) && kept_end(lines, i, next) > i {
            lemma_line_of_segment(text, i);
            assert(all[0].pos == here && all[0].block.source_line == i + 1);
            assert forall|k: int| 0 <= k < all.len() implies here <= (#[trigger] all[k]).pos
                && all[k].block.source_line == line_at(text, all[k].pos) by {
                if k > 0 {
                    assert(all[k] == rest[k - 1]);
                }
            }
            assert forall|a: int, b: int| 0 <= a <= b < all.len() implies (#[trigger] all[a]).pos
                <= (#[trigger] all[b]).pos by {
                if a > 0 {
                    assert(all[a] == rest[a - 1] && all[b] == rest[b - 1]);
                } else if b > 0 {
                    assert(all[b] == rest[b - 1]);
                }
            }
        } else {
            assert(all =~= rest);
        }
    }
}

/// Where the matches come from left to right, the blocks come in the order
/// of their first characters, each on the line that holds its first
/// character; so their line numbers never fall.
pub proof fn lemma_placed_in_order(text: Seq<char>, fences: Seq<MatchModel>, hunks: Seq<MatchModel>)
    requires
        left_to_right(fences),
        left_to_right(hunks),
    ensures
        in_order(text, placed(text, fences, hunks), 0),
        forall|i: int, j: int|
            0 <= i <= j < extracted(text, fences, hunks).len() ==> (#[trigger] extracted(
                text,
                fences,
                hunks,
            )[i]).source_line <= (#[trigger] extracted(text, fences, hunks)[j]).source_line,
{
    let fenced = fenced_blocks(text, fences);
    lemma_fences_in_order(text, fences);
    lemma_indented_in_order(text, 0);
    crate::text::lemma_byte_offset_monotonic(text, 0, segments(text)[0].0);
    lemma_segments_bounds(text, 0);
    let indented = indented_blocks(text);
    assert(in_order(text, indented, 0)) by {
        if 0 < lines_of(text).len() {
            assert(0 <= byte_offset(text, segments(text)[0].0));
        }
    }
    lemma_hunks_in_order(text, hunks);
    lemma_merged_in_order(text, fenced, indented, 0);
    lemma_merged_in_order(text, merged(fenced, indented), hunk_blocks(text, hunks), 0);
    let all = placed(text, fences, hunks);
    let blocks = extracted(text, fences, hunks);
    assert forall|i: int, j: int| 0 <= i <= j < blocks.len() implies (#[trigger] blocks[i]).source_line
        <= (#[trigger] blocks[j]).source_line by {
        assert(all[i].pos <= all[j].pos);
        lemma_line_at_monotonic(text, line_count(text), all[i].pos, all[j].pos);
    }
}

/// Whether every line between line `j` and line `s` is one that an indented
/// block runs through: a block that begins at line `j` runs up to line `s`.
pub open spec fn runs_into(lines: Seq<Seq<char>>, j: int, s: int) -> bool {
    forall|k: int| j < k < s ==> in_block(#[trigger] lines[k])
}

/// Whether an indented block begins at line `s` (counted from 0): the line can
/// begin a block, and no block that begins at an earlier line runs up to it.
pub open spec fn begins_run(lines: Seq<Seq<char>>, s: int) -> bool {
    &&& 0 <= s < lines.len()
    &&& opens_block(lines[s])
    &&& forall|j: int| 0 <= j < s && opens_block(#[trigger] lines[j]) ==> !runs_into(lines, j, s)
}

/// The indented block that begins at line `s` of `text`: the lines of its run
/// up to the last one that is not blank, each without its four leading
/// spaces, on line `s + 1`.
pub open spec fn run_block(text: Seq<char>, s: int) -> BlockModel {
    let lines = lines_of(text);
    BlockModel {
        content: body_text(lines, s, kept_end(lines, s, run_end(lines, s + 1))),
        language: None,
        source_line: s + 1,
    }
}

proof fn lemma_merged_contains(a: Seq<PlacedModel>, b: Seq<PlacedModel>, x: PlacedModel)
    requires
        a.contains(x) || b.contains(x),
    ensures
        merged(a, b).contains(x),
    decreases a.len() + b.len(),
{
    if a.len() > 0 && b.len() > 0 {
        let all = merged(a, b);
        if a[0].pos <= b[0].pos {
            if a[0] == x {
                assert(all[0] == x);
            } else {
                if a.contains(x) {
                    let i = choose|i: int| 0 <= i < a.len() && a[i] == x;
                    assert(a.drop_first()[i - 1] == x);
                }
                lemma_merged_contains(a.drop_first(), b, x);
                let rest = merged(a.drop_first(), b);
                let i = choose|i: int| 0 <= i < rest.len() && rest[i] == x;
                assert(all[i + 1] == x);
            }
        } else {
            if b[0] == x {
                assert(all[0] == x);
            } else {
                if b.contains(x) {
                    let i = choose|i: int| 0 <= i < b.len() && b[i] == x;
                    assert(b.drop_first()[i - 1] == x);
                }
                lemma_merged_contains(a, b.drop_first(), x);
                let rest = merged(a, b.drop_first());
                let i = choose|i: int| 0 <= i < rest.len() && rest[i] == x;
                assert(all[i + 1] == x);
            }
        }
    }
}

proof fn lemma_placed_is_extracted(
    text: Seq<char>,
    fences: Seq<MatchModel>,
    hunks: Seq<MatchModel>,
    x: PlacedModel,
)
    requires
        fenced_blocks(text, fences).contains(x) || indented_blocks(text).contains(x)
            || hunk_blocks(text, hunks).contains(x),
    ensures
        extracted(text, fences, hunks).contains(x.block),
{
    let first = merged(fenced_blocks(text, fences), indented_blocks(text));
    if !hunk_blocks(text, hunks).contains(x) {
        lemma_merged_contains(fenced_blocks(text, fences), indented_blocks(text), x);
    }
    lemma_merged_contains(first, hunk_blocks(text, hunks), x);
    let all = placed(text, fences, hunks);
    let i = choose|i: int| 0 <= i < all.len() && all[i] == x;
    assert(extracted(text, fences, hunks)[i] == x.block);
}

proof fn lemma_run_end_stops(lines: Seq<Seq<char>>, i: int, k: int)
    requires
        0 <= i <= k < lines.len(),
        !in_block(lines[k]),
    ensures
        run_end(lines, i) <= k,
    decreases k - i,
{
    if i < k && in_block(lines[i]) {
        lemma_run_end_stops(lines, i + 1, k);
    }
}

proof fn lemma_scan_reaches(text: Seq<char>, p: int, s: int, x: PlacedModel)
    requires
        0 <= p <= s,
        begins_run(lines_of(text), s),
        indented_from(text, s).contains(x),
    ensures
        indented_from(text, p).contains(x),
    decreases s - p,
{
    let lines = lines_of(text);
    if p < s {
        let next = if opens_block(lines[p]) {
            run_end(lines, p + 1)
        } else {
            p + 1
        };
        if opens_block(lines[p]) {
            assert(!runs_into(lines, p, s));
            let k = choose|k: int| p < k < s && !in_block(#[trigger] lines[k]);
            lemma_run_end_stops(lines, p + 1, k);
            lemma_run_end_bounds(lines, p + 1);
        }
        lemma_scan_reaches(text, next, s, x);
        let rest = indented_from(text, next);
        let all = indented_from(text, p);
        let i = choose|i: int| 0 <= i < rest.len() && rest[i] == x;
        if all.len() == rest.len() {
            assert(all =~= rest);
            assert(all[i] == x);
        } else {
            assert(all[i + 1] == x);
        }
    }
}

proof fn lemma_opener_is_kept(lines: Seq<Seq<char>>, s: int, j: int)
    requires
        0 <= s < j <= lines.len(),
        opens_block(lines[s]),
    ensures
        s < kept_end(lines, s, j) <= j,
    decreases j - s,
{
    let line = lines[s];
    assert(!blank(body_line(line))) by {
        let i = choose|i: int| 0 <= i < line.len() && !crate::text::is_space(#[trigger] line[i]);
        assert(i >= 4);
        assert(body_line(line)[i - 4] == line[i]);
    }
    if j > s + 1 && blank(body_line(lines[j - 1])) {
        lemma_opener_is_kept(lines, s, j - 1);
    }
}

/// An indented block that begins at a line of the text is among the blocks
/// extracted, whatever else the text holds: with no language, on that line,
/// and with the lines of its run up to the last one that is not blank, of
/// which there is at least the first.
pub proof fn lemma_indented_run_is_extracted(
    text: Seq<char>,
    fences: Seq<MatchModel>,
    hunks: Seq<MatchModel>,
    s: int,
)
    requires
        begins_run(lines_of(text), s),
    ensures
        extracted(text, fences, hunks).contains(run_block(text, s)),
        s < kept_end(lines_of(text), s, run_end(lines_of(text), s + 1)) <= lines_of(text).len(),
{
    let lines = lines_of(text);
    lemma_run_end_bounds(lines, s + 1);
    lemma_opener_is_kept(lines, s, run_end(lines, s + 1));
    let from_s = indented_from(text, s);
    let x = from_s[0];
    assert(x.block == run_block(text, s));
    assert(from_s.contains(x));
    lemma_scan_reaches(text, 0, s, x);
    lemma_placed_is_extracted(text, fences, hunks, x);
}

proof fn lemma_hunk_blocks_hold(text: Seq<char>, ms: Seq<MatchModel>, k: int, x: PlacedModel)
    requires
        0 <= k < ms.len(),
        hunk_block(text, ms[k]).contains(x),
    ensures
        hunk_blocks(text, ms).contains(x),
    decreases ms.len(),
{
    let before = hunk_blocks(text, ms.drop_last());
    let last = hunk_block(text, ms.last());
    let all = hunk_blocks(text, ms);
    if k == ms.len() - 1 {
        let i = choose|i: int| 0 <= i < last.len() && last[i] == x;
        assert(all[before.len() + i] == x);
    } else {
        assert(ms.drop_last()[k] == ms[k]);
        lemma_hunk_blocks_hold(text, ms.drop_last(), k, x);
        let i = choose|i: int| 0 <= i < before.len() && before[i] == x;
        assert(all[i] == x);
    }
}

proof fn lemma_fenced_blocks_hold(text: Seq<char>, ms: Seq<MatchModel>, k: int, x: PlacedModel)
    requires
        0 <= k < ms.len(),
        fence_block(text, ms[k]).contains(x),
    ensures
        fenced_blocks(text, ms).contains(x),
    decreases ms.len(),
{
    let before = fenced_blocks(text, ms.drop_last());
    let last = fence_block(text, ms.last());
    let all = fenced_blocks(text, ms);
    if k == ms.len() - 1 {
        let i = choose|i: int| 0 <= i < last.len() && last[i] == x;
        assert(all[before.len() + i] == x);
    } else {
        assert(ms.drop_last()[k] == ms[k]);
        lemma_fenced_blocks_hold(text, ms.drop_last(), k, x);
        let i = choose|i: int| 0 <= i < before.len() && before[i] == x;
        assert(all[i] == x);
    }
}

/// A hunk that the pattern finds inside the text gives one block where it
/// adds lines, and none where it adds none: the block holds the added lines of
/// the hunk's body and no other line, each without its `+` and followed by a
/// line feed, has the language `diff`, and stands on the line of the hunk's
/// header.
pub proof fn lemma_hunk_is_extracted(
    text: Seq<char>,
    fences: Seq<MatchModel>,
    hunks: Seq<MatchModel>,
    k: int,
)
    requires
        0 <= k < hunks.len(),
        starts_inside(text, hunks[k].start),
        hunks[k].group(1) is Some,
    ensures
        ({
            let lines = lines_of(hunks[k].group(1)->0);
            if added_count(lines, lines.len() as int) > 0 {
                extracted(text, fences, hunks).contains(
                    BlockModel {
                        content: added_text(lines, lines.len() as int),
                        language: Some(DIFF_TAG@),
                        source_line: line_at(text, hunks[k].start),
                    },
                )
            } else {
                hunk_block(text, hunks[k]).len() == 0
            }
        }),
{
    let lines = lines_of(hunks[k].group(1)->0);
    if added_count(lines, lines.len() as int) > 0 {
        let x = hunk_block(text, hunks[k])[0];
        assert(hunk_block(text, hunks[k]).contains(x));
        lemma_hunk_blocks_hold(text, hunks, k, x);
        lemma_placed_is_extracted(text, fences, hunks, x);
    }
}

/// A fence that the pattern finds inside the text gives one block: with the
/// content between its opener's line and its closer, the language tag of its
/// opener if it has one, on the line of its opener.
pub proof fn lemma_fence_is_extracted(
    text: Seq<char>,
    fences: Seq<MatchModel>,
    hunks: Seq<MatchModel>,
    k: int,
)
    requires
        0 <= k < fences.len(),
        starts_inside(text, fences[k].start),
    ensures
        extracted(text, fences, hunks).contains(fenced_block(text, fences[k]).block),
{
    let x = fenced_block(text, fences[k]);
    assert(fence_block(text, fences[k])[0] == x);
    assert(fence_block(text, fences[k]).contains(x));
    lemma_fenced_blocks_hold(text, fences, k, x);
    lemma_placed_is_extracted(text, fences, hunks, x);
}

/// The code blocks of `text`, from the matches of `FENCE_PATTERN` (`fences`)
/// and of `HUNK_PATTERN` (`hunks`) in it.
pub fn blocks_from_matches(
    text: &str,
    fences: &Vec<PatternMatch>,
    hunks: &Vec<PatternMatch>,
) -> (blocks: Vec<CodeBlock>)
    ensures
        block_models(blocks@) == extracted(text@, match_models(fences@), match_models(hunks@)),
        forall|i: int|
            0 <= i < blocks@.len() ==> 1 <= (#[trigger] blocks@[i]).source_line <= lines_of(
                text@,
            ).len(),
        text@.len() == 0 ==> blocks@.len() == 0,
{
    let (chars, segs) = scan(text);
    let total = len_in_bytes(text);
    let fenced = collect_fenced(fences, &segs, total, Ghost(text@));
    let indented = collect_indented(&chars, &segs);
    let diffs = collect_hunks(hunks, &segs, total, Ghost(text@));
    let first = merge(&fenced, &indented, Ghost(lines_of(text@).len() as int));
    let all = merge(&first, &diffs, Ghost(lines_of(text@).len() as int));
    let mut blocks: Vec<CodeBlock> = Vec::new();
    let mut i: usize = 0;
    while i < all.len()
        invariant
            i <= all.len(),
            blocks@.len() == i,
            forall|k: int| 0 <= k < i ==> (#[trigger] blocks@[k])@ == all@[k]@.block,
            forall|k: int|
                0 <= k < all@.len() ==> 1 <= (#[trigger] all@[k]).block.source_line <= lines_of(
                    text@,
                ).len(),
            forall|k: int|
                0 <= k < blocks@.len() ==> 1 <= (#[trigger] blocks@[k]).source_line <= lines_of(
                    text@,
                ).len(),
        decreases all.len() - i,
    {
        let p = copy_placed(&all[i]);
        blocks.push(p.block);
        i += 1;
    }
    assert(block_models(blocks@) =~= placed_models(all@).map_values(|p: PlacedModel| p.block));
    proof {
        if text@.len() == 0 {
            assert(segments(text@) =~= seq![(0int, 0int)]);
            assert(lines_of(text@).len() == 0);
            if blocks@.len() > 0 {
                assert(1 <= blocks@[0].source_line <= lines_of(text@).len());
            }
        }
    }
    blocks
}

/// Extracts the code blocks of markdown-style text: fenced blocks, blocks
/// indented by four spaces, and the added lines of unified-diff hunks.
///
/// The fenced blocks and the hunks are found by pattern; what the result is
/// for given matches is `extracted`. Every block starts on a line of the text.
pub fn extract_code_blocks(text: &str) -> (blocks: Vec<CodeBlock>)
    ensures
        block_models(blocks@) == extracted(
            text@,
            found(pattern_matches(FENCE_PATTERN@, text@)),
            found(pattern_matches(HUNK_PATTERN@, text@)),
        ),
        forall|i: int|
            0 <= i < blocks@.len() ==> 1 <= (#[trigger] blocks@[i]).source_line <= lines_of(
                text@,
            ).len(),
        text@.len() == 0 ==> blocks@.len() == 0,
        forall|i: int, j: int|
            0 <= i <= j < blocks@.len() ==> (#[trigger] blocks@[i]).source_line <= (
            #[trigger] blocks@[j]).source_line,
{
    let fences = match find_matches(FENCE_PATTERN, text) {
        Some(ms) => ms,
        None => Vec::new(),
    };
    let hunks = match find_matches(HUNK_PATTERN, text) {
        Some(ms) => ms,
        None => Vec::new(),
    };
    assert(match_models(Seq::<PatternMatch>::empty()) =~= Seq::<MatchModel>::empty());
    let blocks = blocks_from_matches(text, &fences, &hunks);
    proof {
        let models = extracted(text@, match_models(fences@), match_models(hunks@));
        lemma_placed_in_order(text@, match_models(fences@), match_models(hunks@));
        assert forall|i: int, j: int| 0 <= i <= j < blocks@.len() implies (
        #[trigger] blocks@[i]).source_line <= (#[trigger] blocks@[j]).source_line by {
            assert(models[i] == blocks@[i]@ && models[j] == blocks@[j]@);
            assert(models[i].source_line <= models[j].source_line);
        }
    }
    blocks
}

} // verus!

//! The evidence that the matching steps weigh: what the messages of a
//! conversation mention and hold, and what a commit changes.

use crate::cass::models::Message;
use crate::code_block::{extract_code_blocks, extracted, BlockModel, FENCE_PATTERN, HUNK_PATTERN};
use crate::file_paths::{extract_file_paths, holds_path, mentioned_paths};
use crate::matcher::step1::texts;
use crate::search::{found, pattern_matches};
use crate::text::{is_space, lines, lines_of, string_of, to_chars};
use vstd::prelude::*;

verus! {

/// The role of the messages that the assistant wrote.
pub const ASSISTANT: &'static str = "assistant";

/// The paths that a text mentions.
pub open spec fn mentioned_in(text: Seq<char>) -> Seq<Seq<char>> {
    mentioned_paths(text)
}

/// `seen`, and after it those of the first `k` of `paths` that it lacks.
pub open spec fn with_new(seen: Seq<Seq<char>>, paths: Seq<Seq<char>>, k: int) -> Seq<Seq<char>>
    decreases k,
{
    if k <= 0 {
        seen
    } else {
        let before = with_new(seen, paths, k - 1);
        if before.contains(paths[k - 1]) {
            before
        } else {
            before.push(paths[k - 1])
        }
    }
}

/// The paths that the first `k` messages mention, each path once, in the
/// order of first mention.
pub open spec fn mentions_upto(messages: Seq<Message>, k: int) -> Seq<Seq<char>>
    decreases k,
{
    if k <= 0 {
        Seq::empty()
    } else {
        let paths = mentioned_in(messages[k - 1].content@);
        with_new(mentions_upto(messages, k - 1), paths, paths.len() as int)
    }
}

/// The paths that the messages of a conversation mention.
pub open spec fn mentions(messages: Seq<Message>) -> Seq<Seq<char>> {
    mentions_upto(messages, messages.len() as int)
}

proof fn lemma_with_new_distinct(seen: Seq<Seq<char>>, paths: Seq<Seq<char>>, k: int)
    requires
        seen.no_duplicates(),
    ensures
        with_new(seen, paths, k).no_duplicates(),
    decreases k,
{
    if k > 0 {
        lemma_with_new_distinct(seen, paths, k - 1);
    }
}

/// No path occurs twice among the mentions of a conversation.
pub proof fn lemma_mentions_distinct(messages: Seq<Message>, k: int)
    ensures
        mentions_upto(messages, k).no_duplicates(),
    decreases k,
{
    if k > 0 {
        lemma_mentions_distinct(messages, k - 1);
        let paths = mentioned_in(messages[k - 1].content@);
        lemma_with_new_distinct(mentions_upto(messages, k - 1), paths, paths.len() as int);
    }
}

/// The file paths that the messages of a conversation mention, each once.
pub fn mentioned_files(messages: &Vec<Message>) -> (files: Vec<String>)
    ensures
        texts(files@) == mentions(messages@),
        texts(files@).no_duplicates(),
{
    let mut files: Vec<String> = Vec::new();
    let mut i: usize = 0;
    assert(texts(files@) =~= Seq::<Seq<char>>::empty());
    while i < messages.len()
        invariant
            i <= messages.len(),
            texts(files@) == mentions_upto(messages@, i as int),
        decreases messages.len() - i,
    {
        let paths = extract_file_paths(messages[i].content.as_str());
        let ghost seen = texts(files@);
        let ghost found_paths = texts(paths@);
        let mut k: usize = 0;
        while k < paths.len()
            invariant
                k <= paths.len(),
                found_paths == texts(paths@),
                texts(files@) == with_new(seen, found_paths, k as int),
            decreases paths.len() - k,
        {
            assert(found_paths[k as int] == paths@[k as int]@);
            if !holds_path(&files, &paths[k]) {
                let ghost before = texts(files@);
                files.push(paths[k].clone());
                assert(texts(files@) =~= before.push(paths@[k as int]@));
            }
            k += 1;
        }
        i += 1;
    }
    proof {
        lemma_mentions_distinct(messages@, messages@.len() as int);
    }
    files
}

/// The lines of the first `k` blocks, block after block.
pub open spec fn block_lines(blocks: Seq<BlockModel>, k: int) -> Seq<Seq<char>>
    decreases k,
{
    if k <= 0 {
        Seq::empty()
    } else {
        block_lines(blocks, k - 1) + lines_of(blocks[k - 1].content)
    }
}

/// The lines of the code blocks of a text.
pub open spec fn code_in(text: Seq<char>) -> Seq<Seq<char>> {
    let blocks = extracted(
        text,
        found(pattern_matches(FENCE_PATTERN@, text)),
        found(pattern_matches(HUNK_PATTERN@, text)),
    );
    block_lines(blocks, blocks.len() as int)
}

/// Whether the assistant wrote the message.
pub open spec fn by_assistant(message: Message) -> bool {
    message.role@ == ASSISTANT@
}

/// The lines of the code blocks of those of the first `k` messages that the
/// assistant wrote. What the user wrote did not come from the conversation.
pub open spec fn code_upto(messages: Seq<Message>, k: int) -> Seq<Seq<char>>
    decreases k,
{
    if k <= 0 {
        Seq::empty()
    } else if by_assistant(messages[k - 1]) {
        code_upto(messages, k - 1) + code_in(messages[k - 1].content@)
    } else {
        code_upto(messages, k - 1)
    }
}

/// The code lines of a conversation: the lines of the code blocks of the
/// messages that the assistant wrote.
pub open spec fn code_lines(messages: Seq<Message>) -> Seq<Seq<char>> {
    code_upto(messages, messages.len() as int)
}

/// Appends the lines of `text` to `all`.
fn push_lines(all: &mut Vec<String>, text: &str)
    ensures
        texts(final(all)@) == texts(old(all)@) + lines_of(text@),
{
    let new = lines(text);
    let ghost before = texts(all@);
    let mut k: usize = 0;
    assert(lines_of(text@).take(0) =~= Seq::<Seq<char>>::empty());
    while k < new.len()
        invariant
            k <= new.len(),
            new@.len() == lines_of(text@).len(),
            forall|j: int| 0 <= j < new@.len() ==> (#[trigger] new@[j])@ == lines_of(text@)[j],
            texts(all@) == before + lines_of(text@).take(k as int),
        decreases new.len() - k,
    {
        let ghost so_far = texts(all@);
        all.push(new[k].clone());
        assert(texts(all@) =~= so_far.push(new@[k as int]@));
        assert(lines_of(text@).take(k + 1) =~= lines_of(text@).take(k as int).push(
            lines_of(text@)[k as int],
        ));
        k += 1;
    }
    assert(lines_of(text@).take(new.len() as int) =~= lines_of(text@));
}

/// The lines of the code blocks of `text`.
pub fn code_lines_in(text: &str) -> (all: Vec<String>)
    ensures
        texts(all@) == code_in(text@),
{
    let blocks = extract_code_blocks(text);
    let ghost models = crate::code_block::block_models(blocks@);
    let mut all: Vec<String> = Vec::new();
    let mut i: usize = 0;
    assert(texts(all@) =~= Seq::<Seq<char>>::empty());
    while i < blocks.len()
        invariant
            i <= blocks.len(),
            models == crate::code_block::block_models(blocks@),
            texts(all@) == block_lines(models, i as int),
        decreases blocks.len() - i,
    {
        assert(models[i as int] == blocks@[i as int]@);
        push_lines(&mut all, blocks[i].content.as_str());
        i += 1;
    }
    all
}

/// The code lines of a conversation, from its messages.
pub fn assistant_code_lines(messages: &Vec<Message>) -> (all: Vec<String>)
    ensures
        texts(all@) == code_lines(messages@),
{
    let assistant = ASSISTANT.to_owned();
    let mut all: Vec<String> = Vec::new();
    let mut i: usize = 0;
    assert(texts(all@) =~= Seq::<Seq<char>>::empty());
    while i < messages.len()
        invariant
            i <= messages.len(),
            assistant@ == ASSISTANT@,
            texts(all@) == code_upto(messages@, i as int),
        decreases messages.len() - i,
    {
        if messages[i].role == assistant {
            let new = code_lines_in(messages[i].content.as_str());
            let ghost before = texts(all@);
            let mut k: usize = 0;
            assert(texts(new@).take(0) =~= Seq::<Seq<char>>::empty());
            while k < new.len()
                invariant
                    k <= new.len(),
                    texts(all@) == before + texts(new@).take(k as int),
                decreases new.len() - k,
            {
                let ghost so_far = texts(all@);
                all.push(new[k].clone());
                assert(texts(all@) =~= so_far.push(new@[k as int]@));
                assert(texts(new@).take(k + 1) =~= texts(new@).take(k as int).push(
                    new@[k as int]@,
                ));
                k += 1;
            }
            assert(texts(new@).take(new.len() as int) =~= texts(new@));
        }
        i += 1;
    }
    all
}

/// Where `s` ends once the white space at its end is dropped.
pub open spec fn trimmed_end(s: Seq<char>) -> int
    decreases s.len(),
{
    if s.len() == 0 || !is_space(s.last()) {
        s.len() as int
    } else {
        trimmed_end(s.drop_last())
    }
}

/// What a line of a patch gives to the diff lines of its commit: the content
/// of an added (`+`) or removed (`-`) line without the white space at its
/// end, and nothing for any other line.
pub open spec fn diff_line_of(origin: char, content: Seq<char>) -> Option<Seq<char>> {
    if origin == '+' || origin == '-' {
        Some(content.take(trimmed_end(content)))
    } else {
        None
    }
}

/// What a line of a patch, with the given origin mark and content, gives to
/// the diff lines of its commit.
pub fn diff_line(origin: char, content: &str) -> (line: Option<String>)
    ensures
        match line {
            Some(l) => diff_line_of(origin, content@) == Some(l@),
            None => diff_line_of(origin, content@) is None,
        },
{
    if origin == '+' || origin == '-' {
        let chars = to_chars(content);
        let mut end: usize = chars.len();
        assert(chars@.take(end as int) =~= chars@);
        while end > 0 && chars[end - 1].is_whitespace()
            invariant
                end <= chars.len(),
                trimmed_end(chars@) == trimmed_end(chars@.take(end as int)),
            decreases end,
        {
            assert(chars@.take(end as int).drop_last() =~= chars@.take(end - 1));
            end -= 1;
        }
        assert(trimmed_end(chars@.take(end as int)) == end);
        Some(string_of(&chars, 0, end))
    } else {
        None
    }
}

} // verus!

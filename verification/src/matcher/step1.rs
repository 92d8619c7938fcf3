//! Step 1: the first candidate that mentions a file of the commit.

use crate::confidence::Confidence;
use crate::matcher::gates::Conversation;
use crate::matcher::step0::MatchResult;
use vstd::prelude::*;

verus! {

/// Something that can say which files its conversation mentions.
pub trait FileMentions {
    /// Whether `files` can be what `file_mentions` reports. An implementation
    /// that says nothing of its answers leaves this as it is: anything can be.
    open spec fn reports(&self, files: Seq<Seq<char>>) -> bool {
        true
    }

    /// The file paths that the conversation mentions.
    fn file_mentions(&self) -> (files: Vec<String>)
        ensures
            self.reports(texts(files@)),
    ;
}

/// A conversation together with the file paths that its messages mention.
#[derive(Debug, Clone)]
pub struct ConversationWithFiles {
    pub conversation: Conversation,
    pub mentioned_files: Vec<String>,
}

impl FileMentions for ConversationWithFiles {
    open spec fn reports(&self, files: Seq<Seq<char>>) -> bool {
        files == texts(self.mentioned_files@)
    }

    fn file_mentions(&self) -> (files: Vec<String>) {
        copy_strings(&self.mentioned_files)
    }
}

/// A copy of a list of strings.
pub fn copy_strings(strings: &Vec<String>) -> (copy: Vec<String>)
    ensures
        texts(copy@) == texts(strings@),
{
    let mut copy: Vec<String> = Vec::new();
    let mut i: usize = 0;
    while i < strings.len()
        invariant
            i <= strings.len(),
            copy@.len() == i,
            forall|k: int| 0 <= k < i ==> (#[trigger] copy@[k])@ == strings@[k]@,
        decreases strings.len() - i,
    {
        copy.push(strings[i].clone());
        i += 1;
    }
    assert(texts(copy@) =~= texts(strings@));
    copy
}

/// The texts of a list of strings.
pub open spec fn texts(strings: Seq<String>) -> Seq<Seq<char>> {
    strings.map_values(|s: String| s@)
}

/// Number of the first `k` mentions that are files of the commit.
pub open spec fn overlap_upto(mentions: Seq<Seq<char>>, files: Seq<Seq<char>>, k: int) -> int
    decreases k,
{
    if k <= 0 {
        0
    } else {
        overlap_upto(mentions, files, k - 1) + if files.contains(mentions[k - 1]) {
            1int
        } else {
            0int
        }
    }
}

/// Number of the mentions that are files of the commit. A path mentioned
/// twice counts twice: a conversation's mentions are meant to be a set.
pub open spec fn overlap(mentions: Seq<Seq<char>>, files: Seq<Seq<char>>) -> int {
    overlap_upto(mentions, files, mentions.len() as int)
}

/// The confidence of step 1 for a given overlap: `0.85 + 0.05 * min(overlap, 3)`,
/// in twentieths.
pub open spec fn step1_confidence(overlap: int) -> Confidence {
    Confidence {
        numerator: (17 + if overlap < 3 {
            overlap
        } else {
            3
        }) as u128,
        denominator: 20,
    }
}

/// The result of step 1 for a candidate with the given overlap: none without
/// overlap.
pub open spec fn step1_for(conversation: Conversation, overlap: int) -> Option<MatchResult> {
    if overlap >= 1 {
        Some(MatchResult { conversation, confidence: step1_confidence(overlap), step: 1 })
    } else {
        None
    }
}

/// What step 1 makes of the candidates from index `i` on: the result for the
/// first of them that has an overlap.
pub open spec fn step1_from(
    conversations: Seq<Conversation>,
    mentions: Seq<Seq<Seq<char>>>,
    files: Seq<Seq<char>>,
    i: int,
) -> Option<MatchResult>
    decreases mentions.len() - i,
{
    if i < 0 || i >= mentions.len() {
        None
    } else if overlap(mentions[i], files) >= 1 {
        step1_for(conversations[i], overlap(mentions[i], files))
    } else {
        step1_from(conversations, mentions, files, i + 1)
    }
}

/// What step 1 makes of the candidates, given in the catalogue's order, each
/// as its conversation and its mentions: nothing where the commit changes no
/// file.
pub open spec fn step1_result(
    conversations: Seq<Conversation>,
    mentions: Seq<Seq<Seq<char>>>,
    files: Seq<Seq<char>>,
) -> Option<MatchResult> {
    if files.len() == 0 {
        None
    } else {
        step1_from(conversations, mentions, files, 0)
    }
}

/// Whether `path` is one of `files`.
fn is_among(files: &[String], path: &String) -> (b: bool)
    ensures
        b == texts(files@).contains(path@),
{
    let mut i: usize = 0;
    while i < files.len()
        invariant
            i <= files.len(),
            forall|k: int| 0 <= k < i ==> texts(files@)[k] != path@,
        decreases files.len() - i,
    {
        if files[i] == *path {
            assert(texts(files@)[i as int] == path@);
            return true;
        }
        i += 1;
    }
    false
}

/// Number of the paths in `mentioned` that are among `commit_files`.
pub fn count_overlap(mentioned: &Vec<String>, commit_files: &[String]) -> (n: usize)
    ensures
        n == overlap(texts(mentioned@), texts(commit_files@)),
{
    let mut n: usize = 0;
    let mut k: usize = 0;
    while k < mentioned.len()
        invariant
            k <= mentioned.len(),
            n <= k,
            n == overlap_upto(texts(mentioned@), texts(commit_files@), k as int),
        decreases mentioned.len() - k,
    {
        if is_among(commit_files, &mentioned[k]) {
            n += 1;
        }
        k += 1;
    }
    n
}

/// The result of step 1 for a candidate of which `overlap` mentions are files
/// of the commit.
pub fn result_for_overlap(conversation: Conversation, overlap: usize) -> (r: Option<MatchResult>)
    ensures
        r == step1_for(conversation, overlap as int),
{
    if overlap >= 1 {
        let bonus: u128 = if overlap < 3 {
            overlap as u128
        } else {
            3
        };
        Some(
            MatchResult {
                conversation,
                confidence: Confidence { numerator: 17 + bonus, denominator: 20 },
                step: 1,
            },
        )
    } else {
        None
    }
}

/// Whether `candidate` can report mentions of which none is a file of the
/// commit.
pub open spec fn reports_nothing<C: FileMentions>(candidate: C, files: Seq<Seq<char>>) -> bool {
    exists|mentioned: Seq<Seq<char>>|
        #[trigger] candidate.reports(mentioned) && overlap(mentioned, files) == 0
}

/// Whether `candidate` can report mentions for which step 1 gives `result`.
pub open spec fn reports_match<C: FileMentions>(
    candidate: C,
    conversation: Conversation,
    files: Seq<Seq<char>>,
    result: MatchResult,
) -> bool {
    exists|mentioned: Seq<Seq<char>>|
        #[trigger] candidate.reports(mentioned) && step1_for(
            conversation,
            overlap(mentioned, files),
        ) == Some(result)
}

/// Step 1: tells the candidates apart by the files they mention. The first
/// candidate, in the order given, that mentions a file of the commit is the
/// match; its confidence grows with the number of such mentions, up to three.
///
/// What a candidate mentions is for its `file_mentions` to report. There is a
/// match exactly when the commit changes files and some candidate reports a
/// mention of one of them: the match is made from what the first such
/// candidate reported, and the candidates before it reported no such mention.
/// For candidates that carry their mentions this is `step1_result`, which
/// `match_step1_simple` returns.
pub fn match_step1<C: FileMentions + Clone>(
    candidates: &[(C, Conversation)],
    commit_files: &[String],
) -> (r: Option<MatchResult>)
    ensures
        commit_files@.len() == 0 ==> r is None,
        candidates@.len() == 0 ==> r is None,
        match r {
            Some(m) => exists|i: int|
                {
                    &&& 0 <= i < candidates@.len()
                    &&& #[trigger] reports_match(
                        candidates@[i].0,
                        candidates@[i].1,
                        texts(commit_files@),
                        m,
                    )
                    &&& forall|j: int|
                        0 <= j < i ==> #[trigger] reports_nothing(
                            candidates@[j].0,
                            texts(commit_files@),
                        )
                },
            None => commit_files@.len() == 0 || forall|j: int|
                0 <= j < candidates@.len() ==> #[trigger] reports_nothing(
                    candidates@[j].0,
                    texts(commit_files@),
                ),
        },
{
    if commit_files.len() == 0 {
        return None;
    }
    let mut i: usize = 0;
    while i < candidates.len()
        invariant
            i <= candidates.len(),
            commit_files@.len() > 0,
            forall|j: int|
                0 <= j < i ==> #[trigger] reports_nothing(candidates@[j].0, texts(commit_files@)),
        decreases candidates.len() - i,
    {
        let mentioned = candidates[i].0.file_mentions();
        let overlap = count_overlap(&mentioned, commit_files);
        if overlap >= 1 {
            let r = result_for_overlap(candidates[i].1, overlap);
            assert(reports_match(
                candidates@[i as int].0,
                candidates@[i as int].1,
                texts(commit_files@),
                r->0,
            )) by {
                assert(candidates@[i as int].0.reports(texts(mentioned@)));
            }
            return r;
        }
        assert(reports_nothing(candidates@[i as int].0, texts(commit_files@))) by {
            assert(candidates@[i as int].0.reports(texts(mentioned@)));
        }
        i += 1;
    }
    None
}

/// The conversations of a list of candidates.
pub open spec fn conversations_of(candidates: Seq<ConversationWithFiles>) -> Seq<Conversation> {
    candidates.map_values(|c: ConversationWithFiles| c.conversation)
}

/// The mentions of a list of candidates.
pub open spec fn mentions_of(candidates: Seq<ConversationWithFiles>) -> Seq<Seq<Seq<char>>> {
    candidates.map_values(|c: ConversationWithFiles| texts(c.mentioned_files@))
}

/// Step 1 on candidates that carry their mentions.
pub fn match_step1_simple(candidates: &[ConversationWithFiles], commit_files: &[String]) -> (r:
    Option<MatchResult>)
    ensures
        r == step1_result(
            conversations_of(candidates@),
            mentions_of(candidates@),
            texts(commit_files@),
        ),
{
    if commit_files.len() == 0 {
        return None;
    }
    let ghost conversations = conversations_of(candidates@);
    let ghost mentions = mentions_of(candidates@);
    let ghost files = texts(commit_files@);
    let mut i: usize = 0;
    while i < candidates.len()
        invariant
            i <= candidates.len(),
            conversations == conversations_of(candidates@),
            mentions == mentions_of(candidates@),
            files == texts(commit_files@),
            files.len() > 0,
            step1_from(conversations, mentions, files, 0) == step1_from(
                conversations,
                mentions,
                files,
                i as int,
            ),
        decreases candidates.len() - i,
    {
        let overlap = count_overlap(&candidates[i].mentioned_files, commit_files);
        assert(mentions[i as int] == texts(candidates@[i as int].mentioned_files@));
        assert(conversations[i as int] == candidates@[i as int].conversation);
        if overlap >= 1 {
            return result_for_overlap(candidates[i].conversation, overlap);
        }
        i += 1;
    }
    None
}

/// Every result of step 1 has confidence 0.90, 0.95 or 1.00, and comes from
/// the first candidate that mentions a file of the commit.
pub proof fn lemma_step1(
    conversations: Seq<Conversation>,
    mentions: Seq<Seq<Seq<char>>>,
    files: Seq<Seq<char>>,
)
    requires
        conversations.len() == mentions.len(),
    ensures
        step1_result(conversations, mentions, files) matches Some(m) ==> {
            &&& m.step == 1
            &&& m.confidence.wf()
            &&& (m.confidence.equals(90, 100) || m.confidence.equals(95, 100)
                || m.confidence.equals(100, 100))
            &&& exists|i: int|
                0 <= i < mentions.len() && m.conversation == conversations[i] && overlap(
                    mentions[i],
                    files,
                ) >= 1 && forall|j: int| 0 <= j < i ==> overlap(#[trigger] mentions[j], files) == 0
        },
        step1_result(conversations, mentions, files) is None ==> files.len() == 0 || forall|
            j: int,
        |
            0 <= j < mentions.len() ==> overlap(#[trigger] mentions[j], files) == 0,
{
    if files.len() > 0 {
        lemma_step1_from(conversations, mentions, files, 0);
    }
}

proof fn lemma_overlap_upto(mentions: Seq<Seq<char>>, files: Seq<Seq<char>>, k: int)
    requires
        mentions.no_duplicates(),
        0 <= k <= mentions.len(),
    ensures
        overlap_upto(mentions, files, k) == mentions.take(k).to_set().intersect(
            files.to_set(),
        ).len(),
    decreases k,
{
    if k == 0 {
        assert(mentions.take(0).to_set().intersect(files.to_set()) =~= Set::<Seq<char>>::empty());
    } else {
        lemma_overlap_upto(mentions, files, k - 1);
        let before = mentions.take(k - 1);
        let path = mentions[k - 1];
        assert(mentions.take(k) =~= before.push(path));
        before.lemma_push_to_set_commute(path);
        vstd::seq_lib::seq_to_set_is_finite(before);
        assert(!before.contains(path)) by {
            if before.contains(path) {
                let j = choose|j: int| 0 <= j < before.len() && before[j] == path;
                assert(mentions[j] == mentions[k - 1]);
            }
        }
        let shared = before.to_set().intersect(files.to_set());
        if files.contains(path) {
            assert(before.to_set().insert(path).intersect(files.to_set()) =~= shared.insert(path));
        } else {
            assert(before.to_set().insert(path).intersect(files.to_set()) =~= shared);
        }
    }
}

/// Where no path is mentioned twice, the overlap is the number of paths that
/// are both mentioned and changed.
pub proof fn lemma_overlap_of_sets(mentions: Seq<Seq<char>>, files: Seq<Seq<char>>)
    requires
        mentions.no_duplicates(),
    ensures
        overlap(mentions, files) == mentions.to_set().intersect(files.to_set()).len(),
{
    lemma_overlap_upto(mentions, files, mentions.len() as int);
    assert(mentions.take(mentions.len() as int) =~= mentions);
}

proof fn lemma_overlap_nonnegative(mentions: Seq<Seq<char>>, files: Seq<Seq<char>>, k: int)
    ensures
        overlap_upto(mentions, files, k) >= 0,
    decreases k,
{
    if k > 0 {
        lemma_overlap_nonnegative(mentions, files, k - 1);
    }
}

proof fn lemma_step1_from(
    conversations: Seq<Conversation>,
    mentions: Seq<Seq<Seq<char>>>,
    files: Seq<Seq<char>>,
    i: int,
)
    requires
        conversations.len() == mentions.len(),
        0 <= i <= mentions.len(),
    ensures
        step1_from(conversations, mentions, files, i) matches Some(m) ==> {
            &&& m.step == 1
            &&& m.confidence.wf()
            &&& (m.confidence.equals(90, 100) || m.confidence.equals(95, 100)
                || m.confidence.equals(100, 100))
            &&& exists|k: int|
                i <= k < mentions.len() && m.conversation == conversations[k] && overlap(
                    mentions[k],
                    files,
                ) >= 1 && forall|j: int| i <= j < k ==> overlap(#[trigger] mentions[j], files) == 0
        },
        step1_from(conversations, mentions, files, i) is None ==> forall|j: int|
            i <= j < mentions.len() ==> overlap(#[trigger] mentions[j], files) == 0,
    decreases mentions.len() - i,
{
    if i < mentions.len() {
        lemma_overlap_nonnegative(mentions[i], files, mentions[i].len() as int);
        if overlap(mentions[i], files) >= 1 {
        } else {
            lemma_step1_from(conversations, mentions, files, i + 1);
        }
    }
}

} // verus!

//! Step 2: the candidate whose code shares most lines with the commit's diff.
//!
//! Lines are compared by the hash of their normalised form, so that white
//! space makes no difference.

use crate::confidence::Confidence;
use crate::matcher::gates::Conversation;
use crate::matcher::step0::MatchResult;
use crate::matcher::step1::{copy_strings, texts};
use crate::text::{normalize, normalized};
use std::collections::HashSet;
use vstd::prelude::*;

verus! {

broadcast use vstd::std_specs::hash::group_hash_axioms;

/// Something that can hand out the code lines of its conversation.
pub trait CodeBlockLines {
    /// Whether `lines` can be what `code_block_lines` hands out. An
    /// implementation that says nothing of its answers leaves this as it is:
    /// anything can be.
    open spec fn hands_out(&self, lines: Seq<Seq<char>>) -> bool {
        true
    }

    /// The lines of the code blocks of the conversation.
    fn code_block_lines(&self) -> (lines: Vec<String>)
        ensures
            self.hands_out(texts(lines@)),
    ;
}

/// A conversation together with the lines of the code blocks that the
/// assistant wrote in it.
#[derive(Debug, Clone)]
pub struct ConversationWithCode {
    pub conversation: Conversation,
    pub code_lines: Vec<String>,
}

impl CodeBlockLines for ConversationWithCode {
    open spec fn hands_out(&self, lines: Seq<Seq<char>>) -> bool {
        lines == texts(self.code_lines@)
    }

    fn code_block_lines(&self) -> (lines: Vec<String>) {
        copy_strings(&self.code_lines)
    }
}

/// The 64-bit Fx hash of a string, as `fxhash::hash64` computes it on the
/// machine that runs.
pub uninterp spec fn fx_hash64(s: Seq<char>) -> u64;

/// `fxhash::hash64` on a string. Believed, not proved: the hasher starts from
/// a fixed state and takes no seed, so that on one machine the hash is a
/// function of the string's characters alone, which `fx_hash64` names. The
/// hasher reads its input in words of the machine's byte order: machines of
/// different byte order give different hashes, and `fx_hash64` stands for
/// those of the machine that runs. Hashes are compared with one another
/// within one call and never kept.
#[verifier::external_body]
fn fx_hash(s: &String) -> (h: u64)
    ensures
        h == fx_hash64(s@),
{
    fxhash::hash64(s)
}

/// The hash by which a line is compared: that of its normalised form.
pub open spec fn line_hash(line: Seq<char>) -> u64 {
    fx_hash64(normalized(line))
}

/// The hash of `line` once its white space is normalised: lines that differ
/// only in white space have the same hash.
pub fn hash_normalized(line: &str) -> (h: u64)
    ensures
        h == line_hash(line@),
{
    let normal = normalize(line);
    fx_hash(&normal)
}

/// The set of the hashes of some lines.
pub open spec fn hashes(lines: Seq<Seq<char>>) -> Set<u64> {
    lines.map_values(|l: Seq<char>| line_hash(l)).to_set()
}

/// Number of distinct line hashes that a diff and a conversation's code share.
pub open spec fn shared(diff: Seq<Seq<char>>, code: Seq<Seq<char>>) -> int {
    hashes(diff).intersect(hashes(code)).len() as int
}

/// A candidate is eligible when it shares more than half of the diff's
/// `total` distinct line hashes.
pub open spec fn eligible(shared: int, total: int) -> bool {
    2 * shared > total
}

/// The confidence of step 2: `0.8 + 0.2 * shared / total`.
pub open spec fn step2_confidence(shared: int, total: int) -> Confidence {
    Confidence { numerator: (4 * total + shared) as u128, denominator: (5 * total) as u128 }
}

/// Index of the best among the first `k` candidates, given how much each
/// shares with the diff: the eligible candidate that shares most, which is the
/// one of highest confidence, and the first such.
pub open spec fn best_upto(overlaps: Seq<int>, total: int, k: int) -> Option<int>
    decreases k,
{
    if k <= 0 {
        None
    } else {
        let prev = best_upto(overlaps, total, k - 1);
        let here = overlaps[k - 1];
        let better = match prev {
            Some(p) => here > overlaps[p],
            None => true,
        };
        if eligible(here, total) && better {
            Some(k - 1)
        } else {
            prev
        }
    }
}

/// What step 2 makes of the candidates, given how many of the diff's `total`
/// distinct line hashes each shares.
pub open spec fn step2_for(
    conversations: Seq<Conversation>,
    overlaps: Seq<int>,
    total: int,
) -> Option<MatchResult> {
    match best_upto(overlaps, total, overlaps.len() as int) {
        Some(i) => Some(
            MatchResult {
                conversation: conversations[i],
                confidence: step2_confidence(overlaps[i], total),
                step: 2,
            },
        ),
        None => None,
    }
}

/// How many of the diff's distinct line hashes each candidate shares.
pub open spec fn overlaps_of(code: Seq<Seq<Seq<char>>>, diff: Seq<Seq<char>>) -> Seq<int> {
    Seq::new(code.len(), |i: int| shared(diff, code[i]))
}

/// What step 2 makes of the candidates, each given as its conversation and
/// its code lines, and of the lines of the commit's diff: nothing without
/// diff lines or without candidates.
pub open spec fn step2_result(
    conversations: Seq<Conversation>,
    code: Seq<Seq<Seq<char>>>,
    diff: Seq<Seq<char>>,
) -> Option<MatchResult> {
    if diff.len() == 0 || code.len() == 0 {
        None
    } else {
        step2_for(conversations, overlaps_of(code, diff), hashes(diff).len() as int)
    }
}

proof fn lemma_hashes_finite(lines: Seq<Seq<char>>)
    ensures
        hashes(lines).finite(),
        lines.len() == 0 ==> hashes(lines) == Set::<u64>::empty(),
        lines.len() > 0 ==> hashes(lines).len() > 0,
{
    let f = |l: Seq<char>| line_hash(l);
    let a = lines.map_values(f);
    vstd::seq_lib::seq_to_set_is_finite(a);
    a.lemma_cardinality_of_empty_set_is_0();
    if lines.len() == 0 {
        assert(a.to_set() =~= Set::<u64>::empty());
    }
}

/// The hashes of `lines`, line by line.
pub fn hash_lines(lines: &[String]) -> (all: Vec<u64>)
    ensures
        all@ == texts(lines@).map_values(|l: Seq<char>| line_hash(l)),
{
    let mut all: Vec<u64> = Vec::new();
    let mut i: usize = 0;
    while i < lines.len()
        invariant
            i <= lines.len(),
            all@.len() == i,
            forall|k: int| 0 <= k < i ==> all@[k] == line_hash(#[trigger] lines@[k]@),
        decreases lines.len() - i,
    {
        all.push(hash_normalized(lines[i].as_str()));
        i += 1;
    }
    assert(all@ =~= texts(lines@).map_values(|l: Seq<char>| line_hash(l)));
    all
}

/// The distinct values of `hashes`, each once, in the order of their first
/// occurrence.
pub fn distinct(hashes: &[u64]) -> (once: Vec<u64>)
    ensures
        once@.no_duplicates(),
        once@.to_set() == hashes@.to_set(),
        once@.len() == hashes@.to_set().len(),
{
    let mut seen: HashSet<u64> = HashSet::new();
    let mut once: Vec<u64> = Vec::new();
    let mut i: usize = 0;
    proof {
        assert(hashes@.take(0).to_set() =~= Set::<u64>::empty());
        assert(once@.to_set() =~= Set::<u64>::empty());
    }
    while i < hashes.len()
        invariant
            i <= hashes.len(),
            seen@ == hashes@.take(i as int).to_set(),
            once@.no_duplicates(),
            once@.to_set() == seen@,
        decreases hashes.len() - i,
    {
        let h = hashes[i];
        proof {
            assert(hashes@.take(i + 1) =~= hashes@.take(i as int).push(h));
            hashes@.take(i as int).lemma_push_to_set_commute(h);
        }
        if seen.insert(h) {
            proof {
                once@.lemma_push_to_set_commute(h);
                assert(!once@.contains(h));
            }
            once.push(h);
        } else {
            assert(seen@.insert(h) =~= seen@);
        }
        i += 1;
    }
    assert(hashes@.take(hashes.len() as int) =~= hashes@);
    proof {
        once@.unique_seq_to_set();
    }
    once
}

/// Number of the values of `once`, a list without duplicates, that occur in
/// `others`.
fn count_shared(once: &Vec<u64>, others: &[u64]) -> (n: usize)
    requires
        once@.no_duplicates(),
    ensures
        n == once@.to_set().intersect(others@.to_set()).len(),
        n <= once@.len(),
{
    let mut set: HashSet<u64> = HashSet::new();
    let mut i: usize = 0;
    proof {
        assert(others@.take(0).to_set() =~= Set::<u64>::empty());
    }
    while i < others.len()
        invariant
            i <= others.len(),
            set@ == others@.take(i as int).to_set(),
        decreases others.len() - i,
    {
        proof {
            assert(others@.take(i + 1) =~= others@.take(i as int).push(others@[i as int]));
            others@.take(i as int).lemma_push_to_set_commute(others@[i as int]);
        }
        set.insert(others[i]);
        i += 1;
    }
    assert(others@.take(others.len() as int) =~= others@);
    let mut n: usize = 0;
    let mut k: usize = 0;
    proof {
        assert(once@.take(0).to_set().intersect(set@) =~= Set::<u64>::empty());
    }
    while k < once.len()
        invariant
            k <= once.len(),
            n <= k,
            once@.no_duplicates(),
            set@ == others@.to_set(),
            n == once@.take(k as int).to_set().intersect(set@).len(),
        decreases once.len() - k,
    {
        let h = once[k];
        proof {
            let before = once@.take(k as int);
            assert(once@.take(k + 1) =~= before.push(h));
            before.lemma_push_to_set_commute(h);
            vstd::seq_lib::seq_to_set_is_finite(before);
            assert(!before.contains(h));
            let old_shared = before.to_set().intersect(set@);
            if set@.contains(h) {
                assert(before.to_set().insert(h).intersect(set@) =~= old_shared.insert(h));
            } else {
                assert(before.to_set().insert(h).intersect(set@) =~= old_shared);
            }
        }
        if set.contains(&h) {
            n += 1;
        }
        k += 1;
    }
    assert(once@.take(once.len() as int) =~= once@);
    n
}

/// The conversations of a list of candidates with their overlaps.
pub open spec fn rated_conversations(rated: Seq<(Conversation, usize)>) -> Seq<Conversation> {
    rated.map_values(|r: (Conversation, usize)| r.0)
}

/// The overlaps of a list of candidates with their overlaps.
pub open spec fn rated_overlaps(rated: Seq<(Conversation, usize)>) -> Seq<int> {
    rated.map_values(|r: (Conversation, usize)| r.1 as int)
}

/// Step 2 on candidates whose overlap with the diff is known: `rated` holds
/// each candidate with the number of distinct lines of the diff that it
/// shares, `total` is the number of distinct lines of the diff.
pub fn match_overlaps(rated: &[(Conversation, usize)], total: usize) -> (r: Option<MatchResult>)
    ensures
        r == step2_for(rated_conversations(rated@), rated_overlaps(rated@), total as int),
{
    let ghost conversations = rated_conversations(rated@);
    let ghost overlaps = rated_overlaps(rated@);
    let mut best: Option<(usize, usize)> = None;
    let mut i: usize = 0;
    while i < rated.len()
        invariant
            i <= rated.len(),
            overlaps == rated_overlaps(rated@),
            match best {
                Some((at, count)) => best_upto(overlaps, total as int, i as int) == Some(at as int)
                    && at < i && count == overlaps[at as int],
                None => best_upto(overlaps, total as int, i as int) is None,
            },
        decreases rated.len() - i,
    {
        let count = rated[i].1;
        let better = match best {
            Some((_, most)) => count > most,
            None => true,
        };
        if 2 * (count as u128) > total as u128 && better {
            best = Some((i, count));
        }
        i += 1;
    }
    match best {
        Some((at, count)) => {
            Some(
                MatchResult {
                    conversation: rated[at].0,
                    confidence: Confidence {
                        numerator: 4 * (total as u128) + count as u128,
                        denominator: 5 * (total as u128),
                    },
                    step: 2,
                },
            )
        },
        None => None,
    }
}

/// The conversations of a list of candidates.
pub open spec fn conversations_of(candidates: Seq<ConversationWithCode>) -> Seq<Conversation> {
    candidates.map_values(|c: ConversationWithCode| c.conversation)
}

/// The code lines of a list of candidates.
pub open spec fn code_of(candidates: Seq<ConversationWithCode>) -> Seq<Seq<Seq<char>>> {
    candidates.map_values(|c: ConversationWithCode| texts(c.code_lines@))
}

/// Step 2: tells the candidates apart by the code they hold. A candidate is
/// eligible when its code lines share more than half of the distinct lines of
/// the diff; the eligible candidate of highest confidence is the match, the
/// first of them where several are equal.
pub fn match_step2(candidates: &[ConversationWithCode], diff_lines: &[String]) -> (r: Option<
    MatchResult,
>)
    ensures
        r == step2_result(conversations_of(candidates@), code_of(candidates@), texts(diff_lines@)),
{
    if diff_lines.len() == 0 || candidates.len() == 0 {
        return None;
    }
    let ghost conversations = conversations_of(candidates@);
    let ghost code = code_of(candidates@);
    let ghost diff = texts(diff_lines@);
    let diff_hashes = hash_lines(diff_lines);
    let once = distinct(diff_hashes.as_slice());
    let mut rated: Vec<(Conversation, usize)> = Vec::new();
    let mut i: usize = 0;
    while i < candidates.len()
        invariant
            i <= candidates.len(),
            conversations == conversations_of(candidates@),
            code == code_of(candidates@),
            diff == texts(diff_lines@),
            once@.no_duplicates(),
            once@.to_set() == hashes(diff),
            rated@.len() == i,
            forall|k: int|
                0 <= k < i ==> (#[trigger] rated@[k]).0 == conversations[k] && rated@[k].1
                    == shared(diff, code[k]),
        decreases candidates.len() - i,
    {
        let code_hashes = hash_lines(candidates[i].code_lines.as_slice());
        assert(code[i as int] == texts(candidates@[i as int].code_lines@));
        let count = count_shared(&once, code_hashes.as_slice());
        rated.push((candidates[i].conversation, count));
        i += 1;
    }
    assert(rated_conversations(rated@) =~= conversations);
    assert(rated_overlaps(rated@) =~= overlaps_of(code, diff));
    match_overlaps(rated.as_slice(), once.len())
}

proof fn lemma_shared_bounds(diff: Seq<Seq<char>>, code: Seq<Seq<char>>)
    ensures
        0 <= shared(diff, code) <= hashes(diff).len(),
{
    lemma_hashes_finite(diff);
    vstd::set_lib::lemma_len_intersect(hashes(diff), hashes(code));
}

proof fn lemma_best_upto(overlaps: Seq<int>, total: int, k: int)
    requires
        0 <= k <= overlaps.len(),
    ensures
        match best_upto(overlaps, total, k) {
            Some(i) => {
                &&& 0 <= i < k
                &&& eligible(overlaps[i], total)
                &&& forall|j: int|
                    0 <= j < k && eligible(#[trigger] overlaps[j], total) ==> overlaps[j]
                        <= overlaps[i]
                &&& forall|j: int|
                    0 <= j < i && eligible(#[trigger] overlaps[j], total) ==> overlaps[j]
                        < overlaps[i]
            },
            None => forall|j: int| 0 <= j < k ==> !eligible(#[trigger] overlaps[j], total),
        },
    decreases k,
{
    if k > 0 {
        lemma_best_upto(overlaps, total, k - 1);
    }
}

/// Every result of step 2 comes from a candidate that shares more than half
/// of the diff's distinct lines: from the first among those that share most.
/// No result means that no candidate is eligible.
pub proof fn lemma_step2_for(conversations: Seq<Conversation>, overlaps: Seq<int>, total: int)
    ensures
        match step2_for(conversations, overlaps, total) {
            Some(m) => exists|i: int|
                {
                    &&& 0 <= i < overlaps.len()
                    &&& m == (MatchResult {
                        conversation: conversations[i],
                        confidence: step2_confidence(overlaps[i], total),
                        step: 2,
                    })
                    &&& eligible(#[trigger] overlaps[i], total)
                    &&& forall|j: int|
                        0 <= j < overlaps.len() && eligible(#[trigger] overlaps[j], total)
                            ==> overlaps[j] <= overlaps[i]
                    &&& forall|j: int|
                        0 <= j < i && eligible(#[trigger] overlaps[j], total) ==> overlaps[j]
                            < overlaps[i]
                },
            None => forall|j: int|
                0 <= j < overlaps.len() ==> !eligible(#[trigger] overlaps[j], total),
        },
{
    lemma_best_upto(overlaps, total, overlaps.len() as int);
}

/// Every result of step 2 comes from a candidate that shares more than half
/// of the diff's distinct lines, and its confidence is above 0.9 and at most
/// 1. The candidate is the first among those of highest confidence; no result
/// means that there are no diff lines or that no candidate is eligible.
pub proof fn lemma_step2(
    conversations: Seq<Conversation>,
    code: Seq<Seq<Seq<char>>>,
    diff: Seq<Seq<char>>,
)
    requires
        conversations.len() == code.len(),
        diff.len() <= usize::MAX,
    ensures
        step2_result(conversations, code, diff) matches Some(m) ==> {
            &&& m.step == 2
            &&& m.confidence.wf()
            &&& m.confidence.above(9, 10)
            &&& m.confidence.at_most(1, 1)
            &&& exists|i: int|
                {
                    &&& 0 <= i < code.len()
                    &&& m.conversation == conversations[i]
                    &&& m.confidence == step2_confidence(
                        shared(diff, code[i]),
                        hashes(diff).len() as int,
                    )
                    &&& eligible(#[trigger] shared(diff, code[i]), hashes(diff).len() as int)
                    &&& forall|j: int|
                        0 <= j < code.len() && eligible(
                            #[trigger] shared(diff, code[j]),
                            hashes(diff).len() as int,
                        ) ==> shared(diff, code[j]) <= shared(diff, code[i])
                    &&& forall|j: int|
                        0 <= j < i && eligible(
                            #[trigger] shared(diff, code[j]),
                            hashes(diff).len() as int,
                        ) ==> shared(diff, code[j]) < shared(diff, code[i])
                }
        },
        step2_result(conversations, code, diff) is None ==> diff.len() == 0 || forall|j: int|
            0 <= j < code.len() ==> !eligible(
                #[trigger] shared(diff, code[j]),
                hashes(diff).len() as int,
            ),
{
    if diff.len() > 0 && code.len() > 0 {
        let overlaps = overlaps_of(code, diff);
        let total = hashes(diff).len() as int;
        lemma_best_upto(overlaps, total, overlaps.len() as int);
        lemma_hashes_finite(diff);
        assert forall|j: int| 0 <= j < code.len() implies overlaps[j] == shared(diff, code[j]) by {}
        match best_upto(overlaps, total, overlaps.len() as int) {
            Some(i) => {
                lemma_shared_bounds(diff, code[i]);
                let count = shared(diff, code[i]);
                assert(overlaps[i] == count);
                vstd::seq_lib::seq_to_set_is_finite(diff.map_values(|l: Seq<char>| line_hash(l)));
                diff.map_values(|l: Seq<char>| line_hash(l)).lemma_cardinality_of_set();
                assert(total <= diff.len());
                assert(0 < total);
                let m = step2_result(conversations, code, diff)->0;
                assert(m.confidence.numerator == 4 * total + count);
                assert(m.confidence.denominator == 5 * total);
                assert(eligible(shared(diff, code[i]), total));
                assert forall|j: int|
                    0 <= j < code.len() && eligible(
                        #[trigger] shared(diff, code[j]),
                        total,
                    ) implies shared(diff, code[j]) <= shared(diff, code[i]) by {
                    assert(eligible(overlaps[j], total));
                }
                assert forall|j: int|
                    0 <= j < i && eligible(#[trigger] shared(diff, code[j]), total) implies shared(
                    diff,
                    code[j],
                ) < shared(diff, code[i]) by {
                    assert(eligible(overlaps[j], total));
                }
            },
            None => {
                assert forall|j: int| 0 <= j < code.len() implies !eligible(
                    #[trigger] shared(diff, code[j]),
                    total,
                ) by {
                    assert(!eligible(overlaps[j], total));
                }
            },
        }
    }
}

} // verus!

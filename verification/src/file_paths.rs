//! File paths mentioned in the text of a message.
//!
//! A mention is a run of characters between delimiters (white space,
//! backticks, quotes, round brackets, the ends of the text) that has the form
//! of a path and that holds a slash or ends with a known extension. One
//! delimiter serves the run before it and the run after it.

use crate::matcher::step1::texts;
use crate::search::{accepts_each, pattern_accepts};
use crate::text::{is_space, string_of, to_chars};
use vstd::prelude::*;

verus! {

/// The form of a path: path characters (letters, digits, `_`, `-`, `.`, `/`),
/// then a dot and an extension of letters and digits, and nothing else.
pub const PATH_FORM: &'static str = "^[a-zA-Z0-9_\\-./]+\\.[a-zA-Z0-9]+$";

/// Whether `c` stands between mentions: white space, a backtick, a quote or a
/// round bracket.
pub open spec fn is_delimiter(c: char) -> bool {
    is_space(c) || c == '`' || c == '"' || c == '\'' || c == '(' || c == ')'
}

/// Index of the first delimiter at or after `from`, or `s.len()` where none
/// follows.
pub open spec fn run_stop(s: Seq<char>, from: int) -> int
    decreases s.len() - from,
{
    if from >= s.len() || is_delimiter(s[from]) {
        from
    } else {
        run_stop(s, from + 1)
    }
}

pub proof fn lemma_run_stop(s: Seq<char>, from: int)
    requires
        0 <= from <= s.len(),
    ensures
        from <= run_stop(s, from) <= s.len(),
        from < s.len() && !is_delimiter(s[from]) ==> from < run_stop(s, from),
        run_stop(s, from) < s.len() ==> is_delimiter(s[run_stop(s, from)]),
        forall|j: int| from <= j < run_stop(s, from) ==> !is_delimiter(s[j]),
    decreases s.len() - from,
{
    if from < s.len() && !is_delimiter(s[from]) {
        lemma_run_stop(s, from + 1);
    }
}

/// The runs of `s` from `from` on: the longest stretches of characters that
/// are no delimiters, from left to right.
pub open spec fn runs_from(s: Seq<char>, from: int) -> Seq<Seq<char>>
    decreases s.len() - from,
{
    if from < 0 || from >= s.len() {
        Seq::empty()
    } else if is_delimiter(s[from]) {
        runs_from(s, from + 1)
    } else {
        proof {
            lemma_run_stop(s, from);
        }
        seq![s.subrange(from, run_stop(s, from))] + runs_from(s, run_stop(s, from))
    }
}

/// The runs of a text.
pub open spec fn runs_of(s: Seq<char>) -> Seq<Seq<char>> {
    runs_from(s, 0)
}

/// Whether `s` ends with `suffix`.
pub open spec fn ends_with(s: Seq<char>, suffix: Seq<char>) -> bool {
    s.len() >= suffix.len() && s.subrange(s.len() - suffix.len(), s.len() as int) == suffix
}

/// Whether `s` ends with one of the extensions by which a file is known.
pub open spec fn has_known_extension(s: Seq<char>) -> bool {
    ends_with(s, ".rs"@) || ends_with(s, ".toml"@) || ends_with(s, ".json"@) || ends_with(
        s,
        ".md"@,
    ) || ends_with(s, ".ts"@) || ends_with(s, ".js"@) || ends_with(s, ".py"@)
}

/// Whether a run of path form is taken for a file path: it holds a slash, or
/// ends with a known extension.
pub open spec fn likely_path(s: Seq<char>) -> bool {
    s.contains('/') || has_known_extension(s)
}

/// Whether a run has the form of a path, as `PATH_FORM` says.
pub open spec fn has_path_form(run: Seq<char>) -> bool {
    pattern_accepts(PATH_FORM@, run) == Some(true)
}

/// Whether run `i` is flagged in `formed`; a run without a flag is not.
pub open spec fn flagged(formed: Seq<bool>, i: int) -> bool {
    0 <= i < formed.len() && formed[i]
}

/// The paths among the first `k` runs, where `formed` says of each run
/// whether it has the form of a path: the runs of that form that are likely
/// paths, each path once, in the order of first mention.
pub open spec fn paths_upto(runs: Seq<Seq<char>>, formed: Seq<bool>, k: int) -> Seq<Seq<char>>
    decreases k,
{
    if k <= 0 {
        Seq::empty()
    } else {
        let before = paths_upto(runs, formed, k - 1);
        let run = runs[k - 1];
        if flagged(formed, k - 1) && likely_path(run) && !before.contains(run) {
            before.push(run)
        } else {
            before
        }
    }
}

/// The paths that a text mentions: its runs that have the form of a path and
/// are likely paths, each once, in the order of first mention.
pub open spec fn mentioned_paths(text: Seq<char>) -> Seq<Seq<char>> {
    let runs = runs_of(text);
    paths_upto(runs, Seq::new(runs.len(), |i: int| has_path_form(runs[i])), runs.len() as int)
}

proof fn lemma_paths_distinct(runs: Seq<Seq<char>>, formed: Seq<bool>, k: int)
    ensures
        paths_upto(runs, formed, k).no_duplicates(),
    decreases k,
{
    if k > 0 {
        lemma_paths_distinct(runs, formed, k - 1);
    }
}

/// Every path mentioned is a run of the text that has the form of a path and
/// is a likely path; and every such run is among the paths mentioned.
pub proof fn lemma_mentioned_paths(text: Seq<char>)
    ensures
        mentioned_paths(text).no_duplicates(),
        forall|path: Seq<char>| #[trigger]
            mentioned_paths(text).contains(path) <==> runs_of(text).contains(path)
                && has_path_form(path) && likely_path(path),
{
    let runs = runs_of(text);
    let formed = Seq::new(runs.len(), |i: int| has_path_form(runs[i]));
    lemma_paths_distinct(runs, formed, runs.len() as int);
    lemma_paths_upto(runs, formed, runs.len() as int);
    assert forall|path: Seq<char>| #[trigger]
        mentioned_paths(text).contains(path) <==> runs_of(text).contains(path) && has_path_form(
            path,
        ) && likely_path(path) by {
        if mentioned_paths(text).contains(path) {
            let i = choose|i: int|
                0 <= i < runs.len() && runs[i] == path && flagged(formed, i) && likely_path(
                    runs[i],
                );
            assert(runs.contains(path));
        }
        if runs.contains(path) && has_path_form(path) && likely_path(path) {
            let i = choose|i: int| 0 <= i < runs.len() && runs[i] == path;
            assert(flagged(formed, i));
        }
    }
}

proof fn lemma_paths_upto(runs: Seq<Seq<char>>, formed: Seq<bool>, k: int)
    requires
        0 <= k <= runs.len(),
    ensures
        forall|path: Seq<char>| #[trigger]
            paths_upto(runs, formed, k).contains(path) <==> exists|i: int|
                0 <= i < k && runs[i] == path && flagged(formed, i) && likely_path(runs[i]),
    decreases k,
{
    if k > 0 {
        lemma_paths_upto(runs, formed, k - 1);
        let before = paths_upto(runs, formed, k - 1);
        let all = paths_upto(runs, formed, k);
        let run = runs[k - 1];
        assert forall|path: Seq<char>| #[trigger]
            all.contains(path) <==> exists|i: int|
                0 <= i < k && runs[i] == path && flagged(formed, i) && likely_path(runs[i]) by {
            if all.contains(path) {
                if before.contains(path) {
                    let i = choose|i: int|
                        0 <= i < k - 1 && runs[i] == path && flagged(formed, i) && likely_path(
                            runs[i],
                        );
                    assert(0 <= i < k && runs[i] == path && flagged(formed, i) && likely_path(
                        runs[i],
                    ));
                } else {
                    let j = choose|j: int| 0 <= j < all.len() && all[j] == path;
                    assert(all == before.push(run));
                    if j < before.len() {
                        assert(before[j] == path);
                        assert(before.contains(path));
                    }
                    assert(runs[k - 1] == path && flagged(formed, k - 1) && likely_path(
                        runs[k - 1],
                    ));
                }
            }
            if exists|i: int|
                0 <= i < k && runs[i] == path && flagged(formed, i) && likely_path(runs[i]) {
                let i = choose|i: int|
                    0 <= i < k && runs[i] == path && flagged(formed, i) && likely_path(runs[i]);
                if i < k - 1 {
                    assert(before.contains(path));
                    let j = choose|j: int| 0 <= j < before.len() && before[j] == path;
                    if all != before {
                        assert(all[j] == before[j]);
                    }
                    assert(all[j] == path);
                } else {
                    if before.contains(path) {
                        let j = choose|j: int| 0 <= j < before.len() && before[j] == path;
                        assert(all == before);
                        assert(all[j] == path);
                    } else {
                        assert(all == before.push(run));
                        assert(all[before.len() as int] == path);
                    }
                }
            }
        }
    }
}

/// Whether `c` stands between mentions.
pub fn delimits(c: char) -> (b: bool)
    ensures
        b == is_delimiter(c),
{
    c.is_whitespace() || c == '`' || c == '"' || c == '\'' || c == '(' || c == ')'
}

/// The runs of `text`: the longest stretches of characters that are no
/// delimiters, from left to right.
pub fn runs(text: &str) -> (all: Vec<String>)
    ensures
        texts(all@) == runs_of(text@),
{
    let chars = to_chars(text);
    let ghost s = chars@;
    let n = chars.len();
    let mut all: Vec<String> = Vec::new();
    let mut from: usize = 0;
    assert(texts(all@) =~= Seq::<Seq<char>>::empty());
    while from < n
        invariant
            s == chars@,
            s == text@,
            n == s.len(),
            from <= n,
            runs_of(s) == texts(all@) + runs_from(s, from as int),
        decreases n - from,
    {
        if delimits(chars[from]) {
            from += 1;
        } else {
            let mut stop: usize = from + 1;
            proof {
                lemma_run_stop(s, from as int);
            }
            while stop < n && !delimits(chars[stop])
                invariant
                    s == chars@,
                    n == s.len(),
                    from < stop <= n,
                    run_stop(s, from as int) == run_stop(s, stop as int),
                decreases n - stop,
            {
                stop += 1;
            }
            let ghost before = texts(all@);
            all.push(string_of(&chars, from, stop));
            assert(texts(all@) =~= before.push(s.subrange(from as int, stop as int)));
            assert(runs_of(s) =~= texts(all@) + runs_from(s, stop as int));
            from = stop;
        }
    }
    assert(runs_from(s, n as int) =~= Seq::<Seq<char>>::empty());
    assert(texts(all@) =~= runs_of(s));
    all
}

fn has_suffix(chars: &Vec<char>, suffix: &str) -> (b: bool)
    ensures
        b == ends_with(chars@, suffix@),
{
    let tail = to_chars(suffix);
    if chars.len() < tail.len() {
        return false;
    }
    let from = chars.len() - tail.len();
    let mut i: usize = 0;
    while i < tail.len()
        invariant
            i <= tail.len(),
            from + tail.len() == chars.len(),
            tail@ == suffix@,
            forall|k: int| 0 <= k < i ==> chars@[from + k] == tail@[k],
        decreases tail.len() - i,
    {
        if chars[from + i] != tail[i] {
            assert(chars@.subrange(from as int, chars@.len() as int)[i as int] != tail@[i as int]);
            return false;
        }
        i += 1;
    }
    assert(chars@.subrange(from as int, chars@.len() as int) =~= tail@);
    true
}

fn holds_slash(chars: &Vec<char>) -> (b: bool)
    ensures
        b == chars@.contains('/'),
{
    let mut i: usize = 0;
    while i < chars.len()
        invariant
            i <= chars.len(),
            forall|k: int| 0 <= k < i ==> chars@[k] != '/',
        decreases chars.len() - i,
    {
        if chars[i] == '/' {
            return true;
        }
        i += 1;
    }
    false
}

/// Whether `path` is taken for a file path.
pub fn is_likely_path(path: &str) -> (b: bool)
    ensures
        b == likely_path(path@),
{
    let chars = to_chars(path);
    holds_slash(&chars) || has_suffix(&chars, ".rs") || has_suffix(&chars, ".toml") || has_suffix(
        &chars,
        ".json",
    ) || has_suffix(&chars, ".md") || has_suffix(&chars, ".ts") || has_suffix(&chars, ".js")
        || has_suffix(&chars, ".py")
}

/// Whether `path` is one of `paths`.
pub fn holds_path(paths: &Vec<String>, path: &String) -> (b: bool)
    ensures
        b == texts(paths@).contains(path@),
{
    let mut i: usize = 0;
    while i < paths.len()
        invariant
            i <= paths.len(),
            forall|k: int| 0 <= k < i ==> texts(paths@)[k] != path@,
        decreases paths.len() - i,
    {
        if paths[i] == *path {
            assert(texts(paths@)[i as int] == path@);
            return true;
        }
        i += 1;
    }
    false
}

/// The paths among `runs`, where `formed` says of each run whether it has the
/// form of a path (a run without a flag has not).
pub fn paths_among(runs: &Vec<String>, formed: &Vec<bool>) -> (paths: Vec<String>)
    ensures
        texts(paths@) == paths_upto(texts(runs@), formed@, runs@.len() as int),
        texts(paths@).no_duplicates(),
{
    let ghost all = texts(runs@);
    let mut paths: Vec<String> = Vec::new();
    let mut i: usize = 0;
    assert(texts(paths@) =~= Seq::<Seq<char>>::empty());
    while i < runs.len()
        invariant
            i <= runs.len(),
            all == texts(runs@),
            texts(paths@) == paths_upto(all, formed@, i as int),
        decreases runs.len() - i,
    {
        assert(all[i as int] == runs@[i as int]@);
        if i < formed.len() && formed[i] && is_likely_path(runs[i].as_str()) && !holds_path(
            &paths,
            &runs[i],
        ) {
            let ghost before = texts(paths@);
            paths.push(runs[i].clone());
            assert(texts(paths@) =~= before.push(runs@[i as int]@));
        }
        i += 1;
    }
    proof {
        lemma_paths_distinct(all, formed@, runs@.len() as int);
    }
    paths
}

/// The file paths that `text` mentions, each once, in the order of first
/// mention. A mention is a run of the text, between white space, backticks,
/// quotes, round brackets or the ends of the text, that has the form of a path
/// and that holds a slash or ends with a known extension.
///
/// Whether a run has the form of a path is decided by pattern; what the
/// result is for given decisions is `paths_upto`.
pub fn extract_file_paths(text: &str) -> (paths: Vec<String>)
    ensures
        texts(paths@) == mentioned_paths(text@),
        texts(paths@).no_duplicates(),
{
    let all = runs(text);
    let formed = match accepts_each(PATH_FORM, &all) {
        Some(formed) => formed,
        None => Vec::new(),
    };
    let ghost decided = Seq::new(texts(all@).len(), |i: int| has_path_form(texts(all@)[i]));
    let paths = paths_among(&all, &formed);
    proof {
        lemma_same_flags(texts(all@), formed@, decided, all@.len() as int);
    }
    paths
}

proof fn lemma_same_flags(runs: Seq<Seq<char>>, a: Seq<bool>, b: Seq<bool>, k: int)
    requires
        0 <= k <= runs.len(),
        forall|i: int| 0 <= i < k ==> flagged(a, i) == flagged(b, i),
    ensures
        paths_upto(runs, a, k) == paths_upto(runs, b, k),
    decreases k,
{
    if k > 0 {
        lemma_same_flags(runs, a, b, k - 1);
    }
}

} // verus!

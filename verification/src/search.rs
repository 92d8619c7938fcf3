//! Pattern search: the one place where regular expressions are run.

use vstd::prelude::*;

verus! {

/// One match of a pattern in a text: the byte offset at which the match starts
/// and what each capture group took (`None` for a group that took no part).
#[derive(Debug, Clone)]
pub struct PatternMatch {
    pub start: usize,
    pub groups: Vec<Option<String>>,
}

/// The mathematical value of a `PatternMatch`.
pub struct MatchModel {
    pub start: int,
    pub groups: Seq<Option<Seq<char>>>,
}

impl MatchModel {
    /// What capture group `i` took (groups are counted from 1, as in the pattern).
    pub open spec fn group(self, i: int) -> Option<Seq<char>> {
        if 1 <= i <= self.groups.len() {
            self.groups[i - 1]
        } else {
            None
        }
    }
}

/// What a capture group took, as a text.
pub open spec fn group_model(g: Option<String>) -> Option<Seq<char>> {
    match g {
        Some(s) => Some(s@),
        None => None,
    }
}

impl View for PatternMatch {
    type V = MatchModel;

    open spec fn view(&self) -> MatchModel {
        MatchModel {
            start: self.start as int,
            groups: self.groups@.map_values(|g: Option<String>| group_model(g)),
        }
    }
}

/// The values of a list of matches.
pub open spec fn match_models(ms: Seq<PatternMatch>) -> Seq<MatchModel> {
    ms.map_values(|m: PatternMatch| m@)
}

/// Whether the matches stand from left to right: none starts before an
/// earlier one.
pub open spec fn left_to_right(ms: Seq<MatchModel>) -> bool {
    forall|i: int, j: int| 0 <= i <= j < ms.len() ==> (#[trigger] ms[i]).start <= (#[trigger] ms[j]).start
}

/// The successive non-overlapping matches of `pattern` in `text`, from left to
/// right, as the `regex` crate finds them; `None` when it does not accept the
/// pattern.
pub uninterp spec fn pattern_matches(pattern: Seq<char>, text: Seq<char>) -> Option<
    Seq<MatchModel>,
>;

/// The matches of a search that may have been refused: none when it was.
pub open spec fn found(ms: Option<Seq<MatchModel>>) -> Seq<MatchModel> {
    match ms {
        Some(ms) => ms,
        None => Seq::empty(),
    }
}

/// Compiles `pattern` with `regex::Regex::new` and walks `text` with
/// `Regex::captures_iter`. Believed, not proved: the result is a function of
/// the pattern and the text alone, which `pattern_matches` names; and the
/// matches come from left to right, as the iterator yields successive matches
/// that do not overlap. Each match is handed out as the start offset of the
/// whole match and the text of each capture group.
#[verifier::external_body]
pub(crate) fn find_matches(pattern: &str, text: &str) -> (r: Option<Vec<PatternMatch>>)
    ensures
        match r {
            Some(ms) => pattern_matches(pattern@, text@) == Some(match_models(ms@)),
            None => pattern_matches(pattern@, text@) is None,
        },
        r matches Some(ms) ==> left_to_right(match_models(ms@)),
{
    let re = regex::Regex::new(pattern).ok()?;
    Some(
        re.captures_iter(text).map(
            |caps|
                PatternMatch {
                    start: caps.get_match().start(),
                    groups: caps.iter().skip(1).map(|g| g.map(|m| m.as_str().to_string())).collect(),
                },
        ).collect(),
    )
}

/// Whether `pattern` finds a match somewhere in `text`, as the `regex` crate
/// decides it; `None` when it does not accept the pattern.
pub uninterp spec fn pattern_accepts(pattern: Seq<char>, text: Seq<char>) -> Option<bool>;

/// Compiles `pattern` with `regex::Regex::new` and asks `Regex::is_match` of
/// each of `texts`. Believed, not proved: whether a text is accepted is a
/// function of the pattern and the text alone, which `pattern_accepts` names.
#[verifier::external_body]
pub(crate) fn accepts_each(pattern: &str, texts: &Vec<String>) -> (r: Option<Vec<bool>>)
    ensures
        match r {
            Some(accepted) => accepted@.len() == texts@.len() && forall|i: int|
                0 <= i < texts@.len() ==> pattern_accepts(pattern@, (#[trigger] texts@[i])@)
                    == Some(accepted@[i]),
            None => forall|i: int|
                0 <= i < texts@.len() ==> pattern_accepts(pattern@, (#[trigger] texts@[i])@)
                    is None,
        },
{
    let re = regex::Regex::new(pattern).ok()?;
    Some(texts.iter().map(|text| re.is_match(text)).collect())
}

} // verus!

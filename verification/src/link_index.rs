//! The index from commit SHA to session id.
//!
//! The index is a cache of the link store: it can be built again from the
//! stored records.

use crate::link::Link;
use vstd::prelude::*;

verus! {

/// An index from commit SHA to session id.
///
/// The index is kept as a list of entries in which no SHA occurs twice; its
/// value is the map that these entries make.
pub struct LinkIndex {
    entries: Vec<(String, i64)>,
}

/// The map that a list of entries stands for; of two entries with one key the
/// later counts.
pub open spec fn map_of(entries: Seq<(String, i64)>) -> Map<Seq<char>, i64>
    decreases entries.len(),
{
    if entries.len() == 0 {
        Map::empty()
    } else {
        map_of(entries.drop_last()).insert(entries.last().0@, entries.last().1)
    }
}

/// No key occurs twice in `entries`.
pub open spec fn distinct_keys(entries: Seq<(String, i64)>) -> bool {
    forall|i: int, j: int|
        0 <= i < j < entries.len() ==> (#[trigger] entries[i]).0@ != (#[trigger] entries[j]).0@
}

/// Whether `key` is the key of one of `entries`.
pub open spec fn has_key(entries: Seq<(String, i64)>, key: Seq<char>) -> bool {
    exists|i: int| 0 <= i < entries.len() && (#[trigger] entries[i]).0@ == key
}

/// What the map of a list of entries holds: its keys are the keys of the
/// entries, and where no key occurs twice each entry gives its key's value
/// and the map has as many keys as there are entries.
pub proof fn lemma_map_of(entries: Seq<(String, i64)>)
    ensures
        map_of(entries).dom().finite(),
        forall|key: Seq<char>| #[trigger] map_of(entries).dom().contains(key) <==> has_key(entries, key),
        distinct_keys(entries) ==> map_of(entries).dom().len() == entries.len(),
        distinct_keys(entries) ==> forall|i: int|
            0 <= i < entries.len() ==> map_of(entries)[(#[trigger] entries[i]).0@] == entries[i].1,
    decreases entries.len(),
{
    if entries.len() > 0 {
        let head = entries.drop_last();
        let last = entries.last();
        lemma_map_of(head);
        assert forall|key: Seq<char>| #[trigger]
            map_of(entries).dom().contains(key) <==> has_key(entries, key) by {
            if has_key(entries, key) {
                let i = choose|i: int| 0 <= i < entries.len() && (#[trigger] entries[i]).0@ == key;
                if i < entries.len() - 1 {
                    assert(head[i].0@ == key);
                    assert(has_key(head, key));
                }
            }
            if map_of(entries).dom().contains(key) {
                if key == last.0@ {
                    assert(entries[entries.len() - 1].0@ == key);
                } else {
                    assert(has_key(head, key));
                    let i = choose|i: int| 0 <= i < head.len() && (#[trigger] head[i]).0@ == key;
                    assert(entries[i].0@ == key);
                }
            }
        }
        if distinct_keys(entries) {
            assert(distinct_keys(head)) by {
                assert forall|i: int, j: int| 0 <= i < j < head.len() implies (#[trigger] head[i]).0@
                    != (#[trigger] head[j]).0@ by {
                    assert(entries[i].0@ != entries[j].0@);
                }
            }
            assert(!has_key(head, last.0@)) by {
                if has_key(head, last.0@) {
                    let i = choose|i: int|
                        0 <= i < head.len() && (#[trigger] head[i]).0@ == last.0@;
                    assert(entries[i].0@ != entries[entries.len() - 1].0@);
                }
            }
            assert forall|i: int| 0 <= i < entries.len() implies map_of(entries)[(
            #[trigger] entries[i]).0@] == entries[i].1 by {
                if i < entries.len() - 1 {
                    assert(head[i] == entries[i]);
                    assert(entries[i].0@ != entries[entries.len() - 1].0@);
                }
            }
        }
    }
}

impl View for LinkIndex {
    type V = Map<Seq<char>, i64>;

    closed spec fn view(&self) -> Map<Seq<char>, i64> {
        map_of(self.entries@)
    }
}

impl LinkIndex {
    #[verifier::type_invariant]
    spec fn wf(self) -> bool {
        distinct_keys(self.entries@)
    }

    /// An empty index.
    pub fn new() -> (index: LinkIndex)
        ensures
            index@ == Map::<Seq<char>, i64>::empty(),
    {
        LinkIndex { entries: Vec::new() }
    }

    /// Where the entry of `commit_sha` stands, if there is one.
    fn position(&self, commit_sha: &str) -> (at: Option<usize>)
        ensures
            match at {
                Some(i) => i < self.entries@.len() && self.entries@[i as int].0@ == commit_sha@,
                None => !has_key(self.entries@, commit_sha@),
            },
    {
        let key = commit_sha.to_owned();
        let mut i: usize = 0;
        while i < self.entries.len()
            invariant
                i <= self.entries@.len(),
                key@ == commit_sha@,
                forall|k: int| 0 <= k < i ==> (#[trigger] self.entries@[k]).0@ != commit_sha@,
            decreases self.entries.len() - i,
        {
            if self.entries[i].0 == key {
                return Some(i);
            }
            i += 1;
        }
        None
    }

    /// Enters the link: its commit now leads to its session, whatever the
    /// index held for that commit before.
    pub fn insert(&mut self, link: &Link)
        ensures
            final(self)@ == old(self)@.insert(link.commit_sha@, link.session_id),
            final(self)@.dom().contains(link.commit_sha@),
            final(self)@[link.commit_sha@] == link.session_id,
    {
        proof {
            use_type_invariant(&*self);
            lemma_map_of(self.entries@);
        }
        let key = link.commit_sha.clone();
        let value = link.session_id;
        let at = self.position(link.commit_sha.as_str());
        let mut taken = LinkIndex::new();
        std::mem::swap(self, &mut taken);
        let mut entries = taken.entries;
        match at {
            Some(i) => {
                let ghost before = entries@;
                entries.set(i, (key, value));
                proof {
                    let after = entries@;
                    assert(distinct_keys(after)) by {
                        assert forall|a: int, b: int| 0 <= a < b < after.len() implies (
                        #[trigger] after[a]).0@ != (#[trigger] after[b]).0@ by {
                            assert(before[a].0@ != before[b].0@);
                        }
                    }
                    lemma_map_of(after);
                    assert(map_of(after) =~= map_of(before).insert(key@, value)) by {
                        assert forall|k: Seq<char>| #[trigger]
                            map_of(after).dom().contains(k) <==> map_of(before).insert(
                                key@,
                                value,
                            ).dom().contains(k) by {
                            if has_key(after, k) {
                                let a = choose|a: int|
                                    0 <= a < after.len() && (#[trigger] after[a]).0@ == k;
                                assert(before[a].0@ == k);
                            }
                            if has_key(before, k) {
                                let a = choose|a: int|
                                    0 <= a < before.len() && (#[trigger] before[a]).0@ == k;
                                assert(after[a].0@ == k);
                            }
                        }
                        assert forall|k: Seq<char>| #[trigger]
                            map_of(after).dom().contains(k) implies map_of(after)[k] == map_of(
                            before,
                        ).insert(key@, value)[k] by {
                            let a = choose|a: int|
                                0 <= a < after.len() && (#[trigger] after[a]).0@ == k;
                            if a != i {
                                assert(before[a] == after[a]);
                                assert(before[a].0@ != before[i as int].0@);
                            }
                        }
                    }
                }
            },
            None => {
                let ghost before = entries@;
                entries.push((key, value));
                proof {
                    let after = entries@;
                    assert(after.drop_last() =~= before);
                    assert(distinct_keys(after)) by {
                        assert forall|a: int, b: int| 0 <= a < b < after.len() implies (
                        #[trigger] after[a]).0@ != (#[trigger] after[b]).0@ by {
                            if b < before.len() {
                                assert(before[a].0@ != before[b].0@);
                            } else {
                                assert(before[a].0@ != key@);
                            }
                        }
                    }
                }
            },
        }
        *self = LinkIndex { entries };
    }

    /// The session that `commit_sha` leads to.
    pub fn get(&self, commit_sha: &str) -> (session: Option<i64>)
        ensures
            session == (if self@.dom().contains(commit_sha@) {
                Some(self@[commit_sha@])
            } else {
                None
            }),
    {
        proof {
            use_type_invariant(self);
            lemma_map_of(self.entries@);
        }
        match self.position(commit_sha) {
            Some(i) => Some(self.entries[i].1),
            None => None,
        }
    }

    /// Whether the index holds `commit_sha`.
    pub fn contains(&self, commit_sha: &str) -> (held: bool)
        ensures
            held == self@.dom().contains(commit_sha@),
    {
        proof {
            use_type_invariant(self);
            lemma_map_of(self.entries@);
        }
        self.position(commit_sha).is_some()
    }

    /// Number of commits in the index.
    pub fn len(&self) -> (n: usize)
        ensures
            self@.dom().finite(),
            n == self@.dom().len(),
    {
        proof {
            use_type_invariant(self);
            lemma_map_of(self.entries@);
        }
        self.entries.len()
    }

    /// Whether the index holds nothing.
    pub fn is_empty(&self) -> (empty: bool)
        ensures
            empty == (self@ == Map::<Seq<char>, i64>::empty()),
            empty == (self@.dom().len() == 0),
    {
        proof {
            use_type_invariant(self);
            lemma_map_of(self.entries@);
            if self.entries@.len() > 0 {
                assert(has_key(self.entries@, self.entries@[0].0@));
            } else {
                assert(self@ =~= Map::<Seq<char>, i64>::empty());
            }
        }
        self.entries.len() == 0
    }

    /// Takes `commit_sha` out of the index and returns the session it led to.
    pub fn remove(&mut self, commit_sha: &str) -> (session: Option<i64>)
        ensures
            final(self)@ == old(self)@.remove(commit_sha@),
            session == (if old(self)@.dom().contains(commit_sha@) {
                Some(old(self)@[commit_sha@])
            } else {
                None
            }),
    {
        proof {
            use_type_invariant(&*self);
            lemma_map_of(self.entries@);
        }
        match self.position(commit_sha) {
            Some(i) => {
                let mut taken = LinkIndex::new();
                std::mem::swap(self, &mut taken);
                let mut entries = taken.entries;
                let ghost before = entries@;
                let removed = entries.remove(i);
                proof {
                    let after = entries@;
                    assert(distinct_keys(after)) by {
                        assert forall|a: int, b: int| 0 <= a < b < after.len() implies (
                        #[trigger] after[a]).0@ != (#[trigger] after[b]).0@ by {
                            let a0 = if a < i { a } else { a + 1 };
                            let b0 = if b < i { b } else { b + 1 };
                            assert(after[a] == before[a0]);
                            assert(after[b] == before[b0]);
                            assert(before[a0].0@ != before[b0].0@);
                        }
                    }
                    lemma_map_of(after);
                    assert(map_of(after) =~= map_of(before).remove(commit_sha@)) by {
                        assert forall|k: Seq<char>| #[trigger]
                            map_of(after).dom().contains(k) <==> map_of(before).remove(
                                commit_sha@,
                            ).dom().contains(k) by {
                            if has_key(after, k) {
                                let a = choose|a: int|
                                    0 <= a < after.len() && (#[trigger] after[a]).0@ == k;
                                let a0 = if a < i { a } else { a + 1 };
                                assert(after[a] == before[a0]);
                                assert(before[a0].0@ == k);
                                if a0 < i {
                                    assert(before[a0].0@ != before[i as int].0@);
                                } else {
                                    assert(before[i as int].0@ != before[a0].0@);
                                }
                            }
                            if has_key(before, k) && k != commit_sha@ {
                                let a0 = choose|a: int|
                                    0 <= a < before.len() && (#[trigger] before[a]).0@ == k;
                                let a = if a0 < i { a0 } else { a0 - 1 };
                                assert(after[a] == before[a0]);
                                assert(after[a].0@ == k);
                            }
                        }
                        assert forall|k: Seq<char>| #[trigger]
                            map_of(after).dom().contains(k) implies map_of(after)[k] == map_of(
                            before,
                        ).remove(commit_sha@)[k] by {
                            let a = choose|a: int|
                                0 <= a < after.len() && (#[trigger] after[a]).0@ == k;
                            let a0 = if a < i { a } else { a + 1 };
                            assert(after[a] == before[a0]);
                        }
                    }
                }
                *self = LinkIndex { entries };
                Some(removed.1)
            },
            None => {
                assert(self@.remove(commit_sha@) =~= self@);
                None
            },
        }
    }

    /// The entries of the index, each commit once, in no particular order.
    pub fn iter(&self) -> (entries: Vec<(String, i64)>)
        ensures
            distinct_keys(entries@),
            map_of(entries@) == self@,
            entries@.len() == self@.dom().len(),
    {
        proof {
            use_type_invariant(self);
            lemma_map_of(self.entries@);
        }
        let mut entries: Vec<(String, i64)> = Vec::new();
        let mut i: usize = 0;
        while i < self.entries.len()
            invariant
                i <= self.entries@.len(),
                entries@.len() == i,
                forall|k: int|
                    0 <= k < i ==> (#[trigger] entries@[k]).0@ == self.entries@[k].0@ && entries@[k].1
                        == self.entries@[k].1,
            decreases self.entries.len() - i,
        {
            entries.push((self.entries[i].0.clone(), self.entries[i].1));
            i += 1;
        }
        proof {
            lemma_same_map(entries@, self.entries@);
        }
        entries
    }
}

/// Lists with the same keys and values, entry by entry, make the same map.
proof fn lemma_same_map(a: Seq<(String, i64)>, b: Seq<(String, i64)>)
    requires
        a.len() == b.len(),
        forall|k: int| 0 <= k < a.len() ==> (#[trigger] a[k]).0@ == b[k].0@ && a[k].1 == b[k].1,
    ensures
        map_of(a) == map_of(b),
        distinct_keys(b) ==> distinct_keys(a),
    decreases a.len(),
{
    if a.len() > 0 {
        assert(a.last().0@ == b.last().0@ && a.last().1 == b.last().1);
        assert forall|k: int| 0 <= k < a.drop_last().len() implies (#[trigger] a.drop_last()[k]).0@
            == b.drop_last()[k].0@ && a.drop_last()[k].1 == b.drop_last()[k].1 by {
            assert(a[k].0@ == b[k].0@);
        }
        lemma_same_map(a.drop_last(), b.drop_last());
    }
    if distinct_keys(b) {
        assert forall|i: int, j: int| 0 <= i < j < a.len() implies (#[trigger] a[i]).0@ != (
        #[trigger] a[j]).0@ by {
            assert(b[i].0@ != b[j].0@);
        }
    }
}

/// `serde_json::Error`: what the JSON library reports when it fails.
#[verifier::external_type_specification]
#[verifier::external_body]
pub struct ExJsonError(serde_json::Error);

/// An index file that could not be read or written as JSON.
#[derive(Debug, Clone, PartialEq, Eq)]
pub struct IndexError {
    /// What the JSON library reported.
    pub message: String,
}

/// The index that a JSON text stands for, as `serde_json` reads it: the text
/// must be one object whose values are integers; `None` for any other text.
pub uninterp spec fn parsed_index(json: Seq<char>) -> Option<Map<Seq<char>, i64>>;

/// The JSON text of an index, as `serde_json` writes it: one object, compact,
/// with the keys in ascending order.
pub uninterp spec fn index_json(index: Map<Seq<char>, i64>) -> Seq<char>;

/// `serde_json::from_str` for a map from strings to integers. Believed, not
/// proved: whether the text is accepted and the map it gives depend on the
/// text alone, which `parsed_index` names; the entries handed out are those of
/// the map, each key once, in no particular order.
#[verifier::external_body]
fn read_entries(json: &str) -> (r: Result<Vec<(String, i64)>, serde_json::Error>)
    ensures
        match r {
            Ok(entries) => distinct_keys(entries@) && parsed_index(json@) == Some(
                map_of(entries@),
            ),
            Err(_) => parsed_index(json@) is None,
        },
{
    let map: std::collections::HashMap<String, i64> = serde_json::from_str(json)?;
    Ok(map.into_iter().collect())
}

/// `serde_json::to_string` for a map from strings to integers, here a sorted
/// one. Believed, not proved: the text written depends on the map alone,
/// which `index_json` names; and the call succeeds, as it fails only where
/// the value refuses to be written or a map has keys that are no strings,
/// and strings and integers are always written.
#[verifier::external_body]
fn write_entries(entries: &Vec<(String, i64)>) -> (r: Result<String, serde_json::Error>)
    ensures
        r is Ok,
        r matches Ok(json) ==> json@ == index_json(map_of(entries@)),
{
    let map: std::collections::BTreeMap<&str, i64> = entries.iter().map(
        |e| (e.0.as_str(), e.1),
    ).collect();
    serde_json::to_string(&map)
}

/// The message of a `serde_json::Error`, by its `to_string`.
#[verifier::external_body]
fn describe(error: &serde_json::Error) -> String {
    error.to_string()
}

impl LinkIndex {
    /// The index that the JSON text `json` stands for: an object that leads
    /// from each SHA to its session id. A text that is no such object is an
    /// error.
    pub fn from_json(json: &str) -> (r: Result<LinkIndex, IndexError>)
        ensures
            match r {
                Ok(index) => parsed_index(json@) == Some(index@),
                Err(_) => parsed_index(json@) is None,
            },
    {
        match read_entries(json) {
            Ok(entries) => Ok(LinkIndex { entries }),
            Err(e) => Err(IndexError { message: describe(&e) }),
        }
    }

    /// The index as a JSON text: one object that leads from each SHA to its
    /// session id. Every index can be written: the result is never an error.
    pub fn to_json(&self) -> (r: Result<String, IndexError>)
        ensures
            r is Ok,
            r matches Ok(json) ==> json@ == index_json(self@),
    {
        match write_entries(&self.entries) {
            Ok(json) => Ok(json),
            Err(e) => Err(IndexError { message: describe(&e) }),
        }
    }
}

impl Default for LinkIndex {
    fn default() -> (index: LinkIndex)
        ensures
            index@ == Map::<Seq<char>, i64>::empty(),
    {
        LinkIndex::new()
    }
}

/// After a link is entered, the index leads from its commit to the session
/// that its record names, and every other commit leads where it led before.
pub proof fn lemma_insert_get(index: Map<Seq<char>, i64>, commit_sha: Seq<char>, session_id: i64)
    ensures
        index.insert(commit_sha, session_id).dom().contains(commit_sha),
        index.insert(commit_sha, session_id)[commit_sha] == session_id,
        forall|other: Seq<char>|
            other != commit_sha ==> (#[trigger] index.insert(commit_sha, session_id).dom().contains(
                other,
            ) <==> index.dom().contains(other)),
        forall|other: Seq<char>|
            other != commit_sha && index.dom().contains(other) ==> #[trigger] index.insert(
                commit_sha,
                session_id,
            )[other] == index[other],
{
}

} // verus!

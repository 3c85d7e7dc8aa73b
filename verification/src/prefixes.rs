//! The prefixes that a query declares.
use crate::patterns;
use vstd::prelude::*;

verus! {

/// The map of a list of entries, in which a later entry replaces an earlier one of its key.
pub open spec fn map_of<V>(entries: Seq<(Seq<char>, V)>) -> Map<Seq<char>, V>
    decreases entries.len(),
{
    if entries.len() == 0 {
        Map::empty()
    } else {
        map_of(entries.drop_last()).insert(entries.last().0, entries.last().1)
    }
}

/// The last entry of a key is the one that counts, and no key comes from elsewhere.
pub proof fn lemma_last_entry_counts<V>(entries: Seq<(Seq<char>, V)>)
    ensures
        forall|i: int|
            0 <= i < entries.len() && (forall|j: int|
                i < j < entries.len() ==> (#[trigger] entries[j]).0 != entries[i].0)
                ==> map_of(entries).contains_pair((#[trigger] entries[i]).0, entries[i].1),
        forall|k: Seq<char>| #[trigger]
            map_of(entries).contains_key(k) ==> exists|i: int|
                0 <= i < entries.len() && (#[trigger] entries[i]).0 == k,
    decreases entries.len(),
{
    if entries.len() > 0 {
        let fewer = entries.drop_last();
        lemma_last_entry_counts(fewer);
        assert forall|i: int|
            0 <= i < entries.len() && (forall|j: int|
                i < j < entries.len() ==> (#[trigger] entries[j]).0
                    != entries[i].0) implies map_of(entries).contains_pair(
            (#[trigger] entries[i]).0,
            entries[i].1,
        ) by {
            if i < fewer.len() {
                assert(fewer[i] == entries[i]);
                assert forall|j: int| i < j < fewer.len() implies (#[trigger] fewer[j]).0
                    != fewer[i].0 by {
                    assert(fewer[j] == entries[j]);
                }
                assert(entries[entries.len() - 1].0 != entries[i].0);
            }
        }
        assert forall|k: Seq<char>| #[trigger] map_of(entries).contains_key(k) implies exists|
            i: int,
        |
            0 <= i < entries.len() && (#[trigger] entries[i]).0 == k by {
            if k == entries.last().0 {
                assert(entries[entries.len() - 1].0 == k);
            } else {
                assert(map_of(fewer).contains_key(k));
                let i = choose|i: int| 0 <= i < fewer.len() && (#[trigger] fewer[i]).0 == k;
                assert(entries[i].0 == k);
            }
        }
    }
}

spec fn distinct(entries: Seq<(Seq<char>, Seq<char>)>) -> bool {
    forall|i: int, j: int|
        0 <= i < j < entries.len() ==> (#[trigger] entries[i]).0 != (#[trigger] entries[j]).0
}

/// Prefixes and the IRIs that they stand for.
pub struct PrefixMap {
    entries: Vec<(String, String)>,
}

impl View for PrefixMap {
    type V = Map<Seq<char>, Seq<char>>;

    closed spec fn view(&self) -> Map<Seq<char>, Seq<char>> {
        map_of(self.entries.deep_view())
    }
}

/// The entries of a map with distinct keys are those of the list.
proof fn lemma_distinct(entries: Seq<(Seq<char>, Seq<char>)>)
    requires
        distinct(entries),
    ensures
        forall|i: int|
            0 <= i < entries.len() ==> map_of(entries).contains_pair(
                (#[trigger] entries[i]).0,
                entries[i].1,
            ),
        forall|k: Seq<char>| #[trigger]
            map_of(entries).contains_key(k) ==> exists|i: int|
                0 <= i < entries.len() && (#[trigger] entries[i]).0 == k,
        map_of(entries).dom().finite(),
        map_of(entries).len() == entries.len(),
    decreases entries.len(),
{
    if entries.len() > 0 {
        let fewer = entries.drop_last();
        let last = entries.last();
        assert(distinct(fewer)) by {
            assert forall|i: int, j: int| 0 <= i < j < fewer.len() implies (#[trigger] fewer[i]).0
                != (#[trigger] fewer[j]).0 by {
                assert(fewer[i] == entries[i] && fewer[j] == entries[j]);
            }
        }
        lemma_distinct(fewer);
        assert forall|i: int| 0 <= i < entries.len() implies map_of(entries).contains_pair(
            (#[trigger] entries[i]).0,
            entries[i].1,
        ) by {
            if i < fewer.len() {
                assert(fewer[i] == entries[i]);
                assert(entries[i].0 != entries[entries.len() - 1].0);
            }
        }
        assert forall|k: Seq<char>| #[trigger] map_of(entries).contains_key(k) implies exists|
            i: int,
        |
            0 <= i < entries.len() && (#[trigger] entries[i]).0 == k by {
            if k == last.0 {
                assert(entries[entries.len() - 1].0 == k);
            } else {
                assert(map_of(fewer).contains_key(k));
                let i = choose|i: int| 0 <= i < fewer.len() && (#[trigger] fewer[i]).0 == k;
                assert(entries[i].0 == k);
            }
        }
        if map_of(fewer).contains_key(last.0) {
            let i = choose|i: int| 0 <= i < fewer.len() && (#[trigger] fewer[i]).0 == last.0;
            assert(entries[i].0 == entries[entries.len() - 1].0);
        }
    }
}

/// Two lists of distinct keys that hold the same entries but for one key differ in that entry.
proof fn lemma_insert(
    before: Seq<(Seq<char>, Seq<char>)>,
    at: int,
    key: Seq<char>,
    value: Seq<char>,
)
    requires
        distinct(before),
        0 <= at < before.len(),
        before[at].0 == key,
    ensures
        distinct(before.update(at, (key, value))),
        map_of(before.update(at, (key, value))) == map_of(before).insert(key, value),
{
    let after = before.update(at, (key, value));
    assert forall|i: int, j: int| 0 <= i < j < after.len() implies (#[trigger] after[i]).0 != (
    #[trigger] after[j]).0 by {
        assert(after[i].0 == before[i].0 && after[j].0 == before[j].0);
    }
    lemma_distinct(before);
    lemma_distinct(after);
    assert(after[at].0 == key);
    assert forall|k: Seq<char>| map_of(after).contains_key(k) == map_of(before).insert(
        key,
        value,
    ).contains_key(k) by {
        if map_of(after).contains_key(k) {
            let i = choose|i: int| 0 <= i < after.len() && (#[trigger] after[i]).0 == k;
            assert(before[i].0 == k);
        }
        if k != key && map_of(before).contains_key(k) {
            let i = choose|i: int| 0 <= i < before.len() && (#[trigger] before[i]).0 == k;
            assert(after[i].0 == k);
        }
    }
    assert forall|k: Seq<char>| map_of(after).contains_key(k) implies map_of(after)[k] == map_of(
        before,
    ).insert(key, value)[k] by {
        let i = choose|i: int| 0 <= i < after.len() && (#[trigger] after[i]).0 == k;
        assert(before[i].0 == k);
    }
    assert(map_of(after) =~= map_of(before).insert(key, value));
}

impl PrefixMap {
    #[verifier::type_invariant]
    spec fn keys_are_distinct(self) -> bool {
        distinct(self.entries.deep_view())
    }

    /// A map without prefixes.
    pub fn new() -> (map: Self)
        ensures
            map@ == Map::<Seq<char>, Seq<char>>::empty(),
    {
        let map = PrefixMap { entries: Vec::new() };
        map
    }

    fn index_of(&self, prefix: &str) -> (at: Option<usize>)
        ensures
            match at {
                Some(i) => i < self.entries.len() && self.entries[i as int].0@ == prefix@,
                None => !self@.contains_key(prefix@),
            },
    {
        proof {
            use_type_invariant(self);
            lemma_distinct(self.entries.deep_view());
        }
        for i in 0..self.entries.len()
            invariant
                forall|j: int| 0 <= j < i ==> (#[trigger] self.entries[j]).0@ != prefix@,
        {
            if self.entries[i].0.as_str().eq(prefix) {
                return Some(i);
            }
        }
        proof {
            if self@.contains_key(prefix@) {
                let i = choose|i: int|
                    0 <= i < self.entries.deep_view().len() && (
                    #[trigger] self.entries.deep_view()[i]).0 == prefix@;
                assert(self.entries[i].0@ == prefix@);
            }
        }
        None
    }

    /// How many prefixes there are.
    pub fn len(&self) -> (n: usize)
        ensures
            n == self@.len(),
    {
        proof {
            use_type_invariant(self);
            lemma_distinct(self.entries.deep_view());
        }
        self.entries.len()
    }

    /// The IRI that `prefix` stands for.
    pub fn get(&self, prefix: &str) -> (iri: Option<&String>)
        ensures
            match iri {
                Some(iri) => self@.contains_pair(prefix@, iri@),
                None => !self@.contains_key(prefix@),
            },
    {
        match self.index_of(prefix) {
            Some(i) => {
                proof {
                    use_type_invariant(self);
                    lemma_distinct(self.entries.deep_view());
                    assert(self.entries.deep_view()[i as int].0 == prefix@);
                }
                Some(&self.entries[i].1)
            },
            None => None,
        }
    }

    /// Whether `prefix` stands for an IRI.
    pub fn contains_key(&self, prefix: &str) -> (r: bool)
        ensures
            r == self@.contains_key(prefix@),
    {
        self.get(prefix).is_some()
    }

    /// Lets `prefix` stand for `iri`, whatever it stood for before.
    pub fn insert(&mut self, prefix: String, iri: String)
        ensures
            final(self)@ == old(self)@.insert(prefix@, iri@),
    {
        let at = self.index_of(prefix.as_str());
        proof {
            use_type_invariant(&*self);
        }
        let ghost before = self.entries.deep_view();
        let mut entries: Vec<(String, String)> = Vec::new();
        std::mem::swap(&mut entries, &mut self.entries);
        match at {
            Some(i) => {
                entries.set(i, (prefix, iri));
                proof {
                    assert(entries.deep_view() =~= before.update(i as int, (prefix@, iri@)));
                    lemma_insert(before, i as int, prefix@, iri@);
                }
            },
            None => {
                entries.push((prefix, iri));
                proof {
                    let after = entries.deep_view();
                    assert(after =~= before.push((prefix@, iri@)));
                    assert(after.drop_last() =~= before);
                    lemma_distinct(before);
                    assert forall|i: int, j: int| 0 <= i < j < after.len() implies (
                    #[trigger] after[i]).0 != (#[trigger] after[j]).0 by {
                        assert(after[i] == before[i]);
                        if j < before.len() {
                            assert(after[j] == before[j]);
                        } else if before[i].0 == prefix@ {
                            assert(map_of(before).contains_key(before[i].0));
                        }
                    }
                }
            },
        }
        self.entries = entries;
    }

    /// The prefixes with their IRIs.
    pub fn entries(&self) -> (entries: &Vec<(String, String)>)
        ensures
            map_of(entries.deep_view()) == self@,
            entries.len() == self@.len(),
            forall|i: int|
                0 <= i < entries.len() ==> self@.contains_pair(
                    (#[trigger] entries.deep_view()[i]).0,
                    entries.deep_view()[i].1,
                ),
    {
        proof {
            use_type_invariant(self);
            lemma_last_entry_counts(self.entries.deep_view());
            lemma_distinct(self.entries.deep_view());
        }
        &self.entries
    }
}

/// The entries that prefix declarations make, given what the groups of the prefix pattern
/// captured of each.
pub open spec fn declared(found: Seq<Seq<Seq<char>>>) -> Seq<(Seq<char>, Seq<char>)> {
    found.map_values(|groups: Seq<Seq<char>>| (groups[0], groups[1]))
}

/// Each declaration makes one entry: the prefix that was captured first, with the IRI.
pub proof fn lemma_declared(found: Seq<Seq<Seq<char>>>, i: int)
    ensures
        declared(found).len() == found.len(),
        0 <= i < found.len() ==> declared(found)[i] == (found[i][0], found[i][1]),
{
}

/// Whether each prefix stands on one line, and the IRI that it stands for does too.
pub open spec fn are_on_one_line(prefixes: Map<Seq<char>, Seq<char>>) -> bool {
    forall|prefix: Seq<char>| #[trigger]
        prefixes.contains_key(prefix) ==> !prefix.contains('\n') && !prefixes[prefix].contains('\n')
}

/// The prefixes of the declarations `found`; a later one replaces an earlier one.
pub fn prefix_map(found: &Vec<Vec<String>>) -> (prefixes: PrefixMap)
    requires
        forall|i: int|
            0 <= i < found.len() ==> patterns::is_declaration(#[trigger] found.deep_view()[i]),
    ensures
        prefixes@ == map_of(declared(found.deep_view())),
        are_on_one_line(prefixes@),
{
    let mut prefixes = PrefixMap::new();
    let ghost all = declared(found.deep_view());
    for i in 0..found.len()
        invariant
            all == declared(found.deep_view()),
            forall|i: int|
                0 <= i < found.len() ==> patterns::is_declaration(#[trigger] found.deep_view()[i]),
            prefixes@ == map_of(all.take(i as int)),
            are_on_one_line(prefixes@),
    {
        assert(patterns::is_declaration(found.deep_view()[i as int]));
        assert(found.deep_view()[i as int].len() == found[i as int].len());
        assert(all.take(i + 1).drop_last() =~= all.take(i as int));
        prefixes.insert(found[i][0].clone(), found[i][1].clone());
    }
    assert(all.take(all.len() as int) =~= all);
    prefixes
}

/// The prefixes that a text declares; the last declaration of a prefix counts.
pub open spec fn prefixes_of(text: Seq<char>) -> Map<Seq<char>, Seq<char>> {
    map_of(declared(patterns::captured(patterns::PREFIX_PATTERN@, text)))
}

/// A prefix stands for the IRI of its last declaration, and only declared prefixes stand for one.
pub proof fn lemma_prefixes_of(text: Seq<char>, prefix: Seq<char>, i: int)
    ensures
        ({
            let found = patterns::captured(patterns::PREFIX_PATTERN@, text);
            &&& prefixes_of(text).contains_key(prefix) ==> exists|k: int|
                0 <= k < found.len() && (#[trigger] found[k])[0] == prefix
            &&& 0 <= i < found.len() && found[i][0] == prefix && (forall|k: int|
                i < k < found.len() ==> (#[trigger] found[k])[0] != prefix)
                ==> prefixes_of(text).contains_pair(prefix, found[i][1])
        }),
{
    let found = patterns::captured(patterns::PREFIX_PATTERN@, text);
    let all = declared(found);
    lemma_last_entry_counts(all);
    if prefixes_of(text).contains_key(prefix) {
        let k = choose|k: int| 0 <= k < all.len() && (#[trigger] all[k]).0 == prefix;
        assert(found[k][0] == prefix);
    }
    if 0 <= i < found.len() && found[i][0] == prefix && (forall|k: int|
        i < k < found.len() ==> (#[trigger] found[k])[0] != prefix) {
        assert(all[i] == (found[i][0], found[i][1]));
        assert forall|j: int| i < j < all.len() implies (#[trigger] all[j]).0 != all[i].0 by {
            assert(found[j][0] != prefix);
        }
    }
}

/// The prefixes that the text of a query declares.
pub fn extract_prefixes(query_text: &str) -> (prefixes: PrefixMap)
    ensures
        prefixes@ == prefixes_of(query_text@),
        are_on_one_line(prefixes@),
{
    let found = patterns::captures(patterns::PREFIX_PATTERN, query_text);
    prefix_map(&found)
}

} // verus!

//! The triples that wait to be written, none of them twice.
use crate::rdf::{Spelling, Statement};
use vstd::hash_map::StringHashMap;
use vstd::prelude::*;

verus! {

/// What one more triple makes of a list without duplicates.
pub open spec fn added(triples: Seq<Spelling>, triple: Spelling) -> Seq<Spelling> {
    if triples.contains(triple) {
        triples
    } else {
        triples.push(triple)
    }
}

/// What more triples make of a list without duplicates: each comes in once, in turn.
pub open spec fn absorbed(triples: Seq<Spelling>, more: Seq<Spelling>) -> Seq<Spelling>
    decreases more.len(),
{
    if more.len() == 0 {
        triples
    } else {
        added(absorbed(triples, more.drop_last()), more.last())
    }
}

/// Triples that come in leave no duplicates, and add up to the union; those that were there
/// stay in front.
pub proof fn lemma_absorbed(triples: Seq<Spelling>, more: Seq<Spelling>)
    requires
        triples.no_duplicates(),
    ensures
        absorbed(triples, more).no_duplicates(),
        absorbed(triples, more).to_set() == triples.to_set().union(more.to_set()),
        triples.is_prefix_of(absorbed(triples, more)),
        absorbed(triples, more).len() <= triples.len() + more.len(),
    decreases more.len(),
{
    if more.len() == 0 {
        assert(more.to_set() =~= Set::empty());
        assert(triples.to_set().union(more.to_set()) =~= triples.to_set());
    } else {
        let before = absorbed(triples, more.drop_last());
        let after = absorbed(triples, more);
        lemma_absorbed(triples, more.drop_last());
        assert forall|t: Spelling|
            #![auto]
            after.to_set().contains(t) <==> triples.to_set().union(more.to_set()).contains(t) by {
            assert(before.to_set().contains(t) <==> triples.to_set().union(
                more.drop_last().to_set(),
            ).contains(t));
            lemma_added_contains(before, more.last(), t);
            assert(more =~= more.drop_last().push(more.last()));
            lemma_push_contains(more.drop_last(), more.last(), t);
        }
        assert(after.to_set() =~= triples.to_set().union(more.to_set()));
    }
}

proof fn lemma_push_contains(triples: Seq<Spelling>, triple: Spelling, t: Spelling)
    ensures
        triples.push(triple).contains(t) <==> triples.contains(t) || t == triple,
{
    let pushed = triples.push(triple);
    if triples.contains(t) {
        let i = triples.index_of(t);
        assert(pushed[i] == t);
    }
    assert(pushed[triples.len() as int] == triple);
}

/// One more triple is there then, with those that were there before, none of them twice.
pub proof fn lemma_added_contains(triples: Seq<Spelling>, triple: Spelling, t: Spelling)
    ensures
        added(triples, triple).contains(t) <==> triples.contains(t) || t == triple,
        triples.no_duplicates() ==> added(triples, triple).no_duplicates(),
        triples.is_prefix_of(added(triples, triple)),
{
    lemma_push_contains(triples, triple, t);
}

/// Coming in in two parts is coming in at once.
pub proof fn lemma_absorbed_in_turn(
    triples: Seq<Spelling>,
    first: Seq<Spelling>,
    second: Seq<Spelling>,
)
    ensures
        absorbed(absorbed(triples, first), second) == absorbed(triples, first + second),
    decreases second.len(),
{
    if second.len() == 0 {
        assert(first + second =~= first);
    } else {
        lemma_absorbed_in_turn(triples, first, second.drop_last());
        assert((first + second).drop_last() =~= first + second.drop_last());
    }
}

/// Triples that are all there already change nothing.
pub proof fn lemma_absorbed_again(triples: Seq<Spelling>, more: Seq<Spelling>)
    requires
        forall|i: int| 0 <= i < more.len() ==> triples.contains(#[trigger] more[i]),
    ensures
        absorbed(triples, more) == triples,
    decreases more.len(),
{
    if more.len() > 0 {
        let fewer = more.drop_last();
        assert forall|i: int| 0 <= i < fewer.len() implies triples.contains(#[trigger] fewer[i]) by {
            assert(fewer[i] == more[i]);
        }
        lemma_absorbed_again(triples, fewer);
        assert(triples.contains(more[more.len() - 1]));
    }
}

/// Triples without duplicates that come into an empty list are that list.
pub proof fn lemma_absorbed_into_nothing(more: Seq<Spelling>)
    requires
        more.no_duplicates(),
    ensures
        absorbed(Seq::empty(), more) == more,
    decreases more.len(),
{
    if more.len() == 0 {
        assert(more =~= Seq::empty());
    } else {
        let fewer = more.drop_last();
        assert(fewer.no_duplicates());
        lemma_absorbed_into_nothing(fewer);
        if fewer.contains(more.last()) {
            let i = fewer.index_of(more.last());
            assert(more[i] == more[more.len() - 1]);
        }
        assert(fewer.push(more.last()) =~= more);
    }
}

/// The string under which a triple is looked up.
spec fn key(triple: Spelling) -> Seq<char> {
    triple.subject + " "@ + triple.predicate + " "@ + triple.object
}

fn key_of(triple: &Statement) -> (k: String)
    ensures
        k@ == key(triple@),
{
    let mut k = triple.subject().clone();
    k.append(" ");
    k.append(triple.predicate().as_str());
    k.append(" ");
    k.append(triple.object().as_str());
    k
}

fn same(x: &Statement, y: &Statement) -> (r: bool)
    ensures
        r == (x@ == y@),
{
    x.subject().as_str().eq(y.subject().as_str()) && x.predicate().as_str().eq(
        y.predicate().as_str(),
    ) && x.object().as_str().eq(y.object().as_str())
}

/// Triples, none of them twice, in the order in which they came.
pub struct TripleStore {
    triples: Vec<Statement>,
    /// Where a triple of a key stands.
    index: StringHashMap<usize>,
}

impl View for TripleStore {
    type V = Seq<Spelling>;

    closed spec fn view(&self) -> Seq<Spelling> {
        self.triples.deep_view()
    }
}

spec fn indexed(triples: Seq<Spelling>, index: Map<Seq<char>, usize>) -> bool {
    &&& forall|i: int| 0 <= i < triples.len() ==> index.contains_key(key(#[trigger] triples[i]))
    &&& forall|k: Seq<char>| #[trigger] index.contains_key(k) ==> index[k] < triples.len()
}

/// Whether one of the triples is `triple`.
fn holds(triples: &Vec<Statement>, triple: &Statement) -> (r: bool)
    ensures
        r == triples.deep_view().contains(triple@),
{
    for i in 0..triples.len()
        invariant
            forall|j: int| 0 <= j < i ==> #[trigger] triples.deep_view()[j] != triple@,
    {
        assert(triples.deep_view()[i as int] == triples[i as int]@);
        if same(&triples[i], triple) {
            return true;
        }
    }
    false
}

/// Whether one of the triples is `triple`, found by its key.
fn finds(triples: &Vec<Statement>, index: &StringHashMap<usize>, triple: &Statement, k: &str) -> (r:
    bool)
    requires
        indexed(triples.deep_view(), index@),
        k@ == key(triple@),
    ensures
        r == triples.deep_view().contains(triple@),
{
    match index.get(k) {
        Some(at) => {
            assert(triples.deep_view()[*at as int] == triples[*at as int]@);
            same(&triples[*at], triple) || holds(triples, triple)
        },
        None => false,
    }
}

impl TripleStore {
    #[verifier::type_invariant]
    spec fn well_formed(self) -> bool {
        &&& self.triples.deep_view().no_duplicates()
        &&& indexed(self.triples.deep_view(), self.index@)
    }

    /// A store that holds nothing.
    pub fn new() -> (store: TripleStore)
        ensures
            store@ == Seq::<Spelling>::empty(),
    {
        let store = TripleStore { triples: Vec::new(), index: StringHashMap::new() };
        assert(store@ =~= Seq::<Spelling>::empty());
        store
    }

    /// How many triples there are.
    pub fn len(&self) -> (n: usize)
        ensures
            n == self@.len(),
    {
        self.triples.len()
    }

    /// Whether there is no triple.
    pub fn is_empty(&self) -> (r: bool)
        ensures
            r == (self@.len() == 0),
    {
        self.triples.len() == 0
    }

    /// The triples, in the order in which they came.
    pub fn triples(&self) -> (triples: &Vec<Statement>)
        ensures
            triples.deep_view() == self@,
            self@.no_duplicates(),
    {
        proof {
            use_type_invariant(self);
        }
        &self.triples
    }

    /// Puts in a triple, unless it is there; says whether it was not.
    pub fn insert(&mut self, triple: Statement) -> (new: bool)
        ensures
            final(self)@ == added(old(self)@, triple@),
            new == !old(self)@.contains(triple@),
    {
        let mut whole = TripleStore::new();
        std::mem::swap(&mut whole, self);
        proof {
            use_type_invariant(&whole);
        }
        let TripleStore { mut triples, mut index } = whole;
        let ghost before = triples.deep_view();
        let k = key_of(&triple);
        let new = !finds(&triples, &index, &triple, k.as_str());
        if new {
            let ghost spelled = triple@;
            let at = triples.len();
            triples.push(triple);
            assert(triples.deep_view() =~= before.push(spelled));
            let known = index.contains_key(k.as_str());
            if !known {
                index.insert(k, at);
            }
            assert(indexed(triples.deep_view(), index@)) by {
                let after = triples.deep_view();
                assert forall|i: int| 0 <= i < after.len() implies index@.contains_key(
                    key(#[trigger] after[i]),
                ) by {
                    if i < before.len() {
                        assert(after[i] == before[i]);
                    }
                }
            }
            assert(triples.deep_view().no_duplicates());
        }
        *self = TripleStore { triples, index };
        new
    }

    /// Puts in triples, each unless it is there.
    pub fn extend(&mut self, more: Vec<Statement>)
        ensures
            final(self)@ == absorbed(old(self)@, more.deep_view()),
    {
        let ghost all = more.deep_view();
        for triple in it: more
            invariant
                it.seq() == more@,
                all == more.deep_view(),
                self@ == absorbed(old(self)@, all.take(it.index())),
        {
            assert(all.take(it.index() + 1).drop_last() =~= all.take(it.index()));
            assert(all[it.index()] == triple@);
            self.insert(triple);
        }
        assert(all.take(all.len() as int) =~= all);
    }

    /// Takes out every triple.
    pub fn clear(&mut self)
        ensures
            final(self)@ == Seq::<Spelling>::empty(),
    {
        *self = TripleStore::new();
    }
}

} // verus!

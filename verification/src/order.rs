//! The order in which Turtle lists triples: by subject, then predicate, then object, each as a
//! string, and strings by their bytes.
use crate::rdf::{Spelling, Statement};
use vstd::prelude::*;

verus! {

/// Whether `a` comes before `b`, or is `b`, when bytes are compared from the left.
pub open spec fn bytes_le(a: Seq<u8>, b: Seq<u8>) -> bool
    decreases a.len(),
{
    if a.len() == 0 {
        true
    } else if b.len() == 0 {
        false
    } else if a[0] == b[0] {
        bytes_le(a.drop_first(), b.drop_first())
    } else {
        a[0] < b[0]
    }
}

/// The order of strings: that of their bytes.
pub open spec fn text_le(a: Seq<char>, b: Seq<char>) -> bool {
    bytes_le(vstd::utf8::encode_utf8(a), vstd::utf8::encode_utf8(b))
}

/// The order of triples.
pub open spec fn triple_le(x: Spelling, y: Spelling) -> bool {
    if x.subject != y.subject {
        text_le(x.subject, y.subject)
    } else if x.predicate != y.predicate {
        text_le(x.predicate, y.predicate)
    } else {
        text_le(x.object, y.object)
    }
}

/// Triples in order.
pub open spec fn in_order(triples: Seq<Spelling>) -> Seq<Spelling> {
    triples.sort_by(|x: Spelling, y: Spelling| triple_le(x, y))
}

proof fn lemma_bytes_le_antisymmetric(a: Seq<u8>, b: Seq<u8>)
    requires
        bytes_le(a, b),
        bytes_le(b, a),
    ensures
        a == b,
    decreases a.len(),
{
    if a.len() == 0 || b.len() == 0 {
        assert(a =~= b);
    } else {
        lemma_bytes_le_antisymmetric(a.drop_first(), b.drop_first());
        assert(a =~= seq![a[0]] + a.drop_first());
        assert(b =~= seq![b[0]] + b.drop_first());
    }
}

proof fn lemma_bytes_le_transitive(a: Seq<u8>, b: Seq<u8>, c: Seq<u8>)
    requires
        bytes_le(a, b),
        bytes_le(b, c),
    ensures
        bytes_le(a, c),
    decreases a.len(),
{
    if a.len() > 0 && a[0] == b[0] && b[0] == c[0] {
        lemma_bytes_le_transitive(a.drop_first(), b.drop_first(), c.drop_first());
    }
}

proof fn lemma_bytes_le_total(a: Seq<u8>, b: Seq<u8>)
    ensures
        bytes_le(a, b) || bytes_le(b, a),
    decreases a.len(),
{
    if a.len() > 0 && b.len() > 0 {
        lemma_bytes_le_total(a.drop_first(), b.drop_first());
    }
}

/// Strings are ordered: any two compare, equal ones only compare both ways, and the order
/// carries over.
pub proof fn lemma_text_order(a: Seq<char>, b: Seq<char>, c: Seq<char>)
    ensures
        text_le(a, b) || text_le(b, a),
        text_le(a, b) && text_le(b, a) ==> a == b,
        text_le(a, b) && text_le(b, c) ==> text_le(a, c),
{
    let (x, y, z) = (
        vstd::utf8::encode_utf8(a),
        vstd::utf8::encode_utf8(b),
        vstd::utf8::encode_utf8(c),
    );
    lemma_bytes_le_total(x, y);
    if text_le(a, b) && text_le(b, a) {
        lemma_bytes_le_antisymmetric(x, y);
        vstd::utf8::encode_utf8_decode_utf8(a);
        vstd::utf8::encode_utf8_decode_utf8(b);
    }
    if text_le(a, b) && text_le(b, c) {
        lemma_bytes_le_transitive(x, y, z);
    }
}

/// Triples are totally ordered, so that there is one way to put them in order.
pub proof fn lemma_triple_order()
    ensures
        vstd::relations::total_ordering(|x: Spelling, y: Spelling| triple_le(x, y)),
{
    let leq = |x: Spelling, y: Spelling| triple_le(x, y);
    assert forall|x: Spelling| #[trigger] leq(x, x) by {
        lemma_text_order(x.object, x.object, x.object);
    }
    assert forall|x: Spelling, y: Spelling| #[trigger] leq(x, y) && #[trigger] leq(
        y,
        x,
    ) implies x == y by {
        lemma_text_order(x.subject, y.subject, x.subject);
        lemma_text_order(x.predicate, y.predicate, x.predicate);
        lemma_text_order(x.object, y.object, x.object);
    }
    assert forall|x: Spelling, y: Spelling, z: Spelling| #[trigger] leq(x, y) && #[trigger] leq(
        y,
        z,
    ) implies leq(x, z) by {
        lemma_text_order(x.subject, y.subject, z.subject);
        lemma_text_order(y.subject, x.subject, z.subject);
        lemma_text_order(x.predicate, y.predicate, z.predicate);
        lemma_text_order(y.predicate, x.predicate, z.predicate);
        lemma_text_order(x.object, y.object, z.object);
    }
    assert forall|x: Spelling, y: Spelling| #[trigger] leq(x, y) || #[trigger] leq(y, x) by {
        lemma_text_order(x.subject, y.subject, x.subject);
        lemma_text_order(x.predicate, y.predicate, x.predicate);
        lemma_text_order(x.object, y.object, x.object);
    }
}

/// Triples in order are the same triples, and which order they came in does not matter.
pub proof fn lemma_in_order(triples: Seq<Spelling>, others: Seq<Spelling>)
    requires
        triples.to_multiset() == others.to_multiset(),
    ensures
        in_order(triples).to_multiset() == triples.to_multiset(),
        forall|i: int, j: int|
            0 <= i < j < in_order(triples).len() ==> triple_le(
                #[trigger] in_order(triples)[i],
                #[trigger] in_order(triples)[j],
            ),
        in_order(triples) == in_order(others),
{
    let leq = |x: Spelling, y: Spelling| triple_le(x, y);
    lemma_triple_order();
    triples.lemma_sort_by_ensures(leq);
    others.lemma_sort_by_ensures(leq);
    vstd::seq_lib::lemma_sorted_unique(in_order(triples), in_order(others), leq);
    assert forall|i: int, j: int| 0 <= i < j < in_order(triples).len() implies triple_le(
        #[trigger] in_order(triples)[i],
        #[trigger] in_order(triples)[j],
    ) by {
        assert(leq(in_order(triples)[i], in_order(triples)[j]));
    }
}

/// A string comes before another when its bytes are the start of the other's, or when the first
/// byte in which they differ is the smaller one.
pub proof fn lemma_text_by_bytes(a: Seq<char>, b: Seq<char>)
    ensures
        ({
            let (x, y) = (vstd::utf8::encode_utf8(a), vstd::utf8::encode_utf8(b));
            text_le(a, b) <==> x.is_prefix_of(y) || exists|i: int|
                {
                    &&& 0 <= i < x.len()
                    &&& i < y.len()
                    &&& #[trigger] x[i] < y[i]
                    &&& x.take(i) == y.take(i)
                }
        }),
{
    lemma_bytes_from_the_left(vstd::utf8::encode_utf8(a), vstd::utf8::encode_utf8(b));
}

proof fn lemma_bytes_from_the_left(x: Seq<u8>, y: Seq<u8>)
    ensures
        bytes_le(x, y) <==> x.is_prefix_of(y) || exists|i: int|
            {
                &&& 0 <= i < x.len()
                &&& i < y.len()
                &&& #[trigger] x[i] < y[i]
                &&& x.take(i) == y.take(i)
            },
    decreases x.len(),
{
    if x.len() == 0 {
        assert(x =~= y.subrange(0, 0));
    } else if y.len() > 0 {
        let (v, w) = (x.drop_first(), y.drop_first());
        lemma_bytes_from_the_left(v, w);
        if x[0] == y[0] {
            assert(x.is_prefix_of(y) <==> v.is_prefix_of(w)) by {
                if v.is_prefix_of(w) {
                    assert(v =~= w.subrange(0, v.len() as int));
                    assert forall|i: int| 0 <= i < x.len() implies x[i] == y[i] by {
                        if i > 0 {
                            assert(v[i - 1] == x[i]);
                            assert(w.subrange(0, v.len() as int)[i - 1] == y[i]);
                        }
                    }
                    assert(x =~= y.subrange(0, x.len() as int));
                }
                if x.is_prefix_of(y) {
                    assert(x =~= y.subrange(0, x.len() as int));
                    assert forall|i: int| 0 <= i < v.len() implies v[i] == w[i] by {
                        assert(y.subrange(0, x.len() as int)[i + 1] == y[i + 1]);
                        assert(x[i + 1] == v[i]);
                    }
                    assert(v =~= w.subrange(0, v.len() as int));
                }
            }
            if bytes_le(x, y) && !v.is_prefix_of(w) {
                let i = choose|i: int|
                    {
                        &&& 0 <= i < v.len()
                        &&& i < w.len()
                        &&& #[trigger] v[i] < w[i]
                        &&& v.take(i) == w.take(i)
                    };
                assert(x[i + 1] < y[i + 1]);
                assert(x.take(i + 1) =~= seq![x[0]] + v.take(i));
                assert(y.take(i + 1) =~= seq![y[0]] + w.take(i));
            }
            if exists|i: int|
                {
                    &&& 0 <= i < x.len()
                    &&& i < y.len()
                    &&& #[trigger] x[i] < y[i]
                    &&& x.take(i) == y.take(i)
                } {
                let i = choose|i: int|
                    {
                        &&& 0 <= i < x.len()
                        &&& i < y.len()
                        &&& #[trigger] x[i] < y[i]
                        &&& x.take(i) == y.take(i)
                    };
                assert(v[i - 1] < w[i - 1]);
                assert(v.take(i - 1) =~= x.take(i).drop_first());
                assert(w.take(i - 1) =~= y.take(i).drop_first());
            }
        } else {
            if x[0] < y[0] {
                assert(x.take(0) =~= y.take(0));
            }
            if x.is_prefix_of(y) {
                assert(x[0] == y.subrange(0, x.len() as int)[0]);
            }
            if exists|i: int|
                {
                    &&& 0 <= i < x.len()
                    &&& i < y.len()
                    &&& #[trigger] x[i] < y[i]
                    &&& x.take(i) == y.take(i)
                } {
                let i = choose|i: int|
                    {
                        &&& 0 <= i < x.len()
                        &&& i < y.len()
                        &&& #[trigger] x[i] < y[i]
                        &&& x.take(i) == y.take(i)
                    };
                if i > 0 {
                    assert(x.take(i)[0] == y.take(i)[0]);
                }
            }
        }
    } else {
        if x.is_prefix_of(y) {
            assert(x.len() <= y.len());
        }
    }
}

/// Triples are ordered by their subjects, those of one subject by their predicates, and those of
/// one subject and predicate by their objects.
pub proof fn lemma_triples_by_terms(x: Spelling, y: Spelling)
    ensures
        x.subject != y.subject ==> triple_le(x, y) == text_le(x.subject, y.subject),
        x.subject == y.subject && x.predicate != y.predicate ==> triple_le(x, y) == text_le(
            x.predicate,
            y.predicate,
        ),
        x.subject == y.subject && x.predicate == y.predicate ==> triple_le(x, y) == text_le(
            x.object,
            y.object,
        ),
{
}

/// There is one way to put triples in order.
pub proof fn lemma_one_order(triples: Seq<Spelling>, listed: Seq<Spelling>)
    requires
        listed.to_multiset() == triples.to_multiset(),
        forall|i: int, j: int|
            0 <= i < j < listed.len() ==> triple_le(#[trigger] listed[i], #[trigger] listed[j]),
    ensures
        in_order(triples) == listed,
{
    let leq = |x: Spelling, y: Spelling| triple_le(x, y);
    lemma_triple_order();
    triples.lemma_sort_by_ensures(leq);
    assert(vstd::relations::sorted_by(listed, leq)) by {
        assert forall|i: int, j: int| 0 <= i < j < listed.len() implies #[trigger] leq(
            listed[i],
            listed[j],
        ) by {
            assert(triple_le(listed[i], listed[j]));
        }
    }
    vstd::seq_lib::lemma_sorted_unique(in_order(triples), listed, leq);
}

/// Whether `a` comes before `b`, or is `b`.
pub fn text_at_most(a: &str, b: &str) -> (r: bool)
    ensures
        r == text_le(a@, b@),
{
    let x = a.as_bytes();
    let y = b.as_bytes();
    let mut i: usize = 0;
    assert(x@.skip(0) =~= x@ && y@.skip(0) =~= y@);
    while i < x.len() && i < y.len() && x[i] == y[i]
        invariant
            i <= x.len(),
            i <= y.len(),
            bytes_le(x@, y@) == bytes_le(x@.skip(i as int), y@.skip(i as int)),
        decreases x.len() - i,
    {
        assert(x@.skip(i as int).drop_first() =~= x@.skip(i + 1));
        assert(y@.skip(i as int).drop_first() =~= y@.skip(i + 1));
        i += 1;
    }
    i == x.len() || (i < y.len() && x[i] < y[i])
}

/// Whether `x` comes before `y`, or is `y`.
pub fn triple_at_most(x: &Statement, y: &Statement) -> (r: bool)
    ensures
        r == triple_le(x@, y@),
{
    if !x.subject().as_str().eq(y.subject().as_str()) {
        text_at_most(x.subject().as_str(), y.subject().as_str())
    } else if !x.predicate().as_str().eq(y.predicate().as_str()) {
        text_at_most(x.predicate().as_str(), y.predicate().as_str())
    } else {
        text_at_most(x.object().as_str(), y.object().as_str())
    }
}

/// Whether triples are in order.
spec fn ascending(triples: Seq<Spelling>) -> bool {
    vstd::relations::sorted_by(triples, |x: Spelling, y: Spelling| triple_le(x, y))
}

/// Whether every one of `early` comes before every one of `late`, or equals it.
spec fn all_le(early: Seq<Spelling>, late: Seq<Spelling>) -> bool {
    forall|i: int, j: int|
        0 <= i < early.len() && 0 <= j < late.len() ==> triple_le(
            #[trigger] early[i],
            #[trigger] late[j],
        )
}

proof fn lemma_push_next(
    out: Seq<Spelling>,
    next: Spelling,
    rest: Seq<Spelling>,
    other: Seq<Spelling>,
)
    requires
        ascending(out),
        rest.len() > 0,
        next == rest[0],
        ascending(rest),
        ascending(other),
        all_le(out, rest),
        all_le(out, other),
        other.len() > 0 ==> triple_le(next, other[0]),
    ensures
        ascending(out.push(next)),
        all_le(out.push(next), rest.drop_first()),
        all_le(out.push(next), other),
{
    let leq = |x: Spelling, y: Spelling| triple_le(x, y);
    lemma_triple_order();
    let pushed = out.push(next);
    assert forall|i: int, j: int| 0 <= i < j < pushed.len() implies #[trigger] leq(
        pushed[i],
        pushed[j],
    ) by {
        if j < out.len() {
            assert(leq(out[i], out[j]));
        } else {
            assert(triple_le(out[i], rest[0]));
        }
    }
    assert forall|i: int, j: int|
        0 <= i < pushed.len() && 0 <= j < rest.drop_first().len() implies triple_le(
        #[trigger] pushed[i],
        #[trigger] rest.drop_first()[j],
    ) by {
        if i < out.len() {
            assert(triple_le(out[i], rest[j + 1]));
        } else {
            assert(leq(rest[0], rest[j + 1]));
        }
    }
    assert forall|i: int, j: int| 0 <= i < pushed.len() && 0 <= j < other.len() implies triple_le(
        #[trigger] pushed[i],
        #[trigger] other[j],
    ) by {
        if i < out.len() {
            assert(triple_le(out[i], other[j]));
        } else if j > 0 {
            assert(leq(next, other[0]));
            assert(leq(other[0], other[j]));
            assert(leq(next, other[j]));
        }
    }
}

proof fn lemma_push_to_sum(out: Seq<Spelling>, a: Seq<Spelling>, b: Seq<Spelling>, x: Spelling)
    requires
        out.to_multiset() == a.to_multiset().add(b.to_multiset()),
    ensures
        out.push(x).to_multiset() == a.push(x).to_multiset().add(b.to_multiset()),
        out.push(x).to_multiset() == a.to_multiset().add(b.push(x).to_multiset()),
{
    broadcast use vstd::multiset::group_multiset_axioms;

    vstd::seq_lib::to_multiset_build(out, x);
    vstd::seq_lib::to_multiset_build(a, x);
    vstd::seq_lib::to_multiset_build(b, x);
    assert(out.push(x).to_multiset() =~= a.push(x).to_multiset().add(b.to_multiset()));
    assert(out.push(x).to_multiset() =~= a.to_multiset().add(b.push(x).to_multiset()));
}

/// Two ordered lists as one.
fn merge<'a>(left: Vec<&'a Statement>, right: Vec<&'a Statement>) -> (merged: Vec<&'a Statement>)
    requires
        ascending(left.deep_view()),
        ascending(right.deep_view()),
    ensures
        ascending(merged.deep_view()),
        merged.deep_view().to_multiset() == left.deep_view().to_multiset().add(
            right.deep_view().to_multiset(),
        ),
{
    broadcast use vstd::multiset::group_multiset_axioms;

    let ghost l = left.deep_view();
    let ghost r = right.deep_view();
    let mut merged: Vec<&'a Statement> = Vec::new();
    let mut i: usize = 0;
    let mut j: usize = 0;
    proof {
        let nothing = Seq::<Spelling>::empty();
        assert(l.take(0) =~= nothing && r.take(0) =~= nothing);
        assert(merged.deep_view() =~= nothing);
        nothing.to_multiset_ensures();
        assert(nothing.to_multiset() =~= nothing.to_multiset().add(nothing.to_multiset()));
    }
    assert(l.skip(0) =~= l && r.skip(0) =~= r);
    while i < left.len() || j < right.len()
        invariant
            i <= left.len(),
            j <= right.len(),
            l == left.deep_view(),
            r == right.deep_view(),
            ascending(l.skip(i as int)),
            ascending(r.skip(j as int)),
            ascending(merged.deep_view()),
            all_le(merged.deep_view(), l.skip(i as int)),
            all_le(merged.deep_view(), r.skip(j as int)),
            merged.deep_view().to_multiset() == l.take(i as int).to_multiset().add(
                r.take(j as int).to_multiset(),
            ),
        decreases left.len() - i + (right.len() - j),
    {
        let ghost before = merged.deep_view();
        let from_left = if i == left.len() {
            false
        } else if j == right.len() {
            true
        } else {
            triple_at_most(left[i], right[j])
        };
        proof {
            if i < left.len() && j < right.len() {
                lemma_text_order(l[i as int].subject, r[j as int].subject, l[i as int].subject);
                lemma_text_order(
                    l[i as int].predicate,
                    r[j as int].predicate,
                    l[i as int].predicate,
                );
                lemma_text_order(l[i as int].object, r[j as int].object, l[i as int].object);
            }
        }
        if from_left {
            proof {
                lemma_push_next(before, l[i as int], l.skip(i as int), r.skip(j as int));
                assert(l.skip(i as int).drop_first() =~= l.skip(i + 1));
                assert(l.take(i + 1) =~= l.take(i as int).push(l[i as int]));
                lemma_tail_ascends(l.skip(i as int));
                lemma_push_to_sum(before, l.take(i as int), r.take(j as int), l[i as int]);
            }
            merged.push(left[i]);
            assert(merged.deep_view() =~= before.push(l[i as int]));
            i += 1;
        } else {
            proof {
                lemma_push_next(before, r[j as int], r.skip(j as int), l.skip(i as int));
                assert(r.skip(j as int).drop_first() =~= r.skip(j + 1));
                assert(r.take(j + 1) =~= r.take(j as int).push(r[j as int]));
                lemma_tail_ascends(r.skip(j as int));
                lemma_push_to_sum(before, l.take(i as int), r.take(j as int), r[j as int]);
            }
            merged.push(right[j]);
            assert(merged.deep_view() =~= before.push(r[j as int]));
            j += 1;
        }
    }
    assert(l.take(i as int) =~= l && r.take(j as int) =~= r);
    merged
}

proof fn lemma_tail_ascends(triples: Seq<Spelling>)
    requires
        triples.len() > 0,
        ascending(triples),
    ensures
        ascending(triples.drop_first()),
{
    let leq = |x: Spelling, y: Spelling| triple_le(x, y);
    let tail = triples.drop_first();
    assert forall|i: int, j: int| 0 <= i < j < tail.len() implies #[trigger] leq(tail[i], tail[j]) by {
        assert(leq(triples[i + 1], triples[j + 1]));
    }
}

fn merge_sort<'a>(triples: Vec<&'a Statement>) -> (sorted: Vec<&'a Statement>)
    ensures
        ascending(sorted.deep_view()),
        sorted.deep_view().to_multiset() == triples.deep_view().to_multiset(),
    decreases triples.len(),
{
    if triples.len() <= 1 {
        return triples;
    }
    let ghost all = triples.deep_view();
    let mut left = triples;
    let half: usize = left.len() / 2;
    let right = left.split_off(half);
    proof {
        assert(left.deep_view() + right.deep_view() =~= all);
        vstd::seq_lib::lemma_multiset_commutative(left.deep_view(), right.deep_view());
    }
    merge(merge_sort(left), merge_sort(right))
}

/// Puts triples in order.
pub fn sort<'a>(triples: Vec<&'a Statement>) -> (sorted: Vec<&'a Statement>)
    ensures
        sorted.deep_view() == in_order(triples.deep_view()),
{
    let ghost all = triples.deep_view();
    let sorted = merge_sort(triples);
    proof {
        let leq = |x: Spelling, y: Spelling| triple_le(x, y);
        lemma_triple_order();
        all.lemma_sort_by_ensures(leq);
        vstd::seq_lib::lemma_sorted_unique(sorted.deep_view(), in_order(all), leq);
    }
    sorted
}

} // verus!

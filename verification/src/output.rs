//! Writing triples out: one block of a format at a time.
use crate::order;
use crate::prefixes;
use crate::prefixes::PrefixMap;
use crate::rdf;
use crate::rdf::{RdfFormat, Spelling, Statement, PREFIX_KEYWORD};
use crate::store::TripleStore;
use crate::terms;
use crate::terms::NamedNode;
use crate::text;
use vstd::prelude::*;

verus! {

/// `document` without the prefix lines that it starts with.
pub open spec fn without_prefix_lines(document: Seq<u8>) -> Seq<u8>
    decreases document.len(),
{
    if rdf::starts_with_prefix_line(document) && document.len() > 0 {
        let end = text::first_index(document, '\n' as u8);
        if 0 <= end < document.len() {
            without_prefix_lines(document.skip(end + 1))
        } else {
            Seq::empty()
        }
    } else {
        document
    }
}

/// Without its prefix lines a document does not start with one, and it is the end of what it
/// was.
pub proof fn lemma_without_prefix_lines(document: Seq<u8>)
    ensures
        !rdf::starts_with_prefix_line(without_prefix_lines(document)),
        without_prefix_lines(document).is_suffix_of(document),
        without_prefix_lines(without_prefix_lines(document)) == without_prefix_lines(document),
    decreases document.len(),
{
    lemma_keyword_bytes();
    if rdf::starts_with_prefix_line(document) {
        text::lemma_first_index(document, '\n' as u8);
        let end = text::first_index(document, '\n' as u8);
        if end < document.len() {
            lemma_without_prefix_lines(document.skip(end + 1));
        }
    }
}

proof fn lemma_keyword_bytes()
    ensures
        vstd::utf8::encode_utf8(PREFIX_KEYWORD@).len() == 7,
        !vstd::utf8::encode_utf8(PREFIX_KEYWORD@).contains('\n' as u8),
{
    reveal_strlit("@prefix");
    vstd::utf8::is_ascii_chars_encode_utf8(PREFIX_KEYWORD@);
    text::lemma_encoded_without_line_feed(PREFIX_KEYWORD@);
}

/// Whether `word` stands in `bytes` at `from`.
fn stands_at(bytes: &Vec<u8>, from: usize, word: &[u8]) -> (r: bool)
    requires
        from <= bytes.len(),
    ensures
        r == word@.is_prefix_of(bytes@.skip(from as int)),
{
    if bytes.len() - from < word.len() {
        return false;
    }
    let mut i: usize = 0;
    while i < word.len()
        invariant
            i <= word.len() <= bytes.len() - from,
            forall|j: int| 0 <= j < i ==> #[trigger] word@[j] == bytes@.skip(from as int)[j],
        decreases word.len() - i,
    {
        assert(bytes@.skip(from as int)[i as int] == bytes@[from + i]);
        if bytes[from + i] != word[i] {
            return false;
        }
        i += 1;
    }
    assert(word@ =~= bytes@.skip(from as int).subrange(0, word@.len() as int));
    true
}

/// Where the line that stands at `from` ends; the end of `bytes` if it does not.
fn line_end(bytes: &Vec<u8>, from: usize) -> (at: usize)
    requires
        from <= bytes.len(),
    ensures
        from <= at <= bytes.len(),
        at == from + text::first_index(bytes@.skip(from as int), '\n' as u8),
{
    let mut at: usize = from;
    while at < bytes.len() && bytes[at] != '\n' as u8
        invariant
            from <= at <= bytes.len(),
            text::first_index(bytes@.skip(from as int), '\n' as u8) == at - from
                + text::first_index(bytes@.skip(at as int), '\n' as u8),
        decreases bytes.len() - at,
    {
        assert(bytes@.skip(at as int).drop_first() =~= bytes@.skip(at + 1));
        at += 1;
    }
    at
}

/// Drops the prefix lines that `document` starts with.
pub fn strip_prefix_lines(document: Vec<u8>) -> (rest: Vec<u8>)
    ensures
        rest@ == without_prefix_lines(document@),
{
    let ghost all = document@;
    let mut from: usize = 0;
    proof {
        lemma_keyword_bytes();
        assert(all.skip(0) =~= all);
    }
    while stands_at(&document, from, PREFIX_KEYWORD.as_bytes())
        invariant
            from <= document.len(),
            all == document@,
            vstd::utf8::encode_utf8(PREFIX_KEYWORD@).len() == 7,
            without_prefix_lines(all) == without_prefix_lines(all.skip(from as int)),
        decreases document.len() - from,
    {
        let end = line_end(&document, from);
        if end < document.len() {
            assert(all.skip(from as int).skip(end - from + 1) =~= all.skip(end + 1));
            from = end + 1;
        } else {
            assert(without_prefix_lines(all) =~= Seq::empty());
            return Vec::new();
        }
    }
    let mut head = document;
    let rest = head.split_off(from);
    assert(rest@ =~= all.skip(from as int));
    rest
}

/// Why triples cannot be written.
#[derive(Debug, Clone, Copy, PartialEq, Eq, Structural)]
pub enum FlushError {
    /// A prefix stands for something that is no IRI.
    InvalidPrefix,
    /// The format has no way to write the triples.
    Unwritable,
}

/// What is written of triples: in N-Triples and N-Quads a line each, in Turtle a document of
/// the triples in order, whose prefix lines are left out unless it is the first. There is no
/// Turtle where a prefix stands for something that is no IRI.
pub open spec fn block(
    format: RdfFormat,
    prefixes: Map<Seq<char>, Seq<char>>,
    graph: Option<Seq<char>>,
    first_time: bool,
    triples: Seq<Spelling>,
) -> Option<Seq<u8>> {
    match format {
        RdfFormat::NTriples => Some(vstd::utf8::encode_utf8(rdf::lines(triples, None))),
        RdfFormat::NQuads => Some(vstd::utf8::encode_utf8(rdf::lines(triples, graph))),
        RdfFormat::Turtle => if rdf::are_iris(prefixes) {
            let document = rdf::written(format, prefixes, order::in_order(triples))->0;
            Some(
                if first_time {
                    document
                } else {
                    without_prefix_lines(document)
                },
            )
        } else {
            None
        },
        _ => rdf::written(format, Map::empty(), triples),
    }
}

/// The lines that declare prefixes at the start of a document go with its prefix lines: what is
/// left is what is left of the rest. A name or an IRI with a line feed would make more than one
/// line.
pub proof fn lemma_declarations_are_prefix_lines(
    names: Seq<Seq<char>>,
    prefixes: Map<Seq<char>, Seq<char>>,
    rest: Seq<u8>,
)
    requires
        forall|i: int|
            0 <= i < names.len() ==> !(#[trigger] names[i]).contains('\n')
                && !prefixes[names[i]].contains('\n'),
    ensures
        without_prefix_lines(
            vstd::utf8::encode_utf8(rdf::declarations(names, prefixes)) + rest,
        ) == without_prefix_lines(rest),
    decreases names.len(),
{
    if names.len() == 0 {
        let nothing = rdf::declarations(names, prefixes);
        assert(nothing.len() == 0);
        assert(vstd::utf8::encode_utf8(nothing).len() == 0);
        assert(vstd::utf8::encode_utf8(nothing) + rest =~= rest);
    } else {
        let fewer = names.skip(1);
        assert forall|i: int| 0 <= i < fewer.len() implies !(#[trigger] fewer[i]).contains('\n')
            && !prefixes[fewer[i]].contains('\n') by {
            assert(fewer[i] == names[i + 1]);
        }
        lemma_declarations_are_prefix_lines(fewer, prefixes, rest);
        let line = rdf::declaration(names[0], prefixes[names[0]]);
        let later = vstd::utf8::encode_utf8(rdf::declarations(fewer, prefixes));
        text::lemma_encoded_in_turn(line, rdf::declarations(fewer, prefixes));
        assert(!names[0].contains('\n') && !prefixes[names[0]].contains('\n'));
        lemma_declaration_is_prefix_line(names[0], prefixes[names[0]], later + rest);
        assert(vstd::utf8::encode_utf8(rdf::declarations(names, prefixes)) + rest
            =~= vstd::utf8::encode_utf8(line) + (later + rest));
    }
}

proof fn lemma_declaration_is_prefix_line(prefix: Seq<char>, iri: Seq<char>, rest: Seq<u8>)
    requires
        !prefix.contains('\n'),
        !iri.contains('\n'),
    ensures
        ({
            let document = vstd::utf8::encode_utf8(rdf::declaration(prefix, iri)) + rest;
            let end = text::first_index(document, '\n' as u8);
            &&& rdf::starts_with_prefix_line(document)
            &&& 0 <= end < document.len()
            &&& document.skip(end + 1) == rest
        }),
{
    reveal_strlit("@prefix");
    reveal_strlit(" ");
    reveal_strlit(": <");
    reveal_strlit("> .");
    lemma_keyword_bytes();
    let behind = " "@ + prefix + ": <"@ + iri + "> ."@;
    let body = PREFIX_KEYWORD@ + behind;
    let end = seq!['\n'];
    let bytes = vstd::utf8::encode_utf8(body);
    let document = vstd::utf8::encode_utf8(rdf::declaration(prefix, iri)) + rest;
    text::lemma_encoded_in_turn(body, end);
    text::lemma_encoded_in_turn(PREFIX_KEYWORD@, behind);
    vstd::utf8::is_ascii_chars_encode_utf8(end);
    assert(vstd::utf8::encode_utf8(end) =~= seq!['\n' as u8]);
    assert(!body.contains('\n')) by {
        assert forall|i: int| 0 <= i < body.len() implies #[trigger] body[i] != '\n' by {
            let (p, q) = (8 + prefix.len(), 8 + prefix.len() + 3 + iri.len());
            if 8 <= i < p {
                assert(body[i] == prefix[i - 8]);
            } else if p + 3 <= i < q {
                assert(body[i] == iri[i - p - 3]);
            }
        }
    }
    text::lemma_encoded_without_line_feed(body);
    assert(document =~= bytes + (seq!['\n' as u8] + rest));
    assert(rdf::starts_with_prefix_line(document)) by {
        let word = vstd::utf8::encode_utf8(PREFIX_KEYWORD@);
        assert(document.subrange(0, word.len() as int) =~= word);
    }
    text::lemma_first_index(document, '\n' as u8);
    let at = text::first_index(document, '\n' as u8);
    assert(document[bytes.len() as int] == '\n' as u8);
    if at < bytes.len() {
        assert(bytes[at] == '\n' as u8);
    }
    assert(document.skip(at + 1) =~= rest);
}

/// How many lines of a document start like a declaration of a prefix.
pub open spec fn prefix_lines(document: Seq<u8>) -> nat
    decreases document.len(),
{
    if document.len() == 0 {
        0
    } else {
        let first: nat = if rdf::starts_with_prefix_line(document) {
            1
        } else {
            0
        };
        let end = text::first_index(document, '\n' as u8);
        if 0 <= end < document.len() {
            first + prefix_lines(document.skip(end + 1))
        } else {
            first
        }
    }
}

/// A document that declares its prefixes has as many prefix lines as there are prefixes, unless
/// a prefix is spelled like the word that declares one.
pub proof fn lemma_one_line_per_prefix(document: Seq<u8>, prefixes: Map<Seq<char>, Seq<char>>)
    requires
        rdf::declares(document, prefixes),
        rdf::are_plain(prefixes),
    ensures
        prefix_lines(document) == prefixes.dom().len(),
{
    let (names, rest) = choose|names: Seq<Seq<char>>, rest: Seq<u8>| #[trigger]
        rdf::declares_in_order(document, prefixes, names, rest);
    assert forall|i: int| 0 <= i < names.len() implies prefixes.contains_key(
        #[trigger] names[i],
    ) by {
        assert(names.to_set().contains(names[i]));
    }
    lemma_lines_of_declarations(names, prefixes, rest);
    lemma_no_lines_in_body(rest, 0);
    assert(rest.skip(0) =~= rest);
    names.unique_seq_to_set();
}

proof fn lemma_lines_of_declarations(
    names: Seq<Seq<char>>,
    prefixes: Map<Seq<char>, Seq<char>>,
    rest: Seq<u8>,
)
    requires
        prefixes::are_on_one_line(prefixes),
        forall|i: int| 0 <= i < names.len() ==> prefixes.contains_key(#[trigger] names[i]),
    ensures
        prefix_lines(vstd::utf8::encode_utf8(rdf::declarations(names, prefixes)) + rest)
            == names.len() + prefix_lines(rest),
    decreases names.len(),
{
    if names.len() == 0 {
        let nothing = rdf::declarations(names, prefixes);
        assert(nothing.len() == 0);
        assert(vstd::utf8::encode_utf8(nothing) + rest =~= rest);
    } else {
        let fewer = names.skip(1);
        assert forall|i: int| 0 <= i < fewer.len() implies prefixes.contains_key(
            #[trigger] fewer[i],
        ) by {
            assert(fewer[i] == names[i + 1]);
        }
        lemma_lines_of_declarations(fewer, prefixes, rest);
        let line = rdf::declaration(names[0], prefixes[names[0]]);
        let later = vstd::utf8::encode_utf8(rdf::declarations(fewer, prefixes));
        text::lemma_encoded_in_turn(line, rdf::declarations(fewer, prefixes));
        assert(prefixes.contains_key(names[0]));
        lemma_declaration_is_prefix_line(names[0], prefixes[names[0]], later + rest);
        assert(vstd::utf8::encode_utf8(rdf::declarations(names, prefixes)) + rest
            =~= vstd::utf8::encode_utf8(line) + (later + rest));
    }
}

proof fn lemma_no_lines_in_body(bytes: Seq<u8>, from: int)
    requires
        rdf::is_body(bytes),
        0 <= from <= bytes.len(),
        from == 0 || bytes[from - 1] == '\n' as u8,
    ensures
        prefix_lines(bytes.skip(from)) == 0,
    decreases bytes.len() - from,
{
    let left = bytes.skip(from);
    if from < bytes.len() {
        text::lemma_first_index(left, '\n' as u8);
        let end = text::first_index(left, '\n' as u8);
        if 0 <= end < left.len() {
            assert(left[end] == bytes[from + end]);
            lemma_no_lines_in_body(bytes, from + end + 1);
            assert(left.skip(end + 1) =~= bytes.skip(from + end + 1));
        }
    }
}

/// Of a document that starts with the declarations of its prefixes, what is left without its
/// prefix lines declares none.
proof fn lemma_body_is_left(document: Seq<u8>, prefixes: Map<Seq<char>, Seq<char>>)
    requires
        rdf::declares(document, prefixes),
        rdf::are_plain(prefixes),
    ensures
        rdf::is_body(without_prefix_lines(document)),
{
    let (names, rest) = choose|names: Seq<Seq<char>>, rest: Seq<u8>| #[trigger]
        rdf::declares_in_order(document, prefixes, names, rest);
    assert forall|i: int| 0 <= i < names.len() implies !(#[trigger] names[i]).contains('\n')
        && !prefixes[names[i]].contains('\n') by {
        assert(names.to_set().contains(names[i]));
        assert(prefixes.contains_key(names[i]));
    }
    lemma_declarations_are_prefix_lines(names, prefixes, rest);
    assert(rest.skip(0) =~= rest);
}

/// Lines behind lines that declare no prefix: if neither the ones nor the others declare one, all
/// of them together do not.
pub proof fn lemma_bodies_in_turn(first: Seq<u8>, second: Seq<u8>)
    requires
        rdf::is_body(first),
        rdf::is_body(second),
    ensures
        rdf::is_body(first + second),
{
    let word = vstd::utf8::encode_utf8(PREFIX_KEYWORD@);
    let all = first + second;
    let n = first.len() as int;
    lemma_keyword_bytes();
    assert forall|i: int|
        0 <= i < all.len() && (i == 0 || all[i - 1] == '\n' as u8) implies
        !rdf::starts_with_prefix_line(#[trigger] all.skip(i)) by {
        if i < n {
            assert(!rdf::starts_with_prefix_line(first.skip(i)));
            if rdf::starts_with_prefix_line(all.skip(i)) {
                assert(word =~= all.skip(i).subrange(0, 7));
                if n < i + 7 {
                    assert(word[n - 1 - i] == all[n - 1]);
                    assert(word.contains('\n' as u8));
                }
                assert(word =~= first.skip(i).subrange(0, 7));
            }
        } else {
            assert(all.skip(i) =~= second.skip(i - n));
            assert(i == n || second[i - n - 1] == '\n' as u8);
            assert(!rdf::starts_with_prefix_line(second.skip(i - n)));
        }
    }
}

/// A document that declares its prefixes still does with lines behind it that declare none.
pub proof fn lemma_declared_once(
    document: Seq<u8>,
    prefixes: Map<Seq<char>, Seq<char>>,
    more: Seq<u8>,
)
    requires
        rdf::declares(document, prefixes),
        rdf::are_plain(prefixes) ==> rdf::is_body(more),
    ensures
        rdf::declares(document + more, prefixes),
{
    let (names, rest) = choose|names: Seq<Seq<char>>, rest: Seq<u8>| #[trigger]
        rdf::declares_in_order(document, prefixes, names, rest);
    if rdf::are_plain(prefixes) {
        lemma_bodies_in_turn(rest, more);
    }
    assert(document + more =~= vstd::utf8::encode_utf8(rdf::declarations(names, prefixes)) + (rest
        + more));
    assert(rdf::declares_in_order(document + more, prefixes, names, rest + more));
}

/// In Turtle a later block is what the first one would be without the prefix lines that it starts
/// with.
pub proof fn lemma_later_blocks_are_cut(
    prefixes: Map<Seq<char>, Seq<char>>,
    graph: Option<Seq<char>>,
    triples: Seq<Spelling>,
)
    requires
        rdf::are_iris(prefixes),
    ensures
        block(RdfFormat::Turtle, prefixes, graph, true, triples) matches Some(bytes) && block(
            RdfFormat::Turtle,
            prefixes,
            graph,
            false,
            triples,
        ) == Some(without_prefix_lines(bytes)),
{
}

/// Where a block of Turtle is not the first, it does not start with a prefix line.
pub proof fn lemma_later_blocks_declare_nothing(
    prefixes: Map<Seq<char>, Seq<char>>,
    graph: Option<Seq<char>>,
    triples: Seq<Spelling>,
)
    requires
        rdf::are_iris(prefixes),
    ensures
        block(RdfFormat::Turtle, prefixes, graph, false, triples) matches Some(bytes)
            && !rdf::starts_with_prefix_line(bytes),
{
    lemma_without_prefix_lines(
        rdf::written(RdfFormat::Turtle, prefixes, order::in_order(triples))->0,
    );
}

/// In Turtle it does not matter in which order the triples came.
pub proof fn lemma_turtle_ignores_arrival(
    prefixes: Map<Seq<char>, Seq<char>>,
    graph: Option<Seq<char>>,
    first_time: bool,
    triples: Seq<Spelling>,
    others: Seq<Spelling>,
)
    requires
        triples.to_multiset() == others.to_multiset(),
    ensures
        block(RdfFormat::Turtle, prefixes, graph, first_time, triples) == block(
            RdfFormat::Turtle,
            prefixes,
            graph,
            first_time,
            others,
        ),
{
    order::lemma_in_order(triples, others);
}

/// A first block of Turtle is the document of all its triples, each as often as it was there, in
/// ascending order: subjects first, then predicates, then objects.
pub proof fn lemma_turtle_lists_all(
    prefixes: Map<Seq<char>, Seq<char>>,
    graph: Option<Seq<char>>,
    triples: Seq<Spelling>,
    listed: Seq<Spelling>,
)
    requires
        rdf::are_iris(prefixes),
        listed.to_multiset() == triples.to_multiset(),
        forall|i: int, j: int|
            0 <= i < j < listed.len() ==> order::triple_le(
                #[trigger] listed[i],
                #[trigger] listed[j],
            ),
    ensures
        block(RdfFormat::Turtle, prefixes, graph, true, triples) == Some(
            rdf::written(RdfFormat::Turtle, prefixes, listed)->0,
        ),
        exists|same: Seq<Spelling>|
            {
                &&& same.to_multiset() == triples.to_multiset()
                &&& same.len() == triples.len()
                &&& block(RdfFormat::Turtle, prefixes, graph, true, triples) == Some(
                    (#[trigger] rdf::written(RdfFormat::Turtle, prefixes, same))->0,
                )
            },
{
    order::lemma_in_order(triples, triples);
    order::lemma_one_order(triples, listed);
    listed.to_multiset_ensures();
    triples.to_multiset_ensures();
}

/// A block of N-Triples is the lines of its triples in the order in which they came; one of
/// N-Quads is their lines with the graph.
pub proof fn lemma_blocks_of_lines(
    prefixes: Map<Seq<char>, Seq<char>>,
    graph: Option<Seq<char>>,
    first_time: bool,
    first: Seq<Spelling>,
    second: Seq<Spelling>,
    triple: Spelling,
)
    ensures
        block(RdfFormat::NTriples, prefixes, graph, first_time, first) == Some(
            vstd::utf8::encode_utf8(rdf::lines(first, None)),
        ),
        block(RdfFormat::NQuads, prefixes, graph, first_time, first) == Some(
            vstd::utf8::encode_utf8(rdf::lines(first, graph)),
        ),
        rdf::lines(first + second, graph) == rdf::lines(first, graph) + rdf::lines(second, graph),
        rdf::lines(seq![triple], None) == triple.subject + seq![' '] + triple.predicate + seq![' ']
            + triple.object + seq![' ', '.', '\n'],
        graph matches Some(iri) ==> rdf::lines(seq![triple], graph) == triple.subject + seq![' ']
            + triple.predicate + seq![' '] + triple.object + seq![' ', '<'] + iri + seq![
            '>',
            ' ',
            '.',
            '\n',
        ],
{
    rdf::lemma_lines_in_turn(first, second, graph);
    let one = seq![triple];
    let nothing = one.drop_last();
    assert(nothing.len() == 0);
    assert(rdf::lines(nothing, None).len() == 0 && rdf::lines(nothing, graph).len() == 0);
    assert(rdf::lines(one, None) =~= rdf::line(triple, None));
    assert(rdf::lines(one, graph) =~= rdf::line(triple, graph));
    if let Some(iri) = graph {
        assert(rdf::line(triple, graph) =~= triple.subject + seq![' '] + triple.predicate + seq![
            ' ',
        ] + triple.object + seq![' ', '<'] + iri + seq!['>', ' ', '.', '\n']);
    }
}

/// Only prefix lines are taken off a document, and only at its start: without one there nothing
/// is, and behind one it goes on with what stands behind it.
pub proof fn lemma_prefix_line_taken_off(line: Seq<u8>, rest: Seq<u8>)
    requires
        !line.contains('\n' as u8),
    ensures
        !rdf::starts_with_prefix_line(rest) ==> without_prefix_lines(rest) == rest,
        rdf::starts_with_prefix_line(line) ==> without_prefix_lines(line + seq!['\n' as u8] + rest)
            == without_prefix_lines(rest),
        rdf::starts_with_prefix_line(line) ==> without_prefix_lines(line).len() == 0,
        rdf::starts_with_prefix_line(line) <==> 7 <= line.len() && line.subrange(0, 7) == seq![
            '@' as u8,
            'p' as u8,
            'r' as u8,
            'e' as u8,
            'f' as u8,
            'i' as u8,
            'x' as u8,
        ],
{
    lemma_keyword_bytes();
    reveal_strlit("@prefix");
    vstd::utf8::is_ascii_chars_encode_utf8(PREFIX_KEYWORD@);
    let word = vstd::utf8::encode_utf8(PREFIX_KEYWORD@);
    assert(word =~= seq![
        '@' as u8,
        'p' as u8,
        'r' as u8,
        'e' as u8,
        'f' as u8,
        'i' as u8,
        'x' as u8,
    ]);
    let all = line + seq!['\n' as u8] + rest;
    let n = line.len() as int;
    if rdf::starts_with_prefix_line(line) {
        assert(word =~= line.subrange(0, 7));
        assert(word =~= all.subrange(0, 7));
        text::lemma_first_index(all, '\n' as u8);
        let at = text::first_index(all, '\n' as u8);
        assert(all[n] == '\n' as u8);
        if at < n {
            assert(line[at] == all[at]);
            assert(line.contains('\n' as u8));
        }
        assert(all.skip(at + 1) =~= rest);
        text::lemma_first_index(line, '\n' as u8);
        let end = text::first_index(line, '\n' as u8);
        if end < n {
            assert(line.contains(line[end]));
        }
    }
}

/// The prefixes and the graph count only in the formats that have them: neither in N-Triples,
/// no prefixes in N-Quads, no graph in Turtle.
pub proof fn lemma_what_counts(
    prefixes: Map<Seq<char>, Seq<char>>,
    graph: Option<Seq<char>>,
    first_time: bool,
    triples: Seq<Spelling>,
)
    ensures
        block(RdfFormat::NTriples, prefixes, graph, first_time, triples) == block(
            RdfFormat::NTriples,
            Map::empty(),
            None,
            true,
            triples,
        ),
        block(RdfFormat::NQuads, prefixes, graph, first_time, triples) == block(
            RdfFormat::NQuads,
            Map::empty(),
            graph,
            true,
            triples,
        ),
        block(RdfFormat::Turtle, prefixes, graph, first_time, triples) == block(
            RdfFormat::Turtle,
            prefixes,
            None,
            first_time,
            triples,
        ),
{
}

/// Whether these bytes are a block of Turtle: a first one declares the prefixes, and a later one
/// none.
pub open spec fn is_turtle_block(
    prefixes: Map<Seq<char>, Seq<char>>,
    first_time: bool,
    bytes: Seq<u8>,
) -> bool {
    if first_time {
        rdf::declares(bytes, prefixes)
    } else {
        rdf::are_plain(prefixes) ==> rdf::is_body(bytes)
    }
}

/// Why there is no block in a format.
pub open spec fn reason(format: RdfFormat) -> FlushError {
    if format == RdfFormat::Turtle {
        FlushError::InvalidPrefix
    } else {
        FlushError::Unwritable
    }
}

/// Only Turtle can fail for its prefixes, and it does exactly where one of them stands for
/// something that is no IRI. A format other than Turtle, N-Triples and N-Quads has the document of
/// the triples without prefixes.
pub proof fn lemma_what_can_be_written(
    prefixes: Map<Seq<char>, Seq<char>>,
    graph: Option<Seq<char>>,
    first_time: bool,
    triples: Seq<Spelling>,
    format: RdfFormat,
)
    ensures
        block(RdfFormat::Turtle, prefixes, graph, first_time, triples) is Some <==> forall|
            prefix: Seq<char>,
        | #[trigger]
            prefixes.contains_key(prefix) ==> terms::is_iri(prefixes[prefix]),
        format != RdfFormat::Turtle && format != RdfFormat::NTriples && format != RdfFormat::NQuads
            ==> block(format, prefixes, graph, first_time, triples) == rdf::written(
            format,
            Map::empty(),
            triples,
        ),
        reason(RdfFormat::Turtle) == FlushError::InvalidPrefix,
        format != RdfFormat::Turtle ==> reason(format) == FlushError::Unwritable,
{
}

fn references(triples: &Vec<Statement>) -> (list: Vec<&Statement>)
    ensures
        list.deep_view() == triples.deep_view(),
{
    let mut list: Vec<&Statement> = Vec::new();
    for i in 0..triples.len()
        invariant
            list.deep_view() =~= triples.deep_view().take(i as int),
    {
        let ghost before = list.deep_view();
        list.push(&triples[i]);
        assert(list.deep_view() =~= before.push(triples[i as int]@));
    }
    assert(triples.deep_view().take(triples.len() as int) =~= triples.deep_view());
    list
}

/// Writes out the triples of the store, which is empty then. Where they cannot be written,
/// nothing is written and the store stays as it is.
pub fn flush_store(
    store: &mut TripleStore,
    out_writer: &mut Vec<u8>,
    format: RdfFormat,
    prefixes: &PrefixMap,
    first_time: bool,
    graph_name: Option<&NamedNode>,
) -> (result: Result<(), FlushError>)
    ensures
        ({
            let graph = match graph_name {
                Some(node) => Some(node@),
                None => None,
            };
            match block(format, prefixes@, graph, first_time, old(store)@) {
                Some(bytes) => {
                    &&& result is Ok
                    &&& final(out_writer)@ == old(out_writer)@ + bytes
                    &&& final(store)@ == Seq::<Spelling>::empty()
                },
                None => {
                    &&& result == Err::<(), FlushError>(reason(format))
                    &&& final(out_writer)@ == old(out_writer)@
                    &&& final(store)@ == old(store)@
                },
            }
        }),
        format == RdfFormat::Turtle && old(store)@.len() > 0 && result is Ok ==> is_turtle_block(
            prefixes@,
            first_time,
            final(out_writer)@.skip(old(out_writer)@.len() as int),
        ),
{
    let none = PrefixMap::new();
    let listed = references(store.triples());
    let document = match format {
        RdfFormat::Turtle => rdf::write_document(format, prefixes, None, &order::sort(listed)),
        RdfFormat::NQuads => rdf::write_document(format, &none, graph_name, &listed),
        _ => rdf::write_document(format, &none, None, &listed),
    };
    match document {
        Some(document) => {
            let ghost whole = document@;
            let mut bytes = match format {
                RdfFormat::Turtle if !first_time => strip_prefix_lines(document),
                _ => document,
            };
            let ghost written = bytes@;
            out_writer.append(&mut bytes);
            proof {
                order::lemma_in_order(store@, store@);
                store@.to_multiset_ensures();
                order::in_order(store@).to_multiset_ensures();
                assert(out_writer@.skip(old(out_writer)@.len() as int) =~= written);
                if format == RdfFormat::Turtle && store@.len() > 0 && rdf::are_plain(prefixes@) {
                    lemma_body_is_left(whole, prefixes@);
                }
            }
            store.clear();
            Ok(())
        },
        None => match format {
            RdfFormat::Turtle => Err(FlushError::InvalidPrefix),
            _ => Err(FlushError::Unwritable),
        },
    }
}

} // verus!

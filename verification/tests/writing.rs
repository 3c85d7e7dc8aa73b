use oxi_gen::flush_store;
use oxi_gen::order::{sort, triple_at_most};
use oxi_gen::output::FlushError;
use oxi_gen::prefixes::PrefixMap;
use oxi_gen::rdf::{RdfFormat, Statement};
use oxi_gen::store::TripleStore;
use oxi_gen::terms::NamedNode;
use oxi_gen::windows::Writer;

fn node(name: &str) -> NamedNode {
    NamedNode::new(format!("http://example.org/{}", name)).unwrap()
}

fn triple(subject: &str, predicate: &str, object: &str) -> Statement {
    Statement::new(&node(subject), &node(predicate), &node(object))
}

fn line(subject: &str, predicate: &str, object: &str) -> String {
    format!(
        "<http://example.org/{}> <http://example.org/{}> <http://example.org/{}> .\n",
        subject, predicate, object
    )
}

fn example_prefixes() -> PrefixMap {
    let mut prefixes = PrefixMap::new();
    prefixes.insert("ex".to_string(), "http://example.org/".to_string());
    prefixes
}

fn text(bytes: &[u8]) -> String {
    String::from_utf8(bytes.to_vec()).unwrap()
}

#[test]
fn a_triple_is_spelled_as_in_ntriples() {
    let t = triple("s", "p", "o");
    assert_eq!(t.subject(), "<http://example.org/s>");
    assert_eq!(t.predicate(), "<http://example.org/p>");
    assert_eq!(t.object(), "<http://example.org/o>");
}

#[test]
fn a_store_holds_no_triple_twice() {
    let mut store = TripleStore::new();
    assert!(store.is_empty());
    assert!(store.insert(triple("b", "p", "o")));
    assert!(store.insert(triple("a", "p", "o")));
    assert!(!store.insert(triple("b", "p", "o")));
    assert_eq!(store.len(), 2);
    assert_eq!(store.triples()[0].subject(), "<http://example.org/b>");
    store.clear();
    assert!(store.is_empty());
    assert!(store.insert(triple("a", "p", "o")));
}

#[test]
fn triples_come_into_a_store_once_each() {
    let mut store = TripleStore::new();
    store.extend(vec![triple("a", "p", "o"), triple("b", "p", "o"), triple("a", "p", "o")]);
    assert_eq!(store.len(), 2);
    store.extend(vec![triple("b", "p", "o")]);
    assert_eq!(store.len(), 2);
    store.extend(Vec::new());
    assert_eq!(store.len(), 2);
}

#[test]
fn triples_may_come_into_a_store_in_parts() {
    let (mut at_once, mut in_parts) = (TripleStore::new(), TripleStore::new());
    at_once.extend(vec![triple("b", "p", "o"), triple("a", "p", "o"), triple("b", "p", "o")]);
    in_parts.extend(vec![triple("b", "p", "o")]);
    in_parts.extend(vec![triple("a", "p", "o"), triple("b", "p", "o")]);
    assert_eq!(at_once.len(), in_parts.len());
    for i in 0..at_once.len() {
        assert_eq!(at_once.triples()[i].subject(), in_parts.triples()[i].subject());
    }
}

#[test]
fn turtle_does_not_depend_on_the_order_of_arrival() {
    let documents: Vec<Vec<u8>> = [["a", "b", "c"], ["c", "a", "b"]]
        .iter()
        .map(|subjects| {
            let mut store = TripleStore::new();
            for subject in subjects {
                store.insert(triple(subject, "p", "o"));
            }
            let mut out: Vec<u8> = Vec::new();
            flush_store(&mut store, &mut out, RdfFormat::Turtle, &example_prefixes(), true, None)
                .unwrap();
            out
        })
        .collect();
    assert_eq!(documents[0], documents[1]);
}

#[test]
fn triples_that_look_alike_are_told_apart() {
    let mut store = TripleStore::new();
    let odd = |iri: &str| NamedNode::new(iri.to_string()).unwrap();
    assert!(store.insert(Statement::new(&odd("x:a"), &odd("x:b"), &odd("x:c"))));
    assert!(store.insert(Statement::new(&odd("x:a"), &odd("x:c"), &odd("x:b"))));
    assert!(store.insert(Statement::new(&odd("x:b"), &odd("x:a"), &odd("x:c"))));
    assert_eq!(store.len(), 3);
}

#[test]
fn triples_are_ordered_by_subject_then_predicate_then_object() {
    let sorted = vec![
        triple("a", "p", "x"),
        triple("a", "p", "y"),
        triple("a", "q", "a"),
        triple("b", "a", "a"),
    ];
    for i in 0..sorted.len() {
        for j in 0..sorted.len() {
            assert_eq!(triple_at_most(&sorted[i], &sorted[j]), i <= j);
        }
    }
    let shuffled: Vec<&Statement> = vec![&sorted[2], &sorted[0], &sorted[3], &sorted[1]];
    let ordered = sort(shuffled);
    for i in 0..sorted.len() {
        assert_eq!(ordered[i].object(), sorted[i].object());
        assert_eq!(ordered[i].subject(), sorted[i].subject());
    }
    assert!(sort(Vec::new()).is_empty());
}

#[test]
fn a_graph_goes_into_nquads() {
    let mut store = TripleStore::new();
    store.insert(triple("s", "p", "o"));
    let mut out = b"before\n".to_vec();
    let graph = node("g");
    flush_store(&mut store, &mut out, RdfFormat::NQuads, &example_prefixes(), true, Some(&graph))
        .unwrap();
    assert_eq!(
        text(&out),
        "before\n<http://example.org/s> <http://example.org/p> <http://example.org/o> \
         <http://example.org/g> .\n"
    );
    assert!(store.is_empty());
}

#[test]
fn nquads_do_without_a_graph() {
    let mut store = TripleStore::new();
    store.insert(triple("s", "p", "o"));
    let mut out: Vec<u8> = Vec::new();
    flush_store(&mut store, &mut out, RdfFormat::NQuads, &PrefixMap::new(), true, None).unwrap();
    assert_eq!(text(&out), line("s", "p", "o"));
}

#[test]
fn turtle_is_in_order_and_declares_prefixes_once() {
    let mut store = TripleStore::new();
    store.insert(triple("s2", "p", "o"));
    store.insert(triple("s1", "p", "o2"));
    store.insert(triple("s1", "p", "o1"));
    let mut out: Vec<u8> = Vec::new();
    let prefixes = example_prefixes();
    flush_store(&mut store, &mut out, RdfFormat::Turtle, &prefixes, true, None).unwrap();
    assert_eq!(
        text(&out),
        "@prefix ex: <http://example.org/> .\nex:s1 ex:p ex:o1 , ex:o2 .\nex:s2 ex:p ex:o .\n"
    );
    store.insert(triple("s3", "p", "o"));
    let mut later: Vec<u8> = Vec::new();
    flush_store(&mut store, &mut later, RdfFormat::Turtle, &prefixes, false, None).unwrap();
    assert_eq!(text(&later), "ex:s3 ex:p ex:o .\n");
}

#[test]
fn turtle_takes_no_graph() {
    let mut store = TripleStore::new();
    store.insert(triple("s", "p", "o"));
    let mut out: Vec<u8> = Vec::new();
    let graph = node("g");
    flush_store(&mut store, &mut out, RdfFormat::Turtle, &PrefixMap::new(), true, Some(&graph))
        .unwrap();
    assert_eq!(text(&out), line("s", "p", "o"));
}

#[test]
fn turtle_refuses_prefixes_that_are_no_iris() {
    let mut prefixes = PrefixMap::new();
    prefixes.insert("bad".to_string(), "not an iri".to_string());
    let mut store = TripleStore::new();
    store.insert(triple("s", "p", "o"));
    let mut out: Vec<u8> = Vec::new();
    let result = flush_store(&mut store, &mut out, RdfFormat::Turtle, &prefixes, true, None);
    assert_eq!(result, Err(FlushError::InvalidPrefix));
    assert!(out.is_empty());
    assert_eq!(store.len(), 1);
    let result = flush_store(&mut store, &mut out, RdfFormat::NTriples, &prefixes, true, None);
    assert_eq!(result, Ok(()));
    assert_eq!(text(&out), line("s", "p", "o"));
}

#[test]
fn other_formats_are_written_without_prefixes() {
    for format in [RdfFormat::N3, RdfFormat::TriG] {
        let mut store = TripleStore::new();
        store.insert(triple("b", "p", "o"));
        store.insert(triple("a", "p", "o"));
        let mut out: Vec<u8> = Vec::new();
        flush_store(&mut store, &mut out, format, &example_prefixes(), false, None).unwrap();
        assert_eq!(text(&out), line("b", "p", "o") + &line("a", "p", "o"));
    }
    let mut store = TripleStore::new();
    store.insert(triple("s", "p", "o"));
    let mut out: Vec<u8> = Vec::new();
    flush_store(&mut store, &mut out, RdfFormat::JsonLd, &PrefixMap::new(), true, None).unwrap();
    assert!(text(&out).contains("http://example.org/s"));
}

#[test]
fn rdf_xml_refuses_some_predicates() {
    let li = "http://www.w3.org/1999/02/22-rdf-syntax-ns#li";
    let mut store = TripleStore::new();
    store.insert(Statement::new(
        &node("s"),
        &NamedNode::new(li.to_string()).unwrap(),
        &node("o"),
    ));
    let mut out: Vec<u8> = Vec::new();
    let result = flush_store(&mut store, &mut out, RdfFormat::RdfXml, &PrefixMap::new(), true, None);
    assert_eq!(result, Err(FlushError::Unwritable));
    assert_eq!(store.len(), 1);
    let mut store = TripleStore::new();
    store.insert(triple("s", "p", "o"));
    flush_store(&mut store, &mut out, RdfFormat::RdfXml, &PrefixMap::new(), true, None).unwrap();
    assert!(text(&out).contains("rdf:Description"));
}

#[test]
fn without_a_window_every_row_is_written_at_once() {
    let mut writer = Writer::new(RdfFormat::NTriples, PrefixMap::new(), None, 0);
    let mut out: Vec<u8> = Vec::new();
    writer.receive(vec![triple("a", "p", "o"), triple("a", "p", "o")], &mut out).unwrap();
    assert_eq!(text(&out), line("a", "p", "o"));
    writer.receive(Vec::new(), &mut out).unwrap();
    writer.receive(vec![triple("a", "p", "o")], &mut out).unwrap();
    writer.finish(&mut out).unwrap();
    assert_eq!(text(&out), line("a", "p", "o") + &line("a", "p", "o"));
}

#[test]
fn a_window_is_written_once_it_is_full() {
    let mut writer = Writer::new(RdfFormat::NTriples, PrefixMap::new(), None, 3);
    let mut out: Vec<u8> = Vec::new();
    writer.receive(vec![triple("a", "p", "o"), triple("b", "p", "o")], &mut out).unwrap();
    assert!(out.is_empty());
    writer.receive(vec![triple("a", "p", "o")], &mut out).unwrap();
    assert!(out.is_empty());
    writer.receive(vec![triple("c", "p", "o"), triple("d", "p", "o")], &mut out).unwrap();
    let full = line("a", "p", "o") + &line("b", "p", "o") + &line("c", "p", "o") + &line("d", "p", "o");
    assert_eq!(text(&out), full);
    writer.receive(vec![triple("a", "p", "o")], &mut out).unwrap();
    assert_eq!(text(&out), full);
    writer.finish(&mut out).unwrap();
    assert_eq!(text(&out), full + &line("a", "p", "o"));
}

#[test]
fn few_triples_make_one_window() {
    let mut writer = Writer::new(RdfFormat::NTriples, PrefixMap::new(), None, 1000);
    let mut out: Vec<u8> = Vec::new();
    for _ in 0..10 {
        writer.receive(vec![triple("a", "p", "o"), triple("b", "p", "o")], &mut out).unwrap();
    }
    writer.finish(&mut out).unwrap();
    assert_eq!(text(&out), line("a", "p", "o") + &line("b", "p", "o"));
}

#[test]
fn the_order_of_rows_does_not_change_what_is_written() {
    let written = |order: [&str; 4]| {
        let mut writer = Writer::new(RdfFormat::NTriples, PrefixMap::new(), None, 2);
        let mut out: Vec<u8> = Vec::new();
        for subject in order {
            writer.receive(vec![triple(subject, "p", "o")], &mut out).unwrap();
        }
        writer.finish(&mut out).unwrap();
        let mut lines: Vec<String> = text(&out).lines().map(|line| line.to_string()).collect();
        lines.sort();
        lines.dedup();
        lines
    };
    assert_eq!(written(["a", "b", "a", "c"]), written(["c", "a", "a", "b"]));
}

#[test]
fn a_turtle_writer_declares_prefixes_in_its_first_block() {
    let mut writer = Writer::new(RdfFormat::Turtle, example_prefixes(), None, 0);
    let mut out: Vec<u8> = Vec::new();
    writer.receive(Vec::new(), &mut out).unwrap();
    writer.receive(vec![triple("b", "p", "o")], &mut out).unwrap();
    writer.receive(vec![triple("a", "p", "o")], &mut out).unwrap();
    writer.finish(&mut out).unwrap();
    assert_eq!(
        text(&out),
        "@prefix ex: <http://example.org/> .\nex:b ex:p ex:o .\nex:a ex:p ex:o .\n"
    );
}

#[test]
fn a_writer_that_cannot_write_says_so() {
    let mut prefixes = PrefixMap::new();
    prefixes.insert("bad".to_string(), "not an iri".to_string());
    let mut writer = Writer::new(RdfFormat::Turtle, prefixes, None, 2);
    let mut out: Vec<u8> = Vec::new();
    assert_eq!(writer.receive(vec![triple("a", "p", "o")], &mut out), Ok(()));
    assert_eq!(writer.finish(&mut out), Err(FlushError::InvalidPrefix));
    assert_eq!(
        writer.receive(vec![triple("b", "p", "o")], &mut out),
        Err(FlushError::InvalidPrefix)
    );
    assert!(out.is_empty());
}

#[test]
fn a_later_block_is_a_first_one_without_its_prefix_lines() {
    let block = |first_time| {
        let mut store = TripleStore::new();
        store.extend(vec![triple("s", "p", "o"), triple("a", "p", "o")]);
        let mut out: Vec<u8> = Vec::new();
        flush_store(&mut store, &mut out, RdfFormat::Turtle, &example_prefixes(), first_time, None)
            .unwrap();
        text(&out)
    };
    assert_eq!(block(true), format!("@prefix ex: <http://example.org/> .\n{}", block(false)));
    assert_eq!(block(false), "ex:a ex:p ex:o .\nex:s ex:p ex:o .\n");
}

#[test]
fn a_first_block_declares_each_prefix() {
    let mut prefixes = example_prefixes();
    prefixes.insert("".to_string(), "http://example.org/a#".to_string());
    prefixes.insert("other".to_string(), "http://example.org/".to_string());
    let mut out: Vec<u8> = Vec::new();
    let mut store = TripleStore::new();
    store.insert(triple("s", "p", "o"));
    flush_store(&mut store, &mut out, RdfFormat::Turtle, &prefixes, true, None).unwrap();
    let content = text(&out);
    for (name, iri) in prefixes.entries() {
        assert_eq!(content.matches(&format!("@prefix {}: <{}> .\n", name, iri)).count(), 1);
    }
    assert!(content.lines().take(3).all(|line| line.starts_with("@prefix")));
    assert_eq!(content.matches("@prefix").count(), 3);
}

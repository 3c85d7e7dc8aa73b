use oxi_gen::config::{Arguments, Sink, DEDUP_MAX, DEDUP_MIN, TEST_MAX, TEST_MIN};
use oxi_gen::output::FlushError;
use oxi_gen::pipeline::RowError;
use oxi_gen::rdf::{EvaluationError, RdfFormat};
use oxi_gen::table::Dialect;
use oxi_gen::terms::{ExpandError, Function, Term};
use oxi_gen::transform::TransformError;
use oxi_gen::{configure_transform, OxiGen};
use oxrdfio::RdfParser;

fn settings() -> OxiGen {
    OxiGen {
        delimiter: ",".to_string(),
        headers: true,
        escape_char: "\\".to_string(),
        quote_char: "\"".to_string(),
        ntriples: true,
        ..OxiGen::default()
    }
}

fn run(settings: &OxiGen, query: &str, input: &str) -> String {
    String::from_utf8(settings.transform(query, input.as_bytes()).unwrap()).unwrap()
}

const LABELS: &str = "PREFIX : <http://test.com/d/>
PREFIX skos: <http://www.w3.org/2004/02/skos/core#>
CONSTRUCT {
    ?s a :Item ; skos:prefLabel ?label ; skos:altLabel ?alt_label .
} WHERE {
    BIND(tarql:expandPrefixedName(CONCAT(\":\", ?id)) AS ?s)
}";

const LABEL_ROWS: &str = "id,label,alt_label\none,One,uno\ntwo,Two,\n";

#[test]
fn blank_cells_give_no_triples() {
    let content = run(&settings(), LABELS, LABEL_ROWS);
    let mut lines: Vec<&str> = content.lines().collect();
    lines.sort();
    assert_eq!(
        lines,
        vec![
            "<http://test.com/d/one> <http://www.w3.org/1999/02/22-rdf-syntax-ns#type> <http://test.com/d/Item> .",
            "<http://test.com/d/one> <http://www.w3.org/2004/02/skos/core#altLabel> \"uno\" .",
            "<http://test.com/d/one> <http://www.w3.org/2004/02/skos/core#prefLabel> \"One\" .",
            "<http://test.com/d/two> <http://www.w3.org/1999/02/22-rdf-syntax-ns#type> <http://test.com/d/Item> .",
            "<http://test.com/d/two> <http://www.w3.org/2004/02/skos/core#prefLabel> \"Two\" .",
        ]
    );
}

#[test]
fn blank_cells_are_bound_on_demand() {
    let bound = OxiGen { bind_empty_strings: true, ..settings() };
    let content = run(&bound, LABELS, LABEL_ROWS);
    assert_eq!(content.lines().count(), 6);
    assert!(content.contains("altLabel> \"\" ."));
}

#[test]
fn turtle_lists_each_row_in_order() {
    let turtle = OxiGen { ntriples: false, ..settings() };
    assert_eq!(
        run(&turtle, LABELS, LABEL_ROWS),
        "@prefix skos: <http://www.w3.org/2004/02/skos/core#> .\n\
         @prefix : <http://test.com/d/> .\n\
         :one a :Item ;\n\tskos:altLabel \"uno\" ;\n\tskos:prefLabel \"One\" .\n\
         :two a :Item ;\n\tskos:prefLabel \"Two\" .\n"
    );
}

#[test]
fn a_window_of_turtle_is_in_order_throughout() {
    let turtle = OxiGen { ntriples: false, dedup: 1000, ..settings() };
    let content = run(&turtle, LABELS, "id,label,alt_label\ntwo,Two,\none,One,uno\ntwo,Two,\n");
    assert_eq!(content.matches("@prefix").count(), 2);
    assert_eq!(content.matches(":two a :Item").count(), 1);
    assert!(content.find(":one a :Item").unwrap() < content.find(":two a :Item").unwrap());
}

#[test]
fn turtle_declares_each_prefix_once() {
    for dedup in [0u32, 1, 2, 1000] {
        let turtle = OxiGen { ntriples: false, dedup, ..settings() };
        let content = run(&turtle, LABELS, "id,label,alt_label\none,One,uno\ntwo,Two,\nx,@prefix,y\n");
        let lines: Vec<&str> = content.lines().collect();
        assert_eq!(lines[0], "@prefix skos: <http://www.w3.org/2004/02/skos/core#> .");
        assert_eq!(lines[1], "@prefix : <http://test.com/d/> .");
        assert!(lines[2..].iter().all(|line| !line.starts_with("@prefix")));
        let quads = RdfParser::from_format(oxrdfio::RdfFormat::Turtle).for_reader(content.as_bytes());
        assert_eq!(quads.map(|quad| quad.unwrap()).count(), 8);
    }
}

#[test]
fn a_line_feed_in_a_cell_starts_no_line() {
    let query = "CONSTRUCT { <http://e/s> <http://e/p> ?a } WHERE {}";
    let turtle = OxiGen { ntriples: false, ..settings() };
    assert_eq!(
        run(&turtle, query, "a\n\"1\n@prefix a: <b> .\"\n"),
        "<http://e/s> <http://e/p> \"1\\n@prefix a: <b> .\" .\n"
    );
}

#[test]
fn a_graph_makes_quads() {
    let iri = "http://example.org/graph";
    let quads = OxiGen { graph: Some(iri.to_string()), ..settings() };
    let content = run(&quads, LABELS, LABEL_ROWS);
    let mut count = 0;
    for quad in RdfParser::from_format(oxrdfio::RdfFormat::NQuads).for_reader(content.as_bytes()) {
        assert_eq!(quad.unwrap().graph_name.to_string(), format!("<{}>", iri));
        count += 1;
    }
    assert_eq!(count, 5);
}

const META: &str = "CONSTRUCT { <http://e/Meta> a <http://e/Fixed> . ?s <http://e/n> ?ROWNUM }
WHERE { BIND(IRI(CONCAT(\"http://e/\", ?id)) AS ?s) }";

#[test]
fn duplicates_go_within_a_window_only() {
    let input = "id\na\nb\na\n";
    let count = |dedup: u32| {
        let content = run(&OxiGen { dedup, ..settings() }, META, input);
        (content.lines().count(), content.matches("<http://e/Meta>").count())
    };
    assert_eq!(count(0), (6, 3));
    assert_eq!(count(1000), (4, 1));
    assert_eq!(count(2), (6, 3));
    assert_eq!(count(3), (5, 2));
}

#[test]
fn a_limit_takes_the_first_rows() {
    let limited = OxiGen { test: 2, dedup: 1000, ..settings() };
    let content = run(&limited, META, "id\na\nb\nc\nd\n");
    assert_eq!(content.lines().count(), 3);
    assert!(content.contains("<http://e/b>"));
    assert!(!content.contains("<http://e/c>"));
    assert_eq!(
        run(&OxiGen { test: 9, ..settings() }, META, "id\na\n"),
        run(&settings(), META, "id\na\n")
    );
}

#[test]
fn an_unreadable_record_beyond_the_limit_does_not_matter() {
    let limited = OxiGen { test: 1, ..settings() };
    assert!(limited.transform(META, b"id\na\nb,c\n").is_ok());
}

#[test]
fn rows_without_a_header_have_lettered_columns() {
    let lettered = OxiGen {
        headers: false,
        split: vec![("b".to_string(), "part".to_string(), ";".to_string())],
        ..settings()
    };
    let query = "CONSTRUCT { <http://e/s> <http://e/p> ?v } WHERE { BIND(CONCAT(?a, ?part) AS ?v) }";
    let content = run(&lettered, query, "x,1;2\ny,3\n");
    assert_eq!(
        content,
        "<http://e/s> <http://e/p> \"x1\" .\n<http://e/s> <http://e/p> \"x2\" .\n\
         <http://e/s> <http://e/p> \"y3\" .\n"
    );
}

#[test]
fn column_names_are_put_in_upper_case_on_demand() {
    let query = "CONSTRUCT { <http://e/s> <http://e/p> ?NAME } WHERE {}";
    let normalized = OxiGen { normalize: true, ..settings() };
    assert_eq!(run(&normalized, query, "Name\nx\n"), "<http://e/s> <http://e/p> \"x\" .\n");
    assert_eq!(run(&settings(), query, "Name\nx\n"), "");
}

#[test]
fn the_dialect_structures_the_table() {
    let query = "CONSTRUCT { <http://e/s> <http://e/p> ?a, ?b } WHERE {}";
    let tabs = OxiGen { tab: true, ..settings() };
    assert_eq!(
        run(&tabs, query, "a\tb\n1,2\t3\n").lines().count(),
        2
    );
    let odd = OxiGen {
        delimiter: "|".to_string(),
        quote_char: "'".to_string(),
        escape_char: "^".to_string(),
        ..settings()
    };
    let content = run(&odd, query, "a|b\n'1|^'2'|3\n");
    assert!(content.contains("\"1|'2\""));
    assert!(content.contains("\"3\""));
}

#[test]
fn escaped_characters_survive() {
    let query = "CONSTRUCT { <http://e/s> <http://e/p> ?d } WHERE {}";
    let input = "d\n\"C:\\\\Users \\\"x\\\"\"\n";
    let content = run(&settings(), query, input);
    assert_eq!(content, "<http://e/s> <http://e/p> \"C:\\\\Users \\\"x\\\"\" .\n");
}

#[test]
fn triple_terms_are_written() {
    let query = "CONSTRUCT { <http://e/r> <http://e/reifies> <<( <http://e/s> <http://e/p> ?a )>> } WHERE {}";
    assert_eq!(
        run(&settings(), query, "a\n1\n"),
        "<http://e/r> <http://e/reifies> <<( <http://e/s> <http://e/p> \"1\" )>> .\n"
    );
}

#[test]
fn a_table_without_records_gives_an_empty_document() {
    assert_eq!(run(&settings(), META, "id\n"), "");
    assert_eq!(run(&settings(), META, ""), "");
    assert_eq!(run(&OxiGen { ntriples: false, ..settings() }, META, ""), "");
}

#[test]
fn a_text_that_is_no_query_is_refused_first() {
    let bad = OxiGen { graph: Some("no iri".to_string()), ..OxiGen::default() };
    assert!(matches!(bad.transform("no query", b""), Err(TransformError::Query(_))));
    assert!(matches!(bad.transform(META, b""), Err(TransformError::Graph)));
}

#[test]
fn a_dialect_needs_its_characters() {
    for bad in [
        OxiGen { delimiter: String::new(), ..settings() },
        OxiGen { quote_char: String::new(), ..settings() },
        OxiGen { escape_char: String::new(), ..settings() },
    ] {
        assert!(matches!(bad.transform(META, b"id\n"), Err(TransformError::Dialect)));
    }
    let tabs = OxiGen { delimiter: String::new(), tab: true, ..settings() };
    assert!(tabs.transform(META, b"id\n").is_ok());
}

#[test]
fn a_header_has_to_be_text() {
    assert!(matches!(
        settings().transform(META, b"id,\xff\n1,2\n"),
        Err(TransformError::Header(_))
    ));
}

#[test]
fn an_unreadable_record_ends_the_transformation() {
    match settings().transform(META, b"id\na\nb,c\n") {
        Err(TransformError::Record(number, _)) => assert_eq!(number, 1),
        _ => panic!("Expected an unreadable record"),
    }
    match settings().transform(META, b"id\n\xff\n") {
        Err(TransformError::Record(number, _)) => assert_eq!(number, 0),
        _ => panic!("Expected an unreadable record"),
    }
}

#[test]
fn a_missing_cell_ends_the_transformation() {
    let lettered = OxiGen {
        headers: false,
        split: vec![("c".to_string(), "part".to_string(), ";".to_string())],
        ..settings()
    };
    assert!(matches!(
        lettered.transform(META, b"1,2\n"),
        Err(TransformError::Row(RowError::MissingCell))
    ));
}

#[test]
fn below_a_header_no_cell_is_missing() {
    let split = OxiGen {
        split: vec![("b".to_string(), "part".to_string(), ";".to_string())],
        ..settings()
    };
    let query = "CONSTRUCT { <http://e/s> <http://e/p> ?part } WHERE {}";
    assert_eq!(run(&split, query, "a,b\n1,2;3\n").lines().count(), 2);
    assert!(matches!(
        split.transform(query, b"a,b\n1\n"),
        Err(TransformError::Record(0, _))
    ));
}

#[test]
fn a_refused_call_ends_the_transformation() {
    let query = "CONSTRUCT { <http://e/s> <http://e/p> ?b } WHERE { BIND(tarql:expandPrefix(?id) AS ?b) }";
    assert!(matches!(
        settings().transform(query, b"id\nnone\n"),
        Err(TransformError::Evaluation(EvaluationError::Function(refusal)))
            if refusal.error == ExpandError::UnknownPrefix
    ));
}

#[test]
fn the_first_refused_call_is_the_error() {
    let query = "PREFIX a: <http://e/>
CONSTRUCT { <http://e/s> <http://e/p> ?b } WHERE { BIND(tarql:expandPrefix(?id) AS ?b) }";
    match settings().transform(query, b"id\na\nzz\nyy\n") {
        Err(TransformError::Evaluation(EvaluationError::Function(refusal))) => {
            assert_eq!(refusal.function, Function::ExpandPrefix);
            assert!(matches!(refusal.argument, Some(Term::Literal(value)) if value == "zz"));
        }
        _ => panic!("Expected a refusal"),
    }
    assert_eq!(
        run(&settings(), query, "id\na\n"),
        "<http://e/s> <http://e/p> \"http://e/\" .\n"
    );
}

#[test]
fn a_column_that_only_a_comment_mentions_is_not_bound() {
    let query = "CONSTRUCT { <http://e/s> <http://e/p> ?a } # and ?b
WHERE {} # not ?c";
    assert_eq!(
        run(&settings(), query, "a,b,c\n1,2,3\n"),
        "<http://e/s> <http://e/p> \"1\" .\n"
    );
}

#[test]
fn a_limit_gives_a_start_of_the_whole() {
    let query = "CONSTRUCT { <http://e/s> <http://e/p> ?id } WHERE {}";
    let input = "id\n1\n2\n3\n4\n";
    let whole = run(&settings(), query, input);
    for test in 1..5u32 {
        let part = run(&OxiGen { test, ..settings() }, query, input);
        assert!(whole.starts_with(&part));
        assert_eq!(part.lines().count(), test as usize);
        let cut: String =
            input.lines().take(test as usize + 1).map(|line| format!("{}\n", line)).collect();
        assert_eq!(part, run(&settings(), query, &cut));
    }
}

#[test]
fn a_graph_is_all_that_quads_add() {
    let query = "CONSTRUCT { <http://e/s> <http://e/p> ?id } WHERE {}";
    let quads = OxiGen { graph: Some("http://e/g".to_string()), ..settings() };
    assert_eq!(
        run(&quads, query, "id\n1\n2\n").replace(" <http://e/g> .", " ."),
        run(&settings(), query, "id\n1\n2\n")
    );
}

#[test]
fn every_format_says_the_same() {
    let triples = |settings: &OxiGen, format| {
        let content = run(settings, LABELS, LABEL_ROWS);
        let mut all: Vec<String> = RdfParser::from_format(format)
            .for_reader(content.as_bytes())
            .map(|quad| {
                let quad = quad.unwrap();
                format!("{} {} {}", quad.subject, quad.predicate, quad.object)
            })
            .collect();
        all.sort();
        all
    };
    let lines = triples(&settings(), oxrdfio::RdfFormat::NTriples);
    let quads = OxiGen { graph: Some("http://e/g".to_string()), ..settings() };
    let turtle = OxiGen { ntriples: false, ..settings() };
    assert_eq!(lines.len(), 5);
    assert_eq!(triples(&quads, oxrdfio::RdfFormat::NQuads), lines);
    assert_eq!(triples(&turtle, oxrdfio::RdfFormat::Turtle), lines);
}

#[test]
fn a_prefix_that_is_no_iri_ends_the_transformation_in_turtle() {
    let query = "# PREFIX bad: <not an iri>
CONSTRUCT { <http://e/s> <http://e/p> ?id } WHERE {}";
    let turtle = OxiGen { ntriples: false, ..settings() };
    assert!(matches!(
        turtle.transform(query, b"id\nx\n"),
        Err(TransformError::Flush(FlushError::InvalidPrefix))
    ));
    assert!(turtle.transform(query, b"id\n").is_ok());
    assert!(settings().transform(query, b"id\nx\n").is_ok());
}

#[test]
fn the_format_follows_the_settings() {
    assert_eq!(settings().output_format(), RdfFormat::NTriples);
    assert_eq!(OxiGen::default().output_format(), RdfFormat::Turtle);
    let quads = OxiGen { graph: Some("http://e/g".to_string()), ..settings() };
    assert_eq!(quads.output_format(), RdfFormat::NQuads);
}

#[test]
fn a_dialect_takes_the_first_characters() {
    let odd = OxiGen {
        delimiter: ";,".to_string(),
        quote_char: "'".to_string(),
        escape_char: "\u{142}".to_string(),
        ..settings()
    };
    assert_eq!(
        odd.dialect(),
        Some(Dialect { delimiter: b';', quote: b'\'', escape: 0x42 })
    );
    let tabs = OxiGen { tab: true, ..odd };
    assert_eq!(tabs.dialect().unwrap().delimiter, b'\t');
    assert_eq!(OxiGen::default().dialect(), None);
}

#[test]
fn input_and_output_have_names_for_the_standard_streams() {
    let streams = OxiGen {
        input: "STDIN".to_string(),
        output: "STDOUT".to_string(),
        gzip: true,
        ..OxiGen::default()
    };
    assert!(streams.reads_standard_input());
    assert_eq!(streams.sink(), Sink::StandardOutput);
    let files = OxiGen {
        input: "in.csv".to_string(),
        output: "out.nt".to_string(),
        ..OxiGen::default()
    };
    assert!(!files.reads_standard_input());
    assert_eq!(files.sink(), Sink::File);
    assert_eq!(OxiGen { gzip: true, ..files }.sink(), Sink::CompressedFile);
}

fn arguments() -> Arguments {
    Arguments {
        delimiter: ",".to_string(),
        tab: true,
        test: None,
        headers: true,
        escape_char: "e".to_string(),
        quote_char: "q".to_string(),
        normalize: true,
        gzip: true,
        ntriples: true,
        dedup: None,
        bind_empty_strings: true,
        input: "i".to_string(),
        output: "o".to_string(),
        query: "r".to_string(),
        split: None,
        graph: Some("g".to_string()),
    }
}

#[test]
fn arguments_become_settings() {
    let plain = configure_transform(arguments());
    assert_eq!(plain.delimiter, ",");
    assert_eq!(plain.escape_char, "e");
    assert_eq!(plain.quote_char, "q");
    assert_eq!((plain.input.as_str(), plain.output.as_str(), plain.query.as_str()), ("i", "o", "r"));
    assert!(plain.tab && plain.headers && plain.normalize && plain.gzip && plain.ntriples);
    assert!(plain.bind_empty_strings);
    assert_eq!((plain.test, plain.dedup), (0, 0));
    assert!(plain.split.is_empty());
    assert_eq!(plain.graph, Some("g".to_string()));
}

#[test]
fn accepted_numbers_stay_in_their_ranges() {
    for (test, dedup) in [
        (None, None),
        (Some(TEST_MIN), Some(DEDUP_MIN)),
        (Some(TEST_MAX), Some(DEDUP_MAX)),
    ] {
        let settings = configure_transform(Arguments { test, dedup, ..arguments() });
        assert!(settings.test <= 49);
        assert!(settings.dedup == 0 || (1000..=5000000).contains(&settings.dedup));
        assert_eq!(settings.test == 0, test.is_none());
        assert_eq!(settings.dedup == 0, dedup.is_none());
    }
}

#[test]
fn split_arguments_come_in_threes() {
    let values = ["a", "b", ";", "c", "d", " "].iter().map(|v| v.to_string()).collect();
    let full = configure_transform(Arguments {
        test: Some(5),
        dedup: Some(1000),
        split: Some(values),
        ..arguments()
    });
    assert_eq!((full.test, full.dedup), (5, 1000));
    assert_eq!(
        full.split,
        vec![
            ("a".to_string(), "b".to_string(), ";".to_string()),
            ("c".to_string(), "d".to_string(), " ".to_string()),
        ]
    );
}

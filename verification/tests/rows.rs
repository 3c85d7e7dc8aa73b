use oxi_gen::functions::Refusal;
use oxi_gen::pipeline::{RowError, RowReader, Transformer};
use oxi_gen::rdf::{settle, EvaluationError, Evaluator, ParsedQuery, Plain, Statement, Value};
use oxi_gen::rows::values_of;
use oxi_gen::split::{apply_split, split_fits};
use oxi_gen::prefixes::{extract_prefixes, PrefixMap};
use oxi_gen::terms::{ExpandError, Function, Term};
use oxi_gen::variables::extract_variables;

fn strings(values: &[&str]) -> Vec<String> {
    values.iter().map(|value| value.to_string()).collect()
}

fn cells(pairs: &[(&str, &str)]) -> Vec<(String, String)> {
    pairs.iter().map(|(name, value)| (name.to_string(), value.to_string())).collect()
}

fn rule(column: &str, part: &str, delimiter: &str) -> (String, String, String) {
    (column.to_string(), part.to_string(), delimiter.to_string())
}

#[test]
fn a_row_is_as_wide_as_the_shorter_of_headers_and_record() {
    let short = apply_split(&[], &strings(&["1"]), &strings(&["a", "b"]));
    assert_eq!(short, vec![cells(&[("a", "1")])]);
    let long = apply_split(&[], &strings(&["1", "2", "3"]), &strings(&["a", "b"]));
    assert_eq!(long, vec![cells(&[("a", "1"), ("b", "2")])]);
}

#[test]
fn splitting_keeps_the_cells_and_multiplies_the_rows() {
    let rules = vec![rule("a", "x", ";"), rule("none", "n", ";"), rule("b", "y", " ")];
    let rows = apply_split(&rules, &strings(&["1;2", "3 4"]), &strings(&["a", "b"]));
    assert_eq!(
        rows,
        vec![
            cells(&[("a", "1;2"), ("b", "3 4"), ("x", "1"), ("y", "3")]),
            cells(&[("a", "1;2"), ("b", "3 4"), ("x", "1"), ("y", "4")]),
            cells(&[("a", "1;2"), ("b", "3 4"), ("x", "2"), ("y", "3")]),
            cells(&[("a", "1;2"), ("b", "3 4"), ("x", "2"), ("y", "4")]),
        ]
    );
}

#[test]
fn a_split_needs_a_cell_in_its_column() {
    let headers = strings(&["a", "b"]);
    let rules = vec![rule("b", "y", ";")];
    assert!(split_fits(&rules, &headers, 2));
    assert!(!split_fits(&rules, &headers, 1));
    assert!(split_fits(&vec![rule("none", "y", ";")], &headers, 0));
    assert!(split_fits(&[], &headers, 0));
}

#[test]
fn rows_are_numbered_and_handed_out_in_turn() {
    let mut reader = RowReader::new(strings(&["a"]), vec![rule("a", "x", ",")], 0, 3);
    for n in 0..7u32 {
        assert!(!reader.is_done());
        let task = reader.hand_out(&strings(&["1,2"])).unwrap();
        assert_eq!(task.number, n);
        assert_eq!(task.worker, (n % 3) as usize);
        assert_eq!(
            task.rows,
            vec![cells(&[("a", "1,2"), ("x", "1")]), cells(&[("a", "1,2"), ("x", "2")])]
        );
    }
}

#[test]
fn a_limit_ends_the_reading() {
    let mut reader = RowReader::new(strings(&["a"]), Vec::new(), 2, 1);
    assert!(!reader.is_done());
    reader.hand_out(&strings(&["1"])).unwrap();
    assert!(!reader.is_done());
    reader.hand_out(&strings(&["2"])).unwrap();
    assert!(reader.is_done());
}

#[test]
fn a_record_without_the_cell_to_split_is_refused() {
    let mut reader = RowReader::new(strings(&["a", "b"]), vec![rule("b", "x", ",")], 0, 1);
    assert_eq!(reader.hand_out(&strings(&["1"])).err(), Some(RowError::MissingCell));
    assert_eq!(reader.hand_out(&strings(&["1", "2"])).unwrap().number, 0);
}

fn shown(values: &[(String, Value)]) -> Vec<String> {
    values
        .iter()
        .map(|(name, value)| match value.plain() {
            Plain::Text(text) => format!("{}='{}'", name, text),
            Plain::Number(number) => format!("{}={}", name, number),
        })
        .collect()
}

#[test]
fn cells_of_mentioned_columns_are_bound() {
    let variables = extract_variables("?a ?b ?c ");
    let row = cells(&[("a", "1"), ("z", "2"), ("b", ""), ("c", " \t")]);
    assert_eq!(shown(&values_of(&variables, false, &row, 7)), vec!["a='1'"]);
    assert_eq!(
        shown(&values_of(&variables, true, &row, 7)),
        vec!["a='1'", "b=''", "c=' \t'"]
    );
}

#[test]
fn the_row_number_is_bound_last() {
    let variables = extract_variables("?a ?ROWNUM ");
    let row = cells(&[("ROWNUM", "x"), ("a", "1")]);
    assert_eq!(
        shown(&values_of(&variables, false, &row, 7)),
        vec!["ROWNUM='x'", "a='1'", "ROWNUM=7"]
    );
}

fn spelled(triples: &[Statement]) -> Vec<String> {
    let mut all: Vec<String> = triples
        .iter()
        .map(|t| format!("{} {} {}", t.subject(), t.predicate(), t.object()))
        .collect();
    all.sort();
    all
}

fn text_value(name: &str, value: &str) -> (String, Value) {
    (name.to_string(), Value::text(value.to_string()))
}

#[test]
fn only_queries_parse() {
    assert!(ParsedQuery::new("SELECT * WHERE { ?s ?p ?o }").is_ok());
    assert!(ParsedQuery::new("SELECT * WHERE { ?s ?p tarql:x }").is_ok());
    assert!(ParsedQuery::new("SELECT * WHERE { ?s ?p other:x }").is_err());
    assert!(ParsedQuery::new("no query").is_err());
}

const QUERY: &str = "CONSTRUCT { <http://e/s> <http://e/p> ?a ; <http://e/n> ?ROWNUM } WHERE {}";

#[test]
fn a_query_is_answered_from_its_values() {
    let query = ParsedQuery::new(QUERY).unwrap();
    let mut evaluator = Evaluator::new(PrefixMap::new());
    let values = vec![text_value("a", "x \"y\""), ("ROWNUM".to_string(), Value::number(3))];
    assert_eq!(
        spelled(&evaluator.answer(&query, &values).unwrap()),
        vec![
            "<http://e/s> <http://e/n> \"3\"^^<http://www.w3.org/2001/XMLSchema#integer>",
            "<http://e/s> <http://e/p> \"x \\\"y\\\"\"",
        ]
    );
    assert!(evaluator.answer(&query, &Vec::new()).unwrap().is_empty());
}

#[test]
fn the_last_value_of_a_variable_counts() {
    let query = ParsedQuery::new(QUERY).unwrap();
    let mut evaluator = Evaluator::new(PrefixMap::new());
    let values = vec![text_value("a", "1"), text_value("a", "2")];
    assert_eq!(
        spelled(&evaluator.answer(&query, &values).unwrap()),
        vec!["<http://e/s> <http://e/p> \"2\""]
    );
}

#[test]
fn a_query_that_makes_no_graph_gives_no_triples() {
    let query = ParsedQuery::new("SELECT ?a WHERE { BIND(1 AS ?b) }").unwrap();
    let mut evaluator = Evaluator::new(PrefixMap::new());
    assert!(evaluator.answer(&query, &vec![text_value("a", "1")]).unwrap().is_empty());
}

const FUNCTIONS: &str = "PREFIX ex: <http://example.org/>
CONSTRUCT { ?s <http://e/p> ?base } WHERE {
    BIND(tarql:expandPrefixedName(?name) AS ?s)
    BIND(tarql:expandPrefix(?prefix) AS ?base)
}";

#[test]
fn queries_call_the_functions() {
    let query = ParsedQuery::new(FUNCTIONS).unwrap();
    let mut evaluator = Evaluator::new(extract_prefixes(FUNCTIONS));
    let values = vec![text_value("name", "ex:a"), text_value("prefix", "ex")];
    assert_eq!(
        spelled(&evaluator.answer(&query, &values).unwrap()),
        vec!["<http://example.org/a> <http://e/p> \"http://example.org/\""]
    );
    let values = vec![text_value("name", ""), text_value("prefix", "ex")];
    assert!(evaluator.answer(&query, &values).unwrap().is_empty());
}

fn refusal_of(settled: Result<Vec<Statement>, EvaluationError>) -> Refusal {
    match settled {
        Err(EvaluationError::Function(refusal)) => refusal,
        _ => panic!("Expected a refusal"),
    }
}

#[test]
fn a_refused_call_is_the_answer() {
    let query = ParsedQuery::new(FUNCTIONS).unwrap();
    let mut evaluator = Evaluator::new(extract_prefixes(FUNCTIONS));
    let values = vec![text_value("name", "ex:a"), text_value("prefix", "none")];
    for _ in 0..2 {
        let refusal = refusal_of(evaluator.answer(&query, &values));
        assert_eq!(refusal.function, Function::ExpandPrefix);
        assert_eq!(refusal.error, ExpandError::UnknownPrefix);
        assert!(matches!(refusal.argument, Some(Term::Literal(value)) if value == "none"));
    }
}

#[test]
fn a_refusal_does_not_outlast_its_query() {
    let query = ParsedQuery::new(FUNCTIONS).unwrap();
    let mut evaluator = Evaluator::new(extract_prefixes(FUNCTIONS));
    let bad = vec![text_value("name", "ex:a b"), text_value("prefix", "ex")];
    assert_eq!(
        refusal_of(evaluator.answer(&query, &bad)).error,
        ExpandError::InvalidIri
    );
    let good = vec![text_value("name", "ex:a"), text_value("prefix", "ex")];
    assert_eq!(evaluator.answer(&query, &good).unwrap().len(), 1);
}

#[test]
fn an_argument_that_is_no_literal_is_refused() {
    let text = "CONSTRUCT { <http://e/s> <http://e/p> ?o } WHERE {
        BIND(tarql:expandPrefixedName(<http://e/x>) AS ?o) }";
    let query = ParsedQuery::new(text).unwrap();
    let mut evaluator = Evaluator::new(PrefixMap::new());
    let refusal = refusal_of(evaluator.answer(&query, &Vec::new()));
    assert_eq!(refusal.function, Function::ExpandPrefixedName);
    assert_eq!(refusal.error, ExpandError::NotALiteral);
    assert!(matches!(refusal.argument, Some(Term::Other(spelling)) if spelling == "<http://e/x>"));
}

#[test]
fn strings_with_a_direction_are_compared() {
    let text = "CONSTRUCT { <http://e/s> <http://e/p> ?v } WHERE {
        BIND(STRLANGDIR(?a, \"en\", \"ltr\") = STRLANGDIR(?b, \"en\", \"ltr\") AS ?v) }";
    let query = ParsedQuery::new(text).unwrap();
    let mut evaluator = Evaluator::new(PrefixMap::new());
    let values = vec![text_value("a", "x"), text_value("b", "x")];
    assert_eq!(
        spelled(&evaluator.answer(&query, &values).unwrap()),
        vec!["<http://e/s> <http://e/p> \"true\"^^<http://www.w3.org/2001/XMLSchema#boolean>"]
    );
    assert!(evaluator.answer(&query, &vec![text_value("a", "x"), text_value("b", "y")]).is_ok());
}

#[test]
fn values_reach_variables_that_only_expressions_use() {
    let mut evaluator = Evaluator::new(PrefixMap::new());
    for text in [
        "CONSTRUCT { <http://e/s> <http://e/p> ?v } WHERE { BIND(CONCAT(?a, \"!\") AS ?v) }",
        "CONSTRUCT { <http://e/s> <http://e/p> ?v } WHERE { BIND(CONCAT(?a, \"!\") AS ?v) } LIMIT 1",
    ] {
        let query = ParsedQuery::new(text).unwrap();
        assert_eq!(
            spelled(&evaluator.answer(&query, &vec![text_value("a", "x")]).unwrap()),
            vec!["<http://e/s> <http://e/p> \"x!\""]
        );
    }
}

#[test]
fn a_value_for_no_variable_of_the_query_is_an_error() {
    let query = ParsedQuery::new("CONSTRUCT { <http://e/s> <http://e/p> ?a } WHERE {}").unwrap();
    let mut evaluator = Evaluator::new(PrefixMap::new());
    let result = evaluator.answer(&query, &vec![text_value("other", "1")]);
    assert!(matches!(result, Err(EvaluationError::Query(_))));
}

fn refusal() -> Option<Refusal> {
    Some(Refusal {
        function: Function::ExpandPrefixedName,
        argument: None,
        error: ExpandError::InvalidIri,
    })
}

#[test]
fn a_refusal_goes_before_the_answer() {
    for answer in [Ok(Some(Vec::new())), Ok(None), Err("m".to_string())] {
        assert_eq!(refusal_of(settle(answer, refusal())).error, ExpandError::InvalidIri);
    }
    match settle(Err("m".to_string()), None) {
        Err(EvaluationError::Query(message)) => assert_eq!(message, "m"),
        _ => panic!("Expected the message"),
    }
}

#[test]
fn what_is_no_graph_gives_no_triples() {
    assert!(settle(Ok(None), None).unwrap().is_empty());
    assert!(settle(Ok(Some(Vec::new())), None).unwrap().is_empty());
    let query = ParsedQuery::new(QUERY).unwrap();
    let mut evaluator = Evaluator::new(PrefixMap::new());
    let triples = evaluator.answer(&query, &vec![text_value("a", "1")]).unwrap();
    assert_eq!(settle(Ok(Some(triples)), None).unwrap().len(), 1);
}

#[test]
fn a_transformer_answers_for_each_row() {
    let mut transformer = Transformer::new(QUERY, false).unwrap();
    let rows = vec![cells(&[("a", "1")]), cells(&[("a", " ")]), cells(&[("a", "2")])];
    let number = "<http://e/s> <http://e/n> \"5\"^^<http://www.w3.org/2001/XMLSchema#integer>";
    assert_eq!(
        spelled(&transformer.transform_rows(&rows, 5).unwrap()),
        vec![
            number,
            number,
            number,
            "<http://e/s> <http://e/p> \"1\"",
            "<http://e/s> <http://e/p> \"2\"",
        ]
    );
    assert!(Transformer::new("no query", false).is_err());
}

#[test]
fn a_transformer_stops_at_the_first_failure() {
    let mut transformer = Transformer::new(FUNCTIONS, false).unwrap();
    let rows = vec![
        cells(&[("name", "ex:a"), ("prefix", "ex")]),
        cells(&[("name", "ex:a b"), ("prefix", "ex")]),
    ];
    assert_eq!(
        refusal_of(transformer.transform_rows(&rows, 0)).error,
        ExpandError::InvalidIri
    );
}

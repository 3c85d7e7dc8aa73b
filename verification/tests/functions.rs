use oxi_gen::columns::clean_column;
use oxi_gen::flush_store;
use oxi_gen::prefixes::{extract_prefixes, PrefixMap};
use oxi_gen::rdf::{RdfFormat, Statement};
use oxi_gen::split::apply_split;
use oxi_gen::store::TripleStore;
use oxi_gen::terms::{expand_prefix, expand_prefixed_name, NamedNode, Term};
use oxi_gen::variables::extract_variables;

#[test]
fn test_clean_column_no_normalize() {
    assert_eq!(clean_column("  column_name  ", &false), "column_name");
    assert_eq!(clean_column("\"quoted\"", &false), "quoted");
    assert_eq!(clean_column("  \"spaces\"  ", &false), "spaces");
    assert_eq!(clean_column("MixedCase", &false), "MixedCase");
}

#[test]
fn test_clean_column_normalize() {
    assert_eq!(clean_column("  column_name  ", &true), "COLUMN_NAME");
    assert_eq!(clean_column("\"quoted\"", &true), "QUOTED");
    assert_eq!(clean_column("MixedCase", &true), "MIXEDCASE");
    assert_eq!(clean_column("lower", &true), "LOWER");
}

#[test]
fn test_extract_prefixes_basic() {
    let query = r#"
            PREFIX rdf: <http://www.w3.org/1999/02/22-rdf-syntax-ns#>
            PREFIX rdfs: <http://www.w3.org/2000/01/rdf-schema#>
            SELECT * WHERE { ?s ?p ?o }
        "#;
    let prefixes = extract_prefixes(query);
    assert_eq!(prefixes.len(), 2);
    assert_eq!(
        prefixes.get("rdf"),
        Some(&"http://www.w3.org/1999/02/22-rdf-syntax-ns#".to_string())
    );
    assert_eq!(
        prefixes.get("rdfs"),
        Some(&"http://www.w3.org/2000/01/rdf-schema#".to_string())
    );
}

#[test]
fn test_extract_prefixes_case_insensitive() {
    let query = r#"
            prefix rdf: <http://www.w3.org/1999/02/22-rdf-syntax-ns#>
            PREFIX foaf: <http://xmlns.com/foaf/0.1/>
            PrEfIx dc: <http://purl.org/dc/elements/1.1/>
        "#;
    let prefixes = extract_prefixes(query);
    assert_eq!(prefixes.len(), 3);
    assert!(prefixes.contains_key("rdf"));
    assert!(prefixes.contains_key("foaf"));
    assert!(prefixes.contains_key("dc"));
}

#[test]
fn test_extract_prefixes_empty() {
    let query = "SELECT * WHERE { ?s ?p ?o }";
    let prefixes = extract_prefixes(query);
    assert_eq!(prefixes.len(), 0);
}

#[test]
fn test_extract_variables_basic() {
    let query = "SELECT ?name ?age WHERE { ?person foaf:name ?name . ?person foaf:age ?age }";
    let vars = extract_variables(query);
    assert!(vars.contains("name"));
    assert!(vars.contains("age"));
    assert!(vars.contains("person"));
}

#[test]
fn test_extract_variables_underscores() {
    let query = "SELECT ?first_name ?last_name WHERE { ?s ?p ?o }";
    let vars = extract_variables(query);
    assert!(vars.contains("first_name"));
    assert!(vars.contains("last_name"));
    assert!(vars.contains("s"));
}

#[test]
fn test_extract_variables_with_numbers() {
    let query = "SELECT ?var1 ?var2 ?var123 WHERE { ?s ?p ?o }";
    let vars = extract_variables(query);
    assert!(vars.contains("var1"));
    assert!(vars.contains("var2"));
    assert!(vars.contains("var123"));
}

#[test]
fn test_extract_variables_empty() {
    let query = "SELECT * WHERE { <http://example.org/s> <http://example.org/p> <http://example.org/o> }";
    let vars = extract_variables(query);
    assert!(!vars.contains("SELECT"));
    assert!(!vars.contains("WHERE"));
}

#[test]
fn test_extract_variables_with_comments() {
    let query = r#"
            SELECT ?name ?age WHERE {
                # This is a comment with ?commented_var
                ?person foaf:name ?name .
                  # Another comment with ?another_commented_var
                ?person foaf:age ?age
            }
        "#;
    let vars = extract_variables(query);
    assert!(vars.contains("name"));
    assert!(vars.contains("age"));
    assert!(vars.contains("person"));
    assert!(!vars.contains("commented_var"));
    assert!(!vars.contains("another_commented_var"));
}

fn rdf_prefix() -> PrefixMap {
    let mut prefixes = PrefixMap::new();
    prefixes.insert(
        "rdf".to_string(),
        "http://www.w3.org/1999/02/22-rdf-syntax-ns#".to_string(),
    );
    prefixes
}

fn two_prefixes() -> PrefixMap {
    let mut prefixes = rdf_prefix();
    prefixes.insert("foaf".to_string(), "http://xmlns.com/foaf/0.1/".to_string());
    prefixes
}

#[test]
fn test_expand_prefix_valid() {
    let prefix_term = Term::Literal("rdf".to_string());
    let result = expand_prefix(&two_prefixes(), &prefix_term).unwrap();
    assert!(result.is_some());
    if let Some(Term::Literal(lit)) = result {
        assert_eq!(lit, "http://www.w3.org/1999/02/22-rdf-syntax-ns#");
    } else {
        panic!("Expected literal term");
    }
}

#[test]
fn test_expand_prefix_unknown_prefix() {
    let prefix_term = Term::Literal("unknown".to_string());
    let result = expand_prefix(&PrefixMap::new(), &prefix_term).unwrap();
    assert!(result.is_none());
}

#[test]
fn test_expand_prefixed_name_valid() {
    let qname = Term::Literal("foaf:name".to_string());
    let result = expand_prefixed_name(&two_prefixes(), &qname).unwrap();
    assert!(result.is_some());
    if let Some(Term::NamedNode(node)) = result {
        assert_eq!(node.as_str(), "http://xmlns.com/foaf/0.1/name");
    } else {
        panic!("Expected named node term");
    }
}

#[test]
fn test_expand_prefixed_name_rdf_type() {
    let qname = Term::Literal("rdf:type".to_string());
    let result = expand_prefixed_name(&rdf_prefix(), &qname).unwrap();
    assert!(result.is_some());
    if let Some(Term::NamedNode(node)) = result {
        assert_eq!(
            node.as_str(),
            "http://www.w3.org/1999/02/22-rdf-syntax-ns#type"
        );
    } else {
        panic!("Expected named node term");
    }
}

#[test]
fn test_expand_prefixed_name_no_prefix() {
    let qname = Term::Literal("foaf:name".to_string());
    let result = expand_prefixed_name(&PrefixMap::new(), &qname).unwrap();
    assert!(result.is_none());
}

#[test]
fn test_expand_prefixed_name_no_colon() {
    let qname = Term::Literal("nocolon".to_string());
    let result = expand_prefixed_name(&rdf_prefix(), &qname).unwrap();
    assert!(result.is_none());
}

#[test]
fn test_expand_prefixed_name_empty() {
    let qname = Term::Literal("".to_string());
    let result = expand_prefixed_name(&rdf_prefix(), &qname).unwrap();
    assert!(
        result.is_none(),
        "expandPrefixedName should return None for empty parameter"
    );
}

#[test]
fn test_apply_split_no_split() {
    let split: Vec<(String, String, String)> = vec![];
    let headers = vec!["col1".to_string(), "col2".to_string()];
    let record = vec!["value1".to_string(), "value2".to_string()];

    let result = apply_split(&split, &record, &headers);
    assert_eq!(result.len(), 1);
    assert_eq!(result[0].len(), 2);
    assert_eq!(result[0][0], ("col1".to_string(), "value1".to_string()));
    assert_eq!(result[0][1], ("col2".to_string(), "value2".to_string()));
}

#[test]
fn test_apply_split_single_split() {
    let split = vec![("tags".to_string(), "tag".to_string(), ",".to_string())];
    let headers = vec!["name".to_string(), "tags".to_string()];
    let record = vec!["Alice".to_string(), "rust,python,go".to_string()];

    let result = apply_split(&split, &record, &headers);
    assert_eq!(result.len(), 3);

    assert_eq!(result[0][0], ("name".to_string(), "Alice".to_string()));
    assert_eq!(
        result[0][1],
        ("tags".to_string(), "rust,python,go".to_string())
    );
    assert_eq!(result[0][2], ("tag".to_string(), "rust".to_string()));

    assert_eq!(result[1][0], ("name".to_string(), "Alice".to_string()));
    assert_eq!(result[1][2], ("tag".to_string(), "python".to_string()));

    assert_eq!(result[2][2], ("tag".to_string(), "go".to_string()));
}

#[test]
fn test_apply_split_multiple_splits() {
    let split = vec![
        ("colors".to_string(), "color".to_string(), ",".to_string()),
        ("sizes".to_string(), "size".to_string(), ";".to_string()),
    ];
    let headers = vec![
        "name".to_string(),
        "colors".to_string(),
        "sizes".to_string(),
    ];
    let record = vec![
        "Product".to_string(),
        "red,blue".to_string(),
        "S;M".to_string(),
    ];

    let result = apply_split(&split, &record, &headers);
    assert_eq!(result.len(), 4);

    for row in result.iter() {
        assert!(row.iter().any(|(k, _)| k == "color"));
        assert!(row.iter().any(|(k, _)| k == "size"));
    }
}

#[test]
fn test_apply_split_nonexistent_column() {
    let split = vec![(
        "nonexistent".to_string(),
        "split_val".to_string(),
        ",".to_string(),
    )];
    let headers = vec!["col1".to_string(), "col2".to_string()];
    let record = vec!["value1".to_string(), "value2".to_string()];

    let result = apply_split(&split, &record, &headers);
    assert_eq!(result.len(), 1);
    assert_eq!(result[0].len(), 2);
}

#[test]
fn test_flush_store_ntriples() {
    let node = |iri: &str| NamedNode::new(iri.to_string()).unwrap();
    let mut store = TripleStore::new();
    let triple1 = Statement::new(
        &node("http://example.org/s1"),
        &node("http://example.org/p"),
        &node("http://example.org/o1"),
    );
    let triple2 = Statement::new(
        &node("http://example.org/s2"),
        &node("http://example.org/p"),
        &node("http://example.org/o2"),
    );
    store.insert(triple1);
    store.insert(triple2);

    let mut writer: Vec<u8> = Vec::new();

    let result = flush_store(
        &mut store,
        &mut writer,
        RdfFormat::NTriples,
        &PrefixMap::new(),
        true,
        None,
    );
    assert!(result.is_ok());
    assert_eq!(store.len(), 0);
    assert_eq!(
        String::from_utf8(writer).unwrap(),
        "<http://example.org/s1> <http://example.org/p> <http://example.org/o1> .\n\
         <http://example.org/s2> <http://example.org/p> <http://example.org/o2> .\n"
    );
}

use oxi_gen::functions::{expansion, first_refusal, Expansion};
use oxi_gen::prefixes::{extract_prefixes, PrefixMap};
use oxi_gen::terms::{
    call_function, expand_prefix, expand_prefixed_name, ExpandError, Function, NamedNode, Term,
};

fn example() -> PrefixMap {
    let mut prefixes = PrefixMap::new();
    prefixes.insert("ex".to_string(), "http://example.org/".to_string());
    prefixes.insert("".to_string(), "http://example.org/empty#".to_string());
    prefixes.insert("bad".to_string(), "not an iri".to_string());
    prefixes
}

fn literal(value: &str) -> Term {
    Term::Literal(value.to_string())
}

fn node_of(term: Option<Term>) -> String {
    match term {
        Some(Term::NamedNode(node)) => node.as_str().to_string(),
        _ => panic!("Expected named node term"),
    }
}

#[test]
fn a_later_declaration_replaces_an_earlier_one() {
    let prefixes = extract_prefixes("PREFIX a: <http://x/>\nPREFIX : <http://y/>\nprefix a: <http://z/>");
    assert_eq!(prefixes.len(), 2);
    assert_eq!(prefixes.get("a"), Some(&"http://z/".to_string()));
    assert_eq!(prefixes.get(""), Some(&"http://y/".to_string()));
    assert_eq!(prefixes.get("b"), None);
}

#[test]
fn a_declaration_needs_white_space_and_brackets() {
    assert_eq!(extract_prefixes("PREFIX a:<http://x/>").len(), 0);
    assert_eq!(extract_prefixes("PREFIXa: <http://x/>").len(), 0);
    assert_eq!(extract_prefixes("PREFIX a: http://x/").len(), 0);
}

#[test]
fn a_declared_iri_ends_on_its_line() {
    assert_eq!(extract_prefixes("PREFIX a: <http://x\n/>").len(), 0);
    assert_eq!(extract_prefixes("PREFIX a\nb: <http://x/>").len(), 0);
    let prefixes = extract_prefixes("PREFIX\na:\n<http://x/>\nPREFIX b: <http://y");
    assert_eq!(prefixes.len(), 1);
    assert_eq!(prefixes.get("a"), Some(&"http://x/".to_string()));
}

#[test]
fn inserting_a_prefix_again_replaces_it() {
    let mut prefixes = PrefixMap::new();
    assert!(!prefixes.contains_key("a"));
    prefixes.insert("a".to_string(), "1".to_string());
    prefixes.insert("b".to_string(), "2".to_string());
    prefixes.insert("a".to_string(), "3".to_string());
    assert_eq!(prefixes.len(), 2);
    assert_eq!(prefixes.get("a"), Some(&"3".to_string()));
    assert_eq!(prefixes.entries().len(), 2);
}

#[test]
fn named_nodes_are_iris() {
    assert_eq!(
        NamedNode::new("http://example.org/a".to_string()).unwrap().as_str(),
        "http://example.org/a"
    );
    assert!(NamedNode::new("no iri".to_string()).is_none());
    assert!(NamedNode::new("".to_string()).is_none());
}

#[test]
fn a_local_name_may_be_empty_or_hold_colons() {
    let prefixes = example();
    let expanded = |name: &str| node_of(expand_prefixed_name(&prefixes, &literal(name)).unwrap());
    assert_eq!(expanded("ex:"), "http://example.org/");
    assert_eq!(expanded(":"), "http://example.org/empty#");
    assert_eq!(expanded(":a"), "http://example.org/empty#a");
    assert_eq!(expanded("ex:a:b"), "http://example.org/a:b");
}

#[test]
fn a_prefix_alone_expands_to_the_same_iri() {
    let prefixes = example();
    match expand_prefix(&prefixes, &literal("ex")).unwrap() {
        Some(Term::Literal(iri)) => assert_eq!(
            iri,
            node_of(expand_prefixed_name(&prefixes, &literal("ex:")).unwrap())
        ),
        _ => panic!("Expected literal term"),
    }
}

#[test]
fn only_literals_expand() {
    let prefixes = example();
    let other = Term::Other("_:b".to_string());
    let node = Term::NamedNode(NamedNode::new("http://example.org/".to_string()).unwrap());
    assert_eq!(expand_prefix(&prefixes, &other).err(), Some(ExpandError::NotALiteral));
    assert_eq!(expand_prefix(&prefixes, &node).err(), Some(ExpandError::NotALiteral));
    assert_eq!(
        expand_prefixed_name(&prefixes, &other).err(),
        Some(ExpandError::NotALiteral)
    );
}

#[test]
fn an_expanded_name_has_to_be_an_iri() {
    assert_eq!(
        expand_prefixed_name(&example(), &literal("bad:x")).err(),
        Some(ExpandError::InvalidIri)
    );
    assert_eq!(
        expand_prefixed_name(&example(), &literal("ex:a b")).err(),
        Some(ExpandError::InvalidIri)
    );
}

#[test]
fn a_called_prefix_has_to_be_declared() {
    let prefixes = example();
    let call = |function, argument| call_function(function, &prefixes, &argument);
    assert_eq!(
        call(Function::ExpandPrefix, Some(literal("none"))).err(),
        Some(ExpandError::UnknownPrefix)
    );
    assert!(call(Function::ExpandPrefixedName, Some(literal("none:x"))).unwrap().is_none());
    assert!(call(Function::ExpandPrefix, None).unwrap().is_none());
    assert!(call(Function::ExpandPrefixedName, None).unwrap().is_none());
    assert_eq!(
        node_of(call(Function::ExpandPrefixedName, Some(literal("ex:x"))).unwrap()),
        "http://example.org/x"
    );
}

#[test]
fn a_query_gets_what_a_call_gives() {
    let prefixes = example();
    let expanded = |function, argument| expansion(function, &prefixes, &argument);
    match expanded(Function::ExpandPrefixedName, Some(literal("ex:x"))) {
        Some(Expansion::Node(node)) => assert_eq!(node.as_str(), "http://example.org/x"),
        _ => panic!("Expected a node"),
    }
    match expanded(Function::ExpandPrefix, Some(literal("ex"))) {
        Some(Expansion::Text(text)) => assert_eq!(text, "http://example.org/"),
        _ => panic!("Expected a literal"),
    }
    assert!(expanded(Function::ExpandPrefixedName, Some(literal("none:x"))).is_none());
    assert!(expanded(Function::ExpandPrefix, None).is_none());
}

#[test]
fn a_query_gets_nothing_from_a_refused_call() {
    let prefixes = example();
    let other = Term::Other("_:b".to_string());
    assert!(expansion(Function::ExpandPrefix, &prefixes, &Some(literal("none"))).is_none());
    assert!(expansion(Function::ExpandPrefixedName, &prefixes, &Some(literal("bad:x"))).is_none());
    assert!(expansion(Function::ExpandPrefixedName, &prefixes, &Some(other)).is_none());
}

#[test]
fn the_first_refused_call_is_told() {
    let calls = vec![
        (Function::ExpandPrefixedName, Some(literal("ex:x"))),
        (Function::ExpandPrefix, None),
        (Function::ExpandPrefix, Some(literal("none"))),
        (Function::ExpandPrefixedName, Some(literal("bad:x"))),
    ];
    let refusal = first_refusal(&example(), calls).unwrap();
    assert_eq!(refusal.function, Function::ExpandPrefix);
    assert_eq!(refusal.error, ExpandError::UnknownPrefix);
    match refusal.argument {
        Some(Term::Literal(value)) => assert_eq!(value, "none"),
        _ => panic!("Expected the argument"),
    }
}

#[test]
fn answered_calls_leave_no_refusal() {
    let calls = vec![
        (Function::ExpandPrefixedName, Some(literal("ex:x"))),
        (Function::ExpandPrefixedName, Some(literal("none:x"))),
        (Function::ExpandPrefix, Some(literal("ex"))),
    ];
    assert!(first_refusal(&example(), calls).is_none());
    assert!(first_refusal(&example(), Vec::new()).is_none());
}

#[test]
fn a_refusal_shows_its_argument() {
    let calls = vec![(Function::ExpandPrefix, Some(Term::Other("<http://e/x>".to_string())))];
    let refusal = first_refusal(&example(), calls).unwrap();
    assert_eq!(refusal.error, ExpandError::NotALiteral);
    match refusal.argument {
        Some(Term::Other(spelling)) => assert_eq!(spelling, "<http://e/x>"),
        _ => panic!("Expected the argument"),
    }
}

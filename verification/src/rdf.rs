//! Triples, queries and their evaluation: the part that `oxrdf`, `oxrdfio`, `spareval` and
//! `spargebra` do. A value of one of the types here holds what an outside crate made together
//! with the plain strings that describe it; the fields are private to this file, so that the
//! two always belong together.
use crate::functions;
use crate::functions::{expansion, first_refusal, Expansion, Refusal};
use crate::patterns;
use crate::prefixes;
use crate::prefixes::PrefixMap;
use crate::terms;
use crate::terms::{Function, NamedNode, Term};
use oxrdf::NamedNode as RdfNode;
use oxrdf::Term as RdfTerm;
use oxrdf::{Dataset, GraphNameRef, Literal, NamedNodeRef, Variable};
use oxrdfio::RdfFormat as Format;
use oxrdfio::{JsonLdProfileSet, RdfSerializer};
use spareval::{PreparedQuery, QueryEvaluator, QueryResults};
use spargebra::algebra::GraphPattern;
use spargebra::{Query, SparqlParser};
use std::sync::mpsc::{channel, Receiver, Sender};
use std::sync::Arc;
use vstd::prelude::*;

verus! {

/// `oxrdf::Triple`, carried along.
#[verifier::external_type_specification]
#[verifier::external_body]
pub struct ExTriple(oxrdf::Triple);

/// `spargebra::Query`, carried along.
#[verifier::external_type_specification]
#[verifier::external_body]
pub struct ExQuery(spargebra::Query);

/// `spareval::QueryEvaluator`, carried along.
#[verifier::external_type_specification]
#[verifier::external_body]
pub struct ExQueryEvaluator(spareval::QueryEvaluator);

/// `oxrdfio::RdfSerializer`, carried along.
#[verifier::external_type_specification]
#[verifier::external_body]
pub struct ExRdfSerializer(oxrdfio::RdfSerializer);

/// `spareval::PreparedQuery`, carried along.
#[verifier::external_type_specification]
#[verifier::external_body]
pub struct ExPreparedQuery<'a>(spareval::PreparedQuery<'a>);

/// `oxrdf::Literal`, carried along.
#[verifier::external_type_specification]
#[verifier::external_body]
pub struct ExLiteral(oxrdf::Literal);

/// `std::sync::mpsc::Sender`, carried along.
#[verifier::external_type_specification]
#[verifier::external_body]
#[verifier::reject_recursive_types(T)]
pub struct ExSender<T>(Sender<T>);

/// `std::sync::mpsc::Receiver`, carried along.
#[verifier::external_type_specification]
#[verifier::external_body]
#[verifier::reject_recursive_types(T)]
pub struct ExReceiver<T>(Receiver<T>);

/// An RDF triple, with its terms as N-Triples spells them.
pub struct Statement {
    subject: String,
    predicate: String,
    object: String,
    inner: oxrdf::Triple,
}

/// The terms of a triple, each as N-Triples spells it.
pub struct Spelling {
    pub subject: Seq<char>,
    pub predicate: Seq<char>,
    pub object: Seq<char>,
}

impl View for Statement {
    type V = Spelling;

    closed spec fn view(&self) -> Spelling {
        Spelling { subject: self.subject@, predicate: self.predicate@, object: self.object@ }
    }
}

impl DeepView for Statement {
    type V = Spelling;

    open spec fn deep_view(&self) -> Spelling {
        self@
    }
}

/// How N-Triples spells a node: its IRI in angle brackets.
pub open spec fn bracketed(iri: Seq<char>) -> Seq<char> {
    seq!['<'] + iri + seq!['>']
}

/// `oxrdf::Triple::new` on three named nodes, and the `Display` of each of them: the IRI in
/// angle brackets.
#[verifier::external_body]
fn triple_of_nodes(subject: &str, predicate: &str, object: &str) -> (triple: Statement)
    ensures
        triple@ == (Spelling {
            subject: bracketed(subject@),
            predicate: bracketed(predicate@),
            object: bracketed(object@),
        }),
{
    let inner = oxrdf::Triple::new(
        oxrdf::NamedNode::new_unchecked(subject),
        oxrdf::NamedNode::new_unchecked(predicate),
        oxrdf::NamedNode::new_unchecked(object),
    );
    Statement {
        subject: inner.subject.to_string(),
        predicate: inner.predicate.to_string(),
        object: inner.object.to_string(),
        inner,
    }
}

impl Statement {
    /// The triple of three named nodes.
    pub fn new(subject: &NamedNode, predicate: &NamedNode, object: &NamedNode) -> (triple: Statement)
        ensures
            triple@ == (Spelling {
                subject: bracketed(subject@),
                predicate: bracketed(predicate@),
                object: bracketed(object@),
            }),
    {
        triple_of_nodes(subject.as_str(), predicate.as_str(), object.as_str())
    }

    /// The subject, as N-Triples spells it.
    pub fn subject(&self) -> (s: &String)
        ensures
            s@ == self@.subject,
    {
        &self.subject
    }

    /// The predicate, as N-Triples spells it.
    pub fn predicate(&self) -> (s: &String)
        ensures
            s@ == self@.predicate,
    {
        &self.predicate
    }

    /// The object, as N-Triples spells it.
    pub fn object(&self) -> (s: &String)
        ensures
            s@ == self@.object,
    {
        &self.object
    }
}

/// The prefix that every query may use without declaring it.
pub const QUERY_PREFIX: &'static str = "tarql";

/// The IRI of [`QUERY_PREFIX`], under which the functions stand.
pub const QUERY_PREFIX_IRI: &'static str = "https://semanticarts.com/tarql/";

/// The function that gives the IRI of a prefix.
pub const EXPAND_PREFIX_IRI: &'static str = "https://semanticarts.com/tarql/expandPrefix";

/// The function that gives the node of a prefixed name.
pub const EXPAND_PREFIXED_NAME_IRI: &'static str =
    "https://semanticarts.com/tarql/expandPrefixedName";

/// A query that the SPARQL parser took, with its text.
pub struct ParsedQuery {
    text: String,
    projected: bool,
    query: Query,
}

/// What the SPARQL parser makes of a text, and whether a projection stands around its pattern.
pub struct Reading {
    pub text: Seq<char>,
    pub projected: bool,
}

impl View for ParsedQuery {
    type V = Reading;

    closed spec fn view(&self) -> Reading {
        Reading { text: self.text@, projected: self.projected }
    }
}

/// How the SPARQL parser, told what one prefix stands for, takes a text: not at all, or as a query
/// that has a projection around the pattern of its `CONSTRUCT`, or as one that has none.
pub uninterp spec fn parsed_as(
    prefix: Seq<char>,
    iri: Seq<char>,
    text: Seq<char>,
) -> Option<bool>;

/// Whether the SPARQL parser, told what one prefix stands for, takes a text as a query.
pub open spec fn is_query(prefix: Seq<char>, iri: Seq<char>, text: Seq<char>) -> bool {
    parsed_as(prefix, iri, text) is Some
}

/// `spargebra::SparqlParser` with one prefix: whether it takes the text, and with a projection or
/// without, depends on the prefix, its IRI and the text alone. The message of an error is left
/// open.
#[verifier::external_body]
fn parse(prefix: &str, iri: &str, text: &str) -> (parsed: Result<ParsedQuery, String>)
    requires
        prefix@ == QUERY_PREFIX@,
        iri@ == QUERY_PREFIX_IRI@,
    ensures
        match parsed_as(prefix@, iri@, text@) {
            Some(projected) => parsed matches Ok(query) && query@ == (Reading {
                text: text@,
                projected,
            }),
            None => parsed is Err,
        },
{
    let parser = SparqlParser::new().with_prefix(prefix, iri).map_err(|e| e.to_string())?;
    let query = parser.parse_query(text).map_err(|e| format!("{:?}", e))?;
    let projected = match &query {
        Query::Construct { pattern: GraphPattern::Project { .. }, .. } => true,
        Query::Construct { pattern: GraphPattern::Slice { inner, .. }, .. } =>
            matches!(**inner, GraphPattern::Project { .. }),
        _ => false,
    };
    Ok(ParsedQuery { text: text.to_string(), projected, query })
}

/// `spargebra::algebra::GraphPattern`: takes what stands under the projection of a `CONSTRUCT`
/// query out of it, also where the query has a limit.
#[verifier::external_body]
fn without_projection(parsed: ParsedQuery) -> (bare: ParsedQuery)
    requires
        parsed@.projected,
    ensures
        bare@ == (Reading { text: parsed@.text, projected: false }),
{
    let mut query = parsed.query;
    if let Query::Construct { pattern, .. } = &mut query {
        let outer = match pattern {
            GraphPattern::Slice { inner, .. } => inner.as_mut(),
            other => other,
        };
        if let GraphPattern::Project { inner, .. } = outer {
            *outer = std::mem::take(inner.as_mut());
        }
    }
    ParsedQuery { text: parsed.text, projected: false, query }
}

/// The query of a text as it is evaluated.
pub open spec fn query_of(text: Seq<char>) -> Reading {
    Reading { text, projected: false }
}

impl ParsedQuery {
    /// Reads the text of a query. A projection around the pattern of a `CONSTRUCT` query would
    /// hide the variables that occur in expressions only, so none is left.
    pub fn new(text: &str) -> (parsed: Result<ParsedQuery, String>)
        ensures
            parsed is Ok <==> is_query(QUERY_PREFIX@, QUERY_PREFIX_IRI@, text@),
            parsed matches Ok(query) ==> query@ == query_of(text@),
    {
        match parse(QUERY_PREFIX, QUERY_PREFIX_IRI, text) {
            Ok(parsed) => Ok(
                if parsed.projected {
                    without_projection(parsed)
                } else {
                    parsed
                },
            ),
            Err(message) => Err(message),
        }
    }
}

/// What a variable of a query is given, in plain.
pub enum Plain {
    /// A string literal.
    Text(String),
    /// An integer literal.
    Number(u32),
}

/// What a variable of a query is given.
pub struct Value {
    plain: Plain,
    literal: Literal,
}

/// The mathematical value of a [`Value`].
pub enum Given {
    Text(Seq<char>),
    Number(u32),
}

impl DeepView for Plain {
    type V = Given;

    open spec fn deep_view(&self) -> Given {
        match self {
            Plain::Text(text) => Given::Text(text@),
            Plain::Number(number) => Given::Number(*number),
        }
    }
}

impl DeepView for Value {
    type V = Given;

    closed spec fn deep_view(&self) -> Given {
        self.plain.deep_view()
    }
}

/// `oxrdf::Literal::from` on a string and on a number: the string literal of the one, the
/// integer literal of the other.
#[verifier::external_body]
fn value_of(plain: Plain) -> (value: Value)
    ensures
        value.deep_view() == plain.deep_view(),
{
    let literal = match &plain {
        Plain::Text(text) => Literal::from(text.as_str()),
        Plain::Number(number) => Literal::from(*number),
    };
    Value { plain, literal }
}

impl Value {
    /// The value of a string.
    pub fn text(text: String) -> (value: Value)
        ensures
            value.deep_view() == Given::Text(text@),
    {
        value_of(Plain::Text(text))
    }

    /// The value of a number.
    pub fn number(number: u32) -> (value: Value)
        ensures
            value.deep_view() == Given::Number(number),
    {
        value_of(Plain::Number(number))
    }

    /// The value in plain.
    pub fn plain(&self) -> (plain: &Plain)
        ensures
            plain.deep_view() == self.deep_view(),
    {
        &self.plain
    }
}

/// Why a query has no answer.
#[derive(Debug)]
pub enum EvaluationError {
    /// A function was called with what it cannot take.
    Function(Refusal),
    /// The evaluator refused the query or its evaluation.
    Query(String),
}

/// What a query can call: the functions by their IRIs, and the prefixes that they know.
pub struct Equipment {
    pub functions: Map<Seq<char>, Function>,
    pub prefixes: Map<Seq<char>, Seq<char>>,
}

/// The two functions under their IRIs, on a set of prefixes.
pub open spec fn equipment_of(prefixes: Map<Seq<char>, Seq<char>>) -> Equipment {
    Equipment {
        functions: Map::empty().insert(EXPAND_PREFIX_IRI@, Function::ExpandPrefix).insert(
            EXPAND_PREFIXED_NAME_IRI@,
            Function::ExpandPrefixedName,
        ),
        prefixes,
    }
}

/// Evaluates queries that call functions on a set of prefixes.
pub struct Evaluator {
    prefixes: Arc<PrefixMap>,
    /// The IRIs under which the engine was given functions.
    registered: Vec<(String, Function)>,
    engine: QueryEvaluator,
    /// Where a function of the engine leaves its calls, and where they are taken from.
    log: Sender<(Function, Option<Term>)>,
    calls: Receiver<(Function, Option<Term>)>,
}

impl View for Evaluator {
    type V = Equipment;

    closed spec fn view(&self) -> Equipment {
        Equipment {
            functions: prefixes::map_of(self.registered.deep_view()),
            prefixes: self.prefixes@,
        }
    }
}

/// `spareval::QueryEvaluator::new`: an evaluator without functions of its own; and
/// `std::sync::mpsc::channel` for the calls that its functions will get.
#[verifier::external_body]
fn without_functions(prefixes: PrefixMap) -> (evaluator: Evaluator)
    ensures
        evaluator@ == (Equipment { functions: Map::empty(), prefixes: prefixes@ }),
{
    let (engine, (log, calls)) = (QueryEvaluator::new(), channel());
    Evaluator { prefixes: Arc::new(prefixes), registered: Vec::new(), engine, log, calls }
}

/// `spareval::QueryEvaluator::with_custom_function`: lets queries call a function under an IRI,
/// in place of one that was there under it. A call hands the first argument to [`expansion`],
/// takes what that gives, and is logged.
#[verifier::external_body]
fn with_function(
    mut bare: Evaluator,
    iri: &str,
    function: Function,
    prefixes: Arc<PrefixMap>,
) -> (extended: Evaluator)
    requires
        prefixes@ == bare@.prefixes,
    ensures
        extended@ == (Equipment {
            functions: bare@.functions.insert(iri@, function),
            prefixes: bare@.prefixes,
        }),
{
    bare.registered.push((iri.to_string(), function));
    let log = bare.log.clone();
    bare.engine = bare.engine.with_custom_function(RdfNode::new_unchecked(iri), move |arguments| {
        let argument = arguments.first().map(|term| match term {
            RdfTerm::Literal(literal) => Term::Literal(literal.value().to_string()),
            other => Term::Other(other.to_string()),
        });
        let given = expansion(function, &prefixes, &argument);
        log.send((function, argument)).ok();
        given.map(|given| match given {
            Expansion::Node(node) => RdfNode::new_unchecked(node.as_str()).into(),
            Expansion::Text(text) => Literal::from(text).into(),
        })
    });
    bare
}

/// Whether evaluating a query against nothing but the values of its variables, with functions
/// at hand, may make these calls, each with the first of its arguments, and give this: the
/// triples of a graph, nothing where what comes out is no graph, or a message on why nothing
/// comes out. There may be more than one such outcome: a query can make fresh blank nodes, and
/// ask for the time or for a random number.
pub uninterp spec fn may_answer(
    query: Reading,
    equipment: Equipment,
    values: Map<Seq<char>, Given>,
    calls: Seq<(Function, Option<terms::TermValue>)>,
    answer: Result<Option<Seq<Spelling>>, Seq<char>>,
) -> bool;

/// The mathematical value of what an evaluation gives.
pub open spec fn answer_of(
    answer: Result<Option<Vec<Statement>>, String>,
) -> Result<Option<Seq<Spelling>>, Seq<char>> {
    match answer {
        Ok(Some(triples)) => Ok(Some(triples.deep_view())),
        Ok(None) => Ok(None),
        Err(message) => Err(message@),
    }
}

/// What is evaluated: a query, what it can call, and the values of its variables.
pub struct Preparation {
    pub query: Reading,
    pub equipment: Equipment,
    pub values: Map<Seq<char>, Given>,
}

/// A query that is ready to be evaluated, with what it was made from.
struct Prepared<'a> {
    evaluator: &'a Evaluator,
    query: &'a ParsedQuery,
    values: Vec<(&'a String, &'a Value)>,
    inner: PreparedQuery<'a>,
}

impl<'a> View for Prepared<'a> {
    type V = Preparation;

    closed spec fn view(&self) -> Preparation {
        Preparation {
            query: self.query@,
            equipment: self.evaluator@,
            values: prefixes::map_of(self.values.deep_view()),
        }
    }
}

/// `spareval::QueryEvaluator::prepare`: the query with no values yet.
#[verifier::external_body]
fn prepare<'a>(evaluator: &'a Evaluator, query: &'a ParsedQuery) -> (prepared: Prepared<'a>)
    ensures
        prepared@ == (Preparation {
            query: query@,
            equipment: evaluator@,
            values: Map::empty(),
        }),
{
    let inner = evaluator.engine.prepare(&query.query);
    Prepared { evaluator, query, values: Vec::new(), inner }
}

/// `spareval::PreparedQuery::substitute_variable`: gives a variable a value, in place of one that
/// it had.
#[verifier::external_body]
fn with_value<'a>(mut bare: Prepared<'a>, name: &'a String, value: &'a Value) -> (given: Prepared<'a>)
    requires
        patterns::is_variable_name(name@),
    ensures
        given@ == (Preparation {
            values: bare@.values.insert(name@, value.deep_view()),
            ..bare@
        }),
{
    bare.values.push((name, value));
    let variable = Variable::new_unchecked(name);
    bare.inner = bare.inner.substitute_variable(variable, value.literal.clone());
    bare
}

/// `spareval::PreparedQuery::execute` on an empty dataset: what comes out, and the calls that the
/// functions got meanwhile, in order. It is one of the outcomes that the query may have. Which
/// one is left unsaid: it can rest on the time and on chance.
#[verifier::external_body]
fn execute(prepared: Prepared<'_>) -> (outcome: (
    Result<Option<Vec<Statement>>, String>,
    Vec<(Function, Option<Term>)>,
))
    ensures
        may_answer(
            prepared@.query,
            prepared@.equipment,
            prepared@.values,
            outcome.1.deep_view(),
            answer_of(outcome.0),
        ),
{
    let answer = prepared.inner.execute(&Dataset::new()).and_then(|results| match results {
        QueryResults::Graph(graph) => Result::from_iter(graph.map(|t| t.map(|inner| Statement {
            subject: inner.subject.to_string(),
            predicate: inner.predicate.to_string(),
            object: inner.object.to_string(), inner,
        }))).map(Some),
        QueryResults::Solutions(_) => Ok(None),
        QueryResults::Boolean(_) => Ok(None),
    });
    (answer.map_err(|e| e.to_string()), prepared.evaluator.calls.try_iter().collect())
}

/// What an evaluation comes to: where a call was refused, nothing is left of what came out; else
/// a graph gives its triples, and what is no graph gives none.
pub open spec fn is_settled(
    answer: Result<Option<Seq<Spelling>>, Seq<char>>,
    refused: Option<functions::Refused>,
    settled: Result<Seq<Spelling>, EvaluationError>,
) -> bool {
    match refused {
        Some(first) => settled matches Err(EvaluationError::Function(refusal)) && refusal@ == first,
        None => match answer {
            Ok(Some(triples)) => settled == Ok::<Seq<Spelling>, EvaluationError>(triples),
            Ok(None) => settled == Ok::<Seq<Spelling>, EvaluationError>(Seq::empty()),
            Err(message) => settled matches Err(EvaluationError::Query(found)) && found@ == message,
        },
    }
}

/// The mathematical value of a settled answer.
pub open spec fn settlement(
    settled: Result<Vec<Statement>, EvaluationError>,
) -> Result<Seq<Spelling>, EvaluationError> {
    match settled {
        Ok(triples) => Ok(triples.deep_view()),
        Err(error) => Err(error),
    }
}

/// The answer of a query, given what its evaluation gave and the first call that was refused.
pub fn settle(answer: Result<Option<Vec<Statement>>, String>, refusal: Option<Refusal>) -> (settled:
    Result<Vec<Statement>, EvaluationError>)
    ensures
        is_settled(
            answer_of(answer),
            match refusal {
                Some(refusal) => Some(refusal@),
                None => None,
            },
            settlement(settled),
        ),
{
    match refusal {
        Some(refusal) => Err(EvaluationError::Function(refusal)),
        None => match answer {
            Ok(Some(triples)) => Ok(triples),
            Ok(None) => {
                let none: Vec<Statement> = Vec::new();
                assert(none.deep_view() =~= Seq::empty());
                Ok(none)
            },
            Err(message) => Err(EvaluationError::Query(message)),
        },
    }
}

/// Whether a query may be settled so: there are calls that its evaluation may make and an
/// outcome that it may have with them; the first refused one of the calls settles it, and the
/// outcome if none is refused.
pub open spec fn may_settle(
    query: Reading,
    equipment: Equipment,
    values: Map<Seq<char>, Given>,
    settled: Result<Seq<Spelling>, EvaluationError>,
) -> bool {
    exists|
        calls: Seq<(Function, Option<terms::TermValue>)>,
        answer: Result<Option<Seq<Spelling>>, Seq<char>>,
    | #[trigger]
        may_answer(query, equipment, values, calls, answer) && is_settled(
            answer,
            functions::refused(equipment.prefixes, calls),
            settled,
        )
}

/// A query is settled with triples only where no call was refused and these are the triples that
/// came out, or no graph did and there are none; with a refusal only where it is that of the first
/// call that was refused; and with a message only where that came out and no call was refused.
pub proof fn lemma_how_settled(
    query: Reading,
    equipment: Equipment,
    values: Map<Seq<char>, Given>,
    settled: Result<Seq<Spelling>, EvaluationError>,
)
    requires
        may_settle(query, equipment, values, settled),
    ensures
        exists|
            calls: Seq<(Function, Option<terms::TermValue>)>,
            answer: Result<Option<Seq<Spelling>>, Seq<char>>,
        |
            {
                &&& #[trigger] may_answer(query, equipment, values, calls, answer)
                &&& match settled {
                    Err(EvaluationError::Function(refusal)) => exists|i: int|
                        {
                            &&& 0 <= i < calls.len()
                            &&& #[trigger] calls[i] == (refusal@.function, refusal@.argument)
                            &&& terms::called(calls[i].0, equipment.prefixes, calls[i].1) == Err::<
                                Option<terms::TermValue>,
                                terms::ExpandError,
                            >(refusal@.error)
                            &&& forall|j: int|
                                0 <= j < i ==> terms::called(
                                    (#[trigger] calls[j]).0,
                                    equipment.prefixes,
                                    calls[j].1,
                                ) is Ok
                        },
                    _ => {
                        &&& forall|j: int|
                            0 <= j < calls.len() ==> terms::called(
                                (#[trigger] calls[j]).0,
                                equipment.prefixes,
                                calls[j].1,
                            ) is Ok
                        &&& match settled {
                            Ok(triples) => answer == Ok::<Option<Seq<Spelling>>, Seq<char>>(
                                Some(triples),
                            ) || answer == Ok::<Option<Seq<Spelling>>, Seq<char>>(None)
                                && triples.len() == 0,
                            Err(EvaluationError::Query(message)) => answer == Err::<
                                Option<Seq<Spelling>>,
                                Seq<char>,
                            >(message@),
                            _ => true,
                        }
                    },
                }
            },
{
    let (calls, answer) = choose|
        calls: Seq<(Function, Option<terms::TermValue>)>,
        answer: Result<Option<Seq<Spelling>>, Seq<char>>,
    | #[trigger]
        may_answer(query, equipment, values, calls, answer) && is_settled(
            answer,
            functions::refused(equipment.prefixes, calls),
            settled,
        );
    functions::lemma_refused(equipment.prefixes, calls);
    assert(may_answer(query, equipment, values, calls, answer));
}

/// What an answer shows is all of its triples, in order, or its error.
pub proof fn lemma_settlement(triples: Vec<Statement>, error: EvaluationError, i: int)
    ensures
        settlement(Ok(triples)) matches Ok(shown) && shown.len() == triples.len() && (0 <= i
            < triples.len() ==> shown[i] == triples[i]@),
        settlement(Err(error)) == Err::<Seq<Spelling>, EvaluationError>(error),
{
}

/// What came out settles a query unless a call was refused: the triples of a graph, none of what is
/// no graph, or the message.
pub proof fn lemma_is_settled(
    triples: Seq<Spelling>,
    message: Seq<char>,
    first: functions::Refused,
    answer: Result<Option<Seq<Spelling>>, Seq<char>>,
    settled: Result<Seq<Spelling>, EvaluationError>,
)
    ensures
        is_settled(Ok(Some(triples)), None, settled) <==> settled == Ok::<
            Seq<Spelling>,
            EvaluationError,
        >(triples),
        is_settled(Ok(None), None, settled) <==> settled == Ok::<Seq<Spelling>, EvaluationError>(
            Seq::empty(),
        ),
        is_settled(Err(message), None, settled) <==> (settled matches Err(
            EvaluationError::Query(found),
        ) && found@ == message),
        is_settled(answer, Some(first), settled) <==> (settled matches Err(
            EvaluationError::Function(refusal),
        ) && refusal@ == first),
{
}

/// A text is a query exactly when the parser takes it, and is evaluated without a projection.
pub proof fn lemma_is_query(prefix: Seq<char>, iri: Seq<char>, text: Seq<char>)
    ensures
        is_query(prefix, iri, text) <==> parsed_as(prefix, iri, text) is Some,
        query_of(text).text == text,
        !query_of(text).projected,
{
}

/// A variable is given the string or the number as it is.
pub proof fn lemma_plain(text: String, number: u32)
    ensures
        Plain::Text(text).deep_view() == Given::Text(text@),
        Plain::Number(number).deep_view() == Given::Number(number),
{
}

/// A query can call two functions, under the IRI of its own prefix, and nothing else.
pub proof fn lemma_equipment_of(prefixes: Map<Seq<char>, Seq<char>>, iri: Seq<char>)
    ensures
        equipment_of(prefixes).prefixes == prefixes,
        equipment_of(prefixes).functions.contains_pair(
            QUERY_PREFIX_IRI@ + "expandPrefix"@,
            Function::ExpandPrefix,
        ),
        equipment_of(prefixes).functions.contains_pair(
            QUERY_PREFIX_IRI@ + "expandPrefixedName"@,
            Function::ExpandPrefixedName,
        ),
        equipment_of(prefixes).functions.contains_key(iri) ==> iri == QUERY_PREFIX_IRI@
            + "expandPrefix"@ || iri == QUERY_PREFIX_IRI@ + "expandPrefixedName"@,
{
    reveal_strlit("https://semanticarts.com/tarql/");
    reveal_strlit("https://semanticarts.com/tarql/expandPrefix");
    reveal_strlit("https://semanticarts.com/tarql/expandPrefixedName");
    reveal_strlit("expandPrefix");
    reveal_strlit("expandPrefixedName");
    assert(QUERY_PREFIX_IRI@ + "expandPrefix"@ =~= EXPAND_PREFIX_IRI@);
    assert(QUERY_PREFIX_IRI@ + "expandPrefixedName"@ =~= EXPAND_PREFIXED_NAME_IRI@);
    assert(EXPAND_PREFIX_IRI@.len() != EXPAND_PREFIXED_NAME_IRI@.len());
}

impl Evaluator {
    /// An evaluator whose functions know `prefixes`.
    pub fn new(prefixes: PrefixMap) -> (evaluator: Evaluator)
        ensures
            evaluator@ == equipment_of(prefixes@),
    {
        let bare = without_functions(prefixes);
        let (first, second) = (bare.prefixes.clone(), bare.prefixes.clone());
        let half = with_function(bare, EXPAND_PREFIX_IRI, Function::ExpandPrefix, first);
        with_function(half, EXPAND_PREFIXED_NAME_IRI, Function::ExpandPrefixedName, second)
    }

    /// The triples that a query constructs, given the values of some of its variables; an error
    /// if a call of a function is refused meanwhile.
    pub fn answer(&mut self, query: &ParsedQuery, values: &Vec<(String, Value)>) -> (settled: Result<
        Vec<Statement>,
        EvaluationError,
    >)
        requires
            forall|i: int|
                0 <= i < values.len() ==> patterns::is_variable_name(
                    (#[trigger] values.deep_view()[i]).0,
                ),
        ensures
            may_settle(
                query@,
                old(self)@,
                prefixes::map_of(values.deep_view()),
                settlement(settled),
            ),
            final(self)@ == old(self)@,
    {
        let mut prepared = prepare(self, query);
        for i in 0..values.len()
            invariant
                prepared@ == (Preparation {
                    query: query@,
                    equipment: old(self)@,
                    values: prefixes::map_of(values.deep_view().take(i as int)),
                }),
                forall|i: int|
                    0 <= i < values.len() ==> patterns::is_variable_name(
                        (#[trigger] values.deep_view()[i]).0,
                    ),
        {
            let (name, value) = &values[i];
            proof {
                let entries = values.deep_view();
                assert(entries[i as int] == (name@, value.deep_view()));
                assert(entries.take(i + 1).drop_last() =~= entries.take(i as int));
            }
            prepared = with_value(prepared, name, value);
        }
        assert(values.deep_view().take(values.len() as int) =~= values.deep_view());
        let (answer, calls) = execute(prepared);
        settle(answer, first_refusal(&self.prefixes, calls))
    }
}

/// The formats that triples can be written in.
#[derive(Debug, Clone, Copy, PartialEq, Eq, Structural)]
pub enum RdfFormat {
    N3,
    NQuads,
    NTriples,
    RdfXml,
    TriG,
    Turtle,
    JsonLd,
}

/// The line of a triple in N-Triples; with a graph, its line in N-Quads.
pub open spec fn line(triple: Spelling, graph: Option<Seq<char>>) -> Seq<char> {
    let terms = triple.subject + seq![' '] + triple.predicate + seq![' '] + triple.object;
    match graph {
        Some(iri) => terms + seq![' '] + bracketed(iri) + seq![' ', '.', '\n'],
        None => terms + seq![' ', '.', '\n'],
    }
}

/// The lines of triples, one behind the other.
pub open spec fn lines(triples: Seq<Spelling>, graph: Option<Seq<char>>) -> Seq<char>
    decreases triples.len(),
{
    if triples.len() == 0 {
        Seq::empty()
    } else {
        lines(triples.drop_last(), graph) + line(triples.last(), graph)
    }
}

/// A line of N-Quads without its graph.
pub open spec fn without_graph(line: Seq<char>, graph: Seq<char>) -> Seq<char> {
    line.take(line.len() - bracketed(graph).len() - 4) + seq![' ', '.', '\n']
}

/// The line of a triple in N-Quads, without its graph, is its line in N-Triples.
pub proof fn lemma_line_without_graph(triple: Spelling, graph: Seq<char>)
    ensures
        without_graph(line(triple, Some(graph)), graph) == line(triple, None),
{
    let terms = triple.subject + seq![' '] + triple.predicate + seq![' '] + triple.object;
    let quad = line(triple, Some(graph));
    assert(quad.take(terms.len() as int) =~= terms);
}

/// The lines of two lists of triples are those of the lists as one.
pub proof fn lemma_lines_in_turn(
    first: Seq<Spelling>,
    second: Seq<Spelling>,
    graph: Option<Seq<char>>,
)
    ensures
        lines(first + second, graph) == lines(first, graph) + lines(second, graph),
    decreases second.len(),
{
    if second.len() == 0 {
        assert(first + second =~= first);
        assert(lines(first, graph) + lines(second, graph) =~= lines(first, graph));
    } else {
        lemma_lines_in_turn(first, second.drop_last(), graph);
        assert((first + second).drop_last() =~= first + second.drop_last());
        assert(lines(first + second, graph) =~= lines(first, graph) + lines(second, graph));
    }
}

/// Whether every prefix stands for an IRI.
pub open spec fn are_iris(prefixes: Map<Seq<char>, Seq<char>>) -> bool {
    forall|prefix: Seq<char>| #[trigger]
        prefixes.contains_key(prefix) ==> terms::is_iri(prefixes[prefix])
}

/// What a line that declares a prefix starts with, in Turtle.
pub const PREFIX_KEYWORD: &'static str = "@prefix";

/// Whether the first line of `document` declares a prefix.
pub open spec fn starts_with_prefix_line(document: Seq<u8>) -> bool {
    vstd::utf8::encode_utf8(PREFIX_KEYWORD@).is_prefix_of(document)
}

/// Whether these are whole lines, none of which declares a prefix.
pub open spec fn is_body(bytes: Seq<u8>) -> bool {
    &&& bytes.len() > 0
    &&& bytes.last() == '\n' as u8
    &&& forall|i: int|
        0 <= i < bytes.len() && (i == 0 || bytes[i - 1] == '\n' as u8)
            ==> !starts_with_prefix_line(#[trigger] bytes.skip(i))
}

/// Whether no prefix is spelled like the word that declares one, and each stands on one line.
pub open spec fn are_plain(prefixes: Map<Seq<char>, Seq<char>>) -> bool {
    &&& prefixes::are_on_one_line(prefixes)
    &&& forall|prefix: Seq<char>| #[trigger]
        prefixes.contains_key(prefix) ==> !PREFIX_KEYWORD@.is_prefix_of(prefix)
}

/// The line that declares a prefix, in Turtle.
pub open spec fn declaration(prefix: Seq<char>, iri: Seq<char>) -> Seq<char> {
    PREFIX_KEYWORD@ + (" "@ + prefix + ": <"@ + iri + "> ."@) + seq!['\n']
}

/// The lines that declare these prefixes, one each.
pub open spec fn declarations(
    names: Seq<Seq<char>>,
    prefixes: Map<Seq<char>, Seq<char>>,
) -> Seq<char>
    decreases names.len(),
{
    if names.len() == 0 {
        Seq::empty()
    } else {
        declaration(names[0], prefixes[names[0]]) + declarations(names.skip(1), prefixes)
    }
}

/// Whether a document is a line for each prefix, in this order, and something else behind them,
/// which declares no prefix. Where a prefix is spelled like the word that declares one, the
/// lines behind may look like declarations.
pub open spec fn declares_in_order(
    document: Seq<u8>,
    prefixes: Map<Seq<char>, Seq<char>>,
    names: Seq<Seq<char>>,
    rest: Seq<u8>,
) -> bool {
    &&& names.no_duplicates()
    &&& names.to_set() == prefixes.dom()
    &&& document == vstd::utf8::encode_utf8(declarations(names, prefixes)) + rest
    &&& are_plain(prefixes) ==> is_body(rest)
}

/// Whether a document starts with one line for each prefix, in some order, and declares none
/// behind them.
pub open spec fn declares(document: Seq<u8>, prefixes: Map<Seq<char>, Seq<char>>) -> bool {
    exists|names: Seq<Seq<char>>, rest: Seq<u8>| #[trigger]
        declares_in_order(document, prefixes, names, rest)
}

/// The document of triples, in this order, in a format other than N-Triples and N-Quads.
pub uninterp spec fn written(
    format: RdfFormat,
    prefixes: Map<Seq<char>, Seq<char>>,
    triples: Seq<Spelling>,
) -> Option<Seq<u8>>;

/// How a document is written: the format, and the prefixes that it declares.
pub struct Style {
    pub format: RdfFormat,
    pub prefixes: Map<Seq<char>, Seq<char>>,
}

/// A serializer that has not been given any triples, with what it was made from.
struct Serializer {
    format: RdfFormat,
    prefixes: Vec<(String, String)>,
    inner: RdfSerializer,
}

impl View for Serializer {
    type V = Style;

    closed spec fn view(&self) -> Style {
        Style { format: self.format, prefixes: prefixes::map_of(self.prefixes.deep_view()) }
    }
}

/// `oxrdfio::RdfSerializer::from_format`: a serializer without prefixes.
#[verifier::external_body]
fn without_prefixes(format: RdfFormat) -> (serializer: Serializer)
    ensures
        serializer@ == (Style { format, prefixes: Map::empty() }),
{
    let inner = RdfSerializer::from_format(match format {
        RdfFormat::N3 => Format::N3,
        RdfFormat::NQuads => Format::NQuads,
        RdfFormat::NTriples => Format::NTriples,
        RdfFormat::RdfXml => Format::RdfXml,
        RdfFormat::TriG => Format::TriG,
        RdfFormat::Turtle => Format::Turtle,
        RdfFormat::JsonLd => Format::JsonLd { profile: JsonLdProfileSet::empty() },
    });
    Serializer { format, prefixes: Vec::new(), inner }
}

/// `oxrdfio::RdfSerializer::with_prefix` in Turtle: the prefix stands for the IRI, in place of one
/// that it stood for; what is no IRI is refused.
#[verifier::external_body]
fn with_prefix(mut bare: Serializer, prefix: &String, iri: &String) -> (extended: Option<Serializer>)
    requires
        bare@.format == RdfFormat::Turtle,
    ensures
        if terms::is_iri(iri@) {
            extended matches Some(serializer) && serializer@ == (Style {
                format: bare@.format,
                prefixes: bare@.prefixes.insert(prefix@, iri@),
            })
        } else {
            extended is None
        },
{
    bare.inner = bare.inner.with_prefix(prefix, iri).ok()?;
    bare.prefixes.push((prefix.to_string(), iri.to_string()));
    Some(bare)
}

/// `oxrdfio::RdfSerializer::for_writer`, `WriterQuadSerializer::serialize_quad` for each triple in
/// turn, and `finish`. N-Triples and N-Quads are a line per triple. What any other format gives
/// depends on the format, the prefixes and the triples alone, and on these by their spelling,
/// which tells any two of them apart. Turtle can always be written. If there are triples, it
/// starts with a line for each prefix; each line behind them starts with a subject or a tab, and
/// none is left open, since no term is written with a line feed in it.
#[verifier::external_body]
fn serialize(serializer: Serializer, graph: Option<&NamedNode>, triples: &Vec<&Statement>) -> (document:
    Option<Vec<u8>>)
    requires
        graph is Some ==> serializer@.format == RdfFormat::NQuads,
    ensures
        match serializer@.format {
            RdfFormat::NTriples | RdfFormat::NQuads => document matches Some(bytes) && bytes@
                == vstd::utf8::encode_utf8(
                lines(
                    triples.deep_view(),
                    match graph {
                        Some(node) => Some(node@),
                        None => None,
                    },
                ),
            ),
            _ => match written(serializer@.format, serializer@.prefixes, triples.deep_view()) {
                Some(bytes) => document matches Some(found) && found@ == bytes,
                None => document is None,
            },
        },
        serializer@.format == RdfFormat::Turtle ==> document is Some,
        serializer@.format == RdfFormat::Turtle && triples.len() > 0 ==> (document matches Some(
            bytes,
        ) ==> declares(bytes@, serializer@.prefixes)),
{
    let mut out = serializer.inner.for_writer(Vec::new());
    let graph = graph.map_or(GraphNameRef::DefaultGraph, |node|
        NamedNodeRef::new_unchecked(node.as_str()).into());
    for triple in triples {
        out.serialize_quad(triple.inner.as_ref().in_graph(graph)).ok()?;
    }
    out.finish().ok()
}

/// The document of triples, in this order, in a format; nothing if they cannot be written in it.
/// Only Turtle takes prefixes, and only N-Quads a graph.
pub(crate) fn write_document(
    format: RdfFormat,
    prefixes: &PrefixMap,
    graph: Option<&NamedNode>,
    triples: &Vec<&Statement>,
) -> (document: Option<Vec<u8>>)
    requires
        graph is Some ==> format == RdfFormat::NQuads,
        prefixes@ != Map::<Seq<char>, Seq<char>>::empty() ==> format == RdfFormat::Turtle,
    ensures
        match format {
            RdfFormat::NTriples | RdfFormat::NQuads => document matches Some(bytes) && bytes@
                == vstd::utf8::encode_utf8(
                lines(
                    triples.deep_view(),
                    match graph {
                        Some(node) => Some(node@),
                        None => None,
                    },
                ),
            ),
            RdfFormat::Turtle => if are_iris(prefixes@) {
                document matches Some(bytes) && written(format, prefixes@, triples.deep_view())
                    == Some(bytes@)
            } else {
                document is None
            },
            _ => match written(format, prefixes@, triples.deep_view()) {
                Some(bytes) => document matches Some(found) && found@ == bytes,
                None => document is None,
            },
        },
        format == RdfFormat::Turtle && triples.len() > 0 ==> (document matches Some(bytes)
            ==> declares(bytes@, prefixes@)),
{
    let mut serializer = without_prefixes(format);
    let entries = prefixes.entries();
    let ghost all = entries.deep_view();
    for i in 0..entries.len()
        invariant
            all == entries.deep_view(),
            entries.len() > 0 ==> format == RdfFormat::Turtle,
            forall|j: int|
                0 <= j < all.len() ==> prefixes@.contains_pair((#[trigger] all[j]).0, all[j].1),
            serializer@ == (Style { format, prefixes: prefixes::map_of(all.take(i as int)) }),
            forall|j: int| 0 <= j < i ==> terms::is_iri((#[trigger] all[j]).1),
    {
        let (prefix, iri) = &entries[i];
        proof {
            assert(all[i as int] == (prefix@, iri@));
            assert(all.take(i + 1).drop_last() =~= all.take(i as int));
        }
        serializer = match with_prefix(serializer, prefix, iri) {
            Some(extended) => extended,
            None => {
                assert(prefixes@.contains_key(prefix@));
                return None;
            },
        };
    }
    proof {
        assert(all.take(all.len() as int) =~= all);
        prefixes::lemma_last_entry_counts(all);
        assert forall|prefix: Seq<char>| #[trigger] prefixes@.contains_key(
            prefix,
        ) implies terms::is_iri(prefixes@[prefix]) by {
            let j = choose|j: int| 0 <= j < all.len() && (#[trigger] all[j]).0 == prefix;
            assert(prefixes@.contains_pair(all[j].0, all[j].1));
        }
    }
    serialize(serializer, graph, triples)
}

} // verus!

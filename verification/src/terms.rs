//! RDF terms, and the functions on them that a query may call.
use crate::prefixes::PrefixMap;
use crate::text;
use vstd::prelude::*;

verus! {

/// Whether a string is an absolute IRI, as `oxrdf` reads them.
pub uninterp spec fn is_iri(s: Seq<char>) -> bool;

/// `oxrdf::NamedNode::new` takes a string exactly when it is an IRI; that depends on the
/// string alone.
#[verifier::external_body]
fn accepts_iri(iri: &str) -> (r: bool)
    ensures
        r == is_iri(iri@),
{
    oxrdf::NamedNode::new(iri).is_ok()
}

/// A node named by an IRI.
#[derive(Debug)]
pub struct NamedNode {
    iri: String,
}

impl View for NamedNode {
    type V = Seq<char>;

    closed spec fn view(&self) -> Seq<char> {
        self.iri@
    }
}

impl NamedNode {
    #[verifier::type_invariant]
    spec fn holds_iri(self) -> bool {
        is_iri(self.iri@)
    }

    /// The node of an IRI; there is none for a string that is no IRI.
    pub fn new(iri: String) -> (node: Option<NamedNode>)
        ensures
            match node {
                Some(node) => is_iri(iri@) && node@ == iri@,
                None => !is_iri(iri@),
            },
    {
        if accepts_iri(iri.as_str()) {
            Some(NamedNode { iri })
        } else {
            None
        }
    }

    /// The IRI of the node.
    pub fn as_str(&self) -> (iri: &str)
        ensures
            iri@ == self@,
            is_iri(iri@),
    {
        proof {
            use_type_invariant(self);
        }
        self.iri.as_str()
    }
}

/// A term that a query hands to a function, or gets from one.
#[derive(Debug)]
pub enum Term {
    /// A node named by an IRI.
    NamedNode(NamedNode),
    /// A literal, by its value.
    Literal(String),
    /// A term of another kind, by its spelling.
    Other(String),
}

/// The mathematical value of a [`Term`].
pub enum TermValue {
    NamedNode(Seq<char>),
    Literal(Seq<char>),
    Other(Seq<char>),
}

impl View for Term {
    type V = TermValue;

    open spec fn view(&self) -> TermValue {
        match self {
            Term::NamedNode(node) => TermValue::NamedNode(node@),
            Term::Literal(value) => TermValue::Literal(value@),
            Term::Other(spelling) => TermValue::Other(spelling@),
        }
    }
}

impl DeepView for Term {
    type V = TermValue;

    open spec fn deep_view(&self) -> TermValue {
        self@
    }
}

/// A term is of the kind that it shows, with what it holds.
pub proof fn lemma_term(node: NamedNode, value: String, function: Function)
    ensures
        Term::NamedNode(node)@ == TermValue::NamedNode(node@),
        Term::Literal(value)@ == TermValue::Literal(value@),
        Term::Other(value)@ == TermValue::Other(value@),
        Term::Literal(value).deep_view() == TermValue::Literal(value@),
        Term::Other(value).deep_view() == TermValue::Other(value@),
        Term::NamedNode(node).deep_view() == TermValue::NamedNode(node@),
        function.deep_view() == function,
{
}

/// Why a function of a query cannot be evaluated.
#[derive(Debug, Clone, Copy, PartialEq, Eq, Structural)]
pub enum ExpandError {
    /// The argument is no literal.
    NotALiteral,
    /// The prefix is not declared.
    UnknownPrefix,
    /// The expanded name is no IRI.
    InvalidIri,
}

/// The IRI of a prefix, as a literal.
pub open spec fn expanded_prefix(
    prefixes: Map<Seq<char>, Seq<char>>,
    prefix: TermValue,
) -> Result<Option<TermValue>, ExpandError> {
    match prefix {
        TermValue::Literal(name) => if prefixes.contains_key(name) {
            Ok(Some(TermValue::Literal(prefixes[name])))
        } else {
            Ok(None)
        },
        _ => Err(ExpandError::NotALiteral),
    }
}

/// The node of a prefixed name: the IRI of what stands before the first colon, with what
/// stands behind it added.
pub open spec fn expanded_prefixed_name(
    prefixes: Map<Seq<char>, Seq<char>>,
    qname: TermValue,
) -> Result<Option<TermValue>, ExpandError> {
    match qname {
        TermValue::Literal(name) => {
            let colon = text::first_index(name, ':');
            if colon < name.len() && prefixes.contains_key(name.take(colon)) {
                let iri = prefixes[name.take(colon)] + name.skip(colon + 1);
                if is_iri(iri) {
                    Ok(Some(TermValue::NamedNode(iri)))
                } else {
                    Err(ExpandError::InvalidIri)
                }
            } else {
                Ok(None)
            }
        },
        _ => Err(ExpandError::NotALiteral),
    }
}

/// The mathematical value of what a function gives.
pub open spec fn outcome(
    result: Result<Option<Term>, ExpandError>,
) -> Result<Option<TermValue>, ExpandError> {
    match result {
        Ok(Some(term)) => Ok(Some(term@)),
        Ok(None) => Ok(None),
        Err(error) => Err(error),
    }
}

/// What a function gives shows as it is.
pub proof fn lemma_outcome(term: Term, error: ExpandError)
    ensures
        outcome(Ok(Some(term))) == Ok::<Option<TermValue>, ExpandError>(Some(term@)),
        outcome(Ok(None)) == Ok::<Option<TermValue>, ExpandError>(None),
        outcome(Err(error)) == Err::<Option<TermValue>, ExpandError>(error),
{
}

/// The name of a declared prefix, a colon and a local name expand to the IRI of the prefix
/// followed by the local name.
pub proof fn lemma_prefixed_name_expands(
    prefixes: Map<Seq<char>, Seq<char>>,
    prefix: Seq<char>,
    local: Seq<char>,
)
    requires
        prefixes.contains_key(prefix),
        !prefix.contains(':'),
        is_iri(prefixes[prefix] + local),
    ensures
        expanded_prefixed_name(prefixes, TermValue::Literal(prefix + seq![':'] + local)) == Ok::<
            Option<TermValue>,
            ExpandError,
        >(Some(TermValue::NamedNode(prefixes[prefix] + local))),
{
    let name = prefix + seq![':'] + local;
    lemma_colon_behind(name, prefix.len() as int);
    assert(name.take(prefix.len() as int) =~= prefix);
    assert(name.skip(prefix.len() as int + 1) =~= local);
}

/// With nothing behind the colon, the expanded name is the IRI that the prefix alone stands for.
pub proof fn lemma_prefix_alone_expands(
    prefixes: Map<Seq<char>, Seq<char>>,
    prefix: Seq<char>,
)
    requires
        prefixes.contains_key(prefix),
        !prefix.contains(':'),
        is_iri(prefixes[prefix]),
    ensures
        expanded_prefix(prefixes, TermValue::Literal(prefix)) == Ok::<
            Option<TermValue>,
            ExpandError,
        >(Some(TermValue::Literal(prefixes[prefix]))),
        expanded_prefixed_name(prefixes, TermValue::Literal(prefix + seq![':'])) == Ok::<
            Option<TermValue>,
            ExpandError,
        >(Some(TermValue::NamedNode(prefixes[prefix]))),
{
    let nothing = Seq::<char>::empty();
    assert(prefixes[prefix] + nothing =~= prefixes[prefix]);
    assert(prefix + seq![':'] + nothing =~= prefix + seq![':']);
    lemma_prefixed_name_expands(prefixes, prefix, nothing);
}

proof fn lemma_colon_behind(name: Seq<char>, at: int)
    requires
        0 <= at < name.len(),
        name[at] == ':',
        !name.take(at).contains(':'),
    ensures
        text::first_index(name, ':') == at,
{
    text::lemma_first_index(name, ':');
    let found = text::first_index(name, ':');
    if found < at {
        assert(name.take(at)[found] == ':');
    }
}

/// The IRI of a prefix, as a literal; nothing if the prefix is not declared.
pub fn expand_prefix(prefixes: &PrefixMap, prefix: &Term) -> (result: Result<
    Option<Term>,
    ExpandError,
>)
    ensures
        outcome(result) == expanded_prefix(prefixes@, prefix@),
{
    match prefix {
        Term::Literal(name) => {
            match prefixes.get(name.as_str()) {
                Some(iri) => Ok(Some(Term::Literal(iri.clone()))),
                None => Ok(None),
            }
        },
        _ => Err(ExpandError::NotALiteral),
    }
}

/// The node of a prefixed name; nothing if it is empty, has no colon, or its prefix is not
/// declared.
pub fn expand_prefixed_name(prefixes: &PrefixMap, qname: &Term) -> (result: Result<
    Option<Term>,
    ExpandError,
>)
    ensures
        outcome(result) == expanded_prefixed_name(prefixes@, qname@),
{
    match qname {
        Term::Literal(name) => {
            let chars = text::chars_of(name.as_str());
            let colon = text::index_of(&chars, 0, ':');
            assert(chars@.skip(0) =~= chars@);
            if colon == chars.len() {
                return Ok(None);
            }
            let prefix = text::string_of(&chars, 0, colon);
            let local = text::string_of(&chars, colon + 1, chars.len());
            assert(prefix@ =~= name@.take(colon as int));
            assert(local@ =~= name@.skip(colon + 1));
            match prefixes.get(prefix.as_str()) {
                Some(base) => {
                    let mut iri = base.clone();
                    iri.append(local.as_str());
                    match NamedNode::new(iri) {
                        Some(node) => Ok(Some(Term::NamedNode(node))),
                        None => Err(ExpandError::InvalidIri),
                    }
                },
                None => Ok(None),
            }
        },
        _ => Err(ExpandError::NotALiteral),
    }
}

/// The functions that a query may call.
#[derive(Debug, Clone, Copy, PartialEq, Eq, Structural)]
pub enum Function {
    ExpandPrefix,
    ExpandPrefixedName,
}

impl DeepView for Function {
    type V = Function;

    open spec fn deep_view(&self) -> Function {
        *self
    }
}

/// What a call of a function gives: nothing without an argument. The prefix that
/// `expandPrefix` is given has to be declared.
pub open spec fn called(
    function: Function,
    prefixes: Map<Seq<char>, Seq<char>>,
    argument: Option<TermValue>,
) -> Result<Option<TermValue>, ExpandError> {
    match argument {
        None => Ok(None),
        Some(term) => match function {
            Function::ExpandPrefix => match expanded_prefix(prefixes, term) {
                Ok(None) => Err(ExpandError::UnknownPrefix),
                expanded => expanded,
            },
            Function::ExpandPrefixedName => expanded_prefixed_name(prefixes, term),
        },
    }
}

/// What the calls of the two functions give. A call without an argument gives nothing, and takes
/// no argument but a literal. `expandPrefix` gives the IRI of a declared prefix and refuses any
/// other one. `expandPrefixedName` puts the IRI of what stands before the first colon in front of
/// what stands behind it, if that prefix is declared, and refuses what is no IRI then; without a
/// colon or with another prefix it gives nothing.
pub proof fn lemma_called(
    function: Function,
    prefixes: Map<Seq<char>, Seq<char>>,
    prefix: Seq<char>,
    local: Seq<char>,
)
    requires
        !prefix.contains(':'),
    ensures
        called(function, prefixes, None) == Ok::<Option<TermValue>, ExpandError>(None),
        called(function, prefixes, Some(TermValue::NamedNode(prefix))) == Err::<
            Option<TermValue>,
            ExpandError,
        >(ExpandError::NotALiteral),
        called(function, prefixes, Some(TermValue::Other(prefix))) == Err::<
            Option<TermValue>,
            ExpandError,
        >(ExpandError::NotALiteral),
        called(Function::ExpandPrefix, prefixes, Some(TermValue::Literal(local))) == (
        if prefixes.contains_key(local) {
            Ok::<Option<TermValue>, ExpandError>(Some(TermValue::Literal(prefixes[local])))
        } else {
            Err(ExpandError::UnknownPrefix)
        }),
        called(Function::ExpandPrefixedName, prefixes, Some(TermValue::Literal(prefix))) == Ok::<
            Option<TermValue>,
            ExpandError,
        >(None),
        called(
            Function::ExpandPrefixedName,
            prefixes,
            Some(TermValue::Literal(prefix + seq![':'] + local)),
        ) == (if !prefixes.contains_key(prefix) {
            Ok::<Option<TermValue>, ExpandError>(None)
        } else if is_iri(prefixes[prefix] + local) {
            Ok(Some(TermValue::NamedNode(prefixes[prefix] + local)))
        } else {
            Err(ExpandError::InvalidIri)
        }),
{
    let name = prefix + seq![':'] + local;
    let n = prefix.len() as int;
    assert(name.take(n) =~= prefix);
    lemma_colon_behind(name, n);
    assert(name.skip(n + 1) =~= local);
    text::lemma_first_index(prefix, ':');
    let at = text::first_index(prefix, ':');
    if at < prefix.len() {
        assert(prefix.contains(prefix[at]));
    }
}

/// The two functions give what calls of them give, but that an undeclared prefix is no error for
/// `expand_prefix`.
pub proof fn lemma_expanded(prefixes: Map<Seq<char>, Seq<char>>, term: TermValue)
    ensures
        expanded_prefixed_name(prefixes, term) == called(
            Function::ExpandPrefixedName,
            prefixes,
            Some(term),
        ),
        expanded_prefix(prefixes, term) == (match called(
            Function::ExpandPrefix,
            prefixes,
            Some(term),
        ) {
            Err(ExpandError::UnknownPrefix) => Ok(None),
            expanded => expanded,
        }),
{
}

/// Calls a function with the first of its arguments.
pub fn call_function(function: Function, prefixes: &PrefixMap, argument: &Option<Term>) -> (result:
    Result<Option<Term>, ExpandError>)
    ensures
        outcome(result) == called(function, prefixes@, argument.deep_view()),
{
    match argument {
        None => Ok(None),
        Some(term) => match function {
            Function::ExpandPrefix => match expand_prefix(prefixes, term) {
                Ok(None) => Err(ExpandError::UnknownPrefix),
                expanded => expanded,
            },
            Function::ExpandPrefixedName => expand_prefixed_name(prefixes, term),
        },
    }
}

} // verus!

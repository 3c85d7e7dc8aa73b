//! The calls of functions that the evaluation of a query makes: what each gives, and which of
//! them is refused first.
use crate::prefixes::PrefixMap;
use crate::terms;
use crate::terms::{call_function, ExpandError, Function, NamedNode, Term};
use vstd::prelude::*;

verus! {

/// What a call gives to the query that makes it.
pub enum Expansion {
    /// A node.
    Node(NamedNode),
    /// A literal, by its value.
    Text(String),
}

/// What the query gets from a call: what the function gives, and nothing from a refused call,
/// since a query takes no error from a function.
pub fn expansion(function: Function, prefixes: &PrefixMap, argument: &Option<Term>) -> (given:
    Option<Expansion>)
    ensures
        match terms::called(function, prefixes@, argument.deep_view()) {
            Ok(Some(terms::TermValue::NamedNode(iri))) => given matches Some(Expansion::Node(node))
                && node@ == iri,
            Ok(Some(terms::TermValue::Literal(value))) => given matches Some(Expansion::Text(text))
                && text@ == value,
            _ => given is None,
        },
{
    match call_function(function, prefixes, argument) {
        Ok(Some(Term::NamedNode(node))) => Some(Expansion::Node(node)),
        Ok(Some(Term::Literal(value))) => Some(Expansion::Text(value)),
        _ => None,
    }
}

/// A call that was refused, and why.
#[derive(Debug)]
pub struct Refusal {
    pub function: Function,
    pub argument: Option<Term>,
    pub error: ExpandError,
}

/// The mathematical value of a [`Refusal`].
pub struct Refused {
    pub function: Function,
    pub argument: Option<terms::TermValue>,
    pub error: ExpandError,
}

impl View for Refusal {
    type V = Refused;

    open spec fn view(&self) -> Refused {
        Refused {
            function: self.function,
            argument: self.argument.deep_view(),
            error: self.error,
        }
    }
}

/// A refusal shows its function, its argument and its error as they are.
pub proof fn lemma_refusal(refusal: Refusal)
    ensures
        refusal@.function == refusal.function,
        refusal@.error == refusal.error,
        match refusal.argument {
            Some(term) => refusal@.argument == Some(term@),
            None => refusal@.argument is None,
        },
{
}

/// The first of these calls, each with the first of its arguments, that is refused.
pub open spec fn refused(
    prefixes: Map<Seq<char>, Seq<char>>,
    calls: Seq<(Function, Option<terms::TermValue>)>,
) -> Option<Refused>
    decreases calls.len(),
{
    if calls.len() == 0 {
        None
    } else {
        match refused(prefixes, calls.drop_last()) {
            Some(earlier) => Some(earlier),
            None => {
                let (function, argument) = calls.last();
                match terms::called(function, prefixes, argument) {
                    Err(error) => Some(Refused { function, argument, error }),
                    Ok(_) => None,
                }
            },
        }
    }
}

/// No call is refused exactly when all of them are answered; a call that is refused first is one
/// of them, and the ones before it are answered.
pub proof fn lemma_refused(
    prefixes: Map<Seq<char>, Seq<char>>,
    calls: Seq<(Function, Option<terms::TermValue>)>,
)
    ensures
        match refused(prefixes, calls) {
            None => forall|i: int|
                0 <= i < calls.len() ==> terms::called(
                    (#[trigger] calls[i]).0,
                    prefixes,
                    calls[i].1,
                ) is Ok,
            Some(first) => exists|i: int|
                {
                    &&& 0 <= i < calls.len()
                    &&& #[trigger] calls[i] == (first.function, first.argument)
                    &&& terms::called(first.function, prefixes, first.argument) == Err::<
                        Option<terms::TermValue>,
                        ExpandError,
                    >(first.error)
                    &&& forall|j: int|
                        0 <= j < i ==> terms::called(
                            (#[trigger] calls[j]).0,
                            prefixes,
                            calls[j].1,
                        ) is Ok
                },
        },
    decreases calls.len(),
{
    if calls.len() > 0 {
        let fewer = calls.drop_last();
        lemma_refused(prefixes, fewer);
        match refused(prefixes, fewer) {
            Some(first) => {
                let i = choose|i: int|
                    {
                        &&& 0 <= i < fewer.len()
                        &&& #[trigger] fewer[i] == (first.function, first.argument)
                        &&& forall|j: int|
                            0 <= j < i ==> terms::called(
                                (#[trigger] fewer[j]).0,
                                prefixes,
                                fewer[j].1,
                            ) is Ok
                    };
                assert(calls[i] == (first.function, first.argument));
                assert forall|j: int| 0 <= j < i implies terms::called(
                    (#[trigger] calls[j]).0,
                    prefixes,
                    calls[j].1,
                ) is Ok by {
                    assert(calls[j] == fewer[j]);
                }
            },
            None => {
                let last = calls.len() - 1;
                assert forall|j: int| 0 <= j < last implies terms::called(
                    (#[trigger] calls[j]).0,
                    prefixes,
                    calls[j].1,
                ) is Ok by {
                    assert(calls[j] == fewer[j]);
                }
                assert(calls[last] == calls.last());
            },
        }
    }
}

/// The first of these calls that is refused.
pub fn first_refusal(prefixes: &PrefixMap, calls: Vec<(Function, Option<Term>)>) -> (refusal:
    Option<Refusal>)
    ensures
        match refused(prefixes@, calls.deep_view()) {
            Some(first) => refusal matches Some(refusal) && refusal@ == first,
            None => refusal is None,
        },
{
    let ghost all = calls.deep_view();
    let mut first: Option<Refusal> = None;
    for call in it: calls
        invariant
            it.seq() == calls@,
            all == calls.deep_view(),
            match refused(prefixes@, all.take(it.index())) {
                Some(earlier) => first matches Some(refusal) && refusal@ == earlier,
                None => first is None,
            },
    {
        proof {
            assert(all.take(it.index() + 1).drop_last() =~= all.take(it.index()));
            assert(all[it.index()] == call.deep_view());
        }
        if first.is_none() {
            let (function, argument) = call;
            match call_function(function, prefixes, &argument) {
                Err(error) => {
                    first = Some(Refusal { function, argument, error });
                },
                Ok(_) => {},
            }
        }
    }
    assert(all.take(all.len() as int) =~= all);
    first
}

} // verus!

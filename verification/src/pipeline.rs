//! The stages that a row goes through: a reader hands out rows, a transformer answers the query
//! for each. What the transformers give goes to a writer.
use crate::prefixes;
use crate::prefixes::extract_prefixes;
use crate::rdf;
use crate::rdf::{EvaluationError, Evaluator, ParsedQuery, Spelling, Statement};
use crate::rows;
use crate::rows::values_of;
use crate::split;
use crate::split::{apply_split, split_fits};
use crate::variables;
use crate::variables::{extract_variables, VariableSet};
use crate::windows;
use vstd::prelude::*;

verus! {

/// Why a record cannot be handed out.
#[derive(Debug, Clone, Copy, PartialEq, Eq, Structural)]
pub enum RowError {
    /// The record has no cell in a column that is to be split.
    MissingCell,
    /// There are more rows than can be numbered.
    TooManyRows,
}

/// Where a reader of rows stands.
pub struct Reading {
    pub headers: Seq<Seq<char>>,
    pub rules: Seq<split::SplitRule>,
    /// How many rows are handed out at most; with 0, all are.
    pub test: u32,
    pub workers: int,
    /// The number of the next row.
    pub next: u32,
}

/// Whether the record has a cell in every column that is to be split.
pub open spec fn is_complete(
    headers: Seq<Seq<char>>,
    rules: Seq<split::SplitRule>,
    record: Seq<Seq<char>>,
) -> bool {
    split::rules_fit(rules, headers, split::zipped(headers, record).len())
}

/// The rows that a record is split into.
pub open spec fn rows_of(
    headers: Seq<Seq<char>>,
    rules: Seq<split::SplitRule>,
    record: Seq<Seq<char>>,
) -> Seq<split::Cells> {
    split::split_all(rules, headers, split::zipped(headers, record))
}

/// A record that has a cell for every header has one in every column that is to be split.
pub proof fn lemma_full_records_are_complete(
    headers: Seq<Seq<char>>,
    rules: Seq<split::SplitRule>,
    record: Seq<Seq<char>>,
)
    requires
        record.len() >= headers.len(),
    ensures
        is_complete(headers, rules, record),
    decreases rules.len(),
{
    if rules.len() > 0 {
        lemma_full_records_are_complete(headers, rules.drop_last(), record);
        split::lemma_position(headers, rules.last().0);
    }
}

/// A record, split, with its number and the worker that gets it.
pub struct Task {
    pub worker: usize,
    pub number: u32,
    pub rows: Vec<Vec<(String, String)>>,
}

/// Numbers records, splits them, and hands them out to workers in turn.
pub struct RowReader {
    headers: Vec<String>,
    rules: Vec<(String, String, String)>,
    test: u32,
    workers: usize,
    next: u32,
}

impl View for RowReader {
    type V = Reading;

    closed spec fn view(&self) -> Reading {
        Reading {
            headers: self.headers.deep_view(),
            rules: self.rules.deep_view(),
            test: self.test,
            workers: self.workers as int,
            next: self.next,
        }
    }
}

impl RowReader {
    #[verifier::type_invariant]
    spec fn has_workers(self) -> bool {
        self.workers > 0
    }

    /// A reader before the first record.
    pub fn new(
        headers: Vec<String>,
        rules: Vec<(String, String, String)>,
        test: u32,
        workers: usize,
    ) -> (reader: RowReader)
        requires
            workers > 0,
        ensures
            reader@ == (Reading {
                headers: headers.deep_view(),
                rules: rules.deep_view(),
                test,
                workers: workers as int,
                next: 0,
            }),
    {
        RowReader { headers, rules, test, workers, next: 0 }
    }

    /// Whether no more rows are wanted.
    pub fn is_done(&self) -> (r: bool)
        ensures
            r == (self@.test != 0 && self@.next >= self@.test),
    {
        self.test != 0 && self.next >= self.test
    }

    /// Hands out a record.
    pub fn hand_out(&mut self, record: &Vec<String>) -> (result: Result<Task, RowError>)
        ensures
            ({
                let before = old(self)@;
                let cells = record.deep_view();
                let complete = is_complete(before.headers, before.rules, cells);
                match result {
                    Ok(task) => {
                        &&& complete
                        &&& task.number == before.next
                        &&& task.worker == before.next as int % before.workers
                        &&& task.rows.deep_view() == rows_of(before.headers, before.rules, cells)
                        &&& final(self)@ == (Reading { next: (before.next + 1) as u32, ..before })
                        &&& before.next < u32::MAX
                    },
                    Err(RowError::MissingCell) => !complete && final(self)@ == before,
                    Err(RowError::TooManyRows) => {
                        &&& complete
                        &&& before.next == u32::MAX
                        &&& final(self)@ == before
                    },
                }
            }),
    {
        proof {
            use_type_invariant(&*self);
        }
        let width: usize = if self.headers.len() <= record.len() {
            self.headers.len()
        } else {
            record.len()
        };
        if !split_fits(self.rules.as_slice(), self.headers.as_slice(), width) {
            return Err(RowError::MissingCell);
        }
        if self.next == u32::MAX {
            return Err(RowError::TooManyRows);
        }
        let rows = apply_split(
            self.rules.as_slice(),
            record.as_slice(),
            self.headers.as_slice(),
        );
        let number = self.next;
        let worker: usize = number as usize % self.workers;
        self.next = number + 1;
        Ok(Task { worker, number, rows })
    }
}

/// What the answers to a query rest on, apart from the rows.
pub struct Context {
    pub query: rdf::Reading,
    pub equipment: rdf::Equipment,
    pub variables: Set<Seq<char>>,
    pub bind_empty: bool,
}

/// What the answers to the query of this text rest on: the prefixes that it declares and the
/// variables that it mentions.
pub open spec fn context_of(text: Seq<char>, bind_empty: bool) -> Context {
    Context {
        query: rdf::query_of(text),
        equipment: rdf::equipment_of(prefixes::prefixes_of(text)),
        variables: variables::mentioned(text),
        bind_empty,
    }
}

/// Whether the query may be settled so for a row.
pub open spec fn may_settle_row(
    context: Context,
    row: split::Cells,
    number: u32,
    settled: Result<Seq<Spelling>, EvaluationError>,
) -> bool {
    rdf::may_settle(
        context.query,
        context.equipment,
        rows::row_values(context.variables, context.bind_empty, row, number),
        settled,
    )
}

/// Whether the query may have these answers for the first of these rows.
pub open spec fn may_answer_rows(
    context: Context,
    rows: Seq<split::Cells>,
    number: u32,
    answers: Seq<Seq<Spelling>>,
) -> bool {
    &&& answers.len() <= rows.len()
    &&& forall|i: int|
        0 <= i < answers.len() ==> may_settle_row(
            context,
            rows[i],
            number,
            Ok(#[trigger] answers[i]),
        )
}

/// Whether the rows of a record may give this: the answers for all of them, one behind the
/// other, or the first failure.
pub open spec fn may_yield(
    context: Context,
    rows: Seq<split::Cells>,
    number: u32,
    result: Result<Seq<Spelling>, EvaluationError>,
) -> bool {
    exists|answers: Seq<Seq<Spelling>>|
        {
            &&& #[trigger] may_answer_rows(context, rows, number, answers)
            &&& match result {
                Ok(triples) => {
                    &&& answers.len() == rows.len()
                    &&& triples == windows::in_a_row(answers)
                },
                Err(error) => {
                    &&& answers.len() < rows.len()
                    &&& may_settle_row(context, rows[answers.len() as int], number, Err(error))
                },
            }
        }
}

/// The rows of a record are those of its cells under the headers, split by the rules; it is
/// complete when the rules find their cells.
pub proof fn lemma_rows_of(
    headers: Seq<Seq<char>>,
    rules: Seq<split::SplitRule>,
    record: Seq<Seq<char>>,
    row: split::Cells,
)
    requires
        row.len() <= headers.len(),
        row.len() <= record.len(),
        row.len() == headers.len() || row.len() == record.len(),
        forall|i: int| 0 <= i < row.len() ==> #[trigger] row[i] == (headers[i], record[i]),
    ensures
        rows_of(headers, rules, record) == split::split_all(rules, headers, row),
        is_complete(headers, rules, record) == split::rules_fit(rules, headers, row.len()),
{
    assert(split::zipped(headers, record) =~= row);
}

/// What the answers to a query rest on is its text, read without a projection, the functions on
/// the prefixes that it declares, the variables that it mentions, and whether blank cells count.
pub proof fn lemma_context_of(text: Seq<char>, bind_empty: bool)
    ensures
        ({
            let context = context_of(text, bind_empty);
            &&& context.query.text == text
            &&& !context.query.projected
            &&& context.equipment.prefixes == prefixes::prefixes_of(text)
            &&& context.equipment == rdf::equipment_of(prefixes::prefixes_of(text))
            &&& context.variables == variables::mentioned(text)
            &&& context.bind_empty == bind_empty
        }),
{
}

/// One row gives what the query gives with the values of the row, its number among them.
pub proof fn lemma_yield_of_a_row(
    context: Context,
    row: split::Cells,
    number: u32,
    result: Result<Seq<Spelling>, EvaluationError>,
)
    ensures
        may_yield(context, seq![row], number, result) <==> rdf::may_settle(
            context.query,
            context.equipment,
            rows::row_values(context.variables, context.bind_empty, row, number),
            result,
        ),
        may_yield(context, Seq::empty(), number, result) <==> result == Ok::<
            Seq<Spelling>,
            EvaluationError,
        >(Seq::empty()),
{
    let one = seq![row];
    let none = Seq::<split::Cells>::empty();
    let nothing = Seq::<Seq<Spelling>>::empty();
    assert(windows::in_a_row(nothing) =~= Seq::empty());
    assert(may_answer_rows(context, none, number, nothing));
    assert(may_answer_rows(context, one, number, nothing));
    if may_yield(context, none, number, result) {
        let answers = choose|answers: Seq<Seq<Spelling>>|
            {
                &&& #[trigger] may_answer_rows(context, none, number, answers)
                &&& match result {
                    Ok(triples) => answers.len() == none.len() && triples == windows::in_a_row(
                        answers,
                    ),
                    Err(error) => answers.len() < none.len(),
                }
            };
        assert(answers =~= nothing);
    }
    match result {
        Ok(triples) => {
            let answer = seq![triples];
            assert(answer.drop_last() =~= nothing);
            assert(windows::in_a_row(answer) =~= triples);
            if may_settle_row(context, row, number, result) {
                assert(may_answer_rows(context, one, number, answer));
            }
            if may_yield(context, one, number, result) {
                let answers = choose|answers: Seq<Seq<Spelling>>|
                    {
                        &&& #[trigger] may_answer_rows(context, one, number, answers)
                        &&& answers.len() == one.len()
                        &&& triples == windows::in_a_row(answers)
                    };
                assert(answers.drop_last() =~= nothing);
                assert(windows::in_a_row(answers) =~= answers[0]);
                assert(may_settle_row(context, one[0], number, Ok(answers[0])));
            }
        },
        Err(error) => {
            if may_yield(context, one, number, result) {
                let answers = choose|answers: Seq<Seq<Spelling>>|
                    {
                        &&& #[trigger] may_answer_rows(context, one, number, answers)
                        &&& answers.len() < one.len()
                        &&& may_settle_row(context, one[answers.len() as int], number, Err(error))
                    };
                assert(one[answers.len() as int] == row);
            }
            assert(one[nothing.len() as int] == row);
        },
    }
}

/// Rows in two parts give what the one part gives and then the other; they fail where the first
/// part does, or where it does not and the second does.
pub proof fn lemma_yield_of_parts(
    context: Context,
    first: Seq<split::Cells>,
    second: Seq<split::Cells>,
    number: u32,
    triples: Seq<Spelling>,
    error: EvaluationError,
)
    ensures
        may_yield(context, first + second, number, Ok(triples)) <==> exists|
            one: Seq<Spelling>,
            other: Seq<Spelling>,
        |
            {
                &&& #[trigger] may_yield(context, first, number, Ok(one))
                &&& #[trigger] may_yield(context, second, number, Ok(other))
                &&& triples == one + other
            },
        may_yield(context, first + second, number, Err(error)) <==> may_yield(
            context,
            first,
            number,
            Err(error),
        ) || exists|one: Seq<Spelling>|
            #[trigger] may_yield(context, first, number, Ok(one)) && may_yield(
                context,
                second,
                number,
                Err(error),
            ),
{
    let all = first + second;
    let n = first.len() as int;
    if may_yield(context, all, number, Ok(triples)) {
        let answers = choose|answers: Seq<Seq<Spelling>>|
            {
                &&& #[trigger] may_answer_rows(context, all, number, answers)
                &&& answers.len() == all.len()
                &&& triples == windows::in_a_row(answers)
            };
        lemma_answers_of_parts(context, first, second, number, answers.take(n), answers.skip(n));
        assert(answers.take(n) + answers.skip(n) =~= answers);
        windows::lemma_in_a_row_of_parts(answers.take(n), answers.skip(n));
        assert(may_yield(context, first, number, Ok(windows::in_a_row(answers.take(n)))));
        assert(may_yield(context, second, number, Ok(windows::in_a_row(answers.skip(n)))));
    }
    if exists|one: Seq<Spelling>, other: Seq<Spelling>|
        {
            &&& #[trigger] may_yield(context, first, number, Ok(one))
            &&& #[trigger] may_yield(context, second, number, Ok(other))
            &&& triples == one + other
        } {
        let (one, other) = choose|one: Seq<Spelling>, other: Seq<Spelling>|
            {
                &&& #[trigger] may_yield(context, first, number, Ok(one))
                &&& #[trigger] may_yield(context, second, number, Ok(other))
                &&& triples == one + other
            };
        let a = lemma_answers_for(context, first, number, one);
        let b = lemma_answers_for(context, second, number, other);
        lemma_answers_of_parts(context, first, second, number, a, b);
        windows::lemma_in_a_row_of_parts(a, b);
        assert(may_answer_rows(context, all, number, a + b));
    }
    if may_yield(context, all, number, Err(error)) {
        let answers = lemma_answers_before(context, all, number, error);
        let m = answers.len() as int;
        if m < n {
            assert(all[m] == first[m]);
            assert(may_answer_rows(context, first, number, answers)) by {
                assert forall|i: int| 0 <= i < answers.len() implies may_settle_row(
                    context,
                    first[i],
                    number,
                    Ok(#[trigger] answers[i]),
                ) by {
                    assert(all[i] == first[i]);
                }
            }
        } else {
            assert(answers.take(n) + answers.skip(n) =~= answers);
            lemma_answers_of_parts(
                context,
                first,
                second,
                number,
                answers.take(n),
                answers.skip(n),
            );
            assert(all[m] == second[m - n]);
            assert(may_yield(context, first, number, Ok(windows::in_a_row(answers.take(n)))));
            assert(may_answer_rows(context, second, number, answers.skip(n)));
        }
    }
    if may_yield(context, first, number, Err(error)) {
        let answers = lemma_answers_before(context, first, number, error);
        let m = answers.len() as int;
        assert(all[m] == first[m]);
        assert(may_answer_rows(context, all, number, answers)) by {
            assert forall|i: int| 0 <= i < answers.len() implies may_settle_row(
                context,
                all[i],
                number,
                Ok(#[trigger] answers[i]),
            ) by {
                assert(all[i] == first[i]);
            }
        }
    }
    if exists|one: Seq<Spelling>|
        #[trigger] may_yield(context, first, number, Ok(one)) && may_yield(
            context,
            second,
            number,
            Err(error),
        ) {
        let one = choose|one: Seq<Spelling>| #[trigger] may_yield(context, first, number, Ok(one));
        let a = lemma_answers_for(context, first, number, one);
        let b = lemma_answers_before(context, second, number, error);
        lemma_answers_of_parts(context, first, second, number, a, b);
        assert(all[(a + b).len() as int] == second[b.len() as int]);
        assert(may_answer_rows(context, all, number, a + b));
    }
}

pub(crate) proof fn lemma_answers_for(
    context: Context,
    rows: Seq<split::Cells>,
    number: u32,
    triples: Seq<Spelling>,
) -> (answers: Seq<Seq<Spelling>>)
    requires
        may_yield(context, rows, number, Ok(triples)),
    ensures
        may_answer_rows(context, rows, number, answers),
        answers.len() == rows.len(),
        triples == windows::in_a_row(answers),
{
    choose|answers: Seq<Seq<Spelling>>|
        {
            &&& #[trigger] may_answer_rows(context, rows, number, answers)
            &&& answers.len() == rows.len()
            &&& triples == windows::in_a_row(answers)
        }
}

proof fn lemma_answers_before(
    context: Context,
    rows: Seq<split::Cells>,
    number: u32,
    error: EvaluationError,
) -> (answers: Seq<Seq<Spelling>>)
    requires
        may_yield(context, rows, number, Err(error)),
    ensures
        may_answer_rows(context, rows, number, answers),
        answers.len() < rows.len(),
        may_settle_row(context, rows[answers.len() as int], number, Err(error)),
{
    choose|answers: Seq<Seq<Spelling>>|
        {
            &&& #[trigger] may_answer_rows(context, rows, number, answers)
            &&& answers.len() < rows.len()
            &&& may_settle_row(context, rows[answers.len() as int], number, Err(error))
        }
}

proof fn lemma_answers_of_parts(
    context: Context,
    first: Seq<split::Cells>,
    second: Seq<split::Cells>,
    number: u32,
    one: Seq<Seq<Spelling>>,
    other: Seq<Seq<Spelling>>,
)
    requires
        one.len() == first.len(),
    ensures
        may_answer_rows(context, first + second, number, one + other) <==> may_answer_rows(
            context,
            first,
            number,
            one,
        ) && may_answer_rows(context, second, number, other),
{
    let all = first + second;
    let both = one + other;
    if may_answer_rows(context, all, number, both) {
        assert forall|i: int| 0 <= i < one.len() implies may_settle_row(
            context,
            first[i],
            number,
            Ok(#[trigger] one[i]),
        ) by {
            assert(both[i] == one[i] && all[i] == first[i]);
        }
        assert forall|i: int| 0 <= i < other.len() implies may_settle_row(
            context,
            second[i],
            number,
            Ok(#[trigger] other[i]),
        ) by {
            assert(both[one.len() + i] == other[i] && all[first.len() + i] == second[i]);
        }
    }
    if may_answer_rows(context, first, number, one) && may_answer_rows(
        context,
        second,
        number,
        other,
    ) {
        assert forall|i: int| 0 <= i < both.len() implies may_settle_row(
            context,
            all[i],
            number,
            Ok(#[trigger] both[i]),
        ) by {
            if i < one.len() {
                assert(both[i] == one[i] && all[i] == first[i]);
            } else {
                assert(both[i] == other[i - one.len()] && all[i] == second[i - first.len()]);
            }
        }
    }
}

/// Answers a query for one record after the other.
pub struct Transformer {
    evaluator: Evaluator,
    query: ParsedQuery,
    variables: VariableSet,
    bind_empty: bool,
}

impl View for Transformer {
    type V = Context;

    closed spec fn view(&self) -> Context {
        Context {
            query: self.query@,
            equipment: self.evaluator@,
            variables: self.variables@,
            bind_empty: self.bind_empty,
        }
    }
}

impl Transformer {
    /// A transformer for the query of this text; the text may be refused.
    pub fn new(text: &str, bind_empty: bool) -> (transformer: Result<Transformer, String>)
        ensures
            transformer is Ok <==> rdf::is_query(rdf::QUERY_PREFIX@, rdf::QUERY_PREFIX_IRI@, text@),
            transformer matches Ok(transformer) ==> transformer@ == context_of(text@, bind_empty),
    {
        match ParsedQuery::new(text) {
            Ok(query) => Ok(
                Transformer {
                    evaluator: Evaluator::new(extract_prefixes(text)),
                    query,
                    variables: extract_variables(text),
                    bind_empty,
                },
            ),
            Err(message) => Err(message),
        }
    }

    /// The triples that the rows of a record give.
    pub fn transform_rows(&mut self, rows: &Vec<Vec<(String, String)>>, number: u32) -> (result:
        Result<Vec<Statement>, EvaluationError>)
        ensures
            may_yield(old(self)@, rows.deep_view(), number, rdf::settlement(result)),
            final(self)@ == old(self)@,
    {
        let mut triples: Vec<Statement> = Vec::new();
        let ghost cells = rows.deep_view();
        let ghost mut answers: Seq<Seq<Spelling>> = Seq::empty();
        assert(triples.deep_view() =~= Seq::empty());
        for i in 0..rows.len()
            invariant
                cells == rows.deep_view(),
                self@ == old(self)@,
                answers.len() == i,
                may_answer_rows(self@, cells, number, answers),
                triples.deep_view() == windows::in_a_row(answers),
        {
            assert(cells[i as int] == rows[i as int].deep_view());
            let values = values_of(&self.variables, self.bind_empty, &rows[i], number);
            match self.evaluator.answer(&self.query, &values) {
                Ok(answer) => {
                    let ghost before = triples.deep_view();
                    let ghost longer = answers.push(answer.deep_view());
                    let mut answer = answer;
                    let ghost more = answer.deep_view();
                    triples.append(&mut answer);
                    proof {
                        assert(triples.deep_view() =~= before + more);
                        assert(longer.drop_last() =~= answers);
                        assert(may_answer_rows(self@, cells, number, longer)) by {
                            assert forall|j: int| 0 <= j < longer.len() implies may_settle_row(
                                self@,
                                cells[j],
                                number,
                                Ok(#[trigger] longer[j]),
                            ) by {
                                if j < answers.len() {
                                    assert(longer[j] == answers[j]);
                                }
                            }
                        }
                        answers = longer;
                    }
                },
                Err(error) => {
                    assert(may_settle_row(self@, cells[i as int], number, Err(error)));
                    return Err(error);
                },
            }
        }
        Ok(triples)
    }
}

} // verus!

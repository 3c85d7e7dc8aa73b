//! A whole transformation: from a query and a table to the bytes of a document.
use crate::columns;
use crate::columns::{lettered_columns, named_columns};
use crate::config;
use crate::config::OxiGen;
use crate::order;
use crate::output;
use crate::output::FlushError;
use crate::pipeline;
use crate::pipeline::{RowError, RowReader, Transformer};
use crate::prefixes;
use crate::prefixes::extract_prefixes;
use crate::rdf;
use crate::rdf::{EvaluationError, RdfFormat, Spelling};
use crate::rows;
use crate::split;
use crate::store;
use crate::table;
use crate::table::{read_header, read_records};
use crate::terms;
use crate::terms::NamedNode;
use crate::variables;
use crate::windows;
use crate::windows::Writer;
use vstd::prelude::*;

verus! {

/// Why a transformation fails.
#[derive(Debug)]
pub enum TransformError {
    /// The text is no query.
    Query(String),
    /// The graph is no IRI.
    Graph,
    /// A character that structures the table is not set.
    Dialect,
    /// The header of the table cannot be read.
    Header(String),
    /// The record of this row cannot be read.
    Record(u32, String),
    /// The record of a row cannot be handed out.
    Row(RowError),
    /// The query cannot be answered for a row.
    Evaluation(EvaluationError),
    /// Triples cannot be written.
    Flush(FlushError),
}

/// What the rows of a transformation go through.
pub struct Course {
    pub headers: Seq<Seq<char>>,
    pub rules: Seq<split::SplitRule>,
    pub context: pipeline::Context,
    pub layout: windows::Layout,
    /// The records that are wanted, nothing in the place of one that cannot be read.
    pub records: Seq<Option<Seq<Seq<char>>>>,
}

/// The rows that the record of a number is split into.
pub open spec fn nth_rows(course: Course, n: int) -> Seq<split::Cells> {
    pipeline::rows_of(course.headers, course.rules, course.records[n]->0)
}

/// Whether the record of a number can be read and handed out.
pub open spec fn is_sound(course: Course, n: int) -> bool {
    &&& course.records[n] is Some
    &&& pipeline::is_complete(course.headers, course.rules, course.records[n]->0)
}

/// Whether the record of a number is sound and may give these triples.
pub open spec fn may_give_nth(course: Course, n: int, triples: Seq<Spelling>) -> bool {
    &&& is_sound(course, n)
    &&& n < u32::MAX
    &&& pipeline::may_yield(course.context, nth_rows(course, n), n as u32, Ok(triples))
}

/// Whether the first records may give these triples, each its own.
pub open spec fn may_give(course: Course, yields: Seq<Seq<Spelling>>) -> bool {
    &&& yields.len() <= course.records.len()
    &&& forall|i: int| 0 <= i < yields.len() ==> may_give_nth(course, i, #[trigger] yields[i])
}

/// Whether the windows that these rows close can be written.
pub open spec fn is_writable(course: Course, yields: Seq<Seq<Spelling>>) -> bool {
    windows::blocks(course.layout, windows::windows(course.layout.dedup, yields).closed) is Some
}

/// Whether the transformation may end so, after the first records have given these triples:
/// with the document of the triples of all records, or with the first thing that goes wrong.
pub open spec fn may_end(
    course: Course,
    yields: Seq<Seq<Spelling>>,
    result: Result<Seq<u8>, TransformError>,
) -> bool {
    let n = yields.len() as int;
    let all = yields.len() == course.records.len();
    &&& may_give(course, yields)
    &&& match result {
        Ok(document) => all && windows::written_rows(course.layout, yields) == Some(document),
        Err(TransformError::Record(number, _)) => {
            &&& is_writable(course, yields)
            &&& !all
            &&& number == n
            &&& course.records[n] is None
        },
        Err(TransformError::Row(error)) => {
            &&& is_writable(course, yields)
            &&& !all
            &&& course.records[n] is Some
            &&& match error {
                RowError::MissingCell => !is_sound(course, n),
                RowError::TooManyRows => is_sound(course, n) && n == u32::MAX,
            }
        },
        Err(TransformError::Evaluation(error)) => {
            &&& is_writable(course, yields)
            &&& !all
            &&& is_sound(course, n)
            &&& n < u32::MAX
            &&& pipeline::may_yield(course.context, nth_rows(course, n), n as u32, Err(error))
        },
        Err(TransformError::Flush(error)) => {
            &&& error == output::reason(course.layout.format)
            &&& !is_writable(course, yields) || all && windows::written_rows(
                course.layout,
                yields,
            ) is None
        },
        Err(_) => false,
    }
}

/// The records that are wanted: with a limit, no more than that.
pub open spec fn wanted(
    records: Seq<Option<Seq<Seq<char>>>>,
    test: u32,
) -> Seq<Option<Seq<Seq<char>>>> {
    if test != 0 && test < records.len() {
        records.take(test as int)
    } else {
        records
    }
}

/// The names of the columns of a table: those of its header, or letters.
pub open spec fn column_names(
    settings: OxiGen,
    dialect: table::Dialect,
    input: Seq<u8>,
) -> Option<Seq<Seq<char>>> {
    if settings.headers {
        match table::first_row(input, dialect) {
            Some(cells) => Some(columns::header_columns(cells, settings.normalize)),
            None => None,
        }
    } else {
        Some(columns::letter_columns())
    }
}

/// The graph of the settings.
pub open spec fn graph_of(settings: OxiGen) -> Option<Seq<char>> {
    match settings.graph {
        Some(iri) => Some(iri@),
        None => None,
    }
}

/// What the rows of a table go through.
pub open spec fn course_of(
    settings: OxiGen,
    text: Seq<char>,
    dialect: table::Dialect,
    headers: Seq<Seq<char>>,
    input: Seq<u8>,
) -> Course {
    Course {
        headers,
        rules: settings.split.deep_view(),
        context: pipeline::context_of(text, settings.bind_empty_strings),
        layout: windows::Layout {
            format: config::format_of(settings.graph is Some, settings.ntriples),
            prefixes: prefixes::prefixes_of(text),
            graph: graph_of(settings),
            dedup: settings.dedup,
        },
        records: wanted(table::records(input, settings.headers, dialect), settings.test),
    }
}

/// Whether a transformation may end so. The query is looked at first, then the graph, the
/// characters that structure the table, its header, and its rows.
pub open spec fn may_transform(
    settings: OxiGen,
    text: Seq<char>,
    input: Seq<u8>,
    result: Result<Seq<u8>, TransformError>,
) -> bool {
    if !rdf::is_query(rdf::QUERY_PREFIX@, rdf::QUERY_PREFIX_IRI@, text) {
        result matches Err(TransformError::Query(_))
    } else if graph_of(settings) is Some && !terms::is_iri(graph_of(settings)->0) {
        result matches Err(TransformError::Graph)
    } else {
        match config::dialect_of(
            settings.tab,
            settings.delimiter@,
            settings.quote_char@,
            settings.escape_char@,
        ) {
            None => result matches Err(TransformError::Dialect),
            Some(dialect) => match column_names(settings, dialect, input) {
                None => result matches Err(TransformError::Header(_)),
                Some(headers) => exists|yields: Seq<Seq<Spelling>>| #[trigger]
                    may_end(course_of(settings, text, dialect, headers, input), yields, result),
            },
        }
    }
}

/// No more rows are transformed than a limit allows, and they are the first ones.
pub proof fn lemma_wanted(records: Seq<Option<Seq<Seq<char>>>>, test: u32)
    ensures
        wanted(records, test).is_prefix_of(records),
        test != 0 ==> wanted(records, test).len() <= test,
        test != 0 && test <= records.len() ==> wanted(records, test).len() == test,
        test == 0 || records.len() <= test ==> wanted(records, test) == records,
{
}

/// The columns of a table with a header are named after its first row, cell by cell; those of a
/// table without one are lettered.
pub proof fn lemma_column_names(
    settings: OxiGen,
    dialect: table::Dialect,
    input: Seq<u8>,
    i: int,
)
    ensures
        !settings.headers ==> column_names(settings, dialect, input) == Some(
            columns::letter_columns(),
        ),
        settings.headers ==> match table::first_row(input, dialect) {
            Some(cells) => {
                &&& column_names(settings, dialect, input) matches Some(names)
                &&& names.len() == cells.len()
                &&& 0 <= i < cells.len() ==> names[i] == columns::cleaned_column(
                    cells[i],
                    settings.normalize,
                )
            },
            None => column_names(settings, dialect, input) is None,
        },
{
}

/// What a transformation that succeeds has done. The text is a query, the graph is an IRI, and the
/// settings have the characters that structure the table. The records are those of the table, from
/// the first on: all of them, or as many as the limit allows. Each can be read, and its rows have
/// been answered with its number, which counts from 0. The document is the blocks of the windows of
/// the triples of all records, in the format, with the prefixes, the graph and the window size that
/// were asked for.
pub proof fn lemma_transformed(
    settings: OxiGen,
    text: Seq<char>,
    input: Seq<u8>,
    document: Seq<u8>,
    dialect: table::Dialect,
    records: Seq<Option<Seq<Seq<char>>>>,
    names: Seq<Seq<char>>,
)
    requires
        records == table::records(input, settings.headers, dialect),
        names == column_names(settings, dialect, input)->0,
        may_transform(settings, text, input, Ok(document)),
        dialect.delimiter == (if settings.tab {
            9u8
        } else {
            settings.delimiter@[0] as u8
        }),
        dialect.quote == settings.quote_char@[0] as u8,
        dialect.escape == settings.escape_char@[0] as u8,
    ensures
        rdf::is_query(rdf::QUERY_PREFIX@, rdf::QUERY_PREFIX_IRI@, text),
        settings.graph matches Some(iri) ==> terms::is_iri(iri@),
        settings.tab || settings.delimiter@.len() > 0,
        settings.quote_char@.len() > 0,
        settings.escape_char@.len() > 0,
        column_names(settings, dialect, input) is Some,
        exists|yields: Seq<Seq<Spelling>>|
            {
                &&& yields.len() == (if settings.test != 0 && settings.test < records.len() {
                    settings.test as nat
                } else {
                    records.len()
                })
                &&& yields.len() <= u32::MAX
                &&& forall|n: int|
                    0 <= n < yields.len() ==> {
                        &&& #[trigger] records[n] is Some
                        &&& pipeline::is_complete(
                            names,
                            settings.split.deep_view(),
                            records[n]->0,
                        )
                        &&& pipeline::may_yield(
                            pipeline::context_of(text, settings.bind_empty_strings),
                            pipeline::rows_of(names, settings.split.deep_view(), records[n]->0),
                            n as u32,
                            Ok(yields[n]),
                        )
                    }
                &&& windows::blocks(
                    (windows::Layout {
                        format: if settings.graph is Some {
                            RdfFormat::NQuads
                        } else if settings.ntriples {
                            RdfFormat::NTriples
                        } else {
                            RdfFormat::Turtle
                        },
                        prefixes: prefixes::prefixes_of(text),
                        graph: match settings.graph {
                            Some(iri) => Some(iri@),
                            None => None,
                        },
                        dedup: settings.dedup,
                    }),
                    #[trigger] windows::all_windows(settings.dedup, yields),
                ) == Some(document)
            },
{
    config::lemma_dialect_of(
        settings.tab,
        settings.delimiter@,
        settings.quote_char@,
        settings.escape_char@,
    );
    let yields = lemma_yields(settings, text, input, document, dialect, records, names);
    assert(windows::all_windows(settings.dedup, yields) == windows::all_windows(
        settings.dedup,
        yields,
    ));
}

/// The triples that the records of a transformation that succeeds have given.
proof fn lemma_yields(
    settings: OxiGen,
    text: Seq<char>,
    input: Seq<u8>,
    document: Seq<u8>,
    dialect: table::Dialect,
    records: Seq<Option<Seq<Seq<char>>>>,
    names: Seq<Seq<char>>,
) -> (yields: Seq<Seq<Spelling>>)
    requires
        records == table::records(input, settings.headers, dialect),
        names == column_names(settings, dialect, input)->0,
        may_transform(settings, text, input, Ok(document)),
        dialect.delimiter == (if settings.tab {
            9u8
        } else {
            settings.delimiter@[0] as u8
        }),
        dialect.quote == settings.quote_char@[0] as u8,
        dialect.escape == settings.escape_char@[0] as u8,
    ensures
        column_names(settings, dialect, input) is Some,
        yields.len() == (if settings.test != 0 && settings.test < records.len() {
            settings.test as nat
        } else {
            records.len()
        }),
        yields.len() <= u32::MAX,
        forall|n: int|
            0 <= n < yields.len() ==> {
                &&& #[trigger] records[n] is Some
                &&& pipeline::is_complete(names, settings.split.deep_view(), records[n]->0)
                &&& pipeline::may_yield(
                    pipeline::context_of(text, settings.bind_empty_strings),
                    pipeline::rows_of(names, settings.split.deep_view(), records[n]->0),
                    n as u32,
                    Ok(yields[n]),
                )
            },
        windows::blocks(
            (windows::Layout {
                format: if settings.graph is Some {
                    RdfFormat::NQuads
                } else if settings.ntriples {
                    RdfFormat::NTriples
                } else {
                    RdfFormat::Turtle
                },
                prefixes: prefixes::prefixes_of(text),
                graph: match settings.graph {
                    Some(iri) => Some(iri@),
                    None => None,
                },
                dedup: settings.dedup,
            }),
            windows::all_windows(settings.dedup, yields),
        ) == Some(document),
{
    config::lemma_dialect_of(
        settings.tab,
        settings.delimiter@,
        settings.quote_char@,
        settings.escape_char@,
    );
    let found = config::dialect_of(
        settings.tab,
        settings.delimiter@,
        settings.quote_char@,
        settings.escape_char@,
    )->0;
    assert(found == dialect);
    let headers = column_names(settings, dialect, input)->0;
    let course = course_of(settings, text, dialect, headers, input);
    let result = Ok::<Seq<u8>, TransformError>(document);
    let yields = choose|yields: Seq<Seq<Spelling>>| #[trigger] may_end(course, yields, result);
    assert forall|n: int| 0 <= n < yields.len() implies {
        &&& #[trigger] records[n] is Some
        &&& pipeline::is_complete(headers, settings.split.deep_view(), records[n]->0)
        &&& pipeline::may_yield(
            pipeline::context_of(text, settings.bind_empty_strings),
            pipeline::rows_of(headers, settings.split.deep_view(), records[n]->0),
            n as u32,
            Ok(yields[n]),
        )
    } by {
        assert(may_give_nth(course, n, yields[n]));
        assert(course.records[n] == records[n]);
    }
    if yields.len() > 0 {
        assert(may_give_nth(course, yields.len() - 1, yields[yields.len() - 1]));
    }
    yields
}

/// How a transformation fails, and where. The text is no query, the graph no IRI, a setting has no
/// character, or the header cannot be read; else there is a record within the limit at which it
/// fails: one that cannot be read, with its number; one without the cell of a column that is to be
/// split; one that cannot be numbered; or one whose rows fail with its number. Those before it
/// could be read, have their cells, and may be answered with their own numbers.
pub proof fn lemma_failed(
    settings: OxiGen,
    text: Seq<char>,
    input: Seq<u8>,
    error: TransformError,
    dialect: table::Dialect,
    records: Seq<Option<Seq<Seq<char>>>>,
    names: Seq<Seq<char>>,
)
    requires
        may_transform(settings, text, input, Err(error)),
        dialect.delimiter == (if settings.tab {
            9u8
        } else {
            settings.delimiter@[0] as u8
        }),
        dialect.quote == settings.quote_char@[0] as u8,
        dialect.escape == settings.escape_char@[0] as u8,
        records == table::records(input, settings.headers, dialect),
        names == column_names(settings, dialect, input)->0,
    ensures
        error is Query <==> !rdf::is_query(rdf::QUERY_PREFIX@, rdf::QUERY_PREFIX_IRI@, text),
        error is Graph ==> (settings.graph matches Some(iri) && !terms::is_iri(iri@)),
        error is Dialect ==> !settings.tab && settings.delimiter@.len() == 0
            || settings.quote_char@.len() == 0 || settings.escape_char@.len() == 0,
        error is Header ==> settings.headers && table::first_row(input, dialect) is None,
        error is Record || error is Row || error is Evaluation ==> exists|n: int|
            {
                let rules = settings.split.deep_view();
                let context = pipeline::context_of(text, settings.bind_empty_strings);
                &&& 0 <= n < records.len()
                &&& n <= u32::MAX
                &&& settings.test != 0 ==> n < settings.test
                &&& forall|m: int|
                    0 <= m < n ==> {
                        &&& #[trigger] records[m] is Some
                        &&& pipeline::is_complete(names, rules, records[m]->0)
                        &&& exists|triples: Seq<Spelling>| #[trigger]
                            pipeline::may_yield(
                                context,
                                pipeline::rows_of(names, rules, records[m]->0),
                                m as u32,
                                Ok(triples),
                            )
                    }
                &&& error is Record <==> #[trigger] records[n] is None
                &&& error matches TransformError::Record(number, _) ==> number as int == n
                &&& error is Row ==> error == TransformError::Row(
                    if pipeline::is_complete(names, rules, records[n]->0) {
                        RowError::TooManyRows
                    } else {
                        RowError::MissingCell
                    },
                )
                &&& error == TransformError::Row(RowError::TooManyRows) ==> n == u32::MAX
                &&& error matches TransformError::Evaluation(failure) ==> {
                    &&& pipeline::is_complete(names, rules, records[n]->0)
                    &&& pipeline::may_yield(
                        context,
                        pipeline::rows_of(names, rules, records[n]->0),
                        n as u32,
                        Err(failure),
                    )
                }
            },
{
    config::lemma_dialect_of(
        settings.tab,
        settings.delimiter@,
        settings.quote_char@,
        settings.escape_char@,
    );
    if error is Record || error is Row || error is Evaluation {
        let course = course_of(settings, text, dialect, names, input);
        let context = pipeline::context_of(text, settings.bind_empty_strings);
        let rules = settings.split.deep_view();
        let result = Err::<Seq<u8>, TransformError>(error);
        let yields = choose|yields: Seq<Seq<Spelling>>| #[trigger] may_end(course, yields, result);
        let n = yields.len() as int;
        assert(course.records[n] == records[n]);
        if n > 0 {
            assert(may_give_nth(course, n - 1, yields[n - 1]));
        }
        assert forall|m: int| 0 <= m < n implies {
            &&& #[trigger] records[m] is Some
            &&& pipeline::is_complete(names, rules, records[m]->0)
            &&& exists|triples: Seq<Spelling>| #[trigger]
                pipeline::may_yield(
                    context,
                    pipeline::rows_of(names, rules, records[m]->0),
                    m as u32,
                    Ok(triples),
                )
        } by {
            assert(may_give_nth(course, m, yields[m]));
            assert(course.records[m] == records[m]);
            assert(pipeline::may_yield(
                context,
                pipeline::rows_of(names, rules, records[m]->0),
                m as u32,
                Ok(yields[m]),
            ));
        }
    }
}

/// In a transformation that succeeds, every row of the record of a number has been answered with
/// values that give `ROWNUM` that number, wherever the query mentions it; so no two records share
/// one.
pub proof fn lemma_rows_are_numbered(
    settings: OxiGen,
    text: Seq<char>,
    input: Seq<u8>,
    document: Seq<u8>,
    dialect: table::Dialect,
    number: u32,
    r: int,
)
    requires
        may_transform(settings, text, input, Ok(document)),
        dialect.delimiter == (if settings.tab {
            9u8
        } else {
            settings.delimiter@[0] as u8
        }),
        dialect.quote == settings.quote_char@[0] as u8,
        dialect.escape == settings.escape_char@[0] as u8,
        (number as int) < table::records(input, settings.headers, dialect).len(),
        settings.test == 0 || number < settings.test,
    ensures
        table::records(input, settings.headers, dialect)[number as int] matches Some(cells) && {
            let rows = pipeline::rows_of(
                column_names(settings, dialect, input)->0,
                settings.split.deep_view(),
                cells,
            );
            0 <= r < rows.len() ==> exists|values: Map<Seq<char>, rdf::Given>, triples: Seq<Spelling>|
                {
                    &&& #[trigger] rdf::may_settle(
                        rdf::query_of(text),
                        rdf::equipment_of(prefixes::prefixes_of(text)),
                        values,
                        Ok(triples),
                    )
                    &&& values == rows::row_values(
                        variables::mentioned(text),
                        settings.bind_empty_strings,
                        rows[r],
                        number,
                    )
                    &&& variables::mentioned(text).contains("ROWNUM"@) ==> values.contains_pair(
                        "ROWNUM"@,
                        rdf::Given::Number(number),
                    )
                }
        },
{
    let context = pipeline::context_of(text, settings.bind_empty_strings);
    let names = column_names(settings, dialect, input)->0;
    let rules = settings.split.deep_view();
    let records = table::records(input, settings.headers, dialect);
    let n = number as int;
    let yields = lemma_yields(settings, text, input, document, dialect, records, names);
    assert(n as u32 == number);
    assert(pipeline::may_yield(
        context,
        pipeline::rows_of(names, rules, records[n]->0),
        number,
        Ok(yields[n]),
    ));
    let rows = pipeline::rows_of(names, rules, records[n]->0);
    if 0 <= r < rows.len() {
        let answers = pipeline::lemma_answers_for(context, rows, number, yields[n]);
        assert(pipeline::may_settle_row(context, rows[r], number, Ok(answers[r])));
        let values = rows::row_values(
            variables::mentioned(text),
            settings.bind_empty_strings,
            rows[r],
            number,
        );
        rows::lemma_what_a_row_gives(
            variables::mentioned(text),
            settings.bind_empty_strings,
            rows[r],
            number,
            "ROWNUM"@,
            0,
        );
        assert(rdf::may_settle(
            rdf::query_of(text),
            rdf::equipment_of(prefixes::prefixes_of(text)),
            values,
            Ok(answers[r]),
        ));
    }
}

/// The triples that are written are those that the records gave, and no others. In N-Triples and
/// N-Quads each has a line. Where the records give fewer different triples than make a window of
/// the size that was asked for, no triple is written twice; without a window size the lines are
/// those of the records one after the other, each freed of its own duplicates.
pub proof fn lemma_lines_written(
    settings: OxiGen,
    text: Seq<char>,
    input: Seq<u8>,
    document: Seq<u8>,
    dialect: table::Dialect,
    records: Seq<Option<Seq<Seq<char>>>>,
    names: Seq<Seq<char>>,
)
    requires
        may_transform(settings, text, input, Ok(document)),
        settings.graph is Some || settings.ntriples,
        dialect.delimiter == (if settings.tab {
            9u8
        } else {
            settings.delimiter@[0] as u8
        }),
        dialect.quote == settings.quote_char@[0] as u8,
        dialect.escape == settings.escape_char@[0] as u8,
        records == table::records(input, settings.headers, dialect),
        names == column_names(settings, dialect, input)->0,
    ensures
        exists|yields: Seq<Seq<Spelling>>, triples: Seq<Spelling>, graph: Option<Seq<char>>|
            {
                &&& yields.len() == (if settings.test != 0 && settings.test < records.len() {
                    settings.test as nat
                } else {
                    records.len()
                })
                &&& forall|n: int|
                    0 <= n < yields.len() ==> {
                        &&& #[trigger] records[n] is Some
                        &&& pipeline::may_yield(
                            pipeline::context_of(text, settings.bind_empty_strings),
                            pipeline::rows_of(names, settings.split.deep_view(), records[n]->0),
                            n as u32,
                            Ok(yields[n]),
                        )
                    }
                &&& match settings.graph {
                    Some(iri) => graph == Some(iri@),
                    None => graph is None,
                }
                &&& document == vstd::utf8::encode_utf8(#[trigger] rdf::lines(triples, graph))
                &&& triples.to_set() == (#[trigger] windows::in_a_row(yields)).to_set()
                &&& windows::in_a_row(yields).to_set().len() < settings.dedup
                    ==> triples.no_duplicates()
                &&& settings.dedup == 0 ==> triples == windows::in_a_row(
                    Seq::new(
                        yields.len(),
                        |n: int| store::absorbed(Seq::empty(), yields[n]),
                    ),
                )
            },
{
    let yields = lemma_yields(settings, text, input, document, dialect, records, names);
    let layout = windows::Layout {
        format: if settings.graph is Some {
            RdfFormat::NQuads
        } else {
            RdfFormat::NTriples
        },
        prefixes: prefixes::prefixes_of(text),
        graph: graph_of(settings),
        dedup: settings.dedup,
    };
    let all = windows::all_windows(settings.dedup, yields);
    let triples = windows::in_a_row(all);
    windows::lemma_document_of_lines(layout, all);
    windows::lemma_all_written_once(settings.dedup, yields);
    if settings.dedup == 0 {
        windows::lemma_row_by_row(yields);
    }
    assert(document == vstd::utf8::encode_utf8(rdf::lines(triples, graph_of(settings))));
}

/// In Turtle, where the records give fewer different triples than make a window of the size that
/// was asked for, and any at all, the document is that of these triples, each once, in ascending
/// order.
pub proof fn lemma_turtle_written(
    settings: OxiGen,
    text: Seq<char>,
    input: Seq<u8>,
    document: Seq<u8>,
    dialect: table::Dialect,
    records: Seq<Option<Seq<Seq<char>>>>,
    names: Seq<Seq<char>>,
)
    requires
        may_transform(settings, text, input, Ok(document)),
        settings.graph is None,
        !settings.ntriples,
        dialect.delimiter == (if settings.tab {
            9u8
        } else {
            settings.delimiter@[0] as u8
        }),
        dialect.quote == settings.quote_char@[0] as u8,
        dialect.escape == settings.escape_char@[0] as u8,
        records == table::records(input, settings.headers, dialect),
        names == column_names(settings, dialect, input)->0,
    ensures
        exists|yields: Seq<Seq<Spelling>>|
            {
                &&& yields.len() == (if settings.test != 0 && settings.test < records.len() {
                    settings.test as nat
                } else {
                    records.len()
                })
                &&& forall|n: int|
                    0 <= n < yields.len() ==> {
                        &&& #[trigger] records[n] is Some
                        &&& pipeline::may_yield(
                            pipeline::context_of(text, settings.bind_empty_strings),
                            pipeline::rows_of(names, settings.split.deep_view(), records[n]->0),
                            n as u32,
                            Ok(yields[n]),
                        )
                    }
                &&& (#[trigger] windows::in_a_row(yields)).len() == 0 ==> document.len() == 0
                &&& windows::in_a_row(yields).len() > 0 && windows::in_a_row(yields).to_set().len()
                    < settings.dedup ==> exists|listed: Seq<Spelling>|
                    {
                        &&& listed.no_duplicates()
                        &&& listed.to_set() == windows::in_a_row(yields).to_set()
                        &&& forall|i: int, j: int|
                            0 <= i < j < listed.len() ==> order::triple_le(
                                #[trigger] listed[i],
                                #[trigger] listed[j],
                            )
                        &&& document == (#[trigger] rdf::written(
                            RdfFormat::Turtle,
                            prefixes::prefixes_of(text),
                            listed,
                        ))->0
                    }
            },
{
    let yields = lemma_yields(settings, text, input, document, dialect, records, names);
    let prefixes = prefixes::prefixes_of(text);
    let layout = windows::Layout {
        format: RdfFormat::Turtle,
        prefixes,
        graph: None,
        dedup: settings.dedup,
    };
    let all = windows::all_windows(settings.dedup, yields);
    let given = windows::in_a_row(yields);
    windows::lemma_all_written_once(settings.dedup, yields);
    windows::lemma_all_windows(settings.dedup, yields);
    if given.len() == 0 {
        if all.len() > 0 {
            windows::lemma_among_in_a_row(all, all[0][0]);
            assert(all[0].contains(all[0][0]));
            assert(windows::in_a_row(all).to_set().contains(all[0][0]));
            assert(given.contains(all[0][0]));
        }
    } else if given.to_set().len() < settings.dedup {
        assert(windows::in_a_row(all).to_set().contains(given[0])) by {
            assert(given.to_set().contains(given[0]));
        }
        if all.len() == 0 {
            assert(windows::in_a_row(all).len() == 0);
        }
        assert(all.len() == 1);
        let window = all[0];
        windows::lemma_in_a_row_of_parts(all, Seq::empty());
        assert(all.drop_last() =~= Seq::empty());
        let listed = order::in_order(window);
        order::lemma_in_order(window, window);
        windows::lemma_same_once(window, listed);
        let bytes = output::block(RdfFormat::Turtle, prefixes, None, true, window)->0;
        assert(windows::blocks(layout, all.drop_last()) == Some(Seq::<u8>::empty()));
        assert(Seq::<u8>::empty() + bytes =~= bytes);
        assert(document == rdf::written(RdfFormat::Turtle, prefixes, listed)->0);
    }
    assert(windows::in_a_row(yields) == given);
}

/// Whether two tables are the same for a transformation: they have the same column names, and
/// the same records as far as these are wanted.
pub open spec fn are_alike(
    settings: OxiGen,
    input: Seq<u8>,
    test: u32,
    other: Seq<u8>,
    other_test: u32,
) -> bool {
    match config::dialect_of(
        settings.tab,
        settings.delimiter@,
        settings.quote_char@,
        settings.escape_char@,
    ) {
        Some(dialect) => {
            &&& column_names(settings, dialect, input) == column_names(settings, dialect, other)
            &&& wanted(table::records(input, settings.headers, dialect), test) == wanted(
                table::records(other, settings.headers, dialect),
                other_test,
            )
        },
        None => true,
    }
}

/// Under a limit only the first records matter: two tables with the same column names and the
/// same records up to the limit may be transformed to the same documents, and fail alike.
pub proof fn lemma_only_first_records_matter(
    settings: OxiGen,
    text: Seq<char>,
    input: Seq<u8>,
    other: Seq<u8>,
    result: Result<Seq<u8>, TransformError>,
)
    requires
        are_alike(settings, input, settings.test, other, settings.test),
    ensures
        may_transform(settings, text, input, result) == may_transform(settings, text, other, result),
{
}

/// A limit is the same as cutting the table off: the table with the limit, and the table that
/// ends with the last record within it without one, may be transformed to the same documents,
/// and fail alike.
pub proof fn lemma_limit_cuts_off(
    settings: OxiGen,
    text: Seq<char>,
    input: Seq<u8>,
    cut: Seq<u8>,
    result: Result<Seq<u8>, TransformError>,
)
    requires
        are_alike(settings, input, settings.test, cut, 0),
    ensures
        may_transform(settings, text, input, result) == may_transform(
            (OxiGen { test: 0, ..settings }),
            text,
            cut,
            result,
        ),
{
    let unlimited = OxiGen { test: 0, ..settings };
    match config::dialect_of(
        settings.tab,
        settings.delimiter@,
        settings.quote_char@,
        settings.escape_char@,
    ) {
        Some(dialect) => {
            assert(column_names(unlimited, dialect, cut) == column_names(settings, dialect, cut));
            if let Some(headers) = column_names(settings, dialect, input) {
                assert(course_of(settings, text, dialect, headers, input) == course_of(
                    unlimited,
                    text,
                    dialect,
                    headers,
                    cut,
                ));
            }
        },
        None => {},
    }
}

/// A graph changes nothing but the lines: what is written with it are the lines of some triples
/// with the graph, and without it the lines of the same triples may be written.
pub proof fn lemma_graph_only_adds(
    settings: OxiGen,
    text: Seq<char>,
    input: Seq<u8>,
    document: Seq<u8>,
)
    requires
        settings.graph is Some,
        may_transform(settings, text, input, Ok(document)),
    ensures
        exists|triples: Seq<Spelling>|
            {
                &&& document == vstd::utf8::encode_utf8(
                    #[trigger] rdf::lines(triples, graph_of(settings)),
                )
                &&& may_transform(
                    (OxiGen { graph: None, ntriples: true, ..settings }),
                    text,
                    input,
                    Ok(vstd::utf8::encode_utf8(rdf::lines(triples, None))),
                )
            },
{
    let plain = OxiGen { graph: None, ntriples: true, ..settings };
    let dialect = config::dialect_of(
        settings.tab,
        settings.delimiter@,
        settings.quote_char@,
        settings.escape_char@,
    )->0;
    let headers = column_names(settings, dialect, input)->0;
    let course = course_of(settings, text, dialect, headers, input);
    let other = course_of(plain, text, dialect, headers, input);
    let result = Ok::<Seq<u8>, TransformError>(document);
    let yields = choose|yields: Seq<Seq<Spelling>>| #[trigger] may_end(course, yields, result);
    let closed = windows::all_windows(settings.dedup, yields);
    let triples = windows::in_a_row(closed);
    windows::lemma_document_of_lines(course.layout, closed);
    windows::lemma_document_of_lines(other.layout, closed);
    let lines = Ok::<Seq<u8>, TransformError>(
        vstd::utf8::encode_utf8(rdf::lines(triples, None)),
    );
    assert(may_give(other, yields)) by {
        assert forall|i: int| 0 <= i < yields.len() implies may_give_nth(
            other,
            i,
            #[trigger] yields[i],
        ) by {
            assert(may_give_nth(course, i, yields[i]));
        }
    }
    assert(may_end(other, yields, lines));
    assert(column_names(plain, dialect, input) == column_names(settings, dialect, input));
    assert(document == vstd::utf8::encode_utf8(rdf::lines(triples, graph_of(settings))));
}

/// A table without records, if nothing is wrong with the rest, gives an empty document.
pub proof fn lemma_no_records(
    settings: OxiGen,
    text: Seq<char>,
    input: Seq<u8>,
    dialect: table::Dialect,
    result: Result<Seq<u8>, TransformError>,
)
    requires
        rdf::is_query(rdf::QUERY_PREFIX@, rdf::QUERY_PREFIX_IRI@, text),
        graph_of(settings) is Some ==> terms::is_iri(graph_of(settings)->0),
        config::dialect_of(
            settings.tab,
            settings.delimiter@,
            settings.quote_char@,
            settings.escape_char@,
        ) == Some(dialect),
        column_names(settings, dialect, input) is Some,
        table::records(input, settings.headers, dialect).len() == 0,
        may_transform(settings, text, input, result),
    ensures
        result == Ok::<Seq<u8>, TransformError>(Seq::empty()),
{
    let headers = column_names(settings, dialect, input)->0;
    let course = course_of(settings, text, dialect, headers, input);
    let yields = choose|yields: Seq<Seq<Spelling>>| #[trigger] may_end(course, yields, result);
    assert(yields =~= Seq::empty());
    assert(windows::windows(course.layout.dedup, yields).closed.len() == 0);
}

/// Writing fails only in Turtle, and only where a prefix stands for something that is no IRI.
pub proof fn lemma_what_cannot_be_written(
    settings: OxiGen,
    text: Seq<char>,
    input: Seq<u8>,
    error: FlushError,
)
    requires
        may_transform(settings, text, input, Err(TransformError::Flush(error))),
    ensures
        settings.graph is None,
        !settings.ntriples,
        !rdf::are_iris(prefixes::prefixes_of(text)),
        error == FlushError::InvalidPrefix,
{
    let dialect = config::dialect_of(
        settings.tab,
        settings.delimiter@,
        settings.quote_char@,
        settings.escape_char@,
    )->0;
    let headers = column_names(settings, dialect, input)->0;
    let course = course_of(settings, text, dialect, headers, input);
    let result = Err::<Seq<u8>, TransformError>(TransformError::Flush(error));
    let yields = choose|yields: Seq<Seq<Spelling>>| #[trigger] may_end(course, yields, result);
    let layout = course.layout;
    if settings.graph is Some || settings.ntriples || rdf::are_iris(layout.prefixes) {
        lemma_all_written(layout, windows::windows(layout.dedup, yields).closed);
        lemma_all_written(layout, windows::all_windows(layout.dedup, yields));
    }
}

proof fn lemma_all_written(layout: windows::Layout, closed: Seq<Seq<Spelling>>)
    requires
        layout.format == rdf::RdfFormat::NTriples || layout.format == rdf::RdfFormat::NQuads
            || layout.format == rdf::RdfFormat::Turtle && rdf::are_iris(layout.prefixes),
    ensures
        windows::blocks(layout, closed) is Some,
    decreases closed.len(),
{
    if closed.len() > 0 {
        lemma_all_written(layout, closed.drop_last());
    }
}

/// The mathematical value of what a transformation gives.
pub open spec fn document_of(
    result: Result<Vec<u8>, TransformError>,
) -> Result<Seq<u8>, TransformError> {
    match result {
        Ok(bytes) => Ok(bytes@),
        Err(error) => Err(error),
    }
}

/// What a transformation gives shows as it is: all bytes of the document, or the error.
pub proof fn lemma_document_of(bytes: Vec<u8>, error: TransformError)
    ensures
        document_of(Ok(bytes)) == Ok::<Seq<u8>, TransformError>(bytes@),
        document_of(Err(error)) == Err::<Seq<u8>, TransformError>(error),
{
}

fn copied(rules: &Vec<(String, String, String)>) -> (copies: Vec<(String, String, String)>)
    ensures
        copies.deep_view() == rules.deep_view(),
{
    let mut copies: Vec<(String, String, String)> = Vec::new();
    for i in 0..rules.len()
        invariant
            copies.deep_view() =~= rules.deep_view().take(i as int),
    {
        let ghost before = copies.deep_view();
        let rule = &rules[i];
        copies.push((rule.0.clone(), rule.1.clone(), rule.2.clone()));
        assert(copies.deep_view() =~= before.push((rule.0@, rule.1@, rule.2@)));
    }
    assert(rules.deep_view().take(rules.len() as int) =~= rules.deep_view());
    copies
}

/// What is written behind a document goes on with it.
proof fn lemma_added(before: windows::Progress, document: Seq<u8>, longer: Seq<u8>)
    requires
        windows::is_turtle_so_far(before, document),
        document.is_prefix_of(longer),
    ensures
        before.layout.format == RdfFormat::Turtle && output::is_turtle_block(
            before.layout.prefixes,
            before.first_time,
            longer.skip(document.len() as int),
        ) ==> rdf::declares(longer, before.layout.prefixes),
{
    let bytes = longer.skip(document.len() as int);
    assert(longer =~= document + bytes);
    if before.layout.format == RdfFormat::Turtle && output::is_turtle_block(
        before.layout.prefixes,
        before.first_time,
        bytes,
    ) {
        windows::lemma_turtle_so_far(before, document, bytes);
    }
}

/// Puts the records of a table through their course, one after the other.
fn run(
    transformer: &mut Transformer,
    reader: &mut RowReader,
    writer: &mut Writer,
    records: &Vec<Result<Vec<String>, String>>,
    Ghost(course): Ghost<Course>,
) -> (result: Result<Vec<u8>, TransformError>)
    requires
        old(transformer)@ == course.context,
        old(reader)@.headers == course.headers,
        old(reader)@.rules == course.rules,
        old(reader)@.next == 0,
        old(writer)@.layout == course.layout,
        old(writer)@.pending == Seq::<Spelling>::empty(),
        old(writer)@.first_time,
        course.records == wanted(
            records@.map_values(
                |record: Result<Vec<String>, String>| table::cells_of(record),
            ),
            old(reader)@.test,
        ),
    ensures
        exists|yields: Seq<Seq<Spelling>>| #[trigger]
            may_end(course, yields, document_of(result)),
        course.layout.format == RdfFormat::Turtle ==> (result matches Ok(document) ==>
            document.len() > 0 ==> rdf::declares(document@, course.layout.prefixes)),
{
    let mut out: Vec<u8> = Vec::new();
    let ghost mut yields: Seq<Seq<Spelling>> = Seq::empty();
    let mut i: usize = 0;
    let ghost read = records@.map_values(
        |record: Result<Vec<String>, String>| table::cells_of(record),
    );
    let ghost test = reader@.test;
    while i < records.len() && !reader.is_done()
        invariant
            i <= records.len(),
            read == records@.map_values(
                |record: Result<Vec<String>, String>| table::cells_of(record),
            ),
            course.records == wanted(read, test),
            transformer@ == course.context,
            reader@.headers == course.headers,
            reader@.rules == course.rules,
            reader@.test == test,
            reader@.next == i,
            writer@.layout == course.layout,
            yields.len() == i,
            may_give(course, yields),
            windows::follows(writer@, yields, out@),
            windows::is_turtle_so_far(writer@, out@),
        decreases records.len() - i,
    {
        assert(read[i as int] == table::cells_of(records[i as int]));
        assert(i < course.records.len() && course.records[i as int] == read[i as int]);
        let number = i as u32;
        match &records[i] {
            Ok(record) => {
                let task = match reader.hand_out(record) {
                    Ok(task) => task,
                    Err(error) => {
                        let result = Err(TransformError::Row(error));
                        assert(may_end(course, yields, document_of(result)));
                        return result;
                    },
                };
                let triples = match transformer.transform_rows(&task.rows, task.number) {
                    Ok(triples) => triples,
                    Err(error) => {
                        let result = Err(TransformError::Evaluation(error));
                        assert(may_end(course, yields, document_of(result)));
                        return result;
                    },
                };
                let ghost row = triples.deep_view();
                let ghost longer = yields.push(row);
                proof {
                    windows::lemma_received(writer@, yields, out@, row);
                    assert(may_give(course, longer)) by {
                        assert forall|j: int| 0 <= j < longer.len() implies may_give_nth(
                            course,
                            j,
                            #[trigger] longer[j],
                        ) by {
                            if j < yields.len() {
                                assert(longer[j] == yields[j]);
                            }
                        }
                    }
                }
                let ghost (before, document) = (writer@, out@);
                match writer.receive(triples, &mut out) {
                    Ok(()) => {},
                    Err(error) => {
                        let result = Err(TransformError::Flush(error));
                        assert(may_end(course, longer, document_of(result)));
                        return result;
                    },
                }
                proof {
                    yields = longer;
                    lemma_added(before, document, out@);
                }
            },
            Err(message) => {
                let result = Err(TransformError::Record(number, message.clone()));
                assert(may_end(course, yields, document_of(result)));
                return result;
            },
        }
        i += 1;
    }
    assert(yields.len() == course.records.len());
    proof {
        windows::lemma_finished(writer@, yields, out@);
    }
    let ghost (before, document) = (writer@, out@);
    let result = match writer.finish(&mut out) {
        Ok(()) => {
            proof {
                lemma_added(before, document, out@);
            }
            Ok(out)
        },
        Err(error) => Err(TransformError::Flush(error)),
    };
    assert(may_end(course, yields, document_of(result)));
    result
}

impl OxiGen {
    /// Transforms a table: answers the query of this text for each row, and writes the triples
    /// of the answers.
    pub fn transform(&self, query_text: &str, input: &[u8]) -> (result: Result<
        Vec<u8>,
        TransformError,
    >)
        ensures
            may_transform(*self, query_text@, input@, document_of(result)),
            self.graph is None && !self.ntriples ==> (result matches Ok(document) ==> document.len()
                > 0 ==> {
                &&& rdf::declares(document@, prefixes::prefixes_of(query_text@))
                &&& prefixes::are_on_one_line(prefixes::prefixes_of(query_text@))
            }),
            self.headers ==> !(result matches Err(TransformError::Row(RowError::MissingCell))),
    {
        let mut transformer = match Transformer::new(query_text, self.bind_empty_strings) {
            Ok(transformer) => transformer,
            Err(message) => return Err(TransformError::Query(message)),
        };
        let graph = match &self.graph {
            Some(iri) => match NamedNode::new(iri.clone()) {
                Some(node) => Some(node),
                None => return Err(TransformError::Graph),
            },
            None => None,
        };
        let dialect = match self.dialect() {
            Some(dialect) => dialect,
            None => return Err(TransformError::Dialect),
        };
        let headers = if self.headers {
            match read_header(input, dialect) {
                Ok(header) => named_columns(&header, self.normalize),
                Err(message) => return Err(TransformError::Header(message)),
            }
        } else {
            lettered_columns()
        };
        let ghost course = course_of(
            *self,
            query_text@,
            dialect,
            headers.deep_view(),
            input@,
        );
        let records = read_records(input, self.headers, dialect);
        let mut reader = RowReader::new(headers, copied(&self.split), self.test, 1);
        let mut writer = Writer::new(
            self.output_format(),
            extract_prefixes(query_text),
            graph,
            self.dedup,
        );
        let result = run(&mut transformer, &mut reader, &mut writer, &records, Ghost(course));
        proof {
            if self.headers && result matches Err(TransformError::Row(RowError::MissingCell)) {
                let yields = choose|yields: Seq<Seq<Spelling>>| #[trigger]
                    may_end(course, yields, document_of(result));
                let n = yields.len() as int;
                assert(course.records[n] == table::cells_of(records[n]));
                pipeline::lemma_full_records_are_complete(
                    course.headers,
                    course.rules,
                    course.records[n]->0,
                );
            }
        }
        result
    }
}

} // verus!

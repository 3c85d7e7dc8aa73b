//! Reading tables of separated values.
use csv::ReaderBuilder;
use vstd::prelude::*;

verus! {

/// The bytes that structure a table.
#[derive(Debug, Clone, Copy, PartialEq, Eq, Structural)]
pub struct Dialect {
    pub delimiter: u8,
    pub quote: u8,
    pub escape: u8,
}

/// The cells of the first row of a table, unless they are not text.
pub uninterp spec fn first_row(input: Seq<u8>, dialect: Dialect) -> Option<Seq<Seq<char>>>;

/// The records of a table, in order, without the first row if that is a header; nothing in the
/// place of one that cannot be read.
pub uninterp spec fn records(
    input: Seq<u8>,
    has_headers: bool,
    dialect: Dialect,
) -> Seq<Option<Seq<Seq<char>>>>;

/// `csv::Reader::headers` of a reader that takes the first row for a header: the cells of that
/// row, which depend on the input and the dialect alone. The message of an error is left open.
#[verifier::external_body]
pub(crate) fn read_header(input: &[u8], dialect: Dialect) -> (header: Result<Vec<String>, String>)
    ensures
        match first_row(input@, dialect) {
            Some(cells) => header matches Ok(found) && found.deep_view() == cells,
            None => header is Err,
        },
{
    let mut reader = ReaderBuilder::new()
        .delimiter(dialect.delimiter)
        .quote(dialect.quote)
        .escape(Some(dialect.escape))
        .from_reader(input);
    let header = reader.headers().map_err(|e| e.to_string())?;
    Ok(header.iter().map(|cell| cell.to_string()).collect())
}

/// The mathematical value of a record.
pub open spec fn cells_of(record: Result<Vec<String>, String>) -> Option<Seq<Seq<char>>> {
    match record {
        Ok(cells) => Some(cells.deep_view()),
        Err(_) => None,
    }
}

/// `csv::Reader::records`: the records, which depend on the input, the dialect and whether the
/// first row is a header alone. Below a header each that can be read has as many cells as the
/// header. The message of an error is left open.
#[verifier::external_body]
pub(crate) fn read_records(input: &[u8], has_headers: bool, dialect: Dialect) -> (found: Vec<
    Result<Vec<String>, String>,
>)
    ensures
        found@.map_values(|record: Result<Vec<String>, String>| cells_of(record)) == records(
            input@,
            has_headers,
            dialect,
        ),
        has_headers && first_row(input@, dialect) is Some ==> forall|i: int|
            0 <= i < found.len() ==> ((#[trigger] found[i]) matches Ok(cells) ==> cells.len()
                == first_row(input@, dialect)->0.len()),
{
    ReaderBuilder::new()
        .has_headers(has_headers)
        .delimiter(dialect.delimiter)
        .quote(dialect.quote)
        .escape(Some(dialect.escape))
        .from_reader(input)
        .records()
        .map(|record| record.map_err(|e| e.to_string()))
        .map(|record| record.map(|cells| cells.iter().map(|cell| cell.to_string()).collect()))
        .collect()
}

} // verus!

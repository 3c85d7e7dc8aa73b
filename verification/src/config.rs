//! The settings of a transformation.
use crate::rdf::RdfFormat;
use crate::table::Dialect;
use crate::text;
use vstd::prelude::*;

verus! {

/// The input that stands for the standard input.
pub const STANDARD_INPUT: &'static str = "STDIN";

/// The output that stands for the standard output.
pub const STANDARD_OUTPUT: &'static str = "STDOUT";

/// A transformation of a table into triples.
pub struct OxiGen {
    /// Separates cells, unless tabs do.
    pub delimiter: String,
    /// Whether tabs separate cells.
    pub tab: bool,
    /// How many rows are transformed at most; with 0, all are.
    pub test: u32,
    /// Whether the first row names the columns.
    pub headers: bool,
    pub escape_char: String,
    pub quote_char: String,
    /// Whether the names of columns are put in upper case.
    pub normalize: bool,
    /// Whether the output file is compressed.
    pub gzip: bool,
    /// Whether N-Triples are written in place of Turtle.
    pub ntriples: bool,
    /// How many triples make a window that is freed of duplicates; with 0, each row is one.
    pub dedup: u32,
    /// Whether blank cells are bound.
    pub bind_empty_strings: bool,
    pub input: String,
    pub output: String,
    pub query: String,
    /// The columns to split: the name, the name of the column that takes the parts, the
    /// delimiter.
    pub split: Vec<(String, String, String)>,
    /// The graph that the triples are put in; with one, N-Quads are written.
    pub graph: Option<String>,
}

impl Default for OxiGen {
    fn default() -> (settings: OxiGen)
        ensures
            settings.delimiter@.len() == 0,
            !settings.tab,
            settings.test == 0,
            !settings.headers,
            settings.escape_char@.len() == 0,
            settings.quote_char@.len() == 0,
            !settings.normalize,
            !settings.gzip,
            !settings.ntriples,
            settings.dedup == 0,
            !settings.bind_empty_strings,
            settings.input@.len() == 0,
            settings.output@.len() == 0,
            settings.query@.len() == 0,
            settings.split@.len() == 0,
            settings.graph is None,
    {
        OxiGen {
            delimiter: String::new(),
            tab: false,
            test: 0,
            headers: false,
            escape_char: String::new(),
            quote_char: String::new(),
            normalize: false,
            gzip: false,
            ntriples: false,
            dedup: 0,
            bind_empty_strings: false,
            input: String::new(),
            output: String::new(),
            query: String::new(),
            split: Vec::new(),
            graph: None,
        }
    }
}

/// The format of the output: a graph takes N-Quads, and goes before the choice of N-Triples.
pub open spec fn format_of(graph: bool, ntriples: bool) -> RdfFormat {
    if graph {
        RdfFormat::NQuads
    } else if ntriples {
        RdfFormat::NTriples
    } else {
        RdfFormat::Turtle
    }
}

/// The byte of a setting: the low byte of its first character.
pub open spec fn byte_of(setting: Seq<char>) -> Option<u8> {
    if setting.len() > 0 {
        Some(setting[0] as u8)
    } else {
        None
    }
}

/// The byte that separates cells.
pub open spec fn delimiter_byte(tab: bool, delimiter: Seq<char>) -> Option<u8> {
    if tab {
        Some('\t' as u8)
    } else {
        byte_of(delimiter)
    }
}

/// The bytes that structure the table; there are none unless every setting has a character.
pub open spec fn dialect_of(
    tab: bool,
    delimiter: Seq<char>,
    quote_char: Seq<char>,
    escape_char: Seq<char>,
) -> Option<Dialect> {
    match (delimiter_byte(tab, delimiter), byte_of(quote_char), byte_of(escape_char)) {
        (Some(delimiter), Some(quote), Some(escape)) => Some(Dialect { delimiter, quote, escape }),
        _ => None,
    }
}

/// A graph takes N-Quads; without one there are N-Triples where they are asked for, and Turtle
/// where they are not.
pub proof fn lemma_format_of(ntriples: bool)
    ensures
        format_of(true, ntriples) == RdfFormat::NQuads,
        format_of(false, true) == RdfFormat::NTriples,
        format_of(false, false) == RdfFormat::Turtle,
{
}

/// A table is structured by the first character of each setting, and by a tab where that is asked
/// for; each setting that counts has to have a character.
pub proof fn lemma_dialect_of(
    tab: bool,
    delimiter: Seq<char>,
    quote_char: Seq<char>,
    escape_char: Seq<char>,
)
    ensures
        match dialect_of(tab, delimiter, quote_char, escape_char) {
            Some(dialect) => {
                &&& tab ==> dialect.delimiter == 9
                &&& !tab ==> delimiter.len() > 0 && dialect.delimiter == delimiter[0] as u8
                &&& quote_char.len() > 0 && dialect.quote == quote_char[0] as u8
                &&& escape_char.len() > 0 && dialect.escape == escape_char[0] as u8
            },
            None => !tab && delimiter.len() == 0 || quote_char.len() == 0 || escape_char.len()
                == 0,
        },
{
}

fn first_byte(setting: &str) -> (byte: Option<u8>)
    ensures
        byte == byte_of(setting@),
{
    let chars = text::chars_of(setting);
    if chars.len() > 0 {
        Some(chars[0] as u8)
    } else {
        None
    }
}

/// Where the output goes.
#[derive(Debug, Clone, Copy, PartialEq, Eq, Structural)]
pub enum Sink {
    StandardOutput,
    File,
    CompressedFile,
}

impl OxiGen {
    /// The format of the output.
    pub fn output_format(&self) -> (format: RdfFormat)
        ensures
            format == format_of(self.graph is Some, self.ntriples),
    {
        if self.graph.is_some() {
            RdfFormat::NQuads
        } else if self.ntriples {
            RdfFormat::NTriples
        } else {
            RdfFormat::Turtle
        }
    }

    /// The bytes that structure the table.
    pub fn dialect(&self) -> (dialect: Option<Dialect>)
        ensures
            dialect == dialect_of(
                self.tab,
                self.delimiter@,
                self.quote_char@,
                self.escape_char@,
            ),
    {
        let delimiter = if self.tab {
            Some('\t' as u8)
        } else {
            first_byte(self.delimiter.as_str())
        };
        match (
            delimiter,
            first_byte(self.quote_char.as_str()),
            first_byte(self.escape_char.as_str()),
        ) {
            (Some(delimiter), Some(quote), Some(escape)) => Some(
                Dialect { delimiter, quote, escape },
            ),
            _ => None,
        }
    }

    /// Whether the table is read from the standard input.
    pub fn reads_standard_input(&self) -> (r: bool)
        ensures
            r == (self.input@ == STANDARD_INPUT@),
    {
        self.input.as_str().eq(STANDARD_INPUT)
    }

    /// Where the output goes; the standard output is never compressed.
    pub fn sink(&self) -> (sink: Sink)
        ensures
            sink == if self.output@ == STANDARD_OUTPUT@ {
                Sink::StandardOutput
            } else if self.gzip {
                Sink::CompressedFile
            } else {
                Sink::File
            },
    {
        if self.output.as_str().eq(STANDARD_OUTPUT) {
            Sink::StandardOutput
        } else if self.gzip {
            Sink::CompressedFile
        } else {
            Sink::File
        }
    }
}

/// What was given on the command line.
pub struct Arguments {
    pub delimiter: String,
    pub tab: bool,
    pub test: Option<u32>,
    pub headers: bool,
    pub escape_char: String,
    pub quote_char: String,
    pub normalize: bool,
    pub gzip: bool,
    pub ntriples: bool,
    pub dedup: Option<u32>,
    pub bind_empty_strings: bool,
    pub input: String,
    pub output: String,
    pub query: String,
    /// The values of all `--split` options, one behind the other.
    pub split: Option<Vec<String>>,
    pub graph: Option<String>,
}

/// Values in groups of three.
pub open spec fn grouped(values: Seq<Seq<char>>) -> Seq<(Seq<char>, Seq<char>, Seq<char>)> {
    Seq::new(
        values.len() / 3,
        |i: int| (values[3 * i], values[3 * i + 1], values[3 * i + 2]),
    )
}

/// Values come in groups of three, one behind the other, and none is left over.
pub proof fn lemma_grouped(
    values: Seq<Seq<char>>,
    column: Seq<char>,
    part: Seq<char>,
    delimiter: Seq<char>,
)
    requires
        values.len() % 3 == 0,
    ensures
        grouped(Seq::empty()).len() == 0,
        grouped(values.push(column).push(part).push(delimiter)) == grouped(values).push(
            (column, part, delimiter),
        ),
{
    let more = values.push(column).push(part).push(delimiter);
    let n = values.len() / 3;
    assert(more.len() / 3 == n + 1);
    assert(grouped(more) =~= grouped(values).push((column, part, delimiter)));
}

fn in_threes(values: &Vec<String>) -> (groups: Vec<(String, String, String)>)
    requires
        values.len() % 3 == 0,
    ensures
        groups.deep_view() == grouped(values.deep_view()),
{
    let mut groups: Vec<(String, String, String)> = Vec::new();
    let n: usize = values.len() / 3;
    for i in 0..n
        invariant
            values.len() == 3 * n,
            groups.len() == i,
            forall|j: int|
                0 <= j < i ==> #[trigger] groups.deep_view()[j] == grouped(values.deep_view())[j],
    {
        let at: usize = 3 * i;
        let ghost before = groups.deep_view();
        groups.push((values[at].clone(), values[at + 1].clone(), values[at + 2].clone()));
        assert(groups.deep_view() =~= before.push(
            (values[at as int]@, values[at + 1]@, values[at + 2]@),
        ));
    }
    assert(groups.deep_view() =~= grouped(values.deep_view()));
    groups
}

/// The smallest row limit that can be asked for.
pub const TEST_MIN: u32 = 1;

/// The largest row limit that can be asked for.
pub const TEST_MAX: u32 = 49;

/// The smallest window that can be asked for.
pub const DEDUP_MIN: u32 = 1000;

/// The largest window that can be asked for.
pub const DEDUP_MAX: u32 = 5000000;

/// Whether arguments are as the command line lets them through: numbers in their ranges, and no
/// delimiter but the usual one where the table is separated by tabs.
pub open spec fn are_accepted(arguments: Arguments) -> bool {
    &&& arguments.test matches Some(test) ==> TEST_MIN <= test <= TEST_MAX
    &&& arguments.dedup matches Some(dedup) ==> DEDUP_MIN <= dedup <= DEDUP_MAX
    &&& arguments.tab ==> arguments.delimiter@ == ","@
}

/// The transformation that the arguments ask for. A number that is not given is 0.
pub fn configure_transform(arguments: Arguments) -> (settings: OxiGen)
    requires
        arguments.split matches Some(values) ==> values.len() % 3 == 0,
    ensures
        settings.delimiter == arguments.delimiter,
        settings.tab == arguments.tab,
        settings.test == (match arguments.test {
            Some(test) => test,
            None => 0,
        }),
        settings.headers == arguments.headers,
        settings.escape_char == arguments.escape_char,
        settings.quote_char == arguments.quote_char,
        settings.normalize == arguments.normalize,
        settings.gzip == arguments.gzip,
        settings.ntriples == arguments.ntriples,
        settings.dedup == (match arguments.dedup {
            Some(dedup) => dedup,
            None => 0,
        }),
        settings.bind_empty_strings == arguments.bind_empty_strings,
        settings.input == arguments.input,
        settings.output == arguments.output,
        settings.query == arguments.query,
        settings.split.deep_view() == (match arguments.split {
            Some(values) => grouped(values.deep_view()),
            None => Seq::empty(),
        }),
        settings.graph == arguments.graph,
        are_accepted(arguments) ==> {
            &&& settings.test <= TEST_MAX
            &&& settings.test == 0 <==> arguments.test is None
            &&& settings.dedup == 0 || DEDUP_MIN <= settings.dedup <= DEDUP_MAX
            &&& settings.dedup == 0 <==> arguments.dedup is None
            &&& settings.tab ==> settings.delimiter@ == ","@
        },
{
    let split = match &arguments.split {
        Some(values) => in_threes(values),
        None => Vec::new(),
    };
    assert(arguments.split is None ==> split.deep_view() =~= Seq::empty());
    OxiGen {
        delimiter: arguments.delimiter,
        tab: arguments.tab,
        test: match arguments.test {
            Some(test) => test,
            None => 0,
        },
        headers: arguments.headers,
        escape_char: arguments.escape_char,
        quote_char: arguments.quote_char,
        normalize: arguments.normalize,
        gzip: arguments.gzip,
        ntriples: arguments.ntriples,
        dedup: match arguments.dedup {
            Some(dedup) => dedup,
            None => 0,
        },
        bind_empty_strings: arguments.bind_empty_strings,
        input: arguments.input,
        output: arguments.output,
        query: arguments.query,
        split,
        graph: arguments.graph,
    }
}

} // verus!

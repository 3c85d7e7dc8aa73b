//! The comments of a query: each runs from a `#` to the end of its line. A `#` in an IRI or in a
//! string starts none, nor does one behind a backslash.
use crate::text;
use vstd::prelude::*;

verus! {

/// Whether a character ends a line.
pub open spec fn is_break(c: char) -> bool {
    c == '\n' || c == '\r'
}

/// How many characters of `s` stand on its first line.
pub open spec fn line_length(s: Seq<char>) -> nat
    decreases s.len(),
{
    if s.len() == 0 || is_break(s[0]) {
        0
    } else {
        1 + line_length(s.drop_first())
    }
}

/// Whether a character may stand in an IRI between its angle brackets.
pub open spec fn is_iri_char(c: char) -> bool {
    c > ' ' && c != '<' && c != '>' && c != '"' && c != '{' && c != '}' && c != '|' && c != '^'
        && c != '`'
}

/// How long an IRI is behind its opening bracket, with the closing one; `s` may start with none.
pub open spec fn iri_length(s: Seq<char>) -> Option<nat>
    decreases s.len(),
{
    if s.len() == 0 {
        None
    } else if s[0] == '>' {
        Some(1)
    } else if is_iri_char(s[0]) {
        match iri_length(s.drop_first()) {
            Some(n) => Some(n + 1),
            None => None,
        }
    } else {
        None
    }
}

/// How long a string is behind its opening quote, with the closing one. It ends on its line.
pub open spec fn short_length(s: Seq<char>, quote: char) -> Option<nat>
    decreases s.len(),
{
    if s.len() == 0 || is_break(s[0]) {
        None
    } else if s[0] == quote {
        Some(1)
    } else {
        let n: nat = if s[0] == '\\' && s.len() > 1 {
            2
        } else {
            1
        };
        match short_length(s.skip(n as int), quote) {
            Some(m) => Some(m + n),
            None => None,
        }
    }
}

/// Whether `s` starts with three quotes.
pub open spec fn starts_with_three(s: Seq<char>, quote: char) -> bool {
    s.len() >= 3 && s[0] == quote && s[1] == quote && s[2] == quote
}

/// How long a string is behind three opening quotes, with the three closing ones.
pub open spec fn long_length(s: Seq<char>, quote: char) -> Option<nat>
    decreases s.len(),
{
    if s.len() == 0 {
        None
    } else if starts_with_three(s, quote) {
        Some(3)
    } else {
        let n: nat = if s[0] == '\\' && s.len() > 1 {
            2
        } else {
            1
        };
        match long_length(s.skip(n as int), quote) {
            Some(m) => Some(m + n),
            None => None,
        }
    }
}

/// How many characters of a text that starts with no comment belong together: those of an IRI,
/// of a string, or of a character behind a backslash; else one.
pub open spec fn token_length(s: Seq<char>) -> nat {
    if s[0] == '<' {
        match iri_length(s.skip(1)) {
            Some(n) => n + 1,
            None => 1,
        }
    } else if s[0] == '"' || s[0] == '\'' {
        if starts_with_three(s, s[0]) {
            match long_length(s.skip(3), s[0]) {
                Some(n) => n + 3,
                None => s.len(),
            }
        } else {
            match short_length(s.skip(1), s[0]) {
                Some(n) => n + 1,
                None => 1,
            }
        }
    } else if s[0] == '\\' && s.len() > 1 {
        2
    } else {
        1
    }
}

/// A text without its comments; the ends of their lines stay.
pub open spec fn uncommented(s: Seq<char>) -> Seq<char>
    decreases s.len(),
{
    if s.len() == 0 {
        s
    } else if s[0] == '#' {
        let n = line_length(s);
        if 0 < n <= s.len() {
            uncommented(s.skip(n as int))
        } else {
            s
        }
    } else {
        let n = token_length(s);
        if 0 < n <= s.len() {
            s.take(n as int) + uncommented(s.skip(n as int))
        } else {
            s
        }
    }
}

proof fn lemma_iri_length(s: Seq<char>)
    ensures
        iri_length(s) matches Some(n) ==> 0 < n <= s.len(),
    decreases s.len(),
{
    if s.len() > 0 {
        lemma_iri_length(s.drop_first());
    }
}

proof fn lemma_short_length(s: Seq<char>, quote: char)
    ensures
        short_length(s, quote) matches Some(n) ==> 0 < n <= s.len(),
    decreases s.len(),
{
    if s.len() > 1 {
        lemma_short_length(s.skip(2), quote);
    }
    if s.len() > 0 {
        lemma_short_length(s.skip(1), quote);
    }
}

proof fn lemma_long_length(s: Seq<char>, quote: char)
    ensures
        long_length(s, quote) matches Some(n) ==> 0 < n <= s.len(),
    decreases s.len(),
{
    if s.len() > 1 {
        lemma_long_length(s.skip(2), quote);
    }
    if s.len() > 0 {
        lemma_long_length(s.skip(1), quote);
    }
}

proof fn lemma_token_length(s: Seq<char>)
    requires
        s.len() > 0,
    ensures
        0 < token_length(s) <= s.len(),
{
    lemma_iri_length(s.skip(1));
    lemma_short_length(s.skip(1), s[0]);
    if s.len() >= 3 {
        lemma_long_length(s.skip(3), s[0]);
    }
}

/// Whether whatever follows `text` is read on its own: `text` leaves no IRI, string or comment
/// open.
pub open spec fn is_closed(text: Seq<char>) -> bool {
    forall|more: Seq<char>| #[trigger]
        uncommented(text + more) == uncommented(text) + uncommented(more)
}

/// A comment behind a text that leaves nothing open does not matter: without it the same is
/// kept.
pub proof fn lemma_comments_do_not_matter(
    before: Seq<char>,
    comment: Seq<char>,
    after: Seq<char>,
)
    requires
        is_closed(before),
        forall|i: int| 0 <= i < comment.len() ==> !is_break(#[trigger] comment[i]),
        after.len() == 0 || is_break(after[0]),
    ensures
        uncommented(before + (seq!['#'] + comment + after)) == uncommented(before + after),
{
    let tail = seq!['#'] + comment + after;
    lemma_line_of(seq!['#'] + comment, after);
    assert(tail.skip(line_length(tail) as int) =~= after);
    assert(uncommented(tail) == uncommented(after));
}

proof fn lemma_line_of(line: Seq<char>, after: Seq<char>)
    requires
        forall|i: int| 0 <= i < line.len() ==> !is_break(#[trigger] line[i]),
        after.len() == 0 || is_break(after[0]),
    ensures
        line_length(line + after) == line.len(),
    decreases line.len(),
{
    let both = line + after;
    if line.len() > 0 {
        let rest = line.drop_first();
        assert forall|i: int| 0 <= i < rest.len() implies !is_break(#[trigger] rest[i]) by {
            assert(rest[i] == line[i + 1]);
        }
        lemma_line_of(rest, after);
        assert(both.drop_first() =~= rest + after);
    } else {
        assert(both =~= after);
    }
}

/// An IRI leaves nothing open, whatever characters that it may hold, `#` among them, it holds;
/// and it is kept.
pub proof fn lemma_iris_are_kept(iri: Seq<char>)
    requires
        forall|i: int| 0 <= i < iri.len() ==> is_iri_char(#[trigger] iri[i]),
    ensures
        is_closed(seq!['<'] + iri + seq!['>']),
        uncommented(seq!['<'] + iri + seq!['>']) == seq!['<'] + iri + seq!['>'],
{
    let text = seq!['<'] + iri + seq!['>'];
    let nothing = Seq::<char>::empty();
    assert forall|more: Seq<char>| #[trigger]
        uncommented(text + more) == text + uncommented(more) by {
        lemma_iri_of(iri, more);
        let all = text + more;
        assert(all.skip(1) =~= iri + seq!['>'] + more);
        assert(all.take(text.len() as int) =~= text);
        assert(all.skip(text.len() as int) =~= more);
    }
    assert(text + nothing =~= text);
    assert(uncommented(text + nothing) == text + uncommented(nothing));
    assert(uncommented(nothing) =~= nothing);
    assert(text + nothing =~= text);
}

proof fn lemma_iri_of(iri: Seq<char>, more: Seq<char>)
    requires
        forall|i: int| 0 <= i < iri.len() ==> is_iri_char(#[trigger] iri[i]),
    ensures
        iri_length(iri + seq!['>'] + more) == Some(iri.len() + 1),
    decreases iri.len(),
{
    let all = iri + seq!['>'] + more;
    if iri.len() > 0 {
        let rest = iri.drop_first();
        assert forall|i: int| 0 <= i < rest.len() implies is_iri_char(#[trigger] rest[i]) by {
            assert(rest[i] == iri[i + 1]);
        }
        lemma_iri_of(rest, more);
        assert(all.drop_first() =~= rest + seq!['>'] + more);
    }
}

/// A text without `#` has no comment: all of it is kept.
pub proof fn lemma_nothing_to_drop(s: Seq<char>)
    requires
        !s.contains('#'),
    ensures
        uncommented(s) == s,
    decreases s.len(),
{
    if s.len() > 0 {
        lemma_token_length(s);
        let n = token_length(s) as int;
        let rest = s.skip(n);
        assert(s[0] != '#');
        assert forall|i: int| 0 <= i < rest.len() implies #[trigger] rest[i] != '#' by {
            assert(rest[i] == s[n + i]);
        }
        lemma_nothing_to_drop(rest);
        assert(s.take(n) + rest =~= s);
    }
}

/// A comment goes up to the end of its line. Any other character is kept, and so is one behind a
/// backslash, unless it opens an IRI or a string.
pub proof fn lemma_comment_or_character(
    line: Seq<char>,
    after: Seq<char>,
    c: char,
    rest: Seq<char>,
)
    requires
        !line.contains('\n'),
        !line.contains('\r'),
        after.len() == 0 || after[0] == '\n' || after[0] == '\r',
    ensures
        uncommented(Seq::empty()) == Seq::<char>::empty(),
        uncommented(seq!['#'] + line + after) == uncommented(after),
        c != '#' && c != '<' && c != '"' && c != '\'' && c != '\\' ==> uncommented(seq![c] + rest)
            == seq![c] + uncommented(rest),
        uncommented(seq!['\\', c] + rest) == seq!['\\', c] + uncommented(rest),
{
    let tail = seq!['#'] + line + after;
    assert forall|i: int| 0 <= i < (seq!['#'] + line).len() implies !is_break(
        #[trigger] (seq!['#'] + line)[i],
    ) by {
        if i > 0 {
            assert(line.contains(line[i - 1]));
        }
    }
    lemma_line_of(seq!['#'] + line, after);
    assert(tail.skip(line_length(tail) as int) =~= after);
    let plain = seq![c] + rest;
    assert(plain.take(1) =~= seq![c]);
    assert(plain.skip(1) =~= rest);
    let escaped = seq!['\\', c] + rest;
    assert(escaped.take(2) =~= seq!['\\', c]);
    assert(escaped.skip(2) =~= rest);
}

/// What opens like an IRI and holds a character that none may hold is none: its bracket is kept
/// as a character.
pub proof fn lemma_no_iri(body: Seq<char>, after: Seq<char>, c: char)
    requires
        forall|i: int| 0 <= i < body.len() ==> is_iri_char(#[trigger] body[i]),
        after.len() == 0 || !is_iri_char(after[0]) && after[0] != '>',
    ensures
        uncommented(seq!['<'] + (body + after)) == seq!['<'] + uncommented(body + after),
        is_iri_char(c) <==> (c as u32) > 0x20 && c != '<' && c != '>' && c != '"' && c != '{' && c
            != '}' && c != '|' && c != '^' && c != '`',
{
    let all = seq!['<'] + (body + after);
    lemma_no_iri_length(body, after);
    assert(all.skip(1) =~= body + after);
    assert(all.take(1) =~= seq!['<']);
}

proof fn lemma_no_iri_length(body: Seq<char>, after: Seq<char>)
    requires
        forall|i: int| 0 <= i < body.len() ==> is_iri_char(#[trigger] body[i]),
        after.len() == 0 || !is_iri_char(after[0]) && after[0] != '>',
    ensures
        iri_length(body + after) is None,
    decreases body.len(),
{
    let both = body + after;
    if body.len() > 0 {
        let rest = body.drop_first();
        assert forall|i: int| 0 <= i < rest.len() implies is_iri_char(#[trigger] rest[i]) by {
            assert(rest[i] == body[i + 1]);
        }
        lemma_no_iri_length(rest, after);
        assert(both.drop_first() =~= rest + after);
    } else {
        assert(both =~= after);
    }
}

/// A string is kept with whatever it holds, `#` among it: between two quotes on one line, or
/// between three and three quotes on any number of lines. A quote that opens nothing is kept as a
/// character.
pub proof fn lemma_strings_are_kept(quote: char, content: Seq<char>, rest: Seq<char>)
    requires
        quote == '"' || quote == '\'',
        !content.contains(quote),
        !content.contains('\\'),
    ensures
        ({
            let three = seq![quote, quote, quote];
            uncommented(three + content + three + rest) == three + content + three + uncommented(
                rest,
            )
        }),
        !content.contains('\n') && !content.contains('\r') && (content.len() > 0 || rest.len() == 0
            || rest[0] != quote) ==> uncommented(seq![quote] + content + seq![quote] + rest)
            == seq![quote] + content + seq![quote] + uncommented(rest),
        !content.contains('\n') && !content.contains('\r') && (rest.len() == 0 || rest[0] == '\n'
            || rest[0] == '\r') ==> uncommented(seq![quote] + (content + rest)) == seq![quote]
            + uncommented(content + rest),
{
    let three = seq![quote, quote, quote];
    let long = three + content + three + rest;
    let string = three + content + three;
    lemma_long_of(quote, content, rest);
    assert(long.skip(3) =~= content + three + rest);
    assert(starts_with_three(long, quote));
    assert(long.take(string.len() as int) =~= string);
    assert(long.skip(string.len() as int) =~= rest);
    if !content.contains('\n') && !content.contains('\r') {
        lemma_short_of(quote, content, rest);
        if content.len() > 0 || rest.len() == 0 || rest[0] != quote {
            let short = seq![quote] + content + seq![quote] + rest;
            let string = seq![quote] + content + seq![quote];
            if content.len() > 0 {
                assert(short[1] == content[0]);
                assert(content.contains(content[0]));
            } else if rest.len() > 0 {
                assert(short[2] == rest[0]);
            }
            assert(short[0] == quote);
            assert(!starts_with_three(short, quote));
            assert(short.skip(1) =~= content + seq![quote] + rest);
            assert(short.take(string.len() as int) =~= string);
            assert(short.skip(string.len() as int) =~= rest);
        }
        if rest.len() == 0 || rest[0] == '\n' || rest[0] == '\r' {
            let open = seq![quote] + (content + rest);
            if open.len() >= 3 {
                if content.len() > 0 {
                    assert(open[1] == content[0]);
                    assert(content.contains(content[0]));
                } else {
                    assert(open[1] == rest[0]);
                }
            }
            assert(open.skip(1) =~= content + rest);
            assert(open.take(1) =~= seq![quote]);
        }
    }
}

proof fn lemma_short_of(quote: char, content: Seq<char>, rest: Seq<char>)
    requires
        quote == '"' || quote == '\'',
        !content.contains(quote),
        !content.contains('\\'),
        !content.contains('\n'),
        !content.contains('\r'),
    ensures
        short_length(content + seq![quote] + rest, quote) == Some(content.len() + 1),
        rest.len() == 0 || rest[0] == '\n' || rest[0] == '\r' ==> short_length(
            content + rest,
            quote,
        ) is None,
    decreases content.len(),
{
    let all = content + seq![quote] + rest;
    if content.len() > 0 {
        let less = content.drop_first();
        assert(content.contains(content[0]));
        lemma_less(content, quote);
        lemma_less(content, '\\');
        lemma_less(content, '\n');
        lemma_less(content, '\r');
        lemma_short_of(quote, less, rest);
        assert(all.skip(1) =~= less + seq![quote] + rest);
        assert((content + rest).skip(1) =~= less + rest);
        assert(all[0] == content[0]);
    } else {
        assert(all[0] == quote);
        assert(content + rest =~= rest);
    }
}

proof fn lemma_less(content: Seq<char>, c: char)
    requires
        content.len() > 0,
        !content.contains(c),
    ensures
        !content.drop_first().contains(c),
{
    let less = content.drop_first();
    if less.contains(c) {
        let i = less.index_of(c);
        assert(content[i + 1] == c);
    }
}

proof fn lemma_long_of(quote: char, content: Seq<char>, rest: Seq<char>)
    requires
        quote == '"' || quote == '\'',
        !content.contains(quote),
        !content.contains('\\'),
    ensures
        long_length(content + seq![quote, quote, quote] + rest, quote) == Some(content.len() + 3),
    decreases content.len(),
{
    let all = content + seq![quote, quote, quote] + rest;
    if content.len() > 0 {
        let less = content.drop_first();
        assert(content.contains(content[0]));
        lemma_less(content, quote);
        lemma_less(content, '\\');
        lemma_long_of(quote, less, rest);
        assert(all.skip(1) =~= less + seq![quote, quote, quote] + rest);
        assert(all[0] == content[0]);
    } else {
        assert(all[0] == quote && all[1] == quote && all[2] == quote);
    }
}

/// In a string a character behind a backslash, a quote among them, does not end it.
pub proof fn lemma_escaped_in_string(quote: char, c: char, rest: Seq<char>)
    requires
        quote == '"' || quote == '\'',
    ensures
        short_length(seq!['\\', c] + rest, quote) == (match short_length(rest, quote) {
            Some(n) => Some(n + 2),
            None => None,
        }),
        long_length(seq!['\\', c] + rest, quote) == (match long_length(rest, quote) {
            Some(n) => Some(n + 2),
            None => None,
        }),
{
    let all = seq!['\\', c] + rest;
    assert(all.skip(2) =~= rest);
}

/// A quote opens a string where one closes it: with two more quotes behind it a long one, which
/// goes up to three quotes or to the end, and else a short one, which goes up to one quote on its
/// line. What the string holds is kept; what follows it is read on its own.
pub proof fn lemma_quote_opens(quote: char, rest: Seq<char>)
    requires
        quote == '"' || quote == '\'',
    ensures
        rest.len() >= 2 && rest[0] == quote && rest[1] == quote ==> uncommented(
            seq![quote] + rest,
        ) == (match long_length(rest.skip(2), quote) {
            Some(n) => seq![quote] + rest.take(n as int + 2) + uncommented(rest.skip(n as int + 2)),
            None => seq![quote] + rest,
        }),
        !(rest.len() >= 2 && rest[0] == quote && rest[1] == quote) ==> uncommented(
            seq![quote] + rest,
        ) == (match short_length(rest, quote) {
            Some(n) => seq![quote] + rest.take(n as int) + uncommented(rest.skip(n as int)),
            None => seq![quote] + uncommented(rest),
        }),
{
    let all = seq![quote] + rest;
    lemma_token_length(all);
    assert(all.skip(1) =~= rest);
    assert(all[0] == quote);
    if rest.len() >= 2 && rest[0] == quote && rest[1] == quote {
        assert(all[1] == quote && all[2] == quote);
        assert(starts_with_three(all, quote));
        assert(all.skip(3) =~= rest.skip(2));
        lemma_long_length(rest.skip(2), quote);
        match long_length(rest.skip(2), quote) {
            Some(n) => {
                assert(all.take(n as int + 3) =~= seq![quote] + rest.take(n as int + 2));
                assert(all.skip(n as int + 3) =~= rest.skip(n as int + 2));
            },
            None => {
                let end = all.len() as int;
                assert(all.take(end) =~= all);
                assert(all.skip(end).len() == 0);
                assert(uncommented(all.skip(end)).len() == 0);
                assert(uncommented(all) =~= all);
            },
        }
    } else {
        if all.len() >= 3 {
            assert(all[1] == rest[0] && all[2] == rest[1]);
        }
        assert(!starts_with_three(all, quote));
        lemma_short_length(rest, quote);
        match short_length(rest, quote) {
            Some(n) => {
                assert(all.take(n as int + 1) =~= seq![quote] + rest.take(n as int));
                assert(all.skip(n as int + 1) =~= rest.skip(n as int));
            },
            None => {
                assert(all.take(1) =~= seq![quote]);
            },
        }
    }
}

/// Behind its opening a short string ends with the next quote and is none where the line ends
/// first; a long one ends with the next three quotes.
pub proof fn lemma_string_ends(quote: char, c: char, rest: Seq<char>)
    requires
        quote == '"' || quote == '\'',
    ensures
        short_length(Seq::empty(), quote) is None,
        short_length(seq![quote] + rest, quote) == Some(1nat),
        c == '\n' || c == '\r' ==> short_length(seq![c] + rest, quote) is None,
        c != quote && c != '\n' && c != '\r' && c != '\\' ==> short_length(seq![c] + rest, quote)
            == (match short_length(rest, quote) {
            Some(n) => Some(n + 1),
            None => None,
        }),
        long_length(Seq::empty(), quote) is None,
        long_length(seq![quote, quote, quote] + rest, quote) == Some(3nat),
        c != '\\' && !(c == quote && rest.len() >= 2 && rest[0] == quote && rest[1] == quote)
            ==> long_length(seq![c] + rest, quote) == (match long_length(rest, quote) {
            Some(n) => Some(n + 1),
            None => None,
        }),
{
    let all = seq![c] + rest;
    assert(all.skip(1) =~= rest);
    assert((seq![quote] + rest)[0] == quote);
    let three = seq![quote, quote, quote] + rest;
    assert(three[0] == quote && three[1] == quote && three[2] == quote);
    if all.len() >= 3 {
        assert(all[1] == rest[0] && all[2] == rest[1]);
    }
}

fn line_end(chars: &Vec<char>, from: usize) -> (end: usize)
    requires
        from <= chars.len(),
    ensures
        end == from + line_length(chars@.skip(from as int)),
        end <= chars.len(),
{
    let mut end: usize = from;
    while end < chars.len() && chars[end] != '\n' && chars[end] != '\r'
        invariant
            from <= end <= chars.len(),
            line_length(chars@.skip(from as int)) == end - from + line_length(
                chars@.skip(end as int),
            ),
        decreases chars.len() - end,
    {
        assert(chars@.skip(end as int).drop_first() =~= chars@.skip(end + 1));
        end += 1;
    }
    end
}

/// Where a part of a text ends that starts at `from`, given how long it is.
spec fn ends_at(from: int, length: Option<nat>, end: Option<usize>) -> bool {
    match length {
        Some(n) => end matches Some(at) && at == from + n,
        None => end is None,
    }
}

fn iri_end(chars: &Vec<char>, from: usize) -> (end: Option<usize>)
    requires
        from <= chars.len(),
    ensures
        ends_at(from as int, iri_length(chars@.skip(from as int)), end),
{
    let mut at: usize = from;
    while at < chars.len()
        invariant
            from <= at <= chars.len(),
            match iri_length(chars@.skip(at as int)) {
                Some(n) => iri_length(chars@.skip(from as int)) == Some((at - from + n) as nat),
                None => iri_length(chars@.skip(from as int)) is None,
            },
        decreases chars.len() - at,
    {
        let c = chars[at];
        assert(chars@.skip(at as int).drop_first() =~= chars@.skip(at + 1));
        if c == '>' {
            return Some(at + 1);
        }
        if !(c > ' ' && c != '<' && c != '"' && c != '{' && c != '}' && c != '|' && c != '^' && c
            != '`') {
            return None;
        }
        at += 1;
    }
    None
}

fn short_end(chars: &Vec<char>, from: usize, quote: char) -> (end: Option<usize>)
    requires
        from <= chars.len(),
    ensures
        ends_at(from as int, short_length(chars@.skip(from as int), quote), end),
{
    let mut at: usize = from;
    while at < chars.len()
        invariant
            from <= at <= chars.len(),
            match short_length(chars@.skip(at as int), quote) {
                Some(n) => short_length(chars@.skip(from as int), quote) == Some(
                    (at - from + n) as nat,
                ),
                None => short_length(chars@.skip(from as int), quote) is None,
            },
        decreases chars.len() - at,
    {
        let c = chars[at];
        assert(chars@.skip(at as int).skip(1) =~= chars@.skip(at + 1));
        if c == '\n' || c == '\r' {
            return None;
        }
        if c == quote {
            return Some(at + 1);
        }
        if c == '\\' && chars.len() - at > 1 {
            assert(chars@.skip(at as int).skip(2) =~= chars@.skip(at + 2));
            at += 2;
        } else {
            at += 1;
        }
    }
    None
}

fn three_at(chars: &Vec<char>, at: usize, quote: char) -> (r: bool)
    requires
        at <= chars.len(),
    ensures
        r == starts_with_three(chars@.skip(at as int), quote),
{
    chars.len() - at >= 3 && chars[at] == quote && chars[at + 1] == quote && chars[at + 2] == quote
}

fn long_end(chars: &Vec<char>, from: usize, quote: char) -> (end: Option<usize>)
    requires
        from <= chars.len(),
    ensures
        ends_at(from as int, long_length(chars@.skip(from as int), quote), end),
{
    let mut at: usize = from;
    while at < chars.len()
        invariant
            from <= at <= chars.len(),
            match long_length(chars@.skip(at as int), quote) {
                Some(n) => long_length(chars@.skip(from as int), quote) == Some(
                    (at - from + n) as nat,
                ),
                None => long_length(chars@.skip(from as int), quote) is None,
            },
        decreases chars.len() - at,
    {
        if three_at(chars, at, quote) {
            return Some(at + 3);
        }
        if chars[at] == '\\' && chars.len() - at > 1 {
            assert(chars@.skip(at as int).skip(2) =~= chars@.skip(at + 2));
            at += 2;
        } else {
            assert(chars@.skip(at as int).skip(1) =~= chars@.skip(at + 1));
            at += 1;
        }
    }
    None
}

fn token_end(chars: &Vec<char>, from: usize) -> (end: usize)
    requires
        from < chars.len(),
    ensures
        end == from + token_length(chars@.skip(from as int)),
        from < end <= chars.len(),
{
    let ghost rest = chars@.skip(from as int);
    proof {
        lemma_token_length(rest);
        assert(rest.skip(1) =~= chars@.skip(from + 1));
        if rest.len() >= 3 {
            assert(rest.skip(3) =~= chars@.skip(from + 3));
        }
    }
    let c = chars[from];
    let end = if c == '<' {
        iri_end(chars, from + 1)
    } else if c == '"' || c == '\'' {
        if three_at(chars, from, c) {
            match long_end(chars, from + 3, c) {
                Some(at) => Some(at),
                None => Some(chars.len()),
            }
        } else {
            short_end(chars, from + 1, c)
        }
    } else if c == '\\' && chars.len() - from > 1 {
        Some(from + 2)
    } else {
        None
    };
    match end {
        Some(at) => at,
        None => from + 1,
    }
}

/// A text without its comments.
pub fn without_comments(text: &str) -> (kept: String)
    ensures
        kept@ == uncommented(text@),
{
    let chars = text::chars_of(text);
    let mut kept = String::new();
    let mut at: usize = 0;
    assert(chars@.skip(0) =~= chars@);
    while at < chars.len()
        invariant
            at <= chars.len(),
            chars@ == text@,
            uncommented(text@) == kept@ + uncommented(chars@.skip(at as int)),
        decreases chars.len() - at,
    {
        let ghost rest = chars@.skip(at as int);
        if chars[at] == '#' {
            let end = line_end(&chars, at);
            proof {
                assert(!is_break(rest[0]));
                assert(rest.skip(end - at) =~= chars@.skip(end as int));
            }
            at = end;
        } else {
            let end = token_end(&chars, at);
            let token = text::string_of(&chars, at, end);
            let ghost before = kept@;
            kept.append(token.as_str());
            proof {
                assert(token@ =~= rest.take(end - at));
                assert(rest.skip(end - at) =~= chars@.skip(end as int));
                assert(before + (token@ + uncommented(chars@.skip(end as int))) =~= before + token@
                    + uncommented(chars@.skip(end as int)));
            }
            at = end;
        }
    }
    assert(chars@.skip(at as int).len() == 0);
    assert(uncommented(chars@.skip(at as int)).len() == 0);
    assert(kept@ + uncommented(chars@.skip(at as int)) =~= kept@);
    kept
}

} // verus!

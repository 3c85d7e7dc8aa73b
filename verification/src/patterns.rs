//! The regular expressions that read a query's text.
use regex::Regex;
use vstd::prelude::*;

verus! {

/// A prefix declaration: the prefix and the IRI in angle brackets.
pub const PREFIX_PATTERN: &'static str = r"\b[pP][rR][eE][fF][iI][xX]\s+(\S*?):\s+<(.+?)>";

/// What looks like a variable: the name behind a question mark.
pub const VARIABLE_PATTERN: &'static str = r"\?([A-Za-z_][A-Za-z_0-9]*?)[^A-Za-z_0-9]";

/// Whether `name` is an ASCII letter or `_`, followed by ASCII letters, digits and `_`.
pub open spec fn is_variable_name(name: Seq<char>) -> bool {
    &&& name.len() > 0
    &&& !('0' <= name[0] <= '9')
    &&& forall|i: int| 0 <= i < name.len() ==> is_variable_char(#[trigger] name[i])
}

/// Whether `c` is an ASCII letter, a digit or `_`.
pub open spec fn is_variable_char(c: char) -> bool {
    'A' <= c <= 'Z' || 'a' <= c <= 'z' || '0' <= c <= '9' || c == '_'
}

/// How many characters of a variable name `s` starts with.
pub open spec fn name_length(s: Seq<char>) -> nat
    decreases s.len(),
{
    if s.len() > 0 && is_variable_char(s[0]) {
        1 + name_length(s.drop_first())
    } else {
        0
    }
}

/// The variable that stands at `at`: a question mark, and behind it a name that does not go on.
pub open spec fn variable_at(text: Seq<char>, at: int) -> Option<Seq<char>> {
    if 0 <= at < text.len() && text[at] == '?' {
        let behind = text.skip(at + 1);
        let name = behind.take(name_length(behind) as int);
        if is_variable_name(name) {
            Some(name)
        } else {
            None
        }
    } else {
        None
    }
}

/// What the variable pattern captures: each variable that has a character behind it, from the
/// left; the search goes on behind that character.
pub open spec fn variable_matches(text: Seq<char>) -> Seq<Seq<Seq<char>>>
    decreases text.len(),
{
    if text.len() == 0 {
        Seq::empty()
    } else {
        match variable_at(text, 0) {
            Some(name) if name.len() + 1 < text.len() => seq![seq![name]] + variable_matches(
                text.skip(name.len() as int + 2),
            ),
            _ => variable_matches(text.skip(1)),
        }
    }
}

/// Whether groups are what the prefix pattern captures of a declaration: a prefix and an IRI,
/// each on one line.
pub open spec fn is_declaration(groups: Seq<Seq<char>>) -> bool {
    &&& groups.len() == 2
    &&& !groups[0].contains('\n')
    &&& !groups[1].contains('\n')
}

/// What the groups of a regular expression capture in a text, one entry per match, from the
/// left, without overlap.
pub uninterp spec fn captured(pattern: Seq<char>, text: Seq<char>) -> Seq<Seq<Seq<char>>>;

/// `Regex::captures_iter` on the compiled pattern: what it captures depends on the pattern and
/// the text alone. The prefix pattern has two groups: `\S` takes no white space and `.` no line
/// feed. The variable pattern has one, which holds the name of each variable that has a
/// character behind it.
#[verifier::external_body]
pub(crate) fn captures(pattern: &str, text: &str) -> (found: Vec<Vec<String>>)
    requires
        pattern@ == PREFIX_PATTERN@ || pattern@ == VARIABLE_PATTERN@,
    ensures
        found.deep_view() == captured(pattern@, text@),
        pattern@ == PREFIX_PATTERN@ ==> forall|i: int|
            0 <= i < found.len() ==> is_declaration(#[trigger] found.deep_view()[i]),
        pattern@ == VARIABLE_PATTERN@ ==> found.deep_view() == variable_matches(text@),
{
    let regex = Regex::new(pattern).unwrap();
    regex
        .captures_iter(text)
        .map(|c| c.iter().skip(1).map(|g| g.unwrap().as_str().to_string()).collect())
        .collect()
}

/// The names of the variables in a text.
pub open spec fn names_in(text: Seq<char>) -> Set<Seq<char>> {
    Set::new(|name: Seq<char>| exists|at: int| #[trigger] variable_at(text, at) == Some(name))
}

/// A text with a line feed in front of each question mark and behind its end, so that every
/// variable in it has a character behind it that no other one needs.
pub open spec fn spaced(text: Seq<char>) -> Seq<char>
    decreases text.len(),
{
    if text.len() == 0 {
        seq!['\n']
    } else if text[0] == '?' {
        seq!['\n', '?'] + spaced(text.skip(1))
    } else {
        seq![text[0]] + spaced(text.skip(1))
    }
}

/// The first groups of what was captured.
pub open spec fn first_groups(found: Seq<Seq<Seq<char>>>) -> Set<Seq<char>> {
    found.map_values(|groups: Seq<Seq<char>>| groups[0]).to_set()
}

/// Every match of the variable pattern has one group, a variable name.
pub(crate) proof fn lemma_variable_matches(text: Seq<char>)
    ensures
        forall|i: int|
            0 <= i < variable_matches(text).len() ==> {
                let groups = #[trigger] variable_matches(text)[i];
                groups.len() == 1 && is_variable_name(groups[0])
            },
    decreases text.len(),
{
    if text.len() == 0 {
        assert(variable_matches(text).len() == 0);
    } else {
        lemma_variable_matches(text.skip(1));
        match variable_at(text, 0) {
            Some(name) if name.len() + 1 < text.len() => {
                let later = variable_matches(text.skip(name.len() as int + 2));
                lemma_variable_matches(text.skip(name.len() as int + 2));
                assert forall|i: int| 0 <= i < variable_matches(text).len() implies {
                    let groups = #[trigger] variable_matches(text)[i];
                    groups.len() == 1 && is_variable_name(groups[0])
                } by {
                    if i > 0 {
                        assert(variable_matches(text)[i] == later[i - 1]);
                    }
                }
            },
            _ => {
                assert(variable_matches(text) == variable_matches(text.skip(1)));
            },
        }
    }
}

proof fn lemma_name_length(s: Seq<char>)
    ensures
        name_length(s) <= s.len(),
        forall|i: int| 0 <= i < name_length(s) ==> is_variable_char(#[trigger] s[i]),
        name_length(s) < s.len() ==> !is_variable_char(s[name_length(s) as int]),
    decreases s.len(),
{
    if s.len() > 0 && is_variable_char(s[0]) {
        let rest = s.drop_first();
        lemma_name_length(rest);
        assert forall|i: int| 0 <= i < name_length(s) implies is_variable_char(#[trigger] s[i]) by {
            if i > 0 {
                assert(rest[i - 1] == s[i]);
            }
        }
    }
}

/// The name that a text starts with is the name that it starts with when spaced, and what
/// follows it is spaced on its own.
proof fn lemma_spaced_name(text: Seq<char>)
    ensures
        name_length(spaced(text)) == name_length(text),
        spaced(text) == text.take(name_length(text) as int) + spaced(
            text.skip(name_length(text) as int),
        ),
    decreases text.len(),
{
    let n = name_length(text);
    lemma_name_length(text);
    if text.len() > 0 && is_variable_char(text[0]) {
        let rest = text.skip(1);
        assert(text.drop_first() =~= rest);
        lemma_spaced_name(rest);
        assert(spaced(text).drop_first() =~= spaced(rest));
        assert(rest.skip(n - 1) =~= text.skip(n as int));
        assert(text.take(n as int) =~= seq![text[0]] + rest.take(n - 1));
        assert(spaced(text) =~= text.take(n as int) + spaced(text.skip(n as int)));
    } else {
        assert(text.skip(0) =~= text);
        assert(spaced(text) =~= text.take(0) + spaced(text));
    }
}

/// A spaced text starts with no question mark.
proof fn lemma_spaced_start(text: Seq<char>)
    ensures
        spaced(text).len() > 0,
        spaced(text)[0] != '?',
        variable_matches(spaced(text)) == variable_matches(spaced(text).skip(1)),
{
}

proof fn lemma_variable_shift(text: Seq<char>, n: int, at: int)
    requires
        0 <= n <= at,
        n <= text.len(),
    ensures
        variable_at(text, at) == variable_at(text.skip(n), at - n),
{
    if at < text.len() {
        assert(text.skip(n).skip(at - n + 1) =~= text.skip(at + 1));
    }
}

/// Leaving out characters that are no question mark leaves out no variable.
proof fn lemma_names_behind(text: Seq<char>, n: int)
    requires
        0 <= n <= text.len(),
        forall|i: int| 0 <= i < n ==> #[trigger] text[i] != '?',
    ensures
        names_in(text) == names_in(text.skip(n)),
{
    assert forall|name: Seq<char>| names_in(text).contains(name) <==> names_in(
        text.skip(n),
    ).contains(name) by {
        if names_in(text).contains(name) {
            let at = choose|at: int| #[trigger] variable_at(text, at) == Some(name);
            assert(at >= n);
            lemma_variable_shift(text, n, at);
            assert(variable_at(text.skip(n), at - n) == Some(name));
        }
        if names_in(text.skip(n)).contains(name) {
            let at = choose|at: int| #[trigger] variable_at(text.skip(n), at) == Some(name);
            lemma_variable_shift(text, n, at + n);
            assert(variable_at(text, at + n) == Some(name));
        }
    }
    assert(names_in(text) =~= names_in(text.skip(n)));
}

/// The names behind the first question mark of a text, and its own.
proof fn lemma_names_at_mark(text: Seq<char>)
    requires
        text.len() > 0,
    ensures
        names_in(text) == (match variable_at(text, 0) {
            Some(name) => names_in(text.skip(1)).insert(name),
            None => names_in(text.skip(1)),
        }),
{
    let rest = names_in(text.skip(1));
    let all = match variable_at(text, 0) {
        Some(name) => rest.insert(name),
        None => rest,
    };
    assert forall|name: Seq<char>| names_in(text).contains(name) <==> all.contains(name) by {
        if names_in(text).contains(name) {
            let at = choose|at: int| #[trigger] variable_at(text, at) == Some(name);
            if at > 0 {
                lemma_variable_shift(text, 1, at);
                assert(variable_at(text.skip(1), at - 1) == Some(name));
            }
        }
        if rest.contains(name) {
            let at = choose|at: int| #[trigger] variable_at(text.skip(1), at) == Some(name);
            lemma_variable_shift(text, 1, at + 1);
            assert(variable_at(text, at + 1) == Some(name));
        }
        if variable_at(text, 0) == Some(name) {
            assert(names_in(text).contains(name));
        }
    }
    assert(names_in(text) =~= all);
}

proof fn lemma_first_groups(groups: Seq<char>, found: Seq<Seq<Seq<char>>>)
    ensures
        first_groups(seq![seq![groups]] + found) == first_groups(found).insert(groups),
{
    let f = |groups: Seq<Seq<char>>| groups[0];
    let one = seq![seq![groups]];
    let (all, rest) = ((one + found).map_values(f), found.map_values(f));
    assert forall|name: Seq<char>| all.to_set().contains(name) <==> rest.to_set().insert(
        groups,
    ).contains(name) by {
        if all.to_set().contains(name) {
            let i = choose|i: int| 0 <= i < all.len() && all[i] == name;
            if i > 0 {
                assert(rest[i - 1] == name);
            }
        }
        if rest.to_set().contains(name) {
            let i = choose|i: int| 0 <= i < rest.len() && rest[i] == name;
            assert(all[i + 1] == name);
        }
        assert(all[0] == groups);
    }
    assert(all.to_set() =~= rest.to_set().insert(groups));
}

/// In a spaced text the variable pattern finds every variable, and no other name.
pub proof fn lemma_pattern_finds_variables(text: Seq<char>)
    ensures
        first_groups(variable_matches(spaced(text))) == names_in(text),
    decreases text.len(),
{
    lemma_spaced_start(text);
    let wide = spaced(text);
    if text.len() == 0 {
        let nothing = wide.skip(1);
        assert(nothing.len() == 0);
        assert(variable_matches(nothing).len() == 0);
        assert(first_groups(variable_matches(wide)) =~= Set::empty());
        assert(names_in(text) =~= Set::empty());
    } else if text[0] != '?' {
        lemma_pattern_finds_variables(text.skip(1));
        lemma_names_behind(text, 1);
        assert(wide.skip(1) =~= spaced(text.skip(1)));
    } else {
        let rest = text.skip(1);
        let n = name_length(rest);
        let marked = wide.skip(1);
        lemma_names_at_mark(text);
        lemma_spaced_name(rest);
        lemma_name_length(rest);
        lemma_spaced_start(rest.skip(n as int));
        assert(marked =~= seq!['?'] + spaced(rest));
        assert(marked.skip(1) =~= spaced(rest));
        assert(spaced(rest).take(n as int) =~= rest.take(n as int));
        assert(variable_at(marked, 0) == variable_at(text, 0));
        match variable_at(text, 0) {
            Some(name) => {
                assert(name.len() == n);
                lemma_pattern_finds_variables(rest.skip(n as int));
                lemma_names_behind(rest, n as int);
                assert(marked.skip(n as int + 2) =~= spaced(rest.skip(n as int)).skip(1));
                lemma_first_groups(name, variable_matches(marked.skip(n as int + 2)));
            },
            None => {
                lemma_pattern_finds_variables(rest);
            },
        }
    }
}

/// A text names a variable where a question mark stands right before its name and the name does
/// not go on behind it. A name is an ASCII letter or `_`, with letters, digits and `_` behind it.
pub proof fn lemma_names_in(text: Seq<char>, name: Seq<char>)
    ensures
        is_variable_name(name) <==> {
            &&& name.len() > 0
            &&& !('0' <= name[0] <= '9')
            &&& forall|i: int|
                0 <= i < name.len() ==> {
                    let c = #[trigger] name[i];
                    'a' <= c <= 'z' || 'A' <= c <= 'Z' || '0' <= c <= '9' || c == '_'
                }
        },
        names_in(text).contains(name) <==> is_variable_name(name) && exists|
            before: Seq<char>,
            after: Seq<char>,
        |
            {
                &&& text == #[trigger] (before + seq!['?'] + name + after)
                &&& after.len() == 0 || !is_variable_name(seq!['a', after[0]])
            },
{
    if names_in(text).contains(name) {
        let at = choose|at: int| #[trigger] variable_at(text, at) == Some(name);
        let behind = text.skip(at + 1);
        let n = name_length(behind) as int;
        lemma_name_length(behind);
        let (before, after) = (text.take(at), behind.skip(n));
        assert(name =~= behind.take(n));
        assert(text =~= before + seq!['?'] + name + after);
        if after.len() > 0 {
            assert(after[0] == behind[n]);
            assert(seq!['a', after[0]][1] == after[0]);
        }
    }
    if is_variable_name(name) && exists|before: Seq<char>, after: Seq<char>|
        {
            &&& text == #[trigger] (before + seq!['?'] + name + after)
            &&& after.len() == 0 || !is_variable_name(seq!['a', after[0]])
        } {
        let (before, after) = choose|before: Seq<char>, after: Seq<char>|
            {
                &&& text == #[trigger] (before + seq!['?'] + name + after)
                &&& after.len() == 0 || !is_variable_name(seq!['a', after[0]])
            };
        let at = before.len() as int;
        let behind = text.skip(at + 1);
        assert(text[at] == '?');
        assert(behind =~= name + after);
        if after.len() > 0 {
            let pair = seq!['a', after[0]];
            if is_variable_char(after[0]) {
                assert forall|i: int| 0 <= i < pair.len() implies is_variable_char(
                    #[trigger] pair[i],
                ) by {
                }
            }
        }
        lemma_name_ends(name, after);
        assert(behind.take(name.len() as int) =~= name);
        assert(variable_at(text, at) == Some(name));
    }
}

proof fn lemma_name_ends(name: Seq<char>, after: Seq<char>)
    requires
        forall|i: int| 0 <= i < name.len() ==> is_variable_char(#[trigger] name[i]),
        after.len() == 0 || !is_variable_char(after[0]),
    ensures
        name_length(name + after) == name.len(),
    decreases name.len(),
{
    let both = name + after;
    if name.len() > 0 {
        let rest = name.drop_first();
        assert forall|i: int| 0 <= i < rest.len() implies is_variable_char(#[trigger] rest[i]) by {
            assert(rest[i] == name[i + 1]);
        }
        lemma_name_ends(rest, after);
        assert(both.drop_first() =~= rest + after);
        assert(both[0] == name[0]);
    } else {
        assert(both =~= after);
    }
}

/// The first groups are those of all matches, and no others.
pub proof fn lemma_first_groups_of(found: Seq<Seq<Seq<char>>>, name: Seq<char>)
    ensures
        first_groups(found).contains(name) <==> exists|i: int|
            0 <= i < found.len() && (#[trigger] found[i])[0] == name,
{
    let names = found.map_values(|groups: Seq<Seq<char>>| groups[0]);
    if first_groups(found).contains(name) {
        let i = names.index_of(name);
        assert(found[i][0] == name);
    }
    if exists|i: int| 0 <= i < found.len() && (#[trigger] found[i])[0] == name {
        let i = choose|i: int| 0 <= i < found.len() && (#[trigger] found[i])[0] == name;
        assert(names[i] == name);
    }
}

} // verus!

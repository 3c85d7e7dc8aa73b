//! The variables that a query mentions outside its comments.
use crate::comments;
use crate::comments::without_comments;
use crate::patterns;
use crate::text;
use vstd::prelude::*;

verus! {

/// The names that the text of a query mentions as variables outside its comments.
pub open spec fn mentioned(query_text: Seq<char>) -> Set<Seq<char>> {
    patterns::names_in(comments::uncommented(query_text))
}

/// A set of variable names.
pub struct VariableSet {
    names: Vec<String>,
}

impl View for VariableSet {
    type V = Set<Seq<char>>;

    closed spec fn view(&self) -> Set<Seq<char>> {
        self.names.deep_view().to_set()
    }
}

impl VariableSet {
    #[verifier::type_invariant]
    spec fn holds_variable_names(self) -> bool {
        forall|i: int|
            0 <= i < self.names.len() ==> patterns::is_variable_name(
                (#[trigger] self.names[i])@,
            )
    }

    /// Whether `name` is in the set.
    pub fn contains(&self, name: &str) -> (r: bool)
        ensures
            r == self@.contains(name@),
            r ==> patterns::is_variable_name(name@),
    {
        proof {
            use_type_invariant(self);
        }
        for i in 0..self.names.len()
            invariant
                forall|i: int|
                    0 <= i < self.names.len() ==> patterns::is_variable_name(
                        (#[trigger] self.names[i])@,
                    ),
                forall|j: int| 0 <= j < i ==> (#[trigger] self.names.deep_view()[j]) != name@,
        {
            assert(self.names.deep_view()[i as int] == self.names[i as int]@);
            if self.names[i].as_str().eq(name) {
                assert(self.names.deep_view().contains(name@));
                return true;
            }
        }
        false
    }
}

/// A text with a line feed in front of each question mark and behind its end.
fn space_out(text: &str) -> (wide: String)
    ensures
        wide@ == patterns::spaced(text@),
{
    let chars = text::chars_of(text);
    let mut wide = String::new();
    assert(chars@.skip(0) =~= chars@);
    for i in 0..chars.len()
        invariant
            chars@ == text@,
            patterns::spaced(text@) == wide@ + patterns::spaced(chars@.skip(i as int)),
    {
        let ghost before = wide@;
        if chars[i] == '?' {
            wide.push('\n');
        }
        wide.push(chars[i]);
        proof {
            let rest = chars@.skip(i as int);
            assert(rest.skip(1) =~= chars@.skip(i + 1));
            assert(before + patterns::spaced(rest) =~= wide@ + patterns::spaced(rest.skip(1)));
        }
    }
    wide.push('\n');
    assert(chars@.skip(chars.len() as int).len() == 0);
    wide
}

/// The set of the names `found`, given what the group of the variable pattern captured of each.
pub fn variable_set(found: &Vec<Vec<String>>) -> (variables: VariableSet)
    requires
        forall|i: int|
            0 <= i < found.len() ==> {
                let groups = #[trigger] found.deep_view()[i];
                groups.len() == 1 && patterns::is_variable_name(groups[0])
            },
    ensures
        variables@ == patterns::first_groups(found.deep_view()),
{
    let mut names: Vec<String> = Vec::new();
    for i in 0..found.len()
        invariant
            names.len() == i,
            forall|i: int|
                0 <= i < found.len() ==> {
                    let groups = #[trigger] found.deep_view()[i];
                    groups.len() == 1 && patterns::is_variable_name(groups[0])
                },
            forall|j: int|
                0 <= j < i ==> patterns::is_variable_name((#[trigger] names[j])@) && names[j]@
                    == found.deep_view()[j][0],
    {
        assert(found.deep_view()[i as int].len() == found[i as int].len());
        assert(found.deep_view()[i as int][0] == found[i as int][0]@);
        names.push(found[i][0].clone());
    }
    assert(names.deep_view() =~= found.deep_view().map_values(
        |groups: Seq<Seq<char>>| groups[0],
    ));
    VariableSet { names }
}

/// The variables that the text of a query mentions outside its comments.
pub fn extract_variables(query_text: &str) -> (variables: VariableSet)
    ensures
        variables@ == mentioned(query_text@),
        forall|name: Seq<char>| #[trigger]
            variables@.contains(name) ==> patterns::is_variable_name(name),
{
    let kept = without_comments(query_text);
    let wide = space_out(kept.as_str());
    let found = patterns::captures(patterns::VARIABLE_PATTERN, wide.as_str());
    proof {
        patterns::lemma_variable_matches(wide@);
        patterns::lemma_pattern_finds_variables(kept@);
    }
    variable_set(&found)
}

/// A text without `#` mentions each name that a question mark stands right before, where the name
/// does not go on; any text mentions what is left of it without its comments.
pub proof fn lemma_mentioned(text: Seq<char>, name: Seq<char>)
    ensures
        mentioned(text) == patterns::names_in(comments::uncommented(text)),
        !text.contains('#') ==> (mentioned(text).contains(name) <==> patterns::is_variable_name(name)
            && exists|before: Seq<char>, after: Seq<char>|
            {
                &&& text == #[trigger] (before + seq!['?'] + name + after)
                &&& after.len() == 0 || !patterns::is_variable_name(seq!['a', after[0]])
            }),
{
    if !text.contains('#') {
        comments::lemma_nothing_to_drop(text);
        patterns::lemma_names_in(text, name);
    }
}

/// A comment behind a text that leaves nothing open does not matter: without it the text
/// mentions the same variables.
pub proof fn lemma_comments_do_not_matter(
    before: Seq<char>,
    comment: Seq<char>,
    after: Seq<char>,
)
    requires
        comments::is_closed(before),
        forall|i: int| 0 <= i < comment.len() ==> !comments::is_break(#[trigger] comment[i]),
        after.len() == 0 || comments::is_break(after[0]),
    ensures
        mentioned(before + (seq!['#'] + comment + after)) == mentioned(before + after),
{
    comments::lemma_comments_do_not_matter(before, comment, after);
}

} // verus!

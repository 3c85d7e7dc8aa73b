//! The names that the columns of a table go by.
use crate::text;
use vstd::prelude::*;

verus! {

/// What `str::to_uppercase` makes of one character: its Unicode upper-case mapping, which can be
/// more than one character.
pub uninterp spec fn uppercase_of(c: char) -> Seq<char>;

/// The upper case of a string: that of its characters, one behind the other.
pub open spec fn uppercase(s: Seq<char>) -> Seq<char>
    decreases s.len(),
{
    if s.len() == 0 {
        Seq::empty()
    } else {
        uppercase(s.drop_last()) + uppercase_of(s.last())
    }
}

/// The upper-case form of an ASCII letter; any other character is left as it is.
pub open spec fn ascii_uppercase(c: char) -> char {
    if 'a' <= c <= 'z' {
        ((c as u32 - 32) as u32) as char
    } else {
        c
    }
}

/// Whether `image` can be the upper case of `c`: the capital of an ASCII letter, any other ASCII
/// character itself, and what holds no double quote for the rest.
pub open spec fn is_image(c: char, image: Seq<char>) -> bool {
    if (c as u32) < 128 {
        image == seq![ascii_uppercase(c)]
    } else {
        !image.contains('"')
    }
}

/// Whether `upper` is the upper case of `s`, character by character.
pub open spec fn is_upper_case(s: Seq<char>, upper: Seq<char>) -> bool {
    &&& upper == uppercase(s)
    &&& forall|i: int| 0 <= i < s.len() ==> is_image(#[trigger] s[i], uppercase_of(s[i]))
}

/// `str::to_uppercase`: each character becomes its Unicode upper-case mapping, which rests on the
/// character alone. It maps the letters `a` to `z` to `A` to `Z`, leaves the rest of ASCII, and
/// maps nothing else to a double quote, which is no letter.
pub assume_specification[ str::to_uppercase ](s: &str) -> (upper: String)
    ensures
        is_upper_case(s@, upper@),
        s@.len() == 1 ==> upper@ == uppercase_of(s@[0]),
;

/// `s` without the double quotes in it.
pub open spec fn without_quotes(s: Seq<char>) -> Seq<char> {
    s.filter(|c: char| c != '"')
}

/// The name of a column whose header cell reads `field`.
pub open spec fn cleaned_column(field: Seq<char>, normalize: bool) -> Seq<char> {
    without_quotes(
        if normalize {
            uppercase(text::trimmed(field))
        } else {
            text::trimmed(field)
        },
    )
}

/// The names of the columns of a table without a header row: `a` to `z`, then `A` to `Z`.
pub open spec fn letter_columns() -> Seq<Seq<char>> {
    Seq::new(
        52,
        |i: int|
            seq![
                if i < 26 {
                    ('a' as u32 + i) as u32 as char
                } else {
                    ('A' as u32 + i - 26) as u32 as char
                },
            ],
    )
}

/// The names of the columns whose header cells read `header`.
pub open spec fn header_columns(header: Seq<Seq<char>>, normalize: bool) -> Seq<Seq<char>> {
    header.map_values(|field: Seq<char>| cleaned_column(field, normalize))
}

/// Drops every double quote of `s`.
pub fn strip_quotes(s: &str) -> (r: String)
    ensures
        r@ == without_quotes(s@),
{
    let mut r = String::new();
    let ghost keep = |c: char| c != '"';
    for c in it: s.chars()
        invariant
            it.seq() == s@,
            keep == (|c: char| c != '"'),
            r@ == s@.take(it.index()).filter(keep),
    {
        proof {
            assert(s@.take(it.index() + 1).drop_last() == s@.take(it.index()));
            reveal(Seq::filter);
        }
        if c != '"' {
            r.push(c);
        }
    }
    assert(s@.take(s@.len() as int) == s@);
    r
}

/// The upper case of a string without its double quotes is its upper case without them.
pub proof fn lemma_upper_case_without_quotes(s: Seq<char>)
    requires
        is_upper_case(s, uppercase(s)),
    ensures
        without_quotes(uppercase(s)) == uppercase(without_quotes(s)),
    decreases s.len(),
{
    reveal(Seq::filter);
    let keep = |c: char| c != '"';
    if s.len() == 0 {
        assert(without_quotes(uppercase(s)) =~= uppercase(without_quotes(s)));
    } else {
        let (fewer, last) = (s.drop_last(), s.last());
        assert forall|i: int| 0 <= i < fewer.len() implies is_image(
            #[trigger] fewer[i],
            uppercase_of(fewer[i]),
        ) by {
            assert(fewer[i] == s[i]);
        }
        lemma_upper_case_without_quotes(fewer);
        Seq::filter_distributes_over_add(uppercase(fewer), uppercase_of(last), keep);
        assert(is_image(s[s.len() - 1], uppercase_of(last)));
        lemma_without_quotes(uppercase_of(last));
        if last == '"' {
            assert(uppercase_of(last).drop_last().filter(keep) =~= Seq::empty());
            assert(without_quotes(uppercase_of(last)) =~= Seq::empty());
            assert(without_quotes(uppercase(s)) =~= uppercase(without_quotes(s)));
        } else {
            assert(!uppercase_of(last).contains('"'));
            assert(without_quotes(s).drop_last() =~= without_quotes(fewer));
        }
    }
}

/// The upper case of an ASCII string is that of its letters.
proof fn lemma_ascii_upper_case(s: Seq<char>)
    requires
        is_upper_case(s, uppercase(s)),
        vstd::utf8::is_ascii_chars(s),
    ensures
        uppercase(s) == s.map_values(|c: char| ascii_uppercase(c)),
    decreases s.len(),
{
    let up = |c: char| ascii_uppercase(c);
    if s.len() > 0 {
        let fewer = s.drop_last();
        assert forall|i: int| 0 <= i < fewer.len() implies is_image(
            #[trigger] fewer[i],
            uppercase_of(fewer[i]),
        ) by {
            assert(fewer[i] == s[i]);
        }
        lemma_ascii_upper_case(fewer);
        assert(is_image(s[s.len() - 1], uppercase_of(s.last())));
    }
    assert(uppercase(s) =~= s.map_values(up));
}

/// The name of a column holds no double quote; a trimmed cell without any is the name.
pub proof fn lemma_names_hold_no_quotes(field: Seq<char>, normalize: bool)
    ensures
        !cleaned_column(field, normalize).contains('"'),
        !text::trimmed(field).contains('"') ==> cleaned_column(field, false) == text::trimmed(
            field,
        ),
{
    lemma_without_quotes(text::trimmed(field));
    lemma_without_quotes(uppercase(text::trimmed(field)));
}

proof fn lemma_without_quotes(s: Seq<char>)
    ensures
        !without_quotes(s).contains('"'),
        !s.contains('"') ==> without_quotes(s) == s,
    decreases s.len(),
{
    reveal(Seq::filter);
    if s.len() > 0 {
        let fewer = s.drop_last();
        lemma_without_quotes(fewer);
        if !s.contains('"') {
            assert forall|i: int| 0 <= i < fewer.len() implies #[trigger] fewer[i] != '"' by {
                assert(fewer[i] == s[i]);
            }
            assert(s[s.len() - 1] != '"');
            assert(without_quotes(s) =~= s);
        }
        let kept = without_quotes(s);
        assert forall|i: int| 0 <= i < kept.len() implies #[trigger] kept[i] != '"' by {
            if i < without_quotes(fewer).len() {
                assert(kept[i] == without_quotes(fewer)[i]);
            }
        }
    } else {
        assert(without_quotes(s) =~= s);
    }
}

proof fn lemma_kept(s: Seq<char>)
    ensures
        forall|i: int|
            0 <= i < without_quotes(s).len() ==> s.contains(#[trigger] without_quotes(s)[i]),
    decreases s.len(),
{
    reveal(Seq::filter);
    if s.len() > 0 {
        let fewer = s.drop_last();
        let (kept, less) = (without_quotes(s), without_quotes(fewer));
        lemma_kept(fewer);
        assert forall|i: int| 0 <= i < kept.len() implies s.contains(#[trigger] kept[i]) by {
            if i < less.len() {
                assert(kept[i] == less[i]);
                let j = fewer.index_of(less[i]);
                assert(s[j] == kept[i]);
            } else {
                assert(s[s.len() - 1] == kept[i]);
            }
        }
    }
}

/// The column name that a header cell stands for: the cell without the white space around it,
/// in upper case if `normalize` asks for it, and without double quotes.
pub fn clean_column(field: &str, normalize: &bool) -> (name: String)
    ensures
        name@ == cleaned_column(field@, *normalize),
        *normalize ==> is_upper_case(cleaned_column(field@, false), name@),
        *normalize && vstd::utf8::is_ascii_chars(text::trimmed(field@)) ==> name@ == cleaned_column(
            field@,
            false,
        ).map_values(|c: char| ascii_uppercase(c)),
{
    let bare = text::trim(field);
    if *normalize {
        let upper = bare.to_uppercase();
        proof {
            let plain = without_quotes(bare@);
            lemma_upper_case_without_quotes(bare@);
            lemma_kept(bare@);
            assert forall|i: int| 0 <= i < plain.len() implies is_image(
                #[trigger] plain[i],
                uppercase_of(plain[i]),
            ) by {
                let j = bare@.index_of(plain[i]);
                assert(bare@[j] == plain[i]);
            }
            if vstd::utf8::is_ascii_chars(bare@) {
                lemma_ascii_upper_case(plain);
            }
        }
        strip_quotes(upper.as_str())
    } else {
        strip_quotes(bare.as_str())
    }
}

/// The names of the columns whose header cells are `header`, in their order.
pub fn named_columns(header: &Vec<String>, normalize: bool) -> (names: Vec<String>)
    ensures
        names.deep_view() == header_columns(header.deep_view(), normalize),
{
    let mut names: Vec<String> = Vec::new();
    for i in 0..header.len()
        invariant
            names.len() == i,
            forall|j: int| 0 <= j < i ==> #[trigger] names[j]@ == cleaned_column(header[j]@, normalize),
    {
        names.push(clean_column(header[i].as_str(), &normalize));
    }
    assert(names.deep_view() =~= header_columns(header.deep_view(), normalize));
    names
}

/// The names of the columns of a table that has no header row.
pub fn lettered_columns() -> (names: Vec<String>)
    ensures
        names.deep_view() == letter_columns(),
{
    let mut names: Vec<String> = Vec::new();
    for i in 0u8..52
        invariant
            names.len() == i,
            forall|j: int| 0 <= j < i ==> #[trigger] names[j]@ == letter_columns()[j],
    {
        let letter: u8 = if i < 26 {
            'a' as u8 + i
        } else {
            'A' as u8 + (i - 26)
        };
        let mut name = String::new();
        name.push(letter as char);
        assert(name@ =~= letter_columns()[i as int]);
        names.push(name);
    }
    assert(names.deep_view() =~= letter_columns());
    names
}

/// The upper case of two strings as one is the upper case of the one and then of the other, and
/// each character has its own.
pub proof fn lemma_uppercase_of_parts(first: Seq<char>, second: Seq<char>, c: char)
    ensures
        uppercase(first + second) == uppercase(first) + uppercase(second),
        uppercase(seq![c]) == uppercase_of(c),
        uppercase(Seq::empty()) == Seq::<char>::empty(),
    decreases second.len(),
{
    if second.len() == 0 {
        assert(first + second =~= first);
        assert(uppercase(first) + uppercase(second) =~= uppercase(first));
    } else {
        lemma_uppercase_of_parts(first, second.drop_last(), c);
        assert((first + second).drop_last() =~= first + second.drop_last());
        assert(uppercase(first + second) =~= uppercase(first) + uppercase(second));
    }
    let one = seq![c];
    assert(one.drop_last().len() == 0);
    assert(uppercase(one.drop_last()).len() == 0);
    assert(uppercase(one) =~= uppercase_of(c));
}

/// Double quotes go wherever they stand, and nothing else does: what is kept of two strings as
/// one is what is kept of each, and a character is kept unless it is a double quote.
pub proof fn lemma_kept_of_parts(first: Seq<char>, second: Seq<char>, c: char)
    ensures
        without_quotes(first + second) == without_quotes(first) + without_quotes(second),
        without_quotes(seq![c]) == (if c == '"' {
            Seq::empty()
        } else {
            seq![c]
        }),
        without_quotes(Seq::empty()) == Seq::<char>::empty(),
{
    reveal(Seq::filter);
    Seq::filter_distributes_over_add(first, second, |c: char| c != '"');
    let nothing = seq![c].drop_last();
    assert(nothing.len() == 0);
    assert(nothing.filter(|c: char| c != '"').len() == 0);
    assert(without_quotes(seq![c]) =~= if c == '"' {
        Seq::empty()
    } else {
        seq![c]
    });
}

/// The name of a column is what its cell holds between white space, without double quotes; or the
/// upper case of that.
pub proof fn lemma_name_of_cell(blank: Seq<char>, core: Seq<char>, after: Seq<char>)
    requires
        text::is_blank(blank),
        text::is_blank(after),
        core.len() > 0 ==> !text::is_blank(seq![core[0]]) && !text::is_blank(seq![core.last()]),
    ensures
        cleaned_column(blank + core + after, false) == without_quotes(core),
        cleaned_column(blank + core + after, true) == without_quotes(uppercase(core)),
{
    text::lemma_trimmed_core(blank, core, after);
}

/// Every cell of a header names one column, in order.
pub proof fn lemma_header_columns(header: Seq<Seq<char>>, normalize: bool, i: int)
    requires
        0 <= i < header.len(),
    ensures
        header_columns(header, normalize).len() == header.len(),
        header_columns(header, normalize)[i] == cleaned_column(header[i], normalize),
{
}

/// Without a header there are 52 columns: the small letters in order, then the capital ones.
pub proof fn lemma_letter_columns(i: int)
    requires
        0 <= i < 26,
    ensures
        letter_columns().len() == 52,
        letter_columns()[i].len() == 1,
        letter_columns()[i][0] as u32 == 'a' as u32 + i,
        letter_columns()[26 + i].len() == 1,
        letter_columns()[26 + i][0] as u32 == 'A' as u32 + i,
{
}

} // verus!

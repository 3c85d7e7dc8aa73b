//! Strings as sequences of characters: reading them apart, trimming, comparing.
use vstd::prelude::*;

verus! {

/// `String::push` appends one character.
pub assume_specification[ String::push ](s: &mut String, c: char)
    ensures
        final(s)@ == old(s)@.push(c),
;

/// `str` equality holds exactly of equal character sequences.
pub assume_specification[ <str as PartialEq>::eq ](a: &str, b: &str) -> (same: bool)
    ensures
        same == (a@ == b@),
;

/// The characters with the Unicode property `White_Space`.
pub open spec fn is_white_space(c: char) -> bool {
    ||| '\u{9}' <= c <= '\u{d}'
    ||| c == '\u{20}'
    ||| c == '\u{85}'
    ||| c == '\u{a0}'
    ||| c == '\u{1680}'
    ||| '\u{2000}' <= c <= '\u{200a}'
    ||| c == '\u{2028}'
    ||| c == '\u{2029}'
    ||| c == '\u{202f}'
    ||| c == '\u{205f}'
    ||| c == '\u{3000}'
}

/// `char::is_whitespace` decides the Unicode property `White_Space`.
pub assume_specification[ char::is_whitespace ](c: char) -> (white: bool)
    ensures
        white == is_white_space(c),
;

/// Whether every character of `s` is white space: whether nothing is left of it once trimmed.
pub open spec fn is_blank(s: Seq<char>) -> bool {
    forall|i: int| 0 <= i < s.len() ==> is_white_space(#[trigger] s[i])
}

/// `s` without the white space it starts with.
pub open spec fn trimmed_start(s: Seq<char>) -> Seq<char>
    decreases s.len(),
{
    if s.len() > 0 && is_white_space(s[0]) {
        trimmed_start(s.drop_first())
    } else {
        s
    }
}

/// `s` without the white space it ends with.
pub open spec fn trimmed_end(s: Seq<char>) -> Seq<char>
    decreases s.len(),
{
    if s.len() > 0 && is_white_space(s.last()) {
        trimmed_end(s.drop_last())
    } else {
        s
    }
}

/// `s` without the white space at its two ends.
pub open spec fn trimmed(s: Seq<char>) -> Seq<char> {
    trimmed_end(trimmed_start(s))
}

/// Where `c` first stands in `s`; the length of `s` if nowhere.
pub open spec fn first_index<A>(s: Seq<A>, c: A) -> int
    decreases s.len(),
{
    if s.len() == 0 || s[0] == c {
        0
    } else {
        1 + first_index(s.drop_first(), c)
    }
}

/// At its first place stands `c`, and nowhere before.
pub proof fn lemma_first_index<A>(s: Seq<A>, c: A)
    ensures
        0 <= first_index(s, c) <= s.len(),
        first_index(s, c) < s.len() ==> s[first_index(s, c)] == c,
        forall|i: int| 0 <= i < first_index(s, c) ==> #[trigger] s[i] != c,
    decreases s.len(),
{
    if s.len() > 0 && s[0] != c {
        let rest = s.drop_first();
        lemma_first_index(rest, c);
        assert forall|i: int| 0 <= i < first_index(s, c) implies #[trigger] s[i] != c by {
            if i > 0 {
                assert(rest[i - 1] == s[i]);
            }
        }
    }
}

/// The characters of `s`, in order.
pub fn chars_of(s: &str) -> (chars: Vec<char>)
    ensures
        chars@ == s@,
{
    let mut chars: Vec<char> = Vec::new();
    for c in it: s.chars()
        invariant
            chars@ == it.seq().take(it.index()),
            it.seq() == s@,
    {
        chars.push(c);
    }
    chars
}

/// The string of the characters `from..to`.
pub fn string_of(chars: &Vec<char>, from: usize, to: usize) -> (s: String)
    requires
        from <= to <= chars.len(),
    ensures
        s@ == chars@.subrange(from as int, to as int),
{
    let mut s = String::new();
    let mut i: usize = from;
    while i < to
        invariant
            from <= i <= to <= chars.len(),
            s@ == chars@.subrange(from as int, i as int),
        decreases to - i,
    {
        s.push(chars[i]);
        i += 1;
    }
    s
}

/// Where `c` first stands among the characters from `from` on; their number if nowhere.
pub fn index_of(chars: &Vec<char>, from: usize, c: char) -> (at: usize)
    requires
        from <= chars.len(),
    ensures
        from <= at <= chars.len(),
        at == from + first_index(chars@.skip(from as int), c),
{
    let mut at: usize = from;
    while at < chars.len() && chars[at] != c
        invariant
            from <= at <= chars.len(),
            first_index(chars@.skip(from as int), c) == at - from + first_index(
                chars@.skip(at as int),
                c,
            ),
        decreases chars.len() - at,
    {
        assert(chars@.skip(at as int).drop_first() =~= chars@.skip(at + 1));
        at += 1;
    }
    at
}

/// Whether `s` holds nothing but white space.
pub fn blank(s: &str) -> (r: bool)
    ensures
        r == is_blank(s@),
{
    for c in it: s.chars()
        invariant
            it.seq() == s@,
            is_blank(s@.take(it.index())),
    {
        assert(s@[it.index()] == c);
        if !c.is_whitespace() {
            return false;
        }
        assert(s@.take(it.index() + 1) == s@.take(it.index()).push(c));
    }
    assert(s@.take(s@.len() as int) == s@);
    true
}

/// `s` without the white space at its two ends.
pub fn trim(s: &str) -> (r: String)
    ensures
        r@ == trimmed(s@),
{
    let chars = chars_of(s);
    let n = chars.len();
    let mut from: usize = 0;
    assert(chars@.skip(0) == chars@);
    while from < n && chars[from].is_whitespace()
        invariant
            from <= n == chars.len(),
            trimmed_start(chars@) == trimmed_start(chars@.skip(from as int)),
        decreases n - from,
    {
        assert(chars@.skip(from as int).drop_first() == chars@.skip(from + 1));
        from += 1;
    }
    let ghost start = chars@.skip(from as int);
    assert(trimmed_start(chars@) == start);
    let mut to: usize = n;
    assert(chars@.subrange(from as int, to as int) == start);
    while from < to && chars[to - 1].is_whitespace()
        invariant
            from <= to <= n == chars.len(),
            trimmed_end(start) == trimmed_end(chars@.subrange(from as int, to as int)),
        decreases to,
    {
        assert(chars@.subrange(from as int, to as int).drop_last() == chars@.subrange(
            from as int,
            to - 1,
        ));
        to -= 1;
    }
    string_of(&chars, from, to)
}

/// A string is blank exactly when trimming leaves nothing of it.
pub proof fn lemma_blank_trims_to_nothing(s: Seq<char>)
    ensures
        is_blank(s) <==> trimmed(s).len() == 0,
{
    lemma_trimmed_start(s);
    lemma_trimmed_end(trimmed_start(s));
    if trimmed(s).len() == 0 {
        let t = trimmed_start(s);
        assert(is_blank(t));
        if t.len() > 0 {
            assert(is_white_space(t[0]));
        }
        assert(t.len() == 0);
    }
}

proof fn lemma_trimmed_start(s: Seq<char>)
    ensures
        is_blank(s) <==> trimmed_start(s).len() == 0,
        trimmed_start(s).len() > 0 ==> !is_white_space(trimmed_start(s)[0]),
    decreases s.len(),
{
    if s.len() > 0 && is_white_space(s[0]) {
        lemma_trimmed_start(s.drop_first());
        assert(s =~= seq![s[0]] + s.drop_first());
        assert(is_blank(s.drop_first()) ==> is_blank(s)) by {
            assert forall|i: int| is_blank(s.drop_first()) && 0 <= i < s.len() implies is_white_space(
                #[trigger] s[i],
            ) by {
                if i > 0 {
                    assert(s.drop_first()[i - 1] == s[i]);
                }
            }
        }
        assert(is_blank(s) ==> is_blank(s.drop_first()));
    }
}

proof fn lemma_trimmed_end(s: Seq<char>)
    ensures
        is_blank(s) <==> trimmed_end(s).len() == 0,
    decreases s.len(),
{
    if s.len() > 0 && is_white_space(s.last()) {
        lemma_trimmed_end(s.drop_last());
        assert forall|i: int| is_blank(s.drop_last()) && 0 <= i < s.len() implies is_white_space(
            #[trigger] s[i],
        ) by {
            if i < s.len() - 1 {
                assert(s.drop_last()[i] == s[i]);
            }
        }
        assert(is_blank(s) ==> is_blank(s.drop_last()));
    }
}

/// The bytes of two strings as one are the bytes of the one and then of the other.
pub proof fn lemma_encoded_in_turn(first: Seq<char>, second: Seq<char>)
    ensures
        vstd::utf8::encode_utf8(first + second) == vstd::utf8::encode_utf8(first)
            + vstd::utf8::encode_utf8(second),
    decreases first.len(),
{
    if first.len() == 0 {
        assert(first + second =~= second);
        assert(vstd::utf8::encode_utf8(first) =~= Seq::empty());
    } else {
        lemma_encoded_in_turn(first.drop_first(), second);
        assert((first + second).drop_first() =~= first.drop_first() + second);
        assert(vstd::utf8::encode_utf8(first + second) =~= vstd::utf8::encode_utf8(first)
            + vstd::utf8::encode_utf8(second));
    }
}

proof fn lemma_scalar_without_line_feed(character: char)
    requires
        character != '\n',
    ensures
        !vstd::utf8::encode_scalar(character as u32).contains('\n' as u8),
{
    let c = character as u32;
    assert(c <= 0x7F && c != 10 ==> (c & 0x7F) as u8 != 10) by (bit_vector);
    assert(0xC0u8 | ((c >> 6) & 0x1F) as u8 != 10) by (bit_vector);
    assert(0xE0u8 | ((c >> 12) & 0x0F) as u8 != 10) by (bit_vector);
    assert(0xF0u8 | ((c >> 18) & 0x7) as u8 != 10) by (bit_vector);
    assert(0x80u8 | (c & 0x3F) as u8 != 10) by (bit_vector);
    assert(0x80u8 | ((c >> 6) & 0x3F) as u8 != 10) by (bit_vector);
    assert(0x80u8 | ((c >> 12) & 0x3F) as u8 != 10) by (bit_vector);
}

/// A string without line feeds has no byte of one.
pub proof fn lemma_encoded_without_line_feed(s: Seq<char>)
    requires
        !s.contains('\n'),
    ensures
        !vstd::utf8::encode_utf8(s).contains('\n' as u8),
    decreases s.len(),
{
    if s.len() > 0 {
        let rest = s.drop_first();
        assert forall|i: int| 0 <= i < rest.len() implies #[trigger] rest[i] != '\n' by {
            assert(rest[i] == s[i + 1]);
        }
        lemma_encoded_without_line_feed(rest);
        assert(s[0] != '\n');
        lemma_scalar_without_line_feed(s[0]);
        let first = vstd::utf8::encode_scalar(s[0] as u32);
        let all = vstd::utf8::encode_utf8(s);
        assert forall|i: int| 0 <= i < all.len() implies #[trigger] all[i] != '\n' as u8 by {
            if i >= first.len() {
                assert(all[i] == vstd::utf8::encode_utf8(rest)[i - first.len()]);
            }
        }
    }
}

/// Two strings as one are blank when both are; a character is when it is white space: one of the
/// controls from the tab to the carriage return, a space of some width, or a separator.
pub proof fn lemma_blank_of_parts(first: Seq<char>, second: Seq<char>, c: char)
    ensures
        is_blank(first + second) <==> is_blank(first) && is_blank(second),
        is_blank(Seq::empty()),
        is_blank(seq![c]) <==> {
            let code = c as u32;
            ||| 0x9 <= code <= 0xd
            ||| 0x2000 <= code <= 0x200a
            ||| code == 0x20 || code == 0x85 || code == 0xa0 || code == 0x1680 || code == 0x2028
            ||| code == 0x2029 || code == 0x202f || code == 0x205f || code == 0x3000
        },
{
    let both = first + second;
    if is_blank(both) {
        assert forall|i: int| 0 <= i < first.len() implies is_white_space(#[trigger] first[i]) by {
            assert(both[i] == first[i]);
        }
        assert forall|i: int| 0 <= i < second.len() implies is_white_space(
            #[trigger] second[i],
        ) by {
            assert(both[first.len() + i] == second[i]);
        }
    }
    assert(seq![c][0] == c);
}

/// Between blank strings, a string that neither starts nor ends with white space is what trimming
/// leaves.
pub proof fn lemma_trimmed_core(blank: Seq<char>, core: Seq<char>, after: Seq<char>)
    requires
        is_blank(blank),
        is_blank(after),
        core.len() > 0 ==> !is_blank(seq![core[0]]) && !is_blank(seq![core.last()]),
    ensures
        trimmed(blank + core + after) == core,
{
    let all = blank + core + after;
    if core.len() == 0 {
        lemma_blank_of_parts(blank + core, after, 'a');
        lemma_blank_of_parts(blank, core, 'a');
        lemma_blank_trims_to_nothing(all);
        assert(trimmed(all) =~= core);
    } else {
        assert(seq![core[0]][0] == core[0]);
        assert(seq![core.last()][0] == core.last());
        lemma_start_dropped(blank, core + after);
        assert(all =~= blank + (core + after));
        lemma_end_dropped(core, after);
    }
}

proof fn lemma_start_dropped(blank: Seq<char>, rest: Seq<char>)
    requires
        is_blank(blank),
        rest.len() > 0,
        !is_white_space(rest[0]),
    ensures
        trimmed_start(blank + rest) == rest,
    decreases blank.len(),
{
    if blank.len() > 0 {
        assert(is_white_space(blank[0]));
        assert forall|i: int| 0 <= i < blank.drop_first().len() implies is_white_space(
            #[trigger] blank.drop_first()[i],
        ) by {
            assert(blank.drop_first()[i] == blank[i + 1]);
        }
        lemma_start_dropped(blank.drop_first(), rest);
        assert((blank + rest).drop_first() =~= blank.drop_first() + rest);
    } else {
        assert(blank + rest =~= rest);
    }
}

proof fn lemma_end_dropped(rest: Seq<char>, blank: Seq<char>)
    requires
        is_blank(blank),
        rest.len() > 0,
        !is_white_space(rest.last()),
    ensures
        trimmed_end(rest + blank) == rest,
    decreases blank.len(),
{
    if blank.len() > 0 {
        assert(is_white_space(blank[blank.len() - 1]));
        assert forall|i: int| 0 <= i < blank.drop_last().len() implies is_white_space(
            #[trigger] blank.drop_last()[i],
        ) by {
            assert(blank.drop_last()[i] == blank[i]);
        }
        lemma_end_dropped(rest, blank.drop_last());
        assert((rest + blank).drop_last() =~= rest + blank.drop_last());
    } else {
        assert(rest + blank =~= rest);
    }
}

} // verus!

//! Cutting a string at a delimiter.
use crate::text;
use vstd::prelude::*;

verus! {

/// Whether `delimiter` stands in `s` at `i`.
pub open spec fn occurs_at(s: Seq<char>, delimiter: Seq<char>, i: int) -> bool {
    &&& 0 <= i
    &&& i + delimiter.len() <= s.len()
    &&& s.subrange(i, i + delimiter.len()) == delimiter
}

/// Where `delimiter` first stands in `s`.
pub open spec fn first_occurrence(s: Seq<char>, delimiter: Seq<char>) -> Option<int>
    decreases s.len(),
{
    if occurs_at(s, delimiter, 0) {
        Some(0)
    } else if s.len() == 0 {
        None
    } else {
        match first_occurrence(s.drop_first(), delimiter) {
            Some(i) => Some(i + 1),
            None => None,
        }
    }
}

/// The parts of `s` between the occurrences of `delimiter`, taken from the left without
/// overlap. An empty delimiter stands around every character, at the two ends too.
pub open spec fn pieces(s: Seq<char>, delimiter: Seq<char>) -> Seq<Seq<char>>
    decreases s.len(),
{
    if delimiter.len() == 0 {
        seq![Seq::<char>::empty()] + s.map_values(|c: char| seq![c]) + seq![Seq::<char>::empty()]
    } else {
        match first_occurrence(s, delimiter) {
            Some(i) if 0 <= i && i + delimiter.len() <= s.len() => seq![s.take(i)] + pieces(
                s.skip(i + delimiter.len()),
                delimiter,
            ),
            _ => seq![s],
        }
    }
}

/// The strings of `parts`, with `delimiter` between each two of them.
pub open spec fn joined(parts: Seq<Seq<char>>, delimiter: Seq<char>) -> Seq<char>
    decreases parts.len(),
{
    if parts.len() == 0 {
        Seq::empty()
    } else if parts.len() == 1 {
        parts[0]
    } else {
        parts[0] + delimiter + joined(parts.drop_first(), delimiter)
    }
}

/// What `first_occurrence` finds is an occurrence and no other comes before it; where it
/// finds none, there is none.
pub proof fn lemma_first_occurrence(s: Seq<char>, delimiter: Seq<char>)
    ensures
        match first_occurrence(s, delimiter) {
            Some(i) => occurs_at(s, delimiter, i) && forall|j: int|
                0 <= j < i ==> !#[trigger] occurs_at(s, delimiter, j),
            None => forall|j: int| !#[trigger] occurs_at(s, delimiter, j),
        },
    decreases s.len(),
{
    if occurs_at(s, delimiter, 0) || s.len() == 0 {
    } else {
        let rest = s.drop_first();
        lemma_first_occurrence(rest, delimiter);
        assert forall|j: int| j >= 1 implies occurs_at(s, delimiter, j) == #[trigger] occurs_at(
            rest,
            delimiter,
            j - 1,
        ) by {
            if j + delimiter.len() <= s.len() {
                assert(s.subrange(j, j + delimiter.len()) =~= rest.subrange(
                    j - 1,
                    j - 1 + delimiter.len(),
                ));
            }
        }
        match first_occurrence(rest, delimiter) {
            Some(i) => {
                assert(occurs_at(rest, delimiter, i + 1 - 1));
                assert forall|j: int| 0 <= j < i + 1 implies !#[trigger] occurs_at(
                    s,
                    delimiter,
                    j,
                ) by {
                    if j > 0 {
                        assert(!occurs_at(rest, delimiter, j - 1));
                    }
                }
            },
            None => {
                assert forall|j: int| !#[trigger] occurs_at(s, delimiter, j) by {
                    if j > 0 {
                        assert(!occurs_at(rest, delimiter, j - 1));
                    }
                }
            },
        }
    }
}

/// Putting the pieces of a string together again, with the delimiter between them, gives the
/// string back.
pub proof fn lemma_pieces_join(s: Seq<char>, delimiter: Seq<char>)
    ensures
        joined(pieces(s, delimiter), delimiter) == s,
        pieces(s, delimiter).len() > 0,
    decreases s.len(),
{
    if delimiter.len() == 0 {
        let all = pieces(s, delimiter);
        assert(all.drop_first() =~= s.map_values(|c: char| seq![c]) + seq![Seq::<char>::empty()]);
        lemma_characters_join(s, delimiter);
    } else {
        lemma_first_occurrence(s, delimiter);
        match first_occurrence(s, delimiter) {
            Some(i) => {
                let rest = s.skip(i + delimiter.len());
                lemma_pieces_join(rest, delimiter);
                assert(pieces(s, delimiter).drop_first() =~= pieces(rest, delimiter));
                assert(s =~= s.take(i) + s.subrange(i, i + delimiter.len()) + rest);
            },
            None => {},
        }
    }
}

proof fn lemma_characters_join(s: Seq<char>, delimiter: Seq<char>)
    requires
        delimiter.len() == 0,
    ensures
        joined(s.map_values(|c: char| seq![c]) + seq![Seq::<char>::empty()], delimiter) == s,
    decreases s.len(),
{
    let parts = s.map_values(|c: char| seq![c]) + seq![Seq::<char>::empty()];
    if s.len() > 0 {
        let rest = s.drop_first();
        lemma_characters_join(rest, delimiter);
        assert(parts.drop_first() =~= rest.map_values(|c: char| seq![c])
            + seq![Seq::<char>::empty()]);
        assert(s =~= seq![s[0]] + rest);
    }
}

/// No piece of a string holds the delimiter.
pub proof fn lemma_pieces_hold_no_delimiter(s: Seq<char>, delimiter: Seq<char>, k: int, i: int)
    requires
        delimiter.len() > 0,
        0 <= k < pieces(s, delimiter).len(),
    ensures
        !occurs_at(pieces(s, delimiter)[k], delimiter, i),
    decreases s.len(),
{
    lemma_first_occurrence(s, delimiter);
    match first_occurrence(s, delimiter) {
        Some(at) => {
            if k > 0 {
                lemma_pieces_hold_no_delimiter(s.skip(at + delimiter.len()), delimiter, k - 1, i);
            } else if occurs_at(s.take(at), delimiter, i) {
                assert(s.take(at).subrange(i, i + delimiter.len()) =~= s.subrange(
                    i,
                    i + delimiter.len(),
                ));
                assert(occurs_at(s, delimiter, i));
            }
        },
        None => {
            assert(!occurs_at(s, delimiter, i));
        },
    }
}

fn matches_at(chars: &Vec<char>, delimiter: &Vec<char>, i: usize) -> (r: bool)
    requires
        i + delimiter.len() <= chars.len(),
    ensures
        r == occurs_at(chars@, delimiter@, i as int),
{
    let ghost there = chars@.subrange(i as int, i + delimiter.len());
    for j in 0..delimiter.len()
        invariant
            i + delimiter.len() <= chars.len(),
            there == chars@.subrange(i as int, i + delimiter.len()),
            forall|k: int| 0 <= k < j ==> there[k] == delimiter@[k],
    {
        assert(there[j as int] == chars@[i + j]);
        if chars[i + j] != delimiter[j] {
            return false;
        }
    }
    assert(there =~= delimiter@);
    true
}

/// The parts of `s` between the occurrences of `delimiter`.
pub fn pieces_of(s: &str, delimiter: &str) -> (parts: Vec<String>)
    ensures
        parts.deep_view() == pieces(s@, delimiter@),
{
    let chars = text::chars_of(s);
    let cut = text::chars_of(delimiter);
    let mut parts: Vec<String> = Vec::new();
    if cut.len() == 0 {
        parts.push(String::new());
        for i in 0..chars.len()
            invariant
                chars@ == s@,
                parts.deep_view() == seq![Seq::<char>::empty()] + s@.take(i as int).map_values(
                    |c: char| seq![c],
                ),
        {
            let ghost before = parts.deep_view();
            let part = text::string_of(&chars, i, i + 1);
            assert(part@ =~= seq![s@[i as int]]);
            parts.push(part);
            assert(parts.deep_view() =~= before.push(part@));
            assert(s@.take(i + 1) =~= s@.take(i as int).push(s@[i as int]));
        }
        let ghost before = parts.deep_view();
        parts.push(String::new());
        assert(parts.deep_view() =~= before.push(Seq::<char>::empty()));
        assert(s@.take(s@.len() as int) =~= s@);
        return parts;
    }
    let n: usize = chars.len();
    let m: usize = cut.len();
    let mut start: usize = 0;
    let mut i: usize = 0;
    assert(s@.skip(0) =~= s@);
    while n - i >= m
        invariant
            chars@ == s@,
            cut@ == delimiter@,
            n == chars.len(),
            m == cut.len() > 0,
            start <= i <= n,
            forall|j: int| start <= j < i ==> !#[trigger] occurs_at(s@, delimiter@, j),
            pieces(s@, delimiter@) == parts.deep_view() + pieces(
                s@.skip(start as int),
                delimiter@,
            ),
        decreases n - i,
    {
        if matches_at(&chars, &cut, i) {
            let ghost before = parts.deep_view();
            let part = text::string_of(&chars, start, i);
            parts.push(part);
            proof {
                lemma_next_piece(s@, delimiter@, start as int, Some(i as int));
                assert(parts.deep_view() =~= before.push(part@));
            }
            i = i + m;
            start = i;
        } else {
            i = i + 1;
        }
    }
    let ghost before = parts.deep_view();
    let part = text::string_of(&chars, start, n);
    parts.push(part);
    proof {
        lemma_next_piece(s@, delimiter@, start as int, None);
        assert(part@ =~= s@.skip(start as int));
        assert(parts.deep_view() =~= before.push(part@));
    }
    parts
}

/// What comes of `s` from `start` on, given where the delimiter next occurs in it.
proof fn lemma_next_piece(s: Seq<char>, delimiter: Seq<char>, start: int, next: Option<int>)
    requires
        delimiter.len() > 0,
        0 <= start <= s.len(),
        match next {
            Some(i) => start <= i && occurs_at(s, delimiter, i) && forall|j: int|
                start <= j < i ==> !#[trigger] occurs_at(s, delimiter, j),
            None => forall|j: int| start <= j ==> !#[trigger] occurs_at(s, delimiter, j),
        },
    ensures
        match next {
            Some(i) => pieces(s.skip(start), delimiter) == seq![s.subrange(start, i)] + pieces(
                s.skip(i + delimiter.len()),
                delimiter,
            ),
            None => pieces(s.skip(start), delimiter) == seq![s.skip(start)],
        },
{
    let rest = s.skip(start);
    lemma_first_occurrence(rest, delimiter);
    assert forall|j: int| 0 <= j implies #[trigger] occurs_at(rest, delimiter, j) == occurs_at(
        s,
        delimiter,
        start + j,
    ) by {
        if start + j + delimiter.len() <= s.len() {
            assert(rest.subrange(j, j + delimiter.len()) =~= s.subrange(
                start + j,
                start + j + delimiter.len(),
            ));
        }
    }
    match next {
        Some(i) => {
            assert(occurs_at(rest, delimiter, i - start));
            assert(first_occurrence(rest, delimiter) == Some(i - start)) by {
                match first_occurrence(rest, delimiter) {
                    Some(k) => {
                        if k < i - start {
                            assert(occurs_at(s, delimiter, start + k));
                        }
                    },
                    None => {},
                }
            }
            assert(rest.take(i - start) =~= s.subrange(start, i));
            assert(rest.skip(i - start + delimiter.len()) =~= s.skip(i + delimiter.len()));
        },
        None => {
            match first_occurrence(rest, delimiter) {
                Some(k) => {
                    assert(occurs_at(s, delimiter, start + k));
                },
                None => {},
            }
        },
    }
}

/// A delimiter stands where its characters stand, one behind the other.
pub proof fn lemma_occurs_at(s: Seq<char>, delimiter: Seq<char>, i: int)
    ensures
        occurs_at(s, delimiter, i) <==> {
            &&& 0 <= i
            &&& i + delimiter.len() <= s.len()
            &&& forall|j: int| 0 <= j < delimiter.len() ==> s[i + j] == #[trigger] delimiter[j]
        },
{
    if 0 <= i && i + delimiter.len() <= s.len() {
        let there = s.subrange(i, i + delimiter.len());
        if there == delimiter {
            assert forall|j: int| 0 <= j < delimiter.len() implies s[i + j]
                == #[trigger] delimiter[j] by {
                assert(there[j] == s[i + j]);
            }
        }
        if forall|j: int| 0 <= j < delimiter.len() ==> s[i + j] == #[trigger] delimiter[j] {
            assert(there =~= delimiter);
        }
    }
}

/// The first piece is what stands before the first delimiter, and the others are the pieces of
/// what stands behind it; a string without the delimiter is its only piece. An empty delimiter
/// cuts around every character.
pub proof fn lemma_pieces_of_parts(first: Seq<char>, delimiter: Seq<char>, rest: Seq<char>)
    requires
        forall|i: int| 0 <= i < first.len() ==> !#[trigger] occurs_at(first + delimiter, delimiter, i),
    ensures
        delimiter.len() > 0 ==> {
            &&& pieces(first + delimiter + rest, delimiter) == seq![first] + pieces(rest, delimiter)
            &&& pieces(first, delimiter) == seq![first]
        },
        delimiter.len() == 0 ==> {
            let parts = pieces(rest, delimiter);
            &&& parts.len() == rest.len() + 2
            &&& parts[0].len() == 0
            &&& parts.last().len() == 0
            &&& forall|i: int| 0 <= i < rest.len() ==> parts[i + 1] == seq![#[trigger] rest[i]]
        },
{
    if delimiter.len() > 0 {
        let all = first + delimiter + rest;
        let near = first + delimiter;
        let n = first.len() as int;
        assert(all.subrange(n, n + delimiter.len()) =~= delimiter);
        assert forall|i: int| 0 <= i < n implies !#[trigger] occurs_at(all, delimiter, i) by {
            assert(all.subrange(i, i + delimiter.len()) =~= near.subrange(
                i,
                i + delimiter.len(),
            ));
            assert(!occurs_at(near, delimiter, i));
        }
        assert(all.skip(0) =~= all);
        lemma_next_piece(all, delimiter, 0, Some(n));
        assert(all.subrange(0, n) =~= first);
        assert(all.skip(n + delimiter.len()) =~= rest);
        assert forall|i: int| 0 <= i implies !#[trigger] occurs_at(first, delimiter, i) by {
            if occurs_at(first, delimiter, i) {
                assert(first.subrange(i, i + delimiter.len()) =~= near.subrange(
                    i,
                    i + delimiter.len(),
                ));
                assert(occurs_at(near, delimiter, i));
            }
        }
        assert(first.skip(0) =~= first);
        lemma_next_piece(first, delimiter, 0, None);
    } else {
        let parts = pieces(rest, delimiter);
        assert forall|i: int| 0 <= i < rest.len() implies parts[i + 1] == seq![
            #[trigger] rest[i],
        ] by {
        }
    }
}

} // verus!

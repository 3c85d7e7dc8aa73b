//! Spreading a row over the values that a column lists.
use crate::pieces;
use vstd::prelude::*;

verus! {

/// The cells of a row, each with the name of its column.
pub type Cells = Seq<(Seq<char>, Seq<char>)>;

/// A column to split: its name, the name of the column that takes the parts, the delimiter.
pub type SplitRule = (Seq<char>, Seq<char>, Seq<char>);

/// The cells of a record under the headers; what either has beyond the other is left out.
pub open spec fn zipped(headers: Seq<Seq<char>>, record: Seq<Seq<char>>) -> Cells {
    Seq::new(
        if headers.len() <= record.len() {
            headers.len()
        } else {
            record.len()
        },
        |i: int| (headers[i], record[i]),
    )
}

/// The first place of `name` among the headers.
pub open spec fn position(headers: Seq<Seq<char>>, name: Seq<char>) -> Option<int>
    decreases headers.len(),
{
    if headers.len() == 0 {
        None
    } else if headers[0] == name {
        Some(0)
    } else {
        match position(headers.drop_first(), name) {
            Some(i) => Some(i + 1),
            None => None,
        }
    }
}

/// One row for each piece of the cell at `at`, the piece added under `name`.
pub open spec fn split_row(
    row: Cells,
    at: int,
    name: Seq<char>,
    delimiter: Seq<char>,
) -> Seq<Cells> {
    pieces::pieces(row[at].1, delimiter).map_values(|part: Seq<char>| row.push((name, part)))
}

/// Each row split in turn.
pub open spec fn split_rows(
    rows: Seq<Cells>,
    at: int,
    name: Seq<char>,
    delimiter: Seq<char>,
) -> Seq<Cells>
    decreases rows.len(),
{
    if rows.len() == 0 {
        Seq::empty()
    } else {
        split_rows(rows.drop_last(), at, name, delimiter) + split_row(
            rows.last(),
            at,
            name,
            delimiter,
        )
    }
}

/// The rows after every rule of `rules` whose column is among the headers.
pub open spec fn split_all(
    rules: Seq<SplitRule>,
    headers: Seq<Seq<char>>,
    row: Cells,
) -> Seq<Cells>
    decreases rules.len(),
{
    if rules.len() == 0 {
        seq![row]
    } else {
        let before = split_all(rules.drop_last(), headers, row);
        match position(headers, rules.last().0) {
            Some(at) => split_rows(before, at, rules.last().1, rules.last().2),
            None => before,
        }
    }
}

/// The rules whose column is among the headers.
pub open spec fn applied(rules: Seq<SplitRule>, headers: Seq<Seq<char>>) -> Seq<SplitRule>
    decreases rules.len(),
{
    if rules.len() == 0 {
        Seq::empty()
    } else {
        let before = applied(rules.drop_last(), headers);
        match position(headers, rules.last().0) {
            Some(_) => before.push(rules.last()),
            None => before,
        }
    }
}

/// Whether each rule that applies finds its cell in rows that start with `width` cells and
/// gain one with every rule before it.
pub open spec fn rules_fit(
    rules: Seq<SplitRule>,
    headers: Seq<Seq<char>>,
    width: nat,
) -> bool
    decreases rules.len(),
{
    rules.len() == 0 || {
        &&& rules_fit(rules.drop_last(), headers, width)
        &&& match position(headers, rules.last().0) {
            Some(at) => at < width + applied(rules.drop_last(), headers).len(),
            None => true,
        }
    }
}

/// What `position` gives is the first header that is `name`; where it gives none, no header is.
pub proof fn lemma_position(headers: Seq<Seq<char>>, name: Seq<char>)
    ensures
        match position(headers, name) {
            Some(i) => 0 <= i < headers.len() && headers[i] == name && forall|j: int|
                0 <= j < i ==> #[trigger] headers[j] != name,
            None => forall|j: int| 0 <= j < headers.len() ==> #[trigger] headers[j] != name,
        },
    decreases headers.len(),
{
    if headers.len() > 0 && headers[0] != name {
        let rest = headers.drop_first();
        lemma_position(rest, name);
        assert forall|j: int| 1 <= j < headers.len() implies #[trigger] headers[j] == rest[j - 1] by {
        }
    }
}

/// Splitting keeps a row's cells and adds one for every rule that applies, under the name
/// that the rule gives.
pub proof fn lemma_split_keeps_cells(
    rules: Seq<SplitRule>,
    headers: Seq<Seq<char>>,
    row: Cells,
    r: int,
)
    requires
        0 <= r < split_all(rules, headers, row).len(),
    ensures
        split_all(rules, headers, row)[r].len() == row.len() + applied(rules, headers).len(),
        split_all(rules, headers, row)[r].take(row.len() as int) == row,
        forall|k: int|
            0 <= k < applied(rules, headers).len() ==> (#[trigger] split_all(
                rules,
                headers,
                row,
            )[r][row.len() + k]).0 == applied(rules, headers)[k].1,
    decreases rules.len(),
{
    if rules.len() > 0 {
        let before = split_all(rules.drop_last(), headers, row);
        match position(headers, rules.last().0) {
            Some(at) => {
                let source = lemma_split_rows_source(before, at, rules.last().1, rules.last().2, r);
                lemma_split_keeps_cells(rules.drop_last(), headers, row, source);
                let longer = split_all(rules, headers, row)[r];
                assert(longer.take(row.len() as int) =~= before[source].take(row.len() as int));
                assert forall|k: int| 0 <= k < applied(rules, headers).len() implies (
                #[trigger] longer[row.len() + k]).0 == applied(rules, headers)[k].1 by {
                    if k < applied(rules.drop_last(), headers).len() {
                        assert(longer[row.len() + k] == before[source][row.len() + k]);
                    }
                }
            },
            None => {
                lemma_split_keeps_cells(rules.drop_last(), headers, row, r);
            },
        }
    } else {
        assert(row.take(row.len() as int) =~= row);
    }
}

/// Each row that a split gives is one of the rows before it with one more cell, which holds a
/// piece of the cell at `at`.
proof fn lemma_split_rows_source(
    rows: Seq<Cells>,
    at: int,
    name: Seq<char>,
    delimiter: Seq<char>,
    r: int,
) -> (source: int)
    requires
        0 <= r < split_rows(rows, at, name, delimiter).len(),
    ensures
        0 <= source < rows.len(),
        exists|p: int|
            0 <= p < pieces::pieces(rows[source][at].1, delimiter).len() && split_rows(
                rows,
                at,
                name,
                delimiter,
            )[r] == rows[source].push(
                (name, #[trigger] pieces::pieces(rows[source][at].1, delimiter)[p]),
            ),
    decreases rows.len(),
{
    let first = split_rows(rows.drop_last(), at, name, delimiter);
    if r < first.len() {
        let source = lemma_split_rows_source(rows.drop_last(), at, name, delimiter, r);
        assert(rows.drop_last()[source] == rows[source]);
        source
    } else {
        let source = rows.len() - 1;
        let parts = pieces::pieces(rows[source][at].1, delimiter);
        assert(split_rows(rows, at, name, delimiter)[r] == rows[source].push(
            (name, parts[r - first.len()]),
        ));
        source
    }
}

/// In how many rows `rules` leave a row whose cells they read: the product of the numbers of
/// pieces.
pub open spec fn spread(
    rules: Seq<SplitRule>,
    headers: Seq<Seq<char>>,
    row: Cells,
) -> nat
    decreases rules.len(),
{
    if rules.len() == 0 {
        1
    } else {
        let before = spread(rules.drop_last(), headers, row);
        match position(headers, rules.last().0) {
            Some(at) => before * pieces::pieces(row[at].1, rules.last().2).len(),
            None => before,
        }
    }
}

/// Where every rule reads a cell of the record itself, the row is spread over every
/// combination of the pieces.
pub proof fn lemma_split_multiplies(
    rules: Seq<SplitRule>,
    headers: Seq<Seq<char>>,
    row: Cells,
)
    requires
        forall|k: int|
            #![trigger rules[k]]
            0 <= k < rules.len() ==> match position(headers, rules[k].0) {
                Some(at) => at < row.len(),
                None => true,
            },
    ensures
        split_all(rules, headers, row).len() == spread(rules, headers, row),
    decreases rules.len(),
{
    if rules.len() > 0 {
        let fewer = rules.drop_last();
        assert forall|k: int|
            #![trigger fewer[k]]
            0 <= k < fewer.len() implies match position(headers, fewer[k].0) {
            Some(at) => at < row.len(),
            None => true,
        } by {
            assert(fewer[k] == rules[k]);
        }
        lemma_split_multiplies(fewer, headers, row);
        let before = split_all(fewer, headers, row);
        let last = rules[rules.len() - 1];
        match position(headers, last.0) {
            Some(at) => {
                lemma_position(headers, last.0);
                assert forall|r: int| 0 <= r < before.len() implies (#[trigger] before[r])[at]
                    == row[at] by {
                    lemma_split_keeps_cells(fewer, headers, row, r);
                    assert(before[r].take(row.len() as int)[at] == row[at]);
                }
                lemma_split_rows_count(before, at, last.1, last.2, row[at].1);
            },
            None => {},
        }
    }
}

proof fn lemma_split_rows_count(
    rows: Seq<Cells>,
    at: int,
    name: Seq<char>,
    delimiter: Seq<char>,
    cell: Seq<char>,
)
    requires
        forall|r: int| 0 <= r < rows.len() ==> (#[trigger] rows[r])[at].1 == cell,
    ensures
        split_rows(rows, at, name, delimiter).len() == rows.len() * pieces::pieces(
            cell,
            delimiter,
        ).len(),
    decreases rows.len(),
{
    let n = pieces::pieces(cell, delimiter).len();
    if rows.len() > 0 {
        let fewer = rows.drop_last();
        assert forall|r: int| 0 <= r < fewer.len() implies (#[trigger] fewer[r])[at].1 == cell by {
            assert(fewer[r] == rows[r]);
        }
        lemma_split_rows_count(fewer, at, name, delimiter, cell);
        assert(rows.len() * n == (rows.len() - 1) * n + n) by (nonlinear_arith);
    } else {
        assert(0 * n == 0);
    }
}

/// Where no rule names a column of the table, the row stays as it is, and alone.
pub proof fn lemma_split_without_columns(
    rules: Seq<SplitRule>,
    headers: Seq<Seq<char>>,
    row: Cells,
)
    requires
        forall|k: int|
            0 <= k < rules.len() ==> !headers.contains((#[trigger] rules[k]).0),
    ensures
        split_all(rules, headers, row) == seq![row],
    decreases rules.len(),
{
    if rules.len() > 0 {
        let fewer = rules.drop_last();
        assert forall|k: int| 0 <= k < fewer.len() implies !headers.contains(
            (#[trigger] fewer[k]).0,
        ) by {
            assert(fewer[k] == rules[k]);
        }
        lemma_split_without_columns(fewer, headers, row);
        lemma_position(headers, rules[rules.len() - 1].0);
    }
}

/// Under the headers stand the cells of the record, as many as both have.
pub proof fn lemma_zipped(headers: Seq<Seq<char>>, record: Seq<Seq<char>>, i: int)
    ensures
        zipped(headers, record).len() <= headers.len(),
        zipped(headers, record).len() <= record.len(),
        zipped(headers, record).len() == headers.len() || zipped(headers, record).len()
            == record.len(),
        0 <= i < zipped(headers, record).len() ==> zipped(headers, record)[i] == (
            headers[i],
            record[i],
        ),
{
}

/// Splitting one row gives a row for each piece of the cell, in order: the row with the piece
/// added. Splitting rows in two parts gives the rows of the one part and then of the other.
pub proof fn lemma_split_rows_of_parts(
    first: Seq<Cells>,
    second: Seq<Cells>,
    row: Cells,
    at: int,
    name: Seq<char>,
    delimiter: Seq<char>,
    p: int,
)
    ensures
        split_rows(first + second, at, name, delimiter) == split_rows(first, at, name, delimiter)
            + split_rows(second, at, name, delimiter),
        split_rows(seq![row], at, name, delimiter).len() == pieces::pieces(
            row[at].1,
            delimiter,
        ).len(),
        0 <= p < pieces::pieces(row[at].1, delimiter).len() ==> {
            let longer = split_rows(seq![row], at, name, delimiter)[p];
            &&& longer.len() == row.len() + 1
            &&& longer.take(row.len() as int) == row
            &&& longer[row.len() as int] == (name, pieces::pieces(row[at].1, delimiter)[p])
        },
    decreases second.len(),
{
    if second.len() == 0 {
        assert(first + second =~= first);
        assert(split_rows(first, at, name, delimiter) + split_rows(second, at, name, delimiter)
            =~= split_rows(first, at, name, delimiter));
    } else {
        lemma_split_rows_of_parts(first, second.drop_last(), row, at, name, delimiter, p);
        assert((first + second).drop_last() =~= first + second.drop_last());
        assert(split_rows(first + second, at, name, delimiter) =~= split_rows(
            first,
            at,
            name,
            delimiter,
        ) + split_rows(second, at, name, delimiter));
    }
    let one = seq![row];
    assert(one.drop_last().len() == 0);
    assert(split_rows(one.drop_last(), at, name, delimiter).len() == 0);
    let added = split_rows(one, at, name, delimiter);
    assert(added =~= split_row(row, at, name, delimiter));
    if 0 <= p < pieces::pieces(row[at].1, delimiter).len() {
        assert(added[p].take(row.len() as int) =~= row);
    }
}

/// One rule more splits each row that the rules before it gave, at the first header that it
/// names, and changes nothing where no header is that; without rules there is one row.
pub proof fn lemma_one_rule_more(
    rules: Seq<SplitRule>,
    rule: SplitRule,
    headers: Seq<Seq<char>>,
    row: Cells,
    at: int,
)
    ensures
        split_all(Seq::empty(), headers, row) == seq![row],
        !headers.contains(rule.0) ==> split_all(rules.push(rule), headers, row) == split_all(
            rules,
            headers,
            row,
        ),
        0 <= at < headers.len() && headers[at] == rule.0 && !headers.take(at).contains(rule.0)
            ==> split_all(rules.push(rule), headers, row) == split_rows(
            split_all(rules, headers, row),
            at,
            rule.1,
            rule.2,
        ),
{
    assert(rules.push(rule).drop_last() =~= rules);
    lemma_position(headers, rule.0);
    if 0 <= at < headers.len() && headers[at] == rule.0 && !headers.take(at).contains(rule.0) {
        let found = position(headers, rule.0)->0;
        if found < at {
            assert(headers.take(at)[found] == rule.0);
        }
    }
}

/// The place of a combination of pieces among all of them: the last piece varies fastest.
pub open spec fn place(counts: Seq<nat>, choice: Seq<int>) -> int
    decreases choice.len(),
{
    if choice.len() == 0 || counts.len() == 0 {
        0
    } else {
        place(counts.drop_last(), choice.drop_last()) * counts.last() + choice.last()
    }
}

/// Whether a combination takes one of the pieces of each list.
pub open spec fn is_choice(counts: Seq<nat>, choice: Seq<int>) -> bool {
    &&& choice.len() == counts.len()
    &&& forall|k: int| 0 <= k < choice.len() ==> 0 <= #[trigger] choice[k] < counts[k]
}

/// Different combinations have different places.
pub proof fn lemma_places_differ(counts: Seq<nat>, choice: Seq<int>, other: Seq<int>)
    requires
        is_choice(counts, choice),
        is_choice(counts, other),
        place(counts, choice) == place(counts, other),
    ensures
        choice == other,
    decreases choice.len(),
{
    if choice.len() == 0 {
        assert(choice =~= other);
    } else {
        let (a, b) = (choice.drop_last(), other.drop_last());
        let n = counts.last() as int;
        let (x, y) = (place(counts.drop_last(), a), place(counts.drop_last(), b));
        assert(0 <= choice[choice.len() - 1] < n && 0 <= other[other.len() - 1] < n);
        assert(is_choice(counts.drop_last(), a)) by {
            assert forall|k: int| 0 <= k < a.len() implies 0 <= #[trigger] a[k]
                < counts.drop_last()[k] by {
                assert(a[k] == choice[k]);
            }
        }
        assert(is_choice(counts.drop_last(), b)) by {
            assert forall|k: int| 0 <= k < b.len() implies 0 <= #[trigger] b[k]
                < counts.drop_last()[k] by {
                assert(b[k] == other[k]);
            }
        }
        assert(x == y) by (nonlinear_arith)
            requires
                x * n + choice.last() == y * n + other.last(),
                0 <= choice.last() < n,
                0 <= other.last() < n,
        ;
        lemma_places_differ(counts.drop_last(), a, b);
        assert(choice =~= a.push(choice.last()));
        assert(other =~= b.push(other.last()));
    }
}

/// Whether the columns of the rules stand at these places, each at the first header that is it, in
/// rows of `width` cells.
pub open spec fn are_places(
    rules: Seq<SplitRule>,
    places: Seq<int>,
    headers: Seq<Seq<char>>,
    width: nat,
) -> bool {
    &&& places.len() == rules.len()
    &&& forall|k: int|
        0 <= k < rules.len() ==> {
            &&& 0 <= #[trigger] places[k] < headers.len()
            &&& places[k] < width
            &&& headers[places[k]] == rules[k].0
            &&& !headers.take(places[k]).contains(rules[k].0)
        }
}

/// Where every rule splits a cell of the record, each combination of the pieces of the split
/// cells stands in a row: at its place, with its pieces behind the cells of the record; and there
/// are no more rows than combinations.
pub proof fn lemma_every_combination(
    rules: Seq<SplitRule>,
    places: Seq<int>,
    headers: Seq<Seq<char>>,
    row: Cells,
    choice: Seq<int>,
)
    requires
        are_places(rules, places, headers, row.len()),
        is_choice(
            Seq::new(rules.len(), |k: int| pieces::pieces(row[places[k]].1, rules[k].2).len()),
            choice,
        ),
    ensures
        ({
            let counts = Seq::new(
                rules.len(),
                |k: int| pieces::pieces(row[places[k]].1, rules[k].2).len(),
            );
            let rows = split_all(rules, headers, row);
            &&& 0 <= place(counts, choice) < rows.len()
            &&& rows[place(counts, choice)] == row + Seq::new(
                rules.len(),
                |k: int| (rules[k].1, pieces::pieces(row[places[k]].1, rules[k].2)[choice[k]]),
            )
            &&& rules.len() > 0 ==> rows.len() == split_all(
                rules.drop_last(),
                headers,
                row,
            ).len() * counts.last()
        }),
    decreases rules.len(),
{
    let counts = Seq::new(
        rules.len(),
        |k: int| pieces::pieces(row[places[k]].1, rules[k].2).len(),
    );
    let rows = split_all(rules, headers, row);
    let added = Seq::new(
        rules.len(),
        |k: int| (rules[k].1, pieces::pieces(row[places[k]].1, rules[k].2)[choice[k]]),
    );
    if rules.len() == 0 {
        assert(row + added =~= row);
        assert(rows[0] == row);
    } else {
        let n = rules.len() - 1;
        let (fewer, less, short) = (rules.drop_last(), places.drop_last(), choice.drop_last());
        let rule = rules[n];
        let at = places[n];
        let before = split_all(fewer, headers, row);
        let fewer_counts = Seq::new(
            fewer.len(),
            |k: int| pieces::pieces(row[less[k]].1, fewer[k].2).len(),
        );
        assert(fewer_counts =~= counts.drop_last());
        assert(are_places(fewer, less, headers, row.len())) by {
            assert forall|k: int| 0 <= k < fewer.len() implies {
                &&& 0 <= #[trigger] less[k] < headers.len()
                &&& less[k] < row.len()
                &&& headers[less[k]] == fewer[k].0
                &&& !headers.take(less[k]).contains(fewer[k].0)
            } by {
                assert(fewer[k] == rules[k] && less[k] == places[k]);
            }
        }
        assert(0 <= places[n] < headers.len());
        assert(is_choice(fewer_counts, short)) by {
            assert forall|k: int| 0 <= k < short.len() implies 0 <= #[trigger] short[k]
                < fewer_counts[k] by {
                assert(short[k] == choice[k]);
                assert(fewer_counts[k] == counts[k]);
            }
        }
        lemma_every_combination(fewer, less, headers, row, short);
        lemma_one_rule_more(fewer, rule, headers, row, at);
        assert(fewer.push(rule) =~= rules);
        assert forall|r: int| 0 <= r < before.len() implies (#[trigger] before[r])[at].1
            == row[at].1 by {
            lemma_split_keeps_cells(fewer, headers, row, r);
            assert(before[r].take(row.len() as int)[at] == row[at]);
        }
        lemma_split_rows_count(before, at, rule.1, rule.2, row[at].1);
        let r = place(fewer_counts, short);
        let p = choice[n];
        assert(0 <= p < counts[n]);
        lemma_split_rows_place(before, at, rule.1, rule.2, row[at].1, r, p);
        let fewer_added = Seq::new(
            fewer.len(),
            |k: int| (fewer[k].1, pieces::pieces(row[less[k]].1, fewer[k].2)[short[k]]),
        );
        assert(added =~= fewer_added.push(added[n]));
        assert((row + fewer_added).push(added[n]) =~= row + added);
    }
}

proof fn lemma_split_rows_place(
    rows: Seq<Cells>,
    at: int,
    name: Seq<char>,
    delimiter: Seq<char>,
    cell: Seq<char>,
    r: int,
    p: int,
)
    requires
        forall|r: int| 0 <= r < rows.len() ==> (#[trigger] rows[r])[at].1 == cell,
        0 <= r < rows.len(),
        0 <= p < pieces::pieces(cell, delimiter).len(),
    ensures
        ({
            let n = pieces::pieces(cell, delimiter).len();
            let split = split_rows(rows, at, name, delimiter);
            &&& 0 <= r * n + p < split.len()
            &&& split[r * n + p] == rows[r].push((name, pieces::pieces(cell, delimiter)[p]))
        }),
    decreases rows.len(),
{
    let n = pieces::pieces(cell, delimiter).len() as int;
    let fewer = rows.drop_last();
    assert forall|r: int| 0 <= r < fewer.len() implies (#[trigger] fewer[r])[at].1 == cell by {
        assert(fewer[r] == rows[r]);
    }
    lemma_split_rows_count(fewer, at, name, delimiter, cell);
    lemma_split_rows_count(rows, at, name, delimiter, cell);
    assert(0 <= r * n + p < rows.len() * n) by (nonlinear_arith)
        requires
            0 <= r < rows.len(),
            0 <= p < n,
    ;
    if r < fewer.len() {
        lemma_split_rows_place(fewer, at, name, delimiter, cell, r, p);
        assert(fewer[r] == rows[r]);
    } else {
        assert(rows[r] == rows.last());
        assert(r * n == fewer.len() * n) by (nonlinear_arith)
            requires
                r == fewer.len(),
        ;
    }
}

/// The rules that apply are those whose column is among the headers, in order.
pub proof fn lemma_applied(rules: Seq<SplitRule>, rule: SplitRule, headers: Seq<Seq<char>>)
    ensures
        applied(Seq::empty(), headers) == Seq::<SplitRule>::empty(),
        applied(rules.push(rule), headers) == (if headers.contains(rule.0) {
            applied(rules, headers).push(rule)
        } else {
            applied(rules, headers)
        }),
{
    assert(rules.push(rule).drop_last() =~= rules);
    lemma_position(headers, rule.0);
    if headers.contains(rule.0) {
        let i = choose|i: int| 0 <= i < headers.len() && headers[i] == rule.0;
        assert(headers[i] == rule.0);
    }
}

/// Rules fit a row where each of them, if a header is its column, finds a cell at the place of the
/// first such header in every row that the rules before it gave.
pub proof fn lemma_rules_fit(
    rules: Seq<SplitRule>,
    rule: SplitRule,
    headers: Seq<Seq<char>>,
    row: Cells,
    at: int,
)
    ensures
        rules_fit(Seq::empty(), headers, row.len()),
        !headers.contains(rule.0) ==> rules_fit(rules.push(rule), headers, row.len()) == rules_fit(
            rules,
            headers,
            row.len(),
        ),
        0 <= at < headers.len() && headers[at] == rule.0 && !headers.take(at).contains(rule.0) ==> (
        rules_fit(rules.push(rule), headers, row.len()) <==> rules_fit(rules, headers, row.len())
            && forall|r: int|
            0 <= r < split_all(rules, headers, row).len() ==> at < (#[trigger] split_all(
                rules,
                headers,
                row,
            )[r]).len()),
{
    assert(rules.push(rule).drop_last() =~= rules);
    lemma_position(headers, rule.0);
    if 0 <= at < headers.len() && headers[at] == rule.0 && !headers.take(at).contains(rule.0) {
        let found = position(headers, rule.0)->0;
        if found < at {
            assert(headers.take(at)[found] == rule.0);
        }
        let rows = split_all(rules, headers, row);
        assert forall|r: int| 0 <= r < rows.len() implies (#[trigger] rows[r]).len() == row.len()
            + applied(rules, headers).len() by {
            lemma_split_keeps_cells(rules, headers, row, r);
        }
        lemma_some_row(rules, headers, row);
        assert(rows[0].len() == row.len() + applied(rules, headers).len());
    }
}

/// Splitting leaves no row without a trace: there is always one row at least.
pub proof fn lemma_some_row(rules: Seq<SplitRule>, headers: Seq<Seq<char>>, row: Cells)
    ensures
        split_all(rules, headers, row).len() > 0,
    decreases rules.len(),
{
    if rules.len() > 0 {
        lemma_some_row(rules.drop_last(), headers, row);
        let before = split_all(rules.drop_last(), headers, row);
        match position(headers, rules.last().0) {
            Some(at) => {
                pieces::lemma_pieces_join(before.last()[at].1, rules.last().2);
            },
            None => {},
        }
    }
}

fn position_of(headers: &[String], name: &String) -> (at: Option<usize>)
    ensures
        match at {
            Some(i) => position(headers.deep_view(), name@) == Some(i as int) && i < headers@.len(),
            None => position(headers.deep_view(), name@) is None,
        },
{
    proof {
        lemma_position(headers.deep_view(), name@);
    }
    for i in 0..headers.len()
        invariant
            forall|j: int| 0 <= j < i ==> (#[trigger] headers.deep_view()[j]) != name@,
            match position(headers.deep_view(), name@) {
                Some(i) => 0 <= i < headers@.len() && headers.deep_view()[i] == name@ && forall|
                    j: int,
                |
                    0 <= j < i ==> #[trigger] headers.deep_view()[j] != name@,
                None => forall|j: int|
                    0 <= j < headers@.len() ==> #[trigger] headers.deep_view()[j] != name@,
            },
    {
        assert(headers.deep_view()[i as int] == headers[i as int]@);
        if headers[i] == *name {
            return Some(i);
        }
    }
    None
}

fn copy_cells(row: &Vec<(String, String)>) -> (copy: Vec<(String, String)>)
    ensures
        copy.deep_view() == row.deep_view(),
{
    let mut copy: Vec<(String, String)> = Vec::new();
    for i in 0..row.len()
        invariant
            copy.len() == i,
            forall|j: int| 0 <= j < i ==> (#[trigger] copy[j]).deep_view() == row[j].deep_view(),
    {
        copy.push((row[i].0.clone(), row[i].1.clone()));
    }
    assert(copy.deep_view() =~= row.deep_view());
    copy
}

/// Whether `apply_split` finds the cell of every rule in a record of `width` cells.
pub fn split_fits(
    split: &[(String, String, String)],
    headers: &[String],
    width: usize,
) -> (r: bool)
    ensures
        r == rules_fit(split.deep_view(), headers.deep_view(), width as nat),
{
    let ghost rules = split.deep_view();
    let ghost names = headers.deep_view();
    let mut found: usize = 0;
    let mut fits: bool = true;
    for k in 0..split.len()
        invariant
            rules == split.deep_view(),
            names == headers.deep_view(),
            found == applied(rules.take(k as int), names).len(),
            found <= k,
            fits == rules_fit(rules.take(k as int), names, width as nat),
    {
        assert(rules.take(k + 1).drop_last() =~= rules.take(k as int));
        assert(rules.take(k + 1).last().0 == split[k as int].0@);
        match position_of(headers, &split[k].0) {
            Some(at) => {
                if at >= width && at - width >= found {
                    fits = false;
                }
                found = found + 1;
            },
            None => {},
        }
    }
    assert(rules.take(rules.len() as int) =~= rules);
    fits
}

/// The rows that a record stands for: the cells of the record under the headers, spread over
/// the parts of each column that `split` names. A rule whose column is not among the headers
/// changes nothing.
pub fn apply_split(
    split: &[(String, String, String)],
    record: &[String],
    headers: &[String],
) -> (rows: Vec<Vec<(String, String)>>)
    requires
        rules_fit(
            split.deep_view(),
            headers.deep_view(),
            zipped(headers.deep_view(), record.deep_view()).len(),
        ),
    ensures
        rows.deep_view() == split_all(
            split.deep_view(),
            headers.deep_view(),
            zipped(headers.deep_view(), record.deep_view()),
        ),
{
    let ghost rules = split.deep_view();
    let ghost names = headers.deep_view();
    let ghost base = zipped(names, record.deep_view());
    let width: usize = if headers.len() <= record.len() {
        headers.len()
    } else {
        record.len()
    };
    let mut row: Vec<(String, String)> = Vec::new();
    for i in 0..width
        invariant
            width == base.len(),
            width <= headers@.len(),
            width <= record@.len(),
            base == zipped(headers.deep_view(), record.deep_view()),
            row.len() == i,
            forall|j: int| 0 <= j < i ==> (#[trigger] row[j]).deep_view() == base[j],
    {
        row.push((headers[i].clone(), record[i].clone()));
    }
    assert(row.deep_view() =~= base);
    let mut bindings: Vec<Vec<(String, String)>> = Vec::new();
    bindings.push(row);
    assert(bindings.deep_view() =~= seq![base]);
    assert(rules.take(0) =~= Seq::empty());
    assert(rules.take(rules.len() as int) =~= rules);
    for k in 0..split.len()
        invariant
            rules == split.deep_view(),
            names == headers.deep_view(),
            rules_fit(rules, names, base.len()),
            bindings.deep_view() == split_all(rules.take(k as int), names, base),
    {
        proof {
            lemma_fit_of_prefix(rules, names, base.len(), k + 1);
            assert(rules.take(k + 1).drop_last() =~= rules.take(k as int));
            assert(rules.take(k + 1).last() == split[k as int].deep_view());
        }
        match position_of(headers, &split[k].0) {
            None => {},
            Some(at) => {
                let mut next: Vec<Vec<(String, String)>> = Vec::new();
                let ghost before = bindings.deep_view();
                assert(before.take(0) =~= Seq::empty());
                for r in 0..bindings.len()
                    invariant
                        rules == split.deep_view(),
                        names == headers.deep_view(),
                        k < split@.len(),
                        before == bindings.deep_view(),
                        before == split_all(rules.take(k as int), names, base),
                        at < base.len() + applied(rules.take(k as int), names).len(),
                        next.deep_view() == split_rows(
                            before.take(r as int),
                            at as int,
                            split[k as int].1@,
                            split[k as int].2@,
                        ),
                {
                    proof {
                        lemma_split_keeps_cells(rules.take(k as int), names, base, r as int);
                        assert(before[r as int].len() == bindings[r as int].len());
                        assert(before.take(r + 1).drop_last() =~= before.take(r as int));
                    }
                    let parts = pieces::pieces_of(bindings[r][at].1.as_str(), split[k].2.as_str());
                    let ghost sofar = next.deep_view();
                    let ghost added = split_row(
                        before[r as int],
                        at as int,
                        split[k as int].1@,
                        split[k as int].2@,
                    );
                    assert(parts.deep_view() == pieces::pieces(
                        before[r as int][at as int].1,
                        split[k as int].2@,
                    ));
                    assert(added.take(0) =~= Seq::empty());
                    for p in 0..parts.len()
                        invariant
                            k < split@.len(),
                            r < bindings.len(),
                            before == bindings.deep_view(),
                            added == split_row(
                                before[r as int],
                                at as int,
                                split[k as int].1@,
                                split[k as int].2@,
                            ),
                            parts.deep_view() == pieces::pieces(
                                before[r as int][at as int].1,
                                split[k as int].2@,
                            ),
                            next.deep_view() == sofar + added.take(p as int),
                    {
                        let ghost till = next.deep_view();
                        let mut longer = copy_cells(&bindings[r]);
                        let ghost cells = longer.deep_view();
                        longer.push((split[k].1.clone(), parts[p].clone()));
                        assert(longer.deep_view() =~= cells.push(
                            (split[k as int].1@, parts[p as int]@),
                        ));
                        assert(parts.deep_view()[p as int] == parts[p as int]@);
                        assert(longer.deep_view() == added[p as int]);
                        next.push(longer);
                        assert(next.deep_view() =~= till.push(added[p as int]));
                        assert(added.take(p + 1) =~= added.take(p as int).push(added[p as int]));
                    }
                    assert(added.take(added.len() as int) =~= added);
                }
                assert(before.take(before.len() as int) =~= before);
                bindings = next;
            },
        }
    }
    bindings
}

/// Rules that fit a row fit it also when only the first of them are taken.
proof fn lemma_fit_of_prefix(
    rules: Seq<SplitRule>,
    headers: Seq<Seq<char>>,
    width: nat,
    k: int,
)
    requires
        rules_fit(rules, headers, width),
        0 <= k <= rules.len(),
    ensures
        rules_fit(rules.take(k), headers, width),
    decreases rules.len(),
{
    if k == rules.len() {
        assert(rules.take(k) =~= rules);
    } else {
        lemma_fit_of_prefix(rules.drop_last(), headers, width, k);
        assert(rules.drop_last().take(k) =~= rules.take(k));
    }
}

} // verus!

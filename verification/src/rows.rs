//! The rows of a table: what each gives to the variables of a query.
use crate::patterns;
use crate::prefixes;
use crate::rdf::{Given, Value};
use crate::split;
use crate::text;
use crate::variables::VariableSet;
use vstd::prelude::*;

verus! {

/// The variable that takes the number of a row.
pub const ROW_NUMBER: &'static str = "ROWNUM";

/// Whether a cell is given to the variable of its column: the query mentions it, and it is not
/// blank unless blank cells are bound too.
pub open spec fn is_bound(
    variables: Set<Seq<char>>,
    bind_empty: bool,
    cell: (Seq<char>, Seq<char>),
) -> bool {
    variables.contains(cell.0) && (bind_empty || !text::is_blank(cell.1))
}

/// What the cells of a row give.
pub open spec fn bound_cells(
    variables: Set<Seq<char>>,
    bind_empty: bool,
    row: split::Cells,
) -> Seq<(Seq<char>, Given)> {
    row.filter(|cell: (Seq<char>, Seq<char>)| is_bound(variables, bind_empty, cell)).map_values(
        |cell: (Seq<char>, Seq<char>)| (cell.0, Given::Text(cell.1)),
    )
}

/// What the number of a row gives, if the query asks for it.
pub open spec fn bound_number(variables: Set<Seq<char>>, number: u32) -> Seq<(Seq<char>, Given)> {
    if variables.contains(ROW_NUMBER@) {
        seq![(ROW_NUMBER@, Given::Number(number))]
    } else {
        Seq::empty()
    }
}

/// What a row gives to the variables of a query, in turn: its cells, then its number.
pub open spec fn bound(
    variables: Set<Seq<char>>,
    bind_empty: bool,
    row: split::Cells,
    number: u32,
) -> Seq<(Seq<char>, Given)> {
    bound_cells(variables, bind_empty, row) + bound_number(variables, number)
}

/// The value of each variable that a row gives one.
pub open spec fn row_values(
    variables: Set<Seq<char>>,
    bind_empty: bool,
    row: split::Cells,
    number: u32,
) -> Map<Seq<char>, Given> {
    prefixes::map_of(bound(variables, bind_empty, row, number))
}

proof fn lemma_bound_push(
    variables: Set<Seq<char>>,
    bind_empty: bool,
    row: split::Cells,
    cell: (Seq<char>, Seq<char>),
)
    ensures
        bound_cells(variables, bind_empty, row.push(cell)) == if is_bound(
            variables,
            bind_empty,
            cell,
        ) {
            bound_cells(variables, bind_empty, row).push((cell.0, Given::Text(cell.1)))
        } else {
            bound_cells(variables, bind_empty, row)
        },
{
    reveal(Seq::filter);
    let keep = |cell: (Seq<char>, Seq<char>)| is_bound(variables, bind_empty, cell);
    assert(row.push(cell).drop_last() =~= row);
    assert(row.push(cell).filter(keep) =~= if keep(cell) {
        row.filter(keep).push(cell)
    } else {
        row.filter(keep)
    });
    assert(bound_cells(variables, bind_empty, row.push(cell)) =~= if keep(cell) {
        bound_cells(variables, bind_empty, row).push((cell.0, Given::Text(cell.1)))
    } else {
        bound_cells(variables, bind_empty, row)
    });
}

/// A variable has a value exactly where the query mentions it and a cell of its column is bound,
/// or it is the one that takes the row number.
pub proof fn lemma_row_values(
    variables: Set<Seq<char>>,
    bind_empty: bool,
    row: split::Cells,
    number: u32,
    name: Seq<char>,
)
    ensures
        row_values(variables, bind_empty, row, number).contains_key(name) <==> variables.contains(
            name,
        ) && (name == ROW_NUMBER@ || exists|i: int|
            0 <= i < row.len() && (#[trigger] row[i]).0 == name && is_bound(
                variables,
                bind_empty,
                row[i],
            )),
        variables.contains(ROW_NUMBER@) ==> row_values(variables, bind_empty, row, number)[ROW_NUMBER@]
            == Given::Number(number),
{
    let cells = bound_cells(variables, bind_empty, row);
    let all = bound(variables, bind_empty, row, number);
    lemma_cell_values(variables, bind_empty, row, name);
    if variables.contains(ROW_NUMBER@) {
        assert(all.drop_last() =~= cells);
        assert(all.last() == (ROW_NUMBER@, Given::Number(number)));
    } else {
        assert(all =~= cells);
    }
}

proof fn lemma_cell_values(
    variables: Set<Seq<char>>,
    bind_empty: bool,
    row: split::Cells,
    name: Seq<char>,
)
    ensures
        prefixes::map_of(bound_cells(variables, bind_empty, row)).contains_key(name) <==> exists|
            i: int,
        |
            0 <= i < row.len() && (#[trigger] row[i]).0 == name && is_bound(
                variables,
                bind_empty,
                row[i],
            ),
    decreases row.len(),
{
    if row.len() == 0 {
        reveal(Seq::filter);
        assert(bound_cells(variables, bind_empty, row).len() == 0);
    } else {
        let fewer = row.drop_last();
        let cell = row.last();
        lemma_cell_values(variables, bind_empty, fewer, name);
        lemma_bound_push(variables, bind_empty, fewer, cell);
        assert(row =~= fewer.push(cell));
        let before = bound_cells(variables, bind_empty, fewer);
        if is_bound(variables, bind_empty, cell) {
            assert(bound_cells(variables, bind_empty, row).drop_last() =~= before);
        }
        if exists|i: int|
            0 <= i < fewer.len() && (#[trigger] fewer[i]).0 == name && is_bound(
                variables,
                bind_empty,
                fewer[i],
            ) {
            let i = choose|i: int|
                0 <= i < fewer.len() && (#[trigger] fewer[i]).0 == name && is_bound(
                    variables,
                    bind_empty,
                    fewer[i],
                );
            assert(row[i].0 == name);
        }
        if exists|i: int|
            0 <= i < row.len() && (#[trigger] row[i]).0 == name && is_bound(
                variables,
                bind_empty,
                row[i],
            ) {
            let i = choose|i: int|
                0 <= i < row.len() && (#[trigger] row[i]).0 == name && is_bound(
                    variables,
                    bind_empty,
                    row[i],
                );
            if i < fewer.len() {
                assert(fewer[i].0 == name);
            }
        }
        assert(row[row.len() - 1] == cell);
    }
}

/// A blank cell gives nothing unless blank cells are bound.
pub proof fn lemma_blank_cells_are_skipped(
    variables: Set<Seq<char>>,
    row: split::Cells,
    number: u32,
    name: Seq<char>,
)
    requires
        name != ROW_NUMBER@,
        forall|i: int|
            0 <= i < row.len() && (#[trigger] row[i]).0 == name ==> text::is_blank(row[i].1),
    ensures
        !row_values(variables, false, row, number).contains_key(name),
{
    lemma_row_values(variables, false, row, number, name);
}

/// The cell of a column that the query mentions is given to the variable of that name, if it holds
/// anything but white space or if blank cells are bound too; of several such cells the last one
/// counts. `ROWNUM` takes the number of the row. No other variable has a value.
pub proof fn lemma_what_a_row_gives(
    variables: Set<Seq<char>>,
    bind_empty: bool,
    row: split::Cells,
    number: u32,
    name: Seq<char>,
    i: int,
)
    ensures
        ({
            let values = row_values(variables, bind_empty, row, number);
            &&& variables.contains("ROWNUM"@) ==> values.contains_pair(
                "ROWNUM"@,
                Given::Number(number),
            )
            &&& !variables.contains(name) ==> !values.contains_key(name)
            &&& name != "ROWNUM"@ && values.contains_key(name) ==> exists|k: int|
                0 <= k < row.len() && (#[trigger] row[k]).0 == name && (bind_empty
                    || !text::is_blank(row[k].1))
            &&& {
                &&& name != "ROWNUM"@
                &&& variables.contains(name)
                &&& 0 <= i < row.len()
                &&& row[i].0 == name
                &&& bind_empty || !text::is_blank(row[i].1)
                &&& forall|k: int|
                    i < k < row.len() && (#[trigger] row[k]).0 == name ==> !bind_empty
                        && text::is_blank(row[k].1)
            } ==> values.contains_pair(name, Given::Text(row[i].1))
        }),
{
    let cells = bound_cells(variables, bind_empty, row);
    let all = bound(variables, bind_empty, row, number);
    lemma_row_values(variables, bind_empty, row, number, name);
    lemma_row_values(variables, bind_empty, row, number, "ROWNUM"@);
    lemma_last_cell_counts(variables, bind_empty, row, name, i);
    if variables.contains(ROW_NUMBER@) {
        assert(all.drop_last() =~= cells);
        assert(all.last() == (ROW_NUMBER@, Given::Number(number)));
    } else {
        assert(all =~= cells);
    }
}

proof fn lemma_last_cell_counts(
    variables: Set<Seq<char>>,
    bind_empty: bool,
    row: split::Cells,
    name: Seq<char>,
    i: int,
)
    ensures
        ({
            &&& 0 <= i < row.len()
            &&& row[i].0 == name
            &&& is_bound(variables, bind_empty, row[i])
            &&& forall|k: int|
                i < k < row.len() && (#[trigger] row[k]).0 == name ==> !is_bound(
                    variables,
                    bind_empty,
                    row[k],
                )
        }) ==> prefixes::map_of(bound_cells(variables, bind_empty, row)).contains_pair(
            name,
            Given::Text(row[i].1),
        ),
    decreases row.len(),
{
    if 0 <= i < row.len() && row[i].0 == name && is_bound(variables, bind_empty, row[i]) && forall|
        k: int,
    |
        i < k < row.len() && (#[trigger] row[k]).0 == name ==> !is_bound(
            variables,
            bind_empty,
            row[k],
        ) {
        let fewer = row.drop_last();
        let cell = row.last();
        lemma_bound_push(variables, bind_empty, fewer, cell);
        assert(row =~= fewer.push(cell));
        let before = bound_cells(variables, bind_empty, fewer);
        if is_bound(variables, bind_empty, cell) {
            assert(bound_cells(variables, bind_empty, row).drop_last() =~= before);
        }
        if i < fewer.len() {
            assert forall|k: int| i < k < fewer.len() && (#[trigger] fewer[k]).0
                == name implies !is_bound(variables, bind_empty, fewer[k]) by {
                assert(fewer[k] == row[k]);
            }
            assert(fewer[i] == row[i]);
            lemma_last_cell_counts(variables, bind_empty, fewer, name, i);
            assert(row[row.len() - 1] == cell);
        }
    }
}

/// What a row gives to the variables of a query.
pub fn values_of(
    variables: &VariableSet,
    bind_empty: bool,
    row: &Vec<(String, String)>,
    number: u32,
) -> (values: Vec<(String, Value)>)
    ensures
        values.deep_view() == bound(variables@, bind_empty, row.deep_view(), number),
        forall|i: int|
            0 <= i < values.len() ==> patterns::is_variable_name(
                (#[trigger] values.deep_view()[i]).0,
            ),
{
    let mut values: Vec<(String, Value)> = Vec::new();
    let ghost cells = row.deep_view();
    proof {
        reveal(Seq::filter);
        assert(bound_cells(variables@, bind_empty, cells.take(0)) =~= Seq::empty());
        assert(values.deep_view() =~= Seq::empty());
    }
    for i in 0..row.len()
        invariant
            cells == row.deep_view(),
            values.deep_view() == bound_cells(variables@, bind_empty, cells.take(i as int)),
            forall|j: int|
                0 <= j < values.len() ==> patterns::is_variable_name(
                    (#[trigger] values.deep_view()[j]).0,
                ),
    {
        let cell = &row[i];
        let ghost before = values.deep_view();
        proof {
            assert(cells[i as int] == (cell.0@, cell.1@));
            lemma_bound_push(variables@, bind_empty, cells.take(i as int), cells[i as int]);
            assert(cells.take(i + 1) =~= cells.take(i as int).push(cells[i as int]));
        }
        if variables.contains(cell.0.as_str()) && (bind_empty || !text::blank(cell.1.as_str())) {
            let text = cell.1.clone();
            values.push((cell.0.clone(), Value::text(text)));
            assert(values.deep_view() =~= before.push((cell.0@, Given::Text(cell.1@))));
        }
    }
    assert(cells.take(cells.len() as int) =~= cells);
    if variables.contains(ROW_NUMBER) {
        let ghost before = values.deep_view();
        values.push((ROW_NUMBER.to_string(), Value::number(number)));
        assert(values.deep_view() =~= before.push((ROW_NUMBER@, Given::Number(number))));
    }
    assert(values.deep_view() =~= bound(variables@, bind_empty, cells, number));
    values
}

} // verus!

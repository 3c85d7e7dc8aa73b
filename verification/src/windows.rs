//! The windows in which triples are collected, freed of duplicates and written out.
use crate::output;
use crate::output::{flush_store, FlushError};
use crate::prefixes::PrefixMap;
use crate::rdf;
use crate::rdf::{RdfFormat, Spelling, Statement};
use crate::store;
use crate::store::TripleStore;
use crate::terms::NamedNode;
use crate::text;
use vstd::prelude::*;

verus! {

/// How triples are written.
pub struct Layout {
    pub format: RdfFormat,
    pub prefixes: Map<Seq<char>, Seq<char>>,
    pub graph: Option<Seq<char>>,
    /// How many triples close a window; with 0, every row does.
    pub dedup: u32,
}

/// Whether a window is closed and written, once it holds these triples.
pub open spec fn is_due(dedup: u32, triples: Seq<Spelling>) -> bool {
    triples.len() > 0 && (dedup == 0 || triples.len() >= dedup)
}

/// The windows that are closed, and the one that is not.
pub struct Windows {
    pub closed: Seq<Seq<Spelling>>,
    pub open: Seq<Spelling>,
}

/// The windows that the triples of these rows fill.
pub open spec fn windows(dedup: u32, rows: Seq<Seq<Spelling>>) -> Windows
    decreases rows.len(),
{
    if rows.len() == 0 {
        Windows { closed: Seq::empty(), open: Seq::empty() }
    } else {
        let before = windows(dedup, rows.drop_last());
        let open = store::absorbed(before.open, rows.last());
        if is_due(dedup, open) {
            Windows { closed: before.closed.push(open), open: Seq::empty() }
        } else {
            Windows { closed: before.closed, open }
        }
    }
}

/// The windows of these rows, once there are no more: what is left over makes a window too.
pub open spec fn all_windows(dedup: u32, rows: Seq<Seq<Spelling>>) -> Seq<Seq<Spelling>> {
    let filled = windows(dedup, rows);
    if dedup > 0 && filled.open.len() > 0 {
        filled.closed.push(filled.open)
    } else {
        filled.closed
    }
}

/// What is written of windows: their blocks, one behind the other.
pub open spec fn blocks(layout: Layout, closed: Seq<Seq<Spelling>>) -> Option<Seq<u8>>
    decreases closed.len(),
{
    if closed.len() == 0 {
        Some(Seq::empty())
    } else {
        match blocks(layout, closed.drop_last()) {
            Some(bytes) => match output::block(
                layout.format,
                layout.prefixes,
                layout.graph,
                closed.len() == 1,
                closed.last(),
            ) {
                Some(last) => Some(bytes + last),
                None => None,
            },
            None => None,
        }
    }
}

/// What is written of the triples of these rows; nothing if they cannot be written.
pub open spec fn written_rows(layout: Layout, rows: Seq<Seq<Spelling>>) -> Option<Seq<u8>> {
    blocks(layout, all_windows(layout.dedup, rows))
}

/// Whether one of the lists holds `triple`.
pub open spec fn among(lists: Seq<Seq<Spelling>>, triple: Spelling) -> bool {
    exists|i: int| 0 <= i < lists.len() && (#[trigger] lists[i]).contains(triple)
}

proof fn lemma_among_push(lists: Seq<Seq<Spelling>>, list: Seq<Spelling>, triple: Spelling)
    ensures
        among(lists.push(list), triple) <==> among(lists, triple) || list.contains(triple),
{
    let pushed = lists.push(list);
    if among(lists, triple) {
        let i = choose|i: int| 0 <= i < lists.len() && (#[trigger] lists[i]).contains(triple);
        assert(pushed[i].contains(triple));
    }
    assert(pushed[lists.len() as int] == list);
    if among(pushed, triple) {
        let i = choose|i: int| 0 <= i < pushed.len() && (#[trigger] pushed[i]).contains(triple);
        if i < lists.len() {
            assert(lists[i].contains(triple));
        }
    }
}

/// While rows come in: no window holds a triple twice, every closed one was due to be, the open
/// one is not, and the windows hold the triples of the rows and no others.
pub proof fn lemma_windows(dedup: u32, rows: Seq<Seq<Spelling>>)
    ensures
        windows(dedup, rows).open.no_duplicates(),
        !is_due(dedup, windows(dedup, rows).open),
        forall|i: int|
            0 <= i < windows(dedup, rows).closed.len() ==> {
                &&& (#[trigger] windows(dedup, rows).closed[i]).no_duplicates()
                &&& is_due(dedup, windows(dedup, rows).closed[i])
            },
        forall|triple: Spelling| #[trigger]
            among(rows, triple) <==> among(windows(dedup, rows).closed, triple) || windows(
                dedup,
                rows,
            ).open.contains(triple),
    decreases rows.len(),
{
    if rows.len() > 0 {
        let fewer = rows.drop_last();
        let before = windows(dedup, fewer);
        lemma_windows(dedup, fewer);
        store::lemma_absorbed(before.open, rows.last());
        let open = store::absorbed(before.open, rows.last());
        let after = windows(dedup, rows);
        assert(rows =~= fewer.push(rows.last()));
        assert forall|triple: Spelling| #[trigger] among(rows, triple) <==> among(
            after.closed,
            triple,
        ) || after.open.contains(triple) by {
            lemma_among_push(fewer, rows.last(), triple);
            lemma_among_push(before.closed, open, triple);
            assert(open.contains(triple) <==> open.to_set().contains(triple));
            assert(before.open.contains(triple) <==> before.open.to_set().contains(triple));
            assert(rows.last().contains(triple) <==> rows.last().to_set().contains(triple));
        }
        assert forall|i: int| 0 <= i < after.closed.len() implies {
            &&& (#[trigger] after.closed[i]).no_duplicates()
            &&& is_due(dedup, after.closed[i])
        } by {
            if i < before.closed.len() {
                assert(after.closed[i] == before.closed[i]);
            }
        }
    }
}

/// In the end every triple of the rows stands in a window, no window holds another one, and
/// none is empty or holds a triple twice.
pub proof fn lemma_all_windows(dedup: u32, rows: Seq<Seq<Spelling>>)
    ensures
        forall|triple: Spelling| #[trigger]
            among(rows, triple) <==> among(all_windows(dedup, rows), triple),
        forall|i: int|
            0 <= i < all_windows(dedup, rows).len() ==> {
                &&& (#[trigger] all_windows(dedup, rows)[i]).no_duplicates()
                &&& all_windows(dedup, rows)[i].len() > 0
            },
{
    lemma_windows(dedup, rows);
    let filled = windows(dedup, rows);
    assert forall|triple: Spelling| #[trigger] among(rows, triple) <==> among(
        all_windows(dedup, rows),
        triple,
    ) by {
        lemma_among_push(filled.closed, filled.open, triple);
    }
}

/// The same rows in another order, as they come from workers that do not wait for each other,
/// give the same triples to write.
pub proof fn lemma_any_order(dedup: u32, rows: Seq<Seq<Spelling>>, others: Seq<Seq<Spelling>>)
    requires
        rows.to_multiset() == others.to_multiset(),
    ensures
        forall|triple: Spelling| #[trigger]
            among(all_windows(dedup, rows), triple) <==> among(all_windows(dedup, others), triple),
{
    lemma_all_windows(dedup, rows);
    lemma_all_windows(dedup, others);
    assert forall|triple: Spelling| #[trigger]
        among(all_windows(dedup, rows), triple) <==> among(all_windows(dedup, others), triple) by {
        assert(among(rows, triple) <==> among(all_windows(dedup, rows), triple));
        assert(among(others, triple) <==> among(all_windows(dedup, others), triple));
        lemma_among_same_rows(rows, others, triple);
        lemma_among_same_rows(others, rows, triple);
    }
}

proof fn lemma_among_same_rows(
    rows: Seq<Seq<Spelling>>,
    others: Seq<Seq<Spelling>>,
    triple: Spelling,
)
    requires
        rows.to_multiset() == others.to_multiset(),
    ensures
        among(rows, triple) ==> among(others, triple),
{
    broadcast use vstd::seq_lib::group_to_multiset_ensures;

    if among(rows, triple) {
        let i = choose|i: int| 0 <= i < rows.len() && (#[trigger] rows[i]).contains(triple);
        assert(rows.to_multiset().count(rows[i]) > 0);
        assert(others.contains(rows[i]));
        let j = others.index_of(rows[i]);
        assert(others[j].contains(triple));
    }
}

/// The triples of all rows, one row behind the other.
pub open spec fn in_a_row(rows: Seq<Seq<Spelling>>) -> Seq<Spelling>
    decreases rows.len(),
{
    if rows.len() == 0 {
        Seq::empty()
    } else {
        in_a_row(rows.drop_last()) + rows.last()
    }
}

/// The triples of rows in two parts are those of the one part and then of the other; those of one
/// row are its own.
pub proof fn lemma_in_a_row_of_parts(first: Seq<Seq<Spelling>>, second: Seq<Seq<Spelling>>)
    ensures
        in_a_row(first + second) == in_a_row(first) + in_a_row(second),
        first.len() == 1 ==> in_a_row(first) == first[0],
        first.len() == 0 ==> in_a_row(first).len() == 0,
    decreases second.len(),
{
    if second.len() == 0 {
        assert(first + second =~= first);
        assert(in_a_row(first) + in_a_row(second) =~= in_a_row(first));
    } else {
        lemma_in_a_row_of_parts(first, second.drop_last());
        assert((first + second).drop_last() =~= first + second.drop_last());
        assert(in_a_row(first + second) =~= in_a_row(first) + in_a_row(second));
    }
    if first.len() == 1 {
        assert(first.drop_last().len() == 0);
        assert(in_a_row(first.drop_last()).len() == 0);
        assert(in_a_row(first) =~= first[0]);
    }
}

/// Rows with fewer different triples than close a window make one window at most: each triple
/// is written once.
pub proof fn lemma_one_window(dedup: u32, rows: Seq<Seq<Spelling>>)
    requires
        store::absorbed(Seq::empty(), in_a_row(rows)).len() < dedup,
    ensures
        windows(dedup, rows).closed.len() == 0,
        windows(dedup, rows).open == store::absorbed(Seq::empty(), in_a_row(rows)),
    decreases rows.len(),
{
    if rows.len() > 0 {
        let fewer = rows.drop_last();
        let nothing = Seq::<Spelling>::empty();
        store::lemma_absorbed_in_turn(nothing, in_a_row(fewer), rows.last());
        store::lemma_absorbed(nothing, in_a_row(fewer));
        store::lemma_absorbed(store::absorbed(nothing, in_a_row(fewer)), rows.last());
        lemma_one_window(dedup, fewer);
    }
}

/// Without a window size every row that has triples is a window of its own.
pub proof fn lemma_window_per_row(rows: Seq<Seq<Spelling>>)
    ensures
        all_windows(0, rows) == rows.filter(|row: Seq<Spelling>| row.len() > 0).map_values(
            |row: Seq<Spelling>| store::absorbed(Seq::empty(), row),
        ),
        windows(0, rows).open.len() == 0,
    decreases rows.len(),
{
    reveal(Seq::filter);
    let with_triples = |row: Seq<Spelling>| row.len() > 0;
    let freed = |row: Seq<Spelling>| store::absorbed(Seq::empty(), row);
    if rows.len() == 0 {
        assert(windows(0, rows).closed =~= rows.filter(with_triples).map_values(freed));
    } else {
        let fewer = rows.drop_last();
        let last = rows.last();
        lemma_window_per_row(fewer);
        let open = windows(0, fewer).open;
        assert(open =~= Seq::empty());
        if last.len() > 0 {
            store::lemma_absorbed(open, last);
            assert(store::absorbed(open, last).to_set().contains(last[0])) by {
                assert(last.to_set().contains(last[0]));
            }
            assert(store::absorbed(open, last).len() > 0);
            assert(rows.filter(with_triples) =~= fewer.filter(with_triples).push(last));
        }
        assert(windows(0, rows).closed =~= rows.filter(with_triples).map_values(freed));
    }
}

/// A row goes into the open window, which is closed then if it holds triples, and as many as close
/// one; with 0, any row that has triples does.
pub proof fn lemma_one_row_more(dedup: u32, rows: Seq<Seq<Spelling>>, row: Seq<Spelling>)
    ensures
        windows(dedup, Seq::empty()).closed.len() == 0,
        windows(dedup, Seq::empty()).open.len() == 0,
        ({
            let before = windows(dedup, rows);
            let after = windows(dedup, rows.push(row));
            let open = store::absorbed(before.open, row);
            if open.len() > 0 && open.len() >= dedup {
                after.closed == before.closed.push(open) && after.open.len() == 0
            } else {
                after.closed == before.closed && after.open == open
            }
        }),
{
    assert(rows.push(row).drop_last() =~= rows);
}

/// In the end the open window is written behind the closed ones, unless it is empty.
pub proof fn lemma_last_window(dedup: u32, rows: Seq<Seq<Spelling>>)
    ensures
        ({
            let filled = windows(dedup, rows);
            if filled.open.len() > 0 {
                all_windows(dedup, rows) == filled.closed.push(filled.open)
            } else {
                all_windows(dedup, rows) == filled.closed
            }
        }),
{
    lemma_window_per_row(rows);
}

/// One window more adds its block, which is a first one only if there was no window before; if
/// one block cannot be written, nothing can.
pub proof fn lemma_one_window_more(
    layout: Layout,
    closed: Seq<Seq<Spelling>>,
    window: Seq<Spelling>,
)
    ensures
        blocks(layout, Seq::empty()) == Some(Seq::<u8>::empty()),
        ({
            let block = output::block(
                layout.format,
                layout.prefixes,
                layout.graph,
                closed.len() == 0,
                window,
            );
            match blocks(layout, closed.push(window)) {
                Some(bytes) => {
                    &&& blocks(layout, closed) is Some
                    &&& block is Some
                    &&& bytes == blocks(layout, closed)->0 + block->0
                },
                None => blocks(layout, closed) is None || block is None,
            }
        }),
{
    assert(closed.push(window).drop_last() =~= closed);
}

/// The triples of the windows are those of the rows, and where the rows have fewer different ones
/// than close a window, there is one window at most, and no triple in it twice.
pub proof fn lemma_all_written_once(dedup: u32, rows: Seq<Seq<Spelling>>)
    ensures
        in_a_row(all_windows(dedup, rows)).to_set() == in_a_row(rows).to_set(),
        in_a_row(rows).to_set().len() < dedup ==> {
            &&& all_windows(dedup, rows).len() <= 1
            &&& in_a_row(all_windows(dedup, rows)).no_duplicates()
        },
{
    let all = all_windows(dedup, rows);
    lemma_all_windows(dedup, rows);
    assert forall|triple: Spelling|
        in_a_row(all).to_set().contains(triple) <==> in_a_row(rows).to_set().contains(triple) by {
        lemma_among_in_a_row(all, triple);
        lemma_among_in_a_row(rows, triple);
        assert(among(rows, triple) <==> among(all, triple));
    }
    assert(in_a_row(all).to_set() =~= in_a_row(rows).to_set());
    if in_a_row(rows).to_set().len() < dedup {
        let nothing = Seq::<Spelling>::empty();
        let once = store::absorbed(nothing, in_a_row(rows));
        store::lemma_absorbed(nothing, in_a_row(rows));
        assert(nothing.to_set().union(in_a_row(rows).to_set()) =~= in_a_row(rows).to_set());
        once.unique_seq_to_set();
        lemma_one_window(dedup, rows);
        if all.len() == 1 {
            lemma_in_a_row_of_parts(all, Seq::empty());
            assert(all[0].no_duplicates());
        } else {
            assert(in_a_row(all).len() == 0);
        }
    }
}

/// A triple is among the triples of the lists when it is in one of them.
pub proof fn lemma_among_in_a_row(lists: Seq<Seq<Spelling>>, triple: Spelling)
    ensures
        in_a_row(lists).contains(triple) <==> among(lists, triple),
    decreases lists.len(),
{
    if lists.len() > 0 {
        let (fewer, last) = (lists.drop_last(), lists.last());
        lemma_among_in_a_row(fewer, triple);
        lemma_among_push(fewer, last, triple);
        assert(lists =~= fewer.push(last));
        let (front, both) = (in_a_row(fewer), in_a_row(lists));
        if front.contains(triple) {
            let i = front.index_of(triple);
            assert(both[i] == triple);
        }
        if last.contains(triple) {
            let i = last.index_of(triple);
            assert(both[front.len() + i] == triple);
        }
        if both.contains(triple) {
            let i = both.index_of(triple);
            if i < front.len() {
                assert(front[i] == triple);
            } else {
                assert(last[i - front.len()] == triple);
            }
        }
    } else {
        assert(in_a_row(lists).len() == 0);
    }
}

/// Without a window size the triples are written row by row, each row freed of its duplicates.
pub proof fn lemma_row_by_row(rows: Seq<Seq<Spelling>>)
    ensures
        in_a_row(all_windows(0, rows)) == in_a_row(
            Seq::new(rows.len(), |n: int| store::absorbed(Seq::empty(), rows[n])),
        ),
    decreases rows.len(),
{
    let freed = Seq::new(rows.len(), |n: int| store::absorbed(Seq::empty(), rows[n]));
    lemma_window_per_row(rows);
    if rows.len() == 0 {
        assert(in_a_row(all_windows(0, rows)) =~= in_a_row(freed));
    } else {
        let (fewer, last) = (rows.drop_last(), rows.last());
        lemma_row_by_row(fewer);
        lemma_window_per_row(fewer);
        assert(fewer.push(last) =~= rows);
        lemma_one_row_more(0, fewer, last);
        let nothing = Seq::<Spelling>::empty();
        assert(windows(0, fewer).open =~= nothing);
        let open = store::absorbed(nothing, last);
        let less = Seq::new(fewer.len(), |n: int| store::absorbed(Seq::empty(), fewer[n]));
        assert(freed.drop_last() =~= less);
        assert(freed.last() == open);
        if open.len() > 0 {
            assert(all_windows(0, rows).drop_last() =~= all_windows(0, fewer));
        } else {
            assert(in_a_row(less) + open =~= in_a_row(less));
        }
    }
}

/// A list in another order holds the same triples, and none twice if the other did not.
pub proof fn lemma_same_once(triples: Seq<Spelling>, listed: Seq<Spelling>)
    requires
        triples.no_duplicates(),
        listed.to_multiset() == triples.to_multiset(),
    ensures
        listed.no_duplicates(),
        listed.to_set() == triples.to_set(),
{
    broadcast use vstd::seq_lib::group_to_multiset_ensures;

    triples.lemma_multiset_has_no_duplicates();
    listed.lemma_multiset_has_no_duplicates_conv();
    assert forall|triple: Spelling|
        listed.to_set().contains(triple) <==> triples.to_set().contains(triple) by {
        assert(listed.contains(triple) <==> listed.to_multiset().count(triple) > 0);
        assert(triples.contains(triple) <==> triples.to_multiset().count(triple) > 0);
    }
    assert(listed.to_set() =~= triples.to_set());
}

/// In N-Triples and N-Quads the document is the lines of all windows, one behind the other;
/// where one window ends and the next begins does not show.
pub proof fn lemma_document_of_lines(layout: Layout, closed: Seq<Seq<Spelling>>)
    requires
        layout.format == RdfFormat::NTriples || layout.format == RdfFormat::NQuads,
    ensures
        blocks(layout, closed) == Some(
            vstd::utf8::encode_utf8(
                rdf::lines(
                    in_a_row(closed),
                    if layout.format == RdfFormat::NQuads {
                        layout.graph
                    } else {
                        None
                    },
                ),
            ),
        ),
    decreases closed.len(),
{
    let graph = if layout.format == RdfFormat::NQuads {
        layout.graph
    } else {
        None
    };
    if closed.len() == 0 {
        let nothing = in_a_row(closed);
        assert(nothing.len() == 0);
        assert(rdf::lines(nothing, graph).len() == 0);
        assert(vstd::utf8::encode_utf8(rdf::lines(nothing, graph)) =~= Seq::empty());
    } else {
        let before = in_a_row(closed.drop_last());
        lemma_document_of_lines(layout, closed.drop_last());
        rdf::lemma_lines_in_turn(before, closed.last(), graph);
        text::lemma_encoded_in_turn(rdf::lines(before, graph), rdf::lines(closed.last(), graph));
    }
}

/// Where a writer stands: the triples that wait, and whether nothing has been written yet.
pub struct Progress {
    pub layout: Layout,
    pub pending: Seq<Spelling>,
    pub first_time: bool,
}

/// Where a writer stands after a step, and what it writes in it; nothing if it cannot.
pub struct Step {
    pub progress: Progress,
    pub bytes: Option<Seq<u8>>,
}

/// Writes out the triples that wait.
pub open spec fn flushed(progress: Progress) -> Step {
    let layout = progress.layout;
    match output::block(
        layout.format,
        layout.prefixes,
        layout.graph,
        progress.first_time,
        progress.pending,
    ) {
        Some(bytes) => Step {
            progress: Progress { layout, pending: Seq::empty(), first_time: false },
            bytes: Some(bytes),
        },
        None => Step { progress, bytes: None },
    }
}

/// Takes in the triples of a row, and writes out what waits when that is due.
pub open spec fn received(progress: Progress, row: Seq<Spelling>) -> Step {
    let taken = Progress { pending: store::absorbed(progress.pending, row), ..progress };
    if is_due(progress.layout.dedup, taken.pending) {
        flushed(taken)
    } else {
        Step { progress: taken, bytes: Some(Seq::empty()) }
    }
}

/// Writes out what is left over.
pub open spec fn finished(progress: Progress) -> Step {
    if progress.layout.dedup > 0 && progress.pending.len() > 0 {
        flushed(progress)
    } else {
        Step { progress, bytes: Some(Seq::empty()) }
    }
}

/// Whether a writer of Turtle that has written this document may stand here: nothing is written
/// yet, or the prefixes are declared, once each.
pub open spec fn is_turtle_so_far(progress: Progress, document: Seq<u8>) -> bool {
    progress.layout.format == RdfFormat::Turtle ==> if progress.first_time {
        document.len() == 0
    } else {
        rdf::declares(document, progress.layout.prefixes)
    }
}

/// A writer of Turtle that writes a block has declared the prefixes, once each.
pub proof fn lemma_turtle_so_far(progress: Progress, document: Seq<u8>, bytes: Seq<u8>)
    requires
        is_turtle_so_far(progress, document),
        progress.layout.format == RdfFormat::Turtle,
        output::is_turtle_block(progress.layout.prefixes, progress.first_time, bytes),
    ensures
        rdf::declares(document + bytes, progress.layout.prefixes),
{
    if progress.first_time {
        assert(document + bytes =~= bytes);
    } else {
        output::lemma_declared_once(document, progress.layout.prefixes, bytes);
    }
}

/// Whether a writer that has taken in these rows and written these bytes may stand here.
pub open spec fn follows(progress: Progress, rows: Seq<Seq<Spelling>>, bytes: Seq<u8>) -> bool {
    let filled = windows(progress.layout.dedup, rows);
    &&& progress.pending == filled.open
    &&& progress.first_time == (filled.closed.len() == 0)
    &&& blocks(progress.layout, filled.closed) == Some(bytes)
}

/// A writer that takes in one more row writes the window that the row closes, if it does.
pub proof fn lemma_received(
    progress: Progress,
    rows: Seq<Seq<Spelling>>,
    bytes: Seq<u8>,
    row: Seq<Spelling>,
)
    requires
        follows(progress, rows, bytes),
    ensures
        match received(progress, row).bytes {
            Some(more) => follows(received(progress, row).progress, rows.push(row), bytes + more),
            None => blocks(
                progress.layout,
                windows(progress.layout.dedup, rows.push(row)).closed,
            ) is None,
        },
{
    let longer = rows.push(row);
    assert(longer.drop_last() =~= rows);
    let before = windows(progress.layout.dedup, rows);
    let after = windows(progress.layout.dedup, longer);
    if is_due(progress.layout.dedup, store::absorbed(before.open, row)) {
        assert(after.closed.drop_last() =~= before.closed);
    } else {
        assert(bytes + Seq::<u8>::empty() =~= bytes);
    }
}

/// A writer that finishes has written the windows of all rows.
pub proof fn lemma_finished(progress: Progress, rows: Seq<Seq<Spelling>>, bytes: Seq<u8>)
    requires
        follows(progress, rows, bytes),
    ensures
        match finished(progress).bytes {
            Some(more) => written_rows(progress.layout, rows) == Some(bytes + more),
            None => written_rows(progress.layout, rows) is None,
        },
{
    let filled = windows(progress.layout.dedup, rows);
    if progress.layout.dedup > 0 && filled.open.len() > 0 {
        assert(all_windows(progress.layout.dedup, rows).drop_last() =~= filled.closed);
    } else {
        assert(bytes + Seq::<u8>::empty() =~= bytes);
    }
}

/// A writer that takes in rows one after the other and then finishes has written the blocks of the
/// windows of all of them; where it cannot write, they cannot be written.
pub proof fn lemma_writer_in_turn(
    layout: Layout,
    rows: Seq<Seq<Spelling>>,
    stands: Seq<Progress>,
    documents: Seq<Seq<u8>>,
)
    requires
        stands.len() == rows.len() + 1,
        documents.len() == rows.len() + 1,
        stands[0] == (Progress { layout, pending: Seq::empty(), first_time: true }),
        documents[0].len() == 0,
        forall|i: int|
            0 <= i < rows.len() ==> {
                let step = received(stands[i], #[trigger] rows[i]);
                &&& stands[i + 1] == step.progress
                &&& step.bytes matches Some(bytes) && documents[i + 1] == documents[i] + bytes
            },
    ensures
        blocks(layout, windows(layout.dedup, rows).closed) == Some(documents.last()),
        match finished(stands.last()).bytes {
            Some(bytes) => blocks(layout, all_windows(layout.dedup, rows)) == Some(
                documents.last() + bytes,
            ),
            None => blocks(layout, all_windows(layout.dedup, rows)) is None,
        },
        forall|row: Seq<Spelling>|
            (#[trigger] received(stands.last(), row)).bytes is None ==> blocks(
                layout,
                windows(layout.dedup, rows.push(row)).closed,
            ) is None,
{
    lemma_follows_in_turn(layout, rows, stands, documents);
    lemma_finished(stands.last(), rows, documents.last());
    assert forall|row: Seq<Spelling>|
        (#[trigger] received(stands.last(), row)).bytes is None implies blocks(
        layout,
        windows(layout.dedup, rows.push(row)).closed,
    ) is None by {
        lemma_received(stands.last(), rows, documents.last(), row);
    }
}

proof fn lemma_follows_in_turn(
    layout: Layout,
    rows: Seq<Seq<Spelling>>,
    stands: Seq<Progress>,
    documents: Seq<Seq<u8>>,
)
    requires
        stands.len() == rows.len() + 1,
        documents.len() == rows.len() + 1,
        stands[0] == (Progress { layout, pending: Seq::empty(), first_time: true }),
        documents[0].len() == 0,
        forall|i: int|
            0 <= i < rows.len() ==> {
                let step = received(stands[i], #[trigger] rows[i]);
                &&& stands[i + 1] == step.progress
                &&& step.bytes matches Some(bytes) && documents[i + 1] == documents[i] + bytes
            },
    ensures
        stands.last().layout == layout,
        follows(stands.last(), rows, documents.last()),
    decreases rows.len(),
{
    if rows.len() == 0 {
        assert(documents[0] =~= Seq::empty());
    } else {
        let fewer = rows.drop_last();
        let n = fewer.len() as int;
        let (before, shorter) = (stands.drop_last(), documents.drop_last());
        assert forall|i: int| 0 <= i < fewer.len() implies {
            let step = received(before[i], #[trigger] fewer[i]);
            &&& before[i + 1] == step.progress
            &&& step.bytes matches Some(bytes) && shorter[i + 1] == shorter[i] + bytes
        } by {
            assert(before[i] == stands[i] && before[i + 1] == stands[i + 1]);
            assert(fewer[i] == rows[i]);
        }
        lemma_follows_in_turn(layout, fewer, before, shorter);
        assert(before[n] == stands[n]);
        assert(fewer.push(rows[n]) =~= rows);
        lemma_received(before[n], fewer, shorter[n], rows[n]);
    }
}

/// Rows that cannot be written stay so, whatever follows them.
pub proof fn lemma_unwritable_stays(
    layout: Layout,
    rows: Seq<Seq<Spelling>>,
    more: Seq<Seq<Spelling>>,
)
    requires
        blocks(layout, windows(layout.dedup, rows).closed) is None,
    ensures
        written_rows(layout, rows + more) is None,
        blocks(layout, windows(layout.dedup, rows + more).closed) is None,
    decreases more.len(),
{
    if more.len() == 0 {
        assert(rows + more =~= rows);
    } else {
        lemma_unwritable_stays(layout, rows, more.drop_last());
        assert((rows + more).drop_last() =~= rows + more.drop_last());
        let before = windows(layout.dedup, (rows + more).drop_last());
        let after = windows(layout.dedup, rows + more);
        if after.closed.len() > before.closed.len() {
            assert(after.closed.drop_last() =~= before.closed);
        }
    }
    let filled = windows(layout.dedup, rows + more);
    if layout.dedup > 0 && filled.open.len() > 0 {
        assert(all_windows(layout.dedup, rows + more).drop_last() =~= filled.closed);
    }
}

/// Collects triples and writes them out, window by window.
pub struct Writer {
    store: TripleStore,
    format: RdfFormat,
    prefixes: PrefixMap,
    graph: Option<NamedNode>,
    dedup: u32,
    first_time: bool,
}

impl View for Writer {
    type V = Progress;

    closed spec fn view(&self) -> Progress {
        Progress {
            layout: Layout {
                format: self.format,
                prefixes: self.prefixes@,
                graph: match self.graph {
                    Some(node) => Some(node@),
                    None => None,
                },
                dedup: self.dedup,
            },
            pending: self.store@,
            first_time: self.first_time,
        }
    }
}

impl Writer {
    /// A writer that has not been given anything yet.
    pub fn new(
        format: RdfFormat,
        prefixes: PrefixMap,
        graph: Option<NamedNode>,
        dedup: u32,
    ) -> (writer: Writer)
        ensures
            writer@ == (Progress {
                layout: Layout {
                    format,
                    prefixes: prefixes@,
                    graph: match graph {
                        Some(node) => Some(node@),
                        None => None,
                    },
                    dedup,
                },
                pending: Seq::empty(),
                first_time: true,
            }),
    {
        Writer { store: TripleStore::new(), format, prefixes, graph, dedup, first_time: true }
    }

    fn flush(&mut self, out: &mut Vec<u8>) -> (result: Result<(), FlushError>)
        ensures
            final(self)@ == flushed(old(self)@).progress,
            match flushed(old(self)@).bytes {
                Some(bytes) => result is Ok && final(out)@ == old(out)@ + bytes,
                None => {
                    &&& result == Err::<(), FlushError>(output::reason(old(self)@.layout.format))
                    &&& final(out)@ == old(out)@
                },
            },
            old(self)@.layout.format == RdfFormat::Turtle && result is Ok && old(self)@.pending.len()
                > 0 ==> output::is_turtle_block(
                old(self)@.layout.prefixes,
                old(self)@.first_time,
                final(out)@.skip(old(out)@.len() as int),
            ),
    {
        let graph = match &self.graph {
            Some(node) => Some(node),
            None => None,
        };
        let result = flush_store(
            &mut self.store,
            out,
            self.format,
            &self.prefixes,
            self.first_time,
            graph,
        );
        if result.is_ok() {
            self.first_time = false;
        }
        result
    }

    /// Takes in the triples of a row, and adds to `out` what is due to be written then.
    pub fn receive(&mut self, row: Vec<Statement>, out: &mut Vec<u8>) -> (result: Result<
        (),
        FlushError,
    >)
        ensures
            final(self)@ == received(old(self)@, row.deep_view()).progress,
            match received(old(self)@, row.deep_view()).bytes {
                Some(bytes) => result is Ok && final(out)@ == old(out)@ + bytes,
                None => {
                    &&& result == Err::<(), FlushError>(output::reason(old(self)@.layout.format))
                    &&& final(out)@ == old(out)@
                },
            },
            old(self)@.layout.format == RdfFormat::Turtle && result is Ok && is_due(
                old(self)@.layout.dedup,
                store::absorbed(old(self)@.pending, row.deep_view()),
            ) ==> output::is_turtle_block(
                old(self)@.layout.prefixes,
                old(self)@.first_time,
                final(out)@.skip(old(out)@.len() as int),
            ),
    {
        self.store.extend(row);
        if !self.store.is_empty() && (self.dedup == 0 || self.store.len() >= self.dedup as usize) {
            self.flush(out)
        } else {
            assert(out@ + Seq::<u8>::empty() =~= out@);
            Ok(())
        }
    }

    /// Adds to `out` what is left over.
    pub fn finish(&mut self, out: &mut Vec<u8>) -> (result: Result<(), FlushError>)
        ensures
            final(self)@ == finished(old(self)@).progress,
            match finished(old(self)@).bytes {
                Some(bytes) => result is Ok && final(out)@ == old(out)@ + bytes,
                None => {
                    &&& result == Err::<(), FlushError>(output::reason(old(self)@.layout.format))
                    &&& final(out)@ == old(out)@
                },
            },
            old(self)@.layout.format == RdfFormat::Turtle && result is Ok && old(self)@.layout.dedup
                > 0 && old(self)@.pending.len() > 0 ==> output::is_turtle_block(
                old(self)@.layout.prefixes,
                old(self)@.first_time,
                final(out)@.skip(old(out)@.len() as int),
            ),
    {
        if self.dedup > 0 && !self.store.is_empty() {
            self.flush(out)
        } else {
            assert(out@ + Seq::<u8>::empty() =~= out@);
            Ok(())
        }
    }
}

} // verus!

//! What a search through an index yields, stated against the trees of the
//! index and of its table.

use vstd::prelude::*;
use crate::cursor::{
    bump, entry_below, entry_equals, fresh_frame, index_advance, index_entry, join_advance,
    lemma_lookup_moves_on, spec_advance, take_right_most, top_remaining, FrameView, IndexMove,
    IndexView, JoinView, StepView,
};
use crate::enumeration::{
    ascending, cells_ahead, join_rows, lemma_search_step, lemma_tail_below_twice, stack_keyed,
    stack_rows, tail_below, LeafView,
};
use crate::enumeration::{
    lemma_ordered_is_keyed, lemma_search_moves_on, lemma_subtree_ascending,
    lemma_walk_is_ascending, stack_steps, subtree_ordered, subtree_rows, walk,
};
use crate::record_handler::RecordValue;
use crate::records::alias_row_id;
use crate::schema::values_of;
use crate::sql_handler::{
    lemma_split_keeps_conditions, row_matches, split_prefix, MappedConjunctView,
};
use crate::tree_handler::{decode_record, CellView, PageView};

verus! {

/// The outcome of a search for the row with row id `target` that takes at
/// most `fuel` steps, each page that it asks for being taken from `tree`:
/// the row, if it was found, and the stack that the cursor is left with.
pub open spec fn search(
    tree: Map<u32, PageView>,
    frames: Seq<FrameView>,
    target: i64,
    fuel: nat,
) -> Option<(Option<LeafView>, Seq<FrameView>)>
    decreases fuel,
{
    if fuel == 0 {
        None
    } else {
        let (after, step) = spec_advance(frames, Some(target));
        match step {
            StepView::Yield { row_id, payload } => Some(
                (Some(LeafView { row_id, payload }), after),
            ),
            StepView::Descend(p) => if tree.dom().contains(p) && fresh_frame(tree[p]) is Some {
                search(tree, after.push(fresh_frame(tree[p]).unwrap()), target, (fuel - 1) as nat)
            } else {
                None
            },
            StepView::Done => Some((None, after)),
            StepView::Fault => None,
        }
    }
}

/// A search that comes to its end has passed over rows below the target
/// only.  It has found a row only with the target as its row id, and where
/// it has found none, no row is ahead or the next row lies above the target.
pub proof fn lemma_search_finds_target(
    tree: Map<u32, PageView>,
    frames: Seq<FrameView>,
    total: nat,
    target: i64,
    fuel: nat,
)
    requires
        stack_rows(tree, frames, total) is Some,
        stack_keyed(tree, frames, total),
        search(tree, frames, target, fuel) is Some,
    ensures
        ({
            let rows = stack_rows(tree, frames, total).unwrap();
            let (found, after) = search(tree, frames, target, fuel).unwrap();
            &&& stack_rows(tree, after, total) matches Some(rest)
            &&& stack_keyed(tree, after, total)
            &&& match found {
                Some(row) => row.row_id.value == target && tail_below(
                    rows,
                    seq![row] + rest,
                    target as int,
                ),
                None => tail_below(rows, rest, target as int) && (rest.len() > 0
                    ==> rest[0].row_id.value > target),
            }
        }),
    decreases fuel,
{
    lemma_search_step(tree, frames, total, target);
    let rows = stack_rows(tree, frames, total).unwrap();
    let (after, step) = spec_advance(frames, Some(target));
    match step {
        StepView::Descend(p) => {
            let entered = after.push(fresh_frame(tree[p]).unwrap());
            let middle = stack_rows(tree, entered, total).unwrap();
            lemma_search_finds_target(tree, entered, total, target, (fuel - 1) as nat);
            let (found, last) = search(tree, entered, target, (fuel - 1) as nat).unwrap();
            let rest = stack_rows(tree, last, total).unwrap();
            match found {
                Some(row) => {
                    lemma_tail_below_twice(rows, middle, seq![row] + rest, target as int);
                },
                None => {
                    lemma_tail_below_twice(rows, middle, rest, target as int);
                },
            }
        },
        _ => {},
    }
}

/// The row ids `a` followed by the row ids `b`, where both are there.
pub open spec fn join_ids(a: Option<Seq<i64>>, b: Option<Seq<i64>>) -> Option<Seq<i64>> {
    match (a, b) {
        (Some(x), Some(y)) => Some(x + y),
        _ => None,
    }
}

/// The row ids that a walk over the index beneath page `page` asks for
/// when it looks for `keys`, where the tree that it walks is sound.
pub open spec fn subtree_entries(
    tree: Map<u32, PageView>,
    page: u32,
    height: nat,
    keys: Seq<Seq<char>>,
) -> Option<Seq<i64>>
    decreases height, 0nat,
{
    if height == 0 || !tree.dom().contains(page) {
        None
    } else {
        match fresh_frame(tree[page]) {
            Some(frame) => entries_ahead(tree, frame, (height - 1) as nat, keys),
            None => None,
        }
    }
}

/// The row ids that a walk over an index asks for from the cells ahead of
/// the cursor of `frame`: that of each leaf cell whose columns are the keys,
/// those beneath the left child of each interior cell that is not passed
/// over, and those beneath the right-most child.
pub open spec fn entries_ahead(
    tree: Map<u32, PageView>,
    frame: FrameView,
    height: nat,
    keys: Seq<Seq<char>>,
) -> Option<Seq<i64>>
    decreases height, cells_ahead(frame) + 1,
{
    if 0 <= frame.cursor < frame.cells.len() {
        let rest = entries_ahead(tree, FrameView { cursor: frame.cursor + 1, ..frame }, height, keys);
        match frame.cells[frame.cursor] {
            CellView::LeafIndexCell { payload } => match index_entry(payload) {
                None => None,
                Some((columns, id)) => if entry_equals(columns, keys) {
                    join_ids(Some(seq![id]), rest)
                } else {
                    rest
                },
            },
            CellView::InteriorIndexCell { left_child_page, payload } => match index_entry(payload) {
                None => None,
                Some((columns, _)) => if entry_below(columns, keys) {
                    rest
                } else {
                    join_ids(subtree_entries(tree, left_child_page, height, keys), rest)
                },
            },
            _ => None,
        }
    } else {
        match frame.right_most_pointer {
            Some(p) => subtree_entries(tree, p, height, keys),
            None => Some(Seq::empty()),
        }
    }
}

/// The row ids that a walk over an index with the stack `frames` asks for.
pub open spec fn stack_entries(
    tree: Map<u32, PageView>,
    frames: Seq<FrameView>,
    total: nat,
    keys: Seq<Seq<char>>,
) -> Option<Seq<i64>>
    decreases frames.len(),
{
    if frames.len() == 0 {
        Some(Seq::empty())
    } else if total + 1 < frames.len() {
        None
    } else {
        join_ids(
            entries_ahead(tree, frames.last(), (total + 1 - frames.len()) as nat, keys),
            stack_entries(tree, frames.drop_last(), total, keys),
        )
    }
}

/// One step of an index cursor on its own tree asks for the first of the
/// row ids that lie ahead, or for a page of the tree, after whose entry the
/// same row ids lie ahead, or is done where none lies ahead.
pub proof fn lemma_index_step(
    tree: Map<u32, PageView>,
    frames: Seq<FrameView>,
    total: nat,
    keys: Seq<Seq<char>>,
)
    requires
        stack_entries(tree, frames, total, keys) is Some,
    ensures
        ({
            let ids = stack_entries(tree, frames, total, keys).unwrap();
            let (after, found) = index_advance(frames, keys);
            match found {
                IndexMove::Lookup(id) => {
                    &&& ids.len() > 0
                    &&& ids[0] == id
                    &&& stack_entries(tree, after, total, keys) == Some(ids.skip(1))
                },
                IndexMove::Descend(p) => {
                    &&& tree.dom().contains(p)
                    &&& fresh_frame(tree[p]) is Some
                    &&& stack_entries(
                        tree,
                        after.push(fresh_frame(tree[p]).unwrap()),
                        total,
                        keys,
                    ) == Some(ids)
                },
                IndexMove::Done => ids.len() == 0,
                IndexMove::Fault(_) => false,
            }
        }),
    decreases frames.len(), top_remaining(frames),
{
    if frames.len() > 0 {
        let top = frames.last();
        let below = frames.drop_last();
        let budget = (total + 1 - frames.len()) as nat;
        let ids = stack_entries(tree, frames, total, keys).unwrap();
        let ahead = entries_ahead(tree, top, budget, keys).unwrap();
        let under = stack_entries(tree, below, total, keys).unwrap();
        assert(ids == ahead + under);
        if 0 <= top.cursor < top.cells.len() {
            let moved = FrameView { cursor: top.cursor + 1, ..top };
            let rest = entries_ahead(tree, moved, budget, keys).unwrap();
            let bumped = bump(frames);
            assert(bumped.drop_last() =~= below);
            assert(bumped.last() == moved);
            assert(stack_entries(tree, bumped, total, keys) == Some(rest + under));
            match top.cells[top.cursor] {
                CellView::LeafIndexCell { payload } => {
                    let (columns, id) = index_entry(payload).unwrap();
                    if entry_equals(columns, keys) {
                        assert(ahead == seq![id] + rest);
                        assert(ids.skip(1) =~= rest + under);
                    } else {
                        lemma_index_step(tree, bumped, total, keys);
                    }
                },
                CellView::InteriorIndexCell { left_child_page, payload } => {
                    let (columns, id) = index_entry(payload).unwrap();
                    if entry_below(columns, keys) {
                        lemma_index_step(tree, bumped, total, keys);
                    } else {
                        assert(subtree_entries(tree, left_child_page, budget, keys) is Some);
                        let child = fresh_frame(tree[left_child_page]).unwrap();
                        let inside = entries_ahead(tree, child, (budget - 1) as nat, keys).unwrap();
                        assert(ahead == inside + rest);
                        let entered = bumped.push(child);
                        assert(entered.drop_last() =~= bumped);
                        assert(entered.last() == child);
                        assert(stack_entries(tree, entered, total, keys) == Some(
                            inside + (rest + under),
                        ));
                        assert(inside + (rest + under) =~= (inside + rest) + under);
                    }
                },
                _ => {},
            }
        } else {
            match top.right_most_pointer {
                Some(p) => {
                    assert(subtree_entries(tree, p, budget, keys) is Some);
                    let child = fresh_frame(tree[p]).unwrap();
                    let inside = entries_ahead(tree, child, (budget - 1) as nat, keys).unwrap();
                    let taken = FrameView { right_most_pointer: None, ..top };
                    let left = take_right_most(frames);
                    assert(left.drop_last() =~= below);
                    assert(left.last() == taken);
                    assert(entries_ahead(tree, taken, budget, keys) == Some(Seq::<i64>::empty()));
                    assert(stack_entries(tree, left, total, keys) == Some(
                        Seq::<i64>::empty() + under,
                    ));
                    let entered = left.push(child);
                    assert(entered.drop_last() =~= left);
                    assert(entered.last() == child);
                    assert(stack_entries(tree, entered, total, keys) == Some(
                        inside + (Seq::<i64>::empty() + under),
                    ));
                    assert(inside + (Seq::<i64>::empty() + under) =~= ids);
                },
                None => {
                    assert(ids =~= under);
                    lemma_index_step(tree, below, total, keys);
                },
            }
        }
    }
}

/// The rows of `rows` whose row id is one of `ids`, in their order.
pub open spec fn keep(rows: Seq<LeafView>, ids: Seq<i64>) -> Seq<LeafView>
    decreases rows.len(),
{
    if rows.len() == 0 {
        Seq::empty()
    } else if ids.contains(rows.last().row_id.value) {
        keep(rows.drop_last(), ids).push(rows.last())
    } else {
        keep(rows.drop_last(), ids)
    }
}

/// Keeping rows of two lists one after the other keeps those of each.
pub proof fn lemma_keep_join(a: Seq<LeafView>, b: Seq<LeafView>, ids: Seq<i64>)
    ensures
        keep(a + b, ids) == keep(a, ids) + keep(b, ids),
    decreases b.len(),
{
    if b.len() == 0 {
        assert(a + b =~= a);
        assert(keep(a, ids) + keep(b, ids) =~= keep(a, ids));
    } else {
        lemma_keep_join(a, b.drop_last(), ids);
        assert((a + b).drop_last() =~= a + b.drop_last());
        assert((a + b).last() == b.last());
        if ids.contains(b.last().row_id.value) {
            assert((keep(a, ids) + keep(b.drop_last(), ids)).push(b.last()) =~= keep(a, ids)
                + keep(b.drop_last(), ids).push(b.last()));
        }
    }
}

/// Two lists of row ids that hold the same of the row ids of `rows` keep
/// the same rows.
pub proof fn lemma_keep_same(rows: Seq<LeafView>, first: Seq<i64>, second: Seq<i64>)
    requires
        forall|i: int|
            0 <= i < rows.len() ==> (first.contains((#[trigger] rows[i]).row_id.value)
                <==> second.contains(rows[i].row_id.value)),
    ensures
        keep(rows, first) == keep(rows, second),
    decreases rows.len(),
{
    if rows.len() > 0 {
        assert forall|i: int| 0 <= i < rows.drop_last().len() implies (first.contains(
            (#[trigger] rows.drop_last()[i]).row_id.value,
        ) <==> second.contains(rows.drop_last()[i].row_id.value)) by {
            assert(rows.drop_last()[i] == rows[i]);
        }
        lemma_keep_same(rows.drop_last(), first, second);
        assert(rows.last() == rows[rows.len() - 1]);
    }
}

/// No row is kept where no row id of `rows` is one of `ids`.
pub proof fn lemma_keep_none(rows: Seq<LeafView>, ids: Seq<i64>)
    requires
        forall|i: int| 0 <= i < rows.len() ==> !ids.contains((#[trigger] rows[i]).row_id.value),
    ensures
        keep(rows, ids) == Seq::<LeafView>::empty(),
    decreases rows.len(),
{
    if rows.len() > 0 {
        assert forall|i: int| 0 <= i < rows.drop_last().len() implies !ids.contains(
            (#[trigger] rows.drop_last()[i]).row_id.value,
        ) by {
            assert(rows.drop_last()[i] == rows[i]);
        }
        lemma_keep_none(rows.drop_last(), ids);
        assert(rows.last() == rows[rows.len() - 1]);
    }
}

/// Whether the row ids of `ids` go up from each to the next.
pub open spec fn ids_ascending(ids: Seq<i64>) -> bool {
    forall|i: int, j: int| 0 <= i < j < ids.len() ==> ids[i] < ids[j]
}

/// The row ids that are still wanted: the one whose row is being looked
/// for, if there is one, and then those that the index will ask for.
pub open spec fn wanted(pending: Option<i64>, ids: Seq<i64>) -> Seq<i64> {
    match pending {
        Some(id) => seq![id] + ids,
        None => ids,
    }
}

/// Whether an index cursor and the cursor of its table stand in sound
/// trees: the index walk has row ids ahead that go up, together with the
/// one being looked for, and the table has rows ahead that go up, in a tree
/// that is keyed.
pub open spec fn joined(
    tree: Map<u32, PageView>,
    v: IndexView,
    index_total: nat,
    table_total: nat,
) -> bool {
    &&& stack_entries(tree, v.frames, index_total, v.keys) matches Some(ids)
    &&& ids_ascending(wanted(v.pending, ids))
    &&& stack_rows(tree, v.table, table_total) matches Some(rows)
    &&& ascending(rows)
    &&& stack_keyed(tree, v.table, table_total)
}

/// The rows that are still to come: those ahead in the table whose row id
/// is still wanted.
pub open spec fn to_come(
    tree: Map<u32, PageView>,
    v: IndexView,
    index_total: nat,
    table_total: nat,
) -> Seq<LeafView> {
    keep(
        stack_rows(tree, v.table, table_total).unwrap(),
        wanted(v.pending, stack_entries(tree, v.frames, index_total, v.keys).unwrap()),
    )
}

/// What is left of rows that go up goes up, and keeps the rows whose row id
/// is one of `ids`, where none of `ids` lies below the target.
pub proof fn lemma_keep_tail(
    rows: Seq<LeafView>,
    rest: Seq<LeafView>,
    target: int,
    ids: Seq<i64>,
)
    requires
        tail_below(rows, rest, target),
        ascending(rows),
        forall|j: int| 0 <= j < ids.len() ==> ids[j] >= target,
    ensures
        ascending(rest),
        keep(rows, ids) == keep(rest, ids),
{
    let k = rows.len() - rest.len();
    let front = rows.take(k);
    assert(rows =~= front + rest);
    assert forall|i: int, j: int| 0 <= i < j < rest.len() implies (#[trigger] rest[i]).row_id.value
        < (#[trigger] rest[j]).row_id.value by {
        assert(rest[i] == rows[k + i] && rest[j] == rows[k + j]);
    }
    assert forall|i: int| 0 <= i < front.len() implies !ids.contains(
        (#[trigger] front[i]).row_id.value,
    ) by {
        assert(front[i] == rows[i]);
        if ids.contains(front[i].row_id.value) {
            let j = choose|j: int| 0 <= j < ids.len() && ids[j] == front[i].row_id.value;
            assert(ids[j] >= target);
        }
    }
    lemma_keep_none(front, ids);
    lemma_keep_join(front, rest, ids);
    assert(Seq::<LeafView>::empty() + keep(rest, ids) =~= keep(rest, ids));
}

/// One step of an index cursor joined to its table yields the first of the
/// rows that are still to come.
pub proof fn lemma_join_step(
    tree: Map<u32, PageView>,
    v: IndexView,
    index_total: nat,
    table_total: nat,
)
    requires
        joined(tree, v, index_total, table_total),
    ensures
        ({
            let (after, step) = join_advance(v);
            match step {
                JoinView::Yield { row_id, payload } => {
                    &&& joined(tree, after, index_total, table_total)
                    &&& to_come(tree, v, index_total, table_total) == seq![
                        LeafView { row_id, payload },
                    ] + to_come(tree, after, index_total, table_total)
                },
                JoinView::DescendIndex(p) => {
                    &&& tree.dom().contains(p)
                    &&& fresh_frame(tree[p]) matches Some(child)
                    &&& joined(
                        tree,
                        IndexView { frames: after.frames.push(child), ..after },
                        index_total,
                        table_total,
                    )
                    &&& to_come(
                        tree,
                        IndexView { frames: after.frames.push(child), ..after },
                        index_total,
                        table_total,
                    ) == to_come(tree, v, index_total, table_total)
                },
                JoinView::DescendTable(p) => {
                    &&& tree.dom().contains(p)
                    &&& fresh_frame(tree[p]) matches Some(child)
                    &&& joined(
                        tree,
                        IndexView { table: after.table.push(child), ..after },
                        index_total,
                        table_total,
                    )
                    &&& to_come(
                        tree,
                        IndexView { table: after.table.push(child), ..after },
                        index_total,
                        table_total,
                    ) == to_come(tree, v, index_total, table_total)
                },
                JoinView::Done => to_come(tree, v, index_total, table_total).len() == 0,
                JoinView::Fault(_) => false,
            }
        }),
    decreases v.frames.len(), top_remaining(v.frames), (if v.pending is Some {
        1int
    } else {
        0int
    }),
{
    let ids = stack_entries(tree, v.frames, index_total, v.keys).unwrap();
    let rows = stack_rows(tree, v.table, table_total).unwrap();
    let want = wanted(v.pending, ids);
    match v.pending {
        Some(target) => {
            assert(want[0] == target);
            assert forall|j: int| 0 <= j < want.len() implies want[j] >= target by {
                if j > 0 {
                    assert(want[0] < want[j]);
                }
            }
            assert forall|i: int, j: int| 0 <= i < j < ids.len() implies ids[i] < ids[j] by {
                assert(ids[i] == want[i + 1] && ids[j] == want[j + 1]);
            }
            lemma_search_step(tree, v.table, table_total, target);
            let (table, step) = spec_advance(v.table, Some(target));
            match step {
                StepView::Yield { row_id, payload } => {
                    let found = LeafView { row_id, payload };
                    let rest = stack_rows(tree, table, table_total).unwrap();
                    let tail = seq![found] + rest;
                    lemma_keep_tail(rows, tail, target as int, want);
                    lemma_keep_join(seq![found], rest, want);
                    assert(seq![found].drop_last() =~= Seq::<LeafView>::empty());
                    assert(keep(seq![found].drop_last(), want) =~= Seq::<LeafView>::empty());
                    assert(want.contains(target));
                    assert(keep(seq![found], want) =~= seq![found]);
                    assert forall|i: int, j: int| 0 <= i < j < rest.len() implies (
                    #[trigger] rest[i]).row_id.value < (#[trigger] rest[j]).row_id.value by {
                        assert(rest[i] == tail[i + 1] && rest[j] == tail[j + 1]);
                    }
                    assert forall|i: int| 0 <= i < rest.len() implies (want.contains(
                        (#[trigger] rest[i]).row_id.value,
                    ) <==> ids.contains(rest[i].row_id.value)) by {
                        assert(rest[i] == tail[i + 1]);
                        assert(tail[0] == found);
                        assert(tail[0].row_id.value < tail[i + 1].row_id.value);
                        let x = rest[i].row_id.value;
                        if want.contains(x) {
                            let j = choose|j: int| 0 <= j < want.len() && want[j] == x;
                            assert(j > 0);
                            assert(ids[j - 1] == x);
                        }
                        if ids.contains(x) {
                            let j = choose|j: int| 0 <= j < ids.len() && ids[j] == x;
                            assert(want[j + 1] == x);
                        }
                    }
                    lemma_keep_same(rest, want, ids);
                },
                StepView::Descend(p) => {
                    let child = fresh_frame(tree[p]).unwrap();
                    let rest = stack_rows(tree, table.push(child), table_total).unwrap();
                    lemma_keep_tail(rows, rest, target as int, want);
                },
                StepView::Done => {
                    let rest = stack_rows(tree, table, table_total).unwrap();
                    lemma_keep_tail(rows, rest, target as int, want);
                    assert forall|i: int| 0 <= i < rest.len() implies (want.contains(
                        (#[trigger] rest[i]).row_id.value,
                    ) <==> ids.contains(rest[i].row_id.value)) by {
                        if i > 0 {
                            assert(rest[0].row_id.value < rest[i].row_id.value);
                        }
                        let x = rest[i].row_id.value;
                        if want.contains(x) {
                            let j = choose|j: int| 0 <= j < want.len() && want[j] == x;
                            assert(j > 0);
                            assert(ids[j - 1] == x);
                        }
                        if ids.contains(x) {
                            let j = choose|j: int| 0 <= j < ids.len() && ids[j] == x;
                            assert(want[j + 1] == x);
                        }
                    }
                    lemma_keep_same(rest, want, ids);
                    let next = IndexView { table, pending: None, ..v };
                    lemma_join_step(tree, next, index_total, table_total);
                },
                StepView::Fault => {},
            }
        },
        None => {
            lemma_index_step(tree, v.frames, index_total, v.keys);
            let (frames, found) = index_advance(v.frames, v.keys);
            match found {
                IndexMove::Lookup(id) => {
                    lemma_lookup_moves_on(v.frames, v.keys);
                    let next = IndexView { frames, pending: Some(id), ..v };
                    assert(wanted(Some(id), ids.skip(1)) =~= ids);
                    lemma_join_step(tree, next, index_total, table_total);
                },
                IndexMove::Descend(p) => {},
                IndexMove::Done => {
                    assert forall|i: int| 0 <= i < rows.len() implies !ids.contains(
                        (#[trigger] rows[i]).row_id.value,
                    ) by {}
                    lemma_keep_none(rows, ids);
                },
                IndexMove::Fault(_) => {},
            }
        },
    }
}

/// The rows that an index cursor joined to its table yields in at most
/// `fuel` steps, each page that it asks for being taken from `tree`; `None`
/// where it is not done by then or meets a fault.
pub open spec fn join_walk(tree: Map<u32, PageView>, v: IndexView, fuel: nat) -> Option<
    Seq<LeafView>,
>
    decreases fuel,
{
    if fuel == 0 {
        None
    } else {
        let (after, step) = join_advance(v);
        match step {
            JoinView::Yield { row_id, payload } => join_rows(
                Some(seq![LeafView { row_id, payload }]),
                join_walk(tree, after, (fuel - 1) as nat),
            ),
            JoinView::DescendIndex(p) => if tree.dom().contains(p) && fresh_frame(tree[p])
                is Some {
                join_walk(
                    tree,
                    IndexView { frames: after.frames.push(fresh_frame(tree[p]).unwrap()), ..after },
                    (fuel - 1) as nat,
                )
            } else {
                None
            },
            JoinView::DescendTable(p) => if tree.dom().contains(p) && fresh_frame(tree[p])
                is Some {
                join_walk(
                    tree,
                    IndexView { table: after.table.push(fresh_frame(tree[p]).unwrap()), ..after },
                    (fuel - 1) as nat,
                )
            } else {
                None
            },
            JoinView::Done => Some(Seq::empty()),
            JoinView::Fault(_) => None,
        }
    }
}

/// An index cursor joined to its table that comes to its end has yielded
/// the rows of the table whose row ids the index asked for, each once and in
/// the order of the table.
pub proof fn lemma_join_yields_wanted_rows(
    tree: Map<u32, PageView>,
    v: IndexView,
    index_total: nat,
    table_total: nat,
    fuel: nat,
)
    requires
        joined(tree, v, index_total, table_total),
        join_walk(tree, v, fuel) is Some,
    ensures
        join_walk(tree, v, fuel) == Some(to_come(tree, v, index_total, table_total)),
    decreases fuel,
{
    lemma_join_step(tree, v, index_total, table_total);
    let (after, step) = join_advance(v);
    match step {
        JoinView::Yield { row_id, payload } => {
            lemma_join_yields_wanted_rows(tree, after, index_total, table_total, (fuel - 1) as nat);
        },
        JoinView::DescendIndex(p) => {
            lemma_join_yields_wanted_rows(
                tree,
                IndexView { frames: after.frames.push(fresh_frame(tree[p]).unwrap()), ..after },
                index_total,
                table_total,
                (fuel - 1) as nat,
            );
        },
        JoinView::DescendTable(p) => {
            lemma_join_yields_wanted_rows(
                tree,
                IndexView { table: after.table.push(fresh_frame(tree[p]).unwrap()), ..after },
                index_total,
                table_total,
                (fuel - 1) as nat,
            );
        },
        JoinView::Done => {
            assert(to_come(tree, v, index_total, table_total) =~= Seq::<LeafView>::empty());
        },
        JoinView::Fault(_) => {},
    }
}

/// The row that a leaf cell of a table shows, where its record decodes.
pub open spec fn row_of(leaf: LeafView) -> Option<Seq<RecordValue>> {
    match decode_record(leaf.payload) {
        Some(values) => Some(alias_row_id(values, leaf.row_id.value)),
        None => None,
    }
}

/// Whether the row of a leaf cell decodes and meets all of `conjuncts`.
pub open spec fn passes(leaf: LeafView, conjuncts: Seq<MappedConjunctView>) -> bool {
    row_of(leaf) matches Some(row) && row_matches(conjuncts, row)
}

/// The cells among `rows` whose rows meet all of `conjuncts`, in their order.
pub open spec fn passing(rows: Seq<LeafView>, conjuncts: Seq<MappedConjunctView>) -> Seq<
    LeafView,
>
    decreases rows.len(),
{
    if rows.len() == 0 {
        Seq::empty()
    } else if passes(rows.last(), conjuncts) {
        passing(rows.drop_last(), conjuncts).push(rows.last())
    } else {
        passing(rows.drop_last(), conjuncts)
    }
}

/// Whether the index agrees with the table for the keys `keys`: the row ids
/// that its walk asks for are those of the rows that meet the keys.
pub open spec fn index_agrees(
    rows: Seq<LeafView>,
    ids: Seq<i64>,
    keys: Seq<MappedConjunctView>,
) -> bool {
    forall|i: int|
        0 <= i < rows.len() ==> (ids.contains((#[trigger] rows[i]).row_id.value) <==> passes(
            rows[i],
            keys,
        ))
}

/// Of the rows whose row ids the index asks for, those that meet the
/// residuals are the rows that meet all conditions.
pub proof fn lemma_passing_kept(
    rows: Seq<LeafView>,
    ids: Seq<i64>,
    conjuncts: Seq<MappedConjunctView>,
    index_columns: Seq<Seq<char>>,
    names: Seq<Seq<char>>,
)
    requires
        index_agrees(rows, ids, split_prefix(conjuncts, index_columns, names).0),
    ensures
        passing(keep(rows, ids), split_prefix(conjuncts, index_columns, names).1) == passing(
            rows,
            conjuncts,
        ),
    decreases rows.len(),
{
    let (keys, rest) = split_prefix(conjuncts, index_columns, names);
    if rows.len() > 0 {
        let front = rows.drop_last();
        let last = rows.last();
        assert(last == rows[rows.len() - 1]);
        assert forall|i: int| 0 <= i < front.len() implies (ids.contains(
            (#[trigger] front[i]).row_id.value,
        ) <==> passes(front[i], keys)) by {
            assert(front[i] == rows[i]);
        }
        lemma_passing_kept(front, ids, conjuncts, index_columns, names);
        match row_of(last) {
            Some(row) => {
                lemma_split_keeps_conditions(conjuncts, index_columns, names, row);
            },
            None => {},
        }
        if ids.contains(last.row_id.value) {
            let kept = keep(front, ids).push(last);
            assert(kept.drop_last() =~= keep(front, ids));
            assert(kept.last() == last);
        }
    }
}

/// The number of steps that a walk over the index beneath page `page` takes.
pub open spec fn subtree_index_steps(
    tree: Map<u32, PageView>,
    page: u32,
    height: nat,
    keys: Seq<Seq<char>>,
) -> nat
    decreases height, 0nat,
{
    if height == 0 || !tree.dom().contains(page) {
        0
    } else {
        match fresh_frame(tree[page]) {
            Some(frame) => index_steps_ahead(tree, frame, (height - 1) as nat, keys),
            None => 0,
        }
    }
}

/// The number of steps that a walk over an index takes through what lies
/// ahead of the cursor of `frame`: one for each cell and one for the
/// right-most child, and those that each child takes that is entered.
pub open spec fn index_steps_ahead(
    tree: Map<u32, PageView>,
    frame: FrameView,
    height: nat,
    keys: Seq<Seq<char>>,
) -> nat
    decreases height, cells_ahead(frame) + 1,
{
    if 0 <= frame.cursor < frame.cells.len() {
        let rest = index_steps_ahead(
            tree,
            FrameView { cursor: frame.cursor + 1, ..frame },
            height,
            keys,
        );
        match frame.cells[frame.cursor] {
            CellView::InteriorIndexCell { left_child_page, payload } => match index_entry(payload) {
                Some((columns, _)) => if entry_below(columns, keys) {
                    1 + rest
                } else {
                    1 + subtree_index_steps(tree, left_child_page, height, keys) + rest
                },
                None => 1 + rest,
            },
            _ => 1 + rest,
        }
    } else {
        match frame.right_most_pointer {
            Some(p) => 1 + subtree_index_steps(tree, p, height, keys),
            None => 0,
        }
    }
}

/// The number of steps that a walk over an index with the stack `frames` takes.
pub open spec fn stack_index_steps(
    tree: Map<u32, PageView>,
    frames: Seq<FrameView>,
    total: nat,
    keys: Seq<Seq<char>>,
) -> nat
    decreases frames.len(),
{
    if frames.len() == 0 || total + 1 < frames.len() {
        0
    } else {
        index_steps_ahead(tree, frames.last(), (total + 1 - frames.len()) as nat, keys)
            + stack_index_steps(tree, frames.drop_last(), total, keys)
    }
}

/// A step of an index cursor on its own sound tree that finds an entry or
/// asks for a page leaves fewer steps to take.
pub proof fn lemma_index_moves_on(
    tree: Map<u32, PageView>,
    frames: Seq<FrameView>,
    total: nat,
    keys: Seq<Seq<char>>,
)
    requires
        stack_entries(tree, frames, total, keys) is Some,
    ensures
        ({
            let (after, found) = index_advance(frames, keys);
            match found {
                IndexMove::Lookup(id) => stack_index_steps(tree, after, total, keys) + 1
                    <= stack_index_steps(tree, frames, total, keys),
                IndexMove::Descend(p) => stack_index_steps(
                    tree,
                    after.push(fresh_frame(tree[p]).unwrap()),
                    total,
                    keys,
                ) + 1 <= stack_index_steps(tree, frames, total, keys),
                _ => true,
            }
        }),
    decreases frames.len(), top_remaining(frames),
{
    if frames.len() > 0 {
        let top = frames.last();
        let below = frames.drop_last();
        let budget = (total + 1 - frames.len()) as nat;
        let ahead = entries_ahead(tree, top, budget, keys).unwrap();
        let under = stack_index_steps(tree, below, total, keys);
        assert(stack_entries(tree, below, total, keys) is Some);
        assert(stack_index_steps(tree, frames, total, keys) == index_steps_ahead(
            tree,
            top,
            budget,
            keys,
        ) + under);
        if 0 <= top.cursor < top.cells.len() {
            let moved = FrameView { cursor: top.cursor + 1, ..top };
            let rest = index_steps_ahead(tree, moved, budget, keys);
            let bumped = bump(frames);
            assert(entries_ahead(tree, moved, budget, keys) is Some);
            assert(bumped.drop_last() =~= below);
            assert(bumped.last() == moved);
            assert(stack_entries(tree, bumped, total, keys) is Some);
            assert(stack_index_steps(tree, bumped, total, keys) == rest + under);
            match top.cells[top.cursor] {
                CellView::LeafIndexCell { payload } => {
                    let (columns, id) = index_entry(payload).unwrap();
                    if !entry_equals(columns, keys) {
                        lemma_index_moves_on(tree, bumped, total, keys);
                    }
                },
                CellView::InteriorIndexCell { left_child_page, payload } => {
                    let (columns, id) = index_entry(payload).unwrap();
                    if entry_below(columns, keys) {
                        lemma_index_moves_on(tree, bumped, total, keys);
                    } else {
                        assert(subtree_entries(tree, left_child_page, budget, keys) is Some);
                        let child = fresh_frame(tree[left_child_page]).unwrap();
                        let inside = index_steps_ahead(tree, child, (budget - 1) as nat, keys);
                        assert(subtree_index_steps(tree, left_child_page, budget, keys) == inside);
                        let entered = bumped.push(child);
                        assert(entered.drop_last() =~= bumped);
                        assert(entered.last() == child);
                        assert(stack_index_steps(tree, entered, total, keys) == inside + (rest
                            + under));
                    }
                },
                _ => {},
            }
        } else {
            match top.right_most_pointer {
                Some(p) => {
                    assert(subtree_entries(tree, p, budget, keys) is Some);
                    let child = fresh_frame(tree[p]).unwrap();
                    let inside = index_steps_ahead(tree, child, (budget - 1) as nat, keys);
                    assert(subtree_index_steps(tree, p, budget, keys) == inside);
                    let taken = FrameView { right_most_pointer: None, ..top };
                    let left = take_right_most(frames);
                    assert(left.drop_last() =~= below);
                    assert(left.last() == taken);
                    assert(index_steps_ahead(tree, taken, budget, keys) == 0);
                    assert(stack_index_steps(tree, left, total, keys) == under);
                    let entered = left.push(child);
                    assert(entered.drop_last() =~= left);
                    assert(entered.last() == child);
                    assert(stack_index_steps(tree, entered, total, keys) == inside + under);
                },
                None => {
                    assert(index_steps_ahead(tree, top, budget, keys) == 0);
                    lemma_index_moves_on(tree, below, total, keys);
                },
            }
        }
    }
}

/// Whether both trees that an index cursor stands in are sound.
pub open spec fn sound(
    tree: Map<u32, PageView>,
    v: IndexView,
    index_total: nat,
    table_total: nat,
) -> bool {
    &&& stack_entries(tree, v.frames, index_total, v.keys) is Some
    &&& stack_rows(tree, v.table, table_total) is Some
}

/// The number of steps that an index cursor joined to its table takes at
/// most before the step that tells that it is done.
pub open spec fn join_steps(
    tree: Map<u32, PageView>,
    v: IndexView,
    index_total: nat,
    table_total: nat,
) -> nat {
    stack_index_steps(tree, v.frames, index_total, v.keys) + stack_steps(
        tree,
        v.table,
        table_total,
    )
}

/// Each step of an index cursor joined to its table, in sound trees, that
/// is not the last leaves fewer steps to take.
pub proof fn lemma_join_moves_on(
    tree: Map<u32, PageView>,
    v: IndexView,
    index_total: nat,
    table_total: nat,
)
    requires
        sound(tree, v, index_total, table_total),
    ensures
        ({
            let (after, step) = join_advance(v);
            match step {
                JoinView::Yield { row_id, payload } => {
                    &&& sound(tree, after, index_total, table_total)
                    &&& join_steps(tree, after, index_total, table_total) + 1 <= join_steps(
                        tree,
                        v,
                        index_total,
                        table_total,
                    )
                },
                JoinView::DescendIndex(p) => {
                    &&& tree.dom().contains(p)
                    &&& fresh_frame(tree[p]) matches Some(child)
                    &&& sound(
                        tree,
                        IndexView { frames: after.frames.push(child), ..after },
                        index_total,
                        table_total,
                    )
                    &&& join_steps(
                        tree,
                        IndexView { frames: after.frames.push(child), ..after },
                        index_total,
                        table_total,
                    ) + 1 <= join_steps(tree, v, index_total, table_total)
                },
                JoinView::DescendTable(p) => {
                    &&& tree.dom().contains(p)
                    &&& fresh_frame(tree[p]) matches Some(child)
                    &&& sound(
                        tree,
                        IndexView { table: after.table.push(child), ..after },
                        index_total,
                        table_total,
                    )
                    &&& join_steps(
                        tree,
                        IndexView { table: after.table.push(child), ..after },
                        index_total,
                        table_total,
                    ) + 1 <= join_steps(tree, v, index_total, table_total)
                },
                JoinView::Done => true,
                JoinView::Fault(_) => false,
            }
        }),
    decreases v.frames.len(), top_remaining(v.frames), (if v.pending is Some {
        1int
    } else {
        0int
    }),
{
    match v.pending {
        Some(target) => {
            lemma_search_moves_on(tree, v.table, table_total, target);
            let (table, step) = spec_advance(v.table, Some(target));
            match step {
                StepView::Done => {
                    lemma_join_moves_on(
                        tree,
                        IndexView { table, pending: None, ..v },
                        index_total,
                        table_total,
                    );
                },
                _ => {},
            }
        },
        None => {
            lemma_index_step(tree, v.frames, index_total, v.keys);
            lemma_index_moves_on(tree, v.frames, index_total, v.keys);
            let (frames, found) = index_advance(v.frames, v.keys);
            match found {
                IndexMove::Lookup(id) => {
                    lemma_lookup_moves_on(v.frames, v.keys);
                    lemma_join_moves_on(
                        tree,
                        IndexView { frames, pending: Some(id), ..v },
                        index_total,
                        table_total,
                    );
                },
                _ => {},
            }
        },
    }
}

/// An index cursor joined to its table, in sound trees, comes to its end.
pub proof fn lemma_join_ends(
    tree: Map<u32, PageView>,
    v: IndexView,
    index_total: nat,
    table_total: nat,
)
    requires
        sound(tree, v, index_total, table_total),
    ensures
        join_walk(tree, v, join_steps(tree, v, index_total, table_total) + 1) is Some,
    decreases join_steps(tree, v, index_total, table_total),
{
    lemma_join_moves_on(tree, v, index_total, table_total);
    let (after, step) = join_advance(v);
    let fuel = join_steps(tree, v, index_total, table_total);
    match step {
        JoinView::Yield { row_id, payload } => {
            lemma_join_ends(tree, after, index_total, table_total);
            lemma_join_walk_longer(
                tree,
                after,
                join_steps(tree, after, index_total, table_total) + 1,
                fuel,
            );
        },
        JoinView::DescendIndex(p) => {
            let entered = IndexView {
                frames: after.frames.push(fresh_frame(tree[p]).unwrap()),
                ..after
            };
            lemma_join_ends(tree, entered, index_total, table_total);
            lemma_join_walk_longer(
                tree,
                entered,
                join_steps(tree, entered, index_total, table_total) + 1,
                fuel,
            );
        },
        JoinView::DescendTable(p) => {
            let entered = IndexView {
                table: after.table.push(fresh_frame(tree[p]).unwrap()),
                ..after
            };
            lemma_join_ends(tree, entered, index_total, table_total);
            lemma_join_walk_longer(
                tree,
                entered,
                join_steps(tree, entered, index_total, table_total) + 1,
                fuel,
            );
        },
        _ => {},
    }
}

/// A walk that has come to its end within some steps has done so within more.
pub proof fn lemma_join_walk_longer(tree: Map<u32, PageView>, v: IndexView, fuel: nat, more: nat)
    requires
        join_walk(tree, v, fuel) is Some,
        fuel <= more,
    ensures
        join_walk(tree, v, more) == join_walk(tree, v, fuel),
    decreases fuel,
{
    let (after, step) = join_advance(v);
    match step {
        JoinView::Yield { row_id, payload } => {
            lemma_join_walk_longer(tree, after, (fuel - 1) as nat, (more - 1) as nat);
        },
        JoinView::DescendIndex(p) => {
            lemma_join_walk_longer(
                tree,
                IndexView { frames: after.frames.push(fresh_frame(tree[p]).unwrap()), ..after },
                (fuel - 1) as nat,
                (more - 1) as nat,
            );
        },
        JoinView::DescendTable(p) => {
            lemma_join_walk_longer(
                tree,
                IndexView { table: after.table.push(fresh_frame(tree[p]).unwrap()), ..after },
                (fuel - 1) as nat,
                (more - 1) as nat,
            );
        },
        _ => {},
    }
}

/// Answering a statement through an index yields what reading the whole
/// table yields.
///
/// The table is a tree in order, and the index agrees with it: the row ids
/// that a walk over the index asks for, looking for the keys of the
/// statement, go up and are those of the rows that meet the keys.  Then the
/// index cursor comes to its end, and the rows that it yields and that meet
/// the residuals are the rows of a walk over the table that meet all
/// conditions of the statement, each once and in the same order.
pub proof fn lemma_index_plan_equals_scan(
    tree: Map<u32, PageView>,
    table_root: u32,
    table_height: nat,
    low: int,
    high: int,
    index_root: u32,
    index_height: nat,
    conjuncts: Seq<MappedConjunctView>,
    index_columns: Seq<Seq<char>>,
    names: Seq<Seq<char>>,
)
    requires
        subtree_ordered(tree, table_root, table_height, low, high),
        low <= high,
        subtree_entries(
            tree,
            index_root,
            index_height,
            values_of(split_prefix(conjuncts, index_columns, names).0),
        ) matches Some(ids) && ids_ascending(ids) && index_agrees(
            subtree_rows(tree, table_root, table_height).unwrap(),
            ids,
            split_prefix(conjuncts, index_columns, names).0,
        ),
    ensures
        ({
            let (keys, rest) = split_prefix(conjuncts, index_columns, names);
            let start = IndexView {
                frames: seq![fresh_frame(tree[index_root]).unwrap()],
                pending: None,
                table: seq![fresh_frame(tree[table_root]).unwrap()],
                keys: values_of(keys),
            };
            let fuel = join_steps(
                tree,
                start,
                (index_height - 1) as nat,
                (table_height - 1) as nat,
            ) + 1;
            let scan = seq![fresh_frame(tree[table_root]).unwrap()];
            let steps = stack_steps(tree, scan, (table_height - 1) as nat) + 1;
            &&& join_walk(tree, start, fuel) matches Some(found)
            &&& walk(tree, scan, steps) matches Some(rows)
            &&& passing(found, rest) == passing(rows, conjuncts)
        }),
{
    let (keys, rest) = split_prefix(conjuncts, index_columns, names);
    let key_values = values_of(keys);
    let index_frame = fresh_frame(tree[index_root]).unwrap();
    let table_frame = fresh_frame(tree[table_root]).unwrap();
    let start = IndexView {
        frames: seq![index_frame],
        pending: None,
        table: seq![table_frame],
        keys: key_values,
    };
    let index_total = (index_height - 1) as nat;
    let table_total = (table_height - 1) as nat;
    let ids = subtree_entries(tree, index_root, index_height, key_values).unwrap();
    lemma_walk_is_ascending(tree, table_root, table_height, low, high);
    lemma_subtree_ascending(tree, table_root, table_height, low, high);
    let rows = subtree_rows(tree, table_root, table_height).unwrap();
    lemma_ordered_is_keyed(tree, table_frame, table_total, low, high);

    assert(start.frames.drop_last() =~= Seq::<FrameView>::empty());
    assert(start.frames.last() == index_frame);
    assert(stack_entries(tree, Seq::<FrameView>::empty(), index_total, key_values) == Some(
        Seq::<i64>::empty(),
    ));
    assert(ids + Seq::<i64>::empty() =~= ids);
    assert(stack_entries(tree, start.frames, index_total, key_values) == Some(ids));

    assert(start.table.drop_last() =~= Seq::<FrameView>::empty());
    assert(start.table.last() == table_frame);
    assert(stack_rows(tree, Seq::<FrameView>::empty(), table_total) == Some(
        Seq::<LeafView>::empty(),
    ));
    assert(rows + Seq::<LeafView>::empty() =~= rows);
    assert(stack_rows(tree, start.table, table_total) == Some(rows));
    assert(start.table[0] == table_frame);
    assert(stack_keyed(tree, start.table, table_total));

    lemma_join_ends(tree, start, index_total, table_total);
    lemma_join_yields_wanted_rows(
        tree,
        start,
        index_total,
        table_total,
        join_steps(tree, start, index_total, table_total) + 1,
    );
    lemma_passing_kept(rows, ids, conjuncts, index_columns, names);
}

} // verus!

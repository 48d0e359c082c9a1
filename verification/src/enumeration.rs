//! What a walk over a table tree yields, stated against the tree itself.
//!
//! A tree is given as a map from page numbers to pages.  The rows beneath a
//! page are defined by the shape of the tree alone, and the steps of a table
//! cursor are shown to yield exactly these rows, one after another.

use vstd::prelude::*;
use crate::cursor::{
    bump, fresh_frame, spec_advance, take_right_most, top_remaining, FrameView, StepView,
};
use crate::record_handler::Varint;
use crate::tree_handler::{CellView, PageView};

verus! {

/// What a row of a table holds: its row id and the bytes of its record.
pub struct LeafView {
    pub row_id: Varint,
    pub payload: Seq<u8>,
}

/// The rows `a` followed by the rows `b`, where both are there.
pub open spec fn join_rows(a: Option<Seq<LeafView>>, b: Option<Seq<LeafView>>) -> Option<
    Seq<LeafView>,
> {
    match (a, b) {
        (Some(x), Some(y)) => Some(x + y),
        _ => None,
    }
}

/// The rows beneath page `page` of `tree`, in the order of the tree, where
/// the tree beneath it is sound and at most `height` levels deep: every page
/// is there, its cells decode, and they are cells of a table.
pub open spec fn subtree_rows(tree: Map<u32, PageView>, page: u32, height: nat) -> Option<
    Seq<LeafView>,
>
    decreases height, 0nat,
{
    if height == 0 || !tree.dom().contains(page) {
        None
    } else {
        match fresh_frame(tree[page]) {
            Some(frame) => rows_ahead(tree, frame, (height - 1) as nat),
            None => None,
        }
    }
}

/// The rows that lie ahead of the cursor of `frame`: those of the cells not
/// yet passed, each interior cell standing for the rows beneath its left
/// child, and then those beneath the right-most child, if it is still ahead.
pub open spec fn rows_ahead(tree: Map<u32, PageView>, frame: FrameView, height: nat) -> Option<
    Seq<LeafView>,
>
    decreases height, cells_ahead(frame) + 1,
{
    if 0 <= frame.cursor < frame.cells.len() {
        let rest = rows_ahead(tree, FrameView { cursor: frame.cursor + 1, ..frame }, height);
        match frame.cells[frame.cursor] {
            CellView::LeafTableCell { row_id, payload } => join_rows(
                Some(seq![LeafView { row_id, payload }]),
                rest,
            ),
            CellView::InteriorTableCell { left_child_page, row_id } => join_rows(
                subtree_rows(tree, left_child_page, height),
                rest,
            ),
            _ => None,
        }
    } else {
        match frame.right_most_pointer {
            Some(p) => subtree_rows(tree, p, height),
            None => Some(Seq::empty()),
        }
    }
}

/// The number of cells of `frame` that are ahead of its cursor.
pub open spec fn cells_ahead(frame: FrameView) -> nat {
    if 0 <= frame.cursor < frame.cells.len() {
        (frame.cells.len() - frame.cursor) as nat
    } else {
        0
    }
}

/// The rows that lie ahead of a cursor with the stack `frames`: those ahead
/// in the innermost frame first, then those ahead in the frames around it.
/// The outermost frame, the root, may have `total` levels beneath it, and
/// each frame within one level less than the frame around it.
pub open spec fn stack_rows(tree: Map<u32, PageView>, frames: Seq<FrameView>, total: nat) -> Option<
    Seq<LeafView>,
>
    decreases frames.len(),
{
    if frames.len() == 0 {
        Some(Seq::empty())
    } else if total + 1 < frames.len() {
        None
    } else {
        join_rows(
            rows_ahead(tree, frames.last(), (total + 1 - frames.len()) as nat),
            stack_rows(tree, frames.drop_last(), total),
        )
    }
}

/// One step of a walk yields the first of the rows that lie ahead.
///
/// Where the rows ahead of a cursor are `rows`, a step without a target
/// either yields the first of them and leaves the others ahead, or asks for
/// a page of the tree, after whose entry the same rows are ahead, or is done
/// where no row is ahead.  It never meets a cell that has no place in a table.
pub proof fn lemma_step_yields_first_row(
    tree: Map<u32, PageView>,
    frames: Seq<FrameView>,
    total: nat,
)
    requires
        stack_rows(tree, frames, total) is Some,
    ensures
        ({
            let rows = stack_rows(tree, frames, total).unwrap();
            let (after, step) = spec_advance(frames, None);
            match step {
                StepView::Yield { row_id, payload } => {
                    &&& rows.len() > 0
                    &&& rows[0] == LeafView { row_id, payload }
                    &&& stack_rows(tree, after, total) == Some(rows.skip(1))
                },
                StepView::Descend(p) => {
                    &&& tree.dom().contains(p)
                    &&& fresh_frame(tree[p]) is Some
                    &&& stack_rows(tree, after.push(fresh_frame(tree[p]).unwrap()), total) == Some(
                        rows,
                    )
                },
                StepView::Done => rows.len() == 0 && after.len() == 0,
                StepView::Fault => false,
            }
        }),
    decreases frames.len(),
{
    if frames.len() > 0 {
        let top = frames.last();
        let below = frames.drop_last();
        let budget = (total + 1 - frames.len()) as nat;
        let rows = stack_rows(tree, frames, total).unwrap();
        let ahead = rows_ahead(tree, top, budget).unwrap();
        let under = stack_rows(tree, below, total).unwrap();
        assert(rows == ahead + under);
        if 0 <= top.cursor < top.cells.len() {
            let moved = FrameView { cursor: top.cursor + 1, ..top };
            let rest = rows_ahead(tree, moved, budget).unwrap();
            assert(bump(frames).drop_last() =~= below);
            assert(bump(frames).last() == moved);
            assert(stack_rows(tree, bump(frames), total) == Some(rest + under));
            match top.cells[top.cursor] {
                CellView::LeafTableCell { row_id, payload } => {
                    assert(ahead == seq![LeafView { row_id, payload }] + rest);
                    assert(rows.skip(1) =~= rest + under);
                },
                CellView::InteriorTableCell { left_child_page, row_id } => {
                    assert(subtree_rows(tree, left_child_page, budget) is Some);
                    let child = fresh_frame(tree[left_child_page]).unwrap();
                    let inside = rows_ahead(tree, child, (budget - 1) as nat).unwrap();
                    assert(ahead == inside + rest);
                    let entered = bump(frames).push(child);
                    assert(entered.drop_last() =~= bump(frames));
                    assert(entered.last() == child);
                    assert(stack_rows(tree, entered, total) == Some(inside + (rest + under)));
                    assert(inside + (rest + under) =~= (inside + rest) + under);
                },
                _ => {},
            }
        } else {
            match top.right_most_pointer {
                Some(p) => {
                    assert(subtree_rows(tree, p, budget) is Some);
                    let child = fresh_frame(tree[p]).unwrap();
                    let inside = rows_ahead(tree, child, (budget - 1) as nat).unwrap();
                    assert(ahead == inside);
                    let taken = FrameView { right_most_pointer: None, ..top };
                    assert(take_right_most(frames).drop_last() =~= below);
                    assert(take_right_most(frames).last() == taken);
                    assert(rows_ahead(tree, taken, budget) == Some(Seq::<LeafView>::empty()));
                    assert(stack_rows(tree, take_right_most(frames), total) == Some(
                        Seq::<LeafView>::empty() + under,
                    ));
                    let entered = take_right_most(frames).push(child);
                    assert(entered.drop_last() =~= take_right_most(frames));
                    assert(entered.last() == child);
                    assert(stack_rows(tree, entered, total) == Some(
                        inside + (Seq::<LeafView>::empty() + under),
                    ));
                    assert(inside + (Seq::<LeafView>::empty() + under) =~= inside + under);
                },
                None => {
                    assert(ahead =~= Seq::<LeafView>::empty());
                    assert(rows =~= under);
                    lemma_step_yields_first_row(tree, below, total);
                },
            }
        }
    }
}

/// The rows that a walk yields in at most `fuel` steps, each page that it
/// asks for being taken from `tree`; `None` where the walk is not done by
/// then, asks for a page that is not there or does not decode, or meets a
/// cell that has no place in a table.
pub open spec fn walk(tree: Map<u32, PageView>, frames: Seq<FrameView>, fuel: nat) -> Option<
    Seq<LeafView>,
>
    decreases fuel,
{
    if fuel == 0 {
        None
    } else {
        let (after, step) = spec_advance(frames, None);
        match step {
            StepView::Yield { row_id, payload } => join_rows(
                Some(seq![LeafView { row_id, payload }]),
                walk(tree, after, (fuel - 1) as nat),
            ),
            StepView::Descend(p) => if tree.dom().contains(p) && fresh_frame(tree[p]) is Some {
                walk(tree, after.push(fresh_frame(tree[p]).unwrap()), (fuel - 1) as nat)
            } else {
                None
            },
            StepView::Done => Some(Seq::empty()),
            StepView::Fault => None,
        }
    }
}

/// A walk that comes to its end has yielded the rows that lay ahead of it,
/// each once and in the order of the tree.
pub proof fn lemma_walk_yields_rows_ahead(
    tree: Map<u32, PageView>,
    frames: Seq<FrameView>,
    total: nat,
    fuel: nat,
)
    requires
        stack_rows(tree, frames, total) is Some,
        walk(tree, frames, fuel) is Some,
    ensures
        walk(tree, frames, fuel) == stack_rows(tree, frames, total),
    decreases fuel,
{
    lemma_step_yields_first_row(tree, frames, total);
    let rows = stack_rows(tree, frames, total).unwrap();
    let (after, step) = spec_advance(frames, None);
    match step {
        StepView::Yield { row_id, payload } => {
            lemma_walk_yields_rows_ahead(tree, after, total, (fuel - 1) as nat);
            assert(seq![LeafView { row_id, payload }] + rows.skip(1) =~= rows);
        },
        StepView::Descend(p) => {
            lemma_walk_yields_rows_ahead(
                tree,
                after.push(fresh_frame(tree[p]).unwrap()),
                total,
                (fuel - 1) as nat,
            );
        },
        StepView::Done => {
            assert(rows =~= Seq::<LeafView>::empty());
        },
        StepView::Fault => {},
    }
}

/// A walk from the root of a sound tree that comes to its end has yielded
/// every row beneath the root, each once and in the order of the tree.
pub proof fn lemma_walk_enumerates_tree(
    tree: Map<u32, PageView>,
    root: u32,
    height: nat,
    fuel: nat,
)
    requires
        subtree_rows(tree, root, height) is Some,
        walk(tree, seq![fresh_frame(tree[root]).unwrap()], fuel) is Some,
    ensures
        walk(tree, seq![fresh_frame(tree[root]).unwrap()], fuel) == subtree_rows(
            tree,
            root,
            height,
        ),
{
    let frame = fresh_frame(tree[root]).unwrap();
    let frames = seq![frame];
    let total = (height - 1) as nat;
    assert(frames.drop_last() =~= Seq::<FrameView>::empty());
    assert(frames.last() == frame);
    let rows = rows_ahead(tree, frame, total).unwrap();
    assert(rows + Seq::<LeafView>::empty() =~= rows);
    assert(stack_rows(tree, Seq::<FrameView>::empty(), total) == Some(Seq::<LeafView>::empty()));
    assert(stack_rows(tree, frames, total) == Some(rows));
    lemma_walk_yields_rows_ahead(tree, frames, total, fuel);
}

/// The number of steps that a walk takes through the rows beneath page
/// `page`, where the tree beneath it is sound.
pub open spec fn subtree_steps(tree: Map<u32, PageView>, page: u32, height: nat) -> nat
    decreases height, 0nat,
{
    if height == 0 || !tree.dom().contains(page) {
        0
    } else {
        match fresh_frame(tree[page]) {
            Some(frame) => steps_ahead(tree, frame, (height - 1) as nat),
            None => 0,
        }
    }
}

/// The number of steps that a walk takes through what lies ahead of the
/// cursor of `frame`: one for each cell and one for the right-most child,
/// and those that each child takes.
pub open spec fn steps_ahead(tree: Map<u32, PageView>, frame: FrameView, height: nat) -> nat
    decreases height, cells_ahead(frame) + 1,
{
    if 0 <= frame.cursor < frame.cells.len() {
        let rest = steps_ahead(tree, FrameView { cursor: frame.cursor + 1, ..frame }, height);
        match frame.cells[frame.cursor] {
            CellView::InteriorTableCell { left_child_page, row_id } => 1 + subtree_steps(
                tree,
                left_child_page,
                height,
            ) + rest,
            _ => 1 + rest,
        }
    } else {
        match frame.right_most_pointer {
            Some(p) => 1 + subtree_steps(tree, p, height),
            None => 0,
        }
    }
}

/// The number of steps that a walk with the stack `frames` takes before the
/// step that tells that it is done.
pub open spec fn stack_steps(tree: Map<u32, PageView>, frames: Seq<FrameView>, total: nat) -> nat
    decreases frames.len(),
{
    if frames.len() == 0 || total + 1 < frames.len() {
        0
    } else {
        steps_ahead(tree, frames.last(), (total + 1 - frames.len()) as nat) + stack_steps(
            tree,
            frames.drop_last(),
            total,
        )
    }
}

/// Each step of a walk over a sound tree that is not the last leaves one
/// step less to take.
pub proof fn lemma_step_moves_on(tree: Map<u32, PageView>, frames: Seq<FrameView>, total: nat)
    requires
        stack_rows(tree, frames, total) is Some,
    ensures
        ({
            let (after, step) = spec_advance(frames, None);
            match step {
                StepView::Yield { row_id, payload } => stack_steps(tree, after, total) + 1
                    == stack_steps(tree, frames, total),
                StepView::Descend(p) => stack_steps(
                    tree,
                    after.push(fresh_frame(tree[p]).unwrap()),
                    total,
                ) + 1 == stack_steps(tree, frames, total),
                _ => true,
            }
        }),
    decreases frames.len(),
{
    if frames.len() > 0 {
        let top = frames.last();
        let below = frames.drop_last();
        let budget = (total + 1 - frames.len()) as nat;
        let ahead = rows_ahead(tree, top, budget).unwrap();
        let under = stack_steps(tree, below, total);
        assert(stack_rows(tree, below, total) is Some);
        assert(stack_steps(tree, frames, total) == steps_ahead(tree, top, budget) + under);
        if 0 <= top.cursor < top.cells.len() {
            let moved = FrameView { cursor: top.cursor + 1, ..top };
            let rest = steps_ahead(tree, moved, budget);
            assert(bump(frames).drop_last() =~= below);
            assert(bump(frames).last() == moved);
            assert(stack_steps(tree, bump(frames), total) == rest + under);
            match top.cells[top.cursor] {
                CellView::InteriorTableCell { left_child_page, row_id } => {
                    assert(subtree_rows(tree, left_child_page, budget) is Some);
                    let child = fresh_frame(tree[left_child_page]).unwrap();
                    let inside = steps_ahead(tree, child, (budget - 1) as nat);
                    assert(subtree_steps(tree, left_child_page, budget) == inside);
                    let entered = bump(frames).push(child);
                    assert(entered.drop_last() =~= bump(frames));
                    assert(entered.last() == child);
                    assert(stack_steps(tree, entered, total) == inside + (rest + under));
                },
                _ => {},
            }
        } else {
            match top.right_most_pointer {
                Some(p) => {
                    assert(subtree_rows(tree, p, budget) is Some);
                    let child = fresh_frame(tree[p]).unwrap();
                    let inside = steps_ahead(tree, child, (budget - 1) as nat);
                    assert(subtree_steps(tree, p, budget) == inside);
                    let taken = FrameView { right_most_pointer: None, ..top };
                    assert(take_right_most(frames).drop_last() =~= below);
                    assert(take_right_most(frames).last() == taken);
                    assert(steps_ahead(tree, taken, budget) == 0);
                    assert(stack_steps(tree, take_right_most(frames), total) == under);
                    let entered = take_right_most(frames).push(child);
                    assert(entered.drop_last() =~= take_right_most(frames));
                    assert(entered.last() == child);
                    assert(stack_steps(tree, entered, total) == inside + under);
                },
                None => {
                    assert(steps_ahead(tree, top, budget) == 0);
                    lemma_step_moves_on(tree, below, total);
                },
            }
        }
    }
}

/// A walk over a sound tree comes to its end, and has then yielded the rows
/// that lay ahead of it, each once and in the order of the tree.
pub proof fn lemma_walk_ends(tree: Map<u32, PageView>, frames: Seq<FrameView>, total: nat)
    requires
        stack_rows(tree, frames, total) is Some,
    ensures
        walk(tree, frames, stack_steps(tree, frames, total) + 1) == stack_rows(
            tree,
            frames,
            total,
        ),
    decreases stack_steps(tree, frames, total),
{
    lemma_step_yields_first_row(tree, frames, total);
    lemma_step_moves_on(tree, frames, total);
    let rows = stack_rows(tree, frames, total).unwrap();
    let (after, step) = spec_advance(frames, None);
    match step {
        StepView::Yield { row_id, payload } => {
            lemma_walk_ends(tree, after, total);
            assert(seq![LeafView { row_id, payload }] + rows.skip(1) =~= rows);
        },
        StepView::Descend(p) => {
            lemma_walk_ends(tree, after.push(fresh_frame(tree[p]).unwrap()), total);
        },
        StepView::Done => {
            assert(rows =~= Seq::<LeafView>::empty());
        },
        StepView::Fault => {},
    }
}

/// Whether the row ids of `rows` go up from each row to the next.
pub open spec fn ascending(rows: Seq<LeafView>) -> bool {
    forall|i: int, j: int|
        0 <= i < j < rows.len() ==> (#[trigger] rows[i]).row_id.value < (
        #[trigger] rows[j]).row_id.value
}

/// Whether the row ids of `rows` are all above `low` and none is above `high`.
pub open spec fn all_between(rows: Seq<LeafView>, low: int, high: int) -> bool {
    forall|i: int| 0 <= i < rows.len() ==> low < (#[trigger] rows[i]).row_id.value <= high
}

/// Whether the tree beneath page `page` is sound and in order, with all its
/// row ids above `low` and none above `high`.
pub open spec fn subtree_ordered(
    tree: Map<u32, PageView>,
    page: u32,
    height: nat,
    low: int,
    high: int,
) -> bool
    decreases height, 0nat,
{
    &&& height > 0
    &&& tree.dom().contains(page)
    &&& fresh_frame(tree[page]) matches Some(frame)
    &&& frame_ordered(tree, frame, (height - 1) as nat, low, high)
}

/// Whether what lies ahead of the cursor of `frame` is sound and in order:
/// the row id of each leaf cell is above those before it, the key of each
/// interior cell is no less than the row ids beneath its left child and less
/// than those that follow, and all row ids are above `low` and none is above
/// `high`.
pub open spec fn frame_ordered(
    tree: Map<u32, PageView>,
    frame: FrameView,
    height: nat,
    low: int,
    high: int,
) -> bool
    decreases height, cells_ahead(frame) + 1,
{
    if 0 <= frame.cursor < frame.cells.len() {
        let moved = FrameView { cursor: frame.cursor + 1, ..frame };
        match frame.cells[frame.cursor] {
            CellView::LeafTableCell { row_id, payload } => {
                &&& low < row_id.value <= high
                &&& frame_ordered(tree, moved, height, row_id.value as int, high)
            },
            CellView::InteriorTableCell { left_child_page, row_id } => {
                &&& low <= row_id.value <= high
                &&& subtree_ordered(tree, left_child_page, height, low, row_id.value as int)
                &&& frame_ordered(tree, moved, height, row_id.value as int, high)
            },
            _ => false,
        }
    } else {
        match frame.right_most_pointer {
            Some(p) => subtree_ordered(tree, p, height, low, high),
            None => true,
        }
    }
}

/// Rows in order that are followed by rows in order above them are in order.
pub proof fn lemma_ascending_join(
    a: Seq<LeafView>,
    b: Seq<LeafView>,
    low: int,
    middle: int,
    high: int,
)
    requires
        ascending(a),
        ascending(b),
        all_between(a, low, middle),
        all_between(b, middle, high),
        low <= middle <= high,
    ensures
        ascending(a + b),
        all_between(a + b, low, high),
{
    let c = a + b;
    assert forall|i: int, j: int| 0 <= i < j < c.len() implies (#[trigger] c[i]).row_id.value < (
    #[trigger] c[j]).row_id.value by {
        if j < a.len() {
            assert(c[i] == a[i] && c[j] == a[j]);
        } else if i >= a.len() {
            assert(c[i] == b[i - a.len()] && c[j] == b[j - a.len()]);
        } else {
            assert(c[i] == a[i] && c[j] == b[j - a.len()]);
        }
    }
    assert forall|i: int| 0 <= i < c.len() implies low < (#[trigger] c[i]).row_id.value
        <= high by {
        if i < a.len() {
            assert(c[i] == a[i]);
        } else {
            assert(c[i] == b[i - a.len()]);
        }
    }
}

/// The rows beneath a page of a tree that is in order go up in row id.
pub proof fn lemma_subtree_ascending(
    tree: Map<u32, PageView>,
    page: u32,
    height: nat,
    low: int,
    high: int,
)
    requires
        subtree_ordered(tree, page, height, low, high),
        low <= high,
    ensures
        subtree_rows(tree, page, height) matches Some(rows) && ascending(rows) && all_between(
            rows,
            low,
            high,
        ),
    decreases height, 0nat,
{
    lemma_frame_ascending(
        tree,
        fresh_frame(tree[page]).unwrap(),
        (height - 1) as nat,
        low,
        high,
    );
}

/// The rows ahead of the cursor of a frame of a tree that is in order go up
/// in row id.
pub proof fn lemma_frame_ascending(
    tree: Map<u32, PageView>,
    frame: FrameView,
    height: nat,
    low: int,
    high: int,
)
    requires
        frame_ordered(tree, frame, height, low, high),
        low <= high,
    ensures
        rows_ahead(tree, frame, height) matches Some(rows) && ascending(rows) && all_between(
            rows,
            low,
            high,
        ),
    decreases height, cells_ahead(frame) + 1,
{
    if 0 <= frame.cursor < frame.cells.len() {
        let moved = FrameView { cursor: frame.cursor + 1, ..frame };
        match frame.cells[frame.cursor] {
            CellView::LeafTableCell { row_id, payload } => {
                lemma_frame_ascending(tree, moved, height, row_id.value as int, high);
                let first = seq![LeafView { row_id, payload }];
                let rest = rows_ahead(tree, moved, height).unwrap();
                assert(ascending(first));
                assert(all_between(first, low, row_id.value as int));
                lemma_ascending_join(first, rest, low, row_id.value as int, high);
            },
            CellView::InteriorTableCell { left_child_page, row_id } => {
                lemma_subtree_ascending(tree, left_child_page, height, low, row_id.value as int);
                lemma_frame_ascending(tree, moved, height, row_id.value as int, high);
                let inside = subtree_rows(tree, left_child_page, height).unwrap();
                let rest = rows_ahead(tree, moved, height).unwrap();
                lemma_ascending_join(inside, rest, low, row_id.value as int, high);
            },
            _ => {},
        }
    } else {
        match frame.right_most_pointer {
            Some(p) => {
                lemma_subtree_ascending(tree, p, height, low, high);
            },
            None => {
                assert(ascending(Seq::<LeafView>::empty()));
            },
        }
    }
}

/// Walking a table tree that is in order yields every row beneath its root,
/// each once, with row ids that go up from each row to the next.
pub proof fn lemma_walk_is_ascending(
    tree: Map<u32, PageView>,
    root: u32,
    height: nat,
    low: int,
    high: int,
)
    requires
        subtree_ordered(tree, root, height, low, high),
        low <= high,
    ensures
        ({
            let start = seq![fresh_frame(tree[root]).unwrap()];
            let fuel = stack_steps(tree, start, (height - 1) as nat) + 1;
            &&& walk(tree, start, fuel) == subtree_rows(tree, root, height)
            &&& walk(tree, start, fuel) matches Some(rows) && ascending(rows)
        }),
{
    lemma_subtree_ascending(tree, root, height, low, high);
    let frame = fresh_frame(tree[root]).unwrap();
    let start = seq![frame];
    let total = (height - 1) as nat;
    assert(start.drop_last() =~= Seq::<FrameView>::empty());
    assert(start.last() == frame);
    let rows = rows_ahead(tree, frame, total).unwrap();
    assert(rows + Seq::<LeafView>::empty() =~= rows);
    assert(stack_rows(tree, Seq::<FrameView>::empty(), total) == Some(Seq::<LeafView>::empty()));
    assert(stack_rows(tree, start, total) == Some(rows));
    lemma_walk_ends(tree, start, total);
}

/// Whether the key of every interior cell beneath page `page` is no less
/// than the row ids beneath the left child of the cell.
pub open spec fn subtree_keyed(tree: Map<u32, PageView>, page: u32, height: nat) -> bool
    decreases height, 0nat,
{
    height > 0 && tree.dom().contains(page) && fresh_frame(tree[page]) is Some ==> frame_keyed(
        tree,
        fresh_frame(tree[page]).unwrap(),
        (height - 1) as nat,
    )
}

/// Whether the key of every interior cell ahead of the cursor of `frame`,
/// and of every interior cell beneath one of them, is no less than the row
/// ids beneath the left child of the cell.
pub open spec fn frame_keyed(tree: Map<u32, PageView>, frame: FrameView, height: nat) -> bool
    decreases height, cells_ahead(frame) + 1,
{
    if 0 <= frame.cursor < frame.cells.len() {
        let moved = FrameView { cursor: frame.cursor + 1, ..frame };
        match frame.cells[frame.cursor] {
            CellView::InteriorTableCell { left_child_page, row_id } => {
                &&& subtree_rows(tree, left_child_page, height) matches Some(rows) ==> forall|
                    i: int,
                |
                    0 <= i < rows.len() ==> (#[trigger] rows[i]).row_id.value <= row_id.value
                &&& subtree_keyed(tree, left_child_page, height)
                &&& frame_keyed(tree, moved, height)
            },
            _ => frame_keyed(tree, moved, height),
        }
    } else {
        match frame.right_most_pointer {
            Some(p) => subtree_keyed(tree, p, height),
            None => true,
        }
    }
}

/// Whether every frame of a stack is keyed, each with the levels that may
/// lie beneath it.
pub open spec fn stack_keyed(tree: Map<u32, PageView>, frames: Seq<FrameView>, total: nat) -> bool {
    forall|i: int|
        0 <= i < frames.len() ==> frame_keyed(tree, #[trigger] frames[i], (total - i) as nat)
}

/// A tree that is in order is keyed.
pub proof fn lemma_ordered_is_keyed(
    tree: Map<u32, PageView>,
    frame: FrameView,
    height: nat,
    low: int,
    high: int,
)
    requires
        frame_ordered(tree, frame, height, low, high),
        low <= high,
    ensures
        frame_keyed(tree, frame, height),
    decreases height, cells_ahead(frame) + 1,
{
    if 0 <= frame.cursor < frame.cells.len() {
        let moved = FrameView { cursor: frame.cursor + 1, ..frame };
        match frame.cells[frame.cursor] {
            CellView::LeafTableCell { row_id, payload } => {
                lemma_ordered_is_keyed(tree, moved, height, row_id.value as int, high);
            },
            CellView::InteriorTableCell { left_child_page, row_id } => {
                assert(subtree_ordered(tree, left_child_page, height, low, row_id.value as int));
                lemma_subtree_ascending(tree, left_child_page, height, low, row_id.value as int);
                lemma_ordered_is_keyed(
                    tree,
                    fresh_frame(tree[left_child_page]).unwrap(),
                    (height - 1) as nat,
                    low,
                    row_id.value as int,
                );
                assert(subtree_keyed(tree, left_child_page, height));
                lemma_ordered_is_keyed(tree, moved, height, row_id.value as int, high);
            },
            _ => {},
        }
    } else {
        match frame.right_most_pointer {
            Some(p) => {
                assert(subtree_ordered(tree, p, height, low, high));
                lemma_ordered_is_keyed(
                    tree,
                    fresh_frame(tree[p]).unwrap(),
                    (height - 1) as nat,
                    low,
                    high,
                );
                assert(subtree_keyed(tree, p, height));
            },
            None => {},
        }
    }
}

/// Whether `rest` is what is left of `rows` when rows with row ids below
/// `target` are taken from its front.
pub open spec fn tail_below(rows: Seq<LeafView>, rest: Seq<LeafView>, target: int) -> bool {
    &&& rest.len() <= rows.len()
    &&& rows.skip(rows.len() - rest.len()) == rest
    &&& forall|i: int|
        0 <= i < rows.len() - rest.len() ==> (#[trigger] rows[i]).row_id.value < target
}

/// Rows below the target in front of rows of which `rest` is left leave `rest`.
pub proof fn lemma_tail_below_extend(
    front: Seq<LeafView>,
    rows: Seq<LeafView>,
    rest: Seq<LeafView>,
    target: int,
)
    requires
        tail_below(rows, rest, target),
        forall|i: int| 0 <= i < front.len() ==> (#[trigger] front[i]).row_id.value < target,
    ensures
        tail_below(front + rows, rest, target),
{
    let all = front + rows;
    assert(all.skip(all.len() - rest.len()) =~= rows.skip(rows.len() - rest.len()));
    assert forall|i: int| 0 <= i < all.len() - rest.len() implies (#[trigger] all[i]).row_id.value
        < target by {
        if i < front.len() {
            assert(all[i] == front[i]);
        } else {
            assert(all[i] == rows[i - front.len()]);
        }
    }
}

/// What is left of what is left is left.
pub proof fn lemma_tail_below_twice(
    rows: Seq<LeafView>,
    middle: Seq<LeafView>,
    rest: Seq<LeafView>,
    target: int,
)
    requires
        tail_below(rows, middle, target),
        tail_below(middle, rest, target),
    ensures
        tail_below(rows, rest, target),
{
    let a = rows.len() - middle.len();
    let b = middle.len() - rest.len();
    assert(rows.skip(rows.len() - rest.len()) =~= middle.skip(b));
    assert forall|i: int| 0 <= i < rows.len() - rest.len() implies (#[trigger] rows[i]).row_id.value
        < target by {
        if i >= a {
            assert(rows[i] == middle[i - a]);
        }
    }
}

/// One step of a search passes over rows below the target only, yields no
/// row but one with the target as its row id, and is done only where no row
/// is ahead or the next row lies above the target.
pub proof fn lemma_search_step(
    tree: Map<u32, PageView>,
    frames: Seq<FrameView>,
    total: nat,
    target: i64,
)
    requires
        stack_rows(tree, frames, total) is Some,
        stack_keyed(tree, frames, total),
    ensures
        ({
            let rows = stack_rows(tree, frames, total).unwrap();
            let (after, step) = spec_advance(frames, Some(target));
            match step {
                StepView::Yield { row_id, payload } => {
                    &&& row_id.value == target
                    &&& stack_rows(tree, after, total) matches Some(rest)
                    &&& tail_below(rows, seq![LeafView { row_id, payload }] + rest, target as int)
                    &&& stack_keyed(tree, after, total)
                },
                StepView::Descend(p) => {
                    &&& tree.dom().contains(p)
                    &&& fresh_frame(tree[p]) matches Some(child)
                    &&& stack_rows(tree, after.push(child), total) matches Some(rest)
                    &&& tail_below(rows, rest, target as int)
                    &&& stack_keyed(tree, after.push(child), total)
                },
                StepView::Done => {
                    &&& stack_rows(tree, after, total) matches Some(rest)
                    &&& tail_below(rows, rest, target as int)
                    &&& rest.len() > 0 ==> rest[0].row_id.value > target
                    &&& stack_keyed(tree, after, total)
                },
                StepView::Fault => false,
            }
        }),
    decreases frames.len(), top_remaining(frames),
{
    let rows = stack_rows(tree, frames, total).unwrap();
    assert(rows.skip(0) =~= rows);
    if frames.len() > 0 {
        let top = frames.last();
        let below = frames.drop_last();
        let depth = frames.len() - 1;
        let budget = (total + 1 - frames.len()) as nat;
        let ahead = rows_ahead(tree, top, budget).unwrap();
        let under = stack_rows(tree, below, total).unwrap();
        assert(rows == ahead + under);
        assert(frame_keyed(tree, frames[depth], (total - depth) as nat));
        assert forall|i: int| 0 <= i < below.len() implies frame_keyed(
            tree,
            #[trigger] below[i],
            (total - i) as nat,
        ) by {
            assert(below[i] == frames[i]);
        }
        if 0 <= top.cursor < top.cells.len() {
            let moved = FrameView { cursor: top.cursor + 1, ..top };
            let rest = rows_ahead(tree, moved, budget).unwrap();
            let bumped = bump(frames);
            assert(bumped.drop_last() =~= below);
            assert(bumped.last() == moved);
            assert(stack_rows(tree, bumped, total) == Some(rest + under));
            assert(frame_keyed(tree, moved, budget));
            assert forall|i: int| 0 <= i < bumped.len() implies frame_keyed(
                tree,
                #[trigger] bumped[i],
                (total - i) as nat,
            ) by {
                if i < depth {
                    assert(bumped[i] == frames[i]);
                }
            }
            match top.cells[top.cursor] {
                CellView::LeafTableCell { row_id, payload } => {
                    let first = seq![LeafView { row_id, payload }];
                    assert(ahead == first + rest);
                    assert(rows =~= first + (rest + under));
                    if row_id.value < target {
                        lemma_search_step(tree, bumped, total, target);
                        let (after, step) = spec_advance(bumped, Some(target));
                        match step {
                            StepView::Yield { row_id: found, payload: bytes } => {
                                let left = stack_rows(tree, after, total).unwrap();
                                lemma_tail_below_extend(
                                    first,
                                    rest + under,
                                    seq![LeafView { row_id: found, payload: bytes }] + left,
                                    target as int,
                                );
                            },
                            StepView::Descend(p) => {
                                let left = stack_rows(
                                    tree,
                                    after.push(fresh_frame(tree[p]).unwrap()),
                                    total,
                                ).unwrap();
                                lemma_tail_below_extend(first, rest + under, left, target as int);
                            },
                            StepView::Done => {
                                let left = stack_rows(tree, after, total).unwrap();
                                lemma_tail_below_extend(first, rest + under, left, target as int);
                            },
                            StepView::Fault => {},
                        }
                    }
                },
                CellView::InteriorTableCell { left_child_page, row_id } => {
                    assert(subtree_rows(tree, left_child_page, budget) is Some);
                    let child = fresh_frame(tree[left_child_page]).unwrap();
                    let inside = rows_ahead(tree, child, (budget - 1) as nat).unwrap();
                    assert(ahead == inside + rest);
                    assert(rows =~= inside + (rest + under));
                    if row_id.value < target {
                        lemma_search_step(tree, bumped, total, target);
                        let (after, step) = spec_advance(bumped, Some(target));
                        match step {
                            StepView::Yield { row_id: found, payload: bytes } => {
                                let left = stack_rows(tree, after, total).unwrap();
                                lemma_tail_below_extend(
                                    inside,
                                    rest + under,
                                    seq![LeafView { row_id: found, payload: bytes }] + left,
                                    target as int,
                                );
                            },
                            StepView::Descend(p) => {
                                let left = stack_rows(
                                    tree,
                                    after.push(fresh_frame(tree[p]).unwrap()),
                                    total,
                                ).unwrap();
                                lemma_tail_below_extend(inside, rest + under, left, target as int);
                            },
                            StepView::Done => {
                                let left = stack_rows(tree, after, total).unwrap();
                                lemma_tail_below_extend(inside, rest + under, left, target as int);
                            },
                            StepView::Fault => {},
                        }
                    } else {
                        let entered = bumped.push(child);
                        assert(entered.drop_last() =~= bumped);
                        assert(entered.last() == child);
                        assert(stack_rows(tree, entered, total) == Some(inside + (rest + under)));
                        assert(subtree_keyed(tree, left_child_page, budget));
                        assert(frame_keyed(tree, child, (budget - 1) as nat));
                        assert forall|i: int| 0 <= i < entered.len() implies frame_keyed(
                            tree,
                            #[trigger] entered[i],
                            (total - i) as nat,
                        ) by {
                            if i < bumped.len() {
                                assert(entered[i] == bumped[i]);
                            }
                        }
                    }
                },
                _ => {},
            }
        } else {
            match top.right_most_pointer {
                Some(p) => {
                    assert(subtree_rows(tree, p, budget) is Some);
                    let child = fresh_frame(tree[p]).unwrap();
                    let inside = rows_ahead(tree, child, (budget - 1) as nat).unwrap();
                    let taken = FrameView { right_most_pointer: None, ..top };
                    let left = take_right_most(frames);
                    assert(left.drop_last() =~= below);
                    assert(left.last() == taken);
                    assert(rows_ahead(tree, taken, budget) == Some(Seq::<LeafView>::empty()));
                    assert(stack_rows(tree, left, total) == Some(
                        Seq::<LeafView>::empty() + under,
                    ));
                    let entered = left.push(child);
                    assert(entered.drop_last() =~= left);
                    assert(entered.last() == child);
                    assert(stack_rows(tree, entered, total) == Some(
                        inside + (Seq::<LeafView>::empty() + under),
                    ));
                    assert(inside + (Seq::<LeafView>::empty() + under) =~= rows);
                    assert(subtree_keyed(tree, p, budget));
                    assert(frame_keyed(tree, child, (budget - 1) as nat));
                    assert(frame_keyed(tree, taken, budget));
                    assert forall|i: int| 0 <= i < entered.len() implies frame_keyed(
                        tree,
                        #[trigger] entered[i],
                        (total - i) as nat,
                    ) by {
                        if i < depth {
                            assert(entered[i] == frames[i]);
                        }
                    }
                },
                None => {
                    assert(rows =~= under);
                    lemma_search_step(tree, below, total, target);
                },
            }
        }
    }
}

/// A step of a search over a sound tree leaves no more steps to take than
/// there were, and fewer where it yields a row or asks for a page.
pub proof fn lemma_search_moves_on(
    tree: Map<u32, PageView>,
    frames: Seq<FrameView>,
    total: nat,
    target: i64,
)
    requires
        stack_rows(tree, frames, total) is Some,
    ensures
        ({
            let (after, step) = spec_advance(frames, Some(target));
            match step {
                StepView::Yield { row_id, payload } => {
                    &&& stack_rows(tree, after, total) is Some
                    &&& stack_steps(tree, after, total) + 1 <= stack_steps(tree, frames, total)
                },
                StepView::Descend(p) => {
                    &&& tree.dom().contains(p)
                    &&& fresh_frame(tree[p]) matches Some(child)
                    &&& stack_rows(tree, after.push(child), total) is Some
                    &&& stack_steps(tree, after.push(child), total) + 1 <= stack_steps(
                        tree,
                        frames,
                        total,
                    )
                },
                StepView::Done => {
                    &&& stack_rows(tree, after, total) is Some
                    &&& stack_steps(tree, after, total) <= stack_steps(tree, frames, total)
                },
                StepView::Fault => false,
            }
        }),
    decreases frames.len(), top_remaining(frames),
{
    if frames.len() > 0 {
        let top = frames.last();
        let below = frames.drop_last();
        let budget = (total + 1 - frames.len()) as nat;
        let ahead = rows_ahead(tree, top, budget).unwrap();
        let under = stack_steps(tree, below, total);
        assert(stack_rows(tree, below, total) is Some);
        assert(stack_steps(tree, frames, total) == steps_ahead(tree, top, budget) + under);
        if 0 <= top.cursor < top.cells.len() {
            let moved = FrameView { cursor: top.cursor + 1, ..top };
            let rest = steps_ahead(tree, moved, budget);
            let bumped = bump(frames);
            assert(rows_ahead(tree, moved, budget) is Some);
            assert(bumped.drop_last() =~= below);
            assert(bumped.last() == moved);
            assert(stack_rows(tree, bumped, total) is Some);
            assert(stack_steps(tree, bumped, total) == rest + under);
            match top.cells[top.cursor] {
                CellView::LeafTableCell { row_id, payload } => {
                    if row_id.value < target {
                        lemma_search_moves_on(tree, bumped, total, target);
                    }
                },
                CellView::InteriorTableCell { left_child_page, row_id } => {
                    assert(subtree_rows(tree, left_child_page, budget) is Some);
                    let child = fresh_frame(tree[left_child_page]).unwrap();
                    let inside = steps_ahead(tree, child, (budget - 1) as nat);
                    assert(subtree_steps(tree, left_child_page, budget) == inside);
                    if row_id.value < target {
                        lemma_search_moves_on(tree, bumped, total, target);
                    } else {
                        let entered = bumped.push(child);
                        assert(entered.drop_last() =~= bumped);
                        assert(entered.last() == child);
                        assert(stack_rows(tree, entered, total) is Some);
                        assert(stack_steps(tree, entered, total) == inside + (rest + under));
                    }
                },
                _ => {},
            }
        } else {
            match top.right_most_pointer {
                Some(p) => {
                    assert(subtree_rows(tree, p, budget) is Some);
                    let child = fresh_frame(tree[p]).unwrap();
                    let inside = steps_ahead(tree, child, (budget - 1) as nat);
                    assert(subtree_steps(tree, p, budget) == inside);
                    let taken = FrameView { right_most_pointer: None, ..top };
                    let left = take_right_most(frames);
                    assert(left.drop_last() =~= below);
                    assert(left.last() == taken);
                    assert(rows_ahead(tree, taken, budget) == Some(Seq::<LeafView>::empty()));
                    assert(steps_ahead(tree, taken, budget) == 0);
                    assert(stack_rows(tree, left, total) is Some);
                    assert(stack_steps(tree, left, total) == under);
                    let entered = left.push(child);
                    assert(entered.drop_last() =~= left);
                    assert(entered.last() == child);
                    assert(stack_rows(tree, entered, total) is Some);
                    assert(stack_steps(tree, entered, total) == inside + under);
                },
                None => {
                    assert(steps_ahead(tree, top, budget) == 0);
                    lemma_search_moves_on(tree, below, total, target);
                },
            }
        }
    }
}

} // verus!

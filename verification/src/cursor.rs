//! Walking B-trees one decision at a time.
//!
//! A cursor never reads a page.  It tells its caller which page it needs
//! next, and the caller hands that page back; between two such requests the
//! cursor yields the rows it has found.

use vstd::prelude::*;
use vstd::slice::slice_to_vec;
use crate::error::Error;
use crate::record_handler::{int_value, value_text, values_view, RecordFormat, RecordValue, Varint};
use crate::record_handler::texts_view;
use crate::tokenizer::{less_text, same_text, text_less};
use crate::tree_handler::{
    cells_view, decode_record, page_cells, values, BTreeCell, BTreeLeafTableCell, BTreePage,
    CellView, PageView,
};

verus! {

/// The cells of one page and how far the cursor has gone through them.
#[derive(Debug)]
pub struct Frame {
    pub cells: Vec<BTreeCell>,
    pub cursor: usize,
    pub right_most_pointer: Option<u32>,
}

/// What a frame holds: the cells of a page, the number of them that are
/// behind the cursor, and the right-most child where it is still ahead.
pub struct FrameView {
    pub cells: Seq<CellView>,
    pub cursor: int,
    pub right_most_pointer: Option<u32>,
}

impl View for Frame {
    type V = FrameView;

    open spec fn view(&self) -> FrameView {
        FrameView {
            cells: cells_view(self.cells@),
            cursor: self.cursor as int,
            right_most_pointer: self.right_most_pointer,
        }
    }
}

/// The views of a stack of frames, the innermost last.
pub open spec fn frames_view(v: Seq<Frame>) -> Seq<FrameView> {
    Seq::new(v.len(), |i: int| v[i]@)
}

/// The frame for a page that has just been entered.
pub open spec fn fresh_frame(page: PageView) -> Option<FrameView> {
    match page_cells(page) {
        Some(cells) => Some(
            FrameView { cells, cursor: 0, right_most_pointer: page.right_most_pointer },
        ),
        None => None,
    }
}

/// What a table cursor does next.
#[derive(Debug)]
pub enum CellStep {
    /// The next row.
    Yield(BTreeLeafTableCell),
    /// The page with this number is needed: it is to be handed to `descend`.
    Descend(u32),
    /// No row is left, or, in a search, the row is not there.
    Done,
}

/// What a step of a table cursor holds; `Fault` stands for a cell that has no
/// place in a table tree.
pub enum StepView {
    Yield { row_id: Varint, payload: Seq<u8> },
    Descend(u32),
    Done,
    Fault,
}

/// The view of the outcome of a step.
pub open spec fn step_view(r: Result<CellStep, Error>) -> StepView {
    match r {
        Ok(CellStep::Yield(c)) => StepView::Yield { row_id: c.row_id, payload: c.payload@ },
        Ok(CellStep::Descend(p)) => StepView::Descend(p),
        Ok(CellStep::Done) => StepView::Done,
        Err(_) => StepView::Fault,
    }
}

/// `frames` with the cursor of the innermost frame moved on by one cell.
pub open spec fn bump(frames: Seq<FrameView>) -> Seq<FrameView> {
    let top = frames.last();
    frames.drop_last().push(FrameView { cursor: top.cursor + 1, ..top })
}

/// `frames` with the right-most child of the innermost frame taken.
pub open spec fn take_right_most(frames: Seq<FrameView>) -> Seq<FrameView> {
    let top = frames.last();
    frames.drop_last().push(FrameView { right_most_pointer: None, ..top })
}

/// The number of cells of the innermost frame that are ahead of the cursor.
pub open spec fn top_remaining(frames: Seq<FrameView>) -> int {
    if frames.len() == 0 {
        0
    } else {
        frames.last().cells.len() - frames.last().cursor
    }
}

/// One step of a table cursor in the state `frames`: the state after it and
/// what the step is.
///
/// Without a `target` the cursor walks the tree in order: a leaf cell is
/// yielded, an interior cell asks for its left child, a page whose cells are
/// behind asks for its right-most child once and is then left.  With a
/// `target` row id the cursor passes over every cell whose row id is below
/// the target, yields a leaf cell with just that row id, and is done, without
/// moving, in front of a leaf cell whose row id is above it.
pub open spec fn spec_advance(frames: Seq<FrameView>, target: Option<i64>) -> (
    Seq<FrameView>,
    StepView,
)
    decreases frames.len(), top_remaining(frames),
{
    if frames.len() == 0 {
        (frames, StepView::Done)
    } else {
        let top = frames.last();
        if 0 <= top.cursor < top.cells.len() {
            match top.cells[top.cursor] {
                CellView::LeafTableCell { row_id, payload } => {
                    if target matches Some(t) && row_id.value < t {
                        spec_advance(bump(frames), target)
                    } else if target matches Some(t) && row_id.value > t {
                        (frames, StepView::Done)
                    } else {
                        (bump(frames), StepView::Yield { row_id, payload })
                    }
                },
                CellView::InteriorTableCell { left_child_page, row_id } => {
                    if target matches Some(t) && row_id.value < t {
                        spec_advance(bump(frames), target)
                    } else {
                        (bump(frames), StepView::Descend(left_child_page))
                    }
                },
                _ => (frames, StepView::Fault),
            }
        } else {
            match top.right_most_pointer {
                Some(p) => (take_right_most(frames), StepView::Descend(p)),
                None => spec_advance(frames.drop_last(), target),
            }
        }
    }
}

/// Whether the leaf cell with row id `row_id` and record `payload` lies
/// ahead of the cursor in one of `frames`.
pub open spec fn holds_row(frames: Seq<FrameView>, row_id: Varint, payload: Seq<u8>) -> bool {
    exists|i: int, j: int|
        0 <= i < frames.len() && 0 <= (#[trigger] frames[i]).cursor <= j < frames[i].cells.len()
            && #[trigger] frames[i].cells[j] == (CellView::LeafTableCell { row_id, payload })
}

/// A step takes nothing into the stack: a row that lies ahead after it lay
/// ahead before it.
pub proof fn lemma_step_adds_no_row(
    frames: Seq<FrameView>,
    target: Option<i64>,
    row_id: Varint,
    payload: Seq<u8>,
)
    requires
        holds_row(spec_advance(frames, target).0, row_id, payload),
    ensures
        holds_row(frames, row_id, payload),
    decreases frames.len(), top_remaining(frames),
{
    let after = spec_advance(frames, target).0;
    let (i, j) = choose|i: int, j: int|
        0 <= i < after.len() && 0 <= (#[trigger] after[i]).cursor <= j < after[i].cells.len()
            && #[trigger] after[i].cells[j] == (CellView::LeafTableCell { row_id, payload });
    if frames.len() > 0 {
        let top = frames.last();
        if 0 <= top.cursor < top.cells.len() {
            if after == bump(frames) {
                assert(frames[i].cells[j] == after[i].cells[j]);
            } else if after == frames {
                assert(frames[i].cells[j] == after[i].cells[j]);
            } else {
                lemma_step_adds_no_row(bump(frames), target, row_id, payload);
                let (k, l) = choose|k: int, l: int|
                    0 <= k < bump(frames).len() && 0 <= (#[trigger] bump(frames)[k]).cursor <= l
                        < bump(frames)[k].cells.len() && #[trigger] bump(frames)[k].cells[l] == (
                    CellView::LeafTableCell { row_id, payload });
                assert(frames[k].cells[l] == bump(frames)[k].cells[l]);
            }
        } else {
            match top.right_most_pointer {
                Some(p) => {
                    assert(frames[i].cells[j] == after[i].cells[j]);
                },
                None => {
                    lemma_step_adds_no_row(frames.drop_last(), target, row_id, payload);
                    let below = frames.drop_last();
                    let (k, l) = choose|k: int, l: int|
                        0 <= k < below.len() && 0 <= (#[trigger] below[k]).cursor <= l
                            < below[k].cells.len() && #[trigger] below[k].cells[l] == (
                        CellView::LeafTableCell { row_id, payload });
                    assert(frames[k].cells[l] == below[k].cells[l]);
                },
            }
        }
    }
}

/// A row that a step yields is a leaf cell that lay ahead of the cursor,
/// and in a search it has the target as its row id.
pub proof fn lemma_yield_lay_ahead(frames: Seq<FrameView>, target: Option<i64>)
    ensures
        spec_advance(frames, target).1 matches StepView::Yield { row_id, payload } ==> {
            &&& holds_row(frames, row_id, payload)
            &&& target matches Some(t) ==> row_id.value == t
        },
    decreases frames.len(), top_remaining(frames),
{
    if frames.len() > 0 {
        let top = frames.last();
        let last = frames.len() - 1;
        if 0 <= top.cursor < top.cells.len() {
            if spec_advance(frames, target) == spec_advance(bump(frames), target) {
                lemma_yield_lay_ahead(bump(frames), target);
                match spec_advance(frames, target).1 {
                    StepView::Yield { row_id, payload } => {
                        let (k, l) = choose|k: int, l: int|
                            0 <= k < bump(frames).len() && 0 <= (#[trigger] bump(frames)[k]).cursor
                                <= l < bump(frames)[k].cells.len() && #[trigger] bump(
                                frames,
                            )[k].cells[l] == (CellView::LeafTableCell { row_id, payload });
                        assert(frames[k].cells[l] == bump(frames)[k].cells[l]);
                    },
                    _ => {},
                }
            } else {
                match spec_advance(frames, target).1 {
                    StepView::Yield { row_id, payload } => {
                        assert(frames[last].cells[top.cursor] == (
                        CellView::LeafTableCell { row_id, payload }));
                    },
                    _ => {},
                }
            }
        } else if top.right_most_pointer is None {
            lemma_yield_lay_ahead(frames.drop_last(), target);
            match spec_advance(frames, target).1 {
                StepView::Yield { row_id, payload } => {
                    let below = frames.drop_last();
                    let (k, l) = choose|k: int, l: int|
                        0 <= k < below.len() && 0 <= (#[trigger] below[k]).cursor <= l
                            < below[k].cells.len() && #[trigger] below[k].cells[l] == (
                        CellView::LeafTableCell { row_id, payload });
                    assert(frames[k].cells[l] == below[k].cells[l]);
                },
                _ => {},
            }
        }
    }
}

/// A copy of a leaf cell of a table.
fn copy_leaf(cell: &BTreeLeafTableCell) -> (res: BTreeLeafTableCell)
    ensures
        res.row_id == cell.row_id,
        res.payload@ == cell.payload@,
{
    BTreeLeafTableCell {
        row_id: Varint { value: cell.row_id.value, size: cell.row_id.size },
        payload: slice_to_vec(cell.payload.as_slice()),
    }
}

/// A cursor over the rows of a table B-tree, in the order of the tree.
pub struct CellIterator {
    frames: Vec<Frame>,
}

impl View for CellIterator {
    type V = Seq<FrameView>;

    closed spec fn view(&self) -> Seq<FrameView> {
        frames_view(self.frames@)
    }
}

impl CellIterator {
    /// A cursor in front of the first cell of `page`, the root of a tree.
    pub fn new(page: BTreePage) -> (res: Result<Self, Error>)
        ensures
            match res {
                Ok(it) => fresh_frame(page@) matches Some(f) && it@ == seq![f],
                Err(e) => e is MalformedRecord && fresh_frame(page@) is None,
            },
    {
        let cells = page.cells()?;
        let frame = Frame { cells, cursor: 0, right_most_pointer: page.right_most_pointer };
        let ghost f = frame@;
        let mut frames: Vec<Frame> = Vec::new();
        frames.push(frame);
        assert(frames_view(frames@) =~= seq![f]);
        Ok(CellIterator { frames })
    }

    /// Enters `page`, the page that the last step asked for.
    pub fn descend(&mut self, page: BTreePage) -> (res: Result<(), Error>)
        ensures
            match res {
                Ok(_) => fresh_frame(page@) matches Some(f) && final(self)@ == old(self)@.push(f),
                Err(e) => e is MalformedRecord && fresh_frame(page@) is None && final(self)@ == old(
                    self,
                )@,
            },
    {
        let cells = match page.cells() {
            Ok(cells) => cells,
            Err(e) => {
                return Err(e);
            },
        };
        let frame = Frame { cells, cursor: 0, right_most_pointer: page.right_most_pointer };
        let ghost before = frames_view(self.frames@);
        let ghost added = frame@;
        self.frames.push(frame);
        assert(frames_view(self.frames@) =~= before.push(added));
        Ok(())
    }

    /// Takes one step, looking for the row with row id `target` where one is
    /// given and for the next row where none is.  A row that is yielded is a
    /// leaf cell that lay ahead of the cursor, and in a search it has the
    /// target as its row id.
    pub fn advance(&mut self, target: Option<i64>) -> (res: Result<CellStep, Error>)
        ensures
            spec_advance(old(self)@, target) == (final(self)@, step_view(res)),
            res matches Err(e) ==> e is UnexpectedCell,
            res matches Ok(CellStep::Yield(cell)) ==> {
                &&& holds_row(old(self)@, cell.row_id, cell.payload@)
                &&& target matches Some(t) ==> cell.row_id.value == t
            },
    {
        proof {
            lemma_yield_lay_ahead(self@, target);
        }
        self.step(target)
    }

    /// Takes one step.
    fn step(&mut self, target: Option<i64>) -> (res: Result<CellStep, Error>)
        ensures
            spec_advance(old(self)@, target) == (final(self)@, step_view(res)),
            res matches Err(e) ==> e is UnexpectedCell,
    {
        loop
            invariant
                spec_advance(old(self)@, target) == spec_advance(frames_view(self.frames@), target),
            decreases self.frames@.len(), top_remaining(frames_view(self.frames@)),
        {
            let ghost here = frames_view(self.frames@);
            let mut top = match self.frames.pop() {
                Some(top) => top,
                None => {
                    return Ok(CellStep::Done);
                },
            };
            let ghost below = frames_view(self.frames@);
            assert(below =~= here.drop_last());
            assert(top@ == here.last());
            if top.cursor < top.cells.len() {
                assert(here.last().cells[top.cursor as int] == top.cells@[top.cursor as int]@);
                let step = match &top.cells[top.cursor] {
                    BTreeCell::LeafTableCell(cell) => {
                        let below_target = match target {
                            Some(t) => cell.row_id.value < t,
                            None => false,
                        };
                        let above_target = match target {
                            Some(t) => cell.row_id.value > t,
                            None => false,
                        };
                        if below_target {
                            None
                        } else if above_target {
                            self.frames.push(top);
                            assert(frames_view(self.frames@) =~= here);
                            return Ok(CellStep::Done);
                        } else {
                            Some(Ok(CellStep::Yield(copy_leaf(cell))))
                        }
                    },
                    BTreeCell::InteriorTableCell(cell) => {
                        let below_target = match target {
                            Some(t) => cell.row_id.value < t,
                            None => false,
                        };
                        if below_target {
                            None
                        } else {
                            Some(Ok(CellStep::Descend(cell.left_child_page)))
                        }
                    },
                    _ => {
                        self.frames.push(top);
                        assert(frames_view(self.frames@) =~= here);
                        return Err(Error::UnexpectedCell);
                    },
                };
                top.cursor = top.cursor + 1;
                self.frames.push(top);
                assert(frames_view(self.frames@) =~= bump(here));
                match step {
                    Some(res) => {
                        return res;
                    },
                    None => {},
                }
            } else {
                match top.right_most_pointer {
                    Some(p) => {
                        top.right_most_pointer = None;
                        self.frames.push(top);
                        assert(frames_view(self.frames@) =~= take_right_most(here));
                        return Ok(CellStep::Descend(p));
                    },
                    None => {},
                }
            }
        }
    }

    /// Takes one step towards the next row.
    pub fn next(&mut self) -> (res: Result<CellStep, Error>)
        ensures
            spec_advance(old(self)@, None) == (final(self)@, step_view(res)),
            res matches Err(e) ==> e is UnexpectedCell,
            res matches Ok(CellStep::Yield(cell)) ==> holds_row(
                old(self)@,
                cell.row_id,
                cell.payload@,
            ),
    {
        self.advance(None)
    }

    /// Takes one step towards the row with row id `row_id`.
    pub fn get(&mut self, row_id: i64) -> (res: Result<CellStep, Error>)
        ensures
            spec_advance(old(self)@, Some(row_id)) == (final(self)@, step_view(res)),
            res matches Err(e) ==> e is UnexpectedCell,
            res matches Ok(CellStep::Yield(cell)) ==> {
                &&& holds_row(old(self)@, cell.row_id, cell.payload@)
                &&& cell.row_id.value == row_id
            },
    {
        self.advance(Some(row_id))
    }
}

/// The entry that the record `payload` of an index cell holds: the indexed
/// columns and, as its last column, the row id of the row they belong to.
pub open spec fn index_entry(payload: Seq<u8>) -> Option<(Seq<RecordValue>, i64)> {
    match decode_record(payload) {
        None => None,
        Some(columns) => if columns.len() == 0 {
            None
        } else {
            match int_value(columns.last()) {
                Some(id) => Some((columns.drop_last(), id as i64)),
                None => None,
            }
        },
    }
}

/// Whether the indexed columns `columns` are the keys `keys`, one by one: the
/// text form of each column is the key at its place.
pub open spec fn entry_equals(columns: Seq<RecordValue>, keys: Seq<Seq<char>>) -> bool {
    &&& keys.len() <= columns.len()
    &&& forall|i: int| 0 <= i < keys.len() ==> value_text(#[trigger] columns[i]) == Some(keys[i])
}

/// Whether one of the indexed columns `columns` lies below the key at its
/// place, by the order of the dictionary on text forms.
pub open spec fn entry_below(columns: Seq<RecordValue>, keys: Seq<Seq<char>>) -> bool {
    exists|i: int|
        0 <= i < keys.len() && i < columns.len() && column_below(#[trigger] columns[i], keys[i])
}

/// Whether the text form of `column` lies below `key`.
pub open spec fn column_below(column: RecordValue, key: Seq<char>) -> bool {
    match value_text(column) {
        Some(t) => text_less(t, key),
        None => false,
    }
}

/// What an index cursor finds next on its own tree.
pub enum IndexMove {
    /// An entry with the keys was found: the row with this row id is wanted.
    Lookup(i64),
    /// The index page with this number is needed.
    Descend(u32),
    /// No entry is left.
    Done,
    /// A cell has no place in an index tree, or its record is no index entry.
    Fault(Error),
}

/// One step of an index cursor on its own tree, looking for the entries
/// whose columns are `keys`: the state after it and what was found.
///
/// A leaf cell whose columns are the keys asks for its row, and any other
/// leaf cell is passed over.  An interior cell one of whose columns lies
/// below its key is passed over, its subtree with it; any other interior
/// cell asks for its left child.  A page whose cells are behind asks for its
/// right-most child once and is then left.
pub open spec fn index_advance(frames: Seq<FrameView>, keys: Seq<Seq<char>>) -> (
    Seq<FrameView>,
    IndexMove,
)
    decreases frames.len(), top_remaining(frames),
{
    if frames.len() == 0 {
        (frames, IndexMove::Done)
    } else {
        let top = frames.last();
        if 0 <= top.cursor < top.cells.len() {
            match top.cells[top.cursor] {
                CellView::LeafIndexCell { payload } => match index_entry(payload) {
                    None => (frames, IndexMove::Fault(Error::MalformedRecord)),
                    Some((columns, id)) => if entry_equals(columns, keys) {
                        (bump(frames), IndexMove::Lookup(id))
                    } else {
                        index_advance(bump(frames), keys)
                    },
                },
                CellView::InteriorIndexCell { left_child_page, payload } => match index_entry(
                    payload,
                ) {
                    None => (frames, IndexMove::Fault(Error::MalformedRecord)),
                    Some((columns, _)) => if entry_below(columns, keys) {
                        index_advance(bump(frames), keys)
                    } else {
                        (bump(frames), IndexMove::Descend(left_child_page))
                    },
                },
                _ => (frames, IndexMove::Fault(Error::UnexpectedCell)),
            }
        } else {
            match top.right_most_pointer {
                Some(p) => (take_right_most(frames), IndexMove::Descend(p)),
                None => index_advance(frames.drop_last(), keys),
            }
        }
    }
}

/// An index cursor that has found an entry has fewer cells ahead of it than
/// it had before.
pub proof fn lemma_lookup_moves_on(frames: Seq<FrameView>, keys: Seq<Seq<char>>)
    requires
        index_advance(frames, keys).1 is Lookup,
    ensures
        ({
            let after = index_advance(frames, keys).0;
            after.len() < frames.len() || (after.len() == frames.len() && 0 <= top_remaining(after)
                < top_remaining(frames))
        }),
    decreases frames.len(), top_remaining(frames),
{
    let top = frames.last();
    if frames.len() > 0 {
        if 0 <= top.cursor < top.cells.len() {
            if index_advance(bump(frames), keys).1 is Lookup && index_advance(frames, keys)
                == index_advance(bump(frames), keys) {
                lemma_lookup_moves_on(bump(frames), keys);
            }
        } else if top.right_most_pointer is None {
            lemma_lookup_moves_on(frames.drop_last(), keys);
        }
    }
}

/// Whether a leaf cell of an index lies ahead of the cursor in one of
/// `frames` whose columns are the keys `keys` and whose row id is `id`.
pub open spec fn holds_entry(frames: Seq<FrameView>, keys: Seq<Seq<char>>, id: i64) -> bool {
    exists|i: int, j: int|
        0 <= i < frames.len() && 0 <= (#[trigger] frames[i]).cursor <= j < frames[i].cells.len()
            && is_entry(#[trigger] frames[i].cells[j], keys, id)
}

/// Whether `cell` is a leaf cell of an index whose columns are the keys
/// `keys` and whose row id is `id`.
pub open spec fn is_entry(cell: CellView, keys: Seq<Seq<char>>, id: i64) -> bool {
    cell matches CellView::LeafIndexCell { payload } && index_entry(payload) matches Some(
        (columns, row_id),
    ) && row_id == id && entry_equals(columns, keys)
}

/// A step of an index cursor takes nothing into the stack: an entry that
/// lies ahead after it lay ahead before it.
pub proof fn lemma_index_adds_no_entry(frames: Seq<FrameView>, keys: Seq<Seq<char>>, id: i64)
    requires
        holds_entry(index_advance(frames, keys).0, keys, id),
    ensures
        holds_entry(frames, keys, id),
    decreases frames.len(), top_remaining(frames),
{
    let after = index_advance(frames, keys).0;
    let (i, j) = choose|i: int, j: int|
        0 <= i < after.len() && 0 <= (#[trigger] after[i]).cursor <= j < after[i].cells.len()
            && is_entry(#[trigger] after[i].cells[j], keys, id);
    if frames.len() > 0 {
        let top = frames.last();
        if 0 <= top.cursor < top.cells.len() {
            if after == bump(frames) {
                assert(is_entry(frames[i].cells[j], keys, id));
            } else if after == frames {
                assert(is_entry(frames[i].cells[j], keys, id));
            } else {
                let bumped = bump(frames);
                lemma_index_adds_no_entry(bumped, keys, id);
                let (k, l) = choose|k: int, l: int|
                    0 <= k < bumped.len() && 0 <= (#[trigger] bumped[k]).cursor <= l
                        < bumped[k].cells.len() && is_entry(#[trigger] bumped[k].cells[l], keys, id);
                assert(is_entry(frames[k].cells[l], keys, id));
            }
        } else {
            match top.right_most_pointer {
                Some(p) => {
                    assert(is_entry(frames[i].cells[j], keys, id));
                },
                None => {
                    let below = frames.drop_last();
                    lemma_index_adds_no_entry(below, keys, id);
                    let (k, l) = choose|k: int, l: int|
                        0 <= k < below.len() && 0 <= (#[trigger] below[k]).cursor <= l
                            < below[k].cells.len() && is_entry(
                            #[trigger] below[k].cells[l],
                            keys,
                            id,
                        );
                    assert(is_entry(frames[k].cells[l], keys, id));
                },
            }
        }
    }
}

/// The row id that an index cursor asks for is that of a leaf cell that lay
/// ahead of it and whose columns are the keys, one by one.
pub proof fn lemma_lookup_is_entry(frames: Seq<FrameView>, keys: Seq<Seq<char>>)
    ensures
        index_advance(frames, keys).1 matches IndexMove::Lookup(id) ==> holds_entry(
            frames,
            keys,
            id,
        ),
    decreases frames.len(), top_remaining(frames),
{
    if frames.len() > 0 {
        let top = frames.last();
        let last = frames.len() - 1;
        if 0 <= top.cursor < top.cells.len() {
            if index_advance(frames, keys) == index_advance(bump(frames), keys) {
                let bumped = bump(frames);
                lemma_lookup_is_entry(bumped, keys);
                match index_advance(frames, keys).1 {
                    IndexMove::Lookup(id) => {
                        let (k, l) = choose|k: int, l: int|
                            0 <= k < bumped.len() && 0 <= (#[trigger] bumped[k]).cursor <= l
                                < bumped[k].cells.len() && is_entry(
                                #[trigger] bumped[k].cells[l],
                                keys,
                                id,
                            );
                        assert(is_entry(frames[k].cells[l], keys, id));
                    },
                    _ => {},
                }
            } else {
                match index_advance(frames, keys).1 {
                    IndexMove::Lookup(id) => {
                        assert(is_entry(frames[last].cells[top.cursor], keys, id));
                    },
                    _ => {},
                }
            }
        } else if top.right_most_pointer is None {
            let below = frames.drop_last();
            lemma_lookup_is_entry(below, keys);
            match index_advance(frames, keys).1 {
                IndexMove::Lookup(id) => {
                    let (k, l) = choose|k: int, l: int|
                        0 <= k < below.len() && 0 <= (#[trigger] below[k]).cursor <= l
                            < below[k].cells.len() && is_entry(
                            #[trigger] below[k].cells[l],
                            keys,
                            id,
                        );
                    assert(is_entry(frames[k].cells[l], keys, id));
                },
                _ => {},
            }
        }
    }
}

/// The state of an index cursor joined to the cursor of its table.
pub struct IndexView {
    /// The frames of the cursor on the index tree.
    pub frames: Seq<FrameView>,
    /// The row id whose row is being looked for in the table.
    pub pending: Option<i64>,
    /// The frames of the cursor on the table tree.
    pub table: Seq<FrameView>,
    /// The values that the indexed columns have to have.
    pub keys: Seq<Seq<char>>,
}

/// What an index cursor does next.
#[derive(Debug)]
pub enum IndexStep {
    /// The next row of the table whose index entry has the keys.
    Yield(BTreeLeafTableCell),
    /// The index page with this number is needed: it is to be handed to
    /// `descend_index`.
    DescendIndex(u32),
    /// The table page with this number is needed: it is to be handed to
    /// `descend_table`.
    DescendTable(u32),
    /// No entry is left.
    Done,
}

/// What a step of an index cursor holds.
pub enum JoinView {
    Yield { row_id: Varint, payload: Seq<u8> },
    DescendIndex(u32),
    DescendTable(u32),
    Done,
    Fault(Error),
}

/// The view of the outcome of a step of an index cursor.
pub open spec fn join_view(r: Result<IndexStep, Error>) -> JoinView {
    match r {
        Ok(IndexStep::Yield(c)) => JoinView::Yield { row_id: c.row_id, payload: c.payload@ },
        Ok(IndexStep::DescendIndex(p)) => JoinView::DescendIndex(p),
        Ok(IndexStep::DescendTable(p)) => JoinView::DescendTable(p),
        Ok(IndexStep::Done) => JoinView::Done,
        Err(e) => JoinView::Fault(e),
    }
}

/// One step of an index cursor joined to its table: the state after it and
/// what the step is.
///
/// While a row is being looked for, the table cursor steps towards it: the
/// row is yielded when found, and where it is not there the search for
/// entries goes on.  Otherwise the index cursor steps on its own tree, and an
/// entry that has the keys starts the search for its row.
pub open spec fn join_advance(v: IndexView) -> (IndexView, JoinView)
    decreases v.frames.len(), top_remaining(v.frames), (if v.pending is Some {
        1int
    } else {
        0int
    }),
{
    match v.pending {
        Some(id) => {
            let (table, step) = spec_advance(v.table, Some(id));
            match step {
                StepView::Yield { row_id, payload } => (
                    IndexView { table, pending: None, ..v },
                    JoinView::Yield { row_id, payload },
                ),
                StepView::Descend(p) => (IndexView { table, ..v }, JoinView::DescendTable(p)),
                StepView::Done => join_advance(IndexView { table, pending: None, ..v }),
                StepView::Fault => (
                    IndexView { table, ..v },
                    JoinView::Fault(Error::UnexpectedCell),
                ),
            }
        },
        None => {
            let (frames, found) = index_advance(v.frames, v.keys);
            match found {
                IndexMove::Lookup(id) => {
                    proof {
                        lemma_lookup_moves_on(v.frames, v.keys);
                    }
                    join_advance(IndexView { frames, pending: Some(id), ..v })
                },
                IndexMove::Descend(p) => (IndexView { frames, ..v }, JoinView::DescendIndex(p)),
                IndexMove::Done => (IndexView { frames, ..v }, JoinView::Done),
                IndexMove::Fault(e) => (IndexView { frames, ..v }, JoinView::Fault(e)),
            }
        },
    }
}

/// A row that an index cursor yields is a leaf cell of the table that lay
/// ahead of the table cursor.  Its row id is the one that was being looked
/// for or, where none was, that of a leaf cell of the index that lay ahead
/// and whose columns are the keys, one by one: an entry that differs from the
/// keys in a column brings no row.
pub proof fn lemma_join_yield(v: IndexView)
    ensures
        join_advance(v).1 matches JoinView::Yield { row_id, payload } ==> {
            &&& holds_row(v.table, row_id, payload)
            &&& v.pending == Some(row_id.value) || holds_entry(v.frames, v.keys, row_id.value)
            &&& v.pending is None ==> holds_entry(v.frames, v.keys, row_id.value)
        },
    decreases v.frames.len(), top_remaining(v.frames), (if v.pending is Some {
        1int
    } else {
        0int
    }),
{
    match v.pending {
        Some(id) => {
            lemma_yield_lay_ahead(v.table, Some(id));
            let (table, step) = spec_advance(v.table, Some(id));
            match step {
                StepView::Done => {
                    let next = IndexView { table, pending: None, ..v };
                    lemma_join_yield(next);
                    match join_advance(next).1 {
                        JoinView::Yield { row_id, payload } => {
                            lemma_step_adds_no_row(v.table, Some(id), row_id, payload);
                        },
                        _ => {},
                    }
                },
                _ => {},
            }
        },
        None => {
            let (frames, found) = index_advance(v.frames, v.keys);
            match found {
                IndexMove::Lookup(id) => {
                    lemma_lookup_moves_on(v.frames, v.keys);
                    lemma_lookup_is_entry(v.frames, v.keys);
                    let next = IndexView { frames, pending: Some(id), ..v };
                    lemma_join_yield(next);
                    match join_advance(next).1 {
                        JoinView::Yield { row_id, payload } => {
                            if row_id.value != id {
                                lemma_index_adds_no_entry(v.frames, v.keys, row_id.value);
                            }
                        },
                        _ => {},
                    }
                },
                _ => {},
            }
        },
    }
}

/// The row id that is being looked for after a step is the one that was
/// being looked for before it or that of a leaf cell of the index that lay
/// ahead and whose columns are the keys.
pub proof fn lemma_join_pending(v: IndexView)
    ensures
        join_advance(v).0.pending matches Some(id) ==> v.pending == Some(id) || holds_entry(
            v.frames,
            v.keys,
            id,
        ),
        join_advance(v).0.keys == v.keys,
    decreases v.frames.len(), top_remaining(v.frames), (if v.pending is Some {
        1int
    } else {
        0int
    }),
{
    match v.pending {
        Some(id) => {
            let (table, step) = spec_advance(v.table, Some(id));
            match step {
                StepView::Done => {
                    lemma_join_pending(IndexView { table, pending: None, ..v });
                },
                _ => {},
            }
        },
        None => {
            let (frames, found) = index_advance(v.frames, v.keys);
            match found {
                IndexMove::Lookup(id) => {
                    lemma_lookup_moves_on(v.frames, v.keys);
                    lemma_lookup_is_entry(v.frames, v.keys);
                    let next = IndexView { frames, pending: Some(id), ..v };
                    lemma_join_pending(next);
                    match join_advance(next).0.pending {
                        Some(other) => {
                            if other != id {
                                lemma_index_adds_no_entry(v.frames, v.keys, other);
                            }
                        },
                        None => {},
                    }
                },
                _ => {},
            }
        },
    }
}

/// The indexed columns and the row id of the index entry in `payload`.
fn read_entry(payload: &Vec<u8>) -> (res: Option<(Vec<RecordFormat>, i64)>)
    ensures
        match res {
            Some((columns, id)) => index_entry(payload@) == Some((values_view(columns@), id)),
            None => index_entry(payload@) is None,
        },
{
    let mut columns = match values(payload) {
        Ok(columns) => columns,
        Err(_) => {
            return None;
        },
    };
    let ghost all = values_view(columns@);
    let last = match columns.pop() {
        Some(last) => last,
        None => {
            return None;
        },
    };
    assert(values_view(columns@) =~= all.drop_last());
    assert(last@ == all.last());
    match last.as_integer() {
        Some(id) => Some((columns, id)),
        None => None,
    }
}

/// Whether the indexed columns `columns` are the keys `keys`, one by one.
fn equals_keys(columns: &Vec<RecordFormat>, keys: &Vec<String>) -> (r: bool)
    ensures
        r == entry_equals(values_view(columns@), texts_view(keys@)),
{
    if keys.len() > columns.len() {
        return false;
    }
    let mut i: usize = 0;
    while i < keys.len()
        invariant
            i <= keys@.len() <= columns@.len(),
            forall|j: int|
                0 <= j < i ==> value_text(#[trigger] values_view(columns@)[j]) == Some(
                    texts_view(keys@)[j],
                ),
        decreases keys@.len() - i,
    {
        let same = match columns[i].text() {
            Some(t) => same_text(t.as_str(), keys[i].as_str()),
            None => false,
        };
        if !same {
            assert(value_text(values_view(columns@)[i as int]) != Some(texts_view(keys@)[i as int]));
            return false;
        }
        i = i + 1;
    }
    true
}

/// Whether one of the indexed columns `columns` lies below the key at its place.
fn below_keys(columns: &Vec<RecordFormat>, keys: &Vec<String>) -> (r: bool)
    ensures
        r == entry_below(values_view(columns@), texts_view(keys@)),
{
    let mut i: usize = 0;
    while i < keys.len() && i < columns.len()
        invariant
            i <= keys@.len(),
            i <= columns@.len(),
            forall|j: int|
                0 <= j < i ==> !column_below(
                    #[trigger] values_view(columns@)[j],
                    texts_view(keys@)[j],
                ),
        decreases keys@.len() - i,
    {
        let below = match columns[i].text() {
            Some(t) => less_text(t.as_str(), keys[i].as_str()),
            None => false,
        };
        if below {
            assert(column_below(values_view(columns@)[i as int], texts_view(keys@)[i as int]));
            return true;
        }
        i = i + 1;
    }
    false
}

/// A cursor over the rows of a table that an index finds for given keys, in
/// the order of the index.
pub struct IndexIterator {
    frames: Vec<Frame>,
    pending: Option<i64>,
    table: CellIterator,
    keys: Vec<String>,
}

impl View for IndexIterator {
    type V = IndexView;

    closed spec fn view(&self) -> IndexView {
        IndexView {
            frames: frames_view(self.frames@),
            pending: self.pending,
            table: self.table@,
            keys: texts_view(self.keys@),
        }
    }
}

impl IndexIterator {
    /// A cursor in front of the first cell of `page`, the root of an index,
    /// that looks for the entries with the keys `keys` and fetches their rows
    /// through `cell_iter`, a cursor over the table.
    pub fn new(page: BTreePage, cell_iter: CellIterator, keys: Vec<String>) -> (res: Result<
        Self,
        Error,
    >)
        ensures
            match res {
                Ok(it) => fresh_frame(page@) matches Some(f) && it@ == (IndexView {
                    frames: seq![f],
                    pending: None,
                    table: cell_iter@,
                    keys: texts_view(keys@),
                }),
                Err(e) => e is MalformedRecord && fresh_frame(page@) is None,
            },
    {
        let cells = page.cells()?;
        let frame = Frame { cells, cursor: 0, right_most_pointer: page.right_most_pointer };
        let ghost f = frame@;
        let mut frames: Vec<Frame> = Vec::new();
        frames.push(frame);
        assert(frames_view(frames@) =~= seq![f]);
        Ok(IndexIterator { frames, pending: None, table: cell_iter, keys })
    }

    /// Enters `page`, the index page that the last step asked for.
    pub fn descend_index(&mut self, page: BTreePage) -> (res: Result<(), Error>)
        ensures
            match res {
                Ok(_) => fresh_frame(page@) matches Some(f) && final(self)@ == (IndexView {
                    frames: old(self)@.frames.push(f),
                    ..old(self)@
                }),
                Err(e) => e is MalformedRecord && fresh_frame(page@) is None && final(self)@ == old(
                    self,
                )@,
            },
    {
        let cells = match page.cells() {
            Ok(cells) => cells,
            Err(e) => {
                return Err(e);
            },
        };
        let frame = Frame { cells, cursor: 0, right_most_pointer: page.right_most_pointer };
        let ghost before = frames_view(self.frames@);
        let ghost added = frame@;
        self.frames.push(frame);
        assert(frames_view(self.frames@) =~= before.push(added));
        Ok(())
    }

    /// Enters `page`, the table page that the last step asked for.
    pub fn descend_table(&mut self, page: BTreePage) -> (res: Result<(), Error>)
        ensures
            match res {
                Ok(_) => fresh_frame(page@) matches Some(f) && final(self)@ == (IndexView {
                    table: old(self)@.table.push(f),
                    ..old(self)@
                }),
                Err(e) => e is MalformedRecord && fresh_frame(page@) is None && final(self)@ == old(
                    self,
                )@,
            },
    {
        self.table.descend(page)
    }

    /// Takes one step of the index cursor on its own tree.
    fn advance_index(&mut self) -> (res: Result<Option<IndexStep>, Error>)
        requires
            old(self).pending is None,
        ensures
            final(self)@.table == old(self)@.table,
            final(self)@.keys == old(self)@.keys,
            index_advance(old(self)@.frames, old(self)@.keys).0 == final(self)@.frames,
            match index_advance(old(self)@.frames, old(self)@.keys).1 {
                IndexMove::Lookup(id) => res matches Ok(None) && final(self)@.pending == Some(id),
                IndexMove::Descend(p) => res matches Ok(Some(IndexStep::DescendIndex(q))) && q == p
                    && final(self)@.pending is None,
                IndexMove::Done => res matches Ok(Some(IndexStep::Done)) && final(self)@.pending
                    is None,
                IndexMove::Fault(e) => {
                    &&& res == Err::<Option<IndexStep>, Error>(e)
                    &&& final(self)@.pending is None
                },
            },
    {
        loop
            invariant
                self.pending is None,
                self@.table == old(self)@.table,
                self@.keys == old(self)@.keys,
                index_advance(old(self)@.frames, old(self)@.keys) == index_advance(
                    frames_view(self.frames@),
                    texts_view(self.keys@),
                ),
            decreases self.frames@.len(), top_remaining(frames_view(self.frames@)),
        {
            let ghost here = frames_view(self.frames@);
            let mut top = match self.frames.pop() {
                Some(top) => top,
                None => {
                    return Ok(Some(IndexStep::Done));
                },
            };
            assert(frames_view(self.frames@) =~= here.drop_last());
            assert(top@ == here.last());
            if top.cursor < top.cells.len() {
                assert(here.last().cells[top.cursor as int] == top.cells@[top.cursor as int]@);
                let found = match &top.cells[top.cursor] {
                    BTreeCell::LeafIndexCell(cell) => match read_entry(&cell.payload) {
                        None => Err(Error::MalformedRecord),
                        Some((columns, id)) => {
                            if equals_keys(&columns, &self.keys) {
                                Ok(Some(IndexMove::Lookup(id)))
                            } else {
                                Ok(None)
                            }
                        },
                    },
                    BTreeCell::InteriorIndexCell(cell) => match read_entry(&cell.payload) {
                        None => Err(Error::MalformedRecord),
                        Some((columns, _)) => {
                            if below_keys(&columns, &self.keys) {
                                Ok(None)
                            } else {
                                Ok(Some(IndexMove::Descend(cell.left_child_page)))
                            }
                        },
                    },
                    _ => Err(Error::UnexpectedCell),
                };
                match found {
                    Err(e) => {
                        self.frames.push(top);
                        assert(frames_view(self.frames@) =~= here);
                        return Err(e);
                    },
                    Ok(found) => {
                        top.cursor = top.cursor + 1;
                        self.frames.push(top);
                        assert(frames_view(self.frames@) =~= bump(here));
                        match found {
                            Some(IndexMove::Lookup(id)) => {
                                self.pending = Some(id);
                                return Ok(None);
                            },
                            Some(IndexMove::Descend(p)) => {
                                return Ok(Some(IndexStep::DescendIndex(p)));
                            },
                            _ => {},
                        }
                    },
                }
            } else {
                match top.right_most_pointer {
                    Some(p) => {
                        top.right_most_pointer = None;
                        self.frames.push(top);
                        assert(frames_view(self.frames@) =~= take_right_most(here));
                        return Ok(Some(IndexStep::DescendIndex(p)));
                    },
                    None => {},
                }
            }
        }
    }

    /// Takes one step towards the next row whose index entry has the keys.
    /// A row that is yielded is a leaf cell of the table that lay ahead, and
    /// its row id is the one that was being looked for or, where none was,
    /// that of a leaf cell of the index whose columns are the keys.
    pub fn next(&mut self) -> (res: Result<IndexStep, Error>)
        ensures
            join_advance(old(self)@) == (final(self)@, join_view(res)),
            res matches Ok(IndexStep::Yield(cell)) ==> {
                &&& holds_row(old(self)@.table, cell.row_id, cell.payload@)
                &&& old(self)@.pending == Some(cell.row_id.value) || holds_entry(
                    old(self)@.frames,
                    old(self)@.keys,
                    cell.row_id.value,
                )
                &&& old(self)@.pending is None ==> holds_entry(
                    old(self)@.frames,
                    old(self)@.keys,
                    cell.row_id.value,
                )
            },
            final(self)@.pending matches Some(id) ==> old(self)@.pending == Some(id)
                || holds_entry(old(self)@.frames, old(self)@.keys, id),
            final(self)@.keys == old(self)@.keys,
    {
        proof {
            lemma_join_yield(self@);
            lemma_join_pending(self@);
        }
        self.step()
    }

    /// Takes one step.
    fn step(&mut self) -> (res: Result<IndexStep, Error>)
        ensures
            join_advance(old(self)@) == (final(self)@, join_view(res)),
    {
        loop
            invariant
                join_advance(old(self)@) == join_advance(self@),
            decreases
                    self.frames@.len(),
                    top_remaining(frames_view(self.frames@)),
                    (if self.pending is Some {
                        1int
                    } else {
                        0int
                    }),
        {
            match self.pending {
                Some(id) => {
                    match self.table.get(id) {
                        Ok(CellStep::Yield(cell)) => {
                            self.pending = None;
                            return Ok(IndexStep::Yield(cell));
                        },
                        Ok(CellStep::Descend(p)) => {
                            return Ok(IndexStep::DescendTable(p));
                        },
                        Ok(CellStep::Done) => {
                            self.pending = None;
                        },
                        Err(_) => {
                            return Err(Error::UnexpectedCell);
                        },
                    }
                },
                None => {
                    proof {
                        if index_advance(self@.frames, self@.keys).1 is Lookup {
                            lemma_lookup_moves_on(self@.frames, self@.keys);
                        }
                    }
                    match self.advance_index() {
                        Ok(Some(step)) => {
                            return Ok(step);
                        },
                        Ok(None) => {},
                        Err(e) => {
                            return Err(e);
                        },
                    }
                },
            }
        }
    }
}

} // verus!

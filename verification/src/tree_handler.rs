//! Records inside payloads, B-tree pages and the cells they hold.

use vstd::prelude::*;
use vstd::slice::slice_subrange;
use vstd::slice::slice_to_vec;
use crate::cursor::{fresh_frame, CellIterator};
use crate::error::Error;
use crate::record_handler::{
    column_value, serial_size, values_view, varint_len, varint_value, RecordFormat, RecordValue,
    Varint,
};

verus! {

/// `rest` with `head` put in front, where there is a `rest`.
pub open spec fn prepend<T>(head: Seq<T>, rest: Option<Seq<T>>) -> Option<Seq<T>> {
    match rest {
        Some(r) => Some(head + r),
        None => None,
    }
}

/// The serial types that the varints in `p[pos..end]` spell, where they end
/// exactly at `end`.
pub open spec fn header_serials(p: Seq<u8>, pos: int, end: int) -> Option<Seq<int>>
    decreases end - pos,
{
    if pos == end {
        Some(Seq::empty())
    } else if pos > end || end > p.len() || pos < 0 {
        None
    } else {
        let n = varint_len(p.skip(pos));
        if n == 0 || pos + n > end {
            None
        } else {
            prepend(seq![varint_value(p.skip(pos))], header_serials(p, pos + n, end))
        }
    }
}

/// The values of the columns with serial types `serials` whose stored bytes
/// follow one another from `pos` to the very end of `p`.
pub open spec fn record_columns(p: Seq<u8>, pos: int, serials: Seq<int>) -> Option<
    Seq<RecordValue>,
>
    decreases serials.len(),
{
    if serials.len() == 0 {
        if pos == p.len() {
            Some(Seq::empty())
        } else {
            None
        }
    } else {
        match serial_size(serials[0]) {
            None => None,
            Some(k) => if pos < 0 || pos + k > p.len() {
                None
            } else {
                prepend(
                    seq![column_value(p.subrange(pos, pos + k), serials[0])],
                    record_columns(p, pos + k, serials.skip(1)),
                )
            },
        }
    }
}

/// The serial types of the record in `p`: its header starts with its own
/// length in bytes and holds one varint for each column.
pub open spec fn record_serials(p: Seq<u8>) -> Option<Seq<int>> {
    if p.len() == 0 {
        None
    } else {
        let h = varint_value(p);
        if h < varint_len(p) || h > p.len() {
            None
        } else {
            header_serials(p, varint_len(p) as int, h)
        }
    }
}

/// The column values of the record in `p`, or `None` where `p` is no record.
pub open spec fn decode_record(p: Seq<u8>) -> Option<Seq<RecordValue>> {
    match record_serials(p) {
        None => None,
        Some(serials) => record_columns(p, varint_value(p), serials),
    }
}

/// The number of payload bytes that the columns with these serial types take.
pub open spec fn total_size(serials: Seq<int>) -> int
    decreases serials.len(),
{
    if serials.len() == 0 {
        0
    } else {
        (match serial_size(serials[0]) {
            Some(k) => k as int,
            None => 0,
        }) + total_size(serials.skip(1))
    }
}

/// A record's columns fill its payload: where the columns decode, the bytes
/// they take add up to what lies between `pos` and the end of `p`.
pub proof fn lemma_columns_fill_payload(p: Seq<u8>, pos: int, serials: Seq<int>)
    requires
        record_columns(p, pos, serials) is Some,
    ensures
        total_size(serials) == p.len() - pos,
        record_columns(p, pos, serials).unwrap().len() == serials.len(),
    decreases serials.len(),
{
    if serials.len() > 0 {
        let k = serial_size(serials[0]).unwrap();
        lemma_columns_fill_payload(p, pos + k, serials.skip(1));
    }
}

/// In every record that decodes, the sizes of the columns add up to the
/// payload's length less the header's length.
pub proof fn lemma_record_self_consistent(p: Seq<u8>)
    requires
        decode_record(p) is Some,
    ensures
        total_size(record_serials(p).unwrap()) == p.len() - varint_value(p),
        decode_record(p).unwrap().len() == record_serials(p).unwrap().len(),
{
    lemma_columns_fill_payload(p, varint_value(p), record_serials(p).unwrap());
}

/// The integers of `v`.
pub open spec fn ints_of(v: Seq<i64>) -> Seq<int> {
    Seq::new(v.len(), |i: int| v[i] as int)
}

/// Reads the serial types of the record header of `p`.
fn read_serials(p: &[u8]) -> (res: Option<(Vec<i64>, usize)>)
    ensures
        match res {
            Some((serials, body)) => record_serials(p@) == Some(ints_of(serials@)) && body
                == varint_value(p@),
            None => record_serials(p@) is None,
        },
{
    if p.len() == 0 {
        return None;
    }
    let (hv, _) = Varint::from(p);
    let start = hv.size as usize;
    if hv.value < start as i64 || hv.value as u64 > p.len() as u64 {
        return None;
    }
    let end = hv.value as usize;
    let mut pos = start;
    let mut serials: Vec<i64> = Vec::new();
    assert(ints_of(serials@) + Seq::<int>::empty() =~= Seq::<int>::empty());
    while pos < end
        invariant
            start <= pos <= end <= p@.len(),
            record_serials(p@) == header_serials(p@, start as int, end as int),
            header_serials(p@, start as int, end as int) == prepend(
                ints_of(serials@),
                header_serials(p@, pos as int, end as int),
            ),
        decreases end - pos,
    {
        let tail = slice_subrange(p, pos, p.len());
        assert(tail@ =~= p@.skip(pos as int));
        let (v, _) = Varint::from(tail);
        if v.size as usize > end - pos {
            assert(header_serials(p@, pos as int, end as int) is None);
            return None;
        }
        let ghost before = serials@;
        serials.push(v.value);
        pos = pos + v.size as usize;
        proof {
            let next = header_serials(p@, pos as int, end as int);
            if next is Some {
                assert(ints_of(before) + (seq![v.value as int] + next.unwrap()) =~= ints_of(
                    serials@,
                ) + next.unwrap());
            }
        }
    }
    proof {
        assert(ints_of(serials@) + Seq::<int>::empty() =~= ints_of(serials@));
    }
    Some((serials, end))
}

/// Decodes the record held in `payload` into its column values, in order.
pub fn values(payload: &Vec<u8>) -> (res: Result<Vec<RecordFormat>, Error>)
    ensures
        match res {
            Ok(v) => decode_record(payload@) == Some(values_view(v@)),
            Err(e) => e is MalformedRecord && decode_record(payload@) is None,
        },
        res is Ok ==> total_size(record_serials(payload@).unwrap()) == payload@.len()
            - varint_value(payload@),
{
    let p = payload.as_slice();
    let (serials, body) = match read_serials(p) {
        Some(found) => found,
        None => {
            return Err(Error::MalformedRecord);
        },
    };
    let mut values: Vec<RecordFormat> = Vec::new();
    let mut pos = body;
    let mut k: usize = 0;
    let ghost all = ints_of(serials@);
    assert(all.skip(0) =~= all);
    assert(values_view(values@) =~= Seq::<RecordValue>::empty());
    assert(values_view(values@) + Seq::<RecordValue>::empty() =~= Seq::<RecordValue>::empty());
    while k < serials.len()
        invariant
            k <= serials.len(),
            all == ints_of(serials@),
            p@ == payload@,
            body <= pos <= p@.len(),
            decode_record(payload@) == record_columns(p@, body as int, all),
            record_columns(p@, body as int, all) == prepend(
                values_view(values@),
                record_columns(p@, pos as int, all.skip(k as int)),
            ),
        decreases serials.len() - k,
    {
        let tail = slice_subrange(p, pos, p.len());
        let ghost rest_serials = all.skip(k as int);
        assert(rest_serials[0] == serials@[k as int]);
        assert(rest_serials.skip(1) =~= all.skip(k as int + 1));
        match RecordFormat::new(tail, serials[k]) {
            Ok((r, rest)) => {
                let ghost n = serial_size(serials@[k as int] as int).unwrap();
                assert(tail@.take(n as int) =~= p@.subrange(pos as int, pos + n));
                let ghost before = values@;
                values.push(r);
                pos = p.len() - rest.len();
                k = k + 1;
                proof {
                    let next = record_columns(p@, pos as int, all.skip(k as int));
                    assert(values_view(values@) =~= values_view(before).push(r@));
                    if next is Some {
                        assert(values_view(before) + (seq![r@] + next.unwrap()) =~= values_view(
                            values@,
                        ) + next.unwrap());
                    }
                }
            },
            Err(_) => {
                assert(record_columns(p@, pos as int, rest_serials) is None);
                return Err(Error::MalformedRecord);
            },
        }
    }
    assert(all.skip(k as int).len() == 0);
    if pos != p.len() {
        return Err(Error::MalformedRecord);
    }
    proof {
        assert(values_view(values@) + Seq::<RecordValue>::empty() =~= values_view(values@));
        lemma_record_self_consistent(payload@);
    }
    Ok(values)
}

/// The kind of a B-tree page, as its first header byte names it.
#[derive(Debug, Clone, Copy, PartialEq, Eq, Structural)]
pub enum BTreePageType {
    /// Header byte 0x02.
    InteriorIndexPage,
    /// Header byte 0x05.
    InteriorTablePage,
    /// Header byte 0x0a.
    LeafIndexPage,
    /// Header byte 0x0d.
    LeafTablePage,
}

/// The page kind that header byte `b` names.
pub open spec fn page_type_of(b: u8) -> Option<BTreePageType> {
    if b == 0x02 {
        Some(BTreePageType::InteriorIndexPage)
    } else if b == 0x05 {
        Some(BTreePageType::InteriorTablePage)
    } else if b == 0x0a {
        Some(BTreePageType::LeafIndexPage)
    } else if b == 0x0d {
        Some(BTreePageType::LeafTablePage)
    } else {
        None
    }
}

/// Whether pages of this kind route to children.
pub open spec fn is_interior(t: BTreePageType) -> bool {
    t is InteriorIndexPage || t is InteriorTablePage
}

/// The length of the B-tree page header: 12 bytes with a right-most child
/// pointer, 8 without.
pub open spec fn header_len(t: BTreePageType) -> int {
    if is_interior(t) {
        12
    } else {
        8
    }
}

/// The big-endian 16-bit number at `s[i..i + 2]`.
pub open spec fn be16(s: Seq<u8>, i: int) -> int {
    s[i] * 256 + s[i + 1]
}

/// The big-endian 32-bit number at `s[i..i + 4]`.
pub open spec fn be32(s: Seq<u8>, i: int) -> int {
    ((s[i] * 256 + s[i + 1]) * 256 + s[i + 2]) * 256 + s[i + 3]
}

/// What a B-tree page holds.  Cell pointers count from the start of the cell
/// content area, and `cell_content` is the page from that area on.
pub struct PageView {
    pub page_type: BTreePageType,
    pub num_cells: u16,
    pub cell_content_area: u16,
    pub right_most_pointer: Option<u32>,
    pub cell_pointers: Seq<u16>,
    pub cell_content: Seq<u8>,
}

/// The `i`-th cell pointer of the page in `bytes` whose header is at `offset`,
/// as an offset into the page buffer.
pub open spec fn raw_pointer(bytes: Seq<u8>, offset: int, t: BTreePageType, i: int) -> int {
    be16(bytes, offset + header_len(t) + 2 * i)
}

/// The page that the buffer `bytes` holds with its B-tree header at `offset`,
/// or the reason why it holds none.
pub open spec fn parse_page(bytes: Seq<u8>, offset: int) -> Result<PageView, Error> {
    if offset + 8 > bytes.len() {
        Err(Error::MalformedPage)
    } else {
        match page_type_of(bytes[offset]) {
            None => Err(Error::BadPageType(bytes[offset])),
            Some(t) => {
                let n = be16(bytes, offset + 3);
                let area = be16(bytes, offset + 5);
                if offset + header_len(t) + 2 * n > bytes.len() || area > bytes.len() || exists|
                    i: int,
                |
                    0 <= i < n && raw_pointer(bytes, offset, t, i) < area {
                    Err(Error::MalformedPage)
                } else {
                    Ok(
                        PageView {
                            page_type: t,
                            num_cells: n as u16,
                            cell_content_area: area as u16,
                            right_most_pointer: if is_interior(t) {
                                Some(be32(bytes, offset + 8) as u32)
                            } else {
                                None
                            },
                            cell_pointers: Seq::new(
                                n as nat,
                                |i: int| (raw_pointer(bytes, offset, t, i) - area) as u16,
                            ),
                            cell_content: bytes.skip(area),
                        },
                    )
                }
            },
        }
    }
}

/// The length of the header that a database file starts with.
pub const FILE_HEADER_LEN: usize = 100;

/// The size of the pages of the file that starts with `header`: the
/// big-endian number in bytes 16 and 17 of the file header.
pub open spec fn page_size_of(header: Seq<u8>) -> Option<u16> {
    if header.len() < FILE_HEADER_LEN {
        None
    } else {
        Some(be16(header, 16) as u16)
    }
}

/// Reads the page size from the first bytes of a database file.
pub fn page_size(header: &[u8]) -> (res: Result<u16, Error>)
    ensures
        match res {
            Ok(size) => page_size_of(header@) == Some(size),
            Err(e) => e is MalformedPage && page_size_of(header@) is None,
        },
{
    if header.len() < FILE_HEADER_LEN {
        Err(Error::MalformedPage)
    } else {
        Ok(read_be16(header, 16))
    }
}

/// The place in the file at which the page with number `page_number` starts,
/// pages being counted from 1: none for a page number of 0.
pub open spec fn page_start(page_number: u32, page_size: u16) -> Option<int> {
    if page_number == 0 {
        None
    } else {
        Some((page_number - 1) * page_size)
    }
}

/// Computes the place in the file at which a page starts.
pub fn page_offset(page_number: u32, page_size: u16) -> (res: Option<u64>)
    ensures
        match res {
            Some(at) => page_start(page_number, page_size) == Some(at as int),
            None => page_start(page_number, page_size) is None,
        },
{
    if page_number == 0 {
        None
    } else {
        let pages = (page_number - 1) as u64;
        let size = page_size as u64;
        assert(pages * size <= 0xffff_ffff * 0xffff) by (nonlinear_arith)
            requires
                pages <= 0xffff_ffff,
                size <= 0xffff,
        ;
        Some(pages * size)
    }
}

/// Where the B-tree header of the page with number `page_number` stands in
/// its buffer: after the file header on the first page, at the start on
/// every other.
pub open spec fn header_offset(page_number: u32) -> int {
    if page_number == 1 {
        FILE_HEADER_LEN as int
    } else {
        0
    }
}

/// An interior cell of an index tree: a child page and a record whose last
/// column is a row id.
#[derive(Debug)]
pub struct BTreeInteriorIndexCell {
    pub left_child_page: u32,
    pub payload: Vec<u8>,
}

/// An interior cell of a table tree: a child page and the greatest row id
/// beneath it.
#[derive(Debug)]
pub struct BTreeInteriorTableCell {
    pub left_child_page: u32,
    pub row_id: Varint,
}

/// A leaf cell of a table tree: one row.
#[derive(Debug)]
pub struct BTreeLeafTableCell {
    pub row_id: Varint,
    pub payload: Vec<u8>,
}

/// A leaf cell of an index tree: a record whose last column is a row id.
#[derive(Debug)]
pub struct BTreeLeafIndexCell {
    pub payload: Vec<u8>,
}

/// One entry of a page.
#[derive(Debug)]
pub enum BTreeCell {
    InteriorIndexCell(BTreeInteriorIndexCell),
    InteriorTableCell(BTreeInteriorTableCell),
    LeafIndexCell(BTreeLeafIndexCell),
    LeafTableCell(BTreeLeafTableCell),
}

/// What one entry of a page holds.
pub enum CellView {
    InteriorIndexCell { left_child_page: u32, payload: Seq<u8> },
    InteriorTableCell { left_child_page: u32, row_id: Varint },
    LeafIndexCell { payload: Seq<u8> },
    LeafTableCell { row_id: Varint, payload: Seq<u8> },
}

impl BTreeInteriorIndexCell {
    /// The columns of the cell's record.
    pub fn values(&self) -> (res: Result<Vec<RecordFormat>, Error>)
        ensures
            match res {
                Ok(v) => decode_record(self.payload@) == Some(values_view(v@)),
                Err(e) => e is MalformedRecord && decode_record(self.payload@) is None,
            },
    {
        values(&self.payload)
    }
}

impl BTreeLeafTableCell {
    /// The columns of the cell's record.
    pub fn values(&self) -> (res: Result<Vec<RecordFormat>, Error>)
        ensures
            match res {
                Ok(v) => decode_record(self.payload@) == Some(values_view(v@)),
                Err(e) => e is MalformedRecord && decode_record(self.payload@) is None,
            },
    {
        values(&self.payload)
    }
}

impl BTreeLeafIndexCell {
    /// The columns of the cell's record.
    pub fn values(&self) -> (res: Result<Vec<RecordFormat>, Error>)
        ensures
            match res {
                Ok(v) => decode_record(self.payload@) == Some(values_view(v@)),
                Err(e) => e is MalformedRecord && decode_record(self.payload@) is None,
            },
    {
        values(&self.payload)
    }
}

impl View for BTreeCell {
    type V = CellView;

    open spec fn view(&self) -> CellView {
        match *self {
            BTreeCell::InteriorIndexCell(c) => CellView::InteriorIndexCell {
                left_child_page: c.left_child_page,
                payload: c.payload@,
            },
            BTreeCell::InteriorTableCell(c) => CellView::InteriorTableCell {
                left_child_page: c.left_child_page,
                row_id: c.row_id,
            },
            BTreeCell::LeafIndexCell(c) => CellView::LeafIndexCell { payload: c.payload@ },
            BTreeCell::LeafTableCell(c) => CellView::LeafTableCell {
                row_id: c.row_id,
                payload: c.payload@,
            },
        }
    }
}

/// The views of a list of cells, in order.
pub open spec fn cells_view(v: Seq<BTreeCell>) -> Seq<CellView> {
    Seq::new(v.len(), |i: int| v[i]@)
}

/// The varint at the start of `s`, as a value.
pub open spec fn varint_at(s: Seq<u8>) -> Varint {
    Varint { value: varint_value(s) as i64, size: varint_len(s) as u8 }
}

/// The record of `size` bytes that starts at `s[from]`, where it lies inside `s`.
pub open spec fn payload_at(s: Seq<u8>, from: int, size: int) -> Option<Seq<u8>> {
    if size < 0 || from + size > s.len() {
        None
    } else {
        Some(s.subrange(from, from + size))
    }
}

/// The cell of a page of kind `t` that starts at the front of `s`, or `None`
/// where `s` is too short for it.
pub open spec fn decode_cell(t: BTreePageType, s: Seq<u8>) -> Option<CellView> {
    match t {
        BTreePageType::InteriorIndexPage => {
            if s.len() < 5 {
                None
            } else {
                let size = varint_at(s.skip(4));
                match payload_at(s, 4 + size.size, size.value as int) {
                    None => None,
                    Some(payload) => Some(
                        CellView::InteriorIndexCell {
                            left_child_page: be32(s, 0) as u32,
                            payload,
                        },
                    ),
                }
            }
        },
        BTreePageType::InteriorTablePage => {
            if s.len() < 5 {
                None
            } else {
                Some(
                    CellView::InteriorTableCell {
                        left_child_page: be32(s, 0) as u32,
                        row_id: varint_at(s.skip(4)),
                    },
                )
            }
        },
        BTreePageType::LeafTablePage => {
            if s.len() < 1 {
                None
            } else {
                let size = varint_at(s);
                if size.size >= s.len() {
                    None
                } else {
                    let row_id = varint_at(s.skip(size.size as int));
                    match payload_at(s, size.size + row_id.size, size.value as int) {
                        None => None,
                        Some(payload) => Some(CellView::LeafTableCell { row_id, payload }),
                    }
                }
            }
        },
        BTreePageType::LeafIndexPage => {
            if s.len() < 1 {
                None
            } else {
                let size = varint_at(s);
                match payload_at(s, size.size as int, size.value as int) {
                    None => None,
                    Some(payload) => Some(CellView::LeafIndexCell { payload }),
                }
            }
        },
    }
}

/// The `i`-th cell of page `v`, or `None` where its pointer leaves the page
/// or the cell does not fit.
pub open spec fn cell_at(v: PageView, i: int) -> Option<CellView> {
    if v.cell_pointers[i] > v.cell_content.len() {
        None
    } else {
        decode_cell(v.page_type, v.cell_content.skip(v.cell_pointers[i] as int))
    }
}

/// The cells of page `v` in pointer order, or `None` where one of them does
/// not decode or the pointer array is not `num_cells` long.
pub open spec fn page_cells(v: PageView) -> Option<Seq<CellView>> {
    if v.cell_pointers.len() == v.num_cells && forall|i: int|
        0 <= i < v.cell_pointers.len() ==> (#[trigger] cell_at(v, i)) is Some {
        Some(Seq::new(v.cell_pointers.len(), |i: int| cell_at(v, i).unwrap()))
    } else {
        None
    }
}

/// Reads the big-endian 32-bit number at the start of `s`.
fn read_be32(s: &[u8]) -> (v: u32)
    requires
        s@.len() >= 4,
    ensures
        v == be32(s@, 0),
{
    let a = s[0] as u32;
    let b = s[1] as u32;
    let c = s[2] as u32;
    let d = s[3] as u32;
    ((a * 256 + b) * 256 + c) * 256 + d
}

/// Reads the big-endian 16-bit number at `s[i..i + 2]`.
fn read_be16(s: &[u8], i: usize) -> (v: u16)
    requires
        i + 2 <= s@.len(),
    ensures
        v == be16(s@, i as int),
{
    (s[i] as u16) * 256 + s[i + 1] as u16
}

/// Copies the `size` bytes of `s` that start at `from`.
fn read_payload(s: &[u8], from: usize, size: i64) -> (res: Option<Vec<u8>>)
    requires
        from <= s@.len(),
    ensures
        match res {
            Some(v) => payload_at(s@, from as int, size as int) == Some(v@),
            None => payload_at(s@, from as int, size as int) is None,
        },
{
    if size < 0 || size as u64 > (s.len() - from) as u64 {
        None
    } else {
        let n = size as usize;
        Some(slice_to_vec(slice_subrange(s, from, from + n)))
    }
}

/// Decodes the cell of a page of kind `t` that starts at the front of `s`.
fn read_cell(t: BTreePageType, s: &[u8]) -> (res: Option<BTreeCell>)
    ensures
        match res {
            Some(c) => decode_cell(t, s@) == Some(c@),
            None => decode_cell(t, s@) is None,
        },
{
    match t {
        BTreePageType::InteriorIndexPage => {
            if s.len() < 5 {
                return None;
            }
            let left_child_page = read_be32(s);
            let tail = slice_subrange(s, 4, s.len());
            assert(tail@ =~= s@.skip(4));
            let (size, _) = Varint::from(tail);
            match read_payload(s, 4 + size.size as usize, size.value) {
                None => None,
                Some(payload) => Some(
                    BTreeCell::InteriorIndexCell(BTreeInteriorIndexCell { left_child_page, payload }),
                ),
            }
        },
        BTreePageType::InteriorTablePage => {
            if s.len() < 5 {
                return None;
            }
            let left_child_page = read_be32(s);
            let tail = slice_subrange(s, 4, s.len());
            assert(tail@ =~= s@.skip(4));
            let (row_id, _) = Varint::from(tail);
            Some(BTreeCell::InteriorTableCell(BTreeInteriorTableCell { left_child_page, row_id }))
        },
        BTreePageType::LeafTablePage => {
            if s.len() < 1 {
                return None;
            }
            let (size, tail) = Varint::from(s);
            if size.size as usize >= s.len() {
                return None;
            }
            let (row_id, _) = Varint::from(tail);
            match read_payload(s, size.size as usize + row_id.size as usize, size.value) {
                None => None,
                Some(payload) => Some(BTreeCell::LeafTableCell(BTreeLeafTableCell { row_id, payload })),
            }
        },
        BTreePageType::LeafIndexPage => {
            if s.len() < 1 {
                return None;
            }
            let (size, _) = Varint::from(s);
            match read_payload(s, size.size as usize, size.value) {
                None => None,
                Some(payload) => Some(BTreeCell::LeafIndexCell(BTreeLeafIndexCell { payload })),
            }
        },
    }
}

/// One page of a table or index B-tree.
#[derive(Debug)]
pub struct BTreePage {
    pub page_type: BTreePageType,
    pub num_cells: u16,
    pub cell_content_area: u16,
    pub right_most_pointer: Option<u32>,
    pub cell_pointers: Vec<u16>,
    pub cell_content: Vec<u8>,
}

impl View for BTreePage {
    type V = PageView;

    open spec fn view(&self) -> PageView {
        PageView {
            page_type: self.page_type,
            num_cells: self.num_cells,
            cell_content_area: self.cell_content_area,
            right_most_pointer: self.right_most_pointer,
            cell_pointers: self.cell_pointers@,
            cell_content: self.cell_content@,
        }
    }
}

impl BTreePage {
    /// Reads the page whose B-tree header stands at the start of `page`.
    pub fn new(page: Vec<u8>) -> (res: Result<Self, Error>)
        ensures
            match res {
                Ok(p) => parse_page(page@, 0) == Ok::<PageView, Error>(p@),
                Err(e) => parse_page(page@, 0) == Err::<PageView, Error>(e),
            },
            res matches Ok(p) ==> p.cell_pointers@.len() == p.num_cells,
    {
        Self::read_header(page.as_slice(), 0)
    }

    /// Reads the page whose B-tree header stands `offset` bytes into `page`,
    /// as on the first page of a file, where the file header comes first.
    pub fn with_offset_header(page: Vec<u8>, offset: usize) -> (res: Result<Self, Error>)
        ensures
            match res {
                Ok(p) => parse_page(page@, offset as int) == Ok::<PageView, Error>(p@),
                Err(e) => parse_page(page@, offset as int) == Err::<PageView, Error>(e),
            },
            res matches Ok(p) ==> p.cell_pointers@.len() == p.num_cells,
    {
        Self::read_header(page.as_slice(), offset)
    }

    fn read_header(page: &[u8], offset: usize) -> (res: Result<Self, Error>)
        ensures
            match res {
                Ok(p) => parse_page(page@, offset as int) == Ok::<PageView, Error>(p@),
                Err(e) => parse_page(page@, offset as int) == Err::<PageView, Error>(e),
            },
    {
        if page.len() < 8 || offset > page.len() - 8 {
            return Err(Error::MalformedPage);
        }
        let kind = page[offset];
        let page_type = if kind == 0x02 {
            BTreePageType::InteriorIndexPage
        } else if kind == 0x05 {
            BTreePageType::InteriorTablePage
        } else if kind == 0x0a {
            BTreePageType::LeafIndexPage
        } else if kind == 0x0d {
            BTreePageType::LeafTablePage
        } else {
            return Err(Error::BadPageType(kind));
        };
        let num_cells = read_be16(page, offset + 3);
        let cell_content_area = read_be16(page, offset + 5);
        let interior = match page_type {
            BTreePageType::InteriorIndexPage => true,
            BTreePageType::InteriorTablePage => true,
            _ => false,
        };
        let header: usize = if interior {
            12
        } else {
            8
        };
        let room = page.len() - offset;
        if room < header || (room - header) / 2 < num_cells as usize
            || cell_content_area as usize > page.len() {
            return Err(Error::MalformedPage);
        }
        let right_most_pointer = if interior {
            let tail = slice_subrange(page, offset + 8, page.len());
            assert(be32(tail@, 0) == be32(page@, offset + 8));
            Some(read_be32(tail))
        } else {
            None
        };
        let mut cell_pointers: Vec<u16> = Vec::new();
        let mut i: usize = 0;
        let first = offset + header;
        while i < num_cells as usize
            invariant
                i <= num_cells,
                offset + 8 <= page@.len() <= usize::MAX,
                page_type_of(page@[offset as int]) == Some(page_type),
                num_cells == be16(page@, offset + 3),
                cell_content_area == be16(page@, offset + 5),
                cell_content_area <= page@.len(),
                first == offset + header_len(page_type),
                first + 2 * num_cells <= page@.len(),
                cell_pointers@.len() == i,
                forall|j: int|
                    0 <= j < i ==> raw_pointer(page@, offset as int, page_type, j)
                        >= cell_content_area,
                forall|j: int|
                    0 <= j < i ==> #[trigger] cell_pointers@[j] == raw_pointer(
                        page@,
                        offset as int,
                        page_type,
                        j,
                    ) - cell_content_area,
            decreases num_cells - i,
        {
            let raw = read_be16(page, first + 2 * i);
            if raw < cell_content_area {
                assert(raw_pointer(page@, offset as int, page_type, i as int) < cell_content_area);
                return Err(Error::MalformedPage);
            }
            cell_pointers.push(raw - cell_content_area);
            i = i + 1;
        }
        let cell_content = slice_to_vec(
            slice_subrange(page, cell_content_area as usize, page.len()),
        );
        let res = BTreePage {
            page_type,
            num_cells,
            cell_content_area,
            right_most_pointer,
            cell_pointers,
            cell_content,
        };
        proof {
            let want = parse_page(page@, offset as int);
            assert(want is Ok);
            assert(want->Ok_0.cell_pointers =~= res@.cell_pointers);
            assert(want->Ok_0.cell_content =~= res@.cell_content);
        }
        Ok(res)
    }

    /// Reads the page with number `page_number` from its buffer `page`.
    pub fn of_page(page_number: u32, page: Vec<u8>) -> (res: Result<Self, Error>)
        ensures
            match res {
                Ok(p) => parse_page(page@, header_offset(page_number)) == Ok::<PageView, Error>(
                    p@,
                ),
                Err(e) => parse_page(page@, header_offset(page_number)) == Err::<
                    PageView,
                    Error,
                >(e),
            },
            res matches Ok(p) ==> p.cell_pointers@.len() == p.num_cells,
    {
        if page_number == 1 {
            Self::with_offset_header(page, FILE_HEADER_LEN)
        } else {
            Self::new(page)
        }
    }

    /// A cursor over the rows of the table tree of which this page is the root.
    pub fn iter(self) -> (res: Result<CellIterator, Error>)
        ensures
            match res {
                Ok(it) => fresh_frame(self@) matches Some(f) && it@ == seq![f],
                Err(e) => e is MalformedRecord && fresh_frame(self@) is None,
            },
    {
        CellIterator::new(self)
    }

    /// The cells of the page, in the order of its cell pointers.
    pub fn cells(&self) -> (res: Result<Vec<BTreeCell>, Error>)
        ensures
            match res {
                Ok(c) => page_cells(self@) == Some(cells_view(c@)) && c@.len() == self.num_cells,
                Err(e) => e is MalformedRecord && page_cells(self@) is None,
            },
    {
        if self.cell_pointers.len() != self.num_cells as usize {
            return Err(Error::MalformedRecord);
        }
        let mut cells: Vec<BTreeCell> = Vec::new();
        let mut i: usize = 0;
        let content = self.cell_content.as_slice();
        while i < self.cell_pointers.len()
            invariant
                i <= self.cell_pointers@.len(),
                content@ == self@.cell_content,
                self.cell_pointers@ == self@.cell_pointers,
                self.page_type == self@.page_type,
                self.num_cells == self@.num_cells,
                self.cell_pointers@.len() == self.num_cells,
                cells@.len() == i,
                forall|j: int| 0 <= j < i ==> #[trigger] cell_at(self@, j) == Some(cells@[j]@),
            decreases self.cell_pointers@.len() - i,
        {
            let pointer = self.cell_pointers[i] as usize;
            if pointer > content.len() {
                assert(cell_at(self@, i as int) is None);
                return Err(Error::MalformedRecord);
            }
            let tail = slice_subrange(content, pointer, content.len());
            assert(tail@ =~= content@.skip(pointer as int));
            match read_cell(self.page_type, tail) {
                Some(cell) => {
                    cells.push(cell);
                },
                None => {
                    assert(cell_at(self@, i as int) is None);
                    return Err(Error::MalformedRecord);
                },
            }
            i = i + 1;
        }
        proof {
            assert(page_cells(self@) is Some);
            assert(page_cells(self@).unwrap() =~= cells_view(cells@));
        }
        Ok(cells)
    }
}

} // verus!

//! Variable-length integers, typed record values and schema rows.

use vstd::prelude::*;
use vstd::slice::slice_subrange;
use vstd::slice::slice_to_vec;
use crate::error::Error;
use crate::tokenizer::{
    lemma_token_bounds, push_char, same_text, tag_matches, token_at, tokens_span, tokens_view,
    Token, TokenView, Tokenizer,
};
use crate::tree_handler::{decode_record, BTreeLeafTableCell};

verus! {

/// The number of bytes at the start of `s` that belong to one varint when at
/// most `max` bytes may be used: bytes are taken while the high bit is set.
pub open spec fn varint_span(s: Seq<u8>, max: nat) -> nat
    decreases max,
{
    if s.len() == 0 || max == 0 {
        0
    } else if max == 1 || s[0] < 0x80 {
        1
    } else {
        1 + varint_span(s.skip(1), (max - 1) as nat)
    }
}

/// The number of bytes the varint at the start of `s` occupies: 1 to 9, or
/// all of `s` where `s` ends first.
pub open spec fn varint_len(s: Seq<u8>) -> nat {
    varint_span(s, 9)
}

/// The big-endian base-128 number spelled by the low seven bits of each byte.
pub open spec fn base128(s: Seq<u8>) -> int
    decreases s.len(),
{
    if s.len() == 0 {
        0
    } else {
        base128(s.drop_last()) * 128 + s.last() % 128
    }
}

/// The unsigned 64-bit number a varint spells: seven bits from each of the
/// first eight bytes, and all eight bits of a ninth.
pub open spec fn varint_unsigned(s: Seq<u8>) -> int {
    let n = varint_len(s);
    if n == 9 {
        base128(s.take(8)) * 256 + s[8]
    } else {
        base128(s.take(n as int))
    }
}

/// Reading an unsigned 64-bit number as two's complement.
pub open spec fn as_signed64(u: int) -> int {
    if u < 0x8000_0000_0000_0000 {
        u
    } else {
        u - 0x1_0000_0000_0000_0000
    }
}

/// The signed value of the varint at the start of `s`.
pub open spec fn varint_value(s: Seq<u8>) -> int {
    as_signed64(varint_unsigned(s))
}

/// 128 to the power `n`.
pub open spec fn pow128(n: nat) -> int
    decreases n,
{
    if n == 0 {
        1
    } else {
        128 * pow128((n - 1) as nat)
    }
}

proof fn lemma_pow128_bound(n: nat)
    requires
        n <= 8,
    ensures
        0 < pow128(n) <= 0x100_0000_0000_0000,
{
    reveal_with_fuel(pow128, 10);
}

proof fn lemma_span_step(s: Seq<u8>, i: nat)
    requires
        i < 8,
        i < s.len(),
        s[i as int] >= 0x80,
    ensures
        varint_span(s.skip(i as int), (9 - i) as nat) == 1 + varint_span(
            s.skip(i as int + 1),
            (8 - i) as nat,
        ),
{
    assert(s.skip(i as int).skip(1) =~= s.skip(i as int + 1));
}

/// Whether `s` starts with a well-formed varint of `len` bytes: the high bit
/// is set in each of the first `len - 1` bytes and is clear in the last,
/// unless that is the ninth.
pub open spec fn valid_varint(s: Seq<u8>, len: int) -> bool {
    &&& 1 <= len <= 9
    &&& len <= s.len()
    &&& forall|i: int| 0 <= i < len - 1 ==> #[trigger] s[i] >= 0x80
    &&& len < 9 ==> s[len - 1] < 0x80
}

proof fn lemma_span_of_valid(s: Seq<u8>, max: nat, len: int)
    requires
        1 <= len <= max,
        len <= s.len(),
        forall|i: int| 0 <= i < len - 1 ==> #[trigger] s[i] >= 0x80,
        len < max ==> s[len - 1] < 0x80,
    ensures
        varint_span(s, max) == len,
    decreases len,
{
    if len > 1 {
        assert(s[0] >= 0x80);
        let rest = s.skip(1);
        assert forall|i: int| 0 <= i < len - 2 implies #[trigger] rest[i] >= 0x80 by {
            assert(rest[i] == s[i + 1]);
        }
        assert(rest[len - 2] == s[len - 1]);
        lemma_span_of_valid(rest, (max - 1) as nat, len - 1);
    }
}

proof fn lemma_base128_bound(s: Seq<u8>)
    ensures
        0 <= base128(s) < pow128(s.len()),
    decreases s.len(),
{
    if s.len() > 0 {
        lemma_base128_bound(s.drop_last());
    }
}

/// Decoding a well-formed varint of `len` bytes takes exactly `len` bytes,
/// whatever follows them, and gives the number that its bits spell, read as
/// a 64-bit number in two's complement.
pub proof fn lemma_valid_varint(s: Seq<u8>, len: int)
    requires
        valid_varint(s, len),
    ensures
        varint_len(s) == len,
        varint_len(s.take(len)) == len,
        varint_value(s) == varint_value(s.take(len)),
        0 <= varint_unsigned(s) < 0x1_0000_0000_0000_0000,
        -0x8000_0000_0000_0000 <= varint_value(s) < 0x8000_0000_0000_0000,
        varint_value(s) == varint_unsigned(s) || varint_value(s) == varint_unsigned(s)
            - 0x1_0000_0000_0000_0000,
        len < 9 ==> varint_value(s) == base128(s.take(len)),
{
    let head = s.take(len);
    lemma_span_of_valid(s, 9, len);
    assert forall|i: int| 0 <= i < len - 1 implies #[trigger] head[i] >= 0x80 by {
        assert(head[i] == s[i]);
    }
    lemma_span_of_valid(head, 9, len);
    if len == 9 {
        assert(head.take(8) =~= s.take(8));
        lemma_base128_bound(s.take(8));
        lemma_pow128_bound(8);
    } else {
        assert(head.take(len) =~= s.take(len));
        lemma_base128_bound(s.take(len));
        lemma_pow128_bound(len as nat);
    }
}

/// A decoded variable-length integer and the number of bytes it took.
#[derive(Debug)]
pub struct Varint {
    pub value: i64,
    pub size: u8,
}

impl Varint {
    /// Decodes the varint at the start of `buf` and returns it with the bytes
    /// that follow it.
    pub fn from(buf: &[u8]) -> (res: (Self, &[u8]))
        requires
            buf@.len() > 0,
        ensures
            res.0.value == varint_value(buf@),
            res.0.size == varint_len(buf@),
            1 <= res.0.size <= 9,
            res.0.size <= buf@.len(),
            res.1@ == buf@.skip(res.0.size as int),
    {
        let mut acc: u64 = 0;
        let mut i: usize = 0;
        let mut done = false;
        assert(buf@.skip(0) =~= buf@);
        while i < 8 && i < buf.len() && !done
            invariant
                i <= 8,
                i <= buf@.len(),
                buf@.len() > 0,
                0 <= acc < pow128(i as nat),
                acc == base128(buf@.take(i as int)),
                !done ==> varint_len(buf@) == i + varint_span(buf@.skip(i as int), (9 - i) as nat),
                done ==> varint_len(buf@) == i && i >= 1,
            decreases 8 - i + (if done { 0int } else { 1int }),
        {
            let b = buf[i];
            let low: u64 = (b & 0x7f) as u64;
            proof {
                lemma_pow128_bound(i as nat);
                lemma_pow128_bound((i + 1) as nat);
                assert(b & 0x7f == b % 128) by (bit_vector);
                assert(buf@.take(i as int + 1).drop_last() =~= buf@.take(i as int));
                assert(buf@.take(i as int + 1).last() == b);
                assert(buf@.skip(i as int)[0] == b);
            }
            assert((acc << 7) | low == acc * 128 + low) by (bit_vector)
                requires
                    acc < 0x100_0000_0000_0000,
                    low < 128,
            ;
            acc = (acc << 7) | low;
            if b & 0x80 == 0 {
                proof {
                    assert(b & 0x80 == 0 ==> b < 0x80) by (bit_vector);
                }
                done = true;
            } else {
                proof {
                    assert(b & 0x80 != 0 ==> b >= 0x80) by (bit_vector);
                    lemma_span_step(buf@, i as nat);
                }
            }
            i = i + 1;
        }
        if !done && i == 8 && i < buf.len() {
            let b = buf[8];
            proof {
                lemma_pow128_bound(8);
                assert(buf@.skip(8)[0] == b);
            }
            assert((acc << 8) | (b as u64) == acc * 256 + b) by (bit_vector)
                requires
                    acc < 0x100_0000_0000_0000,
            ;
            acc = (acc << 8) | (b as u64);
            i = 9;
        }
        proof {
            lemma_pow128_bound(8);
            if i < 9 {
                lemma_pow128_bound(i as nat);
            }
        }
        let value = #[verifier::truncate] (acc as i64);
        assert(value == as_signed64(acc as int)) by (bit_vector)
            requires
                value == #[verifier::truncate] (acc as i64),
        ;
        (Varint { value, size: i as u8 }, slice_subrange(buf, i, buf.len()))
    }
}

/// The stored value of one column, as mathematics sees it.
pub enum RecordValue {
    Null,
    Integer8(i8),
    Integer16(i16),
    Integer24(i32),
    Integer32(i32),
    Integer48(i64),
    Integer64(i64),
    /// The IEEE-754 bits of a double.
    Float64(u64),
    Integer0,
    Integer1,
    Blob(Seq<u8>),
    Text(Seq<char>),
}

/// The stored value of one column.  A double is held by its IEEE-754 bits.
#[derive(Debug, PartialEq)]
pub enum RecordFormat {
    NULL,
    Integer8(i8),
    Integer16(i16),
    Integer24(i32),
    Integer32(i32),
    Integer48(i64),
    Integer64(i64),
    Float64(u64),
    Integer0,
    Integer1,
    Blob(Vec<u8>),
    String(String),
}

impl View for RecordFormat {
    type V = RecordValue;

    open spec fn view(&self) -> RecordValue {
        match *self {
            RecordFormat::NULL => RecordValue::Null,
            RecordFormat::Integer8(i) => RecordValue::Integer8(i),
            RecordFormat::Integer16(i) => RecordValue::Integer16(i),
            RecordFormat::Integer24(i) => RecordValue::Integer24(i),
            RecordFormat::Integer32(i) => RecordValue::Integer32(i),
            RecordFormat::Integer48(i) => RecordValue::Integer48(i),
            RecordFormat::Integer64(i) => RecordValue::Integer64(i),
            RecordFormat::Float64(b) => RecordValue::Float64(b),
            RecordFormat::Integer0 => RecordValue::Integer0,
            RecordFormat::Integer1 => RecordValue::Integer1,
            RecordFormat::Blob(b) => RecordValue::Blob(b@),
            RecordFormat::String(s) => RecordValue::Text(s@),
        }
    }
}

impl Clone for RecordFormat {
    fn clone(&self) -> (res: Self)
        ensures
            res@ == self@,
    {
        match self {
            RecordFormat::NULL => RecordFormat::NULL,
            RecordFormat::Integer8(i) => RecordFormat::Integer8(*i),
            RecordFormat::Integer16(i) => RecordFormat::Integer16(*i),
            RecordFormat::Integer24(i) => RecordFormat::Integer24(*i),
            RecordFormat::Integer32(i) => RecordFormat::Integer32(*i),
            RecordFormat::Integer48(i) => RecordFormat::Integer48(*i),
            RecordFormat::Integer64(i) => RecordFormat::Integer64(*i),
            RecordFormat::Float64(b) => RecordFormat::Float64(*b),
            RecordFormat::Integer0 => RecordFormat::Integer0,
            RecordFormat::Integer1 => RecordFormat::Integer1,
            RecordFormat::Blob(b) => RecordFormat::Blob(slice_to_vec(b.as_slice())),
            RecordFormat::String(s) => RecordFormat::String(s.clone()),
        }
    }
}

/// The views of a list of column values, in order.
pub open spec fn values_view(v: Seq<RecordFormat>) -> Seq<RecordValue> {
    Seq::new(v.len(), |i: int| v[i]@)
}

/// 256 to the power `n`.
pub open spec fn pow256(n: nat) -> int
    decreases n,
{
    if n == 0 {
        1
    } else {
        256 * pow256((n - 1) as nat)
    }
}

/// The big-endian unsigned number that the bytes of `s` spell.
pub open spec fn be_unsigned(s: Seq<u8>) -> int
    decreases s.len(),
{
    if s.len() == 0 {
        0
    } else {
        be_unsigned(s.drop_last()) * 256 + s.last()
    }
}

/// The big-endian two's-complement number that the bytes of `s` spell.
pub open spec fn be_signed(s: Seq<u8>) -> int {
    if s.len() > 0 && s[0] >= 0x80 {
        be_unsigned(s) - pow256(s.len())
    } else {
        be_unsigned(s)
    }
}

/// The number of payload bytes a serial type stands for; `None` for the
/// reserved codes 10 and 11 and for a negative code.
pub open spec fn serial_size(serial: int) -> Option<nat> {
    if serial < 0 || serial == 10 || serial == 11 {
        None
    } else if serial == 0 || serial == 8 || serial == 9 {
        Some(0)
    } else if serial <= 4 {
        Some(serial as nat)
    } else if serial == 5 {
        Some(6)
    } else if serial == 6 || serial == 7 {
        Some(8)
    } else if serial % 2 == 0 {
        Some(((serial - 12) / 2) as nat)
    } else {
        Some(((serial - 13) / 2) as nat)
    }
}

/// The text that `String::from_utf8_lossy` makes of `bytes`.
pub uninterp spec fn utf8_lossy(bytes: Seq<u8>) -> Seq<char>;

/// The value that serial type `serial` gives to its stored bytes `body`.
pub open spec fn column_value(body: Seq<u8>, serial: int) -> RecordValue {
    if serial == 0 {
        RecordValue::Null
    } else if serial == 1 {
        RecordValue::Integer8(be_signed(body) as i8)
    } else if serial == 2 {
        RecordValue::Integer16(be_signed(body) as i16)
    } else if serial == 3 {
        RecordValue::Integer24(be_signed(body) as i32)
    } else if serial == 4 {
        RecordValue::Integer32(be_signed(body) as i32)
    } else if serial == 5 {
        RecordValue::Integer48(be_signed(body) as i64)
    } else if serial == 6 {
        RecordValue::Integer64(be_signed(body) as i64)
    } else if serial == 7 {
        RecordValue::Float64(be_unsigned(body) as u64)
    } else if serial == 8 {
        RecordValue::Integer0
    } else if serial == 9 {
        RecordValue::Integer1
    } else if serial % 2 == 0 {
        RecordValue::Blob(body)
    } else {
        RecordValue::Text(utf8_lossy(body))
    }
}

/// Decodes `bytes` with `String::from_utf8_lossy` and makes the result an
/// owned string: the text that the standard library reads from the bytes,
/// each invalid sequence replaced as it documents.  The result is taken as
/// it comes and only given a name.
#[verifier::external_body]
fn lossy_text(bytes: &[u8]) -> (s: String)
    ensures
        s@ == utf8_lossy(bytes@),
{
    String::from_utf8_lossy(bytes).into_owned()
}

proof fn lemma_pow256_values()
    ensures
        pow256(0) == 1,
        pow256(1) == 0x100,
        pow256(2) == 0x1_0000,
        pow256(3) == 0x100_0000,
        pow256(4) == 0x1_0000_0000,
        pow256(5) == 0x100_0000_0000,
        pow256(6) == 0x1_0000_0000_0000,
        pow256(7) == 0x100_0000_0000_0000,
        pow256(8) == 0x1_0000_0000_0000_0000,
{
    reveal_with_fuel(pow256, 10);
}

/// Reads the first `n` bytes of `bytes` as a big-endian unsigned number.
fn read_be_unsigned(bytes: &[u8], n: usize) -> (v: u64)
    requires
        n <= 8,
        n <= bytes@.len(),
    ensures
        v == be_unsigned(bytes@.take(n as int)),
        v < pow256(n as nat),
{
    let mut acc: u64 = 0;
    let mut i: usize = 0;
    proof {
        lemma_pow256_values();
    }
    while i < n
        invariant
            i <= n <= 8,
            n <= bytes@.len(),
            acc == be_unsigned(bytes@.take(i as int)),
            acc < pow256(i as nat),
        decreases n - i,
    {
        proof {
            lemma_pow256_values();
            assert(bytes@.take(i as int + 1).drop_last() =~= bytes@.take(i as int));
        }
        acc = acc * 256 + bytes[i] as u64;
        i = i + 1;
    }
    acc
}

/// Reads the first `n` bytes of `bytes` as a big-endian signed number.
fn read_be_signed(bytes: &[u8], n: usize) -> (v: i64)
    requires
        1 <= n <= 8,
        n <= bytes@.len(),
    ensures
        v == be_signed(bytes@.take(n as int)),
        -pow256(n as nat) <= 2 * v < pow256(n as nat),
{
    let u = read_be_unsigned(bytes, n);
    proof {
        lemma_pow256_values();
        lemma_be_unsigned_top(bytes@.take(n as int));
    }
    if bytes[0] >= 0x80 {
        if n == 8 {
            (u - 0x8000_0000_0000_0000) as i64 - 0x4000_0000_0000_0000 - 0x4000_0000_0000_0000
        } else {
            let modulus: i64 = if n == 1 {
                0x100
            } else if n == 2 {
                0x1_0000
            } else if n == 3 {
                0x100_0000
            } else if n == 4 {
                0x1_0000_0000
            } else if n == 5 {
                0x100_0000_0000
            } else if n == 6 {
                0x1_0000_0000_0000
            } else {
                0x100_0000_0000_0000
            };
            u as i64 - modulus
        }
    } else {
        u as i64
    }
}

/// The first byte of a big-endian number decides its upper half.
proof fn lemma_be_unsigned_top(s: Seq<u8>)
    requires
        s.len() >= 1,
    ensures
        s[0] * pow256((s.len() - 1) as nat) <= be_unsigned(s) < (s[0] + 1) * pow256(
            (s.len() - 1) as nat,
        ),
    decreases s.len(),
{
    if s.len() == 1 {
        assert(s.drop_last().len() == 0);
        assert(be_unsigned(s.drop_last()) == 0);
        assert(pow256(0) == 1);
    } else {
        lemma_be_unsigned_top(s.drop_last());
        assert(s.drop_last()[0] == s[0]);
        let k = pow256((s.len() - 2) as nat);
        assert(pow256((s.len() - 1) as nat) == 256 * k);
        assert(s[0] * (256 * k) == 256 * (s[0] * k)) by (nonlinear_arith);
        assert((s[0] + 1) * (256 * k) == 256 * ((s[0] + 1) * k)) by (nonlinear_arith);
    }
}

impl RecordFormat {
    /// Decodes the column of serial type `value` from the front of `payload`
    /// and returns it with the bytes that follow it.
    pub fn new(payload: &[u8], value: i64) -> (res: Result<(Self, &[u8]), Error>)
        ensures
            match res {
                Ok((r, rest)) => {
                    &&& serial_size(value as int) matches Some(n)
                    &&& n <= payload@.len()
                    &&& r@ == column_value(payload@.take(n as int), value as int)
                    &&& rest@ == payload@.skip(n as int)
                },
                Err(e) => {
                    &&& e is MalformedRecord
                    &&& serial_size(value as int) matches Some(n) ==> n > payload@.len()
                },
            },
    {
        if value < 0 || value == 10 || value == 11 {
            return Err(Error::MalformedRecord);
        }
        let size: u64 = if value == 0 || value == 8 || value == 9 {
            0
        } else if value <= 4 {
            value as u64
        } else if value == 5 {
            6
        } else if value == 6 || value == 7 {
            8
        } else if value % 2 == 0 {
            ((value - 12) / 2) as u64
        } else {
            ((value - 13) / 2) as u64
        };
        assert(serial_size(value as int) == Some(size as nat));
        if size > payload.len() as u64 {
            return Err(Error::MalformedRecord);
        }
        let n: usize = size as usize;
        let rest = slice_subrange(payload, n, payload.len());
        proof {
            lemma_pow256_values();
        }
        let r = if value == 0 {
            RecordFormat::NULL
        } else if value == 1 {
            RecordFormat::Integer8(read_be_signed(payload, n) as i8)
        } else if value == 2 {
            RecordFormat::Integer16(read_be_signed(payload, n) as i16)
        } else if value == 3 {
            RecordFormat::Integer24(read_be_signed(payload, n) as i32)
        } else if value == 4 {
            RecordFormat::Integer32(read_be_signed(payload, n) as i32)
        } else if value == 5 {
            RecordFormat::Integer48(read_be_signed(payload, n))
        } else if value == 6 {
            RecordFormat::Integer64(read_be_signed(payload, n))
        } else if value == 7 {
            RecordFormat::Float64(read_be_unsigned(payload, n))
        } else if value == 8 {
            RecordFormat::Integer0
        } else if value == 9 {
            RecordFormat::Integer1
        } else if value % 2 == 0 {
            let body = slice_subrange(payload, 0, n);
            RecordFormat::Blob(slice_to_vec(body))
        } else {
            let body = slice_subrange(payload, 0, n);
            RecordFormat::String(lossy_text(body))
        };
        Ok((r, rest))
    }
}

/// The integer that a column value stands for, where it is an integer.
pub open spec fn int_value(v: RecordValue) -> Option<int> {
    match v {
        RecordValue::Integer8(i) => Some(i as int),
        RecordValue::Integer16(i) => Some(i as int),
        RecordValue::Integer24(i) => Some(i as int),
        RecordValue::Integer32(i) => Some(i as int),
        RecordValue::Integer48(i) => Some(i as int),
        RecordValue::Integer64(i) => Some(i as int),
        RecordValue::Integer0 => Some(0),
        RecordValue::Integer1 => Some(1),
        _ => None,
    }
}

impl RecordFormat {
    /// The integer that the value stands for, where it is an integer.
    pub fn as_integer(&self) -> (res: Option<i64>)
        ensures
            match res {
                Some(i) => int_value(self@) == Some(i as int),
                None => int_value(self@) is None,
            },
    {
        match self {
            RecordFormat::Integer8(i) => Some(*i as i64),
            RecordFormat::Integer16(i) => Some(*i as i64),
            RecordFormat::Integer24(i) => Some(*i as i64),
            RecordFormat::Integer32(i) => Some(*i as i64),
            RecordFormat::Integer48(i) => Some(*i),
            RecordFormat::Integer64(i) => Some(*i),
            RecordFormat::Integer0 => Some(0),
            RecordFormat::Integer1 => Some(1),
            _ => None,
        }
    }
}

/// One row of the schema table: what kind of object it describes, its name,
/// the table it belongs to, the page its B-tree starts on and the statement
/// that made it.
#[derive(Debug)]
pub struct SchemaRecord {
    pub kind: String,
    pub name: String,
    pub tbl_name: String,
    pub rootpage: u32,
    pub sql: String,
}

impl Clone for SchemaRecord {
    fn clone(&self) -> (res: Self)
        ensures
            res@ == self@,
    {
        SchemaRecord {
            kind: self.kind.clone(),
            name: self.name.clone(),
            tbl_name: self.tbl_name.clone(),
            rootpage: self.rootpage,
            sql: self.sql.clone(),
        }
    }
}

/// What a schema row holds.
pub struct SchemaView {
    pub kind: Seq<char>,
    pub name: Seq<char>,
    pub tbl_name: Seq<char>,
    pub rootpage: u32,
    pub sql: Seq<char>,
}

impl View for SchemaRecord {
    type V = SchemaView;

    open spec fn view(&self) -> SchemaView {
        SchemaView {
            kind: self.kind@,
            name: self.name@,
            tbl_name: self.tbl_name@,
            rootpage: self.rootpage,
            sql: self.sql@,
        }
    }
}

/// The schema row that the five columns `values` make: three texts, an
/// integer that is a page number, and a text, for which a null stands as the
/// empty text.
pub open spec fn schema_row(values: Seq<RecordValue>) -> Option<SchemaView> {
    if values.len() < 5 {
        None
    } else {
        match (values[0], values[1], values[2], int_value(values[3]), values[4]) {
            (
                RecordValue::Text(kind),
                RecordValue::Text(name),
                RecordValue::Text(tbl_name),
                Some(page),
                RecordValue::Text(sql),
            ) => if 0 <= page <= u32::MAX {
                Some(SchemaView { kind, name, tbl_name, rootpage: page as u32, sql })
            } else {
                None
            },
            (
                RecordValue::Text(kind),
                RecordValue::Text(name),
                RecordValue::Text(tbl_name),
                Some(page),
                RecordValue::Null,
            ) => if 0 <= page <= u32::MAX {
                Some(SchemaView { kind, name, tbl_name, rootpage: page as u32, sql: Seq::empty() })
            } else {
                None
            },
            _ => None,
        }
    }
}

/// Whether a token ends one item of a parenthesised list.
pub open spec fn is_separator(t: TokenView) -> bool {
    t == TokenView::Punctuation(',') || t == TokenView::Punctuation(')')
}

/// The position of the separator that ends the list item at `pos`, or of the
/// place where no token can be read.
pub open spec fn item_end(text: Seq<char>, pos: int) -> int
    decreases text.len() - pos,
{
    let (t, p) = token_at(text, pos);
    match t {
        None => pos,
        Some(t) => if is_separator(t) || p <= pos || pos < 0 || p > text.len() {
            pos
        } else {
            item_end(text, p)
        },
    }
}

/// The name that a token gives: the text of a word or of a quoted string.
pub open spec fn name_of(t: Option<TokenView>) -> Option<Seq<char>> {
    match t {
        Some(TokenView::Text(s)) => Some(s),
        Some(TokenView::String(s)) => Some(s),
        _ => None,
    }
}

/// The names in the parenthesised list whose first item starts at `pos`: the
/// first token of each item, the items being parted by `,` and ended by `)`.
pub open spec fn column_names_from(text: Seq<char>, pos: int) -> Option<Seq<Seq<char>>>
    decreases text.len() - pos,
{
    match name_of(token_at(text, pos).0) {
        None => None,
        Some(name) => {
            let (sep, after) = token_at(text, item_end(text, pos));
            if sep == Some(TokenView::Punctuation(')')) {
                Some(seq![name])
            } else if sep == Some(TokenView::Punctuation(',')) && pos < after <= text.len() {
                match column_names_from(text, after) {
                    Some(rest) => Some(seq![name] + rest),
                    None => None,
                }
            } else {
                None
            }
        },
    }
}

/// The position after the three tokens `CREATE`, the word `kind` and the
/// name `name`, or `None` where `sql` does not start with them.
pub open spec fn create_head(sql: Seq<char>, kind: Seq<char>, name: Seq<char>) -> Option<int> {
    let (create, after_create) = token_at(sql, 0);
    let (what, after_what) = token_at(sql, after_create);
    let (named, after_name) = token_at(sql, after_what);
    if tag_matches(create, "CREATE"@) && tag_matches(what, kind) && name_of(named) == Some(name) {
        Some(after_name)
    } else {
        None
    }
}

/// The column names that the statement `CREATE TABLE name ( ... )` lists.
pub open spec fn table_columns_of(sql: Seq<char>, name: Seq<char>) -> Option<Seq<Seq<char>>> {
    match create_head(sql, "TABLE"@, name) {
        None => None,
        Some(after_name) => {
            let (open, after_open) = token_at(sql, after_name);
            if tag_matches(open, "("@) {
                column_names_from(sql, after_open)
            } else {
                None
            }
        },
    }
}

/// The column names that the statement `CREATE INDEX name ON table ( ... )` lists.
pub open spec fn index_columns_of(sql: Seq<char>, name: Seq<char>, table: Seq<char>) -> Option<
    Seq<Seq<char>>,
> {
    match create_head(sql, "INDEX"@, name) {
        None => None,
        Some(after_name) => {
            let (on, after_on) = token_at(sql, after_name);
            let (of_table, after_table) = token_at(sql, after_on);
            let (open, after_open) = token_at(sql, after_table);
            if tag_matches(on, "ON"@) && name_of(of_table) == Some(table) && tag_matches(
                open,
                "("@,
            ) {
                column_names_from(sql, after_open)
            } else {
                None
            }
        },
    }
}

/// The views of a list of strings, in order.
pub open spec fn texts_view(v: Seq<String>) -> Seq<Seq<char>> {
    Seq::new(v.len(), |i: int| v[i]@)
}

/// Reading tokens that are no separators leads to the end of the list item.
proof fn lemma_item_end_span(text: Seq<char>, pos: int, tokens: Seq<TokenView>)
    requires
        0 <= pos <= text.len(),
        tokens_span(text, pos, tokens) is Some,
        forall|i: int| 0 <= i < tokens.len() ==> !is_separator(#[trigger] tokens[i]),
    ensures
        pos <= tokens_span(text, pos, tokens).unwrap() <= text.len(),
        item_end(text, pos) == item_end(text, tokens_span(text, pos, tokens).unwrap()),
        tokens.len() > 0 ==> token_at(text, pos).0 == Some(tokens[0]),
        tokens.len() > 0 ==> pos < tokens_span(text, pos, tokens).unwrap(),
    decreases tokens.len(),
{
    if tokens.len() > 0 {
        let front = tokens.drop_last();
        lemma_item_end_span(text, pos, front);
        let p = tokens_span(text, pos, front).unwrap();
        lemma_token_bounds(text, p);
        assert(!is_separator(tokens[tokens.len() - 1]));
        if front.len() > 0 {
            assert(front[0] == tokens[0]);
        }
    }
}

/// Whether a token belongs to an item of a parenthesised list, ending none.
fn inside_item(t: &Token) -> (r: bool)
    ensures
        r == !is_separator(t@),
{
    match t {
        Token::Punctuation(c) => *c != ',' && *c != ')',
        _ => true,
    }
}

/// The name that a token gives, where it is a word or a quoted string.
fn token_name(t: Option<Token>) -> (res: Option<String>)
    ensures
        match res {
            Some(s) => name_of(token_view(t)) == Some(s@),
            None => name_of(token_view(t)) is None,
        },
{
    match t {
        Some(Token::Text(s)) => Some(s),
        Some(Token::String(s)) => Some(s),
        _ => None,
    }
}

/// The view of a token that may be missing.
pub open spec fn token_view(t: Option<Token>) -> Option<TokenView> {
    match t {
        Some(t) => Some(t@),
        None => None,
    }
}

/// Reads the names of a parenthesised list from the place where its first
/// item starts.
fn read_column_list(tokenizer: &mut Tokenizer) -> (res: Result<Vec<String>, Error>)
    ensures
        match res {
            Ok(v) => column_names_from(old(tokenizer).text(), old(tokenizer).position()) == Some(
                texts_view(v@),
            ),
            Err(e) => e is ParseError && column_names_from(
                old(tokenizer).text(),
                old(tokenizer).position(),
            ) is None,
        },
{
    let mut result: Vec<String> = Vec::new();
    let ghost text = tokenizer.text();
    let ghost start = tokenizer.position();
    tokenizer.check_position();
    loop
        invariant
            tokenizer.text() == text,
            text == old(tokenizer).text(),
            start == old(tokenizer).position(),
            0 <= tokenizer.position() <= text.len(),
            column_names_from(text, start) == match column_names_from(text, tokenizer.position()) {
                Some(rest) => Some(texts_view(result@) + rest),
                None => None,
            },
        decreases text.len() - tokenizer.position(),
    {
        let ghost pos = tokenizer.position();
        let tokens = tokenizer.take_while(inside_item);
        proof {
            assert forall|i: int| 0 <= i < tokens@.len() implies !is_separator(
                #[trigger] tokens_view(tokens@)[i],
            ) by {
                let t = tokens@[i];
            }
            lemma_item_end_span(text, pos, tokens_view(tokens@));
            lemma_token_bounds(text, tokenizer.position());
        }
        let ghost end = tokenizer.position();
        assert(item_end(text, end) == end);
        if tokens.len() < 1 {
            assert(name_of(token_at(text, pos).0) is None);
            return Err(Error::ParseError);
        }
        let mut tokens = tokens;
        let first = tokens.swap_remove(0);
        let name = match token_name(Some(first)) {
            Some(name) => name,
            None => {
                return Err(Error::ParseError);
            },
        };
        let ghost before = texts_view(result@);
        let ghost name_view = name@;
        result.push(name);
        assert(texts_view(result@) =~= before.push(name_view));
        match tokenizer.next() {
            Some(Token::Punctuation(c)) => {
                if c == ')' {
                    assert(before + seq![name_view] =~= texts_view(result@));
                    return Ok(result);
                }
                proof {
                    let rest = column_names_from(text, tokenizer.position());
                    if rest is Some {
                        assert(before + (seq![name_view] + rest.unwrap()) =~= texts_view(result@)
                            + rest.unwrap());
                    }
                }
            },
            _ => {
                return Err(Error::ParseError);
            },
        }
    }
}

impl SchemaRecord {
    /// The schema row that the column values `values` make.
    pub fn from_values(values: &Vec<RecordFormat>) -> (res: Result<Self, Error>)
        ensures
            match res {
                Ok(r) => schema_row(values_view(values@)) == Some(r@),
                Err(e) => e is MalformedRecord && schema_row(values_view(values@)) is None,
            },
    {
        if values.len() < 5 {
            return Err(Error::MalformedRecord);
        }
        let kind = match &values[0] {
            RecordFormat::String(s) => s.clone(),
            _ => {
                return Err(Error::MalformedRecord);
            },
        };
        let name = match &values[1] {
            RecordFormat::String(s) => s.clone(),
            _ => {
                return Err(Error::MalformedRecord);
            },
        };
        let tbl_name = match &values[2] {
            RecordFormat::String(s) => s.clone(),
            _ => {
                return Err(Error::MalformedRecord);
            },
        };
        let rootpage = match values[3].as_integer() {
            Some(page) => {
                if page < 0 || page > 0xffff_ffff {
                    return Err(Error::MalformedRecord);
                }
                page as u32
            },
            None => {
                return Err(Error::MalformedRecord);
            },
        };
        let sql = match &values[4] {
            RecordFormat::String(s) => s.clone(),
            RecordFormat::NULL => String::new(),
            _ => {
                return Err(Error::MalformedRecord);
            },
        };
        Ok(SchemaRecord { kind, name, tbl_name, rootpage, sql })
    }

    /// The schema row that a leaf cell of the schema table holds.
    pub fn from(cell: BTreeLeafTableCell) -> (res: Result<Self, Error>)
        ensures
            match res {
                Ok(r) => decode_record(cell.payload@) matches Some(values) && schema_row(values)
                    == Some(r@),
                Err(e) => e is MalformedRecord && (decode_record(cell.payload@) matches Some(
                    values,
                ) ==> schema_row(values) is None),
            },
    {
        let values = cell.values()?;
        Self::from_values(&values)
    }

    /// Reads `CREATE`, the word `kind` and this row's name from `tokenizer`.
    fn read_head(&self, tokenizer: &mut Tokenizer, kind: &str) -> (ok: bool)
        requires
            old(tokenizer).text() == self.sql@,
            old(tokenizer).position() == 0,
        ensures
            final(tokenizer).text() == self.sql@,
            match create_head(self.sql@, kind@, self.name@) {
                Some(p) => ok && final(tokenizer).position() == p,
                None => !ok,
            },
    {
        if tokenizer.tag("CREATE").is_err() {
            return false;
        }
        if tokenizer.tag(kind).is_err() {
            return false;
        }
        match token_name(tokenizer.next()) {
            Some(s) => same_text(s.as_str(), self.name.as_str()),
            None => false,
        }
    }

    /// The names of the table's columns, read from the statement that made it.
    pub fn table_column_names(&self) -> (res: Result<Vec<String>, Error>)
        ensures
            match res {
                Ok(v) => table_columns_of(self.sql@, self.name@) == Some(texts_view(v@)),
                Err(e) => e is ParseError && table_columns_of(self.sql@, self.name@) is None,
            },
    {
        let mut tokenizer = Tokenizer::new(self.sql.as_str());
        if !self.read_head(&mut tokenizer, "TABLE") {
            return Err(Error::ParseError);
        }
        if tokenizer.tag("(").is_err() {
            return Err(Error::ParseError);
        }
        read_column_list(&mut tokenizer)
    }

    /// The names of the columns that the index covers, read from the
    /// statement that made it.
    pub fn index_columns(&self) -> (res: Result<Vec<String>, Error>)
        ensures
            match res {
                Ok(v) => index_columns_of(self.sql@, self.name@, self.tbl_name@) == Some(
                    texts_view(v@),
                ),
                Err(e) => e is ParseError && index_columns_of(self.sql@, self.name@, self.tbl_name@)
                    is None,
            },
    {
        let mut tokenizer = Tokenizer::new(self.sql.as_str());
        if !self.read_head(&mut tokenizer, "INDEX") {
            return Err(Error::ParseError);
        }
        if tokenizer.tag("ON").is_err() {
            return Err(Error::ParseError);
        }
        let on_table = match token_name(tokenizer.next()) {
            Some(s) => same_text(s.as_str(), self.tbl_name.as_str()),
            None => false,
        };
        if !on_table {
            return Err(Error::ParseError);
        }
        if tokenizer.tag("(").is_err() {
            return Err(Error::ParseError);
        }
        read_column_list(&mut tokenizer)
    }
}

/// The character that stands for the decimal digit `d`.
pub open spec fn digit_char(d: int) -> char {
    ('0' as int + d) as char
}

/// The decimal digits of `n`, the most significant first.
pub open spec fn decimal_digits(n: nat) -> Seq<char>
    decreases n,
{
    if n < 10 {
        seq![digit_char(n as int)]
    } else {
        decimal_digits(n / 10).push(digit_char((n % 10) as int))
    }
}

/// The decimal form of `i`, with a minus sign before a negative number.
pub open spec fn decimal_text(i: int) -> Seq<char> {
    if i < 0 {
        seq!['-'] + decimal_digits((-i) as nat)
    } else {
        decimal_digits(i as nat)
    }
}

/// The decimal forms of the bytes of `b`, parted by a comma and a space.
pub open spec fn byte_items(b: Seq<u8>) -> Seq<char>
    decreases b.len(),
{
    if b.len() == 0 {
        Seq::empty()
    } else if b.len() == 1 {
        decimal_digits(b[0] as nat)
    } else {
        byte_items(b.drop_last()) + seq![',', ' '] + decimal_digits(b.last() as nat)
    }
}

/// The bytes of `b` written as a list in square brackets.
pub open spec fn byte_list_text(b: Seq<u8>) -> Seq<char> {
    seq!['['] + byte_items(b) + seq![']']
}

/// The text form of a column value.  A double has none here: its decimal form
/// is made from its bits where floating point is at hand.
pub open spec fn value_text(v: RecordValue) -> Option<Seq<char>> {
    match v {
        RecordValue::Null => Some(seq!['N', 'U', 'L', 'L']),
        RecordValue::Float64(_) => None,
        RecordValue::Blob(b) => Some(byte_list_text(b)),
        RecordValue::Text(s) => Some(s),
        _ => Some(decimal_text(int_value(v).unwrap())),
    }
}

/// Puts the decimal digits of `n` at the end of `s`.
fn push_digits(s: &mut String, n: u64)
    ensures
        final(s)@ == old(s)@ + decimal_digits(n as nat),
    decreases n,
{
    if n >= 10 {
        push_digits(s, n / 10);
    }
    let d = (n % 10) as u8;
    let c = (48u8 + d) as char;
    assert(c == digit_char((n % 10) as int));
    push_char(s, c);
    assert(s@ =~= old(s)@ + decimal_digits(n as nat));
}

/// The decimal form of `i`.
pub fn decimal_string(i: i64) -> (s: String)
    ensures
        s@ == decimal_text(i as int),
{
    let mut s = String::new();
    if i < 0 {
        push_char(&mut s, '-');
        let magnitude: u64 = if i == i64::MIN {
            0x8000_0000_0000_0000
        } else {
            (-i) as u64
        };
        push_digits(&mut s, magnitude);
        assert(s@ =~= decimal_text(i as int));
    } else {
        push_digits(&mut s, i as u64);
        assert(s@ =~= decimal_text(i as int));
    }
    s
}

/// The bytes of `b` written as a list in square brackets.
pub fn byte_list_string(b: &Vec<u8>) -> (s: String)
    ensures
        s@ == byte_list_text(b@),
{
    let mut s = String::new();
    push_char(&mut s, '[');
    let mut i: usize = 0;
    assert(b@.take(0) =~= Seq::<u8>::empty());
    assert(s@ =~= seq!['['] + byte_items(b@.take(0)));
    while i < b.len()
        invariant
            i <= b@.len(),
            s@ == seq!['['] + byte_items(b@.take(i as int)),
        decreases b@.len() - i,
    {
        let ghost before = s@;
        if i > 0 {
            push_char(&mut s, ',');
            push_char(&mut s, ' ');
        }
        push_digits(&mut s, b[i] as u64);
        proof {
            let next = b@.take(i as int + 1);
            assert(next.drop_last() =~= b@.take(i as int));
            assert(next.last() == b@[i as int]);
            if i > 0 {
                assert(s@ =~= seq!['['] + (byte_items(b@.take(i as int)) + seq![',', ' ']
                    + decimal_digits(b@[i as int] as nat)));
            } else {
                assert(s@ =~= seq!['['] + decimal_digits(b@[i as int] as nat));
            }
        }
        i = i + 1;
    }
    assert(b@.take(b@.len() as int) =~= b@);
    push_char(&mut s, ']');
    s
}

/// Whether a stored value is what a token of a statement denotes: an integer
/// of one to eight stored bytes is a number of the same value, a null is the
/// word `NULL`, and a text is a quoted string of the same characters.
pub open spec fn value_is_token(v: RecordValue, t: TokenView) -> bool {
    match t {
        TokenView::Number(n) => match v {
            RecordValue::Integer8(i) => n == i,
            RecordValue::Integer16(i) => n == i,
            RecordValue::Integer24(i) => n == i,
            RecordValue::Integer32(i) => n == i,
            RecordValue::Integer48(i) => n == i,
            RecordValue::Integer64(i) => n == i,
            _ => false,
        },
        TokenView::Text(word) => v is Null && word == seq!['N', 'U', 'L', 'L'],
        TokenView::String(s) => v == RecordValue::Text(s),
        TokenView::Punctuation(_) => false,
    }
}

impl RecordFormat {
    /// Whether the value is what the token `other` denotes.
    pub fn equals_token(&self, other: &Token) -> (r: bool)
        ensures
            r == value_is_token(self@, other@),
    {
        match other {
            Token::Number(n) => match self {
                RecordFormat::Integer8(v) => *n == *v as i64,
                RecordFormat::Integer16(v) => *n == *v as i64,
                RecordFormat::Integer24(v) => *n == *v as i64,
                RecordFormat::Integer32(v) => *n == *v as i64,
                RecordFormat::Integer48(v) => *n == *v,
                RecordFormat::Integer64(v) => *n == *v,
                _ => false,
            },
            Token::Text(t) => match self {
                RecordFormat::NULL => {
                    proof {
                        reveal_strlit("NULL");
                    }
                    assert("NULL"@ =~= seq!['N', 'U', 'L', 'L']);
                    same_text(t.as_str(), "NULL")
                },
                _ => false,
            },
            Token::String(s) => match self {
                RecordFormat::String(v) => same_text(s.as_str(), v.as_str()),
                _ => false,
            },
            Token::Punctuation(_) => false,
        }
    }

    /// The text form of the value, by which it is printed and compared; a
    /// double has none.
    pub fn text(&self) -> (res: Option<String>)
        ensures
            match res {
                Some(s) => value_text(self@) == Some(s@),
                None => value_text(self@) is None,
            },
    {
        match self {
            RecordFormat::NULL => {
                let mut s = String::new();
                push_char(&mut s, 'N');
                push_char(&mut s, 'U');
                push_char(&mut s, 'L');
                push_char(&mut s, 'L');
                assert(s@ =~= seq!['N', 'U', 'L', 'L']);
                Some(s)
            },
            RecordFormat::Float64(_) => None,
            RecordFormat::Blob(b) => Some(byte_list_string(b)),
            RecordFormat::String(s) => Some(s.clone()),
            _ => {
                match self.as_integer() {
                    Some(i) => Some(decimal_string(i)),
                    None => None,
                }
            },
        }
    }
}

} // verus!

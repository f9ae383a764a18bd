//! Blocks of a table: values one after the other, and a row count at the end.

use vstd::prelude::*;
use vstd::utf8::{decode_utf8, valid_utf8};
use crate::codec::{le_value, lemma_pow256_values, read_le, utf8_text};
use crate::error::{DbError, DecodeError};
use crate::value::{Data, DataType, Value};

verus! {

/// Why a block's bytes are no rows.
#[derive(Clone, Copy, Debug, PartialEq, Eq, Structural)]
pub enum BlockIssue {
    TooSmall,
    Overrun,
    Unterminated,
    InvalidText,
    Incomparable,
}

/// Whether an error stands for an issue.
pub open spec fn is_block_issue(e: DbError, issue: BlockIssue) -> bool {
    match issue {
        BlockIssue::TooSmall => e is BlockTooSmall,
        BlockIssue::Overrun => e is BlockOverrun,
        BlockIssue::Unterminated => e is UnterminatedString,
        BlockIssue::InvalidText => e == DbError::Decode(DecodeError::InvalidText),
        BlockIssue::Incomparable => e is IncomparableValues,
    }
}

/// The position of the first zero byte from `at` on, before `end`.
pub open spec fn zero_from(bytes: Seq<u8>, end: int, at: int) -> Option<int>
    decreases end - at,
{
    if at >= end {
        None
    } else if bytes[at] == 0 {
        Some(at)
    } else {
        zero_from(bytes, end, at + 1)
    }
}

/// What `zero_from` is: a zero byte, with none before it.
pub proof fn zero_from_is_first(bytes: Seq<u8>, end: int, at: int)
    ensures
        match zero_from(bytes, end, at) {
            Some(z) => {
                &&& at <= z < end
                &&& bytes[z] == 0
                &&& forall|i: int| at <= i < z ==> #[trigger] bytes[i] != 0
            },
            None => forall|i: int| at <= i < end ==> #[trigger] bytes[i] != 0,
        },
    decreases end - at,
{
    if at < end && bytes[at] != 0 {
        zero_from_is_first(bytes, end, at + 1);
    }
}

/// The bytes that a value of a fixed size takes.
pub open spec fn fixed_width(t: DataType) -> Option<int> {
    match t {
        DataType::Int32 => Some(4),
        DataType::Int64 => Some(8),
        DataType::Float32 => Some(4),
        DataType::Float64 => Some(8),
        DataType::String => None,
    }
}

/// A fixed-size value made of bytes.
pub open spec fn fixed_value(t: DataType, bytes: Seq<u8>) -> Value {
    match t {
        DataType::Int32 => Value::Int32((le_value(bytes) as u32) as i32),
        DataType::Int64 => Value::Int64((le_value(bytes) as u64) as i64),
        DataType::Float32 => Value::Float32(le_value(bytes) as u32),
        DataType::Float64 => Value::Float64(le_value(bytes) as u64),
        DataType::String => Value::Str(Seq::empty()),
    }
}

/// The value at a position, and the position behind it.
pub open spec fn value_at(bytes: Seq<u8>, end: int, at: int, t: DataType) -> Result<
    (Value, int),
    BlockIssue,
> {
    match fixed_width(t) {
        Some(w) => if at + w > end {
            Err(BlockIssue::Overrun)
        } else {
            Ok((fixed_value(t, bytes.subrange(at, at + w)), at + w))
        },
        None => match zero_from(bytes, end, at) {
            None => Err(BlockIssue::Unterminated),
            Some(z) => {
                let text = bytes.subrange(at, z);
                if valid_utf8(text) {
                    Ok((Value::Str(decode_utf8(text)), z + 1))
                } else {
                    Err(BlockIssue::InvalidText)
                }
            },
        },
    }
}

/// The position behind the value at a position. Unlike in `value_at`, a string may hold any bytes.
pub open spec fn skip_at(bytes: Seq<u8>, end: int, at: int, t: DataType) -> Result<
    int,
    BlockIssue,
> {
    match fixed_width(t) {
        Some(w) => if at + w > end {
            Err(BlockIssue::Overrun)
        } else {
            Ok(at + w)
        },
        None => match zero_from(bytes, end, at) {
            None => Err(BlockIssue::Unterminated),
            Some(z) => Ok(z + 1),
        },
    }
}

/// A block that is read.
pub struct BlockBuffer<'a> {
    data: &'a [u8],
}

impl<'a> View for BlockBuffer<'a> {
    type V = Seq<u8>;

    closed spec fn view(&self) -> Seq<u8> {
        self.data@
    }
}

impl<'a> BlockBuffer<'a> {
    pub fn new(data: &'a [u8]) -> (r: BlockBuffer<'a>)
        ensures
            r@ == data@,
    {
        BlockBuffer { data }
    }

    pub fn len(&self) -> (r: usize)
        ensures
            r == self@.len(),
    {
        self.data.len()
    }

    pub fn as_slice(&self) -> (r: &[u8])
        ensures
            r@ == self@,
    {
        self.data
    }

    /// The end of the rows.
    pub fn usable_end(&self) -> (r: Result<usize, DbError>)
        ensures
            self@.len() >= 2 ==> r == Ok::<usize, DbError>((self@.len() - 2) as usize),
            self@.len() < 2 ==> r == Err::<usize, DbError>(DbError::BlockTooSmall),
            self@.len() <= usize::MAX,
    {
        if self.data.len() < 2 {
            return Err(DbError::BlockTooSmall);
        }
        Ok(self.data.len() - 2)
    }

    /// The number of rows, which the last two bytes tell.
    pub fn row_count(&self) -> (r: Result<usize, DbError>)
        ensures
            self@.len() >= 2 ==> (r matches Ok(n) && n == le_value(self@.skip(self@.len() - 2)) && n
                <= u16::MAX),
            self@.len() < 2 ==> r == Err::<usize, DbError>(DbError::BlockTooSmall),
    {
        if self.data.len() < 2 {
            return Err(DbError::BlockTooSmall);
        }
        let idx: usize = self.data.len() - 2;
        proof {
            lemma_pow256_values();
            assert(self@.skip(idx as int) =~= self@.subrange(idx as int, idx + 2));
        }
        Ok(read_le(self.data, idx, 2) as usize)
    }

    /// Tests whether so many bytes are left before the row count.
    pub fn ensure_bytes(&self, offset: usize, needed: usize) -> (r: Result<(), DbError>)
        ensures
            self@.len() <= usize::MAX,
            self@.len() < 2 ==> r == Err::<(), DbError>(DbError::BlockTooSmall),
            self@.len() >= 2 ==> r == (if offset + needed <= self@.len() - 2 {
                Ok::<(), DbError>(())
            } else {
                Err(
                    DbError::BlockOverrun {
                        needed,
                        offset,
                        usable_end: (self@.len() - 2) as usize,
                    },
                )
            }),
    {
        let usable_end: usize = match self.usable_end() {
            Ok(e) => e,
            Err(e) => {
                return Err(e);
            },
        };
        if offset > usable_end || needed > usable_end - offset {
            return Err(DbError::BlockOverrun { needed, offset, usable_end });
        }
        Ok(())
    }

    /// Reads an unsigned number of some bytes, lowest byte first, and moves behind it.
    fn read_number(&self, offset: &mut usize, width: usize) -> (r: Result<u64, DbError>)
        requires
            width == 4 || width == 8,
        ensures
            self@.len() >= 2 && *old(offset) + width <= self@.len() - 2 ==> (r matches Ok(n) && n
                == le_value(self@.subrange(*old(offset) as int, *old(offset) + width))
                && *final(offset) == *old(offset) + width && (width == 4 ==> n <= u32::MAX)),
            self@.len() >= 2 && *old(offset) + width > self@.len() - 2 ==> r == Err::<
                u64,
                DbError,
            >(
                DbError::BlockOverrun {
                    needed: width,
                    offset: *old(offset),
                    usable_end: (self@.len() - 2) as usize,
                },
            ) && *final(offset) == *old(offset),
            self@.len() < 2 ==> r == Err::<u64, DbError>(DbError::BlockTooSmall) && *final(offset)
                == *old(offset),
    {
        match self.ensure_bytes(*offset, width) {
            Ok(_) => {},
            Err(e) => {
                return Err(e);
            },
        }
        proof {
            lemma_pow256_values();
        }
        let n: u64 = read_le(self.data, *offset, width);
        *offset = *offset + width;
        Ok(n)
    }

    pub fn read_i32(&self, offset: &mut usize) -> (r: Result<i32, DbError>)
        ensures
            reads(self@, *old(offset), *final(offset), DataType::Int32, match r {
                Ok(v) => Ok(Value::Int32(v)),
                Err(e) => Err(e),
            }),
    {
        match self.read_number(offset, 4) {
            Ok(n) => Ok((n as u32) as i32),
            Err(e) => Err(e),
        }
    }

    pub fn read_i64(&self, offset: &mut usize) -> (r: Result<i64, DbError>)
        ensures
            reads(self@, *old(offset), *final(offset), DataType::Int64, match r {
                Ok(v) => Ok(Value::Int64(v)),
                Err(e) => Err(e),
            }),
    {
        match self.read_number(offset, 8) {
            Ok(n) => Ok(n as i64),
            Err(e) => Err(e),
        }
    }

    /// Reads a 32 bit float, as its bits.
    pub fn read_f32(&self, offset: &mut usize) -> (r: Result<u32, DbError>)
        ensures
            reads(self@, *old(offset), *final(offset), DataType::Float32, match r {
                Ok(v) => Ok(Value::Float32(v)),
                Err(e) => Err(e),
            }),
    {
        match self.read_number(offset, 4) {
            Ok(n) => Ok(n as u32),
            Err(e) => Err(e),
        }
    }

    /// Reads a 64 bit float, as its bits.
    pub fn read_f64(&self, offset: &mut usize) -> (r: Result<u64, DbError>)
        ensures
            reads(self@, *old(offset), *final(offset), DataType::Float64, match r {
                Ok(v) => Ok(Value::Float64(v)),
                Err(e) => Err(e),
            }),
    {
        self.read_number(offset, 8)
    }

    /// Finds the end of the string at a position.
    fn string_end(&self, offset: usize) -> (r: Result<usize, DbError>)
        ensures
            self@.len() <= usize::MAX,
            self@.len() < 2 ==> r == Err::<usize, DbError>(DbError::BlockTooSmall),
            self@.len() >= 2 ==> match zero_from(self@, self@.len() - 2, offset as int) {
                Some(z) => r matches Ok(n) && n == z && offset <= z < self@.len() - 2,
                None => r == Err::<usize, DbError>(DbError::UnterminatedString),
            },
    {
        let usable_end: usize = match self.usable_end() {
            Ok(e) => e,
            Err(e) => {
                return Err(e);
            },
        };
        let ghost end = usable_end as int;
        let mut at: usize = offset;
        while at < usable_end && self.data[at] != 0
            invariant
                offset <= at,
                at <= usable_end || at == offset,
                usable_end == self@.len() - 2,
                end == usable_end,
                self@ == self.data@,
                zero_from(self@, end, offset as int) == zero_from(self@, end, at as int),
            decreases usable_end - at,
        {
            at += 1;
        }
        if at >= usable_end {
            return Err(DbError::UnterminatedString);
        }
        Ok(at)
    }

    /// Reads a string that a zero byte ends.
    pub fn read_cstring(&self, offset: &mut usize) -> (r: Result<String, DbError>)
        ensures
            reads(self@, *old(offset), *final(offset), DataType::String, match r {
                Ok(s) => Ok(Value::Str(s@)),
                Err(e) => Err(e),
            }),
    {
        let start: usize = *offset;
        let end: usize = match self.string_end(start) {
            Ok(e) => e,
            Err(e) => {
                return Err(e);
            },
        };
        match utf8_text(vstd::slice::slice_subrange(self.data, start, end)) {
            Some(s) => {
                *offset = end + 1;
                Ok(s)
            },
            None => Err(DbError::Decode(DecodeError::InvalidText)),
        }
    }

    /// Moves behind a string that a zero byte ends.
    pub fn skip_cstring(&self, offset: &mut usize) -> (r: Result<(), DbError>)
        ensures
            skips(self@, *old(offset), *final(offset), DataType::String, r),
    {
        match self.string_end(*offset) {
            Ok(end) => {
                *offset = end + 1;
                Ok(())
            },
            Err(e) => Err(e),
        }
    }

    /// The bytes of the string at a position.
    pub fn string_bytes(&self, offset: &mut usize) -> (r: Result<&'a [u8], DbError>)
        ensures
            skips(self@, *old(offset), *final(offset), DataType::String, match r {
                Ok(_) => Ok(()),
                Err(e) => Err(e),
            }),
            r matches Ok(bytes) ==> bytes@ == self@.subrange(
                *old(offset) as int,
                *final(offset) - 1,
            ),
    {
        let start: usize = *offset;
        match self.string_end(start) {
            Ok(end) => {
                *offset = end + 1;
                Ok(vstd::slice::slice_subrange(self.data, start, end))
            },
            Err(e) => Err(e),
        }
    }
}

/// What reading a value does to the position: it moves behind the value, or stays with an error.
pub open spec fn reads(
    block: Seq<u8>,
    before: usize,
    after: usize,
    t: DataType,
    r: Result<Value, DbError>,
) -> bool {
    if block.len() < 2 {
        r == Err::<Value, DbError>(DbError::BlockTooSmall) && after == before
    } else {
        match value_at(block, block.len() - 2, before as int, t) {
            Ok((v, next)) => r == Ok::<Value, DbError>(v) && after == next && next <= block.len()
                - 2,
            Err(issue) => r is Err && is_block_issue(r->Err_0, issue) && after == before,
        }
    }
}

/// What skipping a value does to the position.
pub open spec fn skips(
    block: Seq<u8>,
    before: usize,
    after: usize,
    t: DataType,
    r: Result<(), DbError>,
) -> bool {
    if block.len() < 2 {
        r == Err::<(), DbError>(DbError::BlockTooSmall) && after == before
    } else {
        match skip_at(block, block.len() - 2, before as int, t) {
            Ok(next) => r is Ok && after == next && next <= block.len() - 2,
            Err(issue) => r is Err && is_block_issue(r->Err_0, issue) && after == before,
        }
    }
}

/// Reads a value of some type.
pub fn read_data_value(buf: &BlockBuffer, offset: &mut usize, data_type: DataType) -> (r: Result<
    Data,
    DbError,
>)
    ensures
        reads(buf@, *old(offset), *final(offset), data_type, match r {
            Ok(d) => Ok(d@),
            Err(e) => Err(e),
        }),
{
    match data_type {
        DataType::Int32 => match buf.read_i32(offset) {
            Ok(v) => Ok(Data::Int32(v)),
            Err(e) => Err(e),
        },
        DataType::Int64 => match buf.read_i64(offset) {
            Ok(v) => Ok(Data::Int64(v)),
            Err(e) => Err(e),
        },
        DataType::Float32 => match buf.read_f32(offset) {
            Ok(v) => Ok(Data::Float32(v)),
            Err(e) => Err(e),
        },
        DataType::Float64 => match buf.read_f64(offset) {
            Ok(v) => Ok(Data::Float64(v)),
            Err(e) => Err(e),
        },
        DataType::String => match buf.read_cstring(offset) {
            Ok(v) => Ok(Data::String(v)),
            Err(e) => Err(e),
        },
    }
}

/// Moves behind a number of bytes.
pub fn skip_bytes(buf: &BlockBuffer, offset: &mut usize, n: usize) -> (r: Result<(), DbError>)
    ensures
        buf@.len() < 2 ==> r == Err::<(), DbError>(DbError::BlockTooSmall) && *final(offset)
            == *old(offset),
        buf@.len() >= 2 ==> if *old(offset) + n <= buf@.len() - 2 {
            r is Ok && *final(offset) == *old(offset) + n
        } else {
            r is Err && r->Err_0 is BlockOverrun && *final(offset) == *old(offset)
        },
{
    match buf.ensure_bytes(*offset, n) {
        Ok(_) => {
            *offset = *offset + n;
            Ok(())
        },
        Err(e) => Err(e),
    }
}

/// Moves behind a value of some type.
pub fn skip_data_value(buf: &BlockBuffer, offset: &mut usize, data_type: DataType) -> (r: Result<
    (),
    DbError,
>)
    ensures
        skips(buf@, *old(offset), *final(offset), data_type, r),
{
    match data_type {
        DataType::Int32 => skip_bytes(buf, offset, 4),
        DataType::Int64 => skip_bytes(buf, offset, 8),
        DataType::Float32 => skip_bytes(buf, offset, 4),
        DataType::Float64 => skip_bytes(buf, offset, 8),
        DataType::String => buf.skip_cstring(offset),
    }
}

} // verus!

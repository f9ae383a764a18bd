//! How numbers, values, rows and blocks lie in bytes, and that reading gives them back.

use vstd::arithmetic::power2::{lemma2_to64, lemma2_to64_rest, lemma_pow2_adds, lemma_pow2_pos, pow2};
use vstd::prelude::*;
use vstd::utf8::encode_utf8;
use crate::block_decode::{block_rows, columns_to, rows_to};
use crate::buffer::{BlockIssue, fixed_value, reads, skips, value_at, zero_from, zero_from_is_first};
use crate::codec::{le, le_value, lemma_le_len, lemma_pow256_values, little_endian_round_trip, pow256};
use crate::error::{DbError, DecodeError};
use crate::value::{DataType, Value};
use crate::value_laws::is_of;

verus! {

/// A byte of an integer in two's complement, the least significant one first.
pub open spec fn byte_of(n: int, i: int) -> u8 {
    ((n / pow2((8 * i) as nat) as int) % 256) as u8
}

/// The bytes of an integer in two's complement, the least significant one first.
pub open spec fn int_bytes(n: int, width: nat) -> Seq<u8> {
    Seq::new(width, |i: int| byte_of(n, i))
}

/// Numbers are written with their least significant byte first.
pub proof fn least_significant_byte_comes_first(n: nat, width: nat)
    ensures
        le(n, width) == int_bytes(n as int, width),
    decreases width,
{
    lemma_le_len(n, width);
    if width > 0 {
        let w = (width - 1) as nat;
        let rest = le(n / 256, w);
        least_significant_byte_comes_first(n / 256, w);
        lemma2_to64();
        assert forall|i: int| 0 <= i < width implies #[trigger] le(n, width)[i] == byte_of(
            n as int,
            i,
        ) by {
            if i > 0 {
                let p = pow2((8 * (i - 1)) as nat);
                lemma_pow2_pos((8 * (i - 1)) as nat);
                lemma_pow2_adds(8, (8 * (i - 1)) as nat);
                vstd::arithmetic::div_mod::lemma_div_denominator(n as int, 256, p as int);
                assert(le(n, width)[i] == rest[i - 1]);
                assert(rest[i - 1] == byte_of((n / 256) as int, i - 1));
                assert(8 + 8 * (i - 1) == 8 * i);
                let q = pow2((8 * i) as nat) as int;
                assert(q == 256 * p);
                assert(n as int / q == (n as int / 256) / (p as int));
            } else {
                assert(8 * i == 0);
                let one = pow2((8 * i) as nat) as int;
                assert(n as int / one == n as int) by (nonlinear_arith)
                    requires
                        one == 1,
                ;
            }
        }
    }
    assert(le(n, width) =~= int_bytes(n as int, width));
}

/// Two's complement: adding a one in front of all bytes changes none of them.
proof fn lemma_wraps(n: int, width: nat)
    ensures
        int_bytes(n + pow2(8 * width), width) == int_bytes(n, width),
{
    assert forall|i: int| 0 <= i < width implies byte_of(n + pow2(8 * width), i) == byte_of(n, i) by {
        let p = pow2((8 * i) as nat) as int;
        let q = pow2((8 * (width - i - 1)) as nat) as int;
        lemma_pow2_pos((8 * i) as nat);
        lemma2_to64();
        lemma_pow2_adds(8, (8 * (width - i - 1)) as nat);
        lemma_pow2_adds((8 * i) as nat, (8 * (width - i)) as nat);
        assert(8 + 8 * (width - i - 1) == 8 * (width - i));
        assert(pow2(8 * width) == p * (256 * q));
        vstd::arithmetic::div_mod::lemma_hoist_over_denominator(n, 256 * q, p as nat);
        assert(n / p + 256 * q == (n + (256 * q) * p) / p);
        assert((256 * q) * p == p * (256 * q)) by (nonlinear_arith);
        assert((n / p + 256 * q) % 256 == (n / p) % 256);
    }
    assert(int_bytes(n + pow2(8 * width), width) =~= int_bytes(n, width));
}

/// Reading the bytes of a number gives it back; a negative one counts from the end.
proof fn lemma_read_back(n: int, width: nat)
    requires
        -(pow256(width) as int) <= n < pow256(width),
        pow256(width) == pow2(8 * width),
    ensures
        le_value(int_bytes(n, width)) == (if n < 0 {
            n + pow256(width)
        } else {
            n
        }),
{
    let m = (if n < 0 {
        n + pow256(width)
    } else {
        n
    }) as nat;
    if n < 0 {
        lemma_wraps(n, width);
    }
    least_significant_byte_comes_first(m, width);
    little_endian_round_trip(m, width);
}

/// The bytes of a value in a table file: numbers in two's complement or as their bits, the least
/// significant byte first; a text with a zero byte behind it.
pub open spec fn value_bytes(v: Value) -> Seq<u8> {
    match v {
        Value::Int32(n) => int_bytes(n as int, 4),
        Value::Int64(n) => int_bytes(n as int, 8),
        Value::Float32(b) => int_bytes(b as int, 4),
        Value::Float64(b) => int_bytes(b as int, 8),
        Value::Str(s) => encode_utf8(s).push(0),
    }
}

/// Whether a value can lie in a table file: a text holds no zero byte.
pub open spec fn is_storable(v: Value) -> bool {
    v matches Value::Str(s) ==> forall|i: int|
        0 <= i < encode_utf8(s).len() ==> #[trigger] encode_utf8(s)[i] != 0
}

proof fn lemma_signed(n: u64, v: i64)
    requires
        n == (if v < 0 {
            v + 0x1_0000_0000_0000_0000
        } else {
            v as int
        }),
    ensures
        n as i64 == v,
{
    let m = v as u64;
    assert(m as i64 == v) by (bit_vector)
        requires
            m == v as u64,
    ;
    if v >= 0 {
    } else {
        let k: u64 = (-(v + 1)) as u64;
        assert(m == !((!v) as u64)) by (bit_vector)
            requires
                m == v as u64,
        ;
        assert(!v == -(v + 1)) by (bit_vector)
            requires
                v < 0,
        ;
        assert(!k == 0xffff_ffff_ffff_ffff - k) by (bit_vector);
    }
}

proof fn lemma_signed_half(n: u32, v: i32)
    requires
        n == (if v < 0 {
            v + 0x1_0000_0000
        } else {
            v as int
        }),
    ensures
        n as i32 == v,
{
    let m = v as u32;
    assert(m as i32 == v) by (bit_vector)
        requires
            m == v as u32,
    ;
    if v >= 0 {
    } else {
        let k: u32 = (-(v + 1)) as u32;
        assert(m == !((!v) as u32)) by (bit_vector)
            requires
                m == v as u32,
        ;
        assert(!v == -(v + 1)) by (bit_vector)
            requires
                v < 0,
        ;
        assert(!k == 0xffff_ffff - k) by (bit_vector);
    }
}

/// An integer is written in two's complement.
pub proof fn written_integers_are_in_twos_complement(n: int, width: nat)
    ensures
        width == 8 && i64::MIN <= n <= i64::MAX ==> le(((n as i64) as u64) as nat, 8) == int_bytes(
            n,
            8,
        ),
        width == 4 && i32::MIN <= n <= i32::MAX ==> le(((n as i32) as u32) as nat, 4) == int_bytes(
            n,
            4,
        ),
{
    lemma2_to64();
    lemma2_to64_rest();
    if width == 8 && i64::MIN <= n <= i64::MAX {
        let v = n as i64;
        lemma_unsigned(v);
        least_significant_byte_comes_first((v as u64) as nat, 8);
        if v < 0 {
            lemma_wraps(n, 8);
        }
    }
    if width == 4 && i32::MIN <= n <= i32::MAX {
        let v = n as i32;
        lemma_unsigned_half(v);
        least_significant_byte_comes_first((v as u32) as nat, 4);
        if v < 0 {
            lemma_wraps(n, 4);
        }
    }
}

proof fn lemma_unsigned(v: i64)
    ensures
        v as u64 == (if v < 0 {
            v + 0x1_0000_0000_0000_0000
        } else {
            v as int
        }),
{
    if v < 0 {
        let n: u64 = (v + 0x1_0000_0000_0000_0000) as u64;
        lemma_signed(n, v);
        assert((n as i64) as u64 == n) by (bit_vector);
    }
}

proof fn lemma_unsigned_half(v: i32)
    ensures
        v as u32 == (if v < 0 {
            v + 0x1_0000_0000
        } else {
            v as int
        }),
{
    if v < 0 {
        let n: u32 = (v + 0x1_0000_0000) as u32;
        lemma_signed_half(n, v);
        assert((n as i32) as u32 == n) by (bit_vector);
    }
}

proof fn lemma_fixed(v: Value, t: DataType)
    requires
        is_of(v, t),
        !(v is Str),
    ensures
        fixed_value(t, value_bytes(v)) == v,
{
    lemma_pow256_values();
    lemma2_to64();
    lemma2_to64_rest();
    match v {
        Value::Int32(n) => {
            lemma_read_back(n as int, 4);
            lemma_signed_half(le_value(value_bytes(v)) as u32, n);
        },
        Value::Int64(n) => {
            lemma_read_back(n as int, 8);
            lemma_signed(le_value(value_bytes(v)) as u64, n);
        },
        Value::Float32(b) => {
            lemma_read_back(b as int, 4);
        },
        Value::Float64(b) => {
            lemma_read_back(b as int, 8);
        },
        Value::Str(_) => {},
    }
}

/// Where the bytes of a value lie in a block, it is found.
proof fn lemma_value_found(bytes: Seq<u8>, end: int, at: int, v: Value, t: DataType)
    requires
        is_of(v, t),
        is_storable(v),
        0 <= at,
        at + value_bytes(v).len() <= end <= bytes.len(),
        bytes.subrange(at, at + value_bytes(v).len()) == value_bytes(v),
    ensures
        value_at(bytes, end, at, t) == Ok::<(Value, int), BlockIssue>(
            (v, (at + value_bytes(v).len()) as int),
        ),
{
    let here = bytes.subrange(at, at + value_bytes(v).len());
    match v {
        Value::Str(s) => {
            let text = encode_utf8(s);
            let z = at + text.len();
            zero_from_is_first(bytes, end, at);
            assert(bytes[z] == here[z - at]);
            assert forall|i: int| at <= i < z implies #[trigger] bytes[i] != 0 by {
                assert(bytes[i] == here[i - at]);
                assert(here[i - at] == text[i - at]);
            }
            assert(zero_from(bytes, end, at) == Some(z));
            assert(bytes.subrange(at, z) =~= text) by {
                assert(bytes.subrange(at, z) =~= here.take(text.len() as int));
            }
            vstd::utf8::encode_utf8_decode_utf8(s);
            vstd::utf8::encode_utf8_valid_utf8(s);
        },
        _ => {
            lemma_fixed(v, t);
        },
    }
}

/// Reading a value at its bytes gives the value and moves behind it.
pub proof fn stored_value_is_read_back(
    block: Seq<u8>,
    before: usize,
    after: usize,
    v: Value,
    t: DataType,
    r: Result<Value, DbError>,
)
    requires
        is_of(v, t),
        is_storable(v),
        before + value_bytes(v).len() + 2 <= block.len(),
        block.subrange(before as int, before + value_bytes(v).len()) == value_bytes(v),
        reads(block, before, after, t, r),
    ensures
        r == Ok::<Value, DbError>(v),
        after == before + value_bytes(v).len(),
{
    lemma_value_found(block, block.len() - 2, before as int, v, t);
}

/// A number that the block has too few bytes for is an overrun, and reading stays where it was.
pub proof fn numbers_do_not_run_over_the_rows(
    block: Seq<u8>,
    before: usize,
    after: usize,
    t: DataType,
    r: Result<Value, DbError>,
)
    requires
        !(t is String),
        block.len() >= 2,
        reads(block, before, after, t, r),
        before + (if t is Int32 || t is Float32 {
            4int
        } else {
            8
        }) > block.len() - 2,
    ensures
        r is Err,
        r->Err_0 is BlockOverrun,
        after == before,
{
}

/// A text without a zero byte before the end of the rows has no end, and reading stays where it
/// was.
pub proof fn texts_end_before_the_row_count(
    block: Seq<u8>,
    before: usize,
    after: usize,
    r: Result<Value, DbError>,
)
    requires
        block.len() >= 2,
        reads(block, before, after, DataType::String, r),
        forall|i: int| before <= i < block.len() - 2 ==> #[trigger] block[i] != 0,
    ensures
        r is Err,
        r->Err_0 is UnterminatedString,
        after == before,
{
    zero_from_is_first(block, block.len() - 2, before as int);
    if zero_from(block, block.len() - 2, before as int) is Some {
        let z = zero_from(block, block.len() - 2, before as int)->0;
        assert(block[z] != 0);
    }
}

/// A text that is no text is turned down, and reading stays where it was.
pub proof fn texts_are_made_of_characters(
    block: Seq<u8>,
    before: usize,
    after: usize,
    end: int,
    r: Result<Value, DbError>,
)
    requires
        block.len() >= 2,
        reads(block, before, after, DataType::String, r),
        before <= end < block.len() - 2,
        block[end] == 0,
        forall|i: int| before <= i < end ==> #[trigger] block[i] != 0,
        !vstd::utf8::valid_utf8(block.subrange(before as int, end)),
    ensures
        r == Err::<Value, DbError>(DbError::Decode(DecodeError::InvalidText)),
        after == before,
{
    zero_from_is_first(block, block.len() - 2, before as int);
    let z = zero_from(block, block.len() - 2, before as int);
    assert(z is Some) by {
        if z is None {
            assert(block[end] != 0);
        }
    }
    if z->0 < end {
        assert(block[z->0] != 0);
    }
    if end < z->0 {
        assert(block[end] != 0);
    }
}

/// A block of fewer than two bytes has no room for its row count.
pub proof fn blocks_hold_their_row_count(
    block: Seq<u8>,
    before: usize,
    after: usize,
    t: DataType,
    r: Result<Value, DbError>,
)
    requires
        block.len() < 2,
        reads(block, before, after, t, r),
    ensures
        r == Err::<Value, DbError>(DbError::BlockTooSmall),
        after == before,
{
}

/// Moving over a value does what reading it does, but for its bytes being any.
pub proof fn skipping_moves_like_reading(
    block: Seq<u8>,
    before: usize,
    read: usize,
    skipped: usize,
    t: DataType,
    r: Result<Value, DbError>,
    s: Result<(), DbError>,
)
    requires
        reads(block, before, read, t, r),
        skips(block, before, skipped, t, s),
    ensures
        r is Ok ==> s is Ok && skipped == read,
        r is Err && !(r->Err_0 is Decode) ==> s is Err && skipped == before,
{
}

/// The bytes of a row: its values one after the other.
pub open spec fn row_bytes(row: Seq<Value>) -> Seq<u8>
    decreases row.len(),
{
    if row.len() == 0 {
        Seq::empty()
    } else {
        row_bytes(row.drop_last()) + value_bytes(row.last())
    }
}

/// The bytes of rows, one after the other.
pub open spec fn rows_bytes(rows: Seq<Seq<Value>>) -> Seq<u8>
    decreases rows.len(),
{
    if rows.len() == 0 {
        Seq::empty()
    } else {
        rows_bytes(rows.drop_last()) + row_bytes(rows.last())
    }
}

/// A block of a table file: its rows from the front, and how many they are in the last two bytes.
pub open spec fn block_bytes(rows: Seq<Seq<Value>>, unused: Seq<u8>) -> Seq<u8> {
    rows_bytes(rows) + unused + int_bytes(rows.len() as int, 2)
}

/// Whether a row is one of a table with columns of these types.
pub open spec fn is_row(row: Seq<Value>, types: Seq<DataType>) -> bool {
    &&& row.len() == types.len()
    &&& forall|i: int|
        0 <= i < row.len() ==> is_of(#[trigger] row[i], types[i]) && is_storable(row[i])
}

proof fn lemma_row_found(
    bytes: Seq<u8>,
    end: int,
    at: int,
    row: Seq<Value>,
    types: Seq<DataType>,
    n: nat,
)
    requires
        is_row(row, types),
        n <= row.len(),
        0 <= at,
        at + row_bytes(row.take(n as int)).len() <= end <= bytes.len(),
        bytes.subrange(at, at + row_bytes(row.take(n as int)).len()) == row_bytes(
            row.take(n as int),
        ),
    ensures
        columns_to(bytes, end, at, types, None, n) == Ok::<(Seq<Value>, int), BlockIssue>(
            (row.take(n as int), (at + row_bytes(row.take(n as int)).len()) as int),
        ),
    decreases n,
{
    let head = row.take(n as int);
    if n == 0 {
        assert(head =~= Seq::<Value>::empty());
    } else {
        let m = (n - 1) as nat;
        let init = row.take(m as int);
        assert(head.drop_last() =~= init);
        let here = bytes.subrange(at, at + row_bytes(head).len());
        let a = row_bytes(init);
        let v = row[m as int];
        assert(head.last() == v);
        assert(bytes.subrange(at, at + a.len()) =~= a) by {
            assert(bytes.subrange(at, at + a.len()) =~= here.take(a.len() as int));
            assert((a + value_bytes(v)).take(a.len() as int) =~= a);
        }
        lemma_row_found(bytes, end, at, row, types, m);
        let o = at + a.len();
        assert(bytes.subrange(o, o + value_bytes(v).len()) =~= value_bytes(v)) by {
            assert(bytes.subrange(o, o + value_bytes(v).len()) =~= here.skip(a.len() as int));
            assert((a + value_bytes(v)).skip(a.len() as int) =~= value_bytes(v));
        }
        lemma_value_found(bytes, end, o, v, types[m as int]);
        assert(init.push(v) =~= head);
    }
}

proof fn lemma_rows_found(
    bytes: Seq<u8>,
    rows: Seq<Seq<Value>>,
    types: Seq<DataType>,
    n: nat,
)
    requires
        bytes.len() >= 2,
        n <= rows.len(),
        forall|i: int| 0 <= i < rows.len() ==> is_row(#[trigger] rows[i], types),
        rows_bytes(rows.take(n as int)).len() <= bytes.len() - 2,
        bytes.take(rows_bytes(rows.take(n as int)).len() as int) == rows_bytes(rows.take(n as int)),
    ensures
        rows_to(bytes, types, None, None, None, n) == Ok::<(Seq<Seq<Value>>, int), BlockIssue>(
            (rows.take(n as int), rows_bytes(rows.take(n as int)).len() as int),
        ),
    decreases n,
{
    let head = rows.take(n as int);
    if n == 0 {
        assert(head =~= Seq::<Seq<Value>>::empty());
    } else {
        let m = (n - 1) as nat;
        let init = rows.take(m as int);
        assert(head.drop_last() =~= init);
        let a = rows_bytes(init);
        let row = rows[m as int];
        let here = bytes.take(rows_bytes(head).len() as int);
        assert(head.last() == row);
        assert(bytes.take(a.len() as int) =~= a) by {
            assert(bytes.take(a.len() as int) =~= here.take(a.len() as int));
            assert((a + row_bytes(row)).take(a.len() as int) =~= a);
        }
        lemma_rows_found(bytes, rows, types, m);
        let o = a.len() as int;
        assert(row.take(row.len() as int) =~= row);
        assert(bytes.subrange(o, o + row_bytes(row).len()) =~= row_bytes(row)) by {
            assert(bytes.subrange(o, o + row_bytes(row).len()) =~= here.skip(o));
            assert((a + row_bytes(row)).skip(o) =~= row_bytes(row));
        }
        lemma_row_found(bytes, bytes.len() - 2, o, row, types, row.len());
        assert(init.push(row) =~= head);
    }
}

/// Decoding a block of a table file gives back the rows that were written to it.
pub proof fn stored_rows_are_read_back(
    rows: Seq<Seq<Value>>,
    types: Seq<DataType>,
    unused: Seq<u8>,
)
    requires
        rows.len() <= 0xffff,
        forall|i: int| 0 <= i < rows.len() ==> is_row(#[trigger] rows[i], types),
    ensures
        block_rows(block_bytes(rows, unused), types, None, None, None) == Ok::<
            Seq<Seq<Value>>,
            BlockIssue,
        >(rows),
{
    let bytes = block_bytes(rows, unused);
    let count = int_bytes(rows.len() as int, 2);
    lemma_pow256_values();
    lemma2_to64();
    lemma_read_back(rows.len() as int, 2);
    assert(bytes.skip(bytes.len() - 2) =~= count);
    assert(rows.take(rows.len() as int) =~= rows);
    assert(bytes.take(rows_bytes(rows).len() as int) =~= rows_bytes(rows));
    lemma_rows_found(bytes, rows, types, rows.len());
}

} // verus!

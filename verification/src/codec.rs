//! The binary form of rows: little-endian integers, tagged fields, length-prefixed records.

use vstd::prelude::*;
use vstd::utf8::{decode_utf8, encode_utf8, valid_utf8};
use crate::error::{DbError, DecodeError};
use crate::row::Row;
use crate::value::{Data, Value};
use crate::views::values_of;

verus! {

broadcast use crate::views::group_row_views;

/// The number of values that `width` bytes can hold.
pub open spec fn pow256(width: nat) -> nat
    decreases width,
{
    if width == 0 {
        1
    } else {
        256 * pow256((width - 1) as nat)
    }
}

/// The `width` low-order bytes of `n`, least significant first.
pub open spec fn le(n: nat, width: nat) -> Seq<u8>
    decreases width,
{
    if width == 0 {
        Seq::empty()
    } else {
        seq![(n % 256) as u8] + le(n / 256, (width - 1) as nat)
    }
}

/// The number that little-endian bytes stand for.
pub open spec fn le_value(bytes: Seq<u8>) -> nat
    decreases bytes.len(),
{
    if bytes.len() == 0 {
        0
    } else {
        bytes[0] as nat + 256 * le_value(bytes.drop_first())
    }
}

pub proof fn lemma_pow256_values()
    ensures
        pow256(0) == 1,
        pow256(1) == 0x100,
        pow256(2) == 0x1_0000,
        pow256(4) == 0x1_0000_0000,
        pow256(8) == 0x1_0000_0000_0000_0000,
{
    reveal_with_fuel(pow256, 9);
}

pub proof fn lemma_le_len(n: nat, width: nat)
    ensures
        le(n, width).len() == width,
    decreases width,
{
    if width > 0 {
        lemma_le_len(n / 256, (width - 1) as nat);
    }
}

/// Reading back what was written gives the number, where it fits.
pub proof fn little_endian_round_trip(n: nat, width: nat)
    requires
        n < pow256(width),
    ensures
        le_value(le(n, width)) == n,
    decreases width,
{
    if width > 0 {
        let rest = le(n / 256, (width - 1) as nat);
        little_endian_round_trip(n / 256, (width - 1) as nat);
        assert(le(n, width).drop_first() =~= rest);
    }
}

proof fn lemma_le_value_bound(bytes: Seq<u8>)
    ensures
        le_value(bytes) < pow256(bytes.len()),
    decreases bytes.len(),
{
    if bytes.len() > 0 {
        lemma_le_value_bound(bytes.drop_first());
    }
}

/// Appends the `width` low-order bytes of `n`.
pub fn append_le(out: &mut Vec<u8>, n: u64, width: usize)
    ensures
        final(out)@ == old(out)@ + le(n as nat, width as nat),
{
    let ghost before = out@;
    let mut rest: u64 = n;
    let mut i: usize = 0;
    while i < width
        invariant
            i <= width,
            out@ + le(rest as nat, (width - i) as nat) == before + le(n as nat, width as nat),
        decreases width - i,
    {
        let byte: u8 = (rest % 256) as u8;
        let ghost so_far = out@;
        out.push(byte);
        proof {
            let tail = le(rest as nat / 256, (width - i - 1) as nat);
            assert(le(rest as nat, (width - i) as nat) =~= seq![byte] + tail);
            assert(so_far + (seq![byte] + tail) =~= out@ + tail);
        }
        rest = rest / 256;
        i = i + 1;
    }
    assert(out@ =~= before + le(n as nat, width as nat));
}

/// Reads a little-endian number of `width` bytes.
pub fn read_le(bytes: &[u8], at: usize, width: usize) -> (r: u64)
    requires
        width <= 8,
        at + width <= bytes@.len(),
    ensures
        r as nat == le_value(bytes@.subrange(at as int, at + width)),
        r < pow256(width as nat),
{
    let total: usize = bytes.len();
    let mut acc: u64 = 0;
    let mut i: usize = width;
    assert(bytes@.subrange(at + width, at + width) =~= Seq::<u8>::empty());
    while i > 0
        invariant
            i <= width,
            width <= 8,
            at + width <= bytes@.len(),
            total == bytes@.len(),
            acc as nat == le_value(bytes@.subrange(at + i, at + width)),
        decreases i,
    {
        i = i - 1;
        proof {
            let tail = bytes@.subrange(at + i, at + width);
            assert(tail.drop_first() =~= bytes@.subrange(at + i + 1, at + width));
            lemma_le_value_bound(tail);
            lemma_pow256_values();
            lemma_pow256_monotonic(tail.len(), 8);
        }
        acc = acc * 256 + bytes[at + i] as u64;
    }
    proof {
        lemma_le_value_bound(bytes@.subrange(at as int, at + width));
    }
    acc
}

proof fn lemma_pow256_monotonic(a: nat, b: nat)
    requires
        a <= b,
    ensures
        pow256(a) <= pow256(b),
    decreases b,
{
    if a < b {
        lemma_pow256_monotonic(a, (b - 1) as nat);
    }
}

/// The bytes of a field: a tag, then the payload.
pub open spec fn encode_value(v: Value) -> Seq<u8> {
    match v {
        Value::Int32(n) => seq![1u8] + le((n as u32) as nat, 4),
        Value::Int64(n) => seq![2u8] + le((n as u64) as nat, 8),
        Value::Float32(b) => seq![3u8] + le(b as nat, 4),
        Value::Float64(b) => seq![4u8] + le(b as nat, 8),
        Value::Str(s) => seq![5u8] + le(encode_utf8(s).len(), 4) + encode_utf8(s),
    }
}

/// The fields of a row, one after the other.
pub open spec fn encode_values(vs: Seq<Value>) -> Seq<u8>
    decreases vs.len(),
{
    if vs.len() == 0 {
        Seq::empty()
    } else {
        encode_values(vs.drop_last()) + encode_value(vs.last())
    }
}

/// The payload of a row: the number of fields, then the fields.
pub open spec fn encode_row(vs: Seq<Value>) -> Seq<u8> {
    le(vs.len(), 2) + encode_values(vs)
}

/// Whether a string's length fits its prefix.
pub open spec fn string_fits(v: Value) -> bool {
    v matches Value::Str(s) ==> encode_utf8(s).len() <= u32::MAX
}

/// Whether a row has a binary form.
pub open spec fn encodable(vs: Seq<Value>) -> bool {
    &&& vs.len() <= u16::MAX
    &&& forall|i: int| 0 <= i < vs.len() ==> string_fits(#[trigger] vs[i])
}

/// What can be read off the front of a row's payload: a value, and how many bytes it took.
pub open spec fn parse_value(bytes: Seq<u8>) -> Result<(Value, int), DecodeError> {
    if bytes.len() == 0 {
        Err(DecodeError::MissingTag)
    } else {
        let rest = bytes.skip(1);
        if bytes[0] == 1 {
            if rest.len() < 4 {
                Err(DecodeError::FieldOverrun)
            } else {
                Ok((Value::Int32((le_value(rest.take(4)) as u32) as i32), 5))
            }
        } else if bytes[0] == 2 {
            if rest.len() < 8 {
                Err(DecodeError::FieldOverrun)
            } else {
                Ok((Value::Int64((le_value(rest.take(8)) as u64) as i64), 9))
            }
        } else if bytes[0] == 3 {
            if rest.len() < 4 {
                Err(DecodeError::FieldOverrun)
            } else {
                Ok((Value::Float32(le_value(rest.take(4)) as u32), 5))
            }
        } else if bytes[0] == 4 {
            if rest.len() < 8 {
                Err(DecodeError::FieldOverrun)
            } else {
                Ok((Value::Float64(le_value(rest.take(8)) as u64), 9))
            }
        } else if bytes[0] == 5 {
            if rest.len() < 4 {
                Err(DecodeError::FieldOverrun)
            } else {
                let len = le_value(rest.take(4)) as int;
                if rest.len() - 4 < len {
                    Err(DecodeError::FieldOverrun)
                } else {
                    let text = rest.subrange(4, 4 + len);
                    if !valid_utf8(text) {
                        Err(DecodeError::InvalidText)
                    } else {
                        Ok((Value::Str(decode_utf8(text)), 5 + len))
                    }
                }
            }
        } else {
            Err(DecodeError::UnknownTag(bytes[0]))
        }
    }
}

/// Reads `count` values from position `at` on, after the values `acc`; gives them all and the
/// position behind them.
pub open spec fn parse_values(bytes: Seq<u8>, at: int, count: nat, acc: Seq<Value>) -> Result<
    (Seq<Value>, int),
    DecodeError,
>
    decreases count,
{
    if count == 0 {
        Ok((acc, at))
    } else {
        match parse_value(bytes.skip(at)) {
            Err(e) => Err(e),
            Ok((v, n)) => parse_values(bytes, at + n, (count - 1) as nat, acc.push(v)),
        }
    }
}

/// Reads a row's payload, all of which must be used.
pub open spec fn parse_payload(payload: Seq<u8>) -> Result<Seq<Value>, DecodeError> {
    if payload.len() < 2 {
        Err(DecodeError::MissingFieldCount)
    } else {
        match parse_values(payload, 2, le_value(payload.take(2)), Seq::empty()) {
            Err(e) => Err(e),
            Ok((vs, at)) => if at == payload.len() {
                Ok(vs)
            } else {
                Err(DecodeError::TrailingBytes)
            },
        }
    }
}

/// Reads the record at `offset` of a page whose last two bytes are no record's. Gives the row
/// and the offset of the next record.
pub open spec fn parse_record(page: Seq<u8>, offset: int) -> Result<
    (Seq<Value>, int),
    DecodeError,
> {
    let usable_end = page.len() - 2;
    if offset + 4 > usable_end {
        Err(DecodeError::LengthOverrun)
    } else {
        let n = le_value(page.subrange(offset, offset + 4));
        if offset + 4 + n > usable_end {
            Err(DecodeError::PayloadOverrun)
        } else {
            match parse_payload(page.subrange(offset + 4, offset + 4 + n)) {
                Err(e) => Err(e),
                Ok(vs) => Ok((vs, offset + 4 + n)),
            }
        }
    }
}

/// A row with its length in front.
pub open spec fn record(vs: Seq<Value>) -> Seq<u8> {
    le(encode_row(vs).len(), 4) + encode_row(vs)
}

proof fn lemma_i32_bits(v: i32)
    ensures
        ((v as u32) as i32) == v,
{
    assert(((v as u32) as i32) == v) by (bit_vector);
}

proof fn lemma_i64_bits(v: i64)
    ensures
        ((v as u64) as i64) == v,
{
    assert(((v as u64) as i64) == v) by (bit_vector);
}

proof fn lemma_value_round_trip(v: Value, rest: Seq<u8>)
    requires
        string_fits(v),
    ensures
        parse_value(encode_value(v) + rest) == Ok::<(Value, int), DecodeError>(
            (v, encode_value(v).len() as int),
        ),
{
    let bytes = encode_value(v) + rest;
    lemma_pow256_values();
    match v {
        Value::Int32(n) => {
            let m = (n as u32) as nat;
            lemma_le_len(m, 4);
            little_endian_round_trip(m, 4);
            assert(bytes.skip(1).take(4) =~= le(m, 4));
            lemma_i32_bits(n);
        },
        Value::Int64(n) => {
            let m = (n as u64) as nat;
            lemma_le_len(m, 8);
            little_endian_round_trip(m, 8);
            assert(bytes.skip(1).take(8) =~= le(m, 8));
            lemma_i64_bits(n);
        },
        Value::Float32(b) => {
            lemma_le_len(b as nat, 4);
            little_endian_round_trip(b as nat, 4);
            assert(bytes.skip(1).take(4) =~= le(b as nat, 4));
        },
        Value::Float64(b) => {
            lemma_le_len(b as nat, 8);
            little_endian_round_trip(b as nat, 8);
            assert(bytes.skip(1).take(8) =~= le(b as nat, 8));
        },
        Value::Str(s) => {
            let text = encode_utf8(s);
            lemma_le_len(text.len(), 4);
            little_endian_round_trip(text.len(), 4);
            assert(bytes.skip(1).take(4) =~= le(text.len(), 4));
            assert(bytes.skip(1).subrange(4, (4 + text.len()) as int) =~= text);
            vstd::utf8::encode_utf8_valid_utf8(s);
            vstd::utf8::encode_utf8_decode_utf8(s);
        },
    }
}

proof fn lemma_encode_values_front(vs: Seq<Value>)
    requires
        vs.len() > 0,
    ensures
        encode_values(vs) == encode_value(vs[0]) + encode_values(vs.drop_first()),
    decreases vs.len(),
{
    if vs.len() == 1 {
        assert(vs.drop_first() =~= Seq::<Value>::empty());
        assert(vs.drop_last() =~= Seq::<Value>::empty());
        assert(encode_values(vs) =~= encode_value(vs[0]) + encode_values(vs.drop_first()));
    } else {
        lemma_encode_values_front(vs.drop_last());
        assert(vs.drop_last().drop_first() =~= vs.drop_first().drop_last());
        assert(encode_values(vs) =~= encode_value(vs[0]) + encode_values(vs.drop_first()));
    }
}

proof fn lemma_values_round_trip(bytes: Seq<u8>, at: int, vs: Seq<Value>, acc: Seq<Value>)
    requires
        0 <= at,
        at + encode_values(vs).len() == bytes.len(),
        bytes.skip(at) == encode_values(vs),
        forall|i: int| 0 <= i < vs.len() ==> string_fits(#[trigger] vs[i]),
    ensures
        parse_values(bytes, at, vs.len(), acc) == Ok::<(Seq<Value>, int), DecodeError>(
            (acc + vs, bytes.len() as int),
        ),
    decreases vs.len(),
{
    if vs.len() == 0 {
        assert(acc + vs =~= acc);
    } else {
        let tail = vs.drop_first();
        lemma_encode_values_front(vs);
        lemma_value_round_trip(vs[0], encode_values(tail));
        let n = encode_value(vs[0]).len() as int;
        assert(bytes.skip(at + n) =~= bytes.skip(at).skip(n));
        assert(bytes.skip(at).skip(n) =~= encode_values(tail));
        assert forall|i: int| 0 <= i < tail.len() implies string_fits(#[trigger] tail[i]) by {
            assert(tail[i] == vs[i + 1]);
        }
        lemma_values_round_trip(bytes, at + n, tail, acc.push(vs[0]));
        assert(acc.push(vs[0]) + tail =~= acc + vs);
    }
}

/// A value takes as many bytes as its own form has.
proof fn lemma_value_len(bytes: Seq<u8>)
    ensures
        parse_value(bytes) matches Ok((v, n)) ==> encode_value(v).len() == n && string_fits(v),
{
    if let Ok((v, n)) = parse_value(bytes) {
        let rest = bytes.skip(1);
        lemma_pow256_values();
        match v {
            Value::Int32(x) => {
                lemma_le_len((x as u32) as nat, 4);
            },
            Value::Int64(x) => {
                lemma_le_len((x as u64) as nat, 8);
            },
            Value::Float32(x) => {
                lemma_le_len(x as nat, 4);
            },
            Value::Float64(x) => {
                lemma_le_len(x as nat, 8);
            },
            Value::Str(s) => {
                let len = le_value(rest.take(4)) as int;
                lemma_le_value_bound(rest.take(4));
                let text = rest.subrange(4, 4 + len);
                vstd::utf8::decode_utf8_encode_utf8(text);
                lemma_le_len(encode_utf8(s).len(), 4);
            },
        }
    }
}

proof fn lemma_values_len(bytes: Seq<u8>, at: int, count: nat, acc: Seq<Value>)
    requires
        forall|i: int| 0 <= i < acc.len() ==> string_fits(#[trigger] acc[i]),
    ensures
        parse_values(bytes, at, count, acc) matches Ok((vs, end)) ==> {
            &&& vs.len() == acc.len() + count
            &&& end - at == encode_values(vs).len() - encode_values(acc).len()
            &&& forall|i: int| 0 <= i < vs.len() ==> string_fits(#[trigger] vs[i])
        },
    decreases count,
{
    if count > 0 {
        if let Ok((v, n)) = parse_value(bytes.skip(at)) {
            lemma_value_len(bytes.skip(at));
            let more = acc.push(v);
            assert(more.drop_last() =~= acc);
            lemma_values_len(bytes, at + n, (count - 1) as nat, more);
        }
    }
}

/// A row that can be read from a page can be written to a page of that size.
pub proof fn parsed_row_fits(page: Seq<u8>, offset: int)
    requires
        0 <= offset,
    ensures
        parse_record(page, offset) matches Ok((vs, next)) ==> encodable(vs) && encode_row(vs).len()
            <= u32::MAX && next == offset + record(vs).len() && next <= page.len() - 2,
{
    if let Ok((vs, next)) = parse_record(page, offset) {
        lemma_pow256_values();
        let head = page.subrange(offset, offset + 4);
        lemma_le_value_bound(head);
        let n = le_value(head);
        let payload = page.subrange(offset + 4, offset + 4 + n);
        lemma_le_value_bound(payload.take(2));
        lemma_values_len(payload, 2, le_value(payload.take(2)), Seq::empty());
        lemma_le_len(vs.len(), 2);
        lemma_le_len(encode_row(vs).len(), 4);
    }
}

proof fn lemma_values_before(bytes: Seq<u8>, at: int, vs: Seq<Value>, acc: Seq<Value>)
    requires
        0 <= at,
        at + encode_values(vs).len() <= bytes.len(),
        bytes.subrange(at, at + encode_values(vs).len()) == encode_values(vs),
        forall|i: int| 0 <= i < vs.len() ==> string_fits(#[trigger] vs[i]),
    ensures
        parse_values(bytes, at, vs.len(), acc) == Ok::<(Seq<Value>, int), DecodeError>(
            (acc + vs, at + encode_values(vs).len() as int),
        ),
    decreases vs.len(),
{
    if vs.len() == 0 {
        assert(acc + vs =~= acc);
    } else {
        let tail = vs.drop_first();
        let whole = encode_values(vs);
        let here = bytes.subrange(at, at + whole.len());
        lemma_encode_values_front(vs);
        let first = encode_value(vs[0]);
        let n = first.len() as int;
        assert(bytes.skip(at) =~= first + bytes.skip(at + n)) by {
            assert(here.take(n) =~= first);
            assert forall|i: int| 0 <= i < n implies bytes.skip(at)[i] == first[i] by {
                assert(here[i] == here.take(n)[i]);
            }
        }
        lemma_value_round_trip(vs[0], bytes.skip(at + n));
        assert(bytes.subrange(at + n, at + n + encode_values(tail).len()) =~= encode_values(
            tail,
        )) by {
            assert(here.skip(n) =~= encode_values(tail));
            assert(bytes.subrange(at + n, at + n + encode_values(tail).len()) =~= here.skip(n));
        }
        assert forall|i: int| 0 <= i < tail.len() implies string_fits(#[trigger] tail[i]) by {
            assert(tail[i] == vs[i + 1]);
        }
        lemma_values_before(bytes, at + n, tail, acc.push(vs[0]));
        assert(acc.push(vs[0]) + tail =~= acc + vs);
    }
}

pub(crate) proof fn lemma_trailing(vs: Seq<Value>, more: Seq<u8>)
    requires
        encodable(vs),
        more.len() > 0,
    ensures
        parse_payload(encode_row(vs) + more) == Err::<Seq<Value>, DecodeError>(
            DecodeError::TrailingBytes,
        ),
{
    let payload = encode_row(vs) + more;
    lemma_pow256_values();
    lemma_le_len(vs.len(), 2);
    little_endian_round_trip(vs.len(), 2);
    assert(payload.take(2) =~= le(vs.len(), 2));
    assert(payload.subrange(2, 2 + encode_values(vs).len() as int) =~= encode_values(vs));
    lemma_values_before(payload, 2, vs, Seq::empty());
}

/// Decoding the payload of an encodable row gives the row back.
pub proof fn payload_round_trip(vs: Seq<Value>)
    requires
        encodable(vs),
    ensures
        parse_payload(encode_row(vs)) == Ok::<Seq<Value>, DecodeError>(vs),
{
    let payload = encode_row(vs);
    lemma_pow256_values();
    lemma_le_len(vs.len(), 2);
    little_endian_round_trip(vs.len(), 2);
    assert(payload.take(2) =~= le(vs.len(), 2));
    assert(payload.skip(2) =~= encode_values(vs));
    lemma_values_round_trip(payload, 2, vs, Seq::empty());
    assert(Seq::<Value>::empty() + vs =~= vs);
}

/// Decoding a record from a page that holds it gives the row back, and the offset behind it.
pub proof fn record_round_trip(page: Seq<u8>, offset: int, vs: Seq<Value>)
    requires
        encodable(vs),
        0 <= offset,
        offset + record(vs).len() <= page.len() - 2,
        page.subrange(offset, offset + record(vs).len()) == record(vs),
        encode_row(vs).len() <= u32::MAX,
    ensures
        parse_record(page, offset) == Ok::<(Seq<Value>, int), DecodeError>(
            (vs, offset + record(vs).len()),
        ),
{
    let n = encode_row(vs).len();
    lemma_pow256_values();
    lemma_le_len(n, 4);
    little_endian_round_trip(n, 4);
    let rec = page.subrange(offset, offset + record(vs).len());
    assert(page.subrange(offset, offset + 4) =~= rec.take(4));
    assert(rec.take(4) =~= le(n, 4));
    assert(page.subrange(offset + 4, offset + 4 + n) =~= rec.skip(4));
    assert(rec.skip(4) =~= encode_row(vs));
    payload_round_trip(vs);
}

fn encode_value_into(value: &Data, out: &mut Vec<u8>) -> (r: Result<(), DbError>)
    ensures
        r is Ok <==> string_fits(value@),
        r is Ok ==> final(out)@ == old(out)@ + encode_value(value@),
        r matches Err(e) ==> e matches DbError::StringTooLarge(n) && value@ matches Value::Str(s)
            && n as nat == encode_utf8(s).len(),
{
    let ghost before = out@;
    match value {
        Data::Int32(v) => {
            out.push(1);
            append_le(out, (*v as u32) as u64, 4);
            assert(out@ =~= before + encode_value(value@));
        },
        Data::Int64(v) => {
            out.push(2);
            append_le(out, *v as u64, 8);
            assert(out@ =~= before + encode_value(value@));
        },
        Data::Float32(v) => {
            out.push(3);
            append_le(out, *v as u64, 4);
            assert(out@ =~= before + encode_value(value@));
        },
        Data::Float64(v) => {
            out.push(4);
            append_le(out, *v, 8);
            assert(out@ =~= before + encode_value(value@));
        },
        Data::String(s) => {
            let bytes = s.as_str().as_bytes();
            if bytes.len() as u64 > u32::MAX as u64 {
                return Err(DbError::StringTooLarge(bytes.len()));
            }
            out.push(5);
            append_le(out, bytes.len() as u64, 4);
            out.extend_from_slice(bytes);
            assert(out@ =~= before + encode_value(value@));
        },
    }
    Ok(())
}

/// The length of the first string that is too long for its prefix.
pub open spec fn first_too_large(vs: Seq<Value>) -> nat
    decreases vs.len(),
{
    if vs.len() == 0 {
        0
    } else if !string_fits(vs[0]) {
        encode_utf8(vs[0]->Str_0).len()
    } else {
        first_too_large(vs.drop_first())
    }
}

/// Writes the payload of a row into a cleared buffer.
pub fn encode_row_into(row: &Row, out: &mut Vec<u8>) -> (r: Result<(), DbError>)
    ensures
        r is Ok <==> encodable(row@),
        r is Ok ==> final(out)@ == encode_row(row@),
        r matches Err(e) ==> if row@.len() > u16::MAX {
            e matches DbError::TooManyFields(n) && n == row@.len()
        } else {
            e matches DbError::StringTooLarge(n) && n == first_too_large(row@)
        },
{
    out.clear();
    let n = row.len();
    if n > 65535 {
        return Err(DbError::TooManyFields(n));
    }
    append_le(out, n as u64, 2);
    let values = row.values();
    let mut i: usize = 0;
    proof {
        assert(out@ =~= le(row@.len(), 2) + encode_values(row@.take(0)));
        assert(row@.skip(0) =~= row@);
        assert(values_of(values@).len() == values@.len());
    }
    while i < values.len()
        invariant
            i <= values@.len(),
            values@.len() == row@.len(),
            row@.len() <= 65535,
            values_of(values@) == row@,
            out@ == le(row@.len(), 2) + encode_values(row@.take(i as int)),
            forall|j: int| 0 <= j < i ==> string_fits(#[trigger] row@[j]),
            first_too_large(row@) == first_too_large(row@.skip(i as int)),
        decreases values@.len() - i,
    {
        let ghost so_far = out@;
        assert(row@[i as int] == values@[i as int]@);
        assert(row@.skip(i as int)[0] == row@[i as int]);
        match encode_value_into(&values[i], out) {
            Ok(_) => {},
            Err(e) => {
                return Err(e);
            },
        }
        proof {
            assert(row@.skip(i as int).drop_first() =~= row@.skip(i + 1));
            assert(row@.take(i + 1).drop_last() =~= row@.take(i as int));
            assert(out@ =~= le(row@.len(), 2) + encode_values(row@.take(i + 1)));
        }
        i = i + 1;
    }
    assert(row@.take(i as int) =~= row@);
    Ok(())
}

/// Calls `std::str::from_utf8`, which accepts exactly the valid UTF-8 byte strings, and copies
/// the text that it finds.
#[verifier::external_body]
pub(crate) fn utf8_text(bytes: &[u8]) -> (r: Option<String>)
    ensures
        r is Some <==> valid_utf8(bytes@),
        r is Some ==> (r->0)@ == decode_utf8(bytes@),
{
    match std::str::from_utf8(bytes) {
        Ok(text) => Some(text.to_owned()),
        Err(_) => None,
    }
}

/// Reads one field from `page[cur..row_end]`; gives the value and the position behind it.
fn decode_value(page: &[u8], cur: usize, row_end: usize) -> (r: Result<
    (Data, usize),
    DecodeError,
>)
    requires
        cur <= row_end <= page@.len(),
    ensures
        match parse_value(page@.subrange(cur as int, row_end as int)) {
            Ok((v, n)) => r matches Ok(p) && p.0@ == v && p.1 == cur + n && p.1 <= row_end && n
                > 0,
            Err(e) => r is Err && r->Err_0 == e,
        },
{
    let ghost bytes = page@.subrange(cur as int, row_end as int);
    if cur >= row_end {
        return Err(DecodeError::MissingTag);
    }
    let tag: u8 = page[cur];
    let at: usize = cur + 1;
    let left: usize = row_end - at;
    proof {
        lemma_pow256_values();
        assert(bytes.skip(1) =~= page@.subrange(at as int, row_end as int));
        if left >= 4 {
            assert(bytes.skip(1).take(4) =~= page@.subrange(at as int, at + 4));
        }
        if left >= 8 {
            assert(bytes.skip(1).take(8) =~= page@.subrange(at as int, at + 8));
        }
    }
    if tag == 1 {
        if left < 4 {
            return Err(DecodeError::FieldOverrun);
        }
        Ok((Data::Int32((read_le(page, at, 4) as u32) as i32), at + 4))
    } else if tag == 2 {
        if left < 8 {
            return Err(DecodeError::FieldOverrun);
        }
        Ok((Data::Int64(read_le(page, at, 8) as i64), at + 8))
    } else if tag == 3 {
        if left < 4 {
            return Err(DecodeError::FieldOverrun);
        }
        Ok((Data::Float32(read_le(page, at, 4) as u32), at + 4))
    } else if tag == 4 {
        if left < 8 {
            return Err(DecodeError::FieldOverrun);
        }
        Ok((Data::Float64(read_le(page, at, 8)), at + 8))
    } else if tag == 5 {
        if left < 4 {
            return Err(DecodeError::FieldOverrun);
        }
        let len: u64 = read_le(page, at, 4);
        if len > (left - 4) as u64 {
            return Err(DecodeError::FieldOverrun);
        }
        let start: usize = at + 4;
        let end: usize = start + len as usize;
        assert(bytes.skip(1).subrange(4, 4 + len) =~= page@.subrange(start as int, end as int));
        match utf8_text(vstd::slice::slice_subrange(page, start, end)) {
            Some(s) => Ok((Data::String(s), end)),
            None => Err(DecodeError::InvalidText),
        }
    } else {
        Err(DecodeError::UnknownTag(tag))
    }
}

/// Reads the row whose record starts at `offset`, and moves `offset` behind it. Where the row
/// cannot be read, `offset` moves behind its length, as far as there is one.
pub fn decode_row_from_page(page: &[u8], offset: &mut usize) -> (r: Result<Row, DbError>)
    requires
        page@.len() >= 2,
    ensures
        match parse_record(page@, *old(offset) as int) {
            Ok((vs, next)) => r matches Ok(row) && row@ == vs && *final(offset) == next && next
                <= page@.len() - 2,
            Err(e) => r is Err && r->Err_0 == DbError::Decode(e) && *final(offset) == (if e
                is LengthOverrun {
                *old(offset) as int
            } else {
                *old(offset) + 4
            }),
        },
        *old(offset) <= page@.len() - 2 ==> *final(offset) <= page@.len() - 2,
{
    let usable_end: usize = page.len() - 2;
    let start: usize = *offset;
    if start > usable_end || usable_end - start < 4 {
        return Err(DbError::Decode(DecodeError::LengthOverrun));
    }
    let row_len: u64 = read_le(page, start, 4);
    let first: usize = start + 4;
    *offset = first;
    if row_len > (usable_end - first) as u64 {
        return Err(DbError::Decode(DecodeError::PayloadOverrun));
    }
    let row_end: usize = first + row_len as usize;
    let ghost payload = page@.subrange(first as int, row_end as int);
    if row_len < 2 {
        return Err(DbError::Decode(DecodeError::MissingFieldCount));
    }
    let field_count: u64 = read_le(page, first, 2);
    assert(payload.take(2) =~= page@.subrange(first as int, first + 2));
    let mut cur: usize = first + 2;
    let mut values: Vec<Data> = Vec::new();
    let mut i: u64 = 0;
    let ghost parsed = parse_values(payload, 2, field_count as nat, Seq::empty());
    let ghost expected = match parsed {
        Err(e) => Err::<(Seq<Value>, int), DecodeError>(e),
        Ok((vs, at)) => if at == payload.len() {
            Ok((vs, row_end as int))
        } else {
            Err(DecodeError::TrailingBytes)
        },
    };
    proof {
        assert(values_of(values@) =~= Seq::<Value>::empty());
        assert(parse_record(page@, start as int) == expected);
    }
    while i < field_count
        invariant
            first == *offset,
            first == start + 4,
            start == *old(offset),
            first <= page@.len() - 2,
            parse_record(page@, start as int) == expected,
            expected == (match parsed {
                Err(e) => Err::<(Seq<Value>, int), DecodeError>(e),
                Ok((vs, at)) => if at == payload.len() {
                    Ok((vs, row_end as int))
                } else {
                    Err(DecodeError::TrailingBytes)
                },
            }),
            i <= field_count,
            first <= cur <= row_end <= page@.len(),
            payload == page@.subrange(first as int, row_end as int),
            parsed == parse_values(
                payload,
                cur - first,
                (field_count - i) as nat,
                values_of(values@),
            ),
        decreases field_count - i,
    {
        assert(payload.skip(cur - first) =~= page@.subrange(cur as int, row_end as int));
        match decode_value(page, cur, row_end) {
            Ok((value, next)) => {
                values.push(value);
                cur = next;
            },
            Err(e) => {
                proof {
                    let rest = page@.subrange(cur as int, row_end as int);
                    assert(parse_value(rest) == Err::<(Value, int), DecodeError>(e));
                    assert(!(e is LengthOverrun));
                }
                return Err(DbError::Decode(e));
            },
        }
        i = i + 1;
    }
    if cur != row_end {
        return Err(DbError::Decode(DecodeError::TrailingBytes));
    }
    *offset = row_end;
    Ok(Row::new(values))
}

} // verus!

//! Which rows can be written to temporary storage, and which bytes are no rows.

use vstd::prelude::*;
use vstd::utf8::{encode_utf8, valid_utf8};
use crate::byte_laws::int_bytes;
use crate::codec::{encodable, encode_row, first_too_large, le_value, parse_payload, parse_record, parse_value};
use crate::error::DecodeError;
use crate::value::Value;

verus! {

/// A row can be written where it has at most 65535 values and none of its strings takes more bytes
/// than 32 bits can count.
pub proof fn rows_that_can_be_written(row: Seq<Value>)
    ensures
        encodable(row) <==> row.len() <= 0xffff && forall|i: int|
            0 <= i < row.len() && (#[trigger] row[i]) is Str ==> encode_utf8(row[i]->Str_0).len()
                <= 0xffff_ffff,
{
    if row.len() <= 0xffff && (forall|i: int|
        0 <= i < row.len() && (#[trigger] row[i]) is Str ==> encode_utf8(row[i]->Str_0).len()
            <= 0xffff_ffff) {
        assert forall|i: int| 0 <= i < row.len() implies crate::codec::string_fits(
            #[trigger] row[i],
        ) by {}
    }
    if encodable(row) {
        assert forall|i: int|
            0 <= i < row.len() && (#[trigger] row[i]) is Str implies encode_utf8(
            row[i]->Str_0,
        ).len() <= 0xffff_ffff by {
            assert(crate::codec::string_fits(row[i]));
        }
    }
}

/// The string that is too large is the first one that is.
pub proof fn the_first_large_string_is_told(row: Seq<Value>, k: int)
    requires
        0 <= k < row.len(),
        row[k] is Str,
        encode_utf8(row[k]->Str_0).len() > 0xffff_ffff,
        forall|i: int|
            0 <= i < k && (#[trigger] row[i]) is Str ==> encode_utf8(row[i]->Str_0).len()
                <= 0xffff_ffff,
    ensures
        first_too_large(row) == encode_utf8(row[k]->Str_0).len(),
    decreases k,
{
    if k > 0 {
        let rest = row.drop_first();
        assert(row[0] is Str ==> encode_utf8(row[0]->Str_0).len() <= 0xffff_ffff);
        assert forall|i: int|
            0 <= i < k - 1 && (#[trigger] rest[i]) is Str implies encode_utf8(
            rest[i]->Str_0,
        ).len() <= 0xffff_ffff by {
            assert(rest[i] == row[i + 1]);
        }
        the_first_large_string_is_told(rest, k - 1);
    }
}

/// Bytes that start with no known tag are no value, and the tag is told.
pub proof fn unknown_tags_are_told(tag: u8, rest: Seq<u8>)
    requires
        tag == 0 || tag > 5,
    ensures
        parse_value(Seq::empty()) == Err::<(Value, int), DecodeError>(DecodeError::MissingTag),
        parse_value(seq![tag] + rest) == Err::<(Value, int), DecodeError>(
            DecodeError::UnknownTag(tag),
        ),
{
    assert((seq![tag] + rest)[0] == tag);
}

/// A value whose tag asks for more bytes than there are is an overrun.
pub proof fn values_do_not_run_over(tag: u8, rest: Seq<u8>)
    requires
        1 <= tag <= 5,
        rest.len() < (if tag == 2 || tag == 4 {
            8int
        } else {
            4
        }),
    ensures
        parse_value(seq![tag] + rest) == Err::<(Value, int), DecodeError>(
            DecodeError::FieldOverrun,
        ),
{
    assert((seq![tag] + rest)[0] == tag);
    assert((seq![tag] + rest).skip(1) =~= rest);
}

/// A string whose length asks for more bytes than there are is an overrun, and one whose bytes are
/// no text is turned down.
pub proof fn strings_are_texts_of_their_length(length: Seq<u8>, text: Seq<u8>)
    requires
        length.len() == 4,
    ensures
        le_value(length) > text.len() ==> parse_value(seq![5u8] + length + text) == Err::<
            (Value, int),
            DecodeError,
        >(DecodeError::FieldOverrun),
        le_value(length) == text.len() && !valid_utf8(text) ==> parse_value(
            seq![5u8] + length + text,
        ) == Err::<(Value, int), DecodeError>(DecodeError::InvalidText),
{
    let bytes = seq![5u8] + length + text;
    let rest = bytes.skip(1);
    assert(bytes[0] == 5);
    assert(rest =~= length + text);
    assert(rest.take(4) =~= length);
    if le_value(length) == text.len() {
        assert(rest.subrange(4, 4 + text.len() as int) =~= text);
    }
}

/// A record whose length, or whose bytes, reach into the row count of its page is an overrun.
pub proof fn records_do_not_reach_the_row_count(page: Seq<u8>, offset: int)
    requires
        0 <= offset,
    ensures
        offset + 4 > page.len() - 2 ==> parse_record(page, offset) == Err::<
            (Seq<Value>, int),
            DecodeError,
        >(DecodeError::LengthOverrun),
        offset + 4 <= page.len() - 2 && offset + 4 + le_value(page.subrange(offset, offset + 4))
            > page.len() - 2 ==> parse_record(page, offset) == Err::<
            (Seq<Value>, int),
            DecodeError,
        >(DecodeError::PayloadOverrun),
{
}

/// A payload needs two bytes for the number of its values.
pub proof fn payloads_tell_their_number_of_values(payload: Seq<u8>)
    requires
        payload.len() < 2,
    ensures
        parse_payload(payload) == Err::<Seq<Value>, DecodeError>(DecodeError::MissingFieldCount),
{
}

/// A payload with bytes behind its values is turned down.
pub proof fn payloads_end_with_their_values(row: Seq<Value>, more: Seq<u8>)
    requires
        encodable(row),
        more.len() > 0,
    ensures
        parse_payload(encode_row(row) + more) == Err::<Seq<Value>, DecodeError>(
            DecodeError::TrailingBytes,
        ),
{
    crate::codec::lemma_trailing(row, more);
}

/// The payload of a row starts with the number of its values.
pub proof fn payloads_start_with_their_number_of_values(row: Seq<Value>)
    requires
        encodable(row),
    ensures
        encode_row(row).len() >= 2,
        encode_row(row).take(2) == int_bytes(row.len() as int, 2),
{
    crate::byte_laws::least_significant_byte_comes_first(row.len(), 2);
    assert(encode_row(row).take(2) =~= crate::codec::le(row.len(), 2));
}

} // verus!

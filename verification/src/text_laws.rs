//! How values and rows read.

use vstd::prelude::*;
use crate::row::{barred_text, pipe_text, value_text};
use crate::text::{decimal, digit_char, digits};
use crate::value::Value;

verus! {

/// Whether a text is made of decimal digits, without a zero in front of others.
pub open spec fn is_numeral(s: Seq<char>) -> bool {
    &&& s.len() > 0
    &&& forall|i: int| 0 <= i < s.len() ==> '0' <= #[trigger] s[i] <= '9'
    &&& s.len() > 1 ==> s[0] != '0'
}

/// The number that decimal digits stand for: each digit counts ten times the next one.
pub open spec fn numeral_value(s: Seq<char>) -> nat
    decreases s.len(),
{
    if s.len() == 0 {
        0
    } else {
        10 * numeral_value(s.drop_last()) + (s.last() as nat - '0' as nat) as nat
    }
}

/// Whether a text is the decimal notation of an integer: its digits, and a minus before them where
/// it is negative.
pub open spec fn reads_as(s: Seq<char>, n: int) -> bool {
    if n < 0 {
        s.len() > 0 && s[0] == '-' && is_numeral(s.skip(1)) && numeral_value(s.skip(1)) == -n
    } else {
        is_numeral(s) && numeral_value(s) == n
    }
}

proof fn lemma_digit(d: int)
    requires
        0 <= d < 10,
    ensures
        '0' <= digit_char(d) <= '9',
        digit_char(d) as nat - '0' as nat == d,
        digit_char(d) == '0' <==> d == 0,
{
    assert(digit_char(d) as u32 == 48 + d);
}

/// The digits of a number stand for it.
pub proof fn digits_stand_for_the_number(n: nat)
    ensures
        is_numeral(digits(n)),
        numeral_value(digits(n)) == n,
        n > 0 ==> digits(n)[0] != '0',
    decreases n,
{
    if n < 10 {
        lemma_digit(n as int);
        assert(digits(n).drop_last() =~= Seq::<char>::empty());
        assert(numeral_value(digits(n).drop_last()) == 0);
    } else {
        let front = digits(n / 10);
        let last = digit_char((n % 10) as int);
        digits_stand_for_the_number(n / 10);
        lemma_digit((n % 10) as int);
        assert(digits(n) == front.push(last));
        assert(digits(n).drop_last() =~= front);
        assert forall|i: int| 0 <= i < digits(n).len() implies '0' <= #[trigger] digits(n)[i]
            <= '9' by {
            if i < front.len() {
                assert(digits(n)[i] == front[i]);
            }
        }
    }
}

/// The text of an integer is its decimal notation, whatever its type.
pub proof fn integers_read_as_themselves(v: Value, float_text: Seq<char>)
    ensures
        v matches Value::Int32(n) ==> reads_as(value_text(v, float_text), n as int),
        v matches Value::Int64(n) ==> reads_as(value_text(v, float_text), n as int),
{
    let n = match v {
        Value::Int32(n) => n as int,
        Value::Int64(n) => n as int,
        _ => 0,
    };
    if n < 0 {
        digits_stand_for_the_number((-n) as nat);
        assert(decimal(n).skip(1) =~= digits((-n) as nat));
    } else {
        digits_stand_for_the_number(n as nat);
    }
}

/// A text is the decimal notation of one integer at most.
pub proof fn notation_tells_the_integer(s: Seq<char>, a: int, b: int)
    requires
        reads_as(s, a),
        reads_as(s, b),
    ensures
        a == b,
{
    if a < 0 && b >= 0 {
        assert('0' <= s[0] <= '9');
    }
    if b < 0 && a >= 0 {
        assert('0' <= s[0] <= '9');
    }
}

/// Different integers have different texts.
pub proof fn different_integers_read_differently(a: i64, b: i64, float_text: Seq<char>)
    requires
        a != b,
    ensures
        value_text(Value::Int64(a), float_text) != value_text(Value::Int64(b), float_text),
{
    integers_read_as_themselves(Value::Int64(a), float_text);
    integers_read_as_themselves(Value::Int64(b), float_text);
    if value_text(Value::Int64(a), float_text) == value_text(Value::Int64(b), float_text) {
        notation_tells_the_integer(value_text(Value::Int64(a), float_text), a as int, b as int);
    }
}

/// Whether a text shows that it is that of a floating-point number.
pub open spec fn shows_a_float(s: Seq<char>) -> bool {
    exists|i: int| 0 <= i < s.len() && (#[trigger] s[i] == '.' || s[i] == 'e' || s[i] == 'E')
}

/// The text of a floating-point number is its notation, which gets a point and a zero only where
/// it would read like that of an integer.
pub proof fn floats_show_that_they_are_floats(v: Value, float_text: Seq<char>)
    requires
        v is Float32 || v is Float64,
    ensures
        shows_a_float(value_text(v, float_text)),
        shows_a_float(float_text) ==> value_text(v, float_text) == float_text,
        !shows_a_float(float_text) ==> value_text(v, float_text) == float_text.push('.').push('0'),
{
    reveal_strlit(".0");
    if shows_a_float(float_text) {
        let i = choose|i: int|
            0 <= i < float_text.len() && (#[trigger] float_text[i] == '.' || float_text[i] == 'e'
                || float_text[i] == 'E');
        assert(float_text.contains(float_text[i]));
    } else {
        if float_text.contains('.') {
            let i = choose|i: int| 0 <= i < float_text.len() && float_text[i] == '.';
            assert(float_text[i] == '.');
        }
        if float_text.contains('e') {
            let i = choose|i: int| 0 <= i < float_text.len() && float_text[i] == 'e';
            assert(float_text[i] == 'e');
        }
        if float_text.contains('E') {
            let i = choose|i: int| 0 <= i < float_text.len() && float_text[i] == 'E';
            assert(float_text[i] == 'E');
        }
        let s = float_text + ".0"@;
        assert(s =~= float_text.push('.').push('0'));
        assert(s[float_text.len() as int] == '.');
    }
}

/// A text reads as itself.
pub proof fn texts_read_as_themselves(s: Seq<char>, float_text: Seq<char>)
    ensures
        value_text(Value::Str(s), float_text) == s,
{
}

/// The line of a row is made of its values in their order, each with a bar behind it, and an end
/// of line: one value more goes before the end of the line.
pub proof fn lines_grow_by_their_values(row: Seq<Value>, v: Value, float_texts: Seq<Seq<char>>)
    ensures
        pipe_text(Seq::empty(), float_texts) == seq!['\n'],
        pipe_text(row.push(v), float_texts) == pipe_text(row, float_texts).drop_last() + value_text(
            v,
            float_texts[row.len() as int],
        ) + seq!['|', '\n'],
{
    let longer = row.push(v);
    assert(longer.drop_last() =~= row);
    assert(pipe_text(row, float_texts).drop_last() =~= barred_text(row, float_texts));
    assert(pipe_text(Seq::empty(), float_texts) =~= seq!['\n']);
    assert(pipe_text(longer, float_texts) =~= pipe_text(row, float_texts).drop_last() + value_text(
        v,
        float_texts[row.len() as int],
    ) + seq!['|', '\n']);
}

} // verus!

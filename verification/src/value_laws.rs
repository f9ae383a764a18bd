//! How values compare, said of the numbers and texts that they stand for.

use vstd::arithmetic::power2::pow2;
use vstd::prelude::*;
use vstd::utf8::encode_utf8;
use crate::float_laws::{integers_become_the_nearest_number, is_number32, is_number64, number32, number64, order32_is_numeric, order64_is_numeric, widening_keeps_the_number};
use crate::floats::{Comparison, f64_of_int};
use crate::ordering::sort_order;
use crate::value::{DataType, Value, equal_strings_are_the_same, has_type, lexicographic, order_of};

verus! {

/// Whether a value is one of a type.
pub open spec fn is_of(v: Value, t: DataType) -> bool {
    match (v, t) {
        (Value::Int32(_), DataType::Int32) => true,
        (Value::Int64(_), DataType::Int64) => true,
        (Value::Float32(_), DataType::Float32) => true,
        (Value::Float64(_), DataType::Float64) => true,
        (Value::Str(_), DataType::String) => true,
        _ => false,
    }
}

/// Every value has its one type.
pub proof fn values_have_their_type(v: Value, t: DataType)
    ensures
        has_type(v, t) <==> is_of(v, t),
{
}

/// The integer that a value is.
pub open spec fn integer_of(v: Value) -> Option<int> {
    match v {
        Value::Int32(n) => Some(n as int),
        Value::Int64(n) => Some(n as int),
        _ => None,
    }
}

/// The floating-point number that a value is, or becomes where it meets one, in units of two to
/// the power -1074. The infinities stand beyond all others; a NaN is no number.
pub open spec fn float_of(v: Value) -> Option<int> {
    match v {
        Value::Int32(n) => Some(n * pow2(1074)),
        Value::Int64(n) => Some(number64(f64_of_int(n as int))),
        Value::Float32(b) => if b == 0x7f80_0000 {
            Some(number64(0x7ff0_0000_0000_0000))
        } else if b == 0xff80_0000 {
            Some(number64(0xfff0_0000_0000_0000))
        } else if is_number32(b) {
            Some(number32(b) * pow2(925))
        } else {
            None
        },
        Value::Float64(b) => if is_number64(b) {
            Some(number64(b))
        } else {
            None
        },
        Value::Str(_) => None,
    }
}

/// Whether one byte string comes before another: behind what they share it ends, or it goes on
/// with the smaller byte.
pub open spec fn comes_before(a: Seq<u8>, b: Seq<u8>) -> bool {
    exists|k: int| #[trigger] parts_ways(a, b, k)
}

/// Whether two byte strings agree up to a place where the first one ends or has the smaller byte.
pub open spec fn parts_ways(a: Seq<u8>, b: Seq<u8>, k: int) -> bool {
    &&& 0 <= k <= a.len()
    &&& k < b.len()
    &&& forall|i: int| 0 <= i < k ==> #[trigger] a[i] == b[i]
    &&& k == a.len() || a[k] < b[k]
}

/// Integers of any two types compare as integers.
pub proof fn integers_compare_as_integers(a: Value, b: Value)
    requires
        integer_of(a) is Some,
        integer_of(b) is Some,
    ensures
        order_of(a, b) == Some(Comparison::Less) <==> integer_of(a)->0 < integer_of(b)->0,
        order_of(a, b) == Some(Comparison::Equal) <==> integer_of(a)->0 == integer_of(b)->0,
        order_of(a, b) == Some(Comparison::Greater) <==> integer_of(a)->0 > integer_of(b)->0,
{
}

/// The 64 bits that a number becomes where it meets a float.
spec fn bits_of_number(v: Value) -> u64 {
    match v {
        Value::Int32(n) => f64_of_int(n as int),
        Value::Int64(n) => f64_of_int(n as int),
        Value::Float32(b) => crate::floats::f64_of_f32(b),
        Value::Float64(b) => b,
        Value::Str(_) => 0,
    }
}

proof fn lemma_bits_of_number(v: Value)
    requires
        !(v is Str),
    ensures
        is_number64(bits_of_number(v)) <==> float_of(v) is Some,
        float_of(v) is Some ==> number64(bits_of_number(v)) == float_of(v)->0,
{
    match v {
        Value::Int32(n) => {
            integers_become_the_nearest_number(n as i64, 0);
        },
        Value::Int64(n) => {
            integers_become_the_nearest_number(n, 0);
        },
        Value::Float32(b) => {
            widening_keeps_the_number(b);
            let w = crate::floats::f64_of_f32(b);
            if b % 0x8000_0000 == 0x7f80_0000 {
                assert(w == 0x7ff0_0000_0000_0000 || w == 0xfff0_0000_0000_0000);
            }
        },
        _ => {},
    }
}

proof fn lemma_same_kind(v: Value, w: Value)
    requires
        v is Float32 && w is Float32,
    ensures
        float_of(v) is Some <==> is_number32(v->Float32_0),
        float_of(v) is Some && float_of(w) is Some ==> {
            &&& number32(v->Float32_0) < number32(w->Float32_0) <==> float_of(v)->0 < float_of(w)->0
            &&& number32(v->Float32_0) == number32(w->Float32_0) <==> float_of(v)->0
                == float_of(w)->0
        },
{
    let a = v->Float32_0;
    let b = w->Float32_0;
    if is_number32(a) && is_number32(b) {
        crate::float_laws::widening_keeps_the_order(a, b);
        lemma_bits_of_number(v);
        lemma_bits_of_number(w);
    }
}

/// Where a floating-point number meets a number, they compare as the numbers that they stand for.
/// A 64 bit integer counts as the 64 bit float nearest to it. A NaN compares with nothing.
pub proof fn floats_compare_as_numbers(a: Value, b: Value)
    requires
        !(a is Str),
        !(b is Str),
        integer_of(a) is None || integer_of(b) is None,
    ensures
        order_of(a, b) is Some <==> float_of(a) is Some && float_of(b) is Some,
        float_of(a) is Some && float_of(b) is Some ==> {
            &&& order_of(a, b) == Some(Comparison::Less) <==> float_of(a)->0 < float_of(b)->0
            &&& order_of(a, b) == Some(Comparison::Equal) <==> float_of(a)->0 == float_of(b)->0
            &&& order_of(a, b) == Some(Comparison::Greater) <==> float_of(a)->0 > float_of(b)->0
        },
{
    if a is Float32 && b is Float32 {
        order32_is_numeric(a->Float32_0, b->Float32_0);
        lemma_same_kind(a, b);
        lemma_same_kind(b, a);
    } else {
        order64_is_numeric(bits_of_number(a), bits_of_number(b));
        lemma_bits_of_number(a);
        lemma_bits_of_number(b);
    }
}

proof fn lemma_lexicographic_parts(a: Seq<u8>, b: Seq<u8>) -> (k: int)
    ensures
        lexicographic(a, b) == Comparison::Less ==> parts_ways(a, b, k),
        lexicographic(a, b) == Comparison::Greater ==> parts_ways(b, a, k),
        lexicographic(a, b) == Comparison::Equal ==> a == b,
    decreases a.len(),
{
    if a.len() > 0 && b.len() > 0 && a[0] == b[0] {
        let x = a.drop_first();
        let y = b.drop_first();
        let k = lemma_lexicographic_parts(x, y);
        if lexicographic(a, b) == Comparison::Equal {
            assert(a =~= seq![a[0]] + x);
            assert(b =~= seq![b[0]] + y);
        } else {
            assert forall|i: int| 0 <= i < k + 1 implies #[trigger] a[i] == b[i] by {
                if i > 0 {
                    assert(x[i - 1] == y[i - 1]);
                }
            }
        }
        k + 1
    } else {
        if a.len() == 0 && b.len() == 0 {
            assert(a =~= b);
        }
        0
    }
}

proof fn lemma_one_way(a: Seq<u8>, b: Seq<u8>, k: int, j: int)
    requires
        parts_ways(a, b, k),
    ensures
        !parts_ways(b, a, j),
{
    if parts_ways(b, a, j) {
        if k < j {
            assert(b[k] == a[k]);
        } else if j < k {
            assert(a[j] == b[j]);
        }
    }
}

/// Texts compare by their bytes: one that ends first, or that has the smaller byte in the first
/// place where they differ, comes before. Only equal texts compare as equal.
pub proof fn texts_compare_by_their_bytes(a: Seq<char>, b: Seq<char>)
    ensures
        ({
            let c = order_of(Value::Str(a), Value::Str(b));
            &&& c == Some(Comparison::Less) <==> comes_before(encode_utf8(a), encode_utf8(b))
            &&& c == Some(Comparison::Equal) <==> a == b
            &&& c == Some(Comparison::Greater) <==> comes_before(encode_utf8(b), encode_utf8(a))
        }),
{
    let x = encode_utf8(a);
    let y = encode_utf8(b);
    let k = lemma_lexicographic_parts(x, y);
    equal_strings_are_the_same(a, b);
    if comes_before(x, y) {
        let j = choose|j: int| #[trigger] parts_ways(x, y, j);
        if lexicographic(x, y) == Comparison::Greater {
            lemma_one_way(x, y, j, k);
        }
    }
    if comes_before(y, x) {
        let j = choose|j: int| #[trigger] parts_ways(y, x, j);
        if lexicographic(x, y) == Comparison::Less {
            lemma_one_way(x, y, k, j);
        }
    }
}

/// A text and a number do not compare.
pub proof fn texts_and_numbers_do_not_compare(a: Value, b: Value)
    requires
        a is Str != b is Str,
    ensures
        order_of(a, b) is None,
{
}

/// A sort takes two values of a column as they compare; those that do not compare count as equal.
pub proof fn sorting_follows_the_order(a: Value, b: Value, t: DataType)
    requires
        is_of(a, t),
        is_of(b, t),
    ensures
        order_of(a, b) is Some ==> Some(sort_order(a, b)) == order_of(a, b),
        order_of(a, b) is None ==> sort_order(a, b) == Comparison::Equal,
{
}

/// A sort takes values of different types as equal.
pub proof fn sorting_leaves_types_apart(a: Value, b: Value, t: DataType)
    requires
        is_of(a, t),
        !is_of(b, t),
    ensures
        sort_order(a, b) == Comparison::Equal,
{
}

/// Exchanging the sides of a comparison twice gives it back, and once turns "less" into
/// "greater".
pub proof fn exchanging_sides(c: Comparison)
    ensures
        c.flipped().flipped() == c,
        c == Comparison::Less <==> c.flipped() == Comparison::Greater,
{
}

} // verus!

//! The values that rows hold.

use vstd::prelude::*;
use vstd::utf8::encode_utf8;
use crate::floats::{Comparison, compare_f32, compare_f64, f64_from_int, f64_from_f32};

verus! {

/// A single value of a row. A floating-point number is held as its IEEE 754 bit pattern.
#[derive(Debug)]
pub enum Data {
    Int32(i32),
    Int64(i64),
    Float32(u32),
    Float64(u64),
    String(String),
}

/// The type of a column.
#[derive(Clone, Copy, Debug, PartialEq, Eq, Structural)]
pub enum DataType {
    Int32,
    Int64,
    Float32,
    Float64,
    String,
}

/// The mathematical value of a `Data`.
#[verifier::ext_equal]
pub enum Value {
    Int32(i32),
    Int64(i64),
    Float32(u32),
    Float64(u64),
    Str(Seq<char>),
}

impl View for Data {
    type V = Value;

    open spec fn view(&self) -> Value {
        match self {
            Data::Int32(v) => Value::Int32(*v),
            Data::Int64(v) => Value::Int64(*v),
            Data::Float32(v) => Value::Float32(*v),
            Data::Float64(v) => Value::Float64(*v),
            Data::String(s) => Value::Str(s@),
        }
    }
}

impl Clone for Data {
    fn clone(&self) -> (r: Data)
        ensures
            r@ == self@,
    {
        match self {
            Data::Int32(v) => Data::Int32(*v),
            Data::Int64(v) => Data::Int64(*v),
            Data::Float32(v) => Data::Float32(*v),
            Data::Float64(v) => Data::Float64(*v),
            Data::String(s) => Data::String(s.clone()),
        }
    }
}

/// Whether a value has a column type.
pub open spec fn has_type(v: Value, t: DataType) -> bool {
    match t {
        DataType::Int32 => v is Int32,
        DataType::Int64 => v is Int64,
        DataType::Float32 => v is Float32,
        DataType::Float64 => v is Float64,
        DataType::String => v is Str,
    }
}

/// Lexicographic order on byte strings.
pub open spec fn lexicographic(a: Seq<u8>, b: Seq<u8>) -> Comparison
    decreases a.len(),
{
    if a.len() == 0 {
        if b.len() == 0 {
            Comparison::Equal
        } else {
            Comparison::Less
        }
    } else if b.len() == 0 {
        Comparison::Greater
    } else if a[0] < b[0] {
        Comparison::Less
    } else if a[0] > b[0] {
        Comparison::Greater
    } else {
        lexicographic(a.drop_first(), b.drop_first())
    }
}

/// How two values compare. Numbers of different types compare by magnitude; where one of them is
/// a floating-point number, both are taken to 64 bits. `None` where one is NaN or where a number
/// meets a string.
pub open spec fn order_of(a: Value, b: Value) -> Option<Comparison> {
    match (a, b) {
        (Value::Int32(l), Value::Int32(r)) => Some(crate::floats::compare_ints(l as int, r as int)),
        (Value::Int64(l), Value::Int64(r)) => Some(crate::floats::compare_ints(l as int, r as int)),
        (Value::Float32(l), Value::Float32(r)) => crate::floats::f32_order(l, r),
        (Value::Float64(l), Value::Float64(r)) => crate::floats::f64_order(l, r),
        (Value::Str(l), Value::Str(r)) => Some(lexicographic(encode_utf8(l), encode_utf8(r))),
        (Value::Int32(l), Value::Int64(r)) => Some(crate::floats::compare_ints(l as int, r as int)),
        (Value::Int64(l), Value::Int32(r)) => Some(crate::floats::compare_ints(l as int, r as int)),
        (Value::Int32(l), Value::Float32(r)) => crate::floats::f64_order(
            crate::floats::f64_of_int(l as int),
            crate::floats::f64_of_f32(r),
        ),
        (Value::Float32(l), Value::Int32(r)) => crate::floats::f64_order(
            crate::floats::f64_of_f32(l),
            crate::floats::f64_of_int(r as int),
        ),
        (Value::Int32(l), Value::Float64(r)) => crate::floats::f64_order(
            crate::floats::f64_of_int(l as int),
            r,
        ),
        (Value::Float64(l), Value::Int32(r)) => crate::floats::f64_order(
            l,
            crate::floats::f64_of_int(r as int),
        ),
        (Value::Int64(l), Value::Float32(r)) => crate::floats::f64_order(
            crate::floats::f64_of_int(l as int),
            crate::floats::f64_of_f32(r),
        ),
        (Value::Float32(l), Value::Int64(r)) => crate::floats::f64_order(
            crate::floats::f64_of_f32(l),
            crate::floats::f64_of_int(r as int),
        ),
        (Value::Int64(l), Value::Float64(r)) => crate::floats::f64_order(
            crate::floats::f64_of_int(l as int),
            r,
        ),
        (Value::Float64(l), Value::Int64(r)) => crate::floats::f64_order(
            l,
            crate::floats::f64_of_int(r as int),
        ),
        (Value::Float32(l), Value::Float64(r)) => crate::floats::f64_order(
            crate::floats::f64_of_f32(l),
            r,
        ),
        (Value::Float64(l), Value::Float32(r)) => crate::floats::f64_order(
            l,
            crate::floats::f64_of_f32(r),
        ),
        _ => None,
    }
}

/// Two values are equal when they compare as equal.
pub open spec fn values_equal(a: Value, b: Value) -> bool {
    order_of(a, b) == Some(Comparison::Equal)
}

fn compare_i64(a: i64, b: i64) -> (r: Comparison)
    ensures
        r == crate::floats::compare_ints(a as int, b as int),
{
    if a < b {
        Comparison::Less
    } else if a == b {
        Comparison::Equal
    } else {
        Comparison::Greater
    }
}

/// Compares two byte strings lexicographically.
pub fn compare_bytes(a: &[u8], b: &[u8]) -> (r: Comparison)
    ensures
        r == lexicographic(a@, b@),
{
    let mut i: usize = 0;
    proof {
        assert(a@.skip(0) =~= a@);
        assert(b@.skip(0) =~= b@);
    }
    while i < a.len() && i < b.len() && a[i] == b[i]
        invariant
            i <= a@.len(),
            i <= b@.len(),
            lexicographic(a@, b@) == lexicographic(a@.skip(i as int), b@.skip(i as int)),
        decreases a@.len() - i,
    {
        proof {
            assert(a@.skip(i as int).drop_first() =~= a@.skip(i + 1));
            assert(b@.skip(i as int).drop_first() =~= b@.skip(i + 1));
        }
        i = i + 1;
    }
    if i == a.len() {
        if i == b.len() {
            Comparison::Equal
        } else {
            Comparison::Less
        }
    } else if i == b.len() {
        Comparison::Greater
    } else if a[i] < b[i] {
        Comparison::Less
    } else {
        Comparison::Greater
    }
}

impl Data {
    /// Compares two values; see `order_of`.
    pub fn compare(&self, other: &Data) -> (r: Option<Comparison>)
        ensures
            r == order_of(self@, other@),
    {
        match (self, other) {
            (Data::Int32(l), Data::Int32(r)) => Some(compare_i64(*l as i64, *r as i64)),
            (Data::Int64(l), Data::Int64(r)) => Some(compare_i64(*l, *r)),
            (Data::Float32(l), Data::Float32(r)) => compare_f32(*l, *r),
            (Data::Float64(l), Data::Float64(r)) => compare_f64(*l, *r),
            (Data::String(l), Data::String(r)) => Some(
                compare_bytes(l.as_str().as_bytes(), r.as_str().as_bytes()),
            ),
            (Data::Int32(l), Data::Int64(r)) => Some(compare_i64(*l as i64, *r)),
            (Data::Int64(l), Data::Int32(r)) => Some(compare_i64(*l, *r as i64)),
            (Data::Int32(l), Data::Float32(r)) => compare_f64(
                f64_from_int(*l as i64),
                f64_from_f32(*r),
            ),
            (Data::Float32(l), Data::Int32(r)) => compare_f64(
                f64_from_f32(*l),
                f64_from_int(*r as i64),
            ),
            (Data::Int32(l), Data::Float64(r)) => compare_f64(f64_from_int(*l as i64), *r),
            (Data::Float64(l), Data::Int32(r)) => compare_f64(*l, f64_from_int(*r as i64)),
            (Data::Int64(l), Data::Float32(r)) => compare_f64(f64_from_int(*l), f64_from_f32(*r)),
            (Data::Float32(l), Data::Int64(r)) => compare_f64(f64_from_f32(*l), f64_from_int(*r)),
            (Data::Int64(l), Data::Float64(r)) => compare_f64(f64_from_int(*l), *r),
            (Data::Float64(l), Data::Int64(r)) => compare_f64(*l, f64_from_int(*r)),
            (Data::Float32(l), Data::Float64(r)) => compare_f64(f64_from_f32(*l), *r),
            (Data::Float64(l), Data::Float32(r)) => compare_f64(*l, f64_from_f32(*r)),
            _ => None,
        }
    }

    /// Whether two values compare as equal.
    pub fn equals(&self, other: &Data) -> (r: bool)
        ensures
            r == values_equal(self@, other@),
    {
        match self.compare(other) {
            Some(Comparison::Equal) => true,
            _ => false,
        }
    }
}

proof fn lemma_lexicographic_flips(a: Seq<u8>, b: Seq<u8>)
    ensures
        lexicographic(b, a) == lexicographic(a, b).flipped(),
    decreases a.len(),
{
    if a.len() > 0 && b.len() > 0 && a[0] == b[0] {
        lemma_lexicographic_flips(a.drop_first(), b.drop_first());
    }
}

/// Exchanging two values flips how they compare.
#[verifier::spinoff_prover]
#[verifier::rlimit(60)]
pub proof fn order_is_antisymmetric(a: Value, b: Value)
    ensures
        order_of(a, b) is Some <==> order_of(b, a) is Some,
        order_of(a, b) is Some ==> order_of(b, a)->0 == (order_of(a, b)->0).flipped(),
{
    if a is Str && b is Str {
        lemma_lexicographic_flips(encode_utf8(a->Str_0), encode_utf8(b->Str_0));
    }
}

proof fn lemma_lexicographic_equal(a: Seq<u8>, b: Seq<u8>)
    ensures
        lexicographic(a, b) == Comparison::Equal <==> a == b,
    decreases a.len(),
{
    if a.len() > 0 && b.len() > 0 && a[0] == b[0] {
        lemma_lexicographic_equal(a.drop_first(), b.drop_first());
        if a.drop_first() == b.drop_first() {
            assert(a =~= seq![a[0]] + a.drop_first());
            assert(b =~= seq![b[0]] + b.drop_first());
        }
    } else if a.len() == 0 && b.len() == 0 {
        assert(a =~= b);
    }
}

proof fn lemma_lexicographic_transitive(a: Seq<u8>, b: Seq<u8>, c: Seq<u8>)
    requires
        lexicographic(a, b) != Comparison::Greater,
        lexicographic(b, c) != Comparison::Greater,
    ensures
        lexicographic(a, c) != Comparison::Greater,
        lexicographic(a, c) == Comparison::Equal ==> lexicographic(a, b) == Comparison::Equal
            && lexicographic(b, c) == Comparison::Equal,
    decreases a.len(),
{
    if a.len() > 0 && b.len() > 0 && c.len() > 0 && a[0] == b[0] && b[0] == c[0] {
        lemma_lexicographic_transitive(a.drop_first(), b.drop_first(), c.drop_first());
    }
}

/// Strings are equal exactly when they hold the same characters.
pub proof fn equal_strings_are_the_same(a: Seq<char>, b: Seq<char>)
    ensures
        values_equal(Value::Str(a), Value::Str(b)) <==> a == b,
{
    lemma_lexicographic_equal(encode_utf8(a), encode_utf8(b));
    vstd::utf8::encode_utf8_decode_utf8(a);
    vstd::utf8::encode_utf8_decode_utf8(b);
}

/// Among values of one type that compare with themselves, "does not come after" is transitive,
/// so such values are totally preordered.
pub proof fn order_is_transitive_within_a_type(a: Value, b: Value, c: Value, t: DataType)
    requires
        has_type(a, t),
        has_type(b, t),
        has_type(c, t),
        order_of(a, a) is Some,
        order_of(b, b) is Some,
        order_of(c, c) is Some,
    ensures
        order_of(a, b) is Some,
        order_of(b, c) is Some,
        order_of(a, c) is Some,
        order_of(a, b) != Some(Comparison::Greater) && order_of(b, c) != Some(Comparison::Greater)
            ==> order_of(a, c) != Some(Comparison::Greater),
{
    if a is Str {
        if order_of(a, b) != Some(Comparison::Greater) && order_of(b, c) != Some(
            Comparison::Greater,
        ) {
            lemma_lexicographic_transitive(
                encode_utf8(a->Str_0),
                encode_utf8(b->Str_0),
                encode_utf8(c->Str_0),
            );
        }
    }
}

} // verus!

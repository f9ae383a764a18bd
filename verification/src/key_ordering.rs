//! The order of join keys.

use vstd::prelude::*;
use crate::floats::Comparison;
use crate::ordering::{SortKey, compare_data_ord, key_order, row_order, row_typed, sort_order, same_type};
use crate::row::{Row, in_bounds, pick};
use crate::value::{DataType, Value, has_type, order_is_antisymmetric, order_is_transitive_within_a_type, order_of};
use crate::views::{positions, values_of};

verus! {

/// Whether the values of a key have the given types, and none is a NaN.
pub open spec fn key_typed(types: Seq<DataType>, key: Seq<Value>) -> bool {
    &&& key.len() == types.len()
    &&& forall|i: int|
        0 <= i < key.len() ==> has_type(#[trigger] key[i], types[i]) && order_of(key[i], key[i])
            is Some
}

/// Exchanging two keys flips how they compare.
pub proof fn key_order_flips(a: Seq<Value>, b: Seq<Value>)
    ensures
        key_order(b, a) == key_order(a, b).flipped(),
    decreases a.len(),
{
    if a.len() > 0 && b.len() > 0 {
        order_is_antisymmetric(a[0], b[0]);
        key_order_flips(a.drop_first(), b.drop_first());
    }
}

proof fn lemma_typed_rest(types: Seq<DataType>, key: Seq<Value>)
    requires
        key_typed(types, key),
        key.len() > 0,
    ensures
        key_typed(types.drop_first(), key.drop_first()),
{
    let rest = key.drop_first();
    assert forall|i: int| 0 <= i < rest.len() implies has_type(
        #[trigger] rest[i],
        types.drop_first()[i],
    ) && order_of(rest[i], rest[i]) is Some by {
        assert(rest[i] == key[i + 1]);
    }
}

/// Among keys of the same types without a NaN, "does not come after" is transitive.
pub proof fn key_order_is_transitive(
    types: Seq<DataType>,
    a: Seq<Value>,
    b: Seq<Value>,
    c: Seq<Value>,
)
    requires
        key_typed(types, a),
        key_typed(types, b),
        key_typed(types, c),
        key_order(a, b) != Comparison::Greater,
        key_order(b, c) != Comparison::Greater,
    ensures
        key_order(a, c) != Comparison::Greater,
        key_order(a, c) == Comparison::Equal ==> key_order(a, b) == Comparison::Equal && key_order(
            b,
            c,
        ) == Comparison::Equal,
        key_order(a, b) == Comparison::Equal && key_order(b, c) == Comparison::Equal ==> key_order(
            a,
            c,
        ) == Comparison::Equal,
    decreases a.len(),
{
    if a.len() > 0 {
        let t = types[0];
        order_is_transitive_within_a_type(a[0], b[0], c[0], t);
        order_is_transitive_within_a_type(b[0], c[0], a[0], t);
        order_is_transitive_within_a_type(c[0], a[0], b[0], t);
        order_is_transitive_within_a_type(c[0], b[0], a[0], t);
        order_is_antisymmetric(a[0], b[0]);
        order_is_antisymmetric(b[0], c[0]);
        order_is_antisymmetric(a[0], c[0]);
        let ab = sort_order(a[0], b[0]);
        let bc = sort_order(b[0], c[0]);
        let ac = sort_order(a[0], c[0]);
        assert(same_type(a[0], b[0]) && same_type(b[0], c[0]) && same_type(a[0], c[0]));
        assert(ac != Comparison::Greater);
        if ac == Comparison::Equal {
            assert(ab == Comparison::Equal && bc == Comparison::Equal);
            lemma_typed_rest(types, a);
            lemma_typed_rest(types, b);
            lemma_typed_rest(types, c);
            key_order_is_transitive(
                types.drop_first(),
                a.drop_first(),
                b.drop_first(),
                c.drop_first(),
            );
        }
    }
}

/// The ascending sort keys for some columns.
pub open spec fn ascending_keys(at: Seq<int>) -> Seq<SortKey> {
    at.map_values(|i: int| SortKey { idx: i as usize, ascending: true })
}

/// Rows sorted ascending by the columns of a key are sorted by that key.
pub proof fn lemma_row_order_is_key_order(at: Seq<int>, a: Seq<Value>, b: Seq<Value>)
    requires
        forall|i: int| 0 <= i < at.len() ==> 0 <= #[trigger] at[i] <= usize::MAX,
    ensures
        row_order(ascending_keys(at), a, b) == key_order(pick(a, at), pick(b, at)),
    decreases at.len(),
{
    let keys = ascending_keys(at);
    let ka = pick(a, at);
    let kb = pick(b, at);
    if at.len() > 0 {
        let rest = at.drop_first();
        assert forall|i: int| 0 <= i < rest.len() implies 0 <= #[trigger] rest[i] <= usize::MAX by {
            assert(rest[i] == at[i + 1]);
        }
        lemma_row_order_is_key_order(rest, a, b);
        assert(keys.drop_first() =~= ascending_keys(rest));
        assert(ka.drop_first() =~= pick(a, rest));
        assert(kb.drop_first() =~= pick(b, rest));
        assert(0 <= at[0]);
        assert(keys[0].idx as int == at[0]);
    }
}

/// A row whose sort columns are typed has a typed key.
pub proof fn lemma_row_typed_key(at: Seq<int>, types: Seq<DataType>, row: Seq<Value>)
    requires
        forall|i: int| 0 <= i < at.len() ==> 0 <= #[trigger] at[i] <= usize::MAX,
    ensures
        row_typed(ascending_keys(at), types, row) <==> key_typed(types, pick(row, at)),
{
    let keys = ascending_keys(at);
    let key = pick(row, at);
    assert(keys.len() == at.len());
    assert forall|i: int| 0 <= i < at.len() implies keys[i].idx as int == #[trigger] at[i] by {}
    if row_typed(keys, types, row) {
        assert forall|i: int| 0 <= i < key.len() implies has_type(#[trigger] key[i], types[i])
            && order_of(key[i], key[i]) is Some by {
            assert(keys[i].idx as int == at[i]);
        }
    }
    if key_typed(types, key) {
        assert forall|k: int| 0 <= k < keys.len() implies has_type(
            row[#[trigger] keys[k].idx as int],
            types[k],
        ) && order_of(row[keys[k].idx as int], row[keys[k].idx as int]) is Some by {
            assert(key[k] == row[at[k]]);
        }
    }
}

/// Compares the keys of two rows.
pub fn compare_join_keys(
    left: &Row,
    right: &Row,
    left_indices: &[usize],
    right_indices: &[usize],
) -> (r: Comparison)
    requires
        left_indices@.len() == right_indices@.len(),
        in_bounds(positions(left_indices@), left@.len() as int),
        in_bounds(positions(right_indices@), right@.len() as int),
    ensures
        r == key_order(
            pick(left@, positions(left_indices@)),
            pick(right@, positions(right_indices@)),
        ),
{
    let ghost la = positions(left_indices@);
    let ghost ra = positions(right_indices@);
    let ghost a = pick(left@, la);
    let ghost b = pick(right@, ra);
    let lv = left.values();
    let rv = right.values();
    let mut i: usize = 0;
    proof {
        assert(a.skip(0) =~= a);
        assert(b.skip(0) =~= b);
        assert(values_of(lv@).len() == lv@.len());
        assert(values_of(rv@).len() == rv@.len());
    }
    while i < left_indices.len()
        invariant
            i <= left_indices@.len(),
            left_indices@.len() == right_indices@.len(),
            la == positions(left_indices@),
            ra == positions(right_indices@),
            a == pick(left@, la),
            b == pick(right@, ra),
            values_of(lv@) == left@,
            values_of(rv@) == right@,
            values_of(lv@).len() == lv@.len(),
            values_of(rv@).len() == rv@.len(),
            in_bounds(la, left@.len() as int),
            in_bounds(ra, right@.len() as int),
            key_order(a, b) == key_order(a.skip(i as int), b.skip(i as int)),
        decreases left_indices@.len() - i,
    {
        proof {
            assert(la[i as int] == left_indices@[i as int]);
            assert(ra[i as int] == right_indices@[i as int]);
            assert(a.skip(i as int)[0] == left@[la[i as int]]);
            assert(b.skip(i as int)[0] == right@[ra[i as int]]);
            assert(a.skip(i as int).drop_first() =~= a.skip(i + 1));
            assert(b.skip(i as int).drop_first() =~= b.skip(i + 1));
        }
        let c = compare_data_ord(&lv[left_indices[i]], &rv[right_indices[i]]);
        match c {
            Comparison::Equal => {},
            _ => {
                return c;
            },
        }
        i += 1;
    }
    Comparison::Equal
}

/// Compares the keys of two rows of one side.
pub fn compare_same_side_keys(row: &Row, key_row: &Row, indices: &[usize]) -> (r: Comparison)
    requires
        in_bounds(positions(indices@), row@.len() as int),
        in_bounds(positions(indices@), key_row@.len() as int),
    ensures
        r == key_order(pick(row@, positions(indices@)), pick(key_row@, positions(indices@))),
{
    compare_join_keys(row, key_row, indices, indices)
}

} // verus!

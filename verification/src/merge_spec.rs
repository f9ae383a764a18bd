//! Merging two sorted relations.

use vstd::multiset::Multiset;
use vstd::prelude::*;
use crate::floats::Comparison;
use crate::join_spec::{JoinOn, join_of, join_splits_left, join_splits_right, joins, keys_match, left_with, lemma_join_empty_right, lemma_join_push_left, lemma_join_push_right, right_with};
use crate::key_ordering::{key_order_flips, key_order_is_transitive, key_typed};
use crate::ordering::key_order;
use crate::row::pick;
use crate::value::{DataType, Value};

verus! {

/// How the key of a left row compares with that of a right row.
pub open spec fn cross(on: JoinOn, l: Seq<Value>, r: Seq<Value>) -> Comparison {
    key_order(pick(l, on.left_keys), pick(r, on.right_keys))
}

/// Whether the keys of rows have the given types, and none is a NaN.
pub open spec fn keys_typed(types: Seq<DataType>, at: Seq<int>, rows: Seq<Seq<Value>>) -> bool {
    forall|i: int| 0 <= i < rows.len() ==> key_typed(types, pick(#[trigger] rows[i], at))
}

/// Whether the keys of both sides have the same types, and none is a NaN.
pub open spec fn keys_comparable(on: JoinOn, ls: Seq<Seq<Value>>, rs: Seq<Seq<Value>>) -> bool {
    exists|types: Seq<DataType>|
        keys_typed(types, on.left_keys, ls) && #[trigger] keys_typed(types, on.right_keys, rs)
}

/// Whether no row of one bag is after a row.
pub open spec fn leads(at: Seq<int>, row: Seq<Value>, bag: Multiset<Seq<Value>>) -> bool {
    forall|y: Seq<Value>| #[trigger]
        bag.count(y) > 0 ==> key_order(pick(row, at), pick(y, at)) != Comparison::Greater
}

/// Whether what was passed on either side comes before what is left of the other side.
pub open spec fn passed_by(
    on: JoinOn,
    dl: Seq<Seq<Value>>,
    dr: Seq<Seq<Value>>,
    left_rest: Multiset<Seq<Value>>,
    right_rest: Multiset<Seq<Value>>,
) -> bool {
    &&& forall|i: int, y: Seq<Value>|
        0 <= i < dl.len() && #[trigger] right_rest.count(y) > 0 ==> cross(
            on,
            #[trigger] dl[i],
            y,
        ) == Comparison::Less
    &&& forall|j: int, x: Seq<Value>|
        0 <= j < dr.len() && #[trigger] left_rest.count(x) > 0 ==> cross(
            on,
            x,
            #[trigger] dr[j],
        ) == Comparison::Greater
}

/// What two keys' comparison says of a third one: strictly before stays strictly before.
pub proof fn lemma_before(types: Seq<DataType>, a: Seq<Value>, b: Seq<Value>, c: Seq<Value>)
    requires
        key_typed(types, a),
        key_typed(types, b),
        key_typed(types, c),
    ensures
        key_order(a, b) == Comparison::Less && key_order(b, c) != Comparison::Greater ==> key_order(
            a,
            c,
        ) == Comparison::Less,
        key_order(a, b) != Comparison::Greater && key_order(b, c) == Comparison::Less ==> key_order(
            a,
            c,
        ) == Comparison::Less,
        key_order(a, b) == Comparison::Equal && key_order(b, c) == Comparison::Equal ==> key_order(
            a,
            c,
        ) == Comparison::Equal,
{
    if key_order(a, b) != Comparison::Greater && key_order(b, c) != Comparison::Greater {
        key_order_is_transitive(types, a, b, c);
    }
}

/// Where no pair joins, one row adds nothing.
pub proof fn lemma_left_none(on: JoinOn, l: Seq<Value>, rs: Seq<Seq<Value>>)
    requires
        forall|j: int| 0 <= j < rs.len() ==> !joins(on, l, #[trigger] rs[j]),
    ensures
        left_with(on, l, rs) == Multiset::<Seq<Value>>::empty(),
    decreases rs.len(),
{
    if rs.len() > 0 {
        let init = rs.drop_last();
        assert forall|j: int| 0 <= j < init.len() implies !joins(on, l, #[trigger] init[j]) by {
            assert(init[j] == rs[j]);
        }
        lemma_left_none(on, l, init);
        assert(!joins(on, l, rs[rs.len() - 1]));
        assert(left_with(on, l, rs) =~= Multiset::<Seq<Value>>::empty());
    }
}

/// Where no pair joins, one row adds nothing.
pub proof fn lemma_right_none(on: JoinOn, ls: Seq<Seq<Value>>, r: Seq<Value>)
    requires
        forall|i: int| 0 <= i < ls.len() ==> !joins(on, #[trigger] ls[i], r),
    ensures
        right_with(on, ls, r) == Multiset::<Seq<Value>>::empty(),
    decreases ls.len(),
{
    if ls.len() > 0 {
        let init = ls.drop_last();
        assert forall|i: int| 0 <= i < init.len() implies !joins(on, #[trigger] init[i], r) by {
            assert(init[i] == ls[i]);
        }
        lemma_right_none(on, init, r);
        assert(!joins(on, ls[ls.len() - 1], r));
        assert(right_with(on, ls, r) =~= Multiset::<Seq<Value>>::empty());
    }
}

/// Where no pair joins, the join is empty.
pub proof fn lemma_join_none(on: JoinOn, ls: Seq<Seq<Value>>, rs: Seq<Seq<Value>>)
    requires
        forall|i: int, j: int|
            0 <= i < ls.len() && 0 <= j < rs.len() ==> !joins(
                on,
                #[trigger] ls[i],
                #[trigger] rs[j],
            ),
    ensures
        join_of(on, ls, rs) == Multiset::<Seq<Value>>::empty(),
    decreases ls.len(),
{
    if ls.len() > 0 {
        let init = ls.drop_last();
        assert forall|i: int, j: int|
            0 <= i < init.len() && 0 <= j < rs.len() implies !joins(
            on,
            #[trigger] init[i],
            #[trigger] rs[j],
        ) by {
            assert(init[i] == ls[i]);
        }
        lemma_join_none(on, init, rs);
        let last = ls[ls.len() - 1];
        assert forall|j: int| 0 <= j < rs.len() implies !joins(on, last, #[trigger] rs[j]) by {
            assert(!joins(on, ls[ls.len() - 1], rs[j]));
        }
        lemma_left_none(on, last, rs);
        assert(join_of(on, ls, rs) =~= Multiset::<Seq<Value>>::empty());
    }
}

proof fn lemma_take_out(rs: Seq<Seq<Value>>, x: Seq<Value>) -> (k: int)
    requires
        rs.to_multiset().count(x) > 0,
    ensures
        0 <= k < rs.len(),
        rs[k] == x,
        rs == rs.take(k).push(x) + rs.skip(k + 1),
        (rs.take(k) + rs.skip(k + 1)).to_multiset() == rs.to_multiset().remove(x),
{
    broadcast use vstd::seq_lib::group_to_multiset_ensures;

    assert(rs.contains(x));
    let k = choose|k: int| 0 <= k < rs.len() && rs[k] == x;
    assert(rs =~= rs.take(k).push(x) + rs.skip(k + 1));
    assert(rs.remove(k) =~= rs.take(k) + rs.skip(k + 1));
    vstd::seq_lib::to_multiset_remove(rs, k);
    k
}

/// Right rows that join nothing may be left out, and the order of the others does not matter.
pub proof fn lemma_join_covered_right(
    on: JoinOn,
    ls: Seq<Seq<Value>>,
    rs: Seq<Seq<Value>>,
    done: Seq<Seq<Value>>,
)
    requires
        done.to_multiset().subset_of(rs.to_multiset()),
        forall|y: Seq<Value>, i: int|
            0 <= i < ls.len() && #[trigger] rs.to_multiset().sub(done.to_multiset()).count(y) > 0
                ==> !joins(on, #[trigger] ls[i], y),
    ensures
        join_of(on, ls, rs) == join_of(on, ls, done),
    decreases done.len(),
{
    broadcast use vstd::seq_lib::group_to_multiset_ensures;

    if done.len() == 0 {
        assert(done =~= Seq::<Seq<Value>>::empty());
        lemma_join_empty_right(on, ls);
        assert forall|i: int, j: int|
            0 <= i < ls.len() && 0 <= j < rs.len() implies !joins(
            on,
            #[trigger] ls[i],
            #[trigger] rs[j],
        ) by {
            assert(rs.contains(rs[j]));
            assert(done.to_multiset().count(rs[j]) == 0);
            assert(rs.to_multiset().sub(done.to_multiset()).count(rs[j]) > 0);
        }
        lemma_join_none(on, ls, rs);
    } else {
        let x = done.last();
        let init = done.drop_last();
        assert(done =~= init.push(x));
        vstd::seq_lib::to_multiset_build(init, x);
        assert(done.to_multiset() == init.to_multiset().insert(x));
        assert(done.to_multiset().count(x) > 0);
        let k = lemma_take_out(rs, x);
        let less = rs.take(k) + rs.skip(k + 1);
        assert(less.to_multiset().sub(init.to_multiset()) =~= rs.to_multiset().sub(
            done.to_multiset(),
        ));
        assert(init.to_multiset().subset_of(less.to_multiset()));
        lemma_join_covered_right(on, ls, less, init);
        join_splits_right(on, ls, rs.take(k).push(x), rs.skip(k + 1));
        join_splits_right(on, ls, rs.take(k), rs.skip(k + 1));
        lemma_join_push_right(on, ls, rs.take(k), x);
        lemma_join_push_right(on, ls, init, x);
        assert(join_of(on, ls, rs) =~= join_of(on, ls, done));
    }
}

/// Left rows that join nothing may be left out, and the order of the others does not matter.
pub proof fn lemma_join_covered_left(
    on: JoinOn,
    ls: Seq<Seq<Value>>,
    rs: Seq<Seq<Value>>,
    done: Seq<Seq<Value>>,
)
    requires
        done.to_multiset().subset_of(ls.to_multiset()),
        forall|x: Seq<Value>, j: int|
            0 <= j < rs.len() && #[trigger] ls.to_multiset().sub(done.to_multiset()).count(x) > 0
                ==> !joins(on, x, #[trigger] rs[j]),
    ensures
        join_of(on, ls, rs) == join_of(on, done, rs),
    decreases done.len(),
{
    broadcast use vstd::seq_lib::group_to_multiset_ensures;

    if done.len() == 0 {
        assert(done =~= Seq::<Seq<Value>>::empty());
        assert forall|i: int, j: int|
            0 <= i < ls.len() && 0 <= j < rs.len() implies !joins(
            on,
            #[trigger] ls[i],
            #[trigger] rs[j],
        ) by {
            assert(ls.contains(ls[i]));
            assert(done.to_multiset().count(ls[i]) == 0);
            assert(ls.to_multiset().sub(done.to_multiset()).count(ls[i]) > 0);
        }
        lemma_join_none(on, ls, rs);
    } else {
        let x = done.last();
        let init = done.drop_last();
        assert(done =~= init.push(x));
        vstd::seq_lib::to_multiset_build(init, x);
        assert(done.to_multiset() == init.to_multiset().insert(x));
        assert(done.to_multiset().count(x) > 0);
        let k = lemma_take_out(ls, x);
        let less = ls.take(k) + ls.skip(k + 1);
        assert(less.to_multiset().sub(init.to_multiset()) =~= ls.to_multiset().sub(
            done.to_multiset(),
        ));
        assert(init.to_multiset().subset_of(less.to_multiset()));
        lemma_join_covered_left(on, less, rs, init);
        join_splits_left(on, ls.take(k).push(x), ls.skip(k + 1), rs);
        join_splits_left(on, ls.take(k), ls.skip(k + 1), rs);
        lemma_join_push_left(on, ls.take(k), x, rs);
        lemma_join_push_left(on, init, x, rs);
        assert(join_of(on, ls, rs) =~= join_of(on, done, rs));
    }
}

/// A join depends on its inputs as bags alone.
pub proof fn join_ignores_order(
    on: JoinOn,
    ls: Seq<Seq<Value>>,
    rs: Seq<Seq<Value>>,
    ls2: Seq<Seq<Value>>,
    rs2: Seq<Seq<Value>>,
)
    requires
        ls.to_multiset() == ls2.to_multiset(),
        rs.to_multiset() == rs2.to_multiset(),
    ensures
        join_of(on, ls, rs) == join_of(on, ls2, rs2),
{
    lemma_join_covered_left(on, ls, rs, ls2);
    lemma_join_covered_right(on, ls2, rs, rs2);
}

/// Where the keys of all pairs match, a join is as one without keys.
pub proof fn lemma_join_without_keys(
    on: JoinOn,
    bare: JoinOn,
    ls: Seq<Seq<Value>>,
    rs: Seq<Seq<Value>>,
)
    requires
        on.extra == bare.extra,
        forall|i: int, j: int|
            0 <= i < ls.len() && 0 <= j < rs.len() ==> keys_match(
                on,
                #[trigger] ls[i],
                #[trigger] rs[j],
            ) == keys_match(bare, ls[i], rs[j]),
    ensures
        join_of(on, ls, rs) == join_of(bare, ls, rs),
    decreases ls.len(), rs.len(),
{
    if ls.len() > 0 {
        let init = ls.drop_last();
        assert forall|i: int, j: int|
            0 <= i < init.len() && 0 <= j < rs.len() implies keys_match(
            on,
            #[trigger] init[i],
            #[trigger] rs[j],
        ) == keys_match(bare, init[i], rs[j]) by {
            assert(init[i] == ls[i]);
        }
        lemma_join_without_keys(on, bare, init, rs);
        let last = ls[ls.len() - 1];
        assert forall|j: int| 0 <= j < rs.len() implies keys_match(on, last, #[trigger] rs[j])
            == keys_match(bare, last, rs[j]) by {
            assert(keys_match(on, ls[ls.len() - 1], rs[j]) == keys_match(
                bare,
                ls[ls.len() - 1],
                rs[j],
            ));
        }
        lemma_left_without_keys(on, bare, last, rs);
    }
}

proof fn lemma_left_without_keys(on: JoinOn, bare: JoinOn, l: Seq<Value>, rs: Seq<Seq<Value>>)
    requires
        on.extra == bare.extra,
        forall|j: int|
            0 <= j < rs.len() ==> keys_match(on, l, #[trigger] rs[j]) == keys_match(bare, l, rs[j]),
    ensures
        left_with(on, l, rs) == left_with(bare, l, rs),
    decreases rs.len(),
{
    if rs.len() > 0 {
        let init = rs.drop_last();
        assert forall|j: int| 0 <= j < init.len() implies keys_match(on, l, #[trigger] init[j])
            == keys_match(bare, l, init[j]) by {
            assert(init[j] == rs[j]);
        }
        lemma_left_without_keys(on, bare, l, init);
        assert(keys_match(on, l, rs[rs.len() - 1]) == keys_match(bare, l, rs[rs.len() - 1]));
    }
}

/// The join without keys: every pair that passes the tests.
pub open spec fn keyless(on: JoinOn) -> JoinOn {
    JoinOn { left_keys: Seq::empty(), right_keys: Seq::empty(), extra: on.extra, by_order: false }
}

/// Passing a left row that comes before the foremost right row.
pub proof fn lemma_pass_left(
    on: JoinOn,
    types: Seq<DataType>,
    dl: Seq<Seq<Value>>,
    dr: Seq<Seq<Value>>,
    lr: Multiset<Seq<Value>>,
    rr: Multiset<Seq<Value>>,
    l: Seq<Value>,
    r: Seq<Value>,
)
    requires
        on.by_order,
        passed_by(on, dl, dr, lr, rr),
        lr.count(l) > 0,
        key_typed(types, pick(l, on.left_keys)),
        key_typed(types, pick(r, on.right_keys)),
        forall|y: Seq<Value>| #[trigger]
            rr.count(y) > 0 ==> key_typed(types, pick(y, on.right_keys)),
        leads(on.right_keys, r, rr),
        cross(on, l, r) == Comparison::Less,
    ensures
        passed_by(on, dl.push(l), dr, lr.remove(l), rr),
        join_of(on, dl.push(l), dr) == join_of(on, dl, dr),
{
    let dl2 = dl.push(l);
    assert forall|i: int, y: Seq<Value>|
        0 <= i < dl2.len() && #[trigger] rr.count(y) > 0 implies cross(on, #[trigger] dl2[i], y)
        == Comparison::Less by {
        if i == dl.len() {
            lemma_before(
                types,
                pick(l, on.left_keys),
                pick(r, on.right_keys),
                pick(y, on.right_keys),
            );
        } else {
            assert(dl2[i] == dl[i]);
        }
    }
    assert forall|j: int, x: Seq<Value>|
        0 <= j < dr.len() && #[trigger] lr.remove(l).count(x) > 0 implies cross(
        on,
        x,
        #[trigger] dr[j],
    ) == Comparison::Greater by {
        assert(lr.count(x) > 0);
    }
    assert forall|j: int| 0 <= j < dr.len() implies !joins(on, l, #[trigger] dr[j]) by {
        assert(lr.count(l) > 0);
        assert(cross(on, l, dr[j]) == Comparison::Greater);
    }
    lemma_left_none(on, l, dr);
    lemma_join_push_left(on, dl, l, dr);
    assert(join_of(on, dl2, dr) =~= join_of(on, dl, dr));
}

/// Passing a right row that comes before the foremost left row.
pub proof fn lemma_pass_right(
    on: JoinOn,
    types: Seq<DataType>,
    dl: Seq<Seq<Value>>,
    dr: Seq<Seq<Value>>,
    lr: Multiset<Seq<Value>>,
    rr: Multiset<Seq<Value>>,
    l: Seq<Value>,
    r: Seq<Value>,
)
    requires
        on.by_order,
        passed_by(on, dl, dr, lr, rr),
        rr.count(r) > 0,
        key_typed(types, pick(l, on.left_keys)),
        key_typed(types, pick(r, on.right_keys)),
        forall|x: Seq<Value>| #[trigger]
            lr.count(x) > 0 ==> key_typed(types, pick(x, on.left_keys)),
        leads(on.left_keys, l, lr),
        cross(on, l, r) == Comparison::Greater,
    ensures
        passed_by(on, dl, dr.push(r), lr, rr.remove(r)),
        join_of(on, dl, dr.push(r)) == join_of(on, dl, dr),
{
    let dr2 = dr.push(r);
    let kl = pick(l, on.left_keys);
    let kr = pick(r, on.right_keys);
    key_order_flips(kl, kr);
    assert forall|j: int, x: Seq<Value>|
        0 <= j < dr2.len() && #[trigger] lr.count(x) > 0 implies cross(on, x, #[trigger] dr2[j])
        == Comparison::Greater by {
        if j == dr.len() {
            let kx = pick(x, on.left_keys);
            lemma_before(types, kr, kl, kx);
            key_order_flips(kx, kr);
        } else {
            assert(dr2[j] == dr[j]);
        }
    }
    assert forall|i: int, y: Seq<Value>|
        0 <= i < dl.len() && #[trigger] rr.remove(r).count(y) > 0 implies cross(
        on,
        #[trigger] dl[i],
        y,
    ) == Comparison::Less by {
        assert(rr.count(y) > 0);
    }
    assert forall|i: int| 0 <= i < dl.len() implies !joins(on, #[trigger] dl[i], r) by {
        assert(rr.count(r) > 0);
        assert(cross(on, dl[i], r) == Comparison::Less);
    }
    lemma_right_none(on, dl, r);
    lemma_join_push_right(on, dl, dr, r);
    assert(join_of(on, dl, dr2) =~= join_of(on, dl, dr));
}

/// Whether rows have the key of a row, and what is left comes after it.
pub open spec fn is_group(
    at: Seq<int>,
    key: Seq<Value>,
    group: Seq<Seq<Value>>,
    rest: Multiset<Seq<Value>>,
) -> bool {
    &&& forall|i: int|
        0 <= i < group.len() ==> key_order(key, pick(#[trigger] group[i], at)) == Comparison::Equal
    &&& forall|y: Seq<Value>| #[trigger]
        rest.count(y) > 0 ==> key_order(key, pick(y, at)) == Comparison::Less
}

/// Passing a group of rows on either side that all have one key.
pub proof fn lemma_pass_groups(
    on: JoinOn,
    types: Seq<DataType>,
    dl: Seq<Seq<Value>>,
    dr: Seq<Seq<Value>>,
    lr: Multiset<Seq<Value>>,
    rr: Multiset<Seq<Value>>,
    gl: Seq<Seq<Value>>,
    gr: Seq<Seq<Value>>,
    kl: Seq<Value>,
    kr: Seq<Value>,
)
    requires
        on.by_order,
        passed_by(on, dl, dr, lr, rr),
        gl.to_multiset().subset_of(lr),
        gr.to_multiset().subset_of(rr),
        key_typed(types, kl),
        key_typed(types, kr),
        key_order(kl, kr) == Comparison::Equal,
        forall|x: Seq<Value>| #[trigger]
            lr.count(x) > 0 ==> key_typed(types, pick(x, on.left_keys)),
        forall|y: Seq<Value>| #[trigger]
            rr.count(y) > 0 ==> key_typed(types, pick(y, on.right_keys)),
        is_group(on.left_keys, kl, gl, lr.sub(gl.to_multiset())),
        is_group(on.right_keys, kr, gr, rr.sub(gr.to_multiset())),
    ensures
        passed_by(on, dl + gl, dr + gr, lr.sub(gl.to_multiset()), rr.sub(gr.to_multiset())),
        join_of(on, dl + gl, dr + gr) == join_of(on, dl, dr).add(join_of(keyless(on), gl, gr)),
{
    broadcast use vstd::seq_lib::group_to_multiset_ensures;

    let lr2 = lr.sub(gl.to_multiset());
    let rr2 = rr.sub(gr.to_multiset());
    let dl2 = dl + gl;
    let dr2 = dr + gr;
    key_order_flips(kl, kr);
    assert forall|i: int| 0 <= i < gl.len() implies lr.count(#[trigger] gl[i]) > 0 by {
        assert(gl.contains(gl[i]));
        assert(gl.to_multiset().count(gl[i]) > 0);
    }
    assert forall|j: int| 0 <= j < gr.len() implies rr.count(#[trigger] gr[j]) > 0 by {
        assert(gr.contains(gr[j]));
        assert(gr.to_multiset().count(gr[j]) > 0);
    }
    assert forall|i: int, y: Seq<Value>|
        0 <= i < dl2.len() && #[trigger] rr2.count(y) > 0 implies cross(on, #[trigger] dl2[i], y)
        == Comparison::Less by {
        assert(rr.count(y) > 0);
        if i < dl.len() {
            assert(dl2[i] == dl[i]);
        } else {
            let g = gl[i - dl.len()];
            assert(dl2[i] == g);
            assert(lr.count(g) > 0);
            let kg = pick(g, on.left_keys);
            let ky = pick(y, on.right_keys);
            key_order_flips(kl, kg);
            lemma_before(types, kl, kr, ky);
            lemma_before(types, kg, kl, ky);
        }
    }
    assert forall|j: int, x: Seq<Value>|
        0 <= j < dr2.len() && #[trigger] lr2.count(x) > 0 implies cross(on, x, #[trigger] dr2[j])
        == Comparison::Greater by {
        assert(lr.count(x) > 0);
        if j < dr.len() {
            assert(dr2[j] == dr[j]);
        } else {
            let g = gr[j - dr.len()];
            assert(dr2[j] == g);
            assert(rr.count(g) > 0);
            let kg = pick(g, on.right_keys);
            let kx = pick(x, on.left_keys);
            key_order_flips(kr, kg);
            lemma_before(types, kr, kl, kx);
            lemma_before(types, kg, kr, kx);
            key_order_flips(kx, kg);
        }
    }
    assert forall|i: int, j: int|
        0 <= i < dl.len() && 0 <= j < gr.len() implies !joins(
        on,
        #[trigger] dl[i],
        #[trigger] gr[j],
    ) by {
        assert(rr.count(gr[j]) > 0);
        assert(cross(on, dl[i], gr[j]) == Comparison::Less);
    }
    lemma_join_none(on, dl, gr);
    assert forall|i: int, j: int|
        0 <= i < gl.len() && 0 <= j < dr.len() implies !joins(
        on,
        #[trigger] gl[i],
        #[trigger] dr[j],
    ) by {
        assert(lr.count(gl[i]) > 0);
        assert(cross(on, gl[i], dr[j]) == Comparison::Greater);
    }
    lemma_join_none(on, gl, dr);
    assert forall|i: int, j: int|
        0 <= i < gl.len() && 0 <= j < gr.len() implies keys_match(
        on,
        #[trigger] gl[i],
        #[trigger] gr[j],
    ) == keys_match(keyless(on), gl[i], gr[j]) by {
        assert(lr.count(gl[i]) > 0 && rr.count(gr[j]) > 0);
        let ka = pick(gl[i], on.left_keys);
        let kb = pick(gr[j], on.right_keys);
        key_order_flips(kl, ka);
        lemma_before(types, ka, kl, kr);
        lemma_before(types, ka, kr, kb);
        assert(pick(gl[i], keyless(on).left_keys) =~= pick(gr[j], keyless(on).right_keys));
    }
    lemma_join_without_keys(on, keyless(on), gl, gr);
    join_splits_left(on, dl, gl, dr + gr);
    join_splits_right(on, dl, dr, gr);
    join_splits_right(on, gl, dr, gr);
    assert(join_of(on, dl2, dr2) =~= join_of(on, dl, dr).add(join_of(keyless(on), gl, gr)));
}

/// When one side has been passed as a whole, what was passed makes the whole join.
pub proof fn lemma_merged(
    on: JoinOn,
    ls: Seq<Seq<Value>>,
    rs: Seq<Seq<Value>>,
    dl: Seq<Seq<Value>>,
    dr: Seq<Seq<Value>>,
)
    requires
        on.by_order,
        dl.to_multiset().subset_of(ls.to_multiset()),
        dr.to_multiset().subset_of(rs.to_multiset()),
        passed_by(
            on,
            dl,
            dr,
            ls.to_multiset().sub(dl.to_multiset()),
            rs.to_multiset().sub(dr.to_multiset()),
        ),
        dl.to_multiset() == ls.to_multiset() || dr.to_multiset() == rs.to_multiset(),
    ensures
        join_of(on, dl, dr) == join_of(on, ls, rs),
{
    let lr = ls.to_multiset().sub(dl.to_multiset());
    let rr = rs.to_multiset().sub(dr.to_multiset());
    assert forall|y: Seq<Value>, i: int|
        0 <= i < dl.len() && #[trigger] rr.count(y) > 0 implies !joins(on, #[trigger] dl[i], y) by {
        assert(cross(on, dl[i], y) == Comparison::Less);
    }
    assert forall|x: Seq<Value>, j: int|
        0 <= j < dr.len() && #[trigger] lr.count(x) > 0 implies !joins(on, x, #[trigger] dr[j]) by {
        assert(cross(on, x, dr[j]) == Comparison::Greater);
    }
    if dl.to_multiset() == ls.to_multiset() {
        lemma_join_covered_left(on, ls, rs, dl);
        lemma_join_covered_right(on, dl, rs, dr);
    } else {
        lemma_join_covered_right(on, ls, rs, dr);
        lemma_join_covered_left(on, ls, dr, dl);
    }
}

} // verus!

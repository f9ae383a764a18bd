//! What a join gives, counted by pairs of rows.

use vstd::prelude::*;
use crate::adaptive_join::{AdaptiveEquiJoinOperator, prefers_left};
use crate::adaptive_spec::{JoinOutputMode, SemijoinKeepSide, has_partner, output_of, semijoin_of};
use crate::filter::{Test, row_passes};
use crate::filter_laws::{all_true_of, is_true_of, right_side, rows_pass_where_all_is_true, same};
use crate::floats::Comparison;
use crate::float_laws::{is_number64, number64, order64_is_numeric};
use crate::join_builder::{JoinOperator, joined_on, keep_mode};
use crate::join_plan::{equated, key_pairs, residual};
use crate::join_spec::{JoinOn, join_of, joins, left_with};
use crate::key_ordering::key_typed;
use crate::loop_join::spills_left;
use crate::ordering::key_order;
use crate::pipeline::tests_of;
use crate::query::{ComparisionOperator, ComparisionValue, Condition, Predicate, conditions};
use crate::row::{column_position, column_position_is_first, column_position_unique, pick};
use crate::temp_storage::TempStorageManager;
use crate::value::{DataType, Value, has_type, order_of};
use crate::value_laws::{is_of, sorting_follows_the_order};

verus! {

/// Whether the key columns of two rows hold the same values, one by one.
pub open spec fn keys_agree_on(on: JoinOn, l: Seq<Value>, r: Seq<Value>) -> bool {
    &&& on.left_keys.len() == on.right_keys.len()
    &&& forall|k: int|
        0 <= k < on.left_keys.len() ==> l[#[trigger] on.left_keys[k]] == r[on.right_keys[k]]
}

/// Whether two rows belong together: their keys agree, and the row of both passes the tests.
pub open spec fn belong(on: JoinOn, l: Seq<Value>, r: Seq<Value>) -> bool {
    keys_agree_on(on, l, r) && row_passes(on.extra, l + r) == Some(true)
}

/// The places of the pairs of rows that belong together and make up a given row, the left one
/// first.
pub open spec fn pairs_of(
    on: JoinOn,
    ls: Seq<Seq<Value>>,
    rs: Seq<Seq<Value>>,
    row: Seq<Value>,
) -> Set<(int, int)> {
    Set::new(
        |p: (int, int)|
            0 <= p.0 < ls.len() && 0 <= p.1 < rs.len() && belong(on, ls[p.0], rs[p.1]) && ls[p.0]
                + rs[p.1] == row,
    )
}

proof fn lemma_belong(on: JoinOn, l: Seq<Value>, r: Seq<Value>)
    requires
        !on.by_order,
    ensures
        joins(on, l, r) <==> belong(on, l, r),
{
    let a = pick(l, on.left_keys);
    let b = pick(r, on.right_keys);
    if a == b {
        assert(a.len() == b.len());
        assert forall|k: int| 0 <= k < on.left_keys.len() implies l[#[trigger] on.left_keys[k]]
            == r[on.right_keys[k]] by {
            assert(a[k] == b[k]);
        }
    }
    if keys_agree_on(on, l, r) {
        assert forall|k: int| 0 <= k < a.len() implies a[k] == b[k] by {
            assert(l[on.left_keys[k]] == r[on.right_keys[k]]);
        }
        assert(a =~= b);
    }
}

/// The places of the right rows that a left row makes up a given row with.
spec fn partners(on: JoinOn, l: Seq<Value>, rs: Seq<Seq<Value>>, at: int, row: Seq<Value>) -> Set<
    (int, int),
> {
    Set::new(
        |p: (int, int)|
            p.0 == at && 0 <= p.1 < rs.len() && belong(on, l, rs[p.1]) && l + rs[p.1] == row,
    )
}

proof fn lemma_partners(on: JoinOn, l: Seq<Value>, rs: Seq<Seq<Value>>, at: int, row: Seq<Value>)
    requires
        !on.by_order,
    ensures
        partners(on, l, rs, at, row).finite(),
        left_with(on, l, rs).count(row) == partners(on, l, rs, at, row).len(),
    decreases rs.len(),
{
    let now = partners(on, l, rs, at, row);
    if rs.len() == 0 {
        assert(now =~= Set::empty());
    } else {
        let init = rs.drop_last();
        let before = partners(on, l, init, at, row);
        let last = rs.len() - 1;
        lemma_partners(on, l, init, at, row);
        lemma_belong(on, l, rs.last());
        if joins(on, l, rs.last()) && l + rs.last() == row {
            assert(now =~= before.insert((at, last)));
            assert(!before.contains((at, last)));
        } else {
            assert(now =~= before);
        }
    }
}

/// A join gives a row as often as there are pairs of a left and a right row that belong together
/// and make it up: no pair is left out, none counts twice, and nothing else comes out.
pub proof fn join_gives_each_pair_once(
    on: JoinOn,
    ls: Seq<Seq<Value>>,
    rs: Seq<Seq<Value>>,
    row: Seq<Value>,
)
    requires
        !on.by_order,
    ensures
        pairs_of(on, ls, rs, row).finite(),
        join_of(on, ls, rs).count(row) == pairs_of(on, ls, rs, row).len(),
    decreases ls.len(),
{
    let now = pairs_of(on, ls, rs, row);
    if ls.len() == 0 {
        assert(now =~= Set::empty());
    } else {
        let init = ls.drop_last();
        let last = ls.len() - 1;
        let before = pairs_of(on, init, rs, row);
        let more = partners(on, ls.last(), rs, last, row);
        join_gives_each_pair_once(on, init, rs, row);
        lemma_partners(on, ls.last(), rs, last, row);
        assert(now =~= before.union(more));
        assert(before.disjoint(more));
        vstd::set_lib::lemma_set_disjoint_lens(before, more);
    }
}

/// A semijoin gives each row of the side that it keeps as often as it occurs there, if it belongs
/// together with a row of the other side, and no other row.
pub proof fn semijoin_keeps_rows_with_a_partner(
    on: JoinOn,
    keep_left: bool,
    kept: Seq<Seq<Value>>,
    others: Seq<Seq<Value>>,
    row: Seq<Value>,
)
    requires
        !on.by_order,
    ensures
        semijoin_of(on, keep_left, kept, others).count(row) == (if exists|j: int|
            0 <= j < others.len() && if keep_left {
                belong(on, row, #[trigger] others[j])
            } else {
                belong(on, others[j], row)
            } {
            kept.to_multiset().count(row)
        } else {
            0
        }),
    decreases kept.len(),
{
    broadcast use vstd::seq_lib::group_to_multiset_ensures;

    assert forall|j: int| 0 <= j < others.len() implies (if keep_left {
        belong(on, row, #[trigger] others[j]) <==> joins(on, row, others[j])
    } else {
        belong(on, others[j], row) <==> joins(on, others[j], row)
    }) by {
        lemma_belong(on, row, others[j]);
        lemma_belong(on, others[j], row);
    }
    if kept.len() > 0 {
        let init = kept.drop_last();
        semijoin_keeps_rows_with_a_partner(on, keep_left, init, others, row);
        assert(kept =~= init.push(kept.last()));
        if kept.last() == row {
            if has_partner(on, keep_left, row, others) {
                let j = choose|j: int|
                    0 <= j < others.len() && if keep_left {
                        joins(on, row, #[trigger] others[j])
                    } else {
                        joins(on, others[j], row)
                    };
                assert(0 <= j < others.len());
                if keep_left {
                    assert(belong(on, row, others[j]));
                } else {
                    assert(belong(on, others[j], row));
                }
            }
        }
    }
}

/// Whether a predicate asks that a column of one side equals a column of the other side.
pub open spec fn links_sides(ls: Seq<Seq<char>>, rs: Seq<Seq<char>>, p: Predicate) -> bool {
    p.operator == ComparisionOperator::EQ && (p.value matches ComparisionValue::Column(other) && ((
    ls.contains(p.column_name@) && rs.contains(other@)) || (rs.contains(p.column_name@)
        && ls.contains(other@))))
}

/// Whether no column of one side has the name of a column of the other side.
pub open spec fn names_differ(ls: Seq<Seq<char>>, rs: Seq<Seq<char>>) -> bool {
    forall|c: Seq<char>| #[trigger] ls.contains(c) ==> !rs.contains(c)
}

proof fn lemma_position_in_both(ls: Seq<Seq<char>>, rs: Seq<Seq<char>>, c: Seq<char>)
    requires
        names_differ(ls, rs),
        ls.contains(c) || rs.contains(c),
    ensures
        ls.contains(c) ==> column_position(ls + rs, c) == column_position(ls, c) && 0
            <= column_position(ls, c) < ls.len(),
        rs.contains(c) ==> column_position(ls + rs, c) == ls.len() + column_position(rs, c) && 0
            <= column_position(rs, c) < rs.len(),
{
    let both = ls + rs;
    if ls.contains(c) {
        column_position_is_first(ls, c);
        let at = column_position(ls, c);
        assert(both[at] == ls[at]);
        assert forall|j: int| 0 <= j < at implies both[j] != c by {
            assert(both[j] == ls[j]);
        }
        column_position_unique(both, c, at);
    } else {
        column_position_is_first(rs, c);
        let at = column_position(rs, c);
        assert(both[ls.len() + at] == rs[at]);
        assert forall|j: int| 0 <= j < ls.len() + at implies both[j] != c by {
            if j < ls.len() {
                assert(both[j] == ls[j]);
                assert(ls.contains(ls[j]));
            } else {
                assert(both[j] == rs[j - ls.len()]);
            }
        }
        column_position_unique(both, c, ls.len() + at);
    }
}

/// Whether a predicate that links the sides is true of two rows exactly where the values of its
/// columns are the same.
pub open spec fn same_is_equal(
    ls: Seq<Seq<char>>,
    rs: Seq<Seq<char>>,
    l: Seq<Value>,
    r: Seq<Value>,
    p: Predicate,
) -> bool {
    let row = l + r;
    let a = row[column_position(ls + rs, p.column_name@)];
    let b = right_side(ls + rs, row, p.value);
    same(a, b) <==> a == b
}

proof fn lemma_split(
    ls: Seq<Seq<char>>,
    rs: Seq<Seq<char>>,
    ps: Seq<Predicate>,
    l: Seq<Value>,
    r: Seq<Value>,
)
    requires
        names_differ(ls, rs),
        l.len() == ls.len(),
        r.len() == rs.len(),
        forall|i: int|
            0 <= i < ps.len() && links_sides(ls, rs, #[trigger] ps[i]) ==> same_is_equal(
                ls,
                rs,
                l,
                r,
                ps[i],
            ),
    ensures
        ({
            let pairs = key_pairs(ls, rs, conditions(ps));
            let rest = residual(ls, rs, conditions(ps));
            all_true_of(ls + rs, l + r, ps) <==> (forall|k: int|
                0 <= k < pairs.len() ==> l[(#[trigger] pairs[k]).0] == r[pairs[k].1]) && row_passes(
                tests_of(ls + rs, rest),
                l + r,
            ) == Some(true)
        }),
    decreases ps.len(),
{
    let cs = conditions(ps);
    let both = ls + rs;
    let row = l + r;
    let pairs = key_pairs(ls, rs, cs);
    let rest = residual(ls, rs, cs);
    if ps.len() == 0 {
        assert(cs =~= Seq::<Condition>::empty());
        assert(tests_of(both, rest) =~= Seq::<Test>::empty());
    } else {
        let init = ps.drop_last();
        let p = ps.last();
        assert(cs.drop_last() =~= conditions(init));
        assert(cs.last() == p@);
        assert forall|i: int|
            0 <= i < init.len() && links_sides(ls, rs, #[trigger] init[i]) implies same_is_equal(
            ls,
            rs,
            l,
            r,
            init[i],
        ) by {
            assert(init[i] == ps[i]);
        }
        lemma_split(ls, rs, init, l, r);
        let old_pairs = key_pairs(ls, rs, conditions(init));
        let old_rest = residual(ls, rs, conditions(init));
        assert(all_true_of(both, row, ps) <==> all_true_of(both, row, init) && is_true_of(
            both,
            row,
            p,
        )) by {
            if all_true_of(both, row, ps) {
                assert forall|i: int| 0 <= i < init.len() implies is_true_of(
                    both,
                    row,
                    #[trigger] init[i],
                ) by {
                    assert(init[i] == ps[i]);
                }
                assert(is_true_of(both, row, ps[ps.len() - 1]));
            }
            if all_true_of(both, row, init) && is_true_of(both, row, p) {
                assert forall|i: int| 0 <= i < ps.len() implies is_true_of(
                    both,
                    row,
                    #[trigger] ps[i],
                ) by {
                    if i < init.len() {
                        assert(ps[i] == init[i]);
                    }
                }
            }
        }
        if equated(ls, rs, p@) is Some {
            let pair = equated(ls, rs, p@)->0;
            assert(links_sides(ls, rs, p));
            assert(same_is_equal(ls, rs, l, r, ps[ps.len() - 1]));
            let other = p.value->Column_0@;
            lemma_position_in_both(ls, rs, p.column_name@);
            lemma_position_in_both(ls, rs, other);
            assert(pairs == old_pairs.push(pair));
            assert(rest == old_rest);
            assert(is_true_of(both, row, p) <==> l[pair.0] == r[pair.1]);
            assert((forall|k: int| 0 <= k < pairs.len() ==> l[(#[trigger] pairs[k]).0] == r[pairs[
            k].1]) <==> (forall|k: int|
                0 <= k < old_pairs.len() ==> l[(#[trigger] old_pairs[k]).0] == r[old_pairs[k].1])
                && l[pair.0] == r[pair.1]) by {
                if forall|k: int|
                    0 <= k < pairs.len() ==> l[(#[trigger] pairs[k]).0] == r[pairs[k].1] {
                    assert forall|k: int| 0 <= k < old_pairs.len() implies l[(
                    #[trigger] old_pairs[k]).0] == r[old_pairs[k].1] by {
                        assert(pairs[k] == old_pairs[k]);
                    }
                    assert(pairs[old_pairs.len() as int] == pair);
                }
                if (forall|k: int|
                    0 <= k < old_pairs.len() ==> l[(#[trigger] old_pairs[k]).0]
                        == r[old_pairs[k].1]) && l[pair.0] == r[pair.1] {
                    assert forall|k: int| 0 <= k < pairs.len() implies l[(#[trigger] pairs[k]).0]
                        == r[pairs[k].1] by {
                        if k < old_pairs.len() {
                            assert(pairs[k] == old_pairs[k]);
                        }
                    }
                }
            }
        } else {
            assert(pairs == old_pairs);
            assert(rest == old_rest.push(p@));
            lemma_pushed_test(both, old_rest, p, row);
        }
    }
}

proof fn lemma_pushed_test(
    columns: Seq<Seq<char>>,
    cs: Seq<Condition>,
    p: Predicate,
    row: Seq<Value>,
)
    ensures
        row_passes(tests_of(columns, cs.push(p@)), row) == Some(true) <==> row_passes(
            tests_of(columns, cs),
            row,
        ) == Some(true) && is_true_of(columns, row, p),
{
    let one = Seq::<Predicate>::empty().push(p);
    rows_pass_where_all_is_true(columns, row, one);
    assert(conditions(one) =~= Seq::<Condition>::empty().push(p@));
    assert(all_true_of(columns, row, one) <==> is_true_of(columns, row, p)) by {
        if all_true_of(columns, row, one) {
            assert(is_true_of(columns, row, one[0]));
        }
    }
    crate::answer::lemma_passes_named(columns, cs.push(p@), row);
    crate::answer::lemma_passes_named(columns, cs, row);
    crate::answer::lemma_passes_named(columns, Seq::<Condition>::empty().push(p@), row);
    let at = crate::answer::named(columns, row);
    let all = cs.push(p@);
    let single = Seq::<Condition>::empty().push(p@);
    assert(crate::answer::all_met(all, at) <==> crate::answer::all_met(cs, at)
        && crate::answer::is_met(p@, at)) by {
        if crate::answer::all_met(all, at) {
            assert forall|i: int| 0 <= i < cs.len() implies crate::answer::is_met(
                #[trigger] cs[i],
                at,
            ) by {
                assert(all[i] == cs[i]);
            }
            assert(all[cs.len() as int] == p@);
        }
        if crate::answer::all_met(cs, at) && crate::answer::is_met(p@, at) {
            assert forall|i: int| 0 <= i < all.len() implies crate::answer::is_met(
                #[trigger] all[i],
                at,
            ) by {
                if i < cs.len() {
                    assert(all[i] == cs[i]);
                }
            }
        }
    }
    assert(crate::answer::all_met(single, at) <==> crate::answer::is_met(p@, at)) by {
        if crate::answer::all_met(single, at) {
            assert(single[0] == p@);
        }
    }
}

/// Two rows belong together in a join made of predicates exactly where all predicates are true of
/// the row of both: those that equate columns of the sides, and the others.
pub proof fn joined_rows_meet_every_predicate(
    ls: Seq<Seq<char>>,
    rs: Seq<Seq<char>>,
    ps: Seq<Predicate>,
    l: Seq<Value>,
    r: Seq<Value>,
)
    requires
        names_differ(ls, rs),
        l.len() == ls.len(),
        r.len() == rs.len(),
        forall|i: int|
            0 <= i < ps.len() && links_sides(ls, rs, #[trigger] ps[i]) ==> same_is_equal(
                ls,
                rs,
                l,
                r,
                ps[i],
            ),
    ensures
        belong(joined_on(ls, rs, conditions(ps)), l, r) <==> all_true_of(ls + rs, l + r, ps),
{
    lemma_split(ls, rs, ps, l, r);
    let on = joined_on(ls, rs, conditions(ps));
    let pairs = key_pairs(ls, rs, conditions(ps));
    assert(on.extra =~= tests_of(ls + rs, residual(ls, rs, conditions(ps))));
    assert(keys_agree_on(on, l, r) <==> forall|k: int|
        0 <= k < pairs.len() ==> l[(#[trigger] pairs[k]).0] == r[pairs[k].1]) by {
        if keys_agree_on(on, l, r) {
            assert forall|k: int| 0 <= k < pairs.len() implies l[(#[trigger] pairs[k]).0]
                == r[pairs[k].1] by {
                assert(on.left_keys[k] == pairs[k].0);
            }
        }
        if forall|k: int| 0 <= k < pairs.len() ==> l[(#[trigger] pairs[k]).0] == r[pairs[k].1] {
            assert forall|k: int| 0 <= k < on.left_keys.len() implies l[#[trigger] on.left_keys[k]]
                == r[on.right_keys[k]] by {
                assert(on.left_keys[k] == pairs[k].0);
            }
        }
    }
}

/// Integers and texts of one type are equal only where they are the same.
pub proof fn exact_values_are_equal_where_they_are_the_same(a: Value, b: Value, t: DataType)
    requires
        is_of(a, t),
        is_of(b, t),
        t is Int32 || t is Int64 || t is String,
    ensures
        same(a, b) <==> a == b,
{
}

/// Which side a join with hints keeps at hand: the one that is expected to have no more rows than
/// the other; a semijoin takes the side that it does not keep.
pub proof fn the_smaller_side_is_kept_at_hand(l: u64, r: u64)
    requires
        is_number64(l),
        is_number64(r),
    ensures
        prefers_left(JoinOutputMode::Full, Some(l), Some(r)) <==> number64(l) <= number64(r),
        spills_left(Some(l), Some(r)) <==> number64(l) <= number64(r),
        !prefers_left(keep_mode(SemijoinKeepSide::Left), Some(l), Some(r)),
        prefers_left(keep_mode(SemijoinKeepSide::Right), Some(l), Some(r)),
{
    order64_is_numeric(l, r);
}

/// A semijoin gives rows of the side that it is told to keep.
pub proof fn semijoins_give_rows_of_the_kept_side(
    on: JoinOn,
    ls: Seq<Seq<Value>>,
    rs: Seq<Seq<Value>>,
    row: Seq<Value>,
)
    requires
        !on.by_order,
    ensures
        output_of(keep_mode(SemijoinKeepSide::Left), on, ls, rs).count(row) > 0 ==> ls.contains(row)
            && exists|j: int| 0 <= j < rs.len() && belong(on, row, #[trigger] rs[j]),
        output_of(keep_mode(SemijoinKeepSide::Right), on, ls, rs).count(row) > 0 ==> rs.contains(
            row,
        ) && exists|i: int| 0 <= i < ls.len() && belong(on, #[trigger] ls[i], row),
        output_of(JoinOutputMode::Full, on, ls, rs).count(row) == pairs_of(on, ls, rs, row).len(),
{
    broadcast use vstd::seq_lib::group_to_multiset_ensures;

    semijoin_keeps_rows_with_a_partner(on, true, ls, rs, row);
    semijoin_keeps_rows_with_a_partner(on, false, rs, ls, row);
    join_gives_each_pair_once(on, ls, rs, row);
}

/// A hash join or nested loop that came to its end has given out each row as often as pairs of its
/// inputs belong together and make it up.
pub proof fn ended_joins_gave_each_pair_once(
    op: &JoinOperator,
    storage: &TempStorageManager,
    row: Seq<Value>,
)
    requires
        op.is_plain(),
        op.inv(storage),
        op.ended(),
        !op.failed(),
        op.faithful(),
        !op.on().by_order,
    ensures
        op.emitted().count(row) == pairs_of(op.on(), op.left_rows(), op.right_rows(), row).len(),
{
    op.join_is_complete(storage);
    join_gives_each_pair_once(op.on(), op.left_rows(), op.right_rows(), row);
}

/// An adaptive join that came to its end has given out each row as often as pairs of its inputs
/// belong together and make it up, whichever way it went, where its keys are integers or texts.
pub proof fn ended_adaptive_joins_gave_each_pair_once(
    op: &AdaptiveEquiJoinOperator,
    storage: &TempStorageManager,
    types: Seq<DataType>,
    row: Seq<Value>,
)
    requires
        op.inv(storage),
        op.ended(),
        !op.failed(),
        op.faithful(),
        op.mode() is Full,
        !op.on().by_order,
        op.on().left_keys.len() == types.len(),
        op.on().right_keys.len() == types.len(),
        forall|k: int|
            0 <= k < types.len() ==> (#[trigger] types[k]) is Int32 || types[k] is Int64
                || types[k] is String,
        forall|i: int, k: int|
            #![trigger op.left_rows()[i], types[k]]
            0 <= i < op.left_rows().len() && 0 <= k < types.len() ==> is_of(
                op.left_rows()[i][op.on().left_keys[k]],
                types[k],
            ),
        forall|i: int, k: int|
            #![trigger op.right_rows()[i], types[k]]
            0 <= i < op.right_rows().len() && 0 <= k < types.len() ==> is_of(
                op.right_rows()[i][op.on().right_keys[k]],
                types[k],
            ),
    ensures
        op.emitted().count(row) == pairs_of(op.on(), op.left_rows(), op.right_rows(), row).len(),
{
    let on = op.on();
    assert forall|i: int| 0 <= i < op.left_rows().len() implies key_typed(
        types,
        pick(#[trigger] op.left_rows()[i], on.left_keys),
    ) by {
        lemma_exact_key(types, op.left_rows()[i], on.left_keys);
    }
    assert forall|i: int| 0 <= i < op.right_rows().len() implies key_typed(
        types,
        pick(#[trigger] op.right_rows()[i], on.right_keys),
    ) by {
        lemma_exact_key(types, op.right_rows()[i], on.right_keys);
    }
    op.every_way_gives_the_join(storage, types);
    join_gives_each_pair_once(on, op.left_rows(), op.right_rows(), row);
}

proof fn lemma_exact_key(types: Seq<DataType>, row: Seq<Value>, at: Seq<int>)
    requires
        at.len() == types.len(),
        forall|k: int|
            0 <= k < types.len() ==> (#[trigger] types[k]) is Int32 || types[k] is Int64
                || types[k] is String,
        forall|k: int| 0 <= k < types.len() ==> is_of(row[at[k]], #[trigger] types[k]),
    ensures
        key_typed(types, pick(row, at)),
{
    let key = pick(row, at);
    assert forall|k: int| 0 <= k < key.len() implies has_type(#[trigger] key[k], types[k])
        && order_of(key[k], key[k]) is Some by {
        assert(is_of(row[at[k]], types[k]));
        assert(types[k] is Int32 || types[k] is Int64 || types[k] is String);
    }
}

/// A semijoin that came to its end has given out each row of the side that it keeps as often as it
/// came, if it belongs together with a row of the other side, and no other row.
pub proof fn ended_semijoins_gave_the_rows_with_a_partner(
    op: &AdaptiveEquiJoinOperator,
    storage: &TempStorageManager,
    row: Seq<Value>,
)
    requires
        op.inv(storage),
        op.ended(),
        !op.failed(),
        op.faithful(),
        !op.merges(),
        !op.on().by_order,
    ensures
        op.mode() is KeepLeft ==> op.emitted().count(row) == (if exists|j: int|
            0 <= j < op.right_rows().len() && belong(op.on(), row, #[trigger] op.right_rows()[j]) {
            op.left_rows().to_multiset().count(row)
        } else {
            0
        }),
        op.mode() is KeepRight ==> op.emitted().count(row) == (if exists|i: int|
            0 <= i < op.left_rows().len() && belong(op.on(), #[trigger] op.left_rows()[i], row) {
            op.right_rows().to_multiset().count(row)
        } else {
            0
        }),
{
    op.join_is_complete(storage);
    semijoin_keeps_rows_with_a_partner(op.on(), true, op.left_rows(), op.right_rows(), row);
    semijoin_keeps_rows_with_a_partner(op.on(), false, op.right_rows(), op.left_rows(), row);
}

proof fn lemma_equal_keys(types: Seq<DataType>, a: Seq<Value>, b: Seq<Value>)
    requires
        a.len() == types.len(),
        b.len() == types.len(),
        forall|k: int|
            0 <= k < types.len() ==> is_of(#[trigger] a[k], types[k]) && is_of(b[k], types[k])
                && order_of(a[k], b[k]) is Some,
    ensures
        key_order(a, b) == Comparison::Equal <==> forall|k: int|
            0 <= k < types.len() ==> order_of(#[trigger] a[k], b[k]) == Some(Comparison::Equal),
    decreases types.len(),
{
    if types.len() > 0 {
        let x = a.drop_first();
        let y = b.drop_first();
        let rest = types.drop_first();
        assert(is_of(a[0], types[0]));
        sorting_follows_the_order(a[0], b[0], types[0]);
        assert forall|k: int| 0 <= k < rest.len() implies is_of(#[trigger] x[k], rest[k]) && is_of(
            y[k],
            rest[k],
        ) && order_of(x[k], y[k]) is Some by {
            assert(x[k] == a[k + 1]);
        }
        lemma_equal_keys(rest, x, y);
        if forall|k: int|
            0 <= k < types.len() ==> order_of(#[trigger] a[k], b[k]) == Some(Comparison::Equal) {
            assert forall|k: int| 0 <= k < rest.len() implies order_of(#[trigger] x[k], y[k])
                == Some(Comparison::Equal) by {
                assert(x[k] == a[k + 1]);
            }
            assert(order_of(a[0], b[0]) == Some(Comparison::Equal));
        }
        if key_order(a, b) == Comparison::Equal {
            assert forall|k: int| 0 <= k < types.len() implies order_of(#[trigger] a[k], b[k])
                == Some(Comparison::Equal) by {
                if k > 0 {
                    assert(x[k - 1] == a[k]);
                }
            }
        }
    }
}

/// A join that merges by the order of its keys joins two rows exactly where all their keys compare
/// as equal and the row of both passes the tests, where the keys are of the same types and compare.
pub proof fn merged_rows_have_equal_keys(
    on: JoinOn,
    types: Seq<DataType>,
    l: Seq<Value>,
    r: Seq<Value>,
)
    requires
        on.by_order,
        on.left_keys.len() == types.len(),
        on.right_keys.len() == types.len(),
        forall|k: int|
            0 <= k < types.len() ==> is_of(l[#[trigger] on.left_keys[k]], types[k]) && is_of(
                r[on.right_keys[k]],
                types[k],
            ) && order_of(l[on.left_keys[k]], r[on.right_keys[k]]) is Some,
    ensures
        joins(on, l, r) <==> row_passes(on.extra, l + r) == Some(true) && forall|k: int|
            0 <= k < types.len() ==> order_of(
                l[#[trigger] on.left_keys[k]],
                r[on.right_keys[k]],
            ) == Some(Comparison::Equal),
{
    let a = pick(l, on.left_keys);
    let b = pick(r, on.right_keys);
    assert forall|k: int| 0 <= k < types.len() implies is_of(#[trigger] a[k], types[k]) && is_of(
        b[k],
        types[k],
    ) && order_of(a[k], b[k]) is Some by {
        assert(a[k] == l[on.left_keys[k]]);
    }
    lemma_equal_keys(types, a, b);
    if forall|k: int|
        0 <= k < types.len() ==> order_of(#[trigger] a[k], b[k]) == Some(Comparison::Equal) {
        assert forall|k: int| 0 <= k < types.len() implies order_of(
            l[#[trigger] on.left_keys[k]],
            r[on.right_keys[k]],
        ) == Some(Comparison::Equal) by {
            assert(a[k] == l[on.left_keys[k]]);
        }
    }
    if forall|k: int|
        0 <= k < types.len() ==> order_of(l[#[trigger] on.left_keys[k]], r[on.right_keys[k]])
            == Some(Comparison::Equal) {
        assert forall|k: int| 0 <= k < types.len() implies order_of(#[trigger] a[k], b[k]) == Some(
            Comparison::Equal,
        ) by {
            assert(a[k] == l[on.left_keys[k]]);
        }
    }
}

} // verus!

//! Sorting rows in memory.

use std::collections::VecDeque;
use vstd::multiset::Multiset;
use vstd::prelude::*;
use crate::floats::Comparison;
use crate::join_table::all_len;
use crate::ordering::{SortKey, all_not_after, all_typed, compare_rows, keys_within, lemma_head_bounds, lemma_sorted_drop, lemma_sorted_push, not_after, row_order_flips, sortable, sorted};
use crate::partition_join::bag;
use crate::row::Row;
use crate::value::{DataType, Value};
use crate::views::rows_of;

verus! {

broadcast use crate::views::lemma_rows_of_push;

/// What holds while two sorted lists are merged.
spec fn merging(
    keys: Seq<SortKey>,
    types: Seq<DataType>,
    out: Seq<Seq<Value>>,
    a: Seq<Seq<Value>>,
    b: Seq<Seq<Value>>,
) -> bool {
    &&& all_typed(keys, types, a)
    &&& all_typed(keys, types, b)
    &&& sorted(keys, out)
    &&& sorted(keys, a)
    &&& sorted(keys, b)
    &&& all_not_after(keys, out, a)
    &&& all_not_after(keys, out, b)
}

proof fn lemma_take(
    keys: Seq<SortKey>,
    types: Seq<DataType>,
    out: Seq<Seq<Value>>,
    a: Seq<Seq<Value>>,
    b: Seq<Seq<Value>>,
)
    requires
        merging(keys, types, out, a, b),
        a.len() > 0,
        b.len() == 0 || not_after(keys, a[0], b[0]),
    ensures
        merging(keys, types, out.push(a[0]), a.drop_first(), b),
        merging(keys, types, out.push(a[0]), b, a.drop_first()),
{
    let x = a[0];
    let rest = a.drop_first();
    let more = out.push(x);
    lemma_sorted_push(keys, out, x);
    lemma_sorted_drop(keys, a);
    if b.len() > 0 {
        lemma_head_bounds(keys, types, x, b);
    }
    assert forall|i: int| 0 <= i < rest.len() implies crate::ordering::row_typed(
        keys,
        types,
        #[trigger] rest[i],
    ) by {
        assert(rest[i] == a[i + 1]);
    }
    assert forall|i: int, j: int| 0 <= i < more.len() && 0 <= j < rest.len() implies not_after(
        keys,
        #[trigger] more[i],
        #[trigger] rest[j],
    ) by {
        assert(rest[j] == a[j + 1]);
        if i < out.len() {
            assert(more[i] == out[i]);
        }
    }
    assert forall|i: int, j: int| 0 <= i < more.len() && 0 <= j < b.len() implies not_after(
        keys,
        #[trigger] more[i],
        #[trigger] b[j],
    ) by {
        if i < out.len() {
            assert(more[i] == out[i]);
        }
    }
}

pub proof fn lemma_bag_front(rows: Seq<Row>)
    requires
        rows.len() > 0,
    ensures
        bag(rows) == bag(rows.drop_first()).insert(rows[0]@),
        rows_of(rows.drop_first()) == rows_of(rows).drop_first(),
{
    broadcast use vstd::seq_lib::group_to_multiset_ensures;

    let all = rows_of(rows);
    let rest = all.drop_first();
    assert(rows_of(rows.drop_first()) =~= rest);
    assert(all =~= seq![all[0]] + rest);
    vstd::seq_lib::lemma_multiset_commutative(seq![all[0]], rest);
    assert(seq![all[0]] =~= Seq::<Seq<Value>>::empty().push(all[0]));
    assert(bag(rows) =~= rest.to_multiset().insert(all[0]));
}

fn merge_sorted(
    sort_keys: &[SortKey],
    a: VecDeque<Row>,
    b: VecDeque<Row>,
    Ghost(len): Ghost<nat>,
    Ghost(types): Ghost<Seq<DataType>>,
) -> (r: VecDeque<Row>)
    requires
        keys_within(sort_keys@, len),
        all_len(rows_of(a@), len),
        all_len(rows_of(b@), len),
    ensures
        bag(r@) == bag(a@).add(bag(b@)),
        all_len(rows_of(r@), len),
        all_typed(sort_keys@, types, rows_of(a@)) && all_typed(sort_keys@, types, rows_of(b@))
            && sorted(sort_keys@, rows_of(a@)) && sorted(sort_keys@, rows_of(b@)) ==> sorted(
            sort_keys@,
            rows_of(r@),
        ),
{
    let ghost keys = sort_keys@;
    let ghost total = bag(a@).add(bag(b@));
    let ghost ordered = all_typed(keys, types, rows_of(a@)) && all_typed(keys, types, rows_of(b@))
        && sorted(keys, rows_of(a@)) && sorted(keys, rows_of(b@));
    let mut a = a;
    let mut b = b;
    let mut out: VecDeque<Row> = VecDeque::new();
    proof {
        crate::partition_join::lemma_bag_empty();
        assert(rows_of(out@) =~= Seq::<Seq<Value>>::empty());
        assert(bag(out@).add(bag(a@)).add(bag(b@)) =~= total);
    }
    while a.len() > 0 || b.len() > 0
        invariant
            keys == sort_keys@,
            keys_within(keys, len),
            all_len(rows_of(a@), len),
            all_len(rows_of(b@), len),
            all_len(rows_of(out@), len),
            bag(out@).add(bag(a@)).add(bag(b@)) == total,
            ordered ==> merging(keys, types, rows_of(out@), rows_of(a@), rows_of(b@)),
        decreases a@.len() + b@.len(),
    {
        let from_a = if a.len() == 0 {
            false
        } else if b.len() == 0 {
            true
        } else {
            proof {
                assert(rows_of(a@)[0].len() == len);
                assert(rows_of(b@)[0].len() == len);
            }
            match compare_rows(sort_keys, &a[0], &b[0]) {
                Comparison::Greater => false,
                _ => true,
            }
        };
        let ghost a0 = a@;
        let ghost b0 = b@;
        let ghost out0 = out@;
        proof {
            if from_a {
                lemma_bag_front(a0);
                crate::partition_join::lemma_all_len_drop(rows_of(a0), len);
                if ordered {
                    lemma_take(keys, types, rows_of(out0), rows_of(a0), rows_of(b0));
                }
            } else {
                lemma_bag_front(b0);
                crate::partition_join::lemma_all_len_drop(rows_of(b0), len);
                if a0.len() > 0 {
                    row_order_flips(keys, a0[0]@, b0[0]@);
                }
                if ordered {
                    lemma_take(keys, types, rows_of(out0), rows_of(b0), rows_of(a0));
                }
            }
        }
        let next = if from_a {
            a.pop_front()
        } else {
            b.pop_front()
        };
        match next {
            Some(row) => {
                let ghost rv = row@;
                out.push_back(row);
                proof {
                    broadcast use vstd::seq_lib::group_to_multiset_ensures;

                    assert(rows_of(out@) =~= rows_of(out0).push(rv));
                    assert(bag(out@) == bag(out0).insert(rv));
                    if from_a {
                        assert(a@ =~= a0.drop_first());
                        assert(rv == rows_of(a0)[0]);
                    } else {
                        assert(b@ =~= b0.drop_first());
                        assert(rv == rows_of(b0)[0]);
                    }
                    assert(bag(out@).add(bag(a@)).add(bag(b@)) =~= total);
                }
            },
            None => {},
        }
    }
    proof {
        crate::partition_join::lemma_bag_empty();
        assert(rows_of(a@) =~= Seq::<Seq<Value>>::empty());
        assert(rows_of(b@) =~= Seq::<Seq<Value>>::empty());
        assert(bag(out@).add(Multiset::<Seq<Value>>::empty()).add(
            Multiset::<Seq<Value>>::empty(),
        ) =~= bag(out@));
    }
    out
}

proof fn lemma_typed_part(
    keys: Seq<SortKey>,
    types: Seq<DataType>,
    rows: Seq<Seq<Value>>,
    from: int,
    to: int,
    len: nat,
)
    requires
        0 <= from <= to <= rows.len(),
    ensures
        all_typed(keys, types, rows) ==> all_typed(keys, types, rows.subrange(from, to)),
        all_len(rows, len) ==> all_len(rows.subrange(from, to), len),
{
    let part = rows.subrange(from, to);
    assert forall|i: int| 0 <= i < part.len() implies #[trigger] part[i] == rows[from + i] by {}
    if all_typed(keys, types, rows) {
        assert forall|i: int| 0 <= i < part.len() implies crate::ordering::row_typed(
            keys,
            types,
            #[trigger] part[i],
        ) by {
            assert(part[i] == rows[from + i]);
        }
    }
}

fn merge_sort(
    sort_keys: &[SortKey],
    rows: VecDeque<Row>,
    Ghost(len): Ghost<nat>,
    Ghost(types): Ghost<Seq<DataType>>,
) -> (r: VecDeque<Row>)
    requires
        keys_within(sort_keys@, len),
        all_len(rows_of(rows@), len),
    ensures
        bag(r@) == bag(rows@),
        all_len(rows_of(r@), len),
        all_typed(sort_keys@, types, rows_of(rows@)) ==> all_typed(
            sort_keys@,
            types,
            rows_of(r@),
        ) && sorted(sort_keys@, rows_of(r@)),
    decreases rows@.len(),
{
    let ghost keys = sort_keys@;
    let ghost all = rows_of(rows@);
    if rows.len() <= 1 {
        return rows;
    }
    let mut first = rows;
    let half: usize = first.len() / 2;
    let second = first.split_off(half);
    proof {
        assert(rows_of(first@) =~= all.subrange(0, half as int));
        assert(rows_of(second@) =~= all.subrange(half as int, all.len() as int));
        lemma_typed_part(keys, types, all, 0, half as int, len);
        lemma_typed_part(keys, types, all, half as int, all.len() as int, len);
        assert(all =~= rows_of(first@) + rows_of(second@));
        vstd::seq_lib::lemma_multiset_commutative(rows_of(first@), rows_of(second@));
    }
    let a = merge_sort(sort_keys, first, Ghost(len), Ghost(types));
    let b = merge_sort(sort_keys, second, Ghost(len), Ghost(types));
    let r = merge_sorted(sort_keys, a, b, Ghost(len), Ghost(types));
    proof {
        if all_typed(keys, types, all) {
            lemma_typed_permutation(keys, types, all, rows_of(r@));
        }
    }
    r
}

/// Whether rows are typed does not depend on their order.
pub proof fn lemma_typed_permutation(
    keys: Seq<SortKey>,
    types: Seq<DataType>,
    a: Seq<Seq<Value>>,
    b: Seq<Seq<Value>>,
)
    requires
        all_typed(keys, types, a),
        a.to_multiset() == b.to_multiset(),
    ensures
        all_typed(keys, types, b),
{
    broadcast use vstd::seq_lib::group_to_multiset_ensures;

    assert forall|i: int| 0 <= i < b.len() implies crate::ordering::row_typed(
        keys,
        types,
        #[trigger] b[i],
    ) by {
        assert(b.contains(b[i]));
        assert(b.to_multiset().count(b[i]) > 0);
        assert(a.to_multiset().count(b[i]) > 0);
        assert(a.contains(b[i]));
        let j = choose|j: int| 0 <= j < a.len() && a[j] == b[i];
        assert(crate::ordering::row_typed(keys, types, a[j]));
    }
}

/// Sorts rows. The result holds the same rows; where they can be put in order, it is in order.
pub fn sort_rows(rows: VecDeque<Row>, sort_keys: &[SortKey]) -> (r: VecDeque<Row>)
    requires
        exists|len: nat| keys_within(sort_keys@, len) && #[trigger] all_len(rows_of(rows@), len),
    ensures
        bag(r@) == bag(rows@),
        forall|len: nat|
            #[trigger] all_len(rows_of(rows@), len) && keys_within(sort_keys@, len) ==> all_len(
                rows_of(r@),
                len,
            ),
        sortable(sort_keys@, rows_of(rows@)) ==> sorted(sort_keys@, rows_of(r@)),
{
    let ghost len = choose|len: nat|
        keys_within(sort_keys@, len) && #[trigger] all_len(rows_of(rows@), len);
    let ghost types = choose|types: Seq<DataType>| #[trigger]
        all_typed(sort_keys@, types, rows_of(rows@));
    let ghost before = rows_of(rows@);
    let r = merge_sort(sort_keys, rows, Ghost(len), Ghost(types));
    proof {
        assert forall|n: nat| #[trigger] all_len(before, n) implies all_len(rows_of(r@), n) by {
            lemma_len_permutation(before, rows_of(r@), n);
        }
    }
    r
}

/// The lengths of rows do not depend on their order.
pub proof fn lemma_len_permutation(a: Seq<Seq<Value>>, b: Seq<Seq<Value>>, len: nat)
    requires
        all_len(a, len),
        a.to_multiset() == b.to_multiset(),
    ensures
        all_len(b, len),
{
    broadcast use vstd::seq_lib::group_to_multiset_ensures;

    assert forall|i: int| 0 <= i < b.len() implies (#[trigger] b[i]).len() == len by {
        assert(b.contains(b[i]));
        assert(b.to_multiset().count(b[i]) > 0);
        assert(a.to_multiset().count(b[i]) > 0);
        assert(a.contains(b[i]));
    }
}

} // verus!

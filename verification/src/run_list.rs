//! Lists of temporary runs.

use vstd::prelude::*;
use crate::join_table::all_len;
use crate::ordering::{SortKey, all_typed, row_typed};
use crate::run_merge::{runs_bag, runs_typed};
use crate::temp_run::run_of;
use crate::temp_storage::{TempFileId, TempStorageManager, unharmed, untouched_file};
use crate::value::{DataType, Value};

verus! {

/// The files of some runs.
#[verifier::opaque]
pub open spec fn run_files(ids: Seq<TempFileId>) -> Set<u64> {
    Set::new(|f: u64| exists|i: int| 0 <= i < ids.len() && (#[trigger] ids[i]).0 == f)
}

/// Whether all are runs with rows of the given length, and no two are the same.
#[verifier::opaque]
pub open spec fn runs_ok(ids: Seq<TempFileId>, storage: &TempStorageManager, len: nat) -> bool {
    &&& forall|i: int|
        0 <= i < ids.len() ==> run_of(storage, (#[trigger] ids[i]).0) is Some && all_len(
            run_of(storage, ids[i].0)->0,
            len,
        )
    &&& forall|i: int, j: int| 0 <= i < j < ids.len() ==> #[trigger] ids[i] != #[trigger] ids[j]
}

/// The rows of some runs.
pub open spec fn runs_of(ids: Seq<TempFileId>, storage: &TempStorageManager) -> Seq<
    Seq<Seq<Value>>,
> {
    ids.map_values(|id: TempFileId| run_of(storage, id.0)->0)
}

pub proof fn lemma_runs_none()
    ensures
        run_files(Seq::empty()) == Set::<u64>::empty(),
        forall|s: &TempStorageManager, len: nat| #[trigger] runs_ok(Seq::empty(), s, len),
        forall|s: &TempStorageManager| #[trigger]
            runs_of(Seq::empty(), s) == Seq::<Seq<Seq<Value>>>::empty(),
{
    reveal(run_files);
    reveal(runs_ok);
    assert(run_files(Seq::empty()) =~= Set::<u64>::empty());
    assert forall|s: &TempStorageManager| #[trigger]
        runs_of(Seq::empty(), s) == Seq::<Seq<Seq<Value>>>::empty() by {
        assert(runs_of(Seq::empty(), s) =~= Seq::<Seq<Seq<Value>>>::empty());
    }
}

pub proof fn lemma_runs_present(ids: Seq<TempFileId>, storage: &TempStorageManager, len: nat)
    requires
        runs_ok(ids, storage, len),
    ensures
        forall|f: u64| #[trigger] run_files(ids).contains(f) ==> storage.has_file(f),
{
    reveal(run_files);
    reveal(runs_ok);
    assert forall|f: u64| #[trigger] run_files(ids).contains(f) implies storage.has_file(f) by {
        let i = choose|i: int| 0 <= i < ids.len() && (#[trigger] ids[i]).0 == f;
        assert(run_of(storage, ids[i].0) is Some);
    }
}

/// Runs whose files are untouched keep their rows.
pub proof fn lemma_runs_kept(
    ids: Seq<TempFileId>,
    before: &TempStorageManager,
    after: &TempStorageManager,
    touched: Set<u64>,
    len: nat,
)
    requires
        runs_ok(ids, before, len),
        unharmed(before, after, touched),
        touched.disjoint(run_files(ids)),
    ensures
        runs_ok(ids, after, len),
        runs_of(ids, after) == runs_of(ids, before),
        forall|f: u64| #[trigger] run_files(ids).contains(f) ==> before.same_file(after, f),
{
    lemma_runs_present(ids, before, len);
    assert forall|f: u64| #[trigger] run_files(ids).contains(f) implies before.same_file(
        after,
        f,
    ) by {
        untouched_file(before, after, touched, f);
    }
    reveal(run_files);
    reveal(runs_ok);
    assert forall|i: int| 0 <= i < ids.len() implies run_of(after, (#[trigger] ids[i]).0)
        == run_of(before, ids[i].0) by {
        assert(run_files(ids).contains(ids[i].0));
        assert(run_of(before, ids[i].0) is Some);
    }
    assert(runs_of(ids, after) =~= runs_of(ids, before));
}

pub proof fn lemma_runs_push(
    ids: Seq<TempFileId>,
    id: TempFileId,
    storage: &TempStorageManager,
    len: nat,
)
    requires
        runs_ok(ids, storage, len),
        run_of(storage, id.0) is Some,
        all_len(run_of(storage, id.0)->0, len),
        !run_files(ids).contains(id.0),
    ensures
        runs_ok(ids.push(id), storage, len),
        run_files(ids.push(id)) == run_files(ids).insert(id.0),
        runs_of(ids.push(id), storage) == runs_of(ids, storage).push(run_of(storage, id.0)->0),
        runs_bag(runs_of(ids.push(id), storage)) == runs_bag(runs_of(ids, storage)).add(
            (run_of(storage, id.0)->0).to_multiset(),
        ),
{
    reveal(run_files);
    reveal(runs_ok);
    let all = ids.push(id);
    assert forall|i: int, j: int| 0 <= i < j < all.len() implies #[trigger] all[i]
        != #[trigger] all[j] by {
        if j == ids.len() {
            assert(all[i] == ids[i]);
            if all[i] == id {
                assert(run_files(ids).contains(id.0));
            }
        } else {
            assert(all[i] == ids[i] && all[j] == ids[j]);
        }
    }
    assert forall|i: int| 0 <= i < all.len() implies run_of(storage, (#[trigger] all[i]).0) is Some
        && all_len(run_of(storage, all[i].0)->0, len) by {
        if i < ids.len() {
            assert(all[i] == ids[i]);
        }
    }
    assert forall|f: u64| run_files(all).contains(f) <==> run_files(ids).insert(id.0).contains(
        f,
    ) by {
        if run_files(all).contains(f) {
            let i = choose|i: int| 0 <= i < all.len() && (#[trigger] all[i]).0 == f;
            if i < ids.len() {
                assert(ids[i] == all[i]);
            }
        }
        if run_files(ids).contains(f) {
            let i = choose|i: int| 0 <= i < ids.len() && (#[trigger] ids[i]).0 == f;
            assert(all[i] == ids[i]);
        }
        assert(all[ids.len() as int].0 == id.0);
    }
    assert(run_files(all) =~= run_files(ids).insert(id.0));
    assert(runs_of(all, storage) =~= runs_of(ids, storage).push(run_of(storage, id.0)->0));
    assert(runs_of(all, storage).drop_last() =~= runs_of(ids, storage));
}

pub proof fn lemma_runs_bag_concat(a: Seq<Seq<Seq<Value>>>, b: Seq<Seq<Seq<Value>>>)
    ensures
        runs_bag(a + b) == runs_bag(a).add(runs_bag(b)),
    decreases b.len(),
{
    if b.len() == 0 {
        assert(a + b =~= a);
        assert(runs_bag(a + b) =~= runs_bag(a).add(runs_bag(b)));
    } else {
        lemma_runs_bag_concat(a, b.drop_last());
        assert((a + b).drop_last() =~= a + b.drop_last());
        assert(runs_bag(a + b) =~= runs_bag(a).add(runs_bag(b)));
    }
}

pub proof fn lemma_runs_bag_one(run: Seq<Seq<Value>>)
    ensures
        runs_bag(seq![run]) == run.to_multiset(),
{
    let one = seq![run];
    reveal_with_fuel(runs_bag, 2);
    assert(one.drop_last() =~= Seq::<Seq<Seq<Value>>>::empty());
    assert(one.last() == run);
    assert(runs_bag(one) =~= run.to_multiset());
}

/// A list of runs in two parts.
pub proof fn lemma_runs_split(
    ids: Seq<TempFileId>,
    at: int,
    storage: &TempStorageManager,
    len: nat,
)
    requires
        runs_ok(ids, storage, len),
        0 <= at <= ids.len(),
    ensures
        runs_ok(ids.take(at), storage, len),
        runs_ok(ids.skip(at), storage, len),
        run_files(ids.take(at)).disjoint(run_files(ids.skip(at))),
        run_files(ids) == run_files(ids.take(at)).union(run_files(ids.skip(at))),
        runs_of(ids, storage) == runs_of(ids.take(at), storage) + runs_of(ids.skip(at), storage),
        runs_bag(runs_of(ids, storage)) == runs_bag(runs_of(ids.take(at), storage)).add(
            runs_bag(runs_of(ids.skip(at), storage)),
        ),
{
    reveal(run_files);
    reveal(runs_ok);
    let a = ids.take(at);
    let b = ids.skip(at);
    assert forall|i: int| 0 <= i < a.len() implies #[trigger] a[i] == ids[i] by {}
    assert forall|i: int| 0 <= i < b.len() implies #[trigger] b[i] == ids[at + i] by {}
    assert forall|f: u64| run_files(a).contains(f) implies !run_files(b).contains(f) by {
        let i = choose|i: int| 0 <= i < a.len() && (#[trigger] a[i]).0 == f;
        if run_files(b).contains(f) {
            let j = choose|j: int| 0 <= j < b.len() && (#[trigger] b[j]).0 == f;
            assert(ids[i] != ids[at + j]);
        }
    }
    assert forall|f: u64| run_files(ids).contains(f) <==> run_files(a).union(
        run_files(b),
    ).contains(f) by {
        if run_files(ids).contains(f) {
            let i = choose|i: int| 0 <= i < ids.len() && (#[trigger] ids[i]).0 == f;
            if i < at {
                assert(a[i] == ids[i]);
            } else {
                assert(b[i - at] == ids[i]);
            }
        }
        if run_files(a).contains(f) {
            let i = choose|i: int| 0 <= i < a.len() && (#[trigger] a[i]).0 == f;
            assert(ids[i].0 == f);
        }
        if run_files(b).contains(f) {
            let i = choose|i: int| 0 <= i < b.len() && (#[trigger] b[i]).0 == f;
            assert(ids[at + i].0 == f);
        }
    }
    assert(run_files(ids) =~= run_files(a).union(run_files(b)));
    assert(runs_of(ids, storage) =~= runs_of(a, storage) + runs_of(b, storage));
    lemma_runs_bag_concat(runs_of(a, storage), runs_of(b, storage));
}

pub proof fn lemma_in_runs_bag(runs: Seq<Seq<Seq<Value>>>, i: int, k: int)
    requires
        0 <= i < runs.len(),
        0 <= k < runs[i].len(),
    ensures
        runs_bag(runs).count(runs[i][k]) > 0,
    decreases runs.len(),
{
    broadcast use vstd::seq_lib::group_to_multiset_ensures;

    if i == runs.len() - 1 {
        assert(runs.last().contains(runs[i][k]));
    } else {
        lemma_in_runs_bag(runs.drop_last(), i, k);
    }
}

/// A row that is counted is in one of the runs.
pub proof fn lemma_in_some_run(runs: Seq<Seq<Seq<Value>>>, x: Seq<Value>)
    requires
        runs_bag(runs).count(x) > 0,
    ensures
        exists|a: int, b: int|
            0 <= a < runs.len() && 0 <= b < runs[a].len() && #[trigger] runs[a][b] == x,
    decreases runs.len(),
{
    broadcast use vstd::seq_lib::group_to_multiset_ensures;

    if runs.len() > 0 {
        let n = runs.len() - 1;
        if runs.last().to_multiset().count(x) > 0 {
            assert(runs.last().contains(x));
            let b = choose|b: int| 0 <= b < runs.last().len() && runs.last()[b] == x;
            assert(runs[n][b] == x);
        } else {
            let init = runs.drop_last();
            lemma_in_some_run(init, x);
            let (a, b) = choose|a: int, b: int|
                0 <= a < init.len() && 0 <= b < init[a].len() && #[trigger] init[a][b] == x;
            assert(runs[a][b] == x);
        }
    }
}

/// Runs whose rows are all among some typed rows are typed.
pub proof fn lemma_runs_typed(
    keys: Seq<SortKey>,
    types: Seq<DataType>,
    runs: Seq<Seq<Seq<Value>>>,
    input: Seq<Seq<Value>>,
)
    requires
        all_typed(keys, types, input),
        runs_bag(runs).subset_of(input.to_multiset()),
    ensures
        runs_typed(keys, types, runs),
{
    broadcast use vstd::seq_lib::group_to_multiset_ensures;

    assert forall|i: int| 0 <= i < runs.len() implies all_typed(
        keys,
        types,
        #[trigger] runs[i],
    ) by {
        assert forall|k: int| 0 <= k < runs[i].len() implies row_typed(
            keys,
            types,
            #[trigger] runs[i][k],
        ) by {
            lemma_in_runs_bag(runs, i, k);
            assert(input.to_multiset().count(runs[i][k]) > 0);
            assert(input.contains(runs[i][k]));
        }
    }
}

} // verus!

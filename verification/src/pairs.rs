//! Pairs of runs: the two sides of a partition.

use vstd::multiset::Multiset;
use vstd::prelude::*;
use crate::error::DbError;
use crate::join_spec::{JoinOn, join_of, lemma_join_empty_right, sum_parts};
use crate::join_table::{all_in, all_len, decided, decided_for_fewer};
use crate::partition::PartitionWriters;
use crate::temp_run::{TempRunWriter, run_of};
use crate::temp_storage::{MAX_BATCH_PAGES, TempFileId, TempStorageManager, grew, let_go, no_new_files, out_of_room, unharmed, untouched, untouched_file, untouched_more, untouched_same, untouched_twice};
use crate::value::Value;

verus! {

/// The two files of a partition, one for each side of a join.
#[derive(Clone, Copy, Debug, PartialEq, Eq, Structural)]
pub struct FilePair {
    pub left: TempFileId,
    pub right: TempFileId,
}

/// The two files of a partition.
pub open spec fn two_files(pair: FilePair) -> Set<u64> {
    Set::<u64>::empty().insert(pair.left.0).insert(pair.right.0)
}

/// The files of some partitions.
#[verifier::opaque]
pub open spec fn pair_files(pairs: Seq<FilePair>) -> Set<u64> {
    Set::new(
        |f: u64|
            exists|i: int|
                0 <= i < pairs.len() && ((#[trigger] pairs[i]).left.0 == f || pairs[i].right.0
                    == f),
    )
}

/// Whether the files of two partitions are all different.
pub open spec fn pairs_apart(a: FilePair, b: FilePair) -> bool {
    a.left != b.left && a.left != b.right && a.right != b.left && a.right != b.right
}

/// Whether a partition's files are two runs with rows of the given lengths.
pub open spec fn pair_ok(
    pair: FilePair,
    storage: &TempStorageManager,
    left_len: nat,
    right_len: nat,
) -> bool {
    &&& pair.left != pair.right
    &&& run_of(storage, pair.left.0) is Some
    &&& run_of(storage, pair.right.0) is Some
    &&& all_len(run_of(storage, pair.left.0)->0, left_len)
    &&& all_len(run_of(storage, pair.right.0)->0, right_len)
}

/// Whether all partitions have their own runs.
#[verifier::opaque]
pub open spec fn pairs_ok(
    pairs: Seq<FilePair>,
    storage: &TempStorageManager,
    left_len: nat,
    right_len: nat,
) -> bool {
    &&& forall|i: int|
        0 <= i < pairs.len() ==> pair_ok(#[trigger] pairs[i], storage, left_len, right_len)
    &&& forall|i: int, j: int|
        0 <= i < j < pairs.len() ==> pairs_apart(#[trigger] pairs[i], #[trigger] pairs[j])
}

/// The join of one partition.
pub open spec fn pair_join(on: JoinOn, storage: &TempStorageManager, pair: FilePair) -> Multiset<
    Seq<Value>,
> {
    join_of(on, run_of(storage, pair.left.0)->0, run_of(storage, pair.right.0)->0)
}

/// The joins of all partitions together.
pub open spec fn pairs_join(
    on: JoinOn,
    storage: &TempStorageManager,
    pairs: Seq<FilePair>,
) -> Multiset<Seq<Value>>
    decreases pairs.len(),
{
    if pairs.len() == 0 {
        Multiset::empty()
    } else {
        pair_join(on, storage, pairs[0]).add(pairs_join(on, storage, pairs.drop_first()))
    }
}

pub proof fn lemma_pairs_join_concat(
    on: JoinOn,
    storage: &TempStorageManager,
    a: Seq<FilePair>,
    b: Seq<FilePair>,
)
    ensures
        pairs_join(on, storage, a + b) == pairs_join(on, storage, a).add(
            pairs_join(on, storage, b),
        ),
    decreases a.len(),
{
    if a.len() == 0 {
        assert(a + b =~= b);
        assert(pairs_join(on, storage, a + b) =~= pairs_join(on, storage, a).add(
            pairs_join(on, storage, b),
        ));
    } else {
        lemma_pairs_join_concat(on, storage, a.drop_first(), b);
        assert((a + b).drop_first() =~= a.drop_first() + b);
        assert(pairs_join(on, storage, a + b) =~= pairs_join(on, storage, a).add(
            pairs_join(on, storage, b),
        ));
    }
}

pub proof fn lemma_pairs_join_push(
    on: JoinOn,
    storage: &TempStorageManager,
    a: Seq<FilePair>,
    pair: FilePair,
)
    ensures
        pairs_join(on, storage, a.push(pair)) == pairs_join(on, storage, a).add(
            pair_join(on, storage, pair),
        ),
{
    let one = Seq::<FilePair>::empty().push(pair);
    assert(a.push(pair) =~= a + one);
    lemma_pairs_join_concat(on, storage, a, one);
    assert(one.drop_first() =~= Seq::<FilePair>::empty());
    assert(one[0] == pair);
    reveal_with_fuel(pairs_join, 2);
    assert(pairs_join(on, storage, one) =~= pair_join(on, storage, pair));
}

/// Partitions whose files are untouched keep their runs and their joins.
pub proof fn lemma_pairs_kept(
    on: JoinOn,
    pairs: Seq<FilePair>,
    before: &TempStorageManager,
    after: &TempStorageManager,
    touched: Set<u64>,
    left_len: nat,
    right_len: nat,
)
    requires
        pairs_ok(pairs, before, left_len, right_len),
        unharmed(before, after, touched),
        touched.disjoint(pair_files(pairs)),
    ensures
        pairs_ok(pairs, after, left_len, right_len),
        pairs_join(on, after, pairs) == pairs_join(on, before, pairs),
        forall|i: int|
            0 <= i < pairs.len() ==> run_of(after, (#[trigger] pairs[i]).left.0) == run_of(
                before,
                pairs[i].left.0,
            ) && run_of(after, pairs[i].right.0) == run_of(before, pairs[i].right.0),
    decreases pairs.len(),
{
    reveal(pair_files);
    reveal(pairs_ok);
    reveal(unharmed);
    assert forall|i: int| 0 <= i < pairs.len() implies run_of(after, (
    #[trigger] pairs[i]).left.0) == run_of(before, pairs[i].left.0) && run_of(
        after,
        pairs[i].right.0,
    ) == run_of(before, pairs[i].right.0) by {
        assert(pair_ok(pairs[i], before, left_len, right_len));
        assert(pair_files(pairs).contains(pairs[i].left.0));
        assert(pair_files(pairs).contains(pairs[i].right.0));
        assert(before.same_file(after, pairs[i].left.0));
        assert(before.same_file(after, pairs[i].right.0));
    }
    if pairs.len() > 0 {
        let rest = pairs.drop_first();
        assert forall|i: int| 0 <= i < rest.len() implies pair_ok(
            #[trigger] rest[i],
            before,
            left_len,
            right_len,
        ) by {
            assert(rest[i] == pairs[i + 1]);
        }
        assert forall|i: int, j: int| 0 <= i < j < rest.len() implies pairs_apart(
            #[trigger] rest[i],
            #[trigger] rest[j],
        ) by {
            assert(rest[i] == pairs[i + 1]);
            assert(rest[j] == pairs[j + 1]);
        }
        assert(touched.disjoint(pair_files(rest))) by {
            assert forall|f: u64| pair_files(rest).contains(f) implies pair_files(pairs).contains(
                f,
            ) by {
                let i = choose|i: int|
                    0 <= i < rest.len() && ((#[trigger] rest[i]).left.0 == f || rest[i].right.0
                        == f);
                assert(rest[i] == pairs[i + 1]);
            }
        }
        lemma_pairs_kept(on, rest, before, after, touched, left_len, right_len);
        assert(pairs[0] == pairs[0]);
    }
}

/// The join of what two sets of writers hold for a partition.
pub open spec fn writers_join(on: JoinOn, lw: &PartitionWriters, rw: &PartitionWriters) -> spec_fn(
    int,
) -> Multiset<Seq<Value>> {
    |p: int| join_of(on, lw.rows(p), rw.rows(p))
}

/// The partitions below `n` with rows on both sides, in order.
pub open spec fn both_sided(
    n: nat,
    left: spec_fn(int) -> Seq<Seq<Value>>,
    right: spec_fn(int) -> Seq<Seq<Value>>,
) -> Seq<int>
    decreases n,
{
    if n == 0 {
        Seq::empty()
    } else {
        let p = n - 1;
        let before = both_sided(p as nat, left, right);
        if left(p).len() > 0 && right(p).len() > 0 {
            before.push(p)
        } else {
            before
        }
    }
}

/// Whether the pairs hold the rows of the given partitions, one pair for each.
#[verifier::opaque]
pub open spec fn pairs_hold(
    pairs: Seq<FilePair>,
    storage: &TempStorageManager,
    parts: Seq<int>,
    left: spec_fn(int) -> Seq<Seq<Value>>,
    right: spec_fn(int) -> Seq<Seq<Value>>,
) -> bool {
    &&& pairs.len() == parts.len()
    &&& forall|i: int|
        0 <= i < pairs.len() ==> run_of(storage, (#[trigger] pairs[i]).left.0) == Some(
            left(parts[i]),
        ) && run_of(storage, pairs[i].right.0) == Some(right(parts[i]))
}

/// The rows of the partitions that writers fill.
pub open spec fn rows_by_part(w: &PartitionWriters) -> spec_fn(int) -> Seq<Seq<Value>> {
    |p: int| w.rows(p)
}

/// Each partition with rows on both sides is listed once, and no other is.
pub proof fn both_sided_lists(
    n: nat,
    left: spec_fn(int) -> Seq<Seq<Value>>,
    right: spec_fn(int) -> Seq<Seq<Value>>,
)
    ensures
        forall|i: int|
            0 <= i < both_sided(n, left, right).len() ==> {
                let p = #[trigger] both_sided(n, left, right)[i];
                0 <= p < n && left(p).len() > 0 && right(p).len() > 0
            },
        forall|p: int|
            0 <= p < n && (#[trigger] left(p)).len() > 0 && right(p).len() > 0 ==> both_sided(
                n,
                left,
                right,
            ).contains(p),
        forall|i: int, j: int|
            0 <= i < j < both_sided(n, left, right).len() ==> #[trigger] both_sided(
                n,
                left,
                right,
            )[i] < #[trigger] both_sided(n, left, right)[j],
    decreases n,
{
    if n > 0 {
        let q = n - 1;
        both_sided_lists(q as nat, left, right);
        let before = both_sided(q as nat, left, right);
        let all = both_sided(n, left, right);
        assert forall|p: int|
            0 <= p < n && (#[trigger] left(p)).len() > 0 && right(p).len() > 0 implies all.contains(
            p,
        ) by {
            if p < q {
                assert(before.contains(p));
                let i = choose|i: int| 0 <= i < before.len() && before[i] == p;
                assert(all[i] == p);
            } else {
                assert(all[before.len() as int] == p);
            }
        }
    }
}

/// Whether in each partition all pairs of rows with equal keys have answers to the tests.
#[verifier::opaque]
pub open spec fn pairs_decided(
    on: JoinOn,
    storage: &TempStorageManager,
    pairs: Seq<FilePair>,
) -> bool {
    forall|i: int|
        0 <= i < pairs.len() ==> pair_decided(on, storage, #[trigger] pairs[i])
}

pub open spec fn pair_decided(on: JoinOn, storage: &TempStorageManager, pair: FilePair) -> bool {
    decided(on, run_of(storage, pair.left.0)->0, run_of(storage, pair.right.0)->0)
}

/// Whether the rows of all partitions are among those of the sides.
#[verifier::opaque]
pub open spec fn pairs_within(
    pairs: Seq<FilePair>,
    storage: &TempStorageManager,
    ls: Seq<Seq<Value>>,
    rs: Seq<Seq<Value>>,
) -> bool {
    forall|i: int|
        0 <= i < pairs.len() ==> pair_within(#[trigger] pairs[i], storage, ls, rs)
}

pub open spec fn pair_within(
    pair: FilePair,
    storage: &TempStorageManager,
    ls: Seq<Seq<Value>>,
    rs: Seq<Seq<Value>>,
) -> bool {
    all_in(run_of(storage, pair.left.0)->0, ls) && all_in(run_of(storage, pair.right.0)->0, rs)
}

pub proof fn lemma_within_kept(
    pairs: Seq<FilePair>,
    before: &TempStorageManager,
    after: &TempStorageManager,
    ls: Seq<Seq<Value>>,
    rs: Seq<Seq<Value>>,
)
    requires
        forall|i: int|
            0 <= i < pairs.len() ==> run_of(after, (#[trigger] pairs[i]).left.0) == run_of(
                before,
                pairs[i].left.0,
            ) && run_of(after, pairs[i].right.0) == run_of(before, pairs[i].right.0),
    ensures
        pairs_within(pairs, before, ls, rs) ==> pairs_within(pairs, after, ls, rs),
{
    reveal(pairs_within);
    if pairs_within(pairs, before, ls, rs) {
        assert forall|i: int| 0 <= i < pairs.len() implies pair_within(
            #[trigger] pairs[i],
            after,
            ls,
            rs,
        ) by {
            assert(pair_within(pairs[i], before, ls, rs));
        }
    }
}

pub proof fn lemma_within_pop(
    pairs: Seq<FilePair>,
    storage: &TempStorageManager,
    ls: Seq<Seq<Value>>,
    rs: Seq<Seq<Value>>,
)
    requires
        pairs_within(pairs, storage, ls, rs),
        pairs.len() > 0,
    ensures
        pair_within(pairs[0], storage, ls, rs),
        pairs_within(pairs.drop_first(), storage, ls, rs),
{
    reveal(pairs_within);
    assert forall|i: int| 0 <= i < pairs.drop_first().len() implies pair_within(
        #[trigger] pairs.drop_first()[i],
        storage,
        ls,
        rs,
    ) by {
        assert(pairs.drop_first()[i] == pairs[i + 1]);
    }
}

pub proof fn lemma_within_push(
    pairs: Seq<FilePair>,
    pair: FilePair,
    storage: &TempStorageManager,
    ls: Seq<Seq<Value>>,
    rs: Seq<Seq<Value>>,
)
    requires
        pairs_within(pairs, storage, ls, rs),
        pair_within(pair, storage, ls, rs),
    ensures
        pairs_within(pairs.push(pair), storage, ls, rs),
{
    reveal(pairs_within);
    assert forall|i: int| 0 <= i < pairs.push(pair).len() implies pair_within(
        #[trigger] pairs.push(pair)[i],
        storage,
        ls,
        rs,
    ) by {
        if i < pairs.len() {
            assert(pairs.push(pair)[i] == pairs[i]);
        }
    }
}

/// What a splitter makes of rows that are all decided is decided.
pub proof fn lemma_parts_decided(
    on: JoinOn,
    storage: &TempStorageManager,
    pairs: Seq<FilePair>,
    parts: Seq<int>,
    left: spec_fn(int) -> Seq<Seq<Value>>,
    right: spec_fn(int) -> Seq<Seq<Value>>,
    ls: Seq<Seq<Value>>,
    rs: Seq<Seq<Value>>,
)
    requires
        pairs_hold(pairs, storage, parts, left, right),
        forall|p: int| all_in(#[trigger] left(p), ls),
        forall|p: int| all_in(#[trigger] right(p), rs),
        decided(on, ls, rs),
    ensures
        pairs_decided(on, storage, pairs),
{
    reveal(pairs_hold);
    reveal(pairs_decided);
    assert forall|i: int| 0 <= i < pairs.len() implies pair_decided(
        on,
        storage,
        #[trigger] pairs[i],
    ) by {
        decided_for_fewer(on, true, ls, rs, left(parts[i]), right(parts[i]));
    }
}

/// Partitions whose files are untouched stay decided.
pub proof fn lemma_decided_kept(
    on: JoinOn,
    pairs: Seq<FilePair>,
    before: &TempStorageManager,
    after: &TempStorageManager,
)
    requires
        pairs_decided(on, before, pairs),
        forall|i: int|
            0 <= i < pairs.len() ==> run_of(after, (#[trigger] pairs[i]).left.0) == run_of(
                before,
                pairs[i].left.0,
            ) && run_of(after, pairs[i].right.0) == run_of(before, pairs[i].right.0),
    ensures
        pairs_decided(on, after, pairs),
{
    reveal(pairs_decided);
    assert forall|i: int| 0 <= i < pairs.len() implies pair_decided(
        on,
        after,
        #[trigger] pairs[i],
    ) by {
        assert(pair_decided(on, before, pairs[i]));
    }
}

pub proof fn lemma_decided_pop(on: JoinOn, storage: &TempStorageManager, pairs: Seq<FilePair>)
    requires
        pairs_decided(on, storage, pairs),
        pairs.len() > 0,
    ensures
        pair_decided(on, storage, pairs[0]),
        pairs_decided(on, storage, pairs.drop_first()),
{
    reveal(pairs_decided);
    assert forall|i: int| 0 <= i < pairs.drop_first().len() implies pair_decided(
        on,
        storage,
        #[trigger] pairs.drop_first()[i],
    ) by {
        assert(pairs.drop_first()[i] == pairs[i + 1]);
    }
}

pub proof fn lemma_decided_concat(
    on: JoinOn,
    storage: &TempStorageManager,
    a: Seq<FilePair>,
    b: Seq<FilePair>,
)
    requires
        pairs_decided(on, storage, a),
        pairs_decided(on, storage, b),
    ensures
        pairs_decided(on, storage, a + b),
{
    reveal(pairs_decided);
    assert forall|i: int| 0 <= i < (a + b).len() implies pair_decided(
        on,
        storage,
        #[trigger] (a + b)[i],
    ) by {
        if i < a.len() {
            assert((a + b)[i] == a[i]);
        } else {
            assert((a + b)[i] == b[i - a.len()]);
        }
    }
}

/// Deletes the file of a writer that is given up.
pub(crate) fn discard(w: TempRunWriter, storage: &mut TempStorageManager) -> (r: Result<(), DbError>)
    requires
        w.inv(old(storage)),
    ensures
        final(storage).inv(),
        untouched(old(storage), final(storage), Set::<u64>::empty().insert(w.file())),
        no_new_files(old(storage), final(storage)),
        !final(storage).has_file(w.file()),
        grew(old(storage), final(storage), 0),
        r is Ok,
{
    proof {
        reveal(unharmed);
        w.inv_gives(storage);
    }
    let r = storage.delete_temp_file(w.file_id());
    proof {
        assert forall|f: u64| #[trigger] storage.has_file(f) implies old(storage).has_file(f) by {
            if f != w.file() {
                assert(old(storage).same_file(storage, f));
            }
        }
        assert forall|g: u64|
            old(storage).has_file(g) && !Set::<u64>::empty().insert(w.file()).contains(
                g,
            ) implies #[trigger] old(storage).same_file(storage, g) by {}
    }
    r
}

pub proof fn lemma_pairs_push_ok(
    pairs: Seq<FilePair>,
    pair: FilePair,
    storage: &TempStorageManager,
    left_len: nat,
    right_len: nat,
    own: Set<u64>,
)
    requires
        pairs_ok(pairs, storage, left_len, right_len),
        pair_ok(pair, storage, left_len, right_len),
        own.disjoint(pair_files(pairs)),
        forall|f: u64| own.contains(f) <==> f == pair.left.0 || f == pair.right.0,
    ensures
        pairs_ok(pairs.push(pair), storage, left_len, right_len),
        pair_files(pairs.push(pair)) == pair_files(pairs).union(own),
{
    reveal(pair_files);
    reveal(pairs_ok);
    let all = pairs.push(pair);
    assert forall|i: int| 0 <= i < pairs.len() implies pairs_apart(#[trigger] pairs[i], pair) by {
        assert(pair_files(pairs).contains(pairs[i].left.0));
        assert(pair_files(pairs).contains(pairs[i].right.0));
        assert(own.contains(pair.left.0));
        assert(own.contains(pair.right.0));
    }
    assert forall|i: int, j: int| 0 <= i < j < all.len() implies pairs_apart(
        #[trigger] all[i],
        #[trigger] all[j],
    ) by {
        assert(all[i] == pairs[i]);
        if j < pairs.len() {
            assert(all[j] == pairs[j]);
        }
    }
    assert forall|i: int| 0 <= i < all.len() implies pair_ok(
        #[trigger] all[i],
        storage,
        left_len,
        right_len,
    ) by {
        if i < pairs.len() {
            assert(all[i] == pairs[i]);
        }
    }
    assert forall|f: u64| pair_files(all).contains(f) <==> pair_files(pairs).union(own).contains(
        f,
    ) by {
        if pair_files(all).contains(f) {
            let i = choose|i: int|
                0 <= i < all.len() && ((#[trigger] all[i]).left.0 == f || all[i].right.0 == f);
            if i < pairs.len() {
                assert(pairs[i] == all[i]);
            }
        }
        if pair_files(pairs).contains(f) {
            let i = choose|i: int|
                0 <= i < pairs.len() && ((#[trigger] pairs[i]).left.0 == f || pairs[i].right.0
                    == f);
            assert(all[i] == pairs[i]);
        }
        if own.contains(f) {
            assert(all[pairs.len() as int] == pair);
        }
    }
    assert(pair_files(all) =~= pair_files(pairs).union(own));
}

/// The files of a partition's writers.
#[verifier::opaque]
spec fn own_files(left: Option<TempRunWriter>, right: Option<TempRunWriter>) -> Set<u64> {
    Set::new(
        |f: u64| (left is Some && left->0.file() == f) || (right is Some && right->0.file() == f),
    )
}

/// A change of one file that is there makes no file.
proof fn none_made(a: &TempStorageManager, b: &TempStorageManager, f: u64)
    requires
        a.same_but(b, f),
        a.has_file(f),
    ensures
        no_new_files(a, b),
{
    assert forall|g: u64| #[trigger] b.has_file(g) implies a.has_file(g) by {
        if g != f {
            assert(a.same_file(b, g));
        }
    }
}

/// Finishes the two writers of a partition, or discards the only one.
fn finish_pair(
    left: Option<TempRunWriter>,
    right: Option<TempRunWriter>,
    storage: &mut TempStorageManager,
    Ghost(batch): Ghost<nat>,
) -> (r: Result<Option<FilePair>, DbError>)
    requires
        old(storage).inv(),
        left matches Some(w) ==> w.inv(old(storage)),
        right matches Some(w) ==> w.inv(old(storage)),
        left is Some && right is Some ==> left->0.file() != right->0.file(),
        left matches Some(w) ==> w.batch() <= batch,
        right matches Some(w) ==> w.batch() <= batch,
        batch <= MAX_BATCH_PAGES,
    ensures
        grew(old(storage), final(storage), 2 * batch),
        final(storage).inv(),
        untouched(old(storage), final(storage), own_files(left, right)),
        no_new_files(old(storage), final(storage)),
        r matches Ok(None) ==> forall|f: u64| #[trigger]
            own_files(left, right).contains(f) ==> !final(storage).has_file(f),
        r matches Ok(o) ==> (o is Some <==> left is Some && right is Some) && (o matches Some(pair)
            ==> pair.left.0 == left->0.file() && pair.right.0 == right->0.file() && run_of(
            final(storage),
            pair.left.0,
        ) == Some(left->0.rows()) && run_of(final(storage), pair.right.0) == Some(
            right->0.rows(),
        )),
        r matches Err(e) ==> out_of_room(e, final(storage)),
{
    let ghost s1 = *storage;
    let ghost own = own_files(left, right);
    proof {
        reveal(unharmed);
        reveal(own_files);
    }
    match (left, right) {
        (Some(l), Some(r)) => {
            let ghost own_l = Set::<u64>::empty().insert(l.file());
            let ghost own_r = Set::<u64>::empty().insert(r.file());
            proof {
                l.inv_gives(&s1);
            }
            let left_file = match l.finish(storage) {
                Ok(f) => f,
                Err(e) => {
                    proof {
                        none_made(&s1, storage, l.file());
                        assert(untouched(&s1, storage, own_l));
                        untouched_more(&s1, storage, own_l, own);
                    }
                    return Err(e);
                },
            };
            let ghost s2 = *storage;
            proof {
                none_made(&s1, &s2, l.file());
                assert(untouched(&s1, &s2, own_l));
                untouched_more(&s1, &s2, own_l, own);
                r.inv_gives(&s1);
                assert(s1.same_file(&s2, r.file()));
                r.inv_kept(&s1, &s2);
            }
            let right_file = match r.finish(storage) {
                Ok(f) => f,
                Err(e) => {
                    proof {
                        none_made(&s2, storage, r.file());
                        assert(untouched(&s2, storage, own_r));
                        untouched_more(&s2, storage, own_r, own);
                        untouched_twice(&s1, &s2, storage, own, own);
                    }
                    return Err(e);
                },
            };
            proof {
                none_made(&s2, storage, r.file());
                assert(untouched(&s2, storage, own_r));
                untouched_more(&s2, storage, own_r, own);
                untouched_twice(&s1, &s2, storage, own, own);
                assert(s2.same_file(storage, left_file.0));
            }
            Ok(Some(FilePair { left: left_file, right: right_file }))
        },
        (Some(l), None) => {
            let ghost own_l = Set::<u64>::empty().insert(l.file());
            let d = discard(l, storage);
            proof {
                untouched_more(&s1, storage, own_l, own);
            }
            Ok(None)
        },
        (None, Some(r)) => {
            let ghost own_r = Set::<u64>::empty().insert(r.file());
            let d = discard(r, storage);
            proof {
                untouched_more(&s1, storage, own_r, own);
            }
            Ok(None)
        },
        (None, None) => {
            proof {
                assert forall|g: u64|
                    s1.has_file(g) && !own.contains(g) implies #[trigger] s1.same_file(
                    storage,
                    g,
                ) by {}
            }
            Ok(None)
        },
    }
}

proof fn lemma_empty_part(
    on: JoinOn,
    parts: spec_fn(int) -> Multiset<Seq<Value>>,
    p: nat,
    ls: Seq<Seq<Value>>,
    rs: Seq<Seq<Value>>,
)
    requires
        parts(p as int) == join_of(on, ls, rs),
        ls.len() == 0 || rs.len() == 0,
    ensures
        sum_parts(p + 1, parts) == sum_parts(p, parts),
{
    if rs.len() == 0 {
        assert(rs =~= Seq::<Seq<Value>>::empty());
        lemma_join_empty_right(on, ls);
    }
    assert(sum_parts(p + 1, parts) =~= sum_parts(p, parts));
}

proof fn lemma_full_part(
    on: JoinOn,
    parts: spec_fn(int) -> Multiset<Seq<Value>>,
    p: nat,
    storage: &TempStorageManager,
    pairs: Seq<FilePair>,
    pair: FilePair,
)
    requires
        parts(p as int) == pair_join(on, storage, pair),
        pairs_join(on, storage, pairs) == sum_parts(p, parts),
    ensures
        pairs_join(on, storage, pairs.push(pair)) == sum_parts(p + 1, parts),
{
    lemma_pairs_join_push(on, storage, pairs, pair);
}

proof fn lemma_hold_kept(
    pairs: Seq<FilePair>,
    before: &TempStorageManager,
    after: &TempStorageManager,
    parts: Seq<int>,
    left: spec_fn(int) -> Seq<Seq<Value>>,
    right: spec_fn(int) -> Seq<Seq<Value>>,
)
    requires
        pairs_hold(pairs, before, parts, left, right),
        forall|i: int|
            0 <= i < pairs.len() ==> run_of(after, (#[trigger] pairs[i]).left.0) == run_of(
                before,
                pairs[i].left.0,
            ) && run_of(after, pairs[i].right.0) == run_of(before, pairs[i].right.0),
    ensures
        pairs_hold(pairs, after, parts, left, right),
{
    reveal(pairs_hold);
}

/// Rows by partition may be given in two ways.
pub proof fn same_hold(
    pairs: Seq<FilePair>,
    storage: &TempStorageManager,
    n: nat,
    left: spec_fn(int) -> Seq<Seq<Value>>,
    right: spec_fn(int) -> Seq<Seq<Value>>,
    other_left: spec_fn(int) -> Seq<Seq<Value>>,
    other_right: spec_fn(int) -> Seq<Seq<Value>>,
)
    requires
        pairs_hold(pairs, storage, both_sided(n, left, right), left, right),
        forall|p: int| 0 <= p < n ==> #[trigger] left(p) == other_left(p),
        forall|p: int| 0 <= p < n ==> #[trigger] right(p) == other_right(p),
    ensures
        pairs_hold(
            pairs,
            storage,
            both_sided(n, other_left, other_right),
            other_left,
            other_right,
        ),
{
    reveal(pairs_hold);
    same_both_sided(n, left, right, other_left, other_right);
    both_sided_lists(n, left, right);
    let parts = both_sided(n, left, right);
    assert forall|i: int| 0 <= i < pairs.len() implies run_of(
        storage,
        (#[trigger] pairs[i]).left.0,
    ) == Some(other_left(parts[i])) && run_of(storage, pairs[i].right.0) == Some(
        other_right(parts[i]),
    ) by {
        assert(left(parts[i]) == other_left(parts[i]));
        assert(right(parts[i]) == other_right(parts[i]));
    }
}

proof fn same_both_sided(
    n: nat,
    left: spec_fn(int) -> Seq<Seq<Value>>,
    right: spec_fn(int) -> Seq<Seq<Value>>,
    other_left: spec_fn(int) -> Seq<Seq<Value>>,
    other_right: spec_fn(int) -> Seq<Seq<Value>>,
)
    requires
        forall|p: int| 0 <= p < n ==> #[trigger] left(p) == other_left(p),
        forall|p: int| 0 <= p < n ==> #[trigger] right(p) == other_right(p),
    ensures
        both_sided(n, left, right) == both_sided(n, other_left, other_right),
    decreases n,
{
    if n > 0 {
        same_both_sided((n - 1) as nat, left, right, other_left, other_right);
        assert(left(n - 1) == other_left(n - 1));
        assert(right(n - 1) == other_right(n - 1));
    }
}

proof fn lemma_hold_push(
    pairs: Seq<FilePair>,
    pair: FilePair,
    storage: &TempStorageManager,
    p: nat,
    left: spec_fn(int) -> Seq<Seq<Value>>,
    right: spec_fn(int) -> Seq<Seq<Value>>,
)
    requires
        pairs_hold(pairs, storage, both_sided(p, left, right), left, right),
        run_of(storage, pair.left.0) == Some(left(p as int)),
        run_of(storage, pair.right.0) == Some(right(p as int)),
        left(p as int).len() > 0,
        right(p as int).len() > 0,
    ensures
        pairs_hold(pairs.push(pair), storage, both_sided(p + 1, left, right), left, right),
{
    reveal(pairs_hold);
    let all = pairs.push(pair);
    let parts = both_sided(p + 1, left, right);
    assert(parts == both_sided(p, left, right).push(p as int));
    assert forall|i: int| 0 <= i < all.len() implies run_of(storage, (#[trigger] all[i]).left.0)
        == Some(left(parts[i])) && run_of(storage, all[i].right.0) == Some(right(parts[i])) by {
        if i < pairs.len() {
            assert(all[i] == pairs[i]);
        }
    }
}

/// What holds of the files of one partition's writers.
proof fn lemma_own_files(
    lw0: Set<u64>,
    rw0: Set<u64>,
    lw1: Set<u64>,
    rw1: Set<u64>,
    lw: Set<u64>,
    rw: Set<u64>,
    done: Set<u64>,
    left: Option<TempRunWriter>,
    right: Option<TempRunWriter>,
)
    requires
        lw0.disjoint(rw0),
        lw1.subset_of(lw0),
        rw1.subset_of(rw0),
        lw.subset_of(lw1),
        rw.subset_of(rw1),
        done.disjoint(lw1),
        done.disjoint(rw1),
        left is Some ==> lw1.contains(left->0.file()) && !lw.contains(left->0.file()),
        right is Some ==> rw1.contains(right->0.file()) && !rw.contains(right->0.file()),
    ensures
        own_files(left, right).subset_of(lw0.union(rw0)),
        own_files(left, right).disjoint(lw),
        own_files(left, right).disjoint(rw),
        own_files(left, right).disjoint(done),
        lw.subset_of(lw0),
        rw.subset_of(rw0),
        done.disjoint(lw),
        done.disjoint(rw),
        left is Some && right is Some ==> left->0.file() != right->0.file(),
{
    reveal(own_files);
}

/// The files of a partition of both sides.
#[verifier::opaque]
spec fn part_files(lw: &PartitionWriters, rw: &PartitionWriters, p: int) -> Set<u64> {
    Set::new(|f: u64| lw.file(p) == Some(f) || rw.file(p) == Some(f))
}

/// What stays of the writers when the writer of one partition is taken out.
spec fn without_part(before: &PartitionWriters, after: &PartitionWriters, p: int) -> bool {
    &&& after.count() == before.count()
    &&& forall|q: int|
        0 <= q < before.count() && q != p ==> #[trigger] after.rows(q) == before.rows(q)
            && after.file(q) == before.file(q)
    &&& after.file(p) is None
    &&& after.batch() == before.batch()
    &&& after.files().subset_of(before.files())
}

/// Finishes one partition of both sides.
#[verifier::spinoff_prover]
fn finish_part(
    lw: &mut PartitionWriters,
    rw: &mut PartitionWriters,
    p: usize,
    storage: &mut TempStorageManager,
    Ghost(done): Ghost<Set<u64>>,
) -> (r: Result<Option<FilePair>, DbError>)
    requires
        old(lw).inv(old(storage)),
        old(rw).inv(old(storage)),
        p < old(lw).count(),
        p < old(rw).count(),
        old(lw).files().disjoint(old(rw).files()),
        done.disjoint(old(lw).files()),
        done.disjoint(old(rw).files()),
        old(lw).batch() == old(rw).batch(),
    ensures
        grew(old(storage), final(storage), 2 * old(lw).batch() as nat),
        final(storage).inv(),
        final(lw).inv(final(storage)),
        final(rw).inv(final(storage)),
        without_part(old(lw), final(lw), p as int),
        without_part(old(rw), final(rw), p as int),
        untouched(old(storage), final(storage), part_files(old(lw), old(rw), p as int)),
        no_new_files(old(storage), final(storage)),
        part_files(old(lw), old(rw), p as int).subset_of(old(lw).files().union(old(rw).files())),
        part_files(old(lw), old(rw), p as int).disjoint(done),
        forall|f: u64| #[trigger]
            old(lw).files().contains(f) ==> final(lw).files().contains(f) || part_files(
                old(lw),
                old(rw),
                p as int,
            ).contains(f),
        forall|f: u64| #[trigger]
            old(rw).files().contains(f) ==> final(rw).files().contains(f) || part_files(
                old(lw),
                old(rw),
                p as int,
            ).contains(f),
        part_files(old(lw), old(rw), p as int).disjoint(final(lw).files()),
        part_files(old(lw), old(rw), p as int).disjoint(final(rw).files()),
        match r {
            Ok(Some(pair)) => {
                &&& old(lw).file(p as int) == Some(pair.left.0)
                &&& old(rw).file(p as int) == Some(pair.right.0)
                &&& pair.left != pair.right
                &&& run_of(final(storage), pair.left.0) == Some(old(lw).rows(p as int))
                &&& run_of(final(storage), pair.right.0) == Some(old(rw).rows(p as int))
                &&& forall|f: u64|
                    part_files(old(lw), old(rw), p as int).contains(f) <==> f == pair.left.0 || f
                        == pair.right.0
            },
            Ok(None) => {
                &&& old(lw).file(p as int) is None || old(rw).file(p as int) is None
                &&& forall|f: u64| #[trigger]
                    part_files(old(lw), old(rw), p as int).contains(f) ==> !final(storage).has_file(
                        f,
                    )
            },
            Err(e) => out_of_room(e, final(storage)),
        },
{
    let ghost lw1 = *lw;
    let ghost rw1 = *rw;
    let ghost s1 = *storage;
    proof {
        lw.inv_gives(storage);
        rw.inv_gives(storage);
    }
    let left = lw.take(p, storage);
    let right = rw.take(p, storage);
    let ghost own = own_files(left, right);
    proof {
        if left is Some {
            assert(lw1.file(p as int) == Some(left->0.file()));
        }
        if right is Some {
            assert(rw1.file(p as int) == Some(right->0.file()));
        }
        lemma_own_files(
            lw1.files(),
            rw1.files(),
            lw1.files(),
            rw1.files(),
            lw.files(),
            rw.files(),
            done,
            left,
            right,
        );
        assert(own =~= part_files(&lw1, &rw1, p as int)) by {
            reveal(own_files);
            reveal(part_files);
        }
        assert forall|f: u64| #[trigger] lw1.files().contains(f) implies lw.files().contains(f)
            || own.contains(f) by {
            reveal(own_files);
        }
        assert forall|f: u64| #[trigger] rw1.files().contains(f) implies rw.files().contains(f)
            || own.contains(f) by {
            reveal(own_files);
        }
    }
    let finished = finish_pair(left, right, storage, Ghost(lw1.batch() as nat));
    proof {
        lw.inv_kept(&s1, storage, own);
        rw.inv_kept(&s1, storage, own);
        reveal(own_files);
    }
    finished
}

/// The pages of so many shares.
#[verifier::opaque]
pub open spec fn shares(n: nat, share: nat) -> nat {
    n * share
}

/// A partition more takes a share more, and is among all shares.
proof fn lemma_grew_more(
    s0: &TempStorageManager,
    s1: &TempStorageManager,
    s2: &TempStorageManager,
    p: nat,
    n: nat,
    share: nat,
)
    requires
        grew(s0, s1, shares(p, share)),
        grew(s1, s2, share),
        p < n,
        s0.size() == s1.size(),
        s1.size() == s2.size(),
    ensures
        grew(s0, s2, shares(p + 1, share)),
        grew(s0, s2, shares(n, share)),
        s0.roomy(shares(n, share) + MAX_BATCH_PAGES as nat) ==> s2.roomy(MAX_BATCH_PAGES as nat),
{
    reveal(shares);
    assert((p + 1) * share == p * share + share) by (nonlinear_arith);
    assert((p + 1) * share <= n * share) by (nonlinear_arith)
        requires
            p < n,
    ;
    assert(0 <= n * share) by (nonlinear_arith);
    if s0.roomy(shares(n, share) + MAX_BATCH_PAGES as nat) {
        s0.roomy_for_fewer(shares(n, share) + MAX_BATCH_PAGES as nat, MAX_BATCH_PAGES as nat);
    }
}

/// Files that were owned still are, or are gone.
proof fn lemma_covered(
    mine: Set<u64>,
    lw1: Set<u64>,
    rw1: Set<u64>,
    done1: Set<u64>,
    lw: Set<u64>,
    rw: Set<u64>,
    done: Set<u64>,
    own: Set<u64>,
    s1: &TempStorageManager,
    s2: &TempStorageManager,
)
    requires
        forall|f: u64| #[trigger]
            mine.contains(f) ==> lw1.contains(f) || rw1.contains(f) || done1.contains(f)
                || !s1.has_file(f),
        forall|f: u64| #[trigger] lw1.contains(f) ==> lw.contains(f) || own.contains(f),
        forall|f: u64| #[trigger] rw1.contains(f) ==> rw.contains(f) || own.contains(f),
        done1.subset_of(done),
        forall|f: u64| #[trigger] own.contains(f) ==> done.contains(f) || !s2.has_file(f),
        no_new_files(s1, s2),
    ensures
        forall|f: u64| #[trigger]
            mine.contains(f) ==> lw.contains(f) || rw.contains(f) || done.contains(f)
                || !s2.has_file(f),
{
}

/// Finishes the writers of both sides, partition by partition. A partition with rows on one side
/// only can have no matches: its file is deleted.
#[verifier::spinoff_prover]
#[verifier::rlimit(100)]
pub fn finish_pairs(
    left_writers: PartitionWriters,
    right_writers: PartitionWriters,
    storage: &mut TempStorageManager,
    Ghost(on): Ghost<JoinOn>,
    Ghost(left_len): Ghost<nat>,
    Ghost(right_len): Ghost<nat>,
) -> (r: Result<Vec<FilePair>, DbError>)
    requires
        left_writers.inv(old(storage)),
        right_writers.inv(old(storage)),
        left_writers.count() == right_writers.count(),
        left_writers.count() <= usize::MAX,
        left_writers.files().disjoint(right_writers.files()),
        left_writers.batch() == right_writers.batch(),
        left_writers.files_have_rows(),
        right_writers.files_have_rows(),
        forall|p: int| 0 <= p < left_writers.count() ==> all_len(#[trigger] left_writers.rows(p), left_len),
        forall|p: int| 0 <= p < right_writers.count() ==> all_len(#[trigger] right_writers.rows(p), right_len),
    ensures
        final(storage).inv(),
        untouched(old(storage), final(storage), left_writers.files().union(right_writers.files())),
        no_new_files(old(storage), final(storage)),
        grew(
            old(storage),
            final(storage),
            shares(left_writers.count(), 2 * left_writers.batch() as nat),
        ),
        old(storage).roomy(
            shares(left_writers.count(), 2 * left_writers.batch() as nat) + MAX_BATCH_PAGES as nat,
        ) ==> r is Ok,
        r matches Ok(pairs) ==> {
            &&& let_go(
                left_writers.files().union(right_writers.files()),
                pair_files(pairs@),
                final(storage),
            )
            &&& pairs_hold(
                pairs@,
                final(storage),
                both_sided(
                    left_writers.count(),
                    rows_by_part(&left_writers),
                    rows_by_part(&right_writers),
                ),
                rows_by_part(&left_writers),
                rows_by_part(&right_writers),
            )
            &&& pairs_ok(pairs@, final(storage), left_len, right_len)
            &&& pair_files(pairs@).subset_of(left_writers.files().union(right_writers.files()))
            &&& pairs_join(on, final(storage), pairs@) == sum_parts(
                left_writers.count(),
                writers_join(on, &left_writers, &right_writers),
            )
        },
        r matches Err(e) ==> out_of_room(e, final(storage)),
{
    let ghost lw0 = left_writers;
    let ghost rw0 = right_writers;
    let ghost mine = lw0.files().union(rw0.files());
    let ghost before = *storage;
    proof {
        untouched_same(&before, storage, mine);
    }
    let ghost parts = writers_join(on, &lw0, &rw0);
    let ghost ls = rows_by_part(&lw0);
    let ghost rs = rows_by_part(&rw0);
    let mut lw = left_writers;
    let mut rw = right_writers;
    let n: usize = lw.len();
    let mut pairs: Vec<FilePair> = Vec::new();
    let mut p: usize = 0;
    proof {
        assert(pairs@ =~= Seq::<FilePair>::empty());
        lemma_pairs_none();
        assert(pairs_hold(pairs@, storage, both_sided(0, ls, rs), ls, rs)) by {
            reveal(pairs_hold);
        }
        assert(no_new_files(&before, storage));
    }
    while p < n
        invariant
            p <= n,
            lw0 == left_writers,
            rw0 == right_writers,
            before == *old(storage),
            n == lw0.count(),
            n == rw0.count(),
            lw.count() == n,
            rw.count() == n,
            lw.inv(storage),
            rw.inv(storage),
            mine == lw0.files().union(rw0.files()),
            lw0.files().disjoint(rw0.files()),
            lw.files().subset_of(lw0.files()),
            rw.files().subset_of(rw0.files()),
            forall|q: int|
                p <= q < n ==> #[trigger] lw.rows(q) == lw0.rows(q) && lw.file(q) == lw0.file(q),
            forall|q: int|
                p <= q < n ==> #[trigger] rw.rows(q) == rw0.rows(q) && rw.file(q) == rw0.file(q),
            forall|q: int| 0 <= q < p ==> (#[trigger] lw.file(q)) is None,
            forall|q: int| 0 <= q < p ==> (#[trigger] rw.file(q)) is None,
            forall|q: int| 0 <= q < n ==> all_len(#[trigger] lw0.rows(q), left_len),
            forall|q: int| 0 <= q < n ==> all_len(#[trigger] rw0.rows(q), right_len),
            parts == writers_join(on, &lw0, &rw0),
            ls == rows_by_part(&lw0),
            rs == rows_by_part(&rw0),
            lw0.files_have_rows(),
            rw0.files_have_rows(),
            no_new_files(&before, storage),
            lw0.batch() == rw0.batch(),
            lw.batch() == lw0.batch(),
            rw.batch() == lw0.batch(),
            grew(&before, storage, shares(p as nat, 2 * lw0.batch() as nat)),
            forall|f: u64| #[trigger]
                mine.contains(f) ==> lw.files().contains(f) || rw.files().contains(f)
                    || pair_files(pairs@).contains(f) || !storage.has_file(f),
            pairs_hold(pairs@, storage, both_sided(p as nat, ls, rs), ls, rs),
            untouched(&before, storage, mine),
            pairs_ok(pairs@, storage, left_len, right_len),
            pair_files(pairs@).subset_of(mine),
            pair_files(pairs@).disjoint(lw.files()),
            pair_files(pairs@).disjoint(rw.files()),
            pairs_join(on, storage, pairs@) == sum_parts(p as nat, parts),
        decreases n - p,
    {
        let ghost lw1 = lw;
        let ghost rw1 = rw;
        let ghost s1 = *storage;
        let ghost own = part_files(&lw1, &rw1, p as int);
        let ghost so_far = pairs@;
        let ghost so_far_files = pair_files(so_far);
        proof {
            assert(lw1.rows(p as int) == lw0.rows(p as int));
            assert(rw1.rows(p as int) == rw0.rows(p as int));
        }
        let finished = finish_part(&mut lw, &mut rw, p, storage, Ghost(so_far_files));
        proof {
            untouched_file(&before, &s1, mine, 0);
            untouched_file(&s1, storage, own, 0);
            lemma_grew_more(&before, &s1, storage, p as nat, n as nat, 2 * lw0.batch() as nat);
            untouched_more(&s1, storage, own, mine);
            untouched_twice(&before, &s1, storage, mine, mine);
            lemma_pairs_kept(on, so_far, &s1, storage, own, left_len, right_len);
            lemma_hold_kept(so_far, &s1, storage, both_sided(p as nat, ls, rs), ls, rs);
            assert forall|f: u64| #[trigger] storage.has_file(f) implies before.has_file(f) by {
                assert(s1.has_file(f));
            }
        }
        match finished {
            Ok(Some(pair)) => {
                proof {
                    lemma_pairs_push_ok(so_far, pair, storage, left_len, right_len, own);
                    lemma_full_part(on, parts, p as nat, storage, so_far, pair);
                    lemma_hold_push(so_far, pair, storage, p as nat, ls, rs);
                }
                pairs.push(pair);
            },
            Ok(None) => {
                proof {
                    lemma_empty_part(
                        on,
                        parts,
                        p as nat,
                        lw0.rows(p as int),
                        rw0.rows(p as int),
                    );
                }
            },
            Err(e) => {
                return Err(e);
            },
        }
        proof {
            lemma_covered(
                mine,
                lw1.files(),
                rw1.files(),
                so_far_files,
                lw.files(),
                rw.files(),
                pair_files(pairs@),
                own,
                &s1,
                storage,
            );
            assert forall|q: int| 0 <= q <= p implies (#[trigger] lw.file(q)) is None by {
                if q < p {
                    assert(lw1.file(q) is None);
                    assert(lw.rows(q) == lw1.rows(q));
                }
            }
            assert forall|q: int| 0 <= q <= p implies (#[trigger] rw.file(q)) is None by {
                if q < p {
                    assert(rw1.file(q) is None);
                    assert(rw.rows(q) == rw1.rows(q));
                }
            }
            assert forall|q: int| p + 1 <= q < n implies #[trigger] lw.rows(q) == lw0.rows(q)
                && lw.file(q) == lw0.file(q) by {
                assert(lw1.rows(q) == lw0.rows(q));
            }
            assert forall|q: int| p + 1 <= q < n implies #[trigger] rw.rows(q) == rw0.rows(q)
                && rw.file(q) == rw0.file(q) by {
                assert(rw1.rows(q) == rw0.rows(q));
            }
        }
        p = p + 1;
    }
    proof {
        lw.inv_gives(storage);
        assert(let_go(mine, pair_files(pairs@), storage)) by {
            lw.no_files();
            rw.no_files();
        }
    }
    Ok(pairs)
}

pub proof fn lemma_pairs_none()
    ensures
        pair_files(Seq::empty()) == Set::<u64>::empty(),
        forall|s: &TempStorageManager, l: nat, r: nat| #[trigger] pairs_ok(Seq::empty(), s, l, r),
{
    reveal(pair_files);
    reveal(pairs_ok);
    assert(pair_files(Seq::empty()) =~= Set::<u64>::empty());
}

/// The first partition and the others have no file in common.
pub proof fn lemma_pairs_pop(
    pairs: Seq<FilePair>,
    storage: &TempStorageManager,
    left_len: nat,
    right_len: nat,
)
    requires
        pairs.len() > 0,
        pairs_ok(pairs, storage, left_len, right_len),
    ensures
        pair_ok(pairs[0], storage, left_len, right_len),
        pairs_ok(pairs.drop_first(), storage, left_len, right_len),
        two_files(pairs[0]).disjoint(pair_files(pairs.drop_first())),
        pair_files(pairs) == two_files(pairs[0]).union(pair_files(pairs.drop_first())),
{
    reveal(pair_files);
    reveal(pairs_ok);
    let rest = pairs.drop_first();
    assert forall|i: int| 0 <= i < rest.len() implies pair_ok(
        #[trigger] rest[i],
        storage,
        left_len,
        right_len,
    ) by {
        assert(rest[i] == pairs[i + 1]);
    }
    assert forall|i: int, j: int| 0 <= i < j < rest.len() implies pairs_apart(
        #[trigger] rest[i],
        #[trigger] rest[j],
    ) by {
        assert(rest[i] == pairs[i + 1]);
        assert(rest[j] == pairs[j + 1]);
    }
    assert forall|f: u64| pair_files(rest).contains(f) implies !two_files(pairs[0]).contains(f) by {
        let i = choose|i: int|
            0 <= i < rest.len() && ((#[trigger] rest[i]).left.0 == f || rest[i].right.0 == f);
        assert(rest[i] == pairs[i + 1]);
        assert(pairs_apart(pairs[0], pairs[i + 1]));
    }
    assert forall|f: u64| pair_files(pairs).contains(f) <==> two_files(pairs[0]).union(
        pair_files(rest),
    ).contains(f) by {
        if pair_files(pairs).contains(f) {
            let i = choose|i: int|
                0 <= i < pairs.len() && ((#[trigger] pairs[i]).left.0 == f || pairs[i].right.0
                    == f);
            if i > 0 {
                assert(rest[i - 1] == pairs[i]);
            }
        }
        if pair_files(rest).contains(f) {
            let i = choose|i: int|
                0 <= i < rest.len() && ((#[trigger] rest[i]).left.0 == f || rest[i].right.0 == f);
            assert(rest[i] == pairs[i + 1]);
        }
        if two_files(pairs[0]).contains(f) {
            assert(pairs[0].left.0 == f || pairs[0].right.0 == f);
        }
    }
    assert(pair_files(pairs) =~= two_files(pairs[0]).union(pair_files(rest)));
}

/// Lists of partitions with no file in common can be put together.
pub proof fn lemma_pairs_concat(
    a: Seq<FilePair>,
    b: Seq<FilePair>,
    storage: &TempStorageManager,
    left_len: nat,
    right_len: nat,
)
    requires
        pairs_ok(a, storage, left_len, right_len),
        pairs_ok(b, storage, left_len, right_len),
        pair_files(a).disjoint(pair_files(b)),
    ensures
        pairs_ok(a + b, storage, left_len, right_len),
        pair_files(a + b) == pair_files(a).union(pair_files(b)),
{
    reveal(pair_files);
    reveal(pairs_ok);
    let all = a + b;
    assert forall|i: int| 0 <= i < all.len() implies pair_ok(
        #[trigger] all[i],
        storage,
        left_len,
        right_len,
    ) by {
        if i < a.len() {
            assert(all[i] == a[i]);
        } else {
            assert(all[i] == b[i - a.len()]);
        }
    }
    assert forall|i: int, j: int| 0 <= i < j < all.len() implies pairs_apart(
        #[trigger] all[i],
        #[trigger] all[j],
    ) by {
        if j < a.len() {
            assert(all[i] == a[i] && all[j] == a[j]);
        } else if i >= a.len() {
            assert(all[i] == b[i - a.len()] && all[j] == b[j - a.len()]);
        } else {
            assert(all[i] == a[i] && all[j] == b[j - a.len()]);
            assert(pair_files(a).contains(a[i].left.0));
            assert(pair_files(a).contains(a[i].right.0));
            assert(pair_files(b).contains(b[j - a.len()].left.0));
            assert(pair_files(b).contains(b[j - a.len()].right.0));
        }
    }
    assert forall|f: u64| pair_files(all).contains(f) <==> pair_files(a).union(
        pair_files(b),
    ).contains(f) by {
        if pair_files(all).contains(f) {
            let i = choose|i: int|
                0 <= i < all.len() && ((#[trigger] all[i]).left.0 == f || all[i].right.0 == f);
            if i < a.len() {
                assert(a[i] == all[i]);
            } else {
                assert(b[i - a.len()] == all[i]);
            }
        }
        if pair_files(a).contains(f) {
            let i = choose|i: int|
                0 <= i < a.len() && ((#[trigger] a[i]).left.0 == f || a[i].right.0 == f);
            assert(all[i] == a[i]);
        }
        if pair_files(b).contains(f) {
            let i = choose|i: int|
                0 <= i < b.len() && ((#[trigger] b[i]).left.0 == f || b[i].right.0 == f);
            assert(all[i + a.len()] == b[i]);
        }
    }
    assert(pair_files(all) =~= pair_files(a).union(pair_files(b)));
}

/// The files of partitions are there.
pub proof fn lemma_pairs_present(
    pairs: Seq<FilePair>,
    storage: &TempStorageManager,
    left_len: nat,
    right_len: nat,
)
    requires
        pairs_ok(pairs, storage, left_len, right_len),
    ensures
        forall|f: u64| #[trigger] pair_files(pairs).contains(f) ==> storage.has_file(f),
{
    reveal(pair_files);
    reveal(pairs_ok);
    assert forall|f: u64| #[trigger] pair_files(pairs).contains(f) implies storage.has_file(f) by {
        let i = choose|i: int|
            0 <= i < pairs.len() && ((#[trigger] pairs[i]).left.0 == f || pairs[i].right.0 == f);
        assert(pair_ok(pairs[i], storage, left_len, right_len));
    }
}

} // verus!

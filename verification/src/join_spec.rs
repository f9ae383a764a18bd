//! What a join is, and how it splits.

use vstd::multiset::Multiset;
use vstd::prelude::*;
use crate::error::DbError;
use crate::filter::{Test, row_passes};
use crate::floats::Comparison;
use crate::ordering::key_order;
use crate::row::pick;
use crate::value::Value;

verus! {

/// What two rows are joined on: matching keys, and tests on the merged row.
pub struct JoinOn {
    pub left_keys: Seq<int>,
    pub right_keys: Seq<int>,
    pub extra: Seq<Test>,
    /// Whether keys match that a sort does not tell apart, or only those that are the same.
    pub by_order: bool,
}

/// Whether the keys of two rows match: they are the same values of the same types, or the order
/// of keys does not tell them apart.
pub open spec fn keys_match(on: JoinOn, l: Seq<Value>, r: Seq<Value>) -> bool {
    let a = pick(l, on.left_keys);
    let b = pick(r, on.right_keys);
    if on.by_order {
        key_order(a, b) == Comparison::Equal
    } else {
        a == b
    }
}

/// Whether two rows join.
pub open spec fn joins(on: JoinOn, l: Seq<Value>, r: Seq<Value>) -> bool {
    keys_match(on, l, r) && row_passes(on.extra, l + r) == Some(true)
}

/// Whether an error says that values do not compare, in a join with tests on the merged row.
pub open spec fn cannot_compare(on: JoinOn, e: DbError) -> bool {
    e is IncomparableValues && on.extra.len() > 0
}

/// What two rows contribute to a join.
pub open spec fn pair(on: JoinOn, l: Seq<Value>, r: Seq<Value>) -> Multiset<Seq<Value>> {
    if joins(on, l, r) {
        Multiset::singleton(l + r)
    } else {
        Multiset::empty()
    }
}

/// One left row joined with right rows.
pub open spec fn left_with(on: JoinOn, l: Seq<Value>, rs: Seq<Seq<Value>>) -> Multiset<Seq<Value>>
    decreases rs.len(),
{
    if rs.len() == 0 {
        Multiset::empty()
    } else {
        left_with(on, l, rs.drop_last()).add(pair(on, l, rs.last()))
    }
}

/// One right row joined with left rows.
pub open spec fn right_with(on: JoinOn, ls: Seq<Seq<Value>>, r: Seq<Value>) -> Multiset<Seq<Value>>
    decreases ls.len(),
{
    if ls.len() == 0 {
        Multiset::empty()
    } else {
        right_with(on, ls.drop_last(), r).add(pair(on, ls.last(), r))
    }
}

/// The join of two relations: every pair of rows that joins, merged, as often as it occurs.
pub open spec fn join_of(on: JoinOn, ls: Seq<Seq<Value>>, rs: Seq<Seq<Value>>) -> Multiset<
    Seq<Value>,
>
    decreases ls.len(),
{
    if ls.len() == 0 {
        Multiset::empty()
    } else {
        join_of(on, ls.drop_last(), rs).add(left_with(on, ls.last(), rs))
    }
}

/// A join where the sides are known as the build side and the probe side.
pub open spec fn join_sides(
    on: JoinOn,
    build_is_left: bool,
    build: Seq<Seq<Value>>,
    probe: Seq<Seq<Value>>,
) -> Multiset<Seq<Value>> {
    if build_is_left {
        join_of(on, build, probe)
    } else {
        join_of(on, probe, build)
    }
}

/// One probe row joined with the build side.
pub open spec fn probe_with(
    on: JoinOn,
    build_is_left: bool,
    build: Seq<Seq<Value>>,
    p: Seq<Value>,
) -> Multiset<Seq<Value>> {
    if build_is_left {
        right_with(on, build, p)
    } else {
        left_with(on, p, build)
    }
}

pub proof fn lemma_left_with_push(on: JoinOn, l: Seq<Value>, rs: Seq<Seq<Value>>, r: Seq<Value>)
    ensures
        left_with(on, l, rs.push(r)) == left_with(on, l, rs).add(pair(on, l, r)),
{
    assert(rs.push(r).drop_last() =~= rs);
}

pub proof fn lemma_right_with_push(on: JoinOn, ls: Seq<Seq<Value>>, l: Seq<Value>, r: Seq<Value>)
    ensures
        right_with(on, ls.push(l), r) == right_with(on, ls, r).add(pair(on, l, r)),
{
    assert(ls.push(l).drop_last() =~= ls);
}

pub proof fn lemma_join_push_left(on: JoinOn, ls: Seq<Seq<Value>>, l: Seq<Value>, rs: Seq<
    Seq<Value>,
>)
    ensures
        join_of(on, ls.push(l), rs) == join_of(on, ls, rs).add(left_with(on, l, rs)),
{
    assert(ls.push(l).drop_last() =~= ls);
}

pub proof fn lemma_join_push_right(on: JoinOn, ls: Seq<Seq<Value>>, rs: Seq<Seq<Value>>, r: Seq<
    Value,
>)
    ensures
        join_of(on, ls, rs.push(r)) == join_of(on, ls, rs).add(right_with(on, ls, r)),
    decreases ls.len(),
{
    if ls.len() == 0 {
        assert(join_of(on, ls, rs.push(r)) =~= join_of(on, ls, rs).add(right_with(on, ls, r)));
    } else {
        let init = ls.drop_last();
        lemma_join_push_right(on, init, rs, r);
        lemma_left_with_push(on, ls.last(), rs, r);
        assert(join_of(on, ls, rs.push(r)) =~= join_of(on, ls, rs).add(right_with(on, ls, r)));
    }
}

pub proof fn lemma_join_empty_right(on: JoinOn, ls: Seq<Seq<Value>>)
    ensures
        join_of(on, ls, Seq::empty()) == Multiset::<Seq<Value>>::empty(),
    decreases ls.len(),
{
    if ls.len() > 0 {
        lemma_join_empty_right(on, ls.drop_last());
        assert(join_of(on, ls, Seq::empty()) =~= Multiset::<Seq<Value>>::empty());
    }
}

/// A join distributes over the rows of the left side.
pub proof fn join_splits_left(on: JoinOn, a: Seq<Seq<Value>>, b: Seq<Seq<Value>>, rs: Seq<
    Seq<Value>,
>)
    ensures
        join_of(on, a + b, rs) == join_of(on, a, rs).add(join_of(on, b, rs)),
    decreases b.len(),
{
    if b.len() == 0 {
        assert(a + b =~= a);
        assert(join_of(on, a + b, rs) =~= join_of(on, a, rs).add(join_of(on, b, rs)));
    } else {
        join_splits_left(on, a, b.drop_last(), rs);
        assert((a + b).drop_last() =~= a + b.drop_last());
        assert(join_of(on, a + b, rs) =~= join_of(on, a, rs).add(join_of(on, b, rs)));
    }
}

/// A join distributes over the rows of the right side.
pub proof fn join_splits_right(on: JoinOn, ls: Seq<Seq<Value>>, a: Seq<Seq<Value>>, b: Seq<
    Seq<Value>,
>)
    ensures
        join_of(on, ls, a + b) == join_of(on, ls, a).add(join_of(on, ls, b)),
    decreases b.len(),
{
    if b.len() == 0 {
        assert(a + b =~= a);
        assert(b =~= Seq::<Seq<Value>>::empty());
        lemma_join_empty_right(on, ls);
        assert(join_of(on, ls, a + b) =~= join_of(on, ls, a).add(join_of(on, ls, b)));
    } else {
        let init = b.drop_last();
        join_splits_right(on, ls, a, init);
        assert(a + b =~= (a + init).push(b.last()));
        assert(b =~= init.push(b.last()));
        lemma_join_push_right(on, ls, a + init, b.last());
        lemma_join_push_right(on, ls, init, b.last());
        assert(join_of(on, ls, a + b) =~= join_of(on, ls, a).add(join_of(on, ls, b)));
    }
}

/// The first probe row contributes its matches with the build side; the rest is the join of the
/// other probe rows.
pub proof fn lemma_probe_first(
    on: JoinOn,
    build_is_left: bool,
    build: Seq<Seq<Value>>,
    probe: Seq<Seq<Value>>,
)
    requires
        probe.len() > 0,
    ensures
        join_sides(on, build_is_left, build, probe) == probe_with(
            on,
            build_is_left,
            build,
            probe[0],
        ).add(join_sides(on, build_is_left, build, probe.drop_first())),
{
    let first = Seq::<Seq<Value>>::empty().push(probe[0]);
    let none = Seq::<Seq<Value>>::empty();
    assert(probe =~= first + probe.drop_first());
    if build_is_left {
        join_splits_right(on, build, first, probe.drop_first());
        lemma_join_push_right(on, build, none, probe[0]);
        lemma_join_empty_right(on, build);
        assert(join_of(on, build, first) =~= right_with(on, build, probe[0]));
    } else {
        join_splits_left(on, first, probe.drop_first(), build);
        lemma_join_push_left(on, none, probe[0], build);
        assert(join_of(on, first, build) =~= left_with(on, probe[0], build));
    }
}

/// The sum of `n` parts.
pub open spec fn sum_parts(n: nat, part: spec_fn(int) -> Multiset<Seq<Value>>) -> Multiset<
    Seq<Value>,
>
    decreases n,
{
    if n == 0 {
        Multiset::empty()
    } else {
        sum_parts((n - 1) as nat, part).add(part(n - 1))
    }
}

pub proof fn lemma_sum_same(
    n: nat,
    a: spec_fn(int) -> Multiset<Seq<Value>>,
    b: spec_fn(int) -> Multiset<Seq<Value>>,
)
    requires
        forall|p: int| 0 <= p < n ==> #[trigger] a(p) == b(p),
    ensures
        sum_parts(n, a) == sum_parts(n, b),
    decreases n,
{
    if n > 0 {
        lemma_sum_same((n - 1) as nat, a, b);
        assert(a(n - 1) == b(n - 1));
    }
}

/// Adding to one part adds to the sum.
pub proof fn lemma_sum_change(
    n: nat,
    a: spec_fn(int) -> Multiset<Seq<Value>>,
    b: spec_fn(int) -> Multiset<Seq<Value>>,
    at: int,
    more: Multiset<Seq<Value>>,
)
    requires
        0 <= at < n,
        b(at) == a(at).add(more),
        forall|p: int| 0 <= p < n && p != at ==> #[trigger] a(p) == b(p),
    ensures
        sum_parts(n, b) == sum_parts(n, a).add(more),
    decreases n,
{
    if at == n - 1 {
        lemma_sum_same((n - 1) as nat, a, b);
        assert(sum_parts(n, b) =~= sum_parts(n, a).add(more));
    } else {
        lemma_sum_change((n - 1) as nat, a, b, at, more);
        assert(a(n - 1) == b(n - 1));
        assert(sum_parts(n, b) =~= sum_parts(n, a).add(more));
    }
}

pub proof fn lemma_sum_empty(n: nat, a: spec_fn(int) -> Multiset<Seq<Value>>)
    requires
        forall|p: int| 0 <= p < n ==> #[trigger] a(p) == Multiset::<Seq<Value>>::empty(),
    ensures
        sum_parts(n, a) == Multiset::<Seq<Value>>::empty(),
    decreases n,
{
    if n > 0 {
        lemma_sum_empty((n - 1) as nat, a);
        assert(a(n - 1) == Multiset::<Seq<Value>>::empty());
        assert(sum_parts(n, a) =~= Multiset::<Seq<Value>>::empty());
    }
}

/// Right rows that cannot join a left row may be left out.
proof fn lemma_left_with_filtered(
    on: JoinOn,
    l: Seq<Value>,
    rs: Seq<Seq<Value>>,
    keep: spec_fn(Seq<Value>) -> bool,
)
    requires
        forall|i: int| 0 <= i < rs.len() && joins(on, l, #[trigger] rs[i]) ==> keep(rs[i]),
    ensures
        left_with(on, l, rs) == left_with(on, l, rs.filter(keep)),
    decreases rs.len(),
{
    reveal(Seq::filter);
    if rs.len() > 0 {
        let init = rs.drop_last();
        assert forall|i: int| 0 <= i < init.len() && joins(on, l, #[trigger] init[i]) implies keep(
            init[i],
        ) by {
            assert(init[i] == rs[i]);
        }
        lemma_left_with_filtered(on, l, init, keep);
        if keep(rs.last()) {
            lemma_left_with_push(on, l, init.filter(keep), rs.last());
        } else {
            assert(rs.last() == rs[rs.len() - 1]);
            assert(left_with(on, l, rs) =~= left_with(on, l, init));
        }
    }
}

/// The left rows of a part.
pub open spec fn left_part(ls: Seq<Seq<Value>>, part: spec_fn(Seq<Value>) -> int, p: int) -> Seq<
    Seq<Value>,
> {
    ls.filter(|l: Seq<Value>| part(l) == p)
}

/// The right rows of a part.
pub open spec fn right_part(
    rs: Seq<Seq<Value>>,
    belongs: spec_fn(int, Seq<Value>) -> bool,
    p: int,
) -> Seq<Seq<Value>> {
    rs.filter(|r: Seq<Value>| belongs(p, r))
}

pub proof fn lemma_left_part_push(
    ls: Seq<Seq<Value>>,
    l: Seq<Value>,
    part: spec_fn(Seq<Value>) -> int,
    p: int,
)
    ensures
        left_part(ls.push(l), part, p) == (if part(l) == p {
            left_part(ls, part, p).push(l)
        } else {
            left_part(ls, part, p)
        }),
{
    reveal(Seq::filter);
    assert(ls.push(l).drop_last() =~= ls);
}

pub proof fn lemma_right_part_push(
    rs: Seq<Seq<Value>>,
    r: Seq<Value>,
    belongs: spec_fn(int, Seq<Value>) -> bool,
    p: int,
)
    ensures
        right_part(rs.push(r), belongs, p) == (if belongs(p, r) {
            right_part(rs, belongs, p).push(r)
        } else {
            right_part(rs, belongs, p)
        }),
{
    reveal(Seq::filter);
    assert(rs.push(r).drop_last() =~= rs);
}

/// The join of one part.
pub open spec fn part_join(
    on: JoinOn,
    ls: Seq<Seq<Value>>,
    rs: Seq<Seq<Value>>,
    part: spec_fn(Seq<Value>) -> int,
    belongs: spec_fn(int, Seq<Value>) -> bool,
) -> spec_fn(int) -> Multiset<Seq<Value>> {
    |p: int| join_of(on, left_part(ls, part, p), right_part(rs, belongs, p))
}

/// Where the rows that join a left row all fall in the left row's part, the join is the sum of
/// the joins of the parts. Right rows that fall in no part contribute nothing.
pub proof fn join_splits_into_parts(
    on: JoinOn,
    ls: Seq<Seq<Value>>,
    rs: Seq<Seq<Value>>,
    n: nat,
    part: spec_fn(Seq<Value>) -> int,
    belongs: spec_fn(int, Seq<Value>) -> bool,
)
    requires
        forall|i: int| 0 <= i < ls.len() ==> 0 <= part(#[trigger] ls[i]) < n,
        forall|i: int, j: int|
            0 <= i < ls.len() && 0 <= j < rs.len() && joins(
                on,
                #[trigger] ls[i],
                #[trigger] rs[j],
            ) ==> belongs(part(ls[i]), rs[j]),
    ensures
        join_of(on, ls, rs) == sum_parts(n, part_join(on, ls, rs, part, belongs)),
    decreases ls.len(),
{
    let parts = part_join(on, ls, rs, part, belongs);
    if ls.len() == 0 {
        assert forall|p: int| 0 <= p < n implies #[trigger] parts(p) == Multiset::<
            Seq<Value>,
        >::empty() by {
            reveal(Seq::filter);
            assert(left_part(ls, part, p) =~= Seq::<Seq<Value>>::empty());
        }
        lemma_sum_empty(n, parts);
    } else {
        let init = ls.drop_last();
        let last = ls.last();
        let at = part(last);
        assert(ls[ls.len() - 1] == last);
        assert(ls =~= init.push(last));
        let before = part_join(on, init, rs, part, belongs);
        assert forall|i: int| 0 <= i < init.len() implies 0 <= part(#[trigger] init[i]) < n by {
            assert(init[i] == ls[i]);
        }
        assert forall|i: int, j: int|
            0 <= i < init.len() && 0 <= j < rs.len() && joins(
                on,
                #[trigger] init[i],
                #[trigger] rs[j],
            ) implies belongs(part(init[i]), rs[j]) by {
            assert(init[i] == ls[i]);
        }
        join_splits_into_parts(on, init, rs, n, part, belongs);
        let mine = right_part(rs, belongs, at);
        lemma_left_with_filtered(on, last, rs, |r: Seq<Value>| belongs(at, r));
        assert forall|p: int| 0 <= p < n && p != at implies #[trigger] before(p) == parts(p) by {
            lemma_left_part_push(init, last, part, p);
        }
        lemma_left_part_push(init, last, part, at);
        lemma_join_push_left(on, left_part(init, part, at), last, mine);
        lemma_sum_change(n, before, parts, at, left_with(on, last, mine));
    }
}

/// Build rows whose key differs contribute nothing, so they may be left out.
pub proof fn lemma_probe_with_filtered(
    on: JoinOn,
    build_is_left: bool,
    build: Seq<Seq<Value>>,
    p: Seq<Value>,
    keep: spec_fn(Seq<Value>) -> bool,
)
    requires
        forall|i: int|
            0 <= i < build.len() && (if build_is_left {
                joins(on, #[trigger] build[i], p)
            } else {
                joins(on, p, build[i])
            }) ==> keep(build[i]),
    ensures
        probe_with(on, build_is_left, build, p) == probe_with(
            on,
            build_is_left,
            build.filter(keep),
            p,
        ),
    decreases build.len(),
{
    reveal(Seq::filter);
    if build.len() > 0 {
        let init = build.drop_last();
        assert forall|i: int|
            0 <= i < init.len() && (if build_is_left {
                joins(on, #[trigger] init[i], p)
            } else {
                joins(on, p, init[i])
            }) implies keep(init[i]) by {
            assert(init[i] == build[i]);
        }
        lemma_probe_with_filtered(on, build_is_left, init, p, keep);
        let b = build.last();
        assert(build[build.len() - 1] == b);
        if build_is_left {
            if keep(b) {
                lemma_right_with_push(on, init.filter(keep), b, p);
            } else {
                assert(right_with(on, build, p) =~= right_with(on, init, p));
            }
        } else {
            if keep(b) {
                lemma_left_with_push(on, p, init.filter(keep), b);
            } else {
                assert(left_with(on, p, build) =~= left_with(on, p, init));
            }
        }
    }
}

} // verus!

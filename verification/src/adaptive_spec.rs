//! What a join gives out, and what each probe row contributes.

use vstd::multiset::Multiset;
use vstd::prelude::*;
use crate::join_spec::{JoinOn, join_of, join_sides, joins, lemma_probe_first, pair, probe_with};
use crate::value::Value;

verus! {

/// Which rows a join gives out: merged rows, or the rows of one side that have a match.
#[derive(Clone, Copy, Debug, PartialEq, Eq, Structural)]
pub enum JoinOutputMode {
    Full,
    KeepLeft,
    KeepRight,
}

/// The side whose rows a semijoin keeps.
#[derive(Clone, Copy, Debug, PartialEq, Eq, Structural)]
pub enum SemijoinKeepSide {
    Left,
    Right,
}

/// Whether a row joins one of the rows of the other side.
pub open spec fn has_partner(on: JoinOn, row_is_left: bool, row: Seq<Value>, others: Seq<
    Seq<Value>,
>) -> bool {
    exists|i: int|
        0 <= i < others.len() && if row_is_left {
            joins(on, row, #[trigger] others[i])
        } else {
            joins(on, others[i], row)
        }
}

/// The rows of one side that join a row of the other side.
pub open spec fn semijoin_of(
    on: JoinOn,
    keep_left: bool,
    kept: Seq<Seq<Value>>,
    others: Seq<Seq<Value>>,
) -> Multiset<Seq<Value>>
    decreases kept.len(),
{
    if kept.len() == 0 {
        Multiset::empty()
    } else {
        let before = semijoin_of(on, keep_left, kept.drop_last(), others);
        if has_partner(on, keep_left, kept.last(), others) {
            before.insert(kept.last())
        } else {
            before
        }
    }
}

/// What a join of two relations gives out, order aside.
pub open spec fn output_of(
    mode: JoinOutputMode,
    on: JoinOn,
    ls: Seq<Seq<Value>>,
    rs: Seq<Seq<Value>>,
) -> Multiset<Seq<Value>> {
    match mode {
        JoinOutputMode::Full => join_of(on, ls, rs),
        JoinOutputMode::KeepLeft => semijoin_of(on, true, ls, rs),
        JoinOutputMode::KeepRight => semijoin_of(on, false, rs, ls),
    }
}

/// What a probe row contributes: its merged rows, or itself where it has a match.
pub open spec fn contribution(
    full: bool,
    on: JoinOn,
    build_is_left: bool,
    build: Seq<Seq<Value>>,
    p: Seq<Value>,
) -> Multiset<Seq<Value>> {
    let found = probe_with(on, build_is_left, build, p);
    if full {
        found
    } else if found.len() == 0 {
        Multiset::empty()
    } else {
        Multiset::singleton(p)
    }
}

/// What several probe rows contribute.
pub open spec fn total(
    full: bool,
    on: JoinOn,
    build_is_left: bool,
    build: Seq<Seq<Value>>,
    probe: Seq<Seq<Value>>,
) -> Multiset<Seq<Value>>
    decreases probe.len(),
{
    if probe.len() == 0 {
        Multiset::empty()
    } else {
        total(full, on, build_is_left, build, probe.drop_last()).add(
            contribution(full, on, build_is_left, build, probe.last()),
        )
    }
}

pub proof fn lemma_total_push(
    full: bool,
    on: JoinOn,
    bl: bool,
    build: Seq<Seq<Value>>,
    probe: Seq<Seq<Value>>,
    p: Seq<Value>,
)
    ensures
        total(full, on, bl, build, probe.push(p)) == total(full, on, bl, build, probe).add(
            contribution(full, on, bl, build, p),
        ),
{
    assert(probe.push(p).drop_last() =~= probe);
}

pub proof fn lemma_total_first(
    full: bool,
    on: JoinOn,
    bl: bool,
    build: Seq<Seq<Value>>,
    probe: Seq<Seq<Value>>,
)
    requires
        probe.len() > 0,
    ensures
        total(full, on, bl, build, probe) == contribution(full, on, bl, build, probe[0]).add(
            total(full, on, bl, build, probe.drop_first()),
        ),
    decreases probe.len(),
{
    let none = Multiset::<Seq<Value>>::empty();
    if probe.len() == 1 {
        assert(probe.drop_last() =~= Seq::<Seq<Value>>::empty());
        assert(probe.drop_first() =~= Seq::<Seq<Value>>::empty());
        reveal_with_fuel(total, 2);
        assert(total(full, on, bl, build, probe) =~= contribution(
            full,
            on,
            bl,
            build,
            probe[0],
        ).add(none));
    } else {
        lemma_total_first(full, on, bl, build, probe.drop_last());
        let rest = probe.drop_first();
        assert(rest.drop_last() =~= probe.drop_last().drop_first());
        assert(rest.last() == probe.last());
        assert(total(full, on, bl, build, probe) =~= contribution(
            full,
            on,
            bl,
            build,
            probe[0],
        ).add(total(full, on, bl, build, rest)));
    }
}

/// Two build sides in which every probe row finds the same have the same total.
pub proof fn lemma_total_same(
    full: bool,
    on: JoinOn,
    bl: bool,
    a: Seq<Seq<Value>>,
    b: Seq<Seq<Value>>,
    probe: Seq<Seq<Value>>,
)
    requires
        forall|i: int|
            0 <= i < probe.len() ==> probe_with(on, bl, a, #[trigger] probe[i]) == probe_with(
                on,
                bl,
                b,
                probe[i],
            ),
    ensures
        total(full, on, bl, a, probe) == total(full, on, bl, b, probe),
    decreases probe.len(),
{
    if probe.len() > 0 {
        let init = probe.drop_last();
        assert forall|i: int| 0 <= i < init.len() implies probe_with(
            on,
            bl,
            a,
            #[trigger] init[i],
        ) == probe_with(on, bl, b, init[i]) by {
            assert(init[i] == probe[i]);
        }
        lemma_total_same(full, on, bl, a, b, init);
        assert(probe[probe.len() - 1] == probe.last());
    }
}

/// In full mode the total is the join.
pub proof fn lemma_total_is_join(
    on: JoinOn,
    bl: bool,
    build: Seq<Seq<Value>>,
    probe: Seq<Seq<Value>>,
)
    ensures
        total(true, on, bl, build, probe) == join_sides(on, bl, build, probe),
    decreases probe.len(),
{
    if probe.len() == 0 {
        assert(probe =~= Seq::<Seq<Value>>::empty());
        if bl {
            crate::join_spec::lemma_join_empty_right(on, build);
        }
    } else {
        lemma_probe_first(on, bl, build, probe);
        lemma_total_first(true, on, bl, build, probe);
        lemma_total_is_join(on, bl, build, probe.drop_first());
    }
}

proof fn lemma_found_iff(
    on: JoinOn,
    build_is_left: bool,
    build: Seq<Seq<Value>>,
    p: Seq<Value>,
)
    ensures
        probe_with(on, build_is_left, build, p).len() > 0 <==> has_partner(
            on,
            !build_is_left,
            p,
            build,
        ),
    decreases build.len(),
{
    if build.len() > 0 {
        let init = build.drop_last();
        let last = build.last();
        lemma_found_iff(on, build_is_left, init, p);
        let before = probe_with(on, build_is_left, init, p);
        let one = if build_is_left {
            pair(on, last, p)
        } else {
            pair(on, p, last)
        };
        assert(probe_with(on, build_is_left, build, p) == before.add(one));
        assert(before.add(one).len() == before.len() + one.len());
        if has_partner(on, !build_is_left, p, init) {
            let i = choose|i: int|
                0 <= i < init.len() && if !build_is_left {
                    joins(on, p, #[trigger] init[i])
                } else {
                    joins(on, init[i], p)
                };
            assert(build[i] == init[i]);
            assert(has_partner(on, !build_is_left, p, build));
        }
        if has_partner(on, !build_is_left, p, build) {
            let i = choose|i: int|
                0 <= i < build.len() && if !build_is_left {
                    joins(on, p, #[trigger] build[i])
                } else {
                    joins(on, build[i], p)
                };
            if i < init.len() {
                assert(init[i] == build[i]);
                assert(has_partner(on, !build_is_left, p, init));
            } else {
                assert(build[i] == last);
                assert(one.len() == 1);
            }
        }
        if one.len() > 0 {
            assert(build[build.len() - 1] == last);
            assert(has_partner(on, !build_is_left, p, build));
        }
    }
}

/// In semijoin mode the total is the semijoin that keeps the probe side.
pub proof fn lemma_total_is_semijoin(
    on: JoinOn,
    build_is_left: bool,
    build: Seq<Seq<Value>>,
    probe: Seq<Seq<Value>>,
)
    ensures
        total(false, on, build_is_left, build, probe) == semijoin_of(
            on,
            !build_is_left,
            probe,
            build,
        ),
    decreases probe.len(),
{
    if probe.len() > 0 {
        lemma_total_is_semijoin(on, build_is_left, build, probe.drop_last());
        lemma_found_iff(on, build_is_left, build, probe.last());
        assert(total(false, on, build_is_left, build, probe) =~= semijoin_of(
            on,
            !build_is_left,
            probe,
            build,
        ));
    }
}

/// Rows that find nothing contribute nothing.
pub proof fn lemma_no_contribution(
    full: bool,
    on: JoinOn,
    bl: bool,
    build: Seq<Seq<Value>>,
    p: Seq<Value>,
)
    requires
        forall|i: int|
            0 <= i < build.len() ==> !(if bl {
                joins(on, #[trigger] build[i], p)
            } else {
                joins(on, p, build[i])
            }),
    ensures
        probe_with(on, bl, build, p) == Multiset::<Seq<Value>>::empty(),
        contribution(full, on, bl, build, p) == Multiset::<Seq<Value>>::empty(),
    decreases build.len(),
{
    if build.len() > 0 {
        let init = build.drop_last();
        assert forall|i: int| 0 <= i < init.len() implies !(if bl {
            joins(on, #[trigger] init[i], p)
        } else {
            joins(on, p, init[i])
        }) by {
            assert(init[i] == build[i]);
        }
        lemma_no_contribution(full, on, bl, init, p);
        assert(build[build.len() - 1] == build.last());
        assert(probe_with(on, bl, build, p) =~= Multiset::<Seq<Value>>::empty());
    }
}

pub proof fn lemma_total_empty_build(
    full: bool,
    on: JoinOn,
    bl: bool,
    build: Seq<Seq<Value>>,
    probe: Seq<Seq<Value>>,
)
    requires
        build.len() == 0,
    ensures
        total(full, on, bl, build, probe) == Multiset::<Seq<Value>>::empty(),
    decreases probe.len(),
{
    if probe.len() > 0 {
        lemma_total_empty_build(full, on, bl, build, probe.drop_last());
        lemma_no_contribution(full, on, bl, build, probe.last());
        assert(total(full, on, bl, build, probe) =~= Multiset::<Seq<Value>>::empty());
    }
}

/// One more build row adds what it makes with the probe row.
pub proof fn lemma_found_push(
    on: JoinOn,
    bl: bool,
    build: Seq<Seq<Value>>,
    b: Seq<Value>,
    p: Seq<Value>,
)
    ensures
        probe_with(on, bl, build.push(b), p) == probe_with(on, bl, build, p).add(
            if bl {
                pair(on, b, p)
            } else {
                pair(on, p, b)
            },
        ),
{
    assert(build.push(b).drop_last() =~= build);
}

pub proof fn lemma_found_concat(
    on: JoinOn,
    bl: bool,
    a: Seq<Seq<Value>>,
    b: Seq<Seq<Value>>,
    p: Seq<Value>,
)
    ensures
        probe_with(on, bl, a + b, p) == probe_with(on, bl, a, p).add(probe_with(on, bl, b, p)),
    decreases b.len(),
{
    if b.len() == 0 {
        assert(a + b =~= a);
        assert(probe_with(on, bl, a + b, p) =~= probe_with(on, bl, a, p).add(
            probe_with(on, bl, b, p),
        ));
    } else {
        lemma_found_concat(on, bl, a, b.drop_last(), p);
        assert((a + b).drop_last() =~= a + b.drop_last());
        assert((a + b).last() == b.last());
        assert(probe_with(on, bl, a + b, p) =~= probe_with(on, bl, a, p).add(
            probe_with(on, bl, b, p),
        ));
    }
}

} // verus!

//! A join block gives the rows that its filter over a tree of cross products asks for.

use vstd::prelude::*;
use crate::answer::{all_met, all_pairs, answer, before_each, is_met, lemma_passes_named, lemma_total_join, lemma_total_pairs, named, total_named, where_met};
use crate::catalog::TableSpec;
use crate::join_builder::joined_on;
use crate::join_order::{Link, between, conditions_of, is_known, link_of, local_to, owner_is_first, owner_of};
use crate::join_plan::{equated, key_pairs, residual};
use crate::join_spec::joins;
use crate::names::{all_columns_are_read, all_columns_of, columns_of};
use crate::pipeline::{is_result, tests_of};
use crate::plan::{PlanIssue, PlanTree, plan_columns};
use crate::plan_answer::{agree, both, depends, have_len, holds_needed, lemma_both_agree, lemma_join_len, lemma_met_alike, lemma_named_both};
use crate::plan_laws::{is_needed, lemma_concat_contains, lemma_leaf_columns, lemma_left_deep_columns};
use crate::planner::{JoinBlock, join_conditions, leaf_needs, leaves_of, left_deep, logical_columns};
use crate::query::{ComparisionOperator, Condition, Operand, QueryOp};
use crate::row::pick;
use crate::scan::TableFiles;
use crate::sums::{can_choose, nest, nest_append, nest_ignores_order, nest_same, nest_step, total, total_same, total_zero};
use crate::value::{Value, values_equal};

verus! {

/// The named values of rows that were chosen from the relations of a block.
pub open spec fn looked_up(block: JoinBlock, m: Map<int, Seq<Value>>) -> spec_fn(Seq<char>) -> Value {
    |c: Seq<char>|
        {
            let i = owner_of(block.schemas, c)->0;
            named(block.schemas[i], m[i])(c)
        }
}

/// Whether a condition between relations holds the way a join tests it: an equality of columns
/// holds of values that are the same.
pub open spec fn is_joined(c: Condition, at: spec_fn(Seq<char>) -> Value) -> bool {
    match c.operand {
        Operand::Column(other) if c.operator == ComparisionOperator::EQ => at(c.column) == at(
            other,
        ),
        _ => is_met(c, at),
    }
}

pub open spec fn all_joined(cs: Seq<Condition>, at: spec_fn(Seq<char>) -> Value) -> bool {
    forall|i: int| 0 <= i < cs.len() ==> is_joined(#[trigger] cs[i], at)
}

/// Whether a link holds, once the relations of a list are joined.
pub open spec fn link_holds(l: Link, list: Seq<int>, at: spec_fn(Seq<char>) -> Value) -> bool {
    if l.first == l.second {
        list.contains(l.first) ==> is_met(l.condition, at)
    } else {
        list.contains(l.first) && list.contains(l.second) ==> is_joined(l.condition, at)
    }
}

/// Whether the conditions hold that touch only the relations of a list.
pub open spec fn links_hold(
    ls: Seq<Link>,
    list: Seq<int>,
    at: spec_fn(Seq<char>) -> Value,
) -> bool {
    forall|k: int| 0 <= k < ls.len() ==> link_holds(#[trigger] ls[k], list, at)
}

/// What a choice of rows counts for, once the relations of a list are joined.
pub open spec fn choice_weight(
    block: JoinBlock,
    list: Seq<int>,
    w: spec_fn(spec_fn(Seq<char>) -> Value) -> nat,
) -> spec_fn(Map<int, Seq<Value>>) -> nat {
    |m: Map<int, Seq<Value>>|
        if links_hold(block.links, list, looked_up(block, m)) {
            w(looked_up(block, m))
        } else {
            0
        }
}

/// Whether named values agree on the columns that the relations of a list have to give.
pub open spec fn agree_on(
    block: JoinBlock,
    list: Seq<int>,
    a: spec_fn(Seq<char>) -> Value,
    b: spec_fn(Seq<char>) -> Value,
) -> bool {
    forall|c: Seq<char>, i: int|
        #[trigger] owner_of(block.schemas, c) == Some(i) && #[trigger] list.contains(i)
            && is_needed(leaf_needs(block, i), c) ==> a(c) == b(c)
}

pub open spec fn depends_on(
    w: spec_fn(spec_fn(Seq<char>) -> Value) -> nat,
    block: JoinBlock,
    list: Seq<int>,
) -> bool {
    forall|a: spec_fn(Seq<char>) -> Value, b: spec_fn(Seq<char>) -> Value| #[trigger]
        agree_on(block, list, a, b) ==> w(a) == w(b)
}

/// Whether a block is what a flattened query is: each column is held by one relation, and each
/// link knows the relations of its condition.
pub open spec fn block_ok(tables: Seq<TableSpec>, block: JoinBlock) -> bool {
    &&& block.leaves.len() == block.schemas.len()
    &&& forall|i: int|
        0 <= i < block.leaves.len() ==> logical_columns(tables, #[trigger] block.leaves[i])
            == Ok::<Seq<Seq<char>>, PlanIssue>(block.schemas[i])
    &&& forall|i: int, c: Seq<char>|
        0 <= i < block.schemas.len() && (#[trigger] block.schemas[i]).contains(c) ==> #[trigger]
        owner_of(block.schemas, c) == Some(i)
    &&& forall|k: int|
        0 <= k < block.links.len() ==> is_known(
            block.schemas,
            (#[trigger] block.links[k]).condition,
        ) && block.links[k] == link_of(block.schemas, block.links[k].condition)
}

/// The conditions of some links hold where each of the links' conditions does.
proof fn lemma_links_of(
    ls: Seq<Link>,
    keep: spec_fn(Link) -> bool,
    ok: spec_fn(Condition) -> bool,
)
    ensures
        (forall|i: int|
            0 <= i < conditions_of(ls.filter(keep)).len() ==> ok(
                #[trigger] conditions_of(ls.filter(keep))[i],
            )) <==> (forall|k: int|
            0 <= k < ls.len() && keep(#[trigger] ls[k]) ==> ok(ls[k].condition)),
    decreases ls.len(),
{
    reveal(Seq::filter);
    let cs = conditions_of(ls.filter(keep));
    if ls.len() > 0 {
        let init = ls.drop_last();
        let last = ls.last();
        let before = conditions_of(init.filter(keep));
        lemma_links_of(init, keep, ok);
        if keep(last) {
            assert(cs =~= before.push(last.condition));
        } else {
            assert(cs =~= before);
        }
        if forall|i: int| 0 <= i < cs.len() ==> ok(#[trigger] cs[i]) {
            assert forall|i: int| 0 <= i < before.len() implies ok(#[trigger] before[i]) by {
                assert(cs[i] == before[i]);
            }
            assert forall|k: int| 0 <= k < ls.len() && keep(#[trigger] ls[k]) implies ok(
                ls[k].condition,
            ) by {
                if k < init.len() {
                    assert(init[k] == ls[k]);
                } else {
                    assert(cs[before.len() as int] == last.condition);
                }
            }
        }
        if forall|k: int| 0 <= k < ls.len() && keep(#[trigger] ls[k]) ==> ok(ls[k].condition) {
            assert forall|k: int| 0 <= k < init.len() && keep(#[trigger] init[k]) implies ok(
                init[k].condition,
            ) by {
                assert(init[k] == ls[k]);
            }
            assert forall|i: int| 0 <= i < cs.len() implies ok(#[trigger] cs[i]) by {
                if i < before.len() {
                    assert(cs[i] == before[i]);
                } else {
                    assert(keep(ls[ls.len() - 1]));
                }
            }
        }
    } else {
        assert(cs =~= Seq::<Condition>::empty());
    }
}

/// What the relations of a link are.
pub proof fn lemma_link_owners(tables: Seq<TableSpec>, block: JoinBlock, k: int)
    requires
        block_ok(tables, block),
        0 <= k < block.links.len(),
    ensures
        ({
            let l = block.links[k];
            let n = block.leaves.len();
            &&& 0 <= l.first < n
            &&& 0 <= l.second < n
            &&& owner_of(block.schemas, l.condition.column) == Some(l.first)
            &&& l.condition.operand matches Operand::Column(other) ==> owner_of(
                block.schemas,
                other,
            ) == Some(l.second)
            &&& l.condition.operand is Literal ==> l.first == l.second
        }),
{
    let l = block.links[k];
    owner_is_first(block.schemas, l.condition.column);
    if let Operand::Column(other) = l.condition.operand {
        owner_is_first(block.schemas, other);
    }
}

/// A relation gives the columns that the conditions read.
pub proof fn lemma_link_needed(tables: Seq<TableSpec>, block: JoinBlock, k: int, c: Seq<char>, i: int)
    requires
        block_ok(tables, block),
        0 <= k < block.links.len(),
        columns_of(block.links[k].condition).contains(c),
        owner_of(block.schemas, c) == Some(i),
    ensures
        is_needed(leaf_needs(block, i), c),
{
    if let Some(set) = block.needed {
        let cs = conditions_of(block.links);
        all_columns_are_read(cs, c);
        assert(cs[k] == block.links[k].condition);
        assert(columns_of(cs[k]).contains(c));
        let mine = set.union(all_columns_of(cs)).filter(
            |c: Seq<char>| owner_of(block.schemas, c) == Some(i),
        );
        assert(mine.contains(c));
    }
}

/// Whether a condition, if it equates two columns, equates a column of each side.
pub open spec fn is_across(ls: Seq<Seq<char>>, rs: Seq<Seq<char>>, c: Condition) -> bool {
    c.operator == ComparisionOperator::EQ ==> match c.operand {
        Operand::Column(other) => {
            ||| ls.contains(c.column) && rs.contains(other) && !ls.contains(other)
            ||| rs.contains(c.column) && !ls.contains(c.column) && ls.contains(other)
        },
        Operand::Literal(_) => true,
    }
}

/// Keys that match and the other conditions that hold are all conditions, tested as a join does.
proof fn lemma_split_conditions(
    ls: Seq<Seq<char>>,
    rs: Seq<Seq<char>>,
    cs: Seq<Condition>,
    x: Seq<Value>,
    y: Seq<Value>,
)
    requires
        x.len() == ls.len(),
        y.len() == rs.len(),
        forall|i: int| 0 <= i < cs.len() ==> is_across(ls, rs, #[trigger] cs[i]),
    ensures
        ({
            let pairs = key_pairs(ls, rs, cs);
            let at = named(ls + rs, x + y);
            (forall|j: int|
                0 <= j < pairs.len() ==> x[(#[trigger] pairs[j]).0] == y[pairs[j].1]) && all_met(
                residual(ls, rs, cs),
                at,
            ) <==> all_joined(cs, at)
        }),
    decreases cs.len(),
{
    let at = named(ls + rs, x + y);
    let pairs = key_pairs(ls, rs, cs);
    let rest = residual(ls, rs, cs);
    if cs.len() > 0 {
        let init = cs.drop_last();
        let last = cs.last();
        let p0 = key_pairs(ls, rs, init);
        let r0 = residual(ls, rs, init);
        assert forall|i: int| 0 <= i < init.len() implies is_across(ls, rs, #[trigger] init[i]) by {
            assert(init[i] == cs[i]);
        }
        lemma_split_conditions(ls, rs, init, x, y);
        assert(cs[cs.len() - 1] == last);
        assert(is_across(ls, rs, last));
        assert(all_joined(cs, at) <==> all_joined(init, at) && is_joined(last, at)) by {
            assert forall|i: int| 0 <= i < cs.len() && all_joined(init, at) && is_joined(
                last,
                at,
            ) implies is_joined(#[trigger] cs[i], at) by {
                if i < init.len() {
                    assert(init[i] == cs[i]);
                }
            }
            if all_joined(cs, at) {
                assert forall|i: int| 0 <= i < init.len() implies is_joined(
                    #[trigger] init[i],
                    at,
                ) by {
                    assert(init[i] == cs[i]);
                }
            }
        }
        match equated(ls, rs, last) {
            Some(p) => {
                assert(pairs == p0.push(p));
                assert(rest == r0);
                let other = last.operand->Column_0;
                lemma_named_both(ls, rs, x, y, last.column);
                lemma_named_both(ls, rs, x, y, other);
                assert(x[p.0] == y[p.1] <==> is_joined(last, at));
                assert((forall|j: int|
                    0 <= j < pairs.len() ==> x[(#[trigger] pairs[j]).0] == y[pairs[j].1]) <==> (
                forall|j: int| 0 <= j < p0.len() ==> x[(#[trigger] p0[j]).0] == y[p0[j].1])
                    && x[p.0] == y[p.1]) by {
                    if forall|j: int|
                        0 <= j < pairs.len() ==> x[(#[trigger] pairs[j]).0] == y[pairs[j].1] {
                        assert forall|j: int| 0 <= j < p0.len() implies x[(#[trigger] p0[j]).0]
                            == y[p0[j].1] by {
                            assert(pairs[j] == p0[j]);
                        }
                        assert(pairs[p0.len() as int] == p);
                    }
                    if (forall|j: int| 0 <= j < p0.len() ==> x[(#[trigger] p0[j]).0] == y[p0[j].1])
                        && x[p.0] == y[p.1] {
                        assert forall|j: int| 0 <= j < pairs.len() implies x[(#[trigger] pairs[j]).0]
                            == y[pairs[j].1] by {
                            if j < p0.len() {
                                assert(pairs[j] == p0[j]);
                            }
                        }
                    }
                }
            },
            None => {
                assert(pairs == p0);
                assert(rest == r0.push(last));
                assert(is_joined(last, at) == is_met(last, at));
                assert(all_met(rest, at) <==> all_met(r0, at) && is_met(last, at)) by {
                    if all_met(rest, at) {
                        assert forall|i: int| 0 <= i < r0.len() implies is_met(
                            #[trigger] r0[i],
                            at,
                        ) by {
                            assert(rest[i] == r0[i]);
                        }
                        assert(rest[r0.len() as int] == last);
                    }
                    if all_met(r0, at) && is_met(last, at) {
                        assert forall|i: int| 0 <= i < rest.len() implies is_met(
                            #[trigger] rest[i],
                            at,
                        ) by {
                            if i < r0.len() {
                                assert(rest[i] == r0[i]);
                            }
                        }
                    }
                }
            },
        }
    }
}

/// Two rows join where all conditions hold, tested as a join does.
proof fn lemma_joins_named(
    ls: Seq<Seq<char>>,
    rs: Seq<Seq<char>>,
    cs: Seq<Condition>,
    x: Seq<Value>,
    y: Seq<Value>,
)
    requires
        x.len() == ls.len(),
        y.len() == rs.len(),
        forall|i: int| 0 <= i < cs.len() ==> is_across(ls, rs, #[trigger] cs[i]),
    ensures
        joins(joined_on(ls, rs, cs), x, y) <==> all_joined(cs, named(ls + rs, x + y)),
{
    let on = joined_on(ls, rs, cs);
    let pairs = key_pairs(ls, rs, cs);
    let a = pick(x, on.left_keys);
    let b = pick(y, on.right_keys);
    lemma_split_conditions(ls, rs, cs, x, y);
    lemma_passes_named(ls + rs, residual(ls, rs, cs), x + y);
    assert(on.extra =~= tests_of(ls + rs, residual(ls, rs, cs)));
    if a == b {
        assert forall|j: int| 0 <= j < pairs.len() implies x[(#[trigger] pairs[j]).0]
            == y[pairs[j].1] by {
            assert(a[j] == b[j]);
        }
    }
    if forall|j: int| 0 <= j < pairs.len() ==> x[(#[trigger] pairs[j]).0] == y[pairs[j].1] {
        assert forall|j: int| 0 <= j < a.len() implies a[j] == b[j] by {
            assert(x[pairs[j].0] == y[pairs[j].1]);
        }
        assert(a =~= b);
    }
}

/// The positions from one up to another.
pub open spec fn span(from: int, to: int) -> Seq<int> {
    Seq::new((to - from) as nat, |i: int| from + i)
}

/// The rows of the relations of a block.
pub open spec fn relations(tables: Seq<TableSpec>, block: JoinBlock, files: TableFiles) -> spec_fn(
    int,
) -> Seq<Seq<Value>> {
    |i: int| answer(tables, block.leaves[i], files)
}

/// The pairs of rows have the lengths of both.
pub proof fn lemma_pairs_len(ls: Seq<Seq<Value>>, rs: Seq<Seq<Value>>, n: nat, m: nat)
    requires
        have_len(ls, n),
        have_len(rs, m),
    ensures
        have_len(all_pairs(ls, rs), n + m),
    decreases ls.len(),
{
    if ls.len() > 0 {
        let init = ls.drop_last();
        assert forall|i: int| 0 <= i < init.len() implies (#[trigger] init[i]).len() == n by {
            assert(init[i] == ls[i]);
        }
        lemma_pairs_len(init, rs, n, m);
        let a = all_pairs(init, rs);
        let b = before_each(ls.last(), rs);
        assert(ls[ls.len() - 1].len() == n);
        assert forall|i: int| 0 <= i < (a + b).len() implies (#[trigger] (a + b)[i]).len() == n
            + m by {
            if i < a.len() {
                assert((a + b)[i] == a[i]);
            } else {
                assert((a + b)[i] == b[i - a.len()]);
                assert(rs[i - a.len()].len() == m);
            }
        }
    }
}

/// The rows of a tree of cross products are all choices of rows of its relations.
pub proof fn lemma_leaves_nest(
    tables: Seq<TableSpec>,
    block: JoinBlock,
    files: TableFiles,
    op: QueryOp,
    base: int,
    chosen: Map<int, Seq<Value>>,
    w: spec_fn(spec_fn(Seq<char>) -> Value) -> nat,
)
    requires
        block_ok(tables, block),
        0 <= base,
        base + leaves_of(op).len() <= block.leaves.len(),
        forall|i: int|
            0 <= i < leaves_of(op).len() ==> #[trigger] leaves_of(op)[i] == block.leaves[base + i],
        forall|i: int|
            0 <= i < block.leaves.len() ==> have_len(
                #[trigger] relations(tables, block, files)(i),
                block.schemas[i].len(),
            ),
    ensures
        logical_columns(tables, op) is Ok,
        have_len(answer(tables, op, files), (logical_columns(tables, op)->Ok_0).len()),
        forall|c: Seq<char>| #[trigger]
            (logical_columns(tables, op)->Ok_0).contains(c) ==> (owner_of(block.schemas, c) matches
                Some(i) && base <= i < base + leaves_of(op).len()),
        depends(w, logical_columns(tables, op)->Ok_0, None) ==> total_named(
            logical_columns(tables, op)->Ok_0,
            answer(tables, op, files),
            w,
        ) == nest(
            relations(tables, block, files),
            span(base, base + leaves_of(op).len()),
            chosen,
            |m: Map<int, Seq<Value>>| w(looked_up(block, m)),
        ),
    decreases op,
{
    let offered = relations(tables, block, files);
    let leaves = leaves_of(op);
    let g = |m: Map<int, Seq<Value>>| w(looked_up(block, m));
    match op {
        QueryOp::Cross(d) => {
            let left = leaves_of(*d.left);
            let right = leaves_of(*d.right);
            let mid = base + left.len();
            let end = mid + right.len();
            assert forall|i: int| 0 <= i < left.len() implies #[trigger] left[i]
                == block.leaves[base + i] by {
                assert(leaves[i] == left[i]);
            }
            assert forall|i: int| 0 <= i < right.len() implies #[trigger] right[i]
                == block.leaves[mid + i] by {
                assert(leaves[left.len() + i] == right[i]);
            }
            let lc = logical_columns(tables, *d.left)->Ok_0;
            let rc = logical_columns(tables, *d.right)->Ok_0;
            let a = answer(tables, *d.left, files);
            let b = answer(tables, *d.right, files);
            // What a left row counts for, by its named values.
            let outer = |e: spec_fn(Seq<char>) -> Value|
                total_named(rc, b, |f: spec_fn(Seq<char>) -> Value| w(both(lc, e, f)));
            lemma_leaves_nest(tables, block, files, *d.left, base, chosen, outer);
            lemma_leaves_nest(tables, block, files, *d.right, mid, chosen, w);
            lemma_pairs_len(a, b, lc.len(), rc.len());
            assert forall|c: Seq<char>| #[trigger] (lc + rc).contains(c) implies (owner_of(
                block.schemas,
                c,
            ) matches Some(i) && base <= i < end) by {
                lemma_concat_contains(lc, rc, c);
            }
            if depends(w, lc + rc, None) {
                lemma_cross_weights(lc, rc, a, b, w);
                let g_left = |m: Map<int, Seq<Value>>| outer(looked_up(block, m));
                let g_both = |m: Map<int, Seq<Value>>| nest(offered, span(mid, end), m, g);
                assert forall|m: Map<int, Seq<Value>>| #[trigger]
                    can_choose(offered, span(base, mid), chosen, m) implies g_left(m) == g_both(
                    m,
                ) by {
                    let e = looked_up(block, m);
                    let v = |f: spec_fn(Seq<char>) -> Value| w(both(lc, e, f));
                    assert(depends(v, rc, None)) by {
                        assert forall|
                            f: spec_fn(Seq<char>) -> Value,
                            h: spec_fn(Seq<char>) -> Value,
                        | #[trigger] agree(f, h, rc, None) implies v(f) == v(h) by {
                            assert(agree(both(lc, e, f), both(lc, e, h), lc + rc, None)) by {
                                assert forall|c: Seq<char>| #[trigger] (lc + rc).contains(
                                    c,
                                ) && is_needed(None, c) implies both(lc, e, f)(c) == both(
                                    lc,
                                    e,
                                    h,
                                )(c) by {
                                    lemma_concat_contains(lc, rc, c);
                                    if !lc.contains(c) {
                                        assert(rc.contains(c));
                                    }
                                }
                            }
                        }
                    }
                    lemma_leaves_nest(tables, block, files, *d.right, mid, m, v);
                    let p = |n: Map<int, Seq<Value>>| v(looked_up(block, n));
                    assert forall|n: Map<int, Seq<Value>>| #[trigger]
                        can_choose(offered, span(mid, end), m, n) implies p(n) == g(n) by {
                        let f = looked_up(block, n);
                        assert(agree(both(lc, e, f), f, lc + rc, None)) by {
                            assert forall|c: Seq<char>| #[trigger] (lc + rc).contains(c)
                                && is_needed(None, c) implies both(lc, e, f)(c) == f(c) by {
                                if lc.contains(c) {
                                    let i = owner_of(block.schemas, c)->0;
                                    assert(base <= i < mid);
                                    lemma_span(mid, end, i);
                                    lemma_span(base, mid, i);
                                    assert(!span(mid, end).contains(i));
                                    assert(span(base, mid).contains(i));
                                    assert(m.dom().contains(i));
                                    assert(n[i] == m[i]);
                                }
                            }
                        }
                    }
                    nest_same(offered, span(mid, end), m, p, g);
                }
                nest_same(offered, span(base, mid), chosen, g_left, g_both);
                assert(span(base, mid) + span(mid, end) =~= span(base, end));
                nest_append(offered, span(base, mid), span(mid, end), chosen, g);
            }
        },
        _ => {
            assert(leaves[0] == op);
            assert(block.leaves[base] == op);
            let columns = block.schemas[base];
            let rows = answer(tables, op, files);
            assert(offered(base) == rows);
            assert(have_len(rows, columns.len()));
            let one = span(base, base + 1);
            assert(one.len() == 1 && one[0] == base);
            nest_step(offered, one, chosen, g);
            assert(one.drop_first() =~= Seq::<int>::empty());
            if depends(w, columns, None) {
                let p = |row: Seq<Value>| w(named(columns, row));
                let q = |row: Seq<Value>|
                    nest(offered, one.drop_first(), chosen.insert(one[0], row), g);
                assert forall|k: int| 0 <= k < rows.len() implies p(#[trigger] rows[k]) == q(
                    rows[k],
                ) by {
                    let m = chosen.insert(base, rows[k]);
                    let e = named(columns, rows[k]);
                    let f = looked_up(block, m);
                    assert(agree(e, f, columns, None)) by {
                        assert forall|c: Seq<char>| #[trigger] columns.contains(c) && is_needed(
                            None,
                            c,
                        ) implies e(c) == f(c) by {
                            assert(owner_of(block.schemas, c) == Some(base));
                        }
                    }
                    assert(q(rows[k]) == g(m));
                }
                total_same(rows, p, q);
            }
            assert forall|c: Seq<char>| #[trigger] columns.contains(c) implies (owner_of(
                block.schemas,
                c,
            ) matches Some(i) && base <= i < base + 1) by {
                assert(owner_of(block.schemas, c) == Some(base));
            }
        },
    }
}

proof fn lemma_span(from: int, to: int, i: int)
    requires
        from <= to,
    ensures
        span(from, to).contains(i) <==> from <= i < to,
{
    if from <= i < to {
        assert(span(from, to)[i - from] == i);
    }
}

/// The sum over all pairs is the sum over left rows of what they count for.
proof fn lemma_cross_weights(
    lc: Seq<Seq<char>>,
    rc: Seq<Seq<char>>,
    a: Seq<Seq<Value>>,
    b: Seq<Seq<Value>>,
    w: spec_fn(spec_fn(Seq<char>) -> Value) -> nat,
)
    requires
        have_len(a, lc.len()),
        have_len(b, rc.len()),
        depends(w, lc + rc, None),
    ensures
        total_named(lc + rc, all_pairs(a, b), w) == total_named(
            lc,
            a,
            |e: spec_fn(Seq<char>) -> Value|
                total_named(rc, b, |f: spec_fn(Seq<char>) -> Value| w(both(lc, e, f))),
        ),
        depends(
            |e: spec_fn(Seq<char>) -> Value|
                total_named(rc, b, |f: spec_fn(Seq<char>) -> Value| w(both(lc, e, f))),
            lc,
            None,
        ),
{
    let outer = |e: spec_fn(Seq<char>) -> Value|
        total_named(rc, b, |f: spec_fn(Seq<char>) -> Value| w(both(lc, e, f)));
    let g = |row: Seq<Value>| w(named(lc + rc, row));
    lemma_total_pairs(a, b, g);
    let p = |x: Seq<Value>| total(b, |y: Seq<Value>| g(x + y));
    let q = |x: Seq<Value>| outer(named(lc, x));
    assert forall|i: int| 0 <= i < a.len() implies p(#[trigger] a[i]) == q(a[i]) by {
        let x = a[i];
        let e = named(lc, x);
        let v = |f: spec_fn(Seq<char>) -> Value| w(both(lc, e, f));
        let s = |y: Seq<Value>| g(x + y);
        let t = |y: Seq<Value>| v(named(rc, y));
        assert forall|k: int| 0 <= k < b.len() implies s(#[trigger] b[k]) == t(b[k]) by {
            lemma_both_agree(lc, rc, lc, rc, None, x, b[k]);
        }
        total_same(b, s, t);
    }
    total_same(a, p, q);
    assert forall|e: spec_fn(Seq<char>) -> Value, h: spec_fn(Seq<char>) -> Value| #[trigger]
        agree(e, h, lc, None) implies outer(e) == outer(h) by {
        let s = |y: Seq<Value>|
            (|f: spec_fn(Seq<char>) -> Value| w(both(lc, e, f)))(named(rc, y));
        let t = |y: Seq<Value>|
            (|f: spec_fn(Seq<char>) -> Value| w(both(lc, h, f)))(named(rc, y));
        assert forall|k: int| 0 <= k < b.len() implies s(#[trigger] b[k]) == t(b[k]) by {
            let f = named(rc, b[k]);
            assert(agree(both(lc, e, f), both(lc, h, f), lc + rc, None)) by {
                assert forall|c: Seq<char>| #[trigger] (lc + rc).contains(c) && is_needed(
                    None,
                    c,
                ) implies both(lc, e, f)(c) == both(lc, h, f)(c) by {
                    if lc.contains(c) {
                        assert(e(c) == h(c));
                    }
                }
            }
        }
        total_same(b, s, t);
    }
}

/// What is known of the plan of a relation of a block: its rows have the same sums as those of
/// the relation that meet the conditions on it alone.
pub open spec fn leaf_alike(
    tables: Seq<TableSpec>,
    block: JoinBlock,
    files: TableFiles,
    i: int,
    columns: Seq<Seq<char>>,
    rows: Seq<Seq<Value>>,
) -> bool {
    &&& have_len(rows, columns.len())
    &&& forall|w: spec_fn(spec_fn(Seq<char>) -> Value) -> nat| #[trigger]
        depends(w, block.schemas[i], leaf_needs(block, i)) ==> total_named(columns, rows, w)
            == total_named(
            block.schemas[i],
            answer(tables, block.leaves[i], files),
            where_met(conditions_of(block.links.filter(local_to(i))), w),
        )
}

/// What is known of the plans of the relations of a block.
pub open spec fn leaves_alike(
    tables: Seq<TableSpec>,
    block: JoinBlock,
    files: TableFiles,
    built: Seq<PlanTree>,
) -> bool {
    &&& built.len() == block.leaves.len()
    &&& forall|i: int|
        0 <= i < built.len() ==> holds_needed(
            plan_columns(#[trigger] built[i]),
            block.schemas[i],
            leaf_needs(block, i),
        )
    &&& forall|i: int, rows: Seq<Seq<Value>>|
        #![trigger leaf_alike(tables, block, files, i, plan_columns(built[i]), rows)]
        0 <= i < built.len() && is_result(built[i], tables, files, rows) ==> leaf_alike(
            tables,
            block,
            files,
            i,
            plan_columns(built[i]),
            rows,
        )
}

/// Whether an order holds each relation of a block once.
pub open spec fn orders(block: JoinBlock, order: Seq<int>) -> bool {
    &&& order.len() == block.leaves.len()
    &&& order.no_duplicates()
    &&& forall|j: int| 0 <= j < order.len() ==> 0 <= #[trigger] order[j] < block.leaves.len()
}

/// The named values of a choice, with a row of one more relation.
pub open spec fn with_row(
    block: JoinBlock,
    o: int,
    e: spec_fn(Seq<char>) -> Value,
    f: spec_fn(Seq<char>) -> Value,
) -> spec_fn(Seq<char>) -> Value {
    |c: Seq<char>|
        if owner_of(block.schemas, c) == Some(o) {
            f(c)
        } else {
            e(c)
        }
}

/// What a row of one more relation counts for.
pub open spec fn more_weight(
    block: JoinBlock,
    o: int,
    cs: Seq<Condition>,
    e: spec_fn(Seq<char>) -> Value,
    w: spec_fn(spec_fn(Seq<char>) -> Value) -> nat,
) -> spec_fn(spec_fn(Seq<char>) -> Value) -> nat {
    |f: spec_fn(Seq<char>) -> Value|
        if all_joined(cs, with_row(block, o, e, f)) {
            w(with_row(block, o, e, f))
        } else {
            0
        }
}

/// The columns that a condition between relations reads belong to them.
proof fn lemma_between_columns(
    tables: Seq<TableSpec>,
    block: JoinBlock,
    placed: Seq<int>,
    o: int,
    c: Condition,
)
    requires
        block_ok(tables, block),
        !placed.contains(o),
        conditions_of(block.links.filter(between(placed, o))).contains(c),
    ensures
        forall|x: Seq<char>| #[trigger]
            columns_of(c).contains(x) ==> (owner_of(block.schemas, x) matches Some(i) && (i == o
                || placed.contains(i)) && is_needed(leaf_needs(block, i), x)),
        c.operand matches Operand::Column(other) && ({
            let a = owner_of(block.schemas, c.column)->0;
            let b = owner_of(block.schemas, other)->0;
            a == o && placed.contains(b) || b == o && placed.contains(a)
        }),
{
    let keep = between(placed, o);
    let found = block.links.filter(keep);
    let i = choose|i: int| 0 <= i < conditions_of(found).len() && conditions_of(found)[i] == c;
    assert(found[i].condition == c);
    lemma_filter_from(block.links, keep, i);
    let k = choose|k: int|
        0 <= k < block.links.len() && #[trigger] block.links[k] == found[i] && keep(
            block.links[k],
        );
    lemma_link_owners(tables, block, k);
    assert forall|x: Seq<char>| #[trigger] columns_of(c).contains(x) implies (owner_of(
        block.schemas,
        x,
    ) matches Some(i) && (i == o || placed.contains(i)) && is_needed(leaf_needs(block, i), x)) by {
        lemma_link_needed(tables, block, k, x, owner_of(block.schemas, x)->0);
    }
}

/// What a filter gives was there.
pub proof fn lemma_filter_from(ls: Seq<Link>, keep: spec_fn(Link) -> bool, i: int)
    requires
        0 <= i < ls.filter(keep).len(),
    ensures
        exists|k: int|
            0 <= k < ls.len() && #[trigger] ls[k] == ls.filter(keep)[i] && keep(ls[k]),
    decreases ls.len(),
{
    reveal(Seq::filter);
    if ls.len() > 0 {
        let init = ls.drop_last();
        let before = init.filter(keep);
        if i < before.len() {
            assert(ls.filter(keep)[i] == before[i]);
            lemma_filter_from(init, keep, i);
            let k = choose|k: int| 0 <= k < init.len() && #[trigger] init[k] == before[i] && keep(
                init[k],
            );
            assert(ls[k] == init[k]);
        } else {
            assert(ls[ls.len() - 1] == ls.filter(keep)[i]);
        }
    }
}

/// Conditions hold alike of values that agree on the columns that they read, tested as a join
/// does.
proof fn lemma_joined_alike(
    cs: Seq<Condition>,
    a: spec_fn(Seq<char>) -> Value,
    b: spec_fn(Seq<char>) -> Value,
)
    requires
        forall|i: int, c: Seq<char>|
            0 <= i < cs.len() && #[trigger] columns_of(cs[i]).contains(c) ==> a(c) == b(c),
    ensures
        all_joined(cs, a) <==> all_joined(cs, b),
{
    assert forall|i: int| 0 <= i < cs.len() implies is_joined(#[trigger] cs[i], a) == is_joined(
        cs[i],
        b,
    ) by {
        let c = cs[i];
        assert(columns_of(c).contains(c.column));
        if let Operand::Column(other) = c.operand {
            assert(columns_of(c).contains(other));
        }
    }
}

/// A row of one more relation counts by the columns that the relation has to give.
proof fn lemma_more_depends(
    tables: Seq<TableSpec>,
    block: JoinBlock,
    placed: Seq<int>,
    o: int,
    w: spec_fn(spec_fn(Seq<char>) -> Value) -> nat,
)
    requires
        block_ok(tables, block),
        0 <= o < block.leaves.len(),
        !placed.contains(o),
        depends_on(w, block, placed.push(o)),
    ensures
        ({
            let cs = conditions_of(block.links.filter(between(placed, o)));
            &&& forall|e: spec_fn(Seq<char>) -> Value|
                depends(
                    #[trigger] more_weight(block, o, cs, e, w),
                    block.schemas[o],
                    leaf_needs(block, o),
                )
            &&& forall|
                e: spec_fn(Seq<char>) -> Value,
                h: spec_fn(Seq<char>) -> Value,
                f: spec_fn(Seq<char>) -> Value,
            |
                agree_on(block, placed, e, h) ==> #[trigger] more_weight(block, o, cs, e, w)(f)
                    == #[trigger] more_weight(block, o, cs, h, w)(f)
        }),
{
    let cs = conditions_of(block.links.filter(between(placed, o)));
    let list = placed.push(o);
    assert(list[placed.len() as int] == o);
    assert forall|e: spec_fn(Seq<char>) -> Value|
        depends(
            #[trigger] more_weight(block, o, cs, e, w),
            block.schemas[o],
            leaf_needs(block, o),
        ) by {
        let v = more_weight(block, o, cs, e, w);
        assert forall|f: spec_fn(Seq<char>) -> Value, g: spec_fn(Seq<char>) -> Value| #[trigger]
            agree(f, g, block.schemas[o], leaf_needs(block, o)) implies v(f) == v(g) by {
            let a = with_row(block, o, e, f);
            let b = with_row(block, o, e, g);
            assert forall|c: Seq<char>, i: int|
                #[trigger] owner_of(block.schemas, c) == Some(i) && #[trigger] list.contains(i)
                    && is_needed(leaf_needs(block, i), c) implies a(c) == b(c) by {
                owner_is_first(block.schemas, c);
                if i == o {
                    assert(block.schemas[o].contains(c));
                }
            }
            assert(agree_on(block, list, a, b));
            assert forall|i: int, c: Seq<char>|
                0 <= i < cs.len() && #[trigger] columns_of(cs[i]).contains(c) implies a(c) == b(
                c,
            ) by {
                assert(cs.contains(cs[i]));
                lemma_between_columns(tables, block, placed, o, cs[i]);
                owner_is_first(block.schemas, c);
            }
            lemma_joined_alike(cs, a, b);
        }
    }
    assert forall|
        e: spec_fn(Seq<char>) -> Value,
        h: spec_fn(Seq<char>) -> Value,
        f: spec_fn(Seq<char>) -> Value,
    |
        agree_on(block, placed, e, h) implies #[trigger] more_weight(block, o, cs, e, w)(f)
        == #[trigger] more_weight(block, o, cs, h, w)(f) by {
        let a = with_row(block, o, e, f);
        let b = with_row(block, o, h, f);
        assert forall|c: Seq<char>, i: int|
            #[trigger] owner_of(block.schemas, c) == Some(i) && #[trigger] list.contains(i)
                && is_needed(leaf_needs(block, i), c) implies a(c) == b(c) by {
            if i != o {
                let k = choose|k: int| 0 <= k < list.len() && list[k] == i;
                assert(placed[k] == i);
                assert(placed.contains(i));
            }
        }
        assert(agree_on(block, list, a, b));
        assert forall|i: int, c: Seq<char>|
            0 <= i < cs.len() && #[trigger] columns_of(cs[i]).contains(c) implies a(c) == b(c) by {
            assert(cs.contains(cs[i]));
            lemma_between_columns(tables, block, placed, o, cs[i]);
        }
        lemma_joined_alike(cs, a, b);
    }
}

/// A condition reads only values of its relations.
proof fn lemma_link_alike(
    tables: Seq<TableSpec>,
    block: JoinBlock,
    k: int,
    a: spec_fn(Seq<char>) -> Value,
    b: spec_fn(Seq<char>) -> Value,
)
    requires
        block_ok(tables, block),
        0 <= k < block.links.len(),
        forall|c: Seq<char>| #[trigger]
            columns_of(block.links[k].condition).contains(c) ==> a(c) == b(c),
    ensures
        is_met(block.links[k].condition, a) == is_met(block.links[k].condition, b),
        is_joined(block.links[k].condition, a) == is_joined(block.links[k].condition, b),
{
    let c = block.links[k].condition;
    assert(columns_of(c).contains(c.column));
    if let Operand::Column(other) = c.operand {
        assert(columns_of(c).contains(other));
    }
}

/// The conditions that hold once one more relation is joined.
proof fn lemma_links_split(
    tables: Seq<TableSpec>,
    block: JoinBlock,
    placed: Seq<int>,
    o: int,
    m: Map<int, Seq<Value>>,
    row: Seq<Value>,
)
    requires
        block_ok(tables, block),
        0 <= o < block.leaves.len(),
        !placed.contains(o),
    ensures
        ({
            let e = looked_up(block, m);
            let f = named(block.schemas[o], row);
            links_hold(block.links, placed.push(o), looked_up(block, m.insert(o, row))) <==> (
            links_hold(block.links, placed, e) && all_met(
                conditions_of(block.links.filter(local_to(o))),
                f,
            ) && all_joined(
                conditions_of(block.links.filter(between(placed, o))),
                with_row(block, o, e, f),
            ))
        }),
{
    let ls = block.links;
    let e = looked_up(block, m);
    let f = named(block.schemas[o], row);
    let g = with_row(block, o, e, f);
    let all = looked_up(block, m.insert(o, row));
    let list = placed.push(o);
    let own = |c: Condition| is_met(c, f);
    let tied = |c: Condition| is_joined(c, g);
    let mine = conditions_of(ls.filter(local_to(o)));
    let across = conditions_of(ls.filter(between(placed, o)));
    lemma_links_of(ls, local_to(o), own);
    lemma_links_of(ls, between(placed, o), tied);
    assert(all_met(mine, f) <==> forall|i: int| 0 <= i < mine.len() ==> own(#[trigger] mine[i]));
    assert(all_joined(across, g) <==> forall|i: int|
        0 <= i < across.len() ==> tied(#[trigger] across[i]));
    assert(list[placed.len() as int] == o);
    assert forall|i: int| #[trigger] list.contains(i) <==> i == o || placed.contains(i) by {
        if list.contains(i) && i != o {
            let j = choose|j: int| 0 <= j < list.len() && list[j] == i;
            assert(placed[j] == i);
        }
        if placed.contains(i) {
            let j = choose|j: int| 0 <= j < placed.len() && placed[j] == i;
            assert(list[j] == i);
        }
    }
    assert forall|k: int| 0 <= k < ls.len() implies (link_holds(#[trigger] ls[k], list, all) <==> (
    link_holds(ls[k], placed, e) && (local_to(o)(ls[k]) ==> own(ls[k].condition)) && (between(
        placed,
        o,
    )(ls[k]) ==> tied(ls[k].condition)))) by {
        lemma_link_owners(tables, block, k);
        let l = ls[k];
        let c = l.condition;
        if l.first == o && l.second == o {
            assert forall|x: Seq<char>| #[trigger] columns_of(c).contains(x) implies all(x) == f(
                x,
            ) by {}
            lemma_link_alike(tables, block, k, all, f);
        } else if l.first != o && l.second != o {
            assert forall|x: Seq<char>| #[trigger] columns_of(c).contains(x) implies all(x) == e(
                x,
            ) by {}
            lemma_link_alike(tables, block, k, all, e);
        } else {
            assert forall|x: Seq<char>| #[trigger] columns_of(c).contains(x) implies all(x) == g(
                x,
            ) by {}
            lemma_link_alike(tables, block, k, all, g);
        }
    }
    if links_hold(ls, list, all) {
        assert forall|k: int| 0 <= k < ls.len() implies link_holds(#[trigger] ls[k], placed, e) by {
            assert(link_holds(ls[k], list, all));
        }
        assert forall|k: int| 0 <= k < ls.len() && local_to(o)(#[trigger] ls[k]) implies own(
            ls[k].condition,
        ) by {
            assert(link_holds(ls[k], list, all));
        }
        assert forall|k: int| 0 <= k < ls.len() && between(placed, o)(
            #[trigger] ls[k],
        ) implies tied(ls[k].condition) by {
            assert(link_holds(ls[k], list, all));
        }
    }
    if links_hold(ls, placed, e) && all_met(mine, f) && all_joined(across, g) {
        assert forall|k: int| 0 <= k < ls.len() implies link_holds(#[trigger] ls[k], list, all) by {
            assert(link_holds(ls[k], placed, e));
        }
    }
}

/// One more relation adds a sum to the choices.
proof fn lemma_one_more_relation(
    tables: Seq<TableSpec>,
    block: JoinBlock,
    files: TableFiles,
    placed: Seq<int>,
    o: int,
    w: spec_fn(spec_fn(Seq<char>) -> Value) -> nat,
)
    requires
        block_ok(tables, block),
        0 <= o < block.leaves.len(),
        !placed.contains(o),
        depends_on(w, block, placed.push(o)),
    ensures
        ({
            let cs = conditions_of(block.links.filter(between(placed, o)));
            let mine = conditions_of(block.links.filter(local_to(o)));
            let outer = |e: spec_fn(Seq<char>) -> Value|
                total_named(
                    block.schemas[o],
                    answer(tables, block.leaves[o], files),
                    where_met(mine, more_weight(block, o, cs, e, w)),
                );
            &&& depends_on(outer, block, placed)
            &&& nest(
                relations(tables, block, files),
                placed,
                Map::empty(),
                choice_weight(block, placed, outer),
            ) == nest(
                relations(tables, block, files),
                placed.push(o),
                Map::empty(),
                choice_weight(block, placed.push(o), w),
            )
        }),
{
    let cs = conditions_of(block.links.filter(between(placed, o)));
    let mine = conditions_of(block.links.filter(local_to(o)));
    let offered = relations(tables, block, files);
    let rows = answer(tables, block.leaves[o], files);
    let columns = block.schemas[o];
    let none = Map::<int, Seq<Value>>::empty();
    let outer = |e: spec_fn(Seq<char>) -> Value|
        total_named(columns, rows, where_met(mine, more_weight(block, o, cs, e, w)));
    lemma_more_depends(tables, block, placed, o, w);
    assert forall|e: spec_fn(Seq<char>) -> Value, h: spec_fn(Seq<char>) -> Value| #[trigger]
        agree_on(block, placed, e, h) implies outer(e) == outer(h) by {
        let p = |row: Seq<Value>|
            where_met(mine, more_weight(block, o, cs, e, w))(named(columns, row));
        let q = |row: Seq<Value>|
            where_met(mine, more_weight(block, o, cs, h, w))(named(columns, row));
        assert forall|k: int| 0 <= k < rows.len() implies p(#[trigger] rows[k]) == q(rows[k]) by {
            let f = named(columns, rows[k]);
            assert(more_weight(block, o, cs, e, w)(f) == more_weight(block, o, cs, h, w)(f));
        }
        total_same(rows, p, q);
    }
    let one = Seq::<int>::empty().push(o);
    let list = placed.push(o);
    let last = choice_weight(block, list, w);
    let before = choice_weight(block, placed, outer);
    let step = |m: Map<int, Seq<Value>>| nest(offered, one, m, last);
    assert forall|m: Map<int, Seq<Value>>| #[trigger]
        can_choose(offered, placed, none, m) implies before(m) == step(m) by {
        let e = looked_up(block, m);
        nest_step(offered, one, m, last);
        assert(one.drop_first() =~= Seq::<int>::empty());
        let p = |row: Seq<Value>| nest(offered, one.drop_first(), m.insert(one[0], row), last);
        let q = |row: Seq<Value>|
            if links_hold(block.links, placed, e) {
                where_met(mine, more_weight(block, o, cs, e, w))(named(columns, row))
            } else {
                0
            };
        assert forall|k: int| 0 <= k < rows.len() implies p(#[trigger] rows[k]) == q(rows[k]) by {
            let row = rows[k];
            let f = named(columns, row);
            let n = m.insert(o, row);
            assert(p(row) == last(n));
            lemma_links_split(tables, block, placed, o, m, row);
            let a = looked_up(block, n);
            let b = with_row(block, o, e, f);
            assert forall|c: Seq<char>, i: int|
                #[trigger] owner_of(block.schemas, c) == Some(i) && #[trigger] list.contains(i)
                    && is_needed(leaf_needs(block, i), c) implies a(c) == b(c) by {}
            assert(agree_on(block, list, a, b));
        }
        total_same(rows, p, q);
        if links_hold(block.links, placed, e) {
            total_same(
                rows,
                q,
                |row: Seq<Value>|
                    where_met(mine, more_weight(block, o, cs, e, w))(named(columns, row)),
            );
        } else {
            total_same(rows, q, |row: Seq<Value>| 0nat);
            total_zero(rows);
        }
        assert(offered(o) == rows);
    }
    nest_same(offered, placed, none, before, step);
    nest_append(offered, placed, one, none, last);
    assert(placed + one =~= list);
}

/// The rows of a left-deep join are the choices of rows of its relations that meet the conditions
/// between them.
proof fn lemma_deep(
    tables: Seq<TableSpec>,
    block: JoinBlock,
    files: TableFiles,
    built: Seq<PlanTree>,
    order: Seq<int>,
    k: nat,
    rows: Seq<Seq<Value>>,
    w: spec_fn(spec_fn(Seq<char>) -> Value) -> nat,
)
    requires
        block_ok(tables, block),
        leaves_alike(tables, block, files, built),
        orders(block, order),
        1 <= k <= order.len(),
        left_deep(block, built, order, k) is Ok,
        is_result(left_deep(block, built, order, k)->Ok_0, tables, files, rows),
        depends_on(w, block, order.take(k as int)),
    ensures
        have_len(rows, plan_columns(left_deep(block, built, order, k)->Ok_0).len()),
        total_named(plan_columns(left_deep(block, built, order, k)->Ok_0), rows, w) == nest(
            relations(tables, block, files),
            order.take(k as int),
            Map::empty(),
            choice_weight(block, order.take(k as int), w),
        ),
    decreases k,
{
    let tree = left_deep(block, built, order, k)->Ok_0;
    let placed = order.take(k - 1);
    let o = order[k - 1];
    let offered = relations(tables, block, files);
    let columns = block.schemas[o];
    let cs = conditions_of(block.links.filter(between(placed, o)));
    let mine = conditions_of(block.links.filter(local_to(o)));
    let all = answer(tables, block.leaves[o], files);
    let none = Map::<int, Seq<Value>>::empty();
    assert(order.take(k as int) =~= placed.push(o));
    assert(!placed.contains(o)) by {
        if placed.contains(o) {
            let j = choose|j: int| 0 <= j < placed.len() && placed[j] == o;
            assert(order[j] == order[k - 1]);
        }
    }
    let outer = |e: spec_fn(Seq<char>) -> Value|
        total_named(columns, all, where_met(mine, more_weight(block, o, cs, e, w)));
    lemma_one_more_relation(tables, block, files, placed, o, w);
    lemma_more_depends(tables, block, placed, o, w);
    if k == 1 {
        assert(placed =~= Seq::<int>::empty());
        assert(tree == built[o]);
        assert(is_result(built[o], tables, files, rows));
        assert(leaf_alike(tables, block, files, o, plan_columns(built[o]), rows));
        let e = looked_up(block, none);
        let v = more_weight(block, o, cs, e, w);
        assert(depends(v, columns, leaf_needs(block, o)));
        let tied = |c: Condition| is_joined(c, e);
        assert(choice_weight(block, placed, outer)(none) == outer(e));
        // Nothing is joined yet, so that no condition between relations is tested.
        let p = |row: Seq<Value>| w(named(plan_columns(tree), row));
        let q = |row: Seq<Value>| v(named(plan_columns(tree), row));
        assert forall|j: int| 0 <= j < rows.len() implies p(#[trigger] rows[j]) == q(rows[j]) by {
            let f = named(plan_columns(tree), rows[j]);
            let g = with_row(block, o, e, f);
            let ok = |c: Condition| is_joined(c, g);
            lemma_links_of(block.links, between(placed, o), ok);
            assert(all_joined(cs, g)) by {
                assert forall|i: int| 0 <= i < cs.len() implies is_joined(#[trigger] cs[i], g) by {
                    assert(ok(cs[i]));
                }
            }
            let list = placed.push(o);
            assert forall|c: Seq<char>, i: int|
                #[trigger] owner_of(block.schemas, c) == Some(i) && #[trigger] list.contains(i)
                    && is_needed(leaf_needs(block, i), c) implies g(c) == f(c) by {
                let j = choose|j: int| 0 <= j < list.len() && list[j] == i;
                assert(j == 0);
            }
            assert(agree_on(block, list, g, f));
        }
        total_same(rows, p, q);
    } else {
        let left = left_deep(block, built, order, (k - 1) as nat)->Ok_0;
        let right = built[o];
        assert(join_conditions(block, order, k - 1) == cs);
        assert(tree == PlanTree::Join(Box::new(left), Box::new(right), cs));
        let ls = plan_columns(left);
        let rs = plan_columns(right);
        let (a, b) = choose|a: Seq<Seq<Value>>, b: Seq<Seq<Value>>| #[trigger]
            crate::pipeline::joins(ls, rs, cs, a, b, rows) && is_result(left, tables, files, a)
                && is_result(right, tables, files, b);
        assert(is_result(built[o], tables, files, b));
        assert(leaf_alike(tables, block, files, o, plan_columns(built[o]), b));
        lemma_deep(tables, block, files, built, order, (k - 1) as nat, a, outer);
        lemma_deep_owners(tables, block, files, built, order, (k - 1) as nat);
        let on = joined_on(ls, rs, cs);
        broadcast use vstd::seq_lib::group_to_multiset_ensures;

        assert forall|i: int| 0 <= i < rows.len() implies (#[trigger] rows[i]).len() == ls.len()
            + rs.len() by {
            assert(rows.contains(rows[i]));
            assert(rows.to_multiset().count(rows[i]) > 0);
            lemma_join_len(on, a, b, ls.len(), rs.len(), rows[i]);
        }
        let g = |row: Seq<Value>| w(named(ls + rs, row));
        lemma_total_join(on, a, b, rows, g);
        let p = |x: Seq<Value>|
            total(
                b,
                |y: Seq<Value>|
                    if joins(on, x, y) {
                        g(x + y)
                    } else {
                        0
                    },
            );
        let q = |x: Seq<Value>| outer(named(ls, x));
        assert forall|i: int| 0 <= i < a.len() implies p(#[trigger] a[i]) == q(a[i]) by {
            let x = a[i];
            let e = named(ls, x);
            let v = more_weight(block, o, cs, e, w);
            assert(depends(v, columns, leaf_needs(block, o)));
            let s = |y: Seq<Value>|
                if joins(on, x, y) {
                    g(x + y)
                } else {
                    0
                };
            let t = |y: Seq<Value>| v(named(rs, y));
            assert forall|j: int| 0 <= j < b.len() implies s(#[trigger] b[j]) == t(b[j]) by {
                lemma_join_row(tables, block, files, built, order, k, w, x, b[j]);
            }
            total_same(b, s, t);
        }
        total_same(a, p, q);
    }
}

/// The columns of the first relations of an order are owned by them.
proof fn lemma_deep_owners(
    tables: Seq<TableSpec>,
    block: JoinBlock,
    files: TableFiles,
    built: Seq<PlanTree>,
    order: Seq<int>,
    k: nat,
)
    requires
        block_ok(tables, block),
        leaves_alike(tables, block, files, built),
        orders(block, order),
        1 <= k <= order.len(),
        left_deep(block, built, order, k) is Ok,
    ensures
        forall|c: Seq<char>| #[trigger]
            plan_columns(left_deep(block, built, order, k)->Ok_0).contains(c) ==> (owner_of(
                block.schemas,
                c,
            ) matches Some(i) && order.take(k as int).contains(i)),
        forall|c: Seq<char>, i: int|
            #[trigger] owner_of(block.schemas, c) == Some(i) && #[trigger] order.take(
                k as int,
            ).contains(i) && is_needed(leaf_needs(block, i), c) ==> plan_columns(
                left_deep(block, built, order, k)->Ok_0,
            ).contains(c),
{
    let columns = plan_columns(left_deep(block, built, order, k)->Ok_0);
    let list = order.take(k as int);
    lemma_left_deep_columns(block, built, order, k);
    assert forall|c: Seq<char>| #[trigger] columns.contains(c) implies (owner_of(
        block.schemas,
        c,
    ) matches Some(i) && list.contains(i)) by {
        let j = choose|j: int| 0 <= j < k && plan_columns(built[#[trigger] order[j]]).contains(c);
        assert(list[j] == order[j]);
        assert(block.schemas[order[j]].contains(c));
    }
    assert forall|c: Seq<char>, i: int|
        #[trigger] owner_of(block.schemas, c) == Some(i) && #[trigger] list.contains(i)
            && is_needed(leaf_needs(block, i), c) implies columns.contains(c) by {
        let j = choose|j: int| 0 <= j < list.len() && list[j] == i;
        assert(order[j] == i);
        owner_is_first(block.schemas, c);
        assert(block.schemas[i].contains(c));
        assert(plan_columns(built[order[j]]).contains(c));
    }
}

/// What a pair of rows counts for in a join is what the right row counts for.
proof fn lemma_join_row(
    tables: Seq<TableSpec>,
    block: JoinBlock,
    files: TableFiles,
    built: Seq<PlanTree>,
    order: Seq<int>,
    k: nat,
    w: spec_fn(spec_fn(Seq<char>) -> Value) -> nat,
    x: Seq<Value>,
    y: Seq<Value>,
)
    requires
        block_ok(tables, block),
        leaves_alike(tables, block, files, built),
        orders(block, order),
        2 <= k <= order.len(),
        left_deep(block, built, order, k) is Ok,
        depends_on(w, block, order.take(k as int)),
        x.len() == plan_columns(left_deep(block, built, order, (k - 1) as nat)->Ok_0).len(),
        y.len() == plan_columns(built[order[k - 1]]).len(),
    ensures
        ({
            let ls = plan_columns(left_deep(block, built, order, (k - 1) as nat)->Ok_0);
            let rs = plan_columns(built[order[k - 1]]);
            let cs = conditions_of(block.links.filter(between(order.take(k - 1), order[k - 1])));
            (if joins(joined_on(ls, rs, cs), x, y) {
                w(named(ls + rs, x + y))
            } else {
                0
            }) == more_weight(block, order[k - 1], cs, named(ls, x), w)(named(rs, y))
        }),
{
    let ls = plan_columns(left_deep(block, built, order, (k - 1) as nat)->Ok_0);
    let o = order[k - 1];
    let placed = order.take(k - 1);
    let list = order.take(k as int);
    let rs = plan_columns(built[o]);
    let cs = conditions_of(block.links.filter(between(placed, o)));
    let a = named(ls + rs, x + y);
    let b = with_row(block, o, named(ls, x), named(rs, y));
    lemma_deep_owners(tables, block, files, built, order, (k - 1) as nat);
    assert(!placed.contains(o)) by {
        if placed.contains(o) {
            let j = choose|j: int| 0 <= j < placed.len() && placed[j] == o;
            assert(order[j] == order[k - 1]);
        }
    }
    assert forall|c: Seq<char>| #[trigger] rs.contains(c) implies owner_of(block.schemas, c)
        == Some(o) by {
        assert(block.schemas[o].contains(c));
    }
    assert forall|c: Seq<char>, i: int|
        #[trigger] owner_of(block.schemas, c) == Some(i) && #[trigger] list.contains(i)
            && is_needed(leaf_needs(block, i), c) implies a(c) == b(c) by {
        lemma_named_both(ls, rs, x, y, c);
        owner_is_first(block.schemas, c);
        let j = choose|j: int| 0 <= j < list.len() && list[j] == i;
        if j == k - 1 {
            assert(i == o);
            assert(block.schemas[o].contains(c));
            assert(rs.contains(c));
            assert(!ls.contains(c));
        } else {
            assert(placed[j] == i);
            assert(placed.contains(i));
            assert(ls.contains(c));
        }
    }
    assert(agree_on(block, list, a, b));
    assert forall|i: int| 0 <= i < cs.len() implies is_across(ls, rs, #[trigger] cs[i]) by {
        assert(cs.contains(cs[i]));
        lemma_between_columns(tables, block, placed, o, cs[i]);
        let c = cs[i];
        let other = c.operand->Column_0;
        assert(columns_of(c).contains(c.column));
        assert(columns_of(c).contains(other));
        lemma_side_of(tables, block, files, built, order, k, c.column);
        lemma_side_of(tables, block, files, built, order, k, other);
    }
    lemma_joins_named(ls, rs, cs, x, y);
    assert forall|i: int, c: Seq<char>|
        0 <= i < cs.len() && #[trigger] columns_of(cs[i]).contains(c) implies a(c) == b(c) by {
        assert(cs.contains(cs[i]));
        lemma_between_columns(tables, block, placed, o, cs[i]);
        let at = owner_of(block.schemas, c)->0;
        assert(list.contains(at)) by {
            if at == o {
                assert(list[k - 1] == o);
            } else {
                let j = choose|j: int| 0 <= j < placed.len() && placed[j] == at;
                assert(list[j] == at);
            }
        }
    }
    lemma_joined_alike(cs, a, b);
}

/// Which side of a join has a column that is read.
proof fn lemma_side_of(
    tables: Seq<TableSpec>,
    block: JoinBlock,
    files: TableFiles,
    built: Seq<PlanTree>,
    order: Seq<int>,
    k: nat,
    c: Seq<char>,
)
    requires
        block_ok(tables, block),
        leaves_alike(tables, block, files, built),
        orders(block, order),
        2 <= k <= order.len(),
        left_deep(block, built, order, k) is Ok,
        owner_of(block.schemas, c) matches Some(i) && is_needed(leaf_needs(block, i), c),
    ensures
        ({
            let ls = plan_columns(left_deep(block, built, order, (k - 1) as nat)->Ok_0);
            let rs = plan_columns(built[order[k - 1]]);
            let i = owner_of(block.schemas, c)->0;
            &&& i == order[k - 1] ==> rs.contains(c) && !ls.contains(c)
            &&& order.take(k - 1).contains(i) ==> ls.contains(c) && !rs.contains(c)
        }),
{
    let ls = plan_columns(left_deep(block, built, order, (k - 1) as nat)->Ok_0);
    let o = order[k - 1];
    let placed = order.take(k - 1);
    let rs = plan_columns(built[o]);
    let i = owner_of(block.schemas, c)->0;
    lemma_deep_owners(tables, block, files, built, order, (k - 1) as nat);
    owner_is_first(block.schemas, c);
    assert(!placed.contains(o)) by {
        if placed.contains(o) {
            let j = choose|j: int| 0 <= j < placed.len() && placed[j] == o;
            assert(order[j] == order[k - 1]);
        }
    }
    if i == o {
        assert(block.schemas[o].contains(c));
    }
    if rs.contains(c) {
        assert(block.schemas[o].contains(c));
    }
}

/// Whether the values of two columns that a link between relations equates are the same exactly
/// where they are equal.
pub open spec fn keys_tell(
    tables: Seq<TableSpec>,
    block: JoinBlock,
    files: TableFiles,
    l: Link,
) -> bool {
    l.first != l.second && l.condition.operator == ComparisionOperator::EQ ==> forall|
        x: Seq<Value>,
        y: Seq<Value>,
    |
        #[trigger] answer(tables, block.leaves[l.first], files).contains(x) && #[trigger] answer(
            tables,
            block.leaves[l.second],
            files,
        ).contains(y) ==> ({
            let a = named(block.schemas[l.first], x)(l.condition.column);
            let b = named(block.schemas[l.second], y)(l.condition.operand->Column_0);
            a == b <==> values_equal(a, b)
        })
}

/// Once all relations are joined, all conditions hold.
proof fn lemma_all_links(
    tables: Seq<TableSpec>,
    block: JoinBlock,
    files: TableFiles,
    order: Seq<int>,
    m: Map<int, Seq<Value>>,
)
    requires
        block_ok(tables, block),
        forall|i: int| 0 <= i < block.leaves.len() ==> #[trigger] order.contains(i),
        forall|i: int|
            0 <= i < block.leaves.len() ==> answer(
                tables,
                #[trigger] block.leaves[i],
                files,
            ).contains(m[i]),
        forall|k: int|
            0 <= k < block.links.len() ==> keys_tell(
                tables,
                block,
                files,
                #[trigger] block.links[k],
            ),
    ensures
        links_hold(block.links, order, looked_up(block, m)) <==> all_met(
            conditions_of(block.links),
            looked_up(block, m),
        ),
{
    let at = looked_up(block, m);
    let cs = conditions_of(block.links);
    assert forall|k: int| 0 <= k < block.links.len() implies link_holds(
        #[trigger] block.links[k],
        order,
        at,
    ) == is_met(cs[k], at) by {
        let l = block.links[k];
        lemma_link_owners(tables, block, k);
        assert(order.contains(l.first) && order.contains(l.second));
        if l.first != l.second && l.condition.operator == ComparisionOperator::EQ {
            assert(keys_tell(tables, block, files, l));
            let x = m[l.first];
            let y = m[l.second];
            assert(answer(tables, block.leaves[l.first], files).contains(x));
            assert(answer(tables, block.leaves[l.second], files).contains(y));
        }
    }
    if links_hold(block.links, order, at) {
        assert forall|k: int| 0 <= k < cs.len() implies is_met(#[trigger] cs[k], at) by {
            assert(link_holds(block.links[k], order, at));
        }
    }
    if all_met(cs, at) {
        assert forall|k: int| 0 <= k < block.links.len() implies link_holds(
            #[trigger] block.links[k],
            order,
            at,
        ) by {
            assert(is_met(cs[k], at));
        }
    }
}

/// The left-deep join of a block has the sums of the filter over the tree of cross products.
pub proof fn lemma_block_sums(
    tables: Seq<TableSpec>,
    block: JoinBlock,
    files: TableFiles,
    op: QueryOp,
    built: Seq<PlanTree>,
    order: Seq<int>,
    rows: Seq<Seq<Value>>,
)
    requires
        block_ok(tables, block),
        block.leaves == leaves_of(op),
        block.leaves.len() >= 1,
        leaves_alike(tables, block, files, built),
        orders(block, order),
        forall|i: int| 0 <= i < block.leaves.len() ==> #[trigger] order.contains(i),
        left_deep(block, built, order, block.leaves.len()) is Ok,
        is_result(
            left_deep(block, built, order, block.leaves.len())->Ok_0,
            tables,
            files,
            rows,
        ),
        forall|i: int|
            0 <= i < block.leaves.len() ==> have_len(
                #[trigger] relations(tables, block, files)(i),
                block.schemas[i].len(),
            ),
        forall|k: int|
            0 <= k < block.links.len() ==> keys_tell(
                tables,
                block,
                files,
                #[trigger] block.links[k],
            ),
    ensures
        logical_columns(tables, op) is Ok,
        have_len(answer(tables, op, files), (logical_columns(tables, op)->Ok_0).len()),
        have_len(
            rows,
            plan_columns(left_deep(block, built, order, block.leaves.len())->Ok_0).len(),
        ),
        forall|w: spec_fn(spec_fn(Seq<char>) -> Value) -> nat| #[trigger]
            depends(w, logical_columns(tables, op)->Ok_0, block.needed) ==> total_named(
                plan_columns(left_deep(block, built, order, block.leaves.len())->Ok_0),
                rows,
                w,
            ) == total_named(
                logical_columns(tables, op)->Ok_0,
                answer(tables, op, files),
                where_met(conditions_of(block.links), w),
            ),
{
    let n = block.leaves.len();
    let offered = relations(tables, block, files);
    let none = Map::<int, Seq<Value>>::empty();
    let columns = logical_columns(tables, op)->Ok_0;
    let cs = conditions_of(block.links);
    let tree = left_deep(block, built, order, n)->Ok_0;
    let zero = |e: spec_fn(Seq<char>) -> Value| 0nat;
    assert(order.take(n as int) =~= order);
    lemma_leaves_nest(tables, block, files, op, 0, none, zero);
    lemma_deep(tables, block, files, built, order, n, rows, zero);
    assert forall|w: spec_fn(spec_fn(Seq<char>) -> Value) -> nat| #[trigger]
        depends(w, columns, block.needed) implies total_named(plan_columns(tree), rows, w)
        == total_named(columns, answer(tables, op, files), where_met(cs, w)) by {
        let v = where_met(cs, w);
        assert forall|a: spec_fn(Seq<char>) -> Value, b: spec_fn(Seq<char>) -> Value| #[trigger]
            agree_on(block, order, a, b) implies w(a) == w(b) by {
            assert forall|c: Seq<char>| #[trigger] columns.contains(c) && is_needed(
                block.needed,
                c,
            ) implies a(c) == b(c) by {
                let i = owner_of(block.schemas, c)->0;
                lemma_needed_given(block, c, i);
                assert(order.contains(i));
            }
            assert(agree(a, b, columns, block.needed));
        }
        lemma_deep(tables, block, files, built, order, n, rows, w);
        let all = span(0, n as int);
        assert forall|i: int| #[trigger] order.contains(i) <==> all.contains(i) by {
            lemma_span(0, n as int, i);
            if order.contains(i) {
                let j = choose|j: int| 0 <= j < order.len() && order[j] == i;
                assert(0 <= order[j] < n);
            }
        }
        let g = choice_weight(block, order, w);
        let h = |m: Map<int, Seq<Value>>| v(looked_up(block, m));
        nest_ignores_order(offered, order, all, none, g);
        assert forall|m: Map<int, Seq<Value>>| #[trigger]
            can_choose(offered, all, none, m) implies g(m) == h(m) by {
            assert forall|i: int| 0 <= i < block.leaves.len() implies answer(
                tables,
                #[trigger] block.leaves[i],
                files,
            ).contains(m[i]) by {
                lemma_span(0, n as int, i);
                assert(all.contains(i));
            }
            lemma_all_links(tables, block, files, order, m);
        }
        nest_same(offered, all, none, g, h);
        assert(depends(v, columns, None)) by {
            assert forall|a: spec_fn(Seq<char>) -> Value, b: spec_fn(Seq<char>) -> Value| #[trigger]
                agree(a, b, columns, None) implies v(a) == v(b) by {
                assert(agree(a, b, columns, block.needed));
                assert forall|k: int, c: Seq<char>|
                    0 <= k < cs.len() && #[trigger] columns_of(cs[k]).contains(c) implies a(c)
                    == b(c) by {
                    lemma_link_owners(tables, block, k);
                    assert(cs[k] == block.links[k].condition);
                    lemma_owned_column(tables, block, op, c);
                    assert(columns.contains(c));
                }
                lemma_met_alike(cs, a, b);
            }
        }
        lemma_leaves_nest(tables, block, files, op, 0, none, v);
    }
}

/// A column that is read above is given by its relation.
proof fn lemma_needed_given(block: JoinBlock, c: Seq<char>, i: int)
    requires
        owner_of(block.schemas, c) == Some(i),
        is_needed(block.needed, c),
    ensures
        is_needed(leaf_needs(block, i), c),
{
    if let Some(set) = block.needed {
        let mine = set.union(all_columns_of(conditions_of(block.links))).filter(
            |c: Seq<char>| owner_of(block.schemas, c) == Some(i),
        );
        assert(mine.contains(c));
    }
}

/// A column of a relation is one of the tree.
proof fn lemma_owned_column(tables: Seq<TableSpec>, block: JoinBlock, op: QueryOp, c: Seq<char>)
    requires
        block_ok(tables, block),
        block.leaves == leaves_of(op),
        owner_of(block.schemas, c) is Some,
    ensures
        logical_columns(tables, op) is Ok,
        (logical_columns(tables, op)->Ok_0).contains(c),
{
    owner_is_first(block.schemas, c);
    let i = owner_of(block.schemas, c)->0;
    lemma_leaf_columns(tables, op);
    assert(leaves_of(op)[i] == block.leaves[i]);
    assert((logical_columns(tables, leaves_of(op)[i])->Ok_0).contains(c));
}

} // verus!

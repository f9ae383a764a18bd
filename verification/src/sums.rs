//! Sums over sequences, which tell what they hold and how often.

use vstd::multiset::Multiset;
use vstd::prelude::*;

verus! {

/// The sum of the weights of what a sequence holds.
pub open spec fn total<A>(s: Seq<A>, w: spec_fn(A) -> nat) -> nat
    decreases s.len(),
{
    if s.len() == 0 {
        0
    } else {
        total(s.drop_last(), w) + w(s.last())
    }
}

/// Weights that agree on a sequence have the same sum.
pub proof fn total_same<A>(s: Seq<A>, v: spec_fn(A) -> nat, w: spec_fn(A) -> nat)
    requires
        forall|i: int| 0 <= i < s.len() ==> v(#[trigger] s[i]) == w(s[i]),
    ensures
        total(s, v) == total(s, w),
    decreases s.len(),
{
    if s.len() > 0 {
        let init = s.drop_last();
        assert forall|i: int| 0 <= i < init.len() implies v(#[trigger] init[i]) == w(init[i]) by {
            assert(init[i] == s[i]);
        }
        total_same(init, v, w);
        assert(v(s[s.len() - 1]) == w(s[s.len() - 1]));
    }
}

/// The sum over what a function makes of a sequence.
pub proof fn total_map<A, B>(s: Seq<A>, f: spec_fn(A) -> B, w: spec_fn(B) -> nat)
    ensures
        total(s.map_values(f), w) == total(s, |a: A| w(f(a))),
    decreases s.len(),
{
    if s.len() > 0 {
        total_map(s.drop_last(), f, w);
        assert(s.map_values(f).drop_last() =~= s.drop_last().map_values(f));
    }
}

/// The sum over two sequences laid end to end.
pub proof fn total_append<A>(s: Seq<A>, t: Seq<A>, w: spec_fn(A) -> nat)
    ensures
        total(s + t, w) == total(s, w) + total(t, w),
    decreases t.len(),
{
    if t.len() == 0 {
        assert(s + t =~= s);
    } else {
        total_append(s, t.drop_last(), w);
        assert((s + t).drop_last() =~= s + t.drop_last());
    }
}

/// The sum of two weights.
pub proof fn total_plus<A>(s: Seq<A>, v: spec_fn(A) -> nat, w: spec_fn(A) -> nat)
    ensures
        total(s, |a: A| v(a) + w(a)) == total(s, v) + total(s, w),
    decreases s.len(),
{
    if s.len() > 0 {
        total_plus(s.drop_last(), v, w);
    }
}

/// The sum of nothing.
pub proof fn total_zero<A>(s: Seq<A>)
    ensures
        total(s, |a: A| 0nat) == 0,
    decreases s.len(),
{
    if s.len() > 0 {
        total_zero(s.drop_last());
    }
}

/// Two sums can be taken in either order.
pub proof fn total_swap<A, B>(s: Seq<A>, t: Seq<B>, w: spec_fn(A, B) -> nat)
    ensures
        total(s, |a: A| total(t, |b: B| w(a, b))) == total(t, |b: B| total(s, |a: A| w(a, b))),
    decreases s.len(),
{
    let outer = |a: A| total(t, |b: B| w(a, b));
    let inner = |b: B| total(s, |a: A| w(a, b));
    if s.len() == 0 {
        total_zero(t);
        total_same(t, inner, |b: B| 0nat);
    } else {
        let init = s.drop_last();
        let last = s.last();
        total_swap(init, t, w);
        let before = |b: B| total(init, |a: A| w(a, b));
        let now = |b: B| w(last, b);
        total_plus(t, before, now);
        total_same(t, inner, |b: B| before(b) + now(b));
    }
}

/// A sum with one of the items taken out.
pub proof fn total_remove<A>(s: Seq<A>, i: int, w: spec_fn(A) -> nat)
    requires
        0 <= i < s.len(),
    ensures
        total(s, w) == total(s.remove(i), w) + w(s[i]),
{
    let a = s.take(i);
    let b = s.skip(i + 1);
    let one = Seq::empty().push(s[i]);
    assert(s =~= (a + one) + b);
    assert(s.remove(i) =~= a + b);
    total_append(a + one, b, w);
    total_append(a, one, w);
    total_append(a, b, w);
    assert(total(one, w) == w(s[i])) by {
        reveal_with_fuel(total, 2);
    }
}

/// A sum does not depend on the order.
pub proof fn total_of_multiset<A>(s: Seq<A>, t: Seq<A>, w: spec_fn(A) -> nat)
    requires
        s.to_multiset() == t.to_multiset(),
    ensures
        total(s, w) == total(t, w),
    decreases s.len(),
{
    broadcast use vstd::seq_lib::group_to_multiset_ensures;

    if s.len() == 0 {
        assert(t.to_multiset().len() == 0);
    } else {
        let last = s.last();
        assert(s.to_multiset().count(last) > 0) by {
            assert(s.contains(last));
        }
        assert(t.contains(last));
        let i = choose|i: int| 0 <= i < t.len() && t[i] == last;
        assert(s.drop_last() =~= s.remove(s.len() - 1));
        assert(s.drop_last().to_multiset() =~= t.remove(i).to_multiset());
        total_of_multiset(s.drop_last(), t.remove(i), w);
        total_remove(t, i, w);
    }
}

/// How often an item occurs is a sum.
proof fn lemma_count<A>(s: Seq<A>, a: A)
    ensures
        s.to_multiset().count(a) == total(
            s,
            |x: A|
                if x == a {
                    1nat
                } else {
                    0
                },
        ),
    decreases s.len(),
{
    broadcast use vstd::seq_lib::group_to_multiset_ensures;

    if s.len() > 0 {
        lemma_count(s.drop_last(), a);
        assert(s =~= s.drop_last().push(s.last()));
        assert(s.to_multiset() =~= s.drop_last().to_multiset().insert(s.last()));
    } else {
        assert(s.to_multiset().len() == 0);
        assert(s.to_multiset() =~= Multiset::<A>::empty());
    }
}

/// Sequences with the same sums hold the same items, as often.
pub proof fn totals_tell_items<A>(s: Seq<A>, t: Seq<A>)
    requires
        forall|w: spec_fn(A) -> nat| #[trigger] total(s, w) == total(t, w),
    ensures
        s.to_multiset() == t.to_multiset(),
{
    assert forall|a: A| #[trigger] s.to_multiset().count(a) == t.to_multiset().count(a) by {
        lemma_count(s, a);
        lemma_count(t, a);
    }
    assert(s.to_multiset() =~= t.to_multiset());
}

/// The sum over all ways to choose an item for each position of a list, from what the position
/// offers, where the first position has only `k` of its items left. The choices are added to
/// those made before.
pub open spec fn nest_to<A>(
    offered: spec_fn(int) -> Seq<A>,
    list: Seq<int>,
    chosen: Map<int, A>,
    w: spec_fn(Map<int, A>) -> nat,
    k: nat,
) -> nat
    decreases list.len(), k,
{
    if list.len() == 0 {
        w(chosen)
    } else if k == 0 {
        0
    } else {
        let rest = list.drop_first();
        nest_to(offered, list, chosen, w, (k - 1) as nat) + nest_to(
            offered,
            rest,
            chosen.insert(list[0], offered(list[0])[k - 1]),
            w,
            offer_size(offered, rest),
        )
    }
}

/// How many items the first position of a list offers.
pub open spec fn offer_size<A>(offered: spec_fn(int) -> Seq<A>, list: Seq<int>) -> nat {
    if list.len() == 0 {
        0
    } else {
        offered(list[0]).len()
    }
}

/// The sum over all ways to choose an item for each position of a list, from what the position
/// offers. The choices are added to those made before.
pub open spec fn nest<A>(
    offered: spec_fn(int) -> Seq<A>,
    list: Seq<int>,
    chosen: Map<int, A>,
    w: spec_fn(Map<int, A>) -> nat,
) -> nat {
    nest_to(offered, list, chosen, w, offer_size(offered, list))
}

/// Choosing for the first position, then for the others.
pub proof fn nest_step<A>(
    offered: spec_fn(int) -> Seq<A>,
    list: Seq<int>,
    chosen: Map<int, A>,
    w: spec_fn(Map<int, A>) -> nat,
)
    requires
        list.len() > 0,
    ensures
        nest(offered, list, chosen, w) == total(
            offered(list[0]),
            |a: A| nest(offered, list.drop_first(), chosen.insert(list[0], a), w),
        ),
{
    lemma_nest_to(offered, list, chosen, w, offered(list[0]).len());
    assert(offered(list[0]).take(offered(list[0]).len() as int) =~= offered(list[0]));
}

proof fn lemma_nest_to<A>(
    offered: spec_fn(int) -> Seq<A>,
    list: Seq<int>,
    chosen: Map<int, A>,
    w: spec_fn(Map<int, A>) -> nat,
    k: nat,
)
    requires
        list.len() > 0,
        k <= offered(list[0]).len(),
    ensures
        nest_to(offered, list, chosen, w, k) == total(
            offered(list[0]).take(k as int),
            |a: A| nest(offered, list.drop_first(), chosen.insert(list[0], a), w),
        ),
    decreases k,
{
    if k > 0 {
        let all = offered(list[0]);
        lemma_nest_to(offered, list, chosen, w, (k - 1) as nat);
        assert(all.take(k as int).drop_last() =~= all.take(k - 1));
        assert(all.take(k as int).last() == all[k - 1]);
    }
}

/// Whether choices can be made: those for the list are offered, and the others were made before.
pub open spec fn can_choose<A>(
    offered: spec_fn(int) -> Seq<A>,
    list: Seq<int>,
    before: Map<int, A>,
    chosen: Map<int, A>,
) -> bool {
    &&& forall|i: int| #[trigger]
        list.contains(i) ==> chosen.dom().contains(i) && offered(i).contains(chosen[i])
    &&& forall|i: int|
        !#[trigger] list.contains(i) ==> (chosen.dom().contains(i) <==> before.dom().contains(i))
            && (before.dom().contains(i) ==> chosen[i] == before[i])
}

/// Weights that agree on the choices that can be made have the same sum.
pub proof fn nest_same<A>(
    offered: spec_fn(int) -> Seq<A>,
    list: Seq<int>,
    before: Map<int, A>,
    v: spec_fn(Map<int, A>) -> nat,
    w: spec_fn(Map<int, A>) -> nat,
)
    requires
        forall|m: Map<int, A>| #[trigger]
            can_choose(offered, list, before, m) ==> v(m) == w(m),
    ensures
        nest(offered, list, before, v) == nest(offered, list, before, w),
    decreases list.len(),
{
    if list.len() == 0 {
        assert(can_choose(offered, list, before, before));
    } else {
        let x = list[0];
        let rest = list.drop_first();
        let f = |a: A| nest(offered, rest, before.insert(x, a), v);
        let g = |a: A| nest(offered, rest, before.insert(x, a), w);
        assert forall|i: int| 0 <= i < offered(x).len() implies f(#[trigger] offered(x)[i]) == g(
            offered(x)[i],
        ) by {
            let a = offered(x)[i];
            let now = before.insert(x, a);
            assert forall|m: Map<int, A>| #[trigger]
                can_choose(offered, rest, now, m) implies v(m) == w(m) by {
                lemma_one_more(offered, list, before, a, m);
            }
            nest_same(offered, rest, now, v, w);
        }
        total_same(offered(x), f, g);
        nest_step(offered, list, before, v);
        nest_step(offered, list, before, w);
    }
}

proof fn lemma_one_more<A>(
    offered: spec_fn(int) -> Seq<A>,
    list: Seq<int>,
    before: Map<int, A>,
    a: A,
    m: Map<int, A>,
)
    requires
        list.len() > 0,
        offered(list[0]).contains(a),
        can_choose(offered, list.drop_first(), before.insert(list[0], a), m),
    ensures
        can_choose(offered, list, before, m),
{
    let x = list[0];
    let rest = list.drop_first();
    let now = before.insert(x, a);
    assert forall|i: int| #[trigger] list.contains(i) implies m.dom().contains(i) && offered(
        i,
    ).contains(m[i]) by {
        if rest.contains(i) {
        } else {
            let k = choose|k: int| 0 <= k < list.len() && list[k] == i;
            if k > 0 {
                assert(rest[k - 1] == i);
            }
            assert(i == x);
            assert(now.dom().contains(i));
        }
    }
    assert forall|i: int| !#[trigger] list.contains(i) implies (m.dom().contains(i)
        <==> before.dom().contains(i)) && (before.dom().contains(i) ==> m[i] == before[i]) by {
        assert(list.contains(x));
        if rest.contains(i) {
            let k = choose|k: int| 0 <= k < rest.len() && rest[k] == i;
            assert(list[k + 1] == i);
        }
        assert(now.dom().contains(i) <==> before.dom().contains(i));
    }
}

/// Choosing for two lists, one after the other.
pub proof fn nest_append<A>(
    offered: spec_fn(int) -> Seq<A>,
    a: Seq<int>,
    b: Seq<int>,
    before: Map<int, A>,
    w: spec_fn(Map<int, A>) -> nat,
)
    ensures
        nest(offered, a + b, before, w) == nest(
            offered,
            a,
            before,
            |m: Map<int, A>| nest(offered, b, m, w),
        ),
    decreases a.len(),
{
    if a.len() == 0 {
        assert(a + b =~= b);
    } else {
        let x = a[0];
        let rest = a.drop_first();
        let inner = |m: Map<int, A>| nest(offered, b, m, w);
        assert((a + b).drop_first() =~= rest + b);
        let f = |c: A| nest(offered, (a + b).drop_first(), before.insert(x, c), w);
        let g = |c: A| nest(offered, rest, before.insert(x, c), inner);
        assert forall|i: int| 0 <= i < offered(x).len() implies f(#[trigger] offered(x)[i]) == g(
            offered(x)[i],
        ) by {
            nest_append(offered, rest, b, before.insert(x, offered(x)[i]), w);
        }
        total_same(offered(x), f, g);
        nest_step(offered, a + b, before, w);
        nest_step(offered, a, before, inner);
    }
}

/// One position of the list can come first.
proof fn lemma_nest_front<A>(
    offered: spec_fn(int) -> Seq<A>,
    list: Seq<int>,
    i: int,
    before: Map<int, A>,
    w: spec_fn(Map<int, A>) -> nat,
)
    requires
        list.no_duplicates(),
        0 <= i < list.len(),
    ensures
        nest(offered, list, before, w) == nest(
            offered,
            Seq::empty().push(list[i]) + list.remove(i),
            before,
            w,
        ),
    decreases i,
{
    let x = list[i];
    let front = Seq::empty().push(x) + list.remove(i);
    if i == 0 {
        assert(front =~= list);
    } else {
        let y = list[0];
        let rest = list.drop_first();
        let left = rest.remove(i - 1);
        let one = Seq::empty().push(x) + left;
        assert(rest[i - 1] == x);
        assert(x != y);
        assert(one[0] == x);
        assert(one.drop_first() =~= left);
        let outer = |a: A| nest(offered, rest, before.insert(y, a), w);
        let pairs = |a: A, b: A| nest(offered, left, before.insert(y, a).insert(x, b), w);
        let by_y = |a: A| total(offered(x), |b: A| pairs(a, b));
        assert forall|k: int| 0 <= k < offered(y).len() implies outer(#[trigger] offered(y)[k])
            == by_y(offered(y)[k]) by {
            let a = offered(y)[k];
            lemma_nest_front(offered, rest, i - 1, before.insert(y, a), w);
            nest_step(offered, one, before.insert(y, a), w);
            let p = |b: A| nest(offered, one.drop_first(), before.insert(y, a).insert(one[0], b), w);
            total_same(offered(x), p, |b: A| pairs(a, b));
        }
        total_same(offered(y), outer, by_y);
        total_swap(offered(y), offered(x), pairs);
        assert(front[0] == x);
        assert(front.drop_first() =~= list.remove(i));
        let tail = list.remove(i);
        assert(tail[0] == y);
        assert(tail.drop_first() =~= left);
        let by_x = |b: A| total(offered(y), |a: A| pairs(a, b));
        let last = |b: A| nest(offered, front.drop_first(), before.insert(front[0], b), w);
        assert forall|k: int| 0 <= k < offered(x).len() implies by_x(#[trigger] offered(x)[k])
            == last(offered(x)[k]) by {
            let b = offered(x)[k];
            let p = |a: A| pairs(a, b);
            let q = |a: A|
                nest(offered, tail.drop_first(), before.insert(x, b).insert(tail[0], a), w);
            assert forall|j: int| 0 <= j < offered(y).len() implies p(#[trigger] offered(y)[j])
                == q(offered(y)[j]) by {
                let a = offered(y)[j];
                assert(before.insert(y, a).insert(x, b) =~= before.insert(x, b).insert(y, a));
            }
            total_same(offered(y), p, q);
            nest_step(offered, tail, before.insert(x, b), w);
        }
        total_same(offered(x), by_x, last);
        nest_step(offered, list, before, w);
        nest_step(offered, front, before, w);
    }
}

/// It does not matter in which order the choices are made.
pub proof fn nest_ignores_order<A>(
    offered: spec_fn(int) -> Seq<A>,
    a: Seq<int>,
    b: Seq<int>,
    before: Map<int, A>,
    w: spec_fn(Map<int, A>) -> nat,
)
    requires
        a.no_duplicates(),
        b.no_duplicates(),
        a.len() == b.len(),
        forall|i: int| #[trigger] a.contains(i) <==> b.contains(i),
    ensures
        nest(offered, a, before, w) == nest(offered, b, before, w),
    decreases a.len(),
{
    if a.len() > 0 {
        let x = b[0];
        assert(b.contains(x));
        assert(a.contains(x));
        let i = choose|i: int| 0 <= i < a.len() && a[i] == x;
        lemma_nest_front(offered, a, i, before, w);
        let rest = a.remove(i);
        let tail = b.drop_first();
        let front = Seq::empty().push(x) + rest;
        assert(front[0] == x);
        assert(front.drop_first() =~= rest);
        assert(rest.no_duplicates());
        assert forall|k: int| #[trigger] rest.contains(k) <==> tail.contains(k) by {
            if rest.contains(k) {
                let j = choose|j: int| 0 <= j < rest.len() && rest[j] == k;
                let at = if j < i {
                    j
                } else {
                    j + 1
                };
                assert(a[at] == k);
                assert(a.contains(k));
                assert(b.contains(k));
                let m = choose|m: int| 0 <= m < b.len() && b[m] == k;
                assert(m > 0);
                assert(tail[m - 1] == k);
            }
            if tail.contains(k) {
                let m = choose|m: int| 0 <= m < tail.len() && tail[m] == k;
                assert(b[m + 1] == k);
                assert(b.contains(k));
                assert(a.contains(k));
                let j = choose|j: int| 0 <= j < a.len() && a[j] == k;
                assert(j != i);
                if j < i {
                    assert(rest[j] == k);
                } else {
                    assert(rest[j - 1] == k);
                }
            }
        }
        let f = |c: A| nest(offered, front.drop_first(), before.insert(front[0], c), w);
        let g = |c: A| nest(offered, tail, before.insert(x, c), w);
        assert forall|k: int| 0 <= k < offered(x).len() implies f(#[trigger] offered(x)[k]) == g(
            offered(x)[k],
        ) by {
            nest_ignores_order(offered, rest, tail, before.insert(x, offered(x)[k]), w);
        }
        total_same(offered(x), f, g);
        nest_step(offered, front, before, w);
        nest_step(offered, b, before, w);
    }
}

} // verus!

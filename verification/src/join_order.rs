//! Which relations the predicates of a join block touch, and in what order to join.

use vstd::prelude::*;
use crate::query::{ComparisionValue, Condition, Operand, Predicate, conditions};
use crate::row::RowSchema;
use crate::text::same_text;
use crate::views::texts;

verus! {

broadcast use crate::query::lemma_conditions_push;

/// The schemas of some relations.
pub open spec fn schemas_of(schemas: Seq<RowSchema>) -> Seq<Seq<Seq<char>>> {
    schemas.map_values(|s: RowSchema| s@)
}

/// The relation that holds a column.
pub open spec fn owner_of(schemas: Seq<Seq<Seq<char>>>, name: Seq<char>) -> Option<int>
    decreases schemas.len(),
{
    if schemas.len() == 0 {
        None
    } else {
        match owner_of(schemas.drop_last(), name) {
            Some(i) => Some(i),
            None => if schemas.last().contains(name) {
                Some(schemas.len() - 1)
            } else {
                None
            },
        }
    }
}

/// What `owner_of` is: the first relation that holds the column.
pub proof fn owner_is_first(schemas: Seq<Seq<Seq<char>>>, name: Seq<char>)
    ensures
        match owner_of(schemas, name) {
            Some(i) => {
                &&& 0 <= i < schemas.len()
                &&& schemas[i].contains(name)
                &&& forall|j: int| 0 <= j < i ==> !(#[trigger] schemas[j]).contains(name)
            },
            None => forall|j: int|
                0 <= j < schemas.len() ==> !(#[trigger] schemas[j]).contains(name),
        },
    decreases schemas.len(),
{
    if schemas.len() > 0 {
        let init = schemas.drop_last();
        owner_is_first(init, name);
        match owner_of(init, name) {
            Some(i) => {
                assert(schemas[i] == init[i]);
                assert forall|j: int| 0 <= j < i implies !(#[trigger] schemas[j]).contains(name) by {
                    assert(schemas[j] == init[j]);
                }
            },
            None => {
                assert forall|j: int| 0 <= j < schemas.len() - 1 implies !(
                #[trigger] schemas[j]).contains(name) by {
                    assert(schemas[j] == init[j]);
                }
            },
        }
    }
}

/// Looks up the relation that holds a column.
pub fn find_owner(schemas: &[RowSchema], name: &str) -> (r: Option<usize>)
    ensures
        match owner_of(schemas_of(schemas@), name@) {
            Some(i) => r is Some && r->0 == i && i < schemas@.len(),
            None => r is None,
        },
{
    let ghost all = schemas_of(schemas@);
    let mut i: usize = 0;
    while i < schemas.len()
        invariant
            i <= schemas@.len(),
            all == schemas_of(schemas@),
            forall|j: int| 0 <= j < i ==> !(#[trigger] all[j]).contains(name@),
        decreases schemas@.len() - i,
    {
        assert(all[i as int] == schemas@[i as int]@);
        if schemas[i].contains(name) {
            proof {
                owner_is_first(all, name@);
                assert(all[i as int].contains(name@));
            }
            return Some(i);
        }
        i += 1;
    }
    proof {
        owner_is_first(all, name@);
    }
    None
}

/// Whether a relation's columns all have names of their own, within it and among earlier ones.
pub open spec fn adds_new_columns(earlier: Seq<Seq<Seq<char>>>, schema: Seq<Seq<char>>) -> bool {
    &&& forall|a: int, b: int| 0 <= a < b < schema.len() ==> #[trigger] schema[a] != #[trigger] schema[b]
    &&& forall|a: int|
        0 <= a < schema.len() ==> owner_of(earlier, #[trigger] schema[a]) is None
}

/// Tests whether a relation's columns all have names of their own.
pub fn has_new_columns(earlier: &[RowSchema], schema: &RowSchema) -> (r: bool)
    ensures
        r == adds_new_columns(schemas_of(earlier@), schema@),
{
    let names = schema.column_names();
    let ghost all = schema@;
    let mut i: usize = 0;
    assert(texts(names@).len() == names@.len());
    while i < names.len()
        invariant
            i <= names@.len(),
            all == schema@,
            texts(names@) == all,
            names@.len() == all.len(),
            forall|a: int, b: int|
                0 <= a < b < i ==> #[trigger] all[a] != #[trigger] all[b],
            forall|a: int|
                0 <= a < i ==> owner_of(schemas_of(earlier@), #[trigger] all[a]) is None,
        decreases names@.len() - i,
    {
        assert(all[i as int] == names@[i as int]@);
        if find_owner(earlier, names[i].as_str()).is_some() {
            assert(owner_of(schemas_of(earlier@), all[i as int]) is Some);
            return false;
        }
        let mut j: usize = 0;
        while j < i
            invariant
                j <= i,
                i < names@.len(),
                all == schema@,
                texts(names@) == all,
                names@.len() == all.len(),
                forall|a: int| 0 <= a < j ==> #[trigger] all[a] != all[i as int],
            decreases i - j,
        {
            assert(all[j as int] == names@[j as int]@);
            assert(all[i as int] == names@[i as int]@);
            if same_text(names[j].as_str(), names[i].as_str()) {
                assert(all[j as int] == all[i as int]);
                return false;
            }
            j += 1;
        }
        i += 1;
    }
    true
}

/// A condition with the relations that it touches; one relation counts twice.
#[verifier::ext_equal]
pub struct Link {
    pub condition: Condition,
    pub first: int,
    pub second: int,
}

/// A predicate with the relations that it touches.
#[derive(Debug)]
pub struct ClassifiedPredicate {
    pub predicate: Predicate,
    pub first: usize,
    pub second: usize,
}

impl View for ClassifiedPredicate {
    type V = Link;

    open spec fn view(&self) -> Link {
        Link {
            condition: self.predicate@,
            first: self.first as int,
            second: self.second as int,
        }
    }
}

pub open spec fn links(classified: Seq<ClassifiedPredicate>) -> Seq<Link> {
    classified.map_values(|c: ClassifiedPredicate| c@)
}

/// Whether all columns of a condition are held by some relation.
pub open spec fn is_known(schemas: Seq<Seq<Seq<char>>>, c: Condition) -> bool {
    &&& owner_of(schemas, c.column) is Some
    &&& c.operand matches Operand::Column(other) ==> owner_of(schemas, other) is Some
}

/// A condition with the relations that it touches.
pub open spec fn link_of(schemas: Seq<Seq<Seq<char>>>, c: Condition) -> Link {
    let first = owner_of(schemas, c.column)->0;
    Link {
        condition: c,
        first,
        second: match c.operand {
            Operand::Column(other) => owner_of(schemas, other)->0,
            Operand::Literal(_) => first,
        },
    }
}

/// Finds the relations that each predicate touches; `None` where a column is held by none.
pub fn classify_predicates(predicates: &[Predicate], schemas: &[RowSchema]) -> (r: Option<
    Vec<ClassifiedPredicate>,
>)
    ensures
        r is Some <==> forall|i: int|
            0 <= i < predicates@.len() ==> is_known(
                schemas_of(schemas@),
                (#[trigger] predicates@[i])@,
            ),
        r matches Some(v) ==> links(v@) == conditions(predicates@).map_values(
            |c: Condition| link_of(schemas_of(schemas@), c),
        ) && forall|i: int|
            0 <= i < v@.len() ==> (#[trigger] v@[i]).first < schemas@.len() && v@[i].second
                < schemas@.len(),
{
    let ghost ss = schemas_of(schemas@);
    let ghost f = |c: Condition| link_of(ss, c);
    let ghost all = conditions(predicates@).map_values(f);
    let mut out: Vec<ClassifiedPredicate> = Vec::new();
    let mut i: usize = 0;
    assert(links(out@) =~= all.take(0));
    while i < predicates.len()
        invariant
            i <= predicates@.len(),
            ss == schemas_of(schemas@),
            f == (|c: Condition| link_of(ss, c)),
            all == conditions(predicates@).map_values(f),
            links(out@) == all.take(i as int),
            forall|j: int|
                0 <= j < out@.len() ==> (#[trigger] out@[j]).first < schemas@.len() && out@[j].second
                    < schemas@.len(),
            forall|j: int| 0 <= j < i ==> is_known(ss, (#[trigger] predicates@[j])@),
        decreases predicates@.len() - i,
    {
        let pred = &predicates[i];
        let first: usize = match find_owner(schemas, pred.column_name.as_str()) {
            Some(o) => o,
            None => {
                assert(!is_known(ss, predicates@[i as int]@));
                return None;
            },
        };
        let second: usize = match &pred.value {
            ComparisionValue::Column(other) => match find_owner(schemas, other.as_str()) {
                Some(o) => o,
                None => {
                    assert(!is_known(ss, predicates@[i as int]@));
                    return None;
                },
            },
            _ => first,
        };
        let c = ClassifiedPredicate { predicate: pred.clone(), first, second };
        proof {
            assert(c@ == link_of(ss, pred@));
            assert(all[i as int] == f(conditions(predicates@)[i as int]));
            assert(links(out@.push(c)) =~= links(out@).push(c@));
            assert(all.take(i + 1) =~= all.take(i as int).push(all[i as int]));
        }
        out.push(c);
        i += 1;
    }
    assert(all.take(all.len() as int) =~= all);
    Some(out)
}

/// The links that touch one relation only.
pub open spec fn local_to(i: int) -> spec_fn(Link) -> bool {
    |l: Link| l.first == i && l.second == i
}

/// The conditions of links.
pub open spec fn conditions_of(ls: Seq<Link>) -> Seq<Condition> {
    ls.map_values(|l: Link| l.condition)
}

proof fn lemma_filter_take(ls: Seq<Link>, keep: spec_fn(Link) -> bool, i: int)
    requires
        0 <= i < ls.len(),
    ensures
        ls.take(i + 1).filter(keep) == (if keep(ls[i]) {
            ls.take(i).filter(keep).push(ls[i])
        } else {
            ls.take(i).filter(keep)
        }),
{
    reveal(Seq::filter);
    assert(ls.take(i + 1).drop_last() =~= ls.take(i));
    assert(ls.take(i + 1).last() == ls[i]);
}

proof fn lemma_conditions_of_push(ls: Seq<Link>, l: Link)
    ensures
        conditions_of(ls.push(l)) == conditions_of(ls).push(l.condition),
{
    assert(conditions_of(ls.push(l)) =~= conditions_of(ls).push(l.condition));
}

/// The predicates that touch one relation only.
pub fn local_predicates(classified: &[ClassifiedPredicate], rel: usize) -> (r: Vec<Predicate>)
    ensures
        conditions(r@) == conditions_of(links(classified@).filter(local_to(rel as int))),
{
    let ghost ls = links(classified@);
    let ghost keep = local_to(rel as int);
    let mut out: Vec<Predicate> = Vec::new();
    let mut i: usize = 0;
    proof {
        reveal(Seq::filter);
        assert(ls.take(0) =~= Seq::<Link>::empty());
        assert(conditions(out@) =~= conditions_of(ls.take(0).filter(keep)));
    }
    while i < classified.len()
        invariant
            i <= classified@.len(),
            ls == links(classified@),
            keep == local_to(rel as int),
            conditions(out@) == conditions_of(ls.take(i as int).filter(keep)),
        decreases classified@.len() - i,
    {
        let c = &classified[i];
        proof {
            assert(ls[i as int] == c@);
            lemma_filter_take(ls, keep, i as int);
        }
        if c.first == rel && c.second == rel {
            proof {
                lemma_conditions_of_push(ls.take(i as int).filter(keep), c@);
            }
            out.push(c.predicate.clone());
        }
        i += 1;
    }
    assert(ls.take(ls.len() as int) =~= ls);
    out
}

/// For each relation, the predicates that touch it alone.
pub fn group_local_predicates(classified: &[ClassifiedPredicate], num_relations: usize) -> (r: Vec<
    Vec<Predicate>,
>)
    ensures
        r@.len() == num_relations,
        forall|i: int|
            0 <= i < num_relations ==> conditions((#[trigger] r@[i])@) == conditions_of(
                links(classified@).filter(local_to(i)),
            ),
{
    let mut grouped: Vec<Vec<Predicate>> = Vec::new();
    let mut i: usize = 0;
    while i < num_relations
        invariant
            i <= num_relations,
            grouped@.len() == i,
            forall|j: int|
                0 <= j < i ==> conditions((#[trigger] grouped@[j])@) == conditions_of(
                    links(classified@).filter(local_to(j)),
                ),
        decreases num_relations - i,
    {
        grouped.push(local_predicates(classified, i));
        i += 1;
    }
    grouped
}

/// How many links touch a relation alone.
pub open spec fn local_count(ls: Seq<Link>, rel: int) -> nat {
    ls.filter(local_to(rel)).len()
}

/// The links between a relation and some others.
pub open spec fn between(placed: Seq<int>, rel: int) -> spec_fn(Link) -> bool {
    |l: Link|
        l.first != l.second && ((l.first == rel && placed.contains(l.second)) || (l.second == rel
            && placed.contains(l.first)))
}

/// How many links there are between a relation and some others.
pub open spec fn edge_count(ls: Seq<Link>, placed: Seq<int>, rel: int) -> nat {
    ls.filter(between(placed, rel)).len()
}

/// Whether a join order starts with the right relation: the one with the most predicates of its
/// own, the first one of these.
pub open spec fn is_start(n: int, ls: Seq<Link>, rel: int) -> bool {
    &&& 0 <= rel < n
    &&& forall|d: int|
        0 <= d < n ==> local_count(ls, d) < local_count(ls, rel) || (#[trigger] local_count(ls, d)
            == local_count(ls, rel) && rel <= d)
}

/// Whether a relation comes before another as the next one to join: by the number of links to
/// what is joined already, by the number of predicates of its own, by its position.
pub open spec fn better(ls: Seq<Link>, placed: Seq<int>, c: int, d: int) -> bool {
    let ec = edge_count(ls, placed, c);
    let ed = edge_count(ls, placed, d);
    let lc = local_count(ls, c);
    let ld = local_count(ls, d);
    ec > ed || (ec == ed && (lc > ld || (lc == ld && c <= d)))
}

/// Whether a relation is the right one to join next: the best one of those that are linked to
/// what is joined already; where none is, the first one that is left.
pub open spec fn is_next(n: int, ls: Seq<Link>, placed: Seq<int>, c: int) -> bool {
    &&& 0 <= c < n
    &&& !placed.contains(c)
    &&& if edge_count(ls, placed, c) > 0 {
        forall|d: int|
            0 <= d < n && !placed.contains(d) ==> #[trigger] better(ls, placed, c, d)
    } else {
        forall|d: int|
            0 <= d < n && !placed.contains(d) ==> #[trigger] edge_count(ls, placed, d) == 0 && c
                <= d
    }
}

/// Whether a join order is the greedy one.
pub open spec fn is_greedy_order(n: int, ls: Seq<Link>, order: Seq<int>) -> bool {
    &&& order.len() == n
    &&& n > 0 ==> is_start(n, ls, order[0])
    &&& forall|k: int| 1 <= k < n ==> is_next(n, ls, order.take(k), #[trigger] order[k])
}

/// A greedy order holds every relation once.
pub proof fn greedy_order_is_a_permutation(n: int, ls: Seq<Link>, order: Seq<int>)
    requires
        n >= 0,
        is_greedy_order(n, ls, order),
    ensures
        order.no_duplicates(),
        forall|i: int| 0 <= i < n ==> 0 <= #[trigger] order[i] < n,
        forall|c: int| 0 <= c < n ==> #[trigger] order.contains(c),
{
    assert forall|i: int| 0 <= i < n implies 0 <= #[trigger] order[i] < n by {}
    assert forall|i: int, j: int| 0 <= i < n && 0 <= j < n && i != j implies order[i] != order[j] by {
        if i < j {
            assert(order.take(j)[i] == order[i]);
            assert(order.take(j).contains(order[i]));
            assert(is_next(n, ls, order.take(j), order[j]));
        } else {
            assert(order.take(i)[j] == order[j]);
            assert(order.take(i).contains(order[j]));
            assert(is_next(n, ls, order.take(i), order[i]));
        }
    }
    lemma_pigeons(order, n);
}

proof fn lemma_pigeons(order: Seq<int>, n: int)
    requires
        n >= 0,
        order.len() == n,
        order.no_duplicates(),
        forall|i: int| 0 <= i < n ==> 0 <= #[trigger] order[i] < n,
    ensures
        forall|c: int| 0 <= c < n ==> #[trigger] order.contains(c),
{
    let all = order.to_set();
    order.unique_seq_to_set();
    let range = vstd::set_lib::set_int_range(0, n);
    vstd::set_lib::lemma_int_range(0, n);
    assert(all.subset_of(range)) by {
        assert forall|c: int| all.contains(c) implies range.contains(c) by {
            let i = choose|i: int| 0 <= i < order.len() && order[i] == c;
        }
    }
    vstd::set_lib::lemma_subset_equality(all, range);
    assert forall|c: int| 0 <= c < n implies #[trigger] order.contains(c) by {
        assert(range.contains(c));
        assert(all.contains(c));
    }
}

/// There is a best relation among those that are left.
proof fn lemma_next_exists(n: int, ls: Seq<Link>, placed: Seq<int>, upto: int) -> (best: Option<int>)
    requires
        0 <= upto <= n,
    ensures
        match best {
            Some(b) => {
                &&& 0 <= b < upto
                &&& !placed.contains(b)
                &&& edge_count(ls, placed, b) > 0
                &&& forall|d: int|
                    0 <= d < upto && !placed.contains(d) ==> #[trigger] better(ls, placed, b, d)
            },
            None => forall|d: int|
                0 <= d < upto && !placed.contains(d) ==> #[trigger] edge_count(ls, placed, d) == 0,
        },
    decreases upto,
{
    if upto == 0 {
        None
    } else {
        let c = upto - 1;
        let before = lemma_next_exists(n, ls, placed, c);
        if placed.contains(c) || edge_count(ls, placed, c) == 0 {
            before
        } else {
            match before {
                None => Some(c),
                Some(b) => if better(ls, placed, b, c) {
                    Some(b)
                } else {
                    assert forall|d: int| 0 <= d < upto && !placed.contains(d) implies #[trigger] better(
                        ls,
                        placed,
                        c,
                        d,
                    ) by {
                        if d < c {
                            assert(better(ls, placed, b, d));
                        }
                    }
                    Some(c)
                },
            }
        }
    }
}

proof fn lemma_first_left(n: int, placed: Seq<int>, c: int) -> (f: int)
    requires
        0 <= c < n,
        !placed.contains(c),
    ensures
        0 <= f <= c,
        !placed.contains(f),
        forall|d: int| 0 <= d < f ==> #[trigger] placed.contains(d),
    decreases c,
{
    if exists|d: int| 0 <= d < c && !(#[trigger] placed.contains(d)) {
        let d = choose|d: int| 0 <= d < c && !(#[trigger] placed.contains(d));
        lemma_first_left(n, placed, d)
    } else {
        c
    }
}

proof fn lemma_start_exists(n: int, ls: Seq<Link>, upto: int) -> (s: int)
    requires
        1 <= upto <= n,
    ensures
        0 <= s < upto,
        forall|d: int|
            0 <= d < upto ==> local_count(ls, d) < local_count(ls, s) || (#[trigger] local_count(
                ls,
                d,
            ) == local_count(ls, s) && s <= d),
    decreases upto,
{
    if upto == 1 {
        0
    } else {
        let s = lemma_start_exists(n, ls, upto - 1);
        if local_count(ls, upto - 1) > local_count(ls, s) {
            upto - 1
        } else {
            s
        }
    }
}

proof fn lemma_order_exists(n: int, ls: Seq<Link>, k: int) -> (order: Seq<int>)
    requires
        1 <= k <= n,
    ensures
        order.len() == k,
        is_start(n, ls, order[0]),
        forall|j: int| 1 <= j < k ==> is_next(n, ls, order.take(j), #[trigger] order[j]),
    decreases k,
{
    if k == 1 {
        let s = lemma_start_exists(n, ls, n);
        Seq::empty().push(s)
    } else {
        let before = lemma_order_exists(n, ls, k - 1);
        lemma_one_left(before, n);
        let best = lemma_next_exists(n, ls, before, n);
        let next = match best {
            Some(b) => b,
            None => {
                let c = choose|c: int| 0 <= c < n && !(#[trigger] before.contains(c));
                lemma_first_left(n, before, c)
            },
        };
        assert(is_next(n, ls, before, next)) by {
            if best is None {
                assert(edge_count(ls, before, next) == 0);
                assert forall|d: int| 0 <= d < n && !before.contains(d) implies #[trigger] edge_count(
                    ls,
                    before,
                    d,
                ) == 0 && next <= d by {}
            }
        }
        let order = before.push(next);
        assert forall|j: int| 1 <= j < k implies is_next(
            n,
            ls,
            order.take(j),
            #[trigger] order[j],
        ) by {
            if j < k - 1 {
                assert(order.take(j) =~= before.take(j));
                assert(order[j] == before[j]);
            } else {
                assert(order.take(j) =~= before);
            }
        }
        order
    }
}

/// There is a greedy order.
pub proof fn greedy_order_exists(n: int, ls: Seq<Link>)
    requires
        n > 0,
    ensures
        exists|order: Seq<int>| is_greedy_order(n, ls, order),
{
    let order = lemma_order_exists(n, ls, n);
    assert(is_greedy_order(n, ls, order));
}

/// There is one greedy order.
pub proof fn greedy_order_is_unique(n: int, ls: Seq<Link>, a: Seq<int>, b: Seq<int>)
    requires
        n > 0,
        is_greedy_order(n, ls, a),
        is_greedy_order(n, ls, b),
    ensures
        a == b,
{
    let p = local_count(ls, a[0]);
    let q = local_count(ls, b[0]);
    assert(q < p || (q == p && a[0] <= b[0]));
    assert(p < q || (p == q && b[0] <= a[0]));
    lemma_same_prefix(n, ls, a, b, n);
    assert(a.take(n) =~= a);
    assert(b.take(n) =~= b);
}

proof fn lemma_same_prefix(n: int, ls: Seq<Link>, a: Seq<int>, b: Seq<int>, k: int)
    requires
        is_greedy_order(n, ls, a),
        is_greedy_order(n, ls, b),
        a[0] == b[0],
        1 <= k <= n,
    ensures
        a.take(k) == b.take(k),
    decreases k,
{
    if k == 1 {
        assert(a.take(1) =~= b.take(1));
    } else {
        lemma_same_prefix(n, ls, a, b, k - 1);
        let p = a.take(k - 1);
        let x = a[k - 1];
        let y = b[k - 1];
        assert(is_next(n, ls, p, x));
        assert(is_next(n, ls, p, y));
        assert(better(ls, p, x, y) || edge_count(ls, p, y) == 0);
        assert(better(ls, p, y, x) || edge_count(ls, p, x) == 0);
        assert(x == y);
        assert(a.take(k) =~= p.push(x));
        assert(b.take(k) =~= p.push(y));
    }
}

/// A relation that is linked to the others at all is joined by a link: wherever the greedy order
/// takes a relation without one, none that is left has one.
pub proof fn greedy_order_stays_connected(n: int, ls: Seq<Link>, order: Seq<int>, k: int, d: int)
    requires
        is_greedy_order(n, ls, order),
        1 <= k < n,
        0 <= d < n,
        !order.take(k).contains(d),
        edge_count(ls, order.take(k), d) > 0,
    ensures
        edge_count(ls, order.take(k), order[k]) > 0,
{
    assert(is_next(n, ls, order.take(k), order[k]));
}

/// Counts the predicates that touch a relation alone.
fn count_local(classified: &[ClassifiedPredicate], rel: usize) -> (r: usize)
    ensures
        r == local_count(links(classified@), rel as int),
{
    let ghost ls = links(classified@);
    let ghost keep = local_to(rel as int);
    let mut n: usize = 0;
    let mut i: usize = 0;
    proof {
        reveal(Seq::filter);
        assert(ls.take(0) =~= Seq::<Link>::empty());
    }
    while i < classified.len()
        invariant
            i <= classified@.len(),
            ls == links(classified@),
            keep == local_to(rel as int),
            n == ls.take(i as int).filter(keep).len(),
            n <= i,
        decreases classified@.len() - i,
    {
        let c = &classified[i];
        proof {
            assert(ls[i as int] == c@);
            lemma_filter_take(ls, keep, i as int);
        }
        if c.first == rel && c.second == rel {
            n += 1;
        }
        i += 1;
    }
    assert(ls.take(ls.len() as int) =~= ls);
    n
}

/// Counts the predicates between a relation and those that are marked.
fn count_edges(
    classified: &[ClassifiedPredicate],
    used: &[bool],
    rel: usize,
    Ghost(placed): Ghost<Seq<int>>,
) -> (r: usize)
    requires
        forall|i: int| 0 <= i < used@.len() ==> #[trigger] used@[i] == placed.contains(i),
        forall|i: int|
            0 <= i < classified@.len() ==> (#[trigger] classified@[i]).first < used@.len()
                && classified@[i].second < used@.len(),
    ensures
        r == edge_count(links(classified@), placed, rel as int),
{
    let ghost ls = links(classified@);
    let ghost keep = between(placed, rel as int);
    let mut n: usize = 0;
    let mut i: usize = 0;
    proof {
        reveal(Seq::filter);
        assert(ls.take(0) =~= Seq::<Link>::empty());
    }
    while i < classified.len()
        invariant
            i <= classified@.len(),
            ls == links(classified@),
            keep == between(placed, rel as int),
            n == ls.take(i as int).filter(keep).len(),
            n <= i,
            forall|i: int| 0 <= i < used@.len() ==> #[trigger] used@[i] == placed.contains(i),
            forall|i: int|
                0 <= i < classified@.len() ==> (#[trigger] classified@[i]).first < used@.len()
                    && classified@[i].second < used@.len(),
        decreases classified@.len() - i,
    {
        let c = &classified[i];
        proof {
            assert(ls[i as int] == c@);
            lemma_filter_take(ls, keep, i as int);
            assert(used@[c.first as int] == placed.contains(c.first as int));
            assert(used@[c.second as int] == placed.contains(c.second as int));
        }
        if c.first != c.second && ((c.first == rel && used[c.second]) || (c.second == rel
            && used[c.first])) {
            n += 1;
        }
        i += 1;
    }
    assert(ls.take(ls.len() as int) =~= ls);
    n
}

/// Picks the relation to start with.
fn choose_start(num_relations: usize, classified: &[ClassifiedPredicate]) -> (r: usize)
    requires
        num_relations > 0,
    ensures
        is_start(num_relations as int, links(classified@), r as int),
{
    let ghost ls = links(classified@);
    let mut best: usize = 0;
    let mut best_local: usize = count_local(classified, 0);
    let mut i: usize = 1;
    while i < num_relations
        invariant
            1 <= i <= num_relations,
            best < i,
            ls == links(classified@),
            best_local == local_count(ls, best as int),
            forall|d: int|
                0 <= d < i ==> local_count(ls, d) < best_local || (#[trigger] local_count(ls, d)
                    == best_local && best <= d),
        decreases num_relations - i,
    {
        let local: usize = count_local(classified, i);
        if local > best_local {
            best = i;
            best_local = local;
        }
        i += 1;
    }
    best
}

/// Picks the relation to join next.
fn choose_next(
    num_relations: usize,
    classified: &[ClassifiedPredicate],
    used: &[bool],
    Ghost(placed): Ghost<Seq<int>>,
) -> (r: usize)
    requires
        used@.len() == num_relations,
        forall|i: int| 0 <= i < used@.len() ==> #[trigger] used@[i] == placed.contains(i),
        forall|i: int|
            0 <= i < classified@.len() ==> (#[trigger] classified@[i]).first < used@.len()
                && classified@[i].second < used@.len(),
        exists|c: int| 0 <= c < num_relations && !(#[trigger] placed.contains(c)),
    ensures
        is_next(num_relations as int, links(classified@), placed, r as int),
{
    let ghost ls = links(classified@);
    let ghost n = num_relations as int;
    let mut best: Option<usize> = None;
    let mut best_edges: usize = 0;
    let mut best_local: usize = 0;
    let mut first_left: Option<usize> = None;
    let mut c: usize = 0;
    while c < num_relations
        invariant
            c <= num_relations,
            n == num_relations,
            used@.len() == num_relations,
            ls == links(classified@),
            forall|i: int| 0 <= i < used@.len() ==> #[trigger] used@[i] == placed.contains(i),
            forall|i: int|
                0 <= i < classified@.len() ==> (#[trigger] classified@[i]).first < used@.len()
                    && classified@[i].second < used@.len(),
            match first_left {
                Some(f) => f < c && !placed.contains(f as int) && forall|d: int|
                    0 <= d < f ==> #[trigger] placed.contains(d),
                None => forall|d: int| 0 <= d < c ==> #[trigger] placed.contains(d),
            },
            match best {
                Some(b) => {
                    &&& b < c
                    &&& !placed.contains(b as int)
                    &&& best_edges == edge_count(ls, placed, b as int)
                    &&& best_edges > 0
                    &&& best_local == local_count(ls, b as int)
                    &&& forall|d: int|
                        0 <= d < c && !placed.contains(d) ==> #[trigger] better(
                            ls,
                            placed,
                            b as int,
                            d,
                        )
                },
                None => forall|d: int|
                    0 <= d < c && !placed.contains(d) ==> #[trigger] edge_count(ls, placed, d)
                        == 0,
            },
        decreases num_relations - c,
    {
        assert(used@[c as int] == placed.contains(c as int));
        if !used[c] {
            if first_left.is_none() {
                first_left = Some(c);
            }
            let edges: usize = count_edges(classified, used, c, Ghost(placed));
            if edges > 0 {
                let local: usize = count_local(classified, c);
                let ghost was = best;
                let take = match best {
                    None => true,
                    Some(_) => edges > best_edges || (edges == best_edges && local > best_local),
                };
                if take {
                    proof {
                        assert forall|d: int| 0 <= d < c + 1 && !placed.contains(
                            d,
                        ) implies #[trigger] better(ls, placed, c as int, d) by {
                            if d < c {
                                if was is Some {
                                    assert(better(ls, placed, was->0 as int, d));
                                } else {
                                    assert(edge_count(ls, placed, d) == 0);
                                }
                            }
                        }
                    }
                    best = Some(c);
                    best_edges = edges;
                    best_local = local;
                }
            }
        }
        c += 1;
    }
    match best {
        Some(b) => b,
        None => match first_left {
            Some(f) => {
                assert forall|d: int| 0 <= d < n && !placed.contains(d) implies f <= d by {}
                f
            },
            None => 0,
        },
    }
}

/// Chooses the order to join in: connected and greedy, left-deep.
pub fn choose_greedy_connected_order(num_relations: usize, classified: &[ClassifiedPredicate]) -> (r:
    Vec<usize>)
    requires
        num_relations > 0,
        forall|i: int|
            0 <= i < classified@.len() ==> (#[trigger] classified@[i]).first < num_relations
                && classified@[i].second < num_relations,
    ensures
        is_greedy_order(
            num_relations as int,
            links(classified@),
            crate::views::positions(r@),
        ),
{
    let ghost ls = links(classified@);
    let ghost n = num_relations as int;
    let mut used: Vec<bool> = Vec::new();
    let mut k: usize = 0;
    while k < num_relations
        invariant
            k <= num_relations,
            used@.len() == k,
            forall|i: int| 0 <= i < k ==> !(#[trigger] used@[i]),
        decreases num_relations - k,
    {
        used.push(false);
        k += 1;
    }
    let start: usize = choose_start(num_relations, classified);
    let mut order: Vec<usize> = Vec::new();
    order.push(start);
    used.set(start, true);
    proof {
        let p = crate::views::positions(order@);
        assert(p =~= Seq::<int>::empty().push(start as int));
        assert forall|i: int| 0 <= i < used@.len() implies #[trigger] used@[i] == p.contains(i) by {
            if i == start {
                assert(p[0] == i);
            }
        }
    }
    while order.len() < num_relations
        invariant
            1 <= order@.len() <= num_relations,
            n == num_relations,
            used@.len() == num_relations,
            ls == links(classified@),
            forall|i: int|
                0 <= i < classified@.len() ==> (#[trigger] classified@[i]).first < num_relations
                    && classified@[i].second < num_relations,
            is_start(n, ls, crate::views::positions(order@)[0]),
            forall|i: int|
                0 <= i < used@.len() ==> #[trigger] used@[i] == crate::views::positions(
                    order@,
                ).contains(i),
            forall|k: int|
                1 <= k < order@.len() ==> is_next(
                    n,
                    ls,
                    crate::views::positions(order@).take(k),
                    #[trigger] crate::views::positions(order@)[k],
                ),
        decreases num_relations - order@.len(),
    {
        let ghost placed = crate::views::positions(order@);
        proof {
            lemma_one_left(placed, n);
        }
        let next: usize = choose_next(num_relations, classified, used.as_slice(), Ghost(placed));
        order.push(next);
        used.set(next, true);
        proof {
            let p = crate::views::positions(order@);
            assert(p =~= placed.push(next as int));
            assert forall|i: int| 0 <= i < used@.len() implies #[trigger] used@[i] == p.contains(
                i,
            ) by {
                if i == next {
                    assert(p[placed.len() as int] == i);
                } else if placed.contains(i) {
                    let j = choose|j: int| 0 <= j < placed.len() && placed[j] == i;
                    assert(p[j] == i);
                }
            }
            assert forall|k: int| 1 <= k < order@.len() implies is_next(
                n,
                ls,
                p.take(k),
                #[trigger] p[k],
            ) by {
                if k < placed.len() {
                    assert(p.take(k) =~= placed.take(k));
                    assert(p[k] == placed[k]);
                } else {
                    assert(p.take(k) =~= placed);
                }
            }
        }
    }
    order
}

/// Fewer positions than relations leave one out.
proof fn lemma_one_left(placed: Seq<int>, n: int)
    requires
        placed.len() < n,
    ensures
        exists|c: int| 0 <= c < n && !(#[trigger] placed.contains(c)),
{
    if forall|c: int| 0 <= c < n ==> #[trigger] placed.contains(c) {
        let range = vstd::set_lib::set_int_range(0, n);
        vstd::set_lib::lemma_int_range(0, n);
        let all = placed.to_set();
        assert(range.subset_of(all)) by {
            assert forall|c: int| range.contains(c) implies all.contains(c) by {
                assert(placed.contains(c));
            }
        }
        placed.lemma_cardinality_of_set();
        vstd::set_lib::lemma_len_subset(range, all);
        assert(false);
    }
}

} // verus!

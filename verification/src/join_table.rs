//! Join keys, the test of a pair of rows, and the hash table of the build side.

use std::collections::HashMap;
use vstd::multiset::Multiset;
use vstd::prelude::*;
use crate::error::DbError;
use crate::filter::{ResolvedPredicate, all_read_within, eval_resolved, row_passes, tests};
use crate::hashing::{key_hash, key_hash64};
use crate::join_spec::{JoinOn, cannot_compare, join_of, joins, keys_match, left_with, probe_with};
use crate::row::{Row, in_bounds, pick, string_capacity};
use crate::text::same_text;
use crate::value::{Data, Value};
use crate::views::{positions, rows_of, values_of};

verus! {

broadcast use {vstd::std_specs::hash::group_hash_axioms, crate::views::lemma_rows_of_push};

/// One value of a join key, floating-point numbers by their bits.
#[derive(Debug)]
pub enum KeyField {
    I32(i32),
    I64(i64),
    F32(u32),
    F64(u64),
    Str(String),
}

impl View for KeyField {
    type V = Value;

    open spec fn view(&self) -> Value {
        match self {
            KeyField::I32(v) => Value::Int32(*v),
            KeyField::I64(v) => Value::Int64(*v),
            KeyField::F32(v) => Value::Float32(*v),
            KeyField::F64(v) => Value::Float64(*v),
            KeyField::Str(s) => Value::Str(s@),
        }
    }
}

/// The join key of a row.
#[derive(Debug)]
pub enum JoinKey {
    One(KeyField),
    Many(Vec<KeyField>),
}

impl View for JoinKey {
    type V = Seq<Value>;

    open spec fn view(&self) -> Seq<Value> {
        match self {
            JoinKey::One(f) => seq![f@],
            JoinKey::Many(fs) => fs@.map_values(|f: KeyField| f@),
        }
    }
}

fn to_key_field(d: &Data) -> (r: KeyField)
    ensures
        r@ == d@,
{
    match d {
        Data::Int32(v) => KeyField::I32(*v),
        Data::Int64(v) => KeyField::I64(*v),
        Data::Float32(v) => KeyField::F32(*v),
        Data::Float64(v) => KeyField::F64(*v),
        Data::String(s) => KeyField::Str(s.clone()),
    }
}

/// The join key of a row.
pub fn make_key(row: &Row, indices: &[usize]) -> (r: JoinKey)
    requires
        in_bounds(positions(indices@), row@.len() as int),
    ensures
        r@ == pick(row@, positions(indices@)),
        r is One <==> indices@.len() == 1,
{
    let values = row.values();
    let ghost at = positions(indices@);
    assert(values_of(values@).len() == values@.len());
    if indices.len() == 1 {
        assert(at[0] == indices@[0]);
        let key = JoinKey::One(to_key_field(&values[indices[0]]));
        assert(key@ =~= pick(row@, at));
        return key;
    }
    let mut fields: Vec<KeyField> = Vec::new();
    let mut i: usize = 0;
    while i < indices.len()
        invariant
            i <= indices@.len(),
            at == positions(indices@),
            values_of(values@) == row@,
            values_of(values@).len() == values@.len(),
            in_bounds(at, row@.len() as int),
            fields@.len() == i,
            forall|j: int| 0 <= j < i ==> (#[trigger] fields@[j])@ == row@[at[j]],
        decreases indices@.len() - i,
    {
        assert(at[i as int] == indices@[i as int]);
        fields.push(to_key_field(&values[indices[i]]));
        i = i + 1;
    }
    let key = JoinKey::Many(fields);
    assert(key@ =~= pick(row@, at));
    key
}

/// Whether two values are of one type and the same, floating-point numbers bit for bit.
pub fn same_value(a: &Data, b: &Data) -> (r: bool)
    ensures
        r == (a@ == b@),
{
    match (a, b) {
        (Data::Int32(x), Data::Int32(y)) => *x == *y,
        (Data::Int64(x), Data::Int64(y)) => *x == *y,
        (Data::Float32(x), Data::Float32(y)) => *x == *y,
        (Data::Float64(x), Data::Float64(y)) => *x == *y,
        (Data::String(x), Data::String(y)) => same_text(x.as_str(), y.as_str()),
        _ => false,
    }
}

/// Whether two rows have the same values at the given positions.
pub fn same_keys(a: &Row, a_keys: &[usize], b: &Row, b_keys: &[usize]) -> (r: bool)
    requires
        a_keys@.len() == b_keys@.len(),
        in_bounds(positions(a_keys@), a@.len() as int),
        in_bounds(positions(b_keys@), b@.len() as int),
    ensures
        r == (pick(a@, positions(a_keys@)) == pick(b@, positions(b_keys@))),
{
    let av = a.values();
    let bv = b.values();
    let ghost pa = positions(a_keys@);
    let ghost pb = positions(b_keys@);
    let ghost ka = pick(a@, pa);
    let ghost kb = pick(b@, pb);
    let mut i: usize = 0;
    while i < a_keys.len()
        invariant
            i <= a_keys@.len(),
            a_keys@.len() == b_keys@.len(),
            pa == positions(a_keys@),
            pb == positions(b_keys@),
            ka == pick(a@, pa),
            kb == pick(b@, pb),
            values_of(av@) == a@,
            values_of(bv@) == b@,
            in_bounds(pa, a@.len() as int),
            in_bounds(pb, b@.len() as int),
            forall|j: int| 0 <= j < i ==> #[trigger] ka[j] == kb[j],
        decreases a_keys@.len() - i,
    {
        proof {
            assert(pa[i as int] == a_keys@[i as int]);
            assert(pb[i as int] == b_keys@[i as int]);
            assert(values_of(av@).len() == av@.len());
            assert(values_of(bv@).len() == bv@.len());
        }
        if !same_value(&av[a_keys[i]], &bv[b_keys[i]]) {
            assert(ka[i as int] != kb[i as int]);
            return false;
        }
        i = i + 1;
    }
    assert(ka =~= kb);
    true
}

/// The bytes that a key takes, with strings of the given capacities: the key itself, the list
/// of its fields where there is one, the capacities, and sixteen bytes for each heap block.
pub open spec fn key_heap_size(fields: Option<nat>, capacities: Seq<usize>) -> nat {
    vstd::layout::size_of::<JoinKey>() + (match fields {
        Some(n) => n * vstd::layout::size_of::<KeyField>() + 16,
        None => 0,
    }) + crate::row::capacity_sum(capacities)
}

/// The lengths in bytes of the strings of a key.
pub open spec fn key_string_lengths(key: Seq<Value>) -> Seq<nat> {
    crate::row::string_lengths(key)
}

/// The saturating size of a key, from the number of its fields and the capacities of its
/// strings.
pub fn key_heap_size_of(fields: Option<usize>, capacities: &[usize]) -> (r: usize)
    ensures
        ({
            let exact = key_heap_size(
                match fields {
                    Some(n) => Some(n as nat),
                    None => None,
                },
                capacities@,
            );
            r == (if exact > usize::MAX {
                usize::MAX as nat
            } else {
                exact
            })
        }),
{
    let ghost n = match fields {
        Some(n) => Some(n as nat),
        None => None,
    };
    let mut total: usize = core::mem::size_of::<JoinKey>();
    match fields {
        Some(count) => {
            let body: usize = match count.checked_mul(core::mem::size_of::<KeyField>()) {
                Some(b) => b,
                None => usize::MAX,
            };
            total = total.saturating_add(body).saturating_add(16);
        },
        None => {},
    }
    let mut i: usize = 0;
    assert(capacities@.take(0) =~= Seq::<usize>::empty());
    while i < capacities.len()
        invariant
            i <= capacities@.len(),
            ({
                let exact = key_heap_size(n, capacities@.take(i as int));
                total == (if exact > usize::MAX {
                    usize::MAX as nat
                } else {
                    exact
                })
            }),
        decreases capacities@.len() - i,
    {
        assert(capacities@.take(i + 1).drop_last() =~= capacities@.take(i as int));
        total = total.saturating_add(capacities[i]).saturating_add(16);
        i = i + 1;
    }
    assert(capacities@.take(i as int) =~= capacities@);
    total
}

impl JoinKey {
    /// The length of the list of fields, where there is one.
    pub open spec fn field_list(&self) -> Option<nat> {
        match self {
            JoinKey::One(_) => None,
            JoinKey::Many(fs) => Some(fs@.len()),
        }
    }

    /// An estimate of the memory that the key takes. It follows `key_heap_size` for the
    /// capacities that the strings happen to have, each at least the length of its text.
    pub fn estimate_heap_size(&self) -> (r: usize)
        ensures
            exists|caps: Seq<usize>|
                caps.len() == key_string_lengths(self@).len() && (forall|i: int|
                    0 <= i < caps.len() ==> #[trigger] caps[i] as nat >= key_string_lengths(
                        self@,
                    )[i]) && ({
                    let exact = #[trigger] key_heap_size(self.field_list(), caps);
                    r == (if exact > usize::MAX {
                        usize::MAX as nat
                    } else {
                        exact
                    })
                }),
    {
        let mut capacities: Vec<usize> = Vec::new();
        match self {
            JoinKey::One(f) => {
                proof {
                    reveal_with_fuel(crate::row::string_lengths, 2);
                    assert(self@.drop_last() =~= Seq::<Value>::empty());
                }
                if let KeyField::Str(s) = f {
                    capacities.push(string_capacity(s));
                }
                let size = key_heap_size_of(None, capacities.as_slice());
                assert(key_heap_size(None, capacities@) >= 0);
                size
            },
            JoinKey::Many(fs) => {
                let ghost key = self@;
                let mut i: usize = 0;
                assert(key.take(0) =~= Seq::<Value>::empty());
                while i < fs.len()
                    invariant
                        i <= fs@.len(),
                        key == fs@.map_values(|f: KeyField| f@),
                        capacities@.len() == key_string_lengths(key.take(i as int)).len(),
                        forall|j: int|
                            0 <= j < capacities@.len() ==> #[trigger] capacities@[j] as nat
                                >= key_string_lengths(key.take(i as int))[j],
                    decreases fs@.len() - i,
                {
                    proof {
                        assert(key.take(i + 1).drop_last() =~= key.take(i as int));
                        assert(key.take(i + 1).last() == fs@[i as int]@);
                    }
                    if let KeyField::Str(s) = &fs[i] {
                        capacities.push(string_capacity(s));
                    }
                    i = i + 1;
                }
                assert(key.take(i as int) =~= key);
                let size = key_heap_size_of(Some(fs.len()), capacities.as_slice());
                assert(key_heap_size(Some(fs@.len()), capacities@) >= 0);
                size
            },
        }
    }
}

/// What a join operator knows of its two sides.
#[derive(Debug)]
pub struct JoinParams {
    pub left_keys: Vec<usize>,
    pub right_keys: Vec<usize>,
    pub extra: Vec<ResolvedPredicate>,
    pub left_len: usize,
    pub right_len: usize,
}

impl View for JoinParams {
    type V = JoinOn;

    open spec fn view(&self) -> JoinOn {
        JoinOn {
            left_keys: positions(self.left_keys@),
            right_keys: positions(self.right_keys@),
            extra: tests(self.extra@),
            by_order: false,
        }
    }
}

/// Whether all rows have the same length.
pub open spec fn all_len(rows: Seq<Seq<Value>>, len: nat) -> bool {
    forall|i: int| 0 <= i < rows.len() ==> (#[trigger] rows[i]).len() == len
}

impl JoinParams {
    pub open spec fn inv(&self) -> bool {
        &&& self.left_keys@.len() == self.right_keys@.len()
        &&& in_bounds(self@.left_keys, self.left_len as int)
        &&& in_bounds(self@.right_keys, self.right_len as int)
        &&& all_read_within(self@.extra, self.left_len + self.right_len)
    }

    /// The length of the build side's rows.
    pub open spec fn build_len(&self, build_is_left: bool) -> nat {
        if build_is_left {
            self.left_len as nat
        } else {
            self.right_len as nat
        }
    }

    /// The key positions of the build side.
    pub open spec fn build_at(&self, build_is_left: bool) -> Seq<int> {
        if build_is_left {
            self@.left_keys
        } else {
            self@.right_keys
        }
    }

    pub fn keys_of(&self, left: bool) -> (r: &[usize])
        ensures
            positions(r@) == self.build_at(left),
            r@.len() == (if left {
                self.left_keys@.len()
            } else {
                self.right_keys@.len()
            }),
    {
        if left {
            self.left_keys.as_slice()
        } else {
            self.right_keys.as_slice()
        }
    }

    /// Checks that a row has the length of its side's rows.
    pub fn check_len(&self, left: bool, row: &Row) -> (r: Result<(), DbError>)
        ensures
            r is Ok <==> row@.len() == self.build_len(left),
            r matches Err(e) ==> e matches DbError::RowSchemaMismatch(n, m) && n == row@.len()
                && m == self.build_len(left),
    {
        let expected: usize = if left {
            self.left_len
        } else {
            self.right_len
        };
        let n: usize = row.len();
        if n != expected {
            Err(DbError::RowSchemaMismatch(n, expected))
        } else {
            Ok(())
        }
    }

    /// Merges two rows that join.
    pub fn test_pair(&self, l: &Row, r: &Row) -> (res: Result<Option<Row>, DbError>)
        requires
            self.inv(),
            l@.len() == self.left_len,
            r@.len() == self.right_len,
        ensures
            match res {
                Ok(Some(m)) => joins(self@, l@, r@) && m@ == l@ + r@,
                Ok(None) => !joins(self@, l@, r@) && !pair_fails(self@, l@, r@),
                Err(e) => pair_fails(self@, l@, r@) && e is IncomparableValues,
            },
    {
        if !same_keys(l, self.left_keys.as_slice(), r, self.right_keys.as_slice()) {
            return Ok(None);
        }
        let merged = Row::merge(l, r);
        match eval_resolved(&merged, self.extra.as_slice()) {
            Ok(true) => Ok(Some(merged)),
            Ok(false) => Ok(None),
            Err(e) => Err(e),
        }
    }

    /// As `test_pair`, where the sides are known as build and probe.
    pub fn test_sides(&self, build_is_left: bool, b: &Row, p: &Row) -> (res: Result<
        Option<Row>,
        DbError,
    >)
        requires
            self.inv(),
            b@.len() == self.build_len(build_is_left),
            p@.len() == self.build_len(!build_is_left),
        ensures
            match res {
                Ok(Some(m)) => sides_join(self@, build_is_left, b@, p@) && m@ == merged_sides(
                    build_is_left,
                    b@,
                    p@,
                ),
                Ok(None) => !sides_join(self@, build_is_left, b@, p@) && !sides_fail(
                    self@,
                    build_is_left,
                    b@,
                    p@,
                ),
                Err(e) => sides_fail(self@, build_is_left, b@, p@) && e is IncomparableValues,
            },
    {
        if build_is_left {
            self.test_pair(b, p)
        } else {
            self.test_pair(p, b)
        }
    }
}

/// Whether two rows have the same keys and a test on the merged row has no answer.
pub open spec fn pair_fails(on: JoinOn, l: Seq<Value>, r: Seq<Value>) -> bool {
    keys_match(on, l, r) && row_passes(on.extra, l + r) is None
}

/// Whether every pair of rows with equal keys has an answer to the tests.
#[verifier::opaque]
pub open spec fn decided(on: JoinOn, ls: Seq<Seq<Value>>, rs: Seq<Seq<Value>>) -> bool {
    forall|i: int, j: int|
        0 <= i < ls.len() && 0 <= j < rs.len() ==> !pair_fails(
            on,
            #[trigger] ls[i],
            #[trigger] rs[j],
        )
}

/// As `decided`, for a build side and a probe side.
pub open spec fn decided_sides(
    on: JoinOn,
    build_is_left: bool,
    build: Seq<Seq<Value>>,
    probe: Seq<Seq<Value>>,
) -> bool {
    if build_is_left {
        decided(on, build, probe)
    } else {
        decided(on, probe, build)
    }
}

/// Whether an error is that of a pair of rows that has no answer to a test.
pub open spec fn undecided(
    on: JoinOn,
    e: DbError,
    ls: Seq<Seq<Value>>,
    rs: Seq<Seq<Value>>,
) -> bool {
    e is IncomparableValues && !decided(on, ls, rs)
}

/// Without tests every pair has an answer.
pub proof fn lemma_no_tests_decided(on: JoinOn, ls: Seq<Seq<Value>>, rs: Seq<Seq<Value>>)
    ensures
        on.extra.len() == 0 ==> decided(on, ls, rs),
{
    reveal(decided);
}

/// Where all pairs have answers, those of fewer rows have.
pub proof fn decided_for_fewer(
    on: JoinOn,
    build_is_left: bool,
    build: Seq<Seq<Value>>,
    probe: Seq<Seq<Value>>,
    some_build: Seq<Seq<Value>>,
    some_probe: Seq<Seq<Value>>,
)
    requires
        decided_sides(on, build_is_left, build, probe),
        all_in(some_build, build),
        all_in(some_probe, probe),
    ensures
        decided_sides(on, build_is_left, some_build, some_probe),
{
    reveal(decided);
    let (ls, rs, ls2, rs2) = if build_is_left {
        (build, probe, some_build, some_probe)
    } else {
        (probe, build, some_probe, some_build)
    };
    assert forall|i: int, j: int| 0 <= i < ls2.len() && 0 <= j < rs2.len() implies !pair_fails(
        on,
        #[trigger] ls2[i],
        #[trigger] rs2[j],
    ) by {
        assert(ls.contains(ls2[i]));
        assert(rs.contains(rs2[j]));
        let a = choose|a: int| 0 <= a < ls.len() && ls[a] == ls2[i];
        let b = choose|b: int| 0 <= b < rs.len() && rs[b] == rs2[j];
        assert(!pair_fails(on, ls[a], rs[b]));
    }
}

/// The same where the first build row is done with.
pub proof fn decided_for_tail(
    on: JoinOn,
    build_is_left: bool,
    build: Seq<Seq<Value>>,
    probe: Seq<Seq<Value>>,
)
    requires
        decided_sides(on, build_is_left, build, probe),
        build.len() > 0,
    ensures
        decided_sides(on, build_is_left, build.drop_first(), probe),
{
    lemma_all_in_self(probe);
    lemma_all_in_tail(build);
    decided_for_fewer(on, build_is_left, build, probe, build.drop_first(), probe);
}

/// A pair without an answer is one of all pairs.
pub proof fn lemma_undecided(
    on: JoinOn,
    build_is_left: bool,
    build: Seq<Seq<Value>>,
    probe: Seq<Seq<Value>>,
    i: int,
    j: int,
)
    requires
        0 <= i < build.len(),
        0 <= j < probe.len(),
        sides_fail(on, build_is_left, build[i], probe[j]),
    ensures
        !decided_sides(on, build_is_left, build, probe),
{
    reveal(decided);
}

/// A row of a join has the values of a left row and of a right row.
pub proof fn lemma_join_row_len(
    on: JoinOn,
    ls: Seq<Seq<Value>>,
    rs: Seq<Seq<Value>>,
    left_len: nat,
    right_len: nat,
    x: Seq<Value>,
)
    requires
        all_len(ls, left_len),
        all_len(rs, right_len),
        join_of(on, ls, rs).count(x) > 0,
    ensures
        x.len() == left_len + right_len,
    decreases ls.len(),
{
    if ls.len() > 0 {
        let init = ls.drop_last();
        assert forall|i: int| 0 <= i < init.len() implies (#[trigger] init[i]).len() == left_len by {
            assert(init[i] == ls[i]);
        }
        if join_of(on, init, rs).count(x) > 0 {
            lemma_join_row_len(on, init, rs, left_len, right_len, x);
        } else {
            assert(ls[ls.len() - 1].len() == left_len);
            lemma_left_row_len(on, ls.last(), rs, right_len, x);
        }
    }
}

proof fn lemma_left_row_len(
    on: JoinOn,
    l: Seq<Value>,
    rs: Seq<Seq<Value>>,
    right_len: nat,
    x: Seq<Value>,
)
    requires
        all_len(rs, right_len),
        left_with(on, l, rs).count(x) > 0,
    ensures
        x.len() == l.len() + right_len,
    decreases rs.len(),
{
    if rs.len() > 0 {
        let init = rs.drop_last();
        assert forall|i: int| 0 <= i < init.len() implies (#[trigger] init[i]).len()
            == right_len by {
            assert(init[i] == rs[i]);
        }
        assert(rs[rs.len() - 1].len() == right_len);
        if left_with(on, l, init).count(x) > 0 {
            lemma_left_row_len(on, l, init, right_len, x);
        }
    }
}

pub proof fn lemma_all_in_self(rows: Seq<Seq<Value>>)
    ensures
        all_in(rows, rows),
{
    assert forall|i: int| 0 <= i < rows.len() implies rows.contains(#[trigger] rows[i]) by {}
}

pub proof fn lemma_all_in_tail(rows: Seq<Seq<Value>>)
    requires
        rows.len() > 0,
    ensures
        all_in(rows.drop_first(), rows),
{
    assert forall|i: int| 0 <= i < rows.drop_first().len() implies rows.contains(
        #[trigger] rows.drop_first()[i],
    ) by {
        assert(rows.drop_first()[i] == rows[i + 1]);
    }
}

pub proof fn lemma_all_in_sum(a: Seq<Seq<Value>>, b: Seq<Seq<Value>>)
    ensures
        all_in(a, a + b),
        all_in(b, a + b),
{
    assert forall|i: int| 0 <= i < a.len() implies (a + b).contains(#[trigger] a[i]) by {
        assert((a + b)[i] == a[i]);
    }
    assert forall|i: int| 0 <= i < b.len() implies (a + b).contains(#[trigger] b[i]) by {
        assert((a + b)[a.len() + i] == b[i]);
    }
}

pub proof fn lemma_all_in_filter(rows: Seq<Seq<Value>>, keep: spec_fn(Seq<Value>) -> bool)
    ensures
        all_in(rows.filter(keep), rows),
{
    assert forall|i: int| 0 <= i < rows.filter(keep).len() implies rows.contains(
        #[trigger] rows.filter(keep)[i],
    ) by {
        lemma_filter_in(rows, keep, i);
    }
}

pub open spec fn sides_join(on: JoinOn, build_is_left: bool, b: Seq<Value>, p: Seq<Value>) -> bool {
    if build_is_left {
        joins(on, b, p)
    } else {
        joins(on, p, b)
    }
}

pub open spec fn sides_fail(on: JoinOn, build_is_left: bool, b: Seq<Value>, p: Seq<Value>) -> bool {
    if build_is_left {
        pair_fails(on, b, p)
    } else {
        pair_fails(on, p, b)
    }
}

/// The merged row, the left side's values first.
pub open spec fn merged_sides(build_is_left: bool, b: Seq<Value>, p: Seq<Value>) -> Seq<Value> {
    if build_is_left {
        b + p
    } else {
        p + b
    }
}

/// The merged rows of a probe row, in the order of the build side.
pub open spec fn matches_of(
    on: JoinOn,
    build_is_left: bool,
    build: Seq<Seq<Value>>,
    p: Seq<Value>,
) -> Seq<Seq<Value>>
    decreases build.len(),
{
    if build.len() == 0 {
        Seq::empty()
    } else {
        let before = matches_of(on, build_is_left, build.drop_last(), p);
        if sides_join(on, build_is_left, build.last(), p) {
            before.push(merged_sides(build_is_left, build.last(), p))
        } else {
            before
        }
    }
}

/// The matches of a probe row, order aside, are what it contributes to the join.
pub proof fn matches_are_contribution(
    on: JoinOn,
    build_is_left: bool,
    build: Seq<Seq<Value>>,
    p: Seq<Value>,
)
    ensures
        matches_of(on, build_is_left, build, p).to_multiset() == probe_with(
            on,
            build_is_left,
            build,
            p,
        ),
    decreases build.len(),
{
    broadcast use vstd::seq_lib::group_to_multiset_ensures;

    if build.len() > 0 {
        let init = build.drop_last();
        matches_are_contribution(on, build_is_left, init, p);
        assert(matches_of(on, build_is_left, build, p).to_multiset() =~= probe_with(
            on,
            build_is_left,
            build,
            p,
        ));
    } else {
        assert(Seq::<Seq<Value>>::empty().to_multiset() =~= Multiset::<Seq<Value>>::empty());
    }
}

proof fn lemma_matches_filtered(
    on: JoinOn,
    build_is_left: bool,
    build: Seq<Seq<Value>>,
    p: Seq<Value>,
    keep: spec_fn(Seq<Value>) -> bool,
)
    requires
        forall|i: int|
            0 <= i < build.len() && sides_join(on, build_is_left, #[trigger] build[i], p) ==> keep(
                build[i],
            ),
    ensures
        matches_of(on, build_is_left, build, p) == matches_of(
            on,
            build_is_left,
            build.filter(keep),
            p,
        ),
    decreases build.len(),
{
    reveal(Seq::filter);
    if build.len() > 0 {
        let init = build.drop_last();
        assert forall|i: int|
            0 <= i < init.len() && sides_join(
                on,
                build_is_left,
                #[trigger] init[i],
                p,
            ) implies keep(init[i]) by {
            assert(init[i] == build[i]);
        }
        lemma_matches_filtered(on, build_is_left, init, p, keep);
        assert(build[build.len() - 1] == build.last());
        if keep(build.last()) {
            assert(init.filter(keep).push(build.last()).drop_last() =~= init.filter(keep));
        }
    }
}

/// The rows of the build side, found by the hash of their key.
pub struct JoinTable {
    buckets: HashMap<u64, Vec<Row>>,
    hashes: Vec<u64>,
    all: Ghost<Seq<Seq<Value>>>,
}

/// Whether all rows of a list are rows of another.
pub open spec fn all_in(some: Seq<Seq<Value>>, all: Seq<Seq<Value>>) -> bool {
    forall|i: int| 0 <= i < some.len() ==> all.contains(#[trigger] some[i])
}

pub proof fn lemma_filter_in(rows: Seq<Seq<Value>>, keep: spec_fn(Seq<Value>) -> bool, i: int)
    requires
        0 <= i < rows.filter(keep).len(),
    ensures
        rows.contains(rows.filter(keep)[i]),
    decreases rows.len(),
{
    reveal(Seq::filter);
    if rows.len() > 0 {
        let init = rows.drop_last();
        if i < init.filter(keep).len() {
            lemma_filter_in(init, keep, i);
            let j = choose|j: int| 0 <= j < init.len() && init[j] == init.filter(keep)[i];
            assert(rows[j] == init[j]);
        } else {
            assert(rows[rows.len() - 1] == rows.last());
        }
    }
}

/// The hash of a probe row's key.
pub open spec fn probe_hash(on: JoinOn, build_is_left: bool, p: Seq<Value>) -> u64 {
    key_hash(
        pick(
            p,
            if build_is_left {
                on.right_keys
            } else {
                on.left_keys
            },
        ),
    )
}

/// The first build row's match comes first.
pub proof fn lemma_matches_front(on: JoinOn, left: bool, batch: Seq<Seq<Value>>, p: Seq<Value>)
    requires
        batch.len() > 0,
    ensures
        matches_of(on, left, batch, p) == (if sides_join(on, left, batch[0], p) {
            seq![merged_sides(left, batch[0], p)] + matches_of(on, left, batch.drop_first(), p)
        } else {
            matches_of(on, left, batch.drop_first(), p)
        }),
    decreases batch.len(),
{
    let rest = batch.drop_first();
    if batch.len() == 1 {
        assert(rest =~= Seq::<Seq<Value>>::empty());
        assert(batch.drop_last() =~= Seq::<Seq<Value>>::empty());
        assert(batch.last() == batch[0]);
        assert(matches_of(on, left, batch.drop_last(), p) =~= Seq::<Seq<Value>>::empty());
        if sides_join(on, left, batch[0], p) {
            let m = merged_sides(left, batch[0], p);
            assert(Seq::<Seq<Value>>::empty().push(m) =~= seq![m] + Seq::<Seq<Value>>::empty());
        }
    } else {
        let init = batch.drop_last();
        lemma_matches_front(on, left, init, p);
        assert(init.drop_first() =~= rest.drop_last());
        assert(rest.last() == batch.last());
        assert(init[0] == batch[0]);
        let m = merged_sides(left, batch[0], p);
        let mid = matches_of(on, left, rest.drop_last(), p);
        if sides_join(on, left, batch.last(), p) {
            let x = merged_sides(left, batch.last(), p);
            assert((seq![m] + mid).push(x) =~= seq![m] + mid.push(x));
        }
    }
}

/// Whether a row's key has a hash.
pub open spec fn has_hash(keys: Seq<int>, h: u64) -> spec_fn(Seq<Value>) -> bool {
    |b: Seq<Value>| key_hash(pick(b, keys)) == h
}

impl JoinTable {
    /// The rows in the order in which they were inserted.
    pub closed spec fn rows(&self) -> Seq<Seq<Value>> {
        self.all@
    }

    pub closed spec fn bucket(&self, h: u64) -> Seq<Seq<Value>> {
        if self.buckets@.dom().contains(h) {
            rows_of(self.buckets@[h]@)
        } else {
            Seq::empty()
        }
    }

    /// The hashes of the keys.
    pub closed spec fn hash_list(&self) -> Seq<u64> {
        self.hashes@
    }

    pub closed spec fn inv(&self, keys: Seq<int>, len: nat) -> bool {
        &&& all_len(self.all@, len)
        &&& in_bounds(keys, len as int)
        &&& forall|h: u64| #[trigger] self.bucket(h) == self.all@.filter(has_hash(keys, h))
        &&& forall|h: u64| #[trigger]
            self.buckets@.dom().contains(h) ==> self.hashes@.contains(h)
                && self.buckets@[h]@.len() > 0
        &&& forall|i: int|
            0 <= i < self.hashes@.len() ==> self.buckets@.dom().contains(#[trigger] self.hashes@[i])
    }

    pub proof fn inv_gives(&self, keys: Seq<int>, len: nat)
        requires
            self.inv(keys, len),
        ensures
            all_len(self.rows(), len),
            in_bounds(keys, len as int),
    {
    }

    pub fn new() -> (r: JoinTable)
        ensures
            r.rows() == Seq::<Seq<Value>>::empty(),
            forall|keys: Seq<int>, len: nat|
                in_bounds(keys, len as int) ==> #[trigger] r.inv(keys, len),
    {
        let r = JoinTable { buckets: HashMap::new(), hashes: Vec::new(), all: Ghost(Seq::empty()) };
        proof {
            reveal(Seq::filter);
            assert forall|keys: Seq<int>, len: nat| in_bounds(keys, len as int) implies #[trigger] r.inv(keys, len) by {
                assert forall|h: u64| #[trigger] r.bucket(h) == r.all@.filter(has_hash(keys, h)) by {
                    assert(r.bucket(h) =~= r.all@.filter(has_hash(keys, h)));
                }
            }
        }
        r
    }

    /// Whether no row was inserted.
    pub fn is_empty(&self, Ghost(keys): Ghost<Seq<int>>, Ghost(len): Ghost<nat>) -> (r: bool)
        requires
            self.inv(keys, len),
        ensures
            r == (self.rows().len() == 0),
    {
        proof {
            if self.hashes@.len() > 0 {
                let h = self.hashes@[0];
                assert(self.buckets@.dom().contains(h));
                assert(self.bucket(h).len() > 0);
                self.all@.lemma_filter_len(has_hash(keys, h));
            } else if self.rows().len() > 0 {
                let h = key_hash(pick(self.all@[0], keys));
                assert(!self.buckets@.dom().contains(h));
                assert(self.bucket(h).len() == 0);
                self.all@.lemma_filter_contains(has_hash(keys, h), 0);
            }
        }
        self.hashes.len() == 0
    }

    /// Inserts a row.
    pub fn insert(&mut self, row: Row, key_indices: &[usize])
        requires
            old(self).inv(positions(key_indices@), row@.len()),
        ensures
            final(self).inv(positions(key_indices@), row@.len()),
            final(self).rows() == old(self).rows().push(row@),
    {
        let ghost keys = positions(key_indices@);
        let ghost rv = row@;
        let h: u64 = key_hash64(&row, key_indices);
        let mut bucket: Vec<Row> = Vec::new();
        match self.buckets.remove(&h) {
            Some(rows) => {
                bucket = rows;
            },
            None => {
                self.hashes.push(h);
            },
        }
        let ghost before = rows_of(bucket@);
        proof {
            assert(before =~= old(self).bucket(h));
        }
        bucket.push(row);
        self.buckets.insert(h, bucket);
        proof {
            self.all@ = old(self).all@.push(rv);
            assert forall|g: u64| #[trigger] self.bucket(g) == self.all@.filter(has_hash(keys, g)) by {
                reveal(Seq::filter);
                assert(self.all@.drop_last() =~= old(self).all@);
                assert(old(self).bucket(g) == old(self).all@.filter(has_hash(keys, g)));
                if g != h {
                    assert(self.bucket(g) =~= old(self).bucket(g));
                } else {
                    assert(self.bucket(g) =~= before.push(rv));
                }
            }
            assert forall|g: u64| #[trigger] self.buckets@.dom().contains(g) implies self.hashes@.contains(g)
                && self.buckets@[g]@.len() > 0 by {
                if old(self).buckets@.dom().contains(g) {
                    let i = choose|i: int| 0 <= i < old(self).hashes@.len() && old(self).hashes@[i] == g;
                    assert(self.hashes@[i] == g);
                } else {
                    assert(g == h);
                    assert(self.hashes@[self.hashes@.len() - 1] == h);
                }
            }
            assert forall|i: int| 0 <= i < self.hashes@.len() implies self.buckets@.dom().contains(#[trigger] self.hashes@[i]) by {
                if i < old(self).hashes@.len() {
                    assert(old(self).buckets@.dom().contains(old(self).hashes@[i]));
                }
            }
            assert(all_len(self.all@, rv.len()));
        }
    }

    /// The rows whose key has the given hash.
    pub fn bucket_rows(&self, h: u64) -> (r: &[Row])
        ensures
            rows_of(r@) == self.bucket(h),
    {
        match self.buckets.get(&h) {
            Some(rows) => rows.as_slice(),
            None => {
                let none: &[Row] = &[];
                assert(rows_of(none@) =~= Seq::<Seq<Value>>::empty());
                none
            },
        }
    }

    /// The hashes of all keys.
    pub fn hash_values(&self) -> (r: &[u64])
        ensures
            r@ == self.hash_list(),
    {
        self.hashes.as_slice()
    }

    /// Every row's hash is listed, and only such hashes are.
    pub proof fn lemma_hashes(&self, keys: Seq<int>, len: nat)
        requires
            self.inv(keys, len),
        ensures
            forall|i: int|
                0 <= i < self.rows().len() ==> self.hash_list().contains(
                    key_hash(pick(#[trigger] self.rows()[i], keys)),
                ),
    {
        assert forall|i: int| 0 <= i < self.rows().len() implies self.hash_list().contains(
            key_hash(pick(#[trigger] self.rows()[i], keys)),
        ) by {
            let h = key_hash(pick(self.all@[i], keys));
            self.all@.lemma_filter_contains(has_hash(keys, h), i);
            assert(self.bucket(h).len() > 0);
            assert(self.buckets@.dom().contains(h));
        }
    }

    pub proof fn lemma_bucket_in(&self, keys: Seq<int>, len: nat, h: u64)
        requires
            self.inv(keys, len),
        ensures
            all_len(self.bucket(h), len),
            all_in(self.bucket(h), self.rows()),
    {
        let b = self.bucket(h);
        let keep = has_hash(keys, h);
        assert(b == self.all@.filter(keep));
        assert forall|i: int| 0 <= i < b.len() implies self.rows().contains(#[trigger] b[i]) by {
            lemma_filter_in(self.all@, keep, i);
        }
        assert forall|i: int| 0 <= i < b.len() implies (#[trigger] b[i]).len() == len by {
            assert(self.rows().contains(b[i]));
        }
    }

    /// Every row is in the bucket of its hash, and that hash is listed.
    pub proof fn lemma_row_in_bucket(&self, keys: Seq<int>, len: nat, i: int)
        requires
            self.inv(keys, len),
            0 <= i < self.rows().len(),
        ensures
            self.bucket(key_hash(pick(self.rows()[i], keys))).contains(self.rows()[i]),
            self.hash_list().contains(key_hash(pick(self.rows()[i], keys))),
    {
        let h = key_hash(pick(self.all@[i], keys));
        self.all@.lemma_filter_contains(has_hash(keys, h), i);
        self.lemma_hashes(keys, len);
    }

    /// A bucket holds the rows with its hash, so no match is outside it.
    pub proof fn lemma_bucket(
        &self,
        on: JoinOn,
        keys: Seq<int>,
        len: nat,
        build_is_left: bool,
        p: Seq<Value>,
    )
        requires
            self.inv(keys, len),
            !on.by_order,
            keys == (if build_is_left {
                on.left_keys
            } else {
                on.right_keys
            }),
        ensures
            matches_of(on, build_is_left, self.rows(), p) == matches_of(
                on,
                build_is_left,
                self.bucket(probe_hash(on, build_is_left, p)),
                p,
            ),
            all_len(self.bucket(probe_hash(on, build_is_left, p)), len),
            all_in(self.bucket(probe_hash(on, build_is_left, p)), self.rows()),
    {
        let h = probe_hash(on, build_is_left, p);
        let b = self.bucket(h);
        let keep = has_hash(keys, h);
        assert(b == self.all@.filter(keep));
        assert forall|i: int|
            0 <= i < self.all@.len() && sides_join(
                on,
                build_is_left,
                #[trigger] self.all@[i],
                p,
            ) implies keep(self.all@[i]) by {}
        lemma_matches_filtered(on, build_is_left, self.all@, p, keep);
        assert forall|i: int| 0 <= i < b.len() implies self.rows().contains(#[trigger] b[i]) by {
            lemma_filter_in(self.all@, keep, i);
        }
        assert forall|i: int| 0 <= i < b.len() implies (#[trigger] b[i]).len() == len by {
            assert(self.rows().contains(b[i]));
        }
    }

    /// The merged rows of a probe row, in the order in which the build rows were inserted.
    pub fn matches(&self, params: &JoinParams, build_is_left: bool, probe: &Row) -> (r: Result<
        Vec<Row>,
        DbError,
    >)
        requires
            params.inv(),
            self.inv(params.build_at(build_is_left), params.build_len(build_is_left)),
            probe@.len() == params.build_len(!build_is_left),
        ensures
            r matches Ok(v) ==> rows_of(v@) == matches_of(
                params@,
                build_is_left,
                self.rows(),
                probe@,
            ),
            r is Ok <==> forall|i: int|
                0 <= i < self.rows().len() ==> !sides_fail(
                    params@,
                    build_is_left,
                    #[trigger] self.rows()[i],
                    probe@,
                ),
            r matches Err(e) ==> cannot_compare(params@, e),
    {
        let ghost on = params@;
        let ghost keys = params.build_at(build_is_left);
        let ghost len = params.build_len(build_is_left);
        let h: u64 = key_hash64(probe, params.keys_of(!build_is_left));
        let bucket = self.bucket_rows(h);
        let ghost b = rows_of(bucket@);
        proof {
            self.lemma_bucket(on, keys, len, build_is_left, probe@);
        }
        let mut out: Vec<Row> = Vec::new();
        let mut i: usize = 0;
        assert(b.take(0) =~= Seq::<Seq<Value>>::empty());
        assert(rows_of(out@) =~= Seq::<Seq<Value>>::empty());
        while i < bucket.len()
            invariant
                i <= bucket@.len(),
                params.inv(),
                on == params@,
                b == rows_of(bucket@),
                b == self.bucket(h),
                len == params.build_len(build_is_left),
                all_len(b, len),
                all_in(b, self.rows()),
                probe@.len() == params.build_len(!build_is_left),
                rows_of(out@) == matches_of(on, build_is_left, b.take(i as int), probe@),
                forall|j: int|
                    0 <= j < i ==> !sides_fail(on, build_is_left, #[trigger] b[j], probe@),
            decreases bucket@.len() - i,
        {
            let row = &bucket[i];
            assert(b[i as int] == row@);
            proof {
                assert(b.take(i + 1).drop_last() =~= b.take(i as int));
                assert(b.take(i + 1).last() == row@);
            }
            match params.test_sides(build_is_left, row, probe) {
                Ok(Some(m)) => {
                    out.push(m);
                },
                Ok(None) => {},
                Err(e) => {
                    proof {
                        let j = choose|j: int| 0 <= j < self.rows().len() && self.rows()[j] == b[i as int];
                        assert(sides_fail(on, build_is_left, self.rows()[j], probe@));
                    }
                    return Err(e);
                },
            }
            i = i + 1;
        }
        proof {
            assert(b.take(i as int) =~= b);
            assert forall|j: int| 0 <= j < self.rows().len() implies !sides_fail(
                on,
                build_is_left,
                #[trigger] self.rows()[j],
                probe@,
            ) by {
                if sides_fail(on, build_is_left, self.rows()[j], probe@) {
                    assert(key_hash(pick(self.rows()[j], keys)) == h);
                    self.all@.lemma_filter_contains(has_hash(keys, h), j);
                    assert(b.contains(self.rows()[j]));
                    let k = choose|k: int| 0 <= k < b.len() && b[k] == self.rows()[j];
                    assert(!sides_fail(on, build_is_left, b[k], probe@));
                }
            }
        }
        Ok(out)
    }

    /// The first match of a probe row in its bucket from some place on, and the place behind it.
    pub fn next_match(
        &self,
        params: &JoinParams,
        build_is_left: bool,
        probe: &Row,
        h: u64,
        from: usize,
    ) -> (r: Result<Option<(Row, usize)>, DbError>)
        requires
            params.inv(),
            self.inv(params.build_at(build_is_left), params.build_len(build_is_left)),
            probe@.len() == params.build_len(!build_is_left),
            h == probe_hash(params@, build_is_left, probe@),
            from <= self.bucket(h).len(),
        ensures
            match r {
                Ok(Some((row, next))) => {
                    &&& from < next <= self.bucket(h).len()
                    &&& row@.len() == params.left_len + params.right_len
                    &&& matches_of(
                        params@,
                        build_is_left,
                        self.bucket(h).skip(from as int),
                        probe@,
                    ) == seq![row@] + matches_of(
                        params@,
                        build_is_left,
                        self.bucket(h).skip(next as int),
                        probe@,
                    )
                },
                Ok(None) => matches_of(
                    params@,
                    build_is_left,
                    self.bucket(h).skip(from as int),
                    probe@,
                ).len() == 0,
                Err(e) => cannot_compare(params@, e) && exists|i: int|
                    from <= i < self.bucket(h).len() && sides_fail(
                        params@,
                        build_is_left,
                        #[trigger] self.bucket(h)[i],
                        probe@,
                    ),
            },
    {
        let ghost on = params@;
        let ghost len = params.build_len(build_is_left);
        let bucket = self.bucket_rows(h);
        let ghost b = rows_of(bucket@);
        proof {
            self.lemma_bucket(
                on,
                params.build_at(build_is_left),
                len,
                build_is_left,
                probe@,
            );
        }
        let mut i: usize = from;
        while i < bucket.len()
            invariant
                from <= i <= bucket@.len(),
                params.inv(),
                on == params@,
                b == rows_of(bucket@),
                b == self.bucket(h),
                len == params.build_len(build_is_left),
                all_len(b, len),
                probe@.len() == params.build_len(!build_is_left),
                matches_of(on, build_is_left, b.skip(from as int), probe@) == matches_of(
                    on,
                    build_is_left,
                    b.skip(i as int),
                    probe@,
                ),
            decreases bucket@.len() - i,
        {
            let row = &bucket[i];
            assert(b[i as int] == row@);
            proof {
                lemma_matches_front(on, build_is_left, b.skip(i as int), probe@);
                assert(b.skip(i as int).drop_first() =~= b.skip(i + 1));
                assert(b.skip(i as int)[0] == row@);
            }
            match params.test_sides(build_is_left, row, probe) {
                Ok(Some(m)) => {
                    return Ok(Some((m, i + 1)));
                },
                Ok(None) => {},
                Err(e) => {
                    return Err(e);
                },
            }
            i = i + 1;
        }
        proof {
            assert(b.skip(i as int) =~= Seq::<Seq<Value>>::empty());
        }
        Ok(None)
    }
}

} // verus!

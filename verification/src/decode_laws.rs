//! What leaving columns out, testing rows and probing a filter do while a block is decoded.

use vstd::prelude::*;
use crate::block_decode::{block_rows, columns_to, filtered_to, is_kept, kept_values, raw_accepts, rows_to};
use crate::bloom::{RuntimeMembershipFilter, RuntimeMembershipFilterKind, filter_accepts};
use crate::buffer::{BlockIssue, skip_at, value_at};
use crate::codec::le_value;
use crate::filter::{Test, row_passes};
use crate::value::{DataType, Value};

verus! {

/// Leaving columns out keeps the values of the other columns, in their order.
pub proof fn kept_columns_stay_in_order(row: Seq<Value>, keep: Seq<bool>, n: nat)
    ensures
        kept_values(row, keep, n) == Seq::new(n, |i: int| i).filter(
            |i: int| keep[i],
        ).map_values(|i: int| row[i]),
    decreases n,
{
    reveal(Seq::filter);
    let f = |i: int| keep[i];
    let g = |i: int| row[i];
    let all = Seq::new(n, |i: int| i);
    if n > 0 {
        let m = (n - 1) as nat;
        kept_columns_stay_in_order(row, keep, m);
        let before = Seq::new(m, |i: int| i);
        assert(all.drop_last() =~= before);
        assert(all.last() == m);
        if keep[m as int] {
            assert(before.filter(f).push(m as int).map_values(g) =~= before.filter(f).map_values(
                g,
            ).push(row[m as int]));
        }
    } else {
        assert(all =~= Seq::<int>::empty());
        assert(all.filter(f).map_values(g) =~= Seq::<Value>::empty());
    }
}

/// Moving over a value ends where reading it ends.
pub proof fn skipping_ends_where_reading_ends(bytes: Seq<u8>, end: int, at: int, t: DataType)
    requires
        value_at(bytes, end, at, t) is Ok,
    ensures
        skip_at(bytes, end, at, t) == Ok::<int, BlockIssue>((value_at(bytes, end, at, t)->Ok_0).1),
{
}

/// Testing rows while a block is decoded keeps those rows that pass, in their order.
pub proof fn tested_scan_keeps_the_rows_that_pass(
    bytes: Seq<u8>,
    types: Seq<DataType>,
    keep: Option<Seq<bool>>,
    tests: Seq<Test>,
)
    requires
        block_rows(bytes, types, keep, None, None) is Ok,
        forall|i: int|
            0 <= i < (block_rows(bytes, types, keep, None, None)->Ok_0).len() ==> row_passes(
                tests,
                #[trigger] (block_rows(bytes, types, keep, None, None)->Ok_0)[i],
            ) is Some,
    ensures
        block_rows(bytes, types, keep, Some(tests), None) == Ok::<Seq<Seq<Value>>, BlockIssue>(
            (block_rows(bytes, types, keep, None, None)->Ok_0).filter(
                |row: Seq<Value>| row_passes(tests, row) == Some(true),
            ),
        ),
{
    let n = le_value(bytes.skip(bytes.len() - 2));
    let rows = (rows_to(bytes, types, keep, None, None, n)->Ok_0).0;
    assert forall|i: int| 0 <= i < rows.len() implies row_passes(
        tests,
        #[trigger] rows[i],
    ) is Some by {
        assert(rows[i] == (block_rows(bytes, types, keep, None, None)->Ok_0)[i]);
    }
    lemma_tested_rows(bytes, types, keep, tests, n);
}

proof fn lemma_tested_rows(
    bytes: Seq<u8>,
    types: Seq<DataType>,
    keep: Option<Seq<bool>>,
    tests: Seq<Test>,
    n: nat,
)
    requires
        rows_to(bytes, types, keep, None, None, n) is Ok,
        forall|i: int|
            0 <= i < (rows_to(bytes, types, keep, None, None, n)->Ok_0).0.len() ==> row_passes(
                tests,
                #[trigger] (rows_to(bytes, types, keep, None, None, n)->Ok_0).0[i],
            ) is Some,
    ensures
        ({
            let whole = rows_to(bytes, types, keep, None, None, n)->Ok_0;
            rows_to(bytes, types, keep, Some(tests), None, n) == Ok::<
                (Seq<Seq<Value>>, int),
                BlockIssue,
            >((whole.0.filter(|row: Seq<Value>| row_passes(tests, row) == Some(true)), whole.1))
        }),
    decreases n,
{
    reveal(Seq::filter);
    if n > 0 {
        let m = (n - 1) as nat;
        let before = rows_to(bytes, types, keep, None, None, m)->Ok_0;
        let whole = rows_to(bytes, types, keep, None, None, n)->Ok_0;
        let row = whole.0.last();
        assert(whole.0 == before.0.push(row));
        assert(whole.0.drop_last() =~= before.0);
        assert forall|i: int| 0 <= i < before.0.len() implies row_passes(
            tests,
            #[trigger] before.0[i],
        ) is Some by {
            assert(before.0[i] == whole.0[i]);
        }
        lemma_tested_rows(bytes, types, keep, tests, m);
        assert(row_passes(tests, whole.0[whole.0.len() - 1]) is Some);
    }
}

/// Whether a filter lets a row through: it accepts the value of its column, where there is one.
pub open spec fn is_let_through(filter: RuntimeMembershipFilter, row: Seq<Value>) -> bool {
    filter.full_col_idx < row.len() ==> filter_accepts(filter.kind, row[filter.full_col_idx as int])
}

/// The values that are kept of a row.
pub open spec fn kept_of(row: Seq<Value>, keep: Option<Seq<bool>>) -> Seq<Value> {
    match keep {
        Some(k) => kept_values(row, k, row.len()),
        None => row,
    }
}

/// A filter takes the bytes of a value that is left out like the value itself.
proof fn lemma_raw_accepts(
    kind: RuntimeMembershipFilterKind,
    bytes: Seq<u8>,
    end: int,
    at: int,
    t: DataType,
)
    requires
        value_at(bytes, end, at, t) is Ok,
    ensures
        ({
            let (v, next) = value_at(bytes, end, at, t)->Ok_0;
            raw_accepts(kind, bytes, at, next, t) == filter_accepts(kind, v)
        }),
{
    let (v, next) = value_at(bytes, end, at, t)->Ok_0;
    if t is String {
        let text = bytes.subrange(at, next - 1);
        vstd::utf8::decode_utf8_encode_utf8(text);
        assert(v == Value::Str(vstd::utf8::decode_utf8(text)));
    }
}

proof fn lemma_kept_push(row: Seq<Value>, v: Value, keep: Option<Seq<bool>>)
    ensures
        kept_of(row.push(v), keep) == (if is_kept(keep, row.len() as int) {
            kept_of(row, keep).push(v)
        } else {
            kept_of(row, keep)
        }),
{
    if let Some(k) = keep {
        lemma_kept_same(row, row.push(v), k, row.len());
    }
}

proof fn lemma_kept_same(a: Seq<Value>, b: Seq<Value>, keep: Seq<bool>, n: nat)
    requires
        n <= a.len(),
        n <= b.len(),
        forall|i: int| 0 <= i < n ==> a[i] == b[i],
    ensures
        kept_values(a, keep, n) == kept_values(b, keep, n),
    decreases n,
{
    if n > 0 {
        lemma_kept_same(a, b, keep, (n - 1) as nat);
    }
}

proof fn lemma_filtered_columns(
    bytes: Seq<u8>,
    end: int,
    at: int,
    types: Seq<DataType>,
    keep: Option<Seq<bool>>,
    filter: RuntimeMembershipFilter,
    n: nat,
)
    requires
        columns_to(bytes, end, at, types, None, n) is Ok,
    ensures
        ({
            let (row, next) = columns_to(bytes, end, at, types, None, n)->Ok_0;
            &&& row.len() == n
            &&& filtered_to(bytes, end, at, types, keep, filter, n) == Ok::<
                (Option<Seq<Value>>, int),
                BlockIssue,
            >(
                (
                    if is_let_through(filter, row) {
                        Some(kept_of(row, keep))
                    } else {
                        None
                    },
                    next,
                ),
            )
        }),
    decreases n,
{
    if n == 0 {
        assert(kept_of(Seq::empty(), keep) =~= Seq::<Value>::empty());
    } else {
        let m = (n - 1) as nat;
        lemma_filtered_columns(bytes, end, at, types, keep, filter, m);
        let (before, o) = columns_to(bytes, end, at, types, None, m)->Ok_0;
        let t = types[m as int];
        let (v, next) = value_at(bytes, end, o, t)->Ok_0;
        skipping_ends_where_reading_ends(bytes, end, o, t);
        lemma_raw_accepts(filter.kind, bytes, end, o, t);
        lemma_kept_push(before, v, keep);
        let row = before.push(v);
        assert(row[m as int] == v);
        if filter.full_col_idx < m {
            assert(row[filter.full_col_idx as int] == before[filter.full_col_idx as int]);
        }
    }
}

/// Probing a filter while a block is decoded keeps those rows that it lets through, in their
/// order, whether or not the column that it reads is kept.
pub proof fn probed_scan_keeps_what_is_let_through(
    bytes: Seq<u8>,
    types: Seq<DataType>,
    keep: Option<Seq<bool>>,
    filter: RuntimeMembershipFilter,
)
    requires
        block_rows(bytes, types, None, None, None) is Ok,
    ensures
        block_rows(bytes, types, keep, None, Some(filter)) == Ok::<Seq<Seq<Value>>, BlockIssue>(
            (block_rows(bytes, types, None, None, None)->Ok_0).filter(
                |row: Seq<Value>| is_let_through(filter, row),
            ).map_values(|row: Seq<Value>| kept_of(row, keep)),
        ),
{
    lemma_probed_rows(bytes, types, keep, filter, le_value(bytes.skip(bytes.len() - 2)));
}

proof fn lemma_probed_rows(
    bytes: Seq<u8>,
    types: Seq<DataType>,
    keep: Option<Seq<bool>>,
    filter: RuntimeMembershipFilter,
    n: nat,
)
    requires
        rows_to(bytes, types, None, None, None, n) is Ok,
    ensures
        ({
            let whole = rows_to(bytes, types, None, None, None, n)->Ok_0;
            rows_to(bytes, types, keep, None, Some(filter), n) == Ok::<
                (Seq<Seq<Value>>, int),
                BlockIssue,
            >(
                (
                    whole.0.filter(|row: Seq<Value>| is_let_through(filter, row)).map_values(
                        |row: Seq<Value>| kept_of(row, keep),
                    ),
                    whole.1,
                ),
            )
        }),
    decreases n,
{
    reveal(Seq::filter);
    let f = |row: Seq<Value>| is_let_through(filter, row);
    let g = |row: Seq<Value>| kept_of(row, keep);
    if n == 0 {
        let none = Seq::<Seq<Value>>::empty();
        assert(none.filter(f).map_values(g) =~= none);
    } else {
        let m = (n - 1) as nat;
        lemma_probed_rows(bytes, types, keep, filter, m);
        let before = rows_to(bytes, types, None, None, None, m)->Ok_0;
        let whole = rows_to(bytes, types, None, None, None, n)->Ok_0;
        let row = whole.0.last();
        assert(whole.0 == before.0.push(row));
        assert(whole.0.drop_last() =~= before.0);
        lemma_filtered_columns(
            bytes,
            bytes.len() - 2,
            before.1,
            types,
            keep,
            filter,
            types.len(),
        );
        assert(before.0.filter(f).push(row).map_values(g) =~= before.0.filter(f).map_values(g).push(
            g(row),
        ));
    }
}

} // verus!

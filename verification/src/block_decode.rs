//! From a block of a table to rows.

use vstd::prelude::*;
use crate::bloom::{RuntimeMembershipFilter, RuntimeMembershipFilterKind, filter_accepts, mixed_contains, mixed_may};
use crate::buffer::{BlockBuffer, BlockIssue, fixed_value, fixed_width, is_block_issue, read_data_value, skip_at, skip_bytes, skip_data_value, skips, value_at};
use crate::catalog::{TableSpec, types_of};
use crate::codec::le_value;
use crate::error::DbError;
use crate::filter::{ResolvedPredicate, Test, all_read_within, eval_resolved, row_passes, tests};
use crate::hashing::{FastHasher, absorbed};
use crate::row::Row;
use crate::value::{Data, DataType, Value};
use crate::views::{rows_of, values_of};

verus! {

broadcast use {crate::views::lemma_rows_of_push, crate::views::lemma_values_of_push};

/// Whether a column is kept; where nothing is said, all are.
pub open spec fn is_kept(keep: Option<Seq<bool>>, i: int) -> bool {
    match keep {
        Some(k) => k[i],
        None => true,
    }
}

/// How many of the first `n` columns are kept.
pub open spec fn kept_count(keep: Option<Seq<bool>>, n: nat) -> nat
    decreases n,
{
    if n == 0 {
        0
    } else {
        kept_count(keep, (n - 1) as nat) + if is_kept(keep, n - 1) {
            1nat
        } else {
            0
        }
    }
}

/// The kept values of the first `n` columns of the row at a position, and the position behind
/// them.
pub open spec fn columns_to(
    bytes: Seq<u8>,
    end: int,
    at: int,
    types: Seq<DataType>,
    keep: Option<Seq<bool>>,
    n: nat,
) -> Result<(Seq<Value>, int), BlockIssue>
    decreases n,
{
    if n == 0 {
        Ok((Seq::empty(), at))
    } else {
        match columns_to(bytes, end, at, types, keep, (n - 1) as nat) {
            Err(e) => Err(e),
            Ok((vs, o)) => if is_kept(keep, n - 1) {
                match value_at(bytes, end, o, types[n - 1]) {
                    Err(e) => Err(e),
                    Ok((v, next)) => Ok((vs.push(v), next)),
                }
            } else {
                match skip_at(bytes, end, o, types[n - 1]) {
                    Err(e) => Err(e),
                    Ok(next) => Ok((vs, next)),
                }
            },
        }
    }
}

proof fn lemma_columns_len(
    bytes: Seq<u8>,
    end: int,
    at: int,
    types: Seq<DataType>,
    keep: Option<Seq<bool>>,
    n: nat,
)
    ensures
        columns_to(bytes, end, at, types, keep, n) matches Ok(p) ==> p.0.len() == kept_count(
            keep,
            n,
        ),
    decreases n,
{
    if n > 0 {
        lemma_columns_len(bytes, end, at, types, keep, (n - 1) as nat);
    }
}

/// What is done for a column, or for several that are skipped together.
#[derive(Clone, Copy, Debug, PartialEq, Eq, Structural)]
pub enum ColDecodeOp {
    Keep(DataType),
    SkipFixed(usize),
    SkipStr,
}

/// What the first `m` of some steps make of the row at a position.
pub open spec fn ops_to(bytes: Seq<u8>, end: int, at: int, ops: Seq<ColDecodeOp>, m: nat) -> Result<
    (Seq<Value>, int),
    BlockIssue,
>
    decreases m,
{
    if m == 0 {
        Ok((Seq::empty(), at))
    } else {
        match ops_to(bytes, end, at, ops, (m - 1) as nat) {
            Err(e) => Err(e),
            Ok((vs, o)) => match ops[m - 1] {
                ColDecodeOp::Keep(t) => match value_at(bytes, end, o, t) {
                    Err(e) => Err(e),
                    Ok((v, next)) => Ok((vs.push(v), next)),
                },
                ColDecodeOp::SkipFixed(n) => if o + n > end {
                    Err(BlockIssue::Overrun)
                } else {
                    Ok((vs, o + n))
                },
                ColDecodeOp::SkipStr => match skip_at(bytes, end, o, DataType::String) {
                    Err(e) => Err(e),
                    Ok(next) => Ok((vs, next)),
                },
            },
        }
    }
}

spec fn then_skip(r: Result<(Seq<Value>, int), BlockIssue>, n: int, end: int) -> Result<
    (Seq<Value>, int),
    BlockIssue,
> {
    match r {
        Err(e) => Err(e),
        Ok((vs, o)) => if n == 0 {
            Ok((vs, o))
        } else if o + n > end {
            Err(BlockIssue::Overrun)
        } else {
            Ok((vs, o + n))
        },
    }
}

proof fn lemma_ops_prefix(
    bytes: Seq<u8>,
    end: int,
    at: int,
    ops: Seq<ColDecodeOp>,
    op: ColDecodeOp,
    m: nat,
)
    requires
        m <= ops.len(),
    ensures
        ops_to(bytes, end, at, ops.push(op), m) == ops_to(bytes, end, at, ops, m),
    decreases m,
{
    if m > 0 {
        lemma_ops_prefix(bytes, end, at, ops, op, (m - 1) as nat);
        assert(ops.push(op)[m - 1] == ops[m - 1]);
    }
}

spec fn plan_follows(
    ops: Seq<ColDecodeOp>,
    pending: int,
    types: Seq<DataType>,
    keep: Option<Seq<bool>>,
    i: nat,
) -> bool {
    forall|bytes: Seq<u8>, end: int, at: int| #[trigger]
        columns_to(bytes, end, at, types, keep, i) == then_skip(
            ops_to(bytes, end, at, ops, ops.len()),
            pending,
            end,
        )
}

/// Writing the pending bytes down as a step changes nothing.
proof fn lemma_flush(
    ops: Seq<ColDecodeOp>,
    pending: usize,
    types: Seq<DataType>,
    keep: Option<Seq<bool>>,
    i: nat,
)
    requires
        plan_follows(ops, pending as int, types, keep, i),
        pending > 0,
    ensures
        plan_follows(ops.push(ColDecodeOp::SkipFixed(pending)), 0, types, keep, i),
{
    let more = ops.push(ColDecodeOp::SkipFixed(pending));
    assert forall|bytes: Seq<u8>, end: int, at: int| #[trigger]
        columns_to(bytes, end, at, types, keep, i) == then_skip(
            ops_to(bytes, end, at, more, more.len()),
            0,
            end,
        ) by {
        lemma_ops_prefix(bytes, end, at, ops, ColDecodeOp::SkipFixed(pending), ops.len());
        assert(more[more.len() - 1] == ColDecodeOp::SkipFixed(pending));
    }
}

/// A step for the next column.
proof fn lemma_step(
    ops: Seq<ColDecodeOp>,
    op: ColDecodeOp,
    types: Seq<DataType>,
    keep: Option<Seq<bool>>,
    i: nat,
)
    requires
        plan_follows(ops, 0, types, keep, i),
        i < types.len(),
        match op {
            ColDecodeOp::Keep(t) => is_kept(keep, i as int) && types[i as int] == t,
            ColDecodeOp::SkipStr => !is_kept(keep, i as int) && types[i as int] is String,
            ColDecodeOp::SkipFixed(_) => false,
        },
    ensures
        plan_follows(ops.push(op), 0, types, keep, i + 1),
{
    let more = ops.push(op);
    assert forall|bytes: Seq<u8>, end: int, at: int| #[trigger]
        columns_to(bytes, end, at, types, keep, i + 1) == then_skip(
            ops_to(bytes, end, at, more, more.len()),
            0,
            end,
        ) by {
        lemma_ops_prefix(bytes, end, at, ops, op, ops.len());
        assert(more[more.len() - 1] == op);
        assert(columns_to(bytes, end, at, types, keep, i) == then_skip(
            ops_to(bytes, end, at, ops, ops.len()),
            0,
            end,
        ));
    }
}

/// A fixed-size column that is skipped adds to the pending bytes.
proof fn lemma_pending(
    ops: Seq<ColDecodeOp>,
    pending: int,
    width: int,
    types: Seq<DataType>,
    keep: Option<Seq<bool>>,
    i: nat,
)
    requires
        plan_follows(ops, pending, types, keep, i),
        pending >= 0,
        i < types.len(),
        !is_kept(keep, i as int),
        fixed_width(types[i as int]) == Some(width),
    ensures
        plan_follows(ops, pending + width, types, keep, i + 1),
{
    assert forall|bytes: Seq<u8>, end: int, at: int| #[trigger]
        columns_to(bytes, end, at, types, keep, i + 1) == then_skip(
            ops_to(bytes, end, at, ops, ops.len()),
            pending + width,
            end,
        ) by {
        assert(columns_to(bytes, end, at, types, keep, i) == then_skip(
            ops_to(bytes, end, at, ops, ops.len()),
            pending,
            end,
        ));
    }
}

pub open spec fn keep_view(keep: Option<&[bool]>) -> Option<Seq<bool>> {
    match keep {
        Some(k) => Some(k@),
        None => None,
    }
}

/// Whether a column is kept.
fn column_kept(keep: Option<&[bool]>, i: usize) -> (r: bool)
    requires
        keep matches Some(k) ==> i < k@.len(),
    ensures
        r == is_kept(keep_view(keep), i as int),
{
    match keep {
        Some(k) => k[i],
        None => true,
    }
}

/// The steps that decode a row of a table. Fixed-size columns that are skipped one after the
/// other make one step.
pub fn build_col_decode_plan(table_spec: &TableSpec, keep: Option<&[bool]>) -> (r: Vec<ColDecodeOp>)
    requires
        keep matches Some(k) ==> k@.len() >= table_spec.column_specs@.len(),
    ensures
        forall|bytes: Seq<u8>, end: int, at: int| #[trigger]
            columns_to(
                bytes,
                end,
                at,
                types_of(table_spec.column_specs@),
                keep_view(keep),
                table_spec.column_specs@.len(),
            ) == ops_to(bytes, end, at, r@, r@.len()),
        forall|i: int|
            0 <= i < r@.len() - 1 && (#[trigger] r@[i]) is SkipFixed && r@[i]->SkipFixed_0
                <= usize::MAX - 8 ==> !(r@[i + 1] is SkipFixed),
{
    let ghost types = types_of(table_spec.column_specs@);
    let ghost kv = keep_view(keep);
    let mut plan: Vec<ColDecodeOp> = Vec::new();
    let mut pending: usize = 0;
    let mut i: usize = 0;
    while i < table_spec.column_specs.len()
        invariant
            i <= table_spec.column_specs@.len(),
            types == types_of(table_spec.column_specs@),
            kv == keep_view(keep),
            keep matches Some(k) ==> k@.len() >= table_spec.column_specs@.len(),
            plan_follows(plan@, pending as int, types, kv, i as nat),
            forall|i: int|
                0 <= i < plan@.len() - 1 && (#[trigger] plan@[i]) is SkipFixed
                    && plan@[i]->SkipFixed_0 <= usize::MAX - 8 ==> !(plan@[i + 1] is SkipFixed),
            plan@.len() > 0 && plan@.last() is SkipFixed ==> plan@.last()->SkipFixed_0 > usize::MAX
                - 8,
        decreases table_spec.column_specs@.len() - i,
    {
        let data_type = table_spec.column_specs[i].data_type;
        assert(types[i as int] == data_type);
        let width: usize = match data_type {
            DataType::Int32 => 4,
            DataType::Int64 => 8,
            DataType::Float32 => 4,
            DataType::Float64 => 8,
            DataType::String => 0,
        };
        let needed = column_kept(keep, i);
        if !needed && width > 0 {
            if pending > usize::MAX - 8 {
                proof {
                    lemma_flush(plan@, pending, types, kv, i as nat);
                }
                plan.push(ColDecodeOp::SkipFixed(pending));
                pending = 0;
            }
            proof {
                lemma_pending(plan@, pending as int, width as int, types, kv, i as nat);
            }
            pending = pending + width;
        } else {
            if pending > 0 {
                proof {
                    lemma_flush(plan@, pending, types, kv, i as nat);
                }
                plan.push(ColDecodeOp::SkipFixed(pending));
                pending = 0;
            }
            let op = if needed {
                ColDecodeOp::Keep(data_type)
            } else {
                ColDecodeOp::SkipStr
            };
            proof {
                lemma_step(plan@, op, types, kv, i as nat);
            }
            plan.push(op);
        }
        i += 1;
    }
    if pending > 0 {
        proof {
            lemma_flush(plan@, pending, types, kv, i as nat);
        }
        plan.push(ColDecodeOp::SkipFixed(pending));
    }
    proof {
        assert forall|bytes: Seq<u8>, end: int, at: int| #[trigger]
            columns_to(bytes, end, at, types, kv, table_spec.column_specs@.len()) == ops_to(
                bytes,
                end,
                at,
                plan@,
                plan@.len(),
            ) by {}
    }
    plan
}

/// Runs the steps on the row at a position.
fn decode_row(buf: &BlockBuffer, offset: &mut usize, ops: &[ColDecodeOp]) -> (r: Result<Row, DbError>)
    requires
        buf@.len() >= 2,
    ensures
        match ops_to(buf@, buf@.len() - 2, *old(offset) as int, ops@, ops@.len()) {
            Ok((vs, next)) => r is Ok && (r->Ok_0)@ == vs && *final(offset) == next,
            Err(issue) => r is Err && is_block_issue(r->Err_0, issue),
        },
{
    let ghost bytes = buf@;
    let ghost end = buf@.len() - 2;
    let ghost at = *offset as int;
    let mut values: Vec<Data> = Vec::new();
    let mut k: usize = 0;
    assert(values_of(values@) =~= Seq::<Value>::empty());
    while k < ops.len()
        invariant
            k <= ops@.len(),
            bytes == buf@,
            bytes.len() >= 2,
            end == bytes.len() - 2,
            at == *old(offset) as int,
            ops_to(bytes, end, at, ops@, k as nat) == Ok::<(Seq<Value>, int), BlockIssue>(
                (values_of(values@), *offset as int),
            ),
        decreases ops@.len() - k,
    {
        let ghost done = ops_to(bytes, end, at, ops@, (k + 1) as nat);
        let failed = match ops[k] {
            ColDecodeOp::Keep(t) => match read_data_value(buf, offset, t) {
                Ok(d) => {
                    values.push(d);
                    None
                },
                Err(e) => Some(e),
            },
            ColDecodeOp::SkipFixed(n) => match skip_bytes(buf, offset, n) {
                Ok(_) => None,
                Err(e) => Some(e),
            },
            ColDecodeOp::SkipStr => match skip_data_value(buf, offset, DataType::String) {
                Ok(_) => None,
                Err(e) => Some(e),
            },
        };
        if let Some(e) = failed {
            proof {
                assert(done is Err);
                lemma_ops_fail(bytes, end, at, ops@, (k + 1) as nat, ops@.len());
            }
            return Err(e);
        }
        k += 1;
    }
    Ok(Row::new(values))
}

proof fn lemma_ops_fail(
    bytes: Seq<u8>,
    end: int,
    at: int,
    ops: Seq<ColDecodeOp>,
    k: nat,
    n: nat,
)
    requires
        k <= n,
        ops_to(bytes, end, at, ops, k) is Err,
    ensures
        ops_to(bytes, end, at, ops, n) == ops_to(bytes, end, at, ops, k),
    decreases n - k,
{
    if k < n {
        lemma_ops_fail(bytes, end, at, ops, k, (n - 1) as nat);
    }
}

/// Whether the bytes of a value pass a run-time filter. The bytes of a string need not be text.
pub open spec fn raw_accepts(
    kind: RuntimeMembershipFilterKind,
    bytes: Seq<u8>,
    at: int,
    next: int,
    t: DataType,
) -> bool {
    match t {
        DataType::String => match kind {
            RuntimeMembershipFilterKind::ExactIntBitmap { .. } => false,
            RuntimeMembershipFilterKind::Bloom { words, num_hashes } => words@.len() > 0
                && mixed_may(
                words@,
                num_hashes as nat,
                absorbed(0, bytes.subrange(at, next - 1)),
            ),
        },
        _ => filter_accepts(kind, fixed_value(t, bytes.subrange(at, next))),
    }
}

/// As `columns_to`, where a run-time filter looks at one of the columns. `None` once the row was
/// turned down; its other columns are then only skipped.
pub open spec fn filtered_to(
    bytes: Seq<u8>,
    end: int,
    at: int,
    types: Seq<DataType>,
    keep: Option<Seq<bool>>,
    filter: RuntimeMembershipFilter,
    n: nat,
) -> Result<(Option<Seq<Value>>, int), BlockIssue>
    decreases n,
{
    if n == 0 {
        Ok((Some(Seq::empty()), at))
    } else {
        let t = types[n - 1];
        match filtered_to(bytes, end, at, types, keep, filter, (n - 1) as nat) {
            Err(e) => Err(e),
            Ok((None, o)) => match skip_at(bytes, end, o, t) {
                Err(e) => Err(e),
                Ok(next) => Ok((None, next)),
            },
            Ok((Some(vs), o)) => if is_kept(keep, n - 1) {
                match value_at(bytes, end, o, t) {
                    Err(e) => Err(e),
                    Ok((v, next)) => if n - 1 == filter.full_col_idx && !filter_accepts(
                        filter.kind,
                        v,
                    ) {
                        Ok((None, next))
                    } else {
                        Ok((Some(vs.push(v)), next))
                    },
                }
            } else {
                match skip_at(bytes, end, o, t) {
                    Err(e) => Err(e),
                    Ok(next) => if n - 1 == filter.full_col_idx && !raw_accepts(
                        filter.kind,
                        bytes,
                        o,
                        next,
                        t,
                    ) {
                        Ok((None, next))
                    } else {
                        Ok((Some(vs), next))
                    },
                }
            },
        }
    }
}

proof fn lemma_filtered_len(
    bytes: Seq<u8>,
    end: int,
    at: int,
    types: Seq<DataType>,
    keep: Option<Seq<bool>>,
    filter: RuntimeMembershipFilter,
    n: nat,
)
    ensures
        filtered_to(bytes, end, at, types, keep, filter, n) matches Ok(p) ==> (p.0 is Some
            ==> (p.0->0).len() == kept_count(keep, n)),
    decreases n,
{
    if n > 0 {
        lemma_filtered_len(bytes, end, at, types, keep, filter, (n - 1) as nat);
    }
}

/// Tests a value of a block against a run-time filter, without making a value of it.
pub fn matches_runtime_filter_encoded(
    filter: &RuntimeMembershipFilter,
    buf: &BlockBuffer,
    offset: &mut usize,
    data_type: DataType,
) -> (r: Result<bool, DbError>)
    requires
        filter.inv(),
        buf@.len() >= 2,
    ensures
        skips(buf@, *old(offset), *final(offset), data_type, match r {
            Ok(_) => Ok(()),
            Err(e) => Err(e),
        }),
        r matches Ok(b) ==> b == raw_accepts(
            filter.kind,
            buf@,
            *old(offset) as int,
            *final(offset) as int,
            data_type,
        ),
{
    match data_type {
        DataType::String => match buf.string_bytes(offset) {
            Err(e) => Err(e),
            Ok(bytes) => match &filter.kind {
                RuntimeMembershipFilterKind::ExactIntBitmap { .. } => Ok(false),
                RuntimeMembershipFilterKind::Bloom { words, num_hashes } => {
                    let mut h = FastHasher { state: 0 };
                    h.write(bytes);
                    if words.len() == 0 {
                        Ok(false)
                    } else {
                        Ok(mixed_contains(words.as_slice(), *num_hashes, h.finish()))
                    }
                },
            },
        },
        _ => match read_data_value(buf, offset, data_type) {
            Err(e) => Err(e),
            Ok(d) => Ok(filter.matches_data(&d)),
        },
    }
}

/// Decodes the row at a position, if the run-time filter takes it.
fn decode_row_filtered(
    table_spec: &TableSpec,
    buf: &BlockBuffer,
    offset: &mut usize,
    keep: Option<&[bool]>,
    filter: &RuntimeMembershipFilter,
) -> (r: Result<Option<Row>, DbError>)
    requires
        buf@.len() >= 2,
        filter.inv(),
        keep matches Some(k) ==> k@.len() >= table_spec.column_specs@.len(),
    ensures
        match filtered_to(
            buf@,
            buf@.len() - 2,
            *old(offset) as int,
            types_of(table_spec.column_specs@),
            keep_view(keep),
            *filter,
            table_spec.column_specs@.len(),
        ) {
            Ok((Some(vs), next)) => r is Ok && r->Ok_0 is Some && (r->Ok_0->0)@ == vs && *final(
                offset) == next,
            Ok((None, next)) => r == Ok::<Option<Row>, DbError>(None) && *final(offset) == next,
            Err(issue) => r is Err && is_block_issue(r->Err_0, issue),
        },
{
    let ghost bytes = buf@;
    let ghost end = buf@.len() - 2;
    let ghost at = *offset as int;
    let ghost types = types_of(table_spec.column_specs@);
    let ghost kv = keep_view(keep);
    let ghost n = table_spec.column_specs@.len();
    let mut values: Vec<Data> = Vec::new();
    let mut taken = true;
    let mut i: usize = 0;
    assert(values_of(values@) =~= Seq::<Value>::empty());
    while i < table_spec.column_specs.len()
        invariant
            i <= n,
            n == table_spec.column_specs@.len(),
            types == types_of(table_spec.column_specs@),
            kv == keep_view(keep),
            keep matches Some(k) ==> k@.len() >= n,
            filter.inv(),
            bytes == buf@,
            bytes.len() >= 2,
            end == bytes.len() - 2,
            at == *old(offset) as int,
            filtered_to(bytes, end, at, types, kv, *filter, i as nat) == Ok::<
                (Option<Seq<Value>>, int),
                BlockIssue,
            >(
                (
                    if taken {
                        Some(values_of(values@))
                    } else {
                        None
                    },
                    *offset as int,
                ),
            ),
        decreases n - i,
    {
        let data_type = table_spec.column_specs[i].data_type;
        assert(types[i as int] == data_type);
        let kept = column_kept(keep, i);
        let failed = if !taken {
            match skip_data_value(buf, offset, data_type) {
                Ok(_) => None,
                Err(e) => Some(e),
            }
        } else if kept {
            match read_data_value(buf, offset, data_type) {
                Ok(d) => {
                    if i == filter.full_col_idx && !filter.matches_data(&d) {
                        taken = false;
                    } else {
                        values.push(d);
                    }
                    None
                },
                Err(e) => Some(e),
            }
        } else if i == filter.full_col_idx {
            match matches_runtime_filter_encoded(filter, buf, offset, data_type) {
                Ok(b) => {
                    taken = b;
                    None
                },
                Err(e) => Some(e),
            }
        } else {
            match skip_data_value(buf, offset, data_type) {
                Ok(_) => None,
                Err(e) => Some(e),
            }
        };
        if let Some(e) = failed {
            proof {
                lemma_filtered_fail(bytes, end, at, types, kv, *filter, (i + 1) as nat, n);
            }
            return Err(e);
        }
        i += 1;
    }
    if taken {
        Ok(Some(Row::new(values)))
    } else {
        Ok(None)
    }
}

proof fn lemma_filtered_fail(
    bytes: Seq<u8>,
    end: int,
    at: int,
    types: Seq<DataType>,
    keep: Option<Seq<bool>>,
    filter: RuntimeMembershipFilter,
    k: nat,
    n: nat,
)
    requires
        k <= n,
        filtered_to(bytes, end, at, types, keep, filter, k) is Err,
    ensures
        filtered_to(bytes, end, at, types, keep, filter, n) == filtered_to(
            bytes,
            end,
            at,
            types,
            keep,
            filter,
            k,
        ),
    decreases n - k,
{
    if k < n {
        lemma_filtered_fail(bytes, end, at, types, keep, filter, k, (n - 1) as nat);
    }
}

/// The row at a position that a scan makes, if the run-time filter takes it, and the position
/// behind it.
pub open spec fn row_at(
    bytes: Seq<u8>,
    at: int,
    types: Seq<DataType>,
    keep: Option<Seq<bool>>,
    runtime: Option<RuntimeMembershipFilter>,
) -> Result<(Option<Seq<Value>>, int), BlockIssue> {
    let end = bytes.len() - 2;
    match runtime {
        Some(f) => filtered_to(bytes, end, at, types, keep, f, types.len()),
        None => match columns_to(bytes, end, at, types, keep, types.len()) {
            Err(e) => Err(e),
            Ok((vs, next)) => Ok((Some(vs), next)),
        },
    }
}

/// Whether a row passes the tests of a scan; `None` where they have no answer.
pub open spec fn scan_passes(scan_filter: Option<Seq<Test>>, row: Seq<Value>) -> Option<bool> {
    match scan_filter {
        Some(ts) => row_passes(ts, row),
        None => Some(true),
    }
}

/// The rows that a scan makes of the first `n` rows of a block, and the position behind them.
pub open spec fn rows_to(
    bytes: Seq<u8>,
    types: Seq<DataType>,
    keep: Option<Seq<bool>>,
    scan_filter: Option<Seq<Test>>,
    runtime: Option<RuntimeMembershipFilter>,
    n: nat,
) -> Result<(Seq<Seq<Value>>, int), BlockIssue>
    decreases n,
{
    if n == 0 {
        Ok((Seq::empty(), 0))
    } else {
        match rows_to(bytes, types, keep, scan_filter, runtime, (n - 1) as nat) {
            Err(e) => Err(e),
            Ok((rows, at)) => match row_at(bytes, at, types, keep, runtime) {
                Err(e) => Err(e),
                Ok((None, next)) => Ok((rows, next)),
                Ok((Some(row), next)) => match scan_passes(scan_filter, row) {
                    None => Err(BlockIssue::Incomparable),
                    Some(true) => Ok((rows.push(row), next)),
                    Some(false) => Ok((rows, next)),
                },
            },
        }
    }
}

/// The rows that a scan makes of a block.
pub open spec fn block_rows(
    bytes: Seq<u8>,
    types: Seq<DataType>,
    keep: Option<Seq<bool>>,
    scan_filter: Option<Seq<Test>>,
    runtime: Option<RuntimeMembershipFilter>,
) -> Result<Seq<Seq<Value>>, BlockIssue> {
    if bytes.len() < 2 {
        Err(BlockIssue::TooSmall)
    } else {
        match rows_to(
            bytes,
            types,
            keep,
            scan_filter,
            runtime,
            le_value(bytes.skip(bytes.len() - 2)),
        ) {
            Err(e) => Err(e),
            Ok((rows, _)) => Ok(rows),
        }
    }
}

pub open spec fn filter_view(scan_filter: Option<&[ResolvedPredicate]>) -> Option<Seq<Test>> {
    match scan_filter {
        Some(f) => Some(tests(f@)),
        None => None,
    }
}

pub open spec fn runtime_view(runtime: Option<&RuntimeMembershipFilter>) -> Option<
    RuntimeMembershipFilter,
> {
    match runtime {
        Some(f) => Some(*f),
        None => None,
    }
}

proof fn lemma_rows_fail(
    bytes: Seq<u8>,
    types: Seq<DataType>,
    keep: Option<Seq<bool>>,
    scan_filter: Option<Seq<Test>>,
    runtime: Option<RuntimeMembershipFilter>,
    k: nat,
    n: nat,
)
    requires
        k <= n,
        rows_to(bytes, types, keep, scan_filter, runtime, k) is Err,
    ensures
        rows_to(bytes, types, keep, scan_filter, runtime, n) == rows_to(
            bytes,
            types,
            keep,
            scan_filter,
            runtime,
            k,
        ),
    decreases n - k,
{
    if k < n {
        lemma_rows_fail(bytes, types, keep, scan_filter, runtime, k, (n - 1) as nat);
    }
}

/// Decodes the rows of a block. Columns that are not kept are left out; rows that fail the tests,
/// or that the run-time filter turns down, are left out too.
pub fn decode_block_into_rows_maybe_filtered(
    table_spec: &TableSpec,
    block: &[u8],
    keep: Option<&[bool]>,
    scan_filter: Option<&[ResolvedPredicate]>,
    runtime_filter: Option<&RuntimeMembershipFilter>,
) -> (r: Result<Vec<Row>, DbError>)
    requires
        keep matches Some(k) ==> k@.len() >= table_spec.column_specs@.len(),
        scan_filter matches Some(f) ==> all_read_within(
            tests(f@),
            kept_count(keep_view(keep), table_spec.column_specs@.len()) as int,
        ),
        runtime_filter matches Some(f) ==> f.inv(),
    ensures
        match block_rows(
            block@,
            types_of(table_spec.column_specs@),
            keep_view(keep),
            filter_view(scan_filter),
            runtime_view(runtime_filter),
        ) {
            Ok(rows) => r is Ok && rows_of((r->Ok_0)@) == rows,
            Err(issue) => r is Err && is_block_issue(r->Err_0, issue),
        },
{
    let ghost bytes = block@;
    let ghost types = types_of(table_spec.column_specs@);
    let ghost kv = keep_view(keep);
    let ghost fv = filter_view(scan_filter);
    let ghost rv = runtime_view(runtime_filter);
    let ghost cols = table_spec.column_specs@.len();
    let buf = BlockBuffer::new(block);
    let row_count: usize = match buf.row_count() {
        Ok(n) => n,
        Err(e) => {
            return Err(e);
        },
    };
    let plan = build_col_decode_plan(table_spec, keep);
    let mut rows: Vec<Row> = Vec::new();
    let mut offset: usize = 0;
    let mut i: usize = 0;
    assert(rows_of(rows@) =~= Seq::<Seq<Value>>::empty());
    while i < row_count
        invariant
            i <= row_count,
            bytes == block@,
            buf@ == bytes,
            bytes.len() >= 2,
            row_count == le_value(bytes.skip(bytes.len() - 2)),
            types == types_of(table_spec.column_specs@),
            cols == table_spec.column_specs@.len(),
            types.len() == cols,
            kv == keep_view(keep),
            fv == filter_view(scan_filter),
            rv == runtime_view(runtime_filter),
            keep matches Some(k) ==> k@.len() >= cols,
            scan_filter matches Some(f) ==> all_read_within(
                tests(f@),
                kept_count(kv, cols) as int,
            ),
            runtime_filter matches Some(f) ==> f.inv(),
            forall|bytes: Seq<u8>, end: int, at: int| #[trigger]
                columns_to(bytes, end, at, types, kv, cols) == ops_to(
                    bytes,
                    end,
                    at,
                    plan@,
                    plan@.len(),
                ),
            rows_to(bytes, types, kv, fv, rv, i as nat) == Ok::<
                (Seq<Seq<Value>>, int),
                BlockIssue,
            >((rows_of(rows@), offset as int)),
        decreases row_count - i,
    {
        let ghost at = offset as int;
        let ghost end = bytes.len() - 2;
        let ghost so_far = rows_of(rows@);
        proof {
            assert(columns_to(bytes, end, at, types, kv, cols) == ops_to(
                bytes,
                end,
                at,
                plan@,
                plan@.len(),
            ));
            lemma_columns_len(bytes, end, at, types, kv, cols);
        }
        let decoded = match runtime_filter {
            Some(f) => {
                proof {
                    lemma_filtered_len(bytes, end, at, types, kv, *f, cols);
                }
                decode_row_filtered(table_spec, &buf, &mut offset, keep, f)
            },
            None => match decode_row(&buf, &mut offset, plan.as_slice()) {
                Ok(row) => Ok(Some(row)),
                Err(e) => Err(e),
            },
        };
        match decoded {
            Err(e) => {
                proof {
                    lemma_rows_fail(bytes, types, kv, fv, rv, (i + 1) as nat, row_count as nat);
                }
                return Err(e);
            },
            Ok(None) => {},
            Ok(Some(row)) => {
                let pass = match scan_filter {
                    Some(f) => eval_resolved(&row, f),
                    None => Ok(true),
                };
                match pass {
                    Err(e) => {
                        proof {
                            lemma_rows_fail(
                                bytes,
                                types,
                                kv,
                                fv,
                                rv,
                                (i + 1) as nat,
                                row_count as nat,
                            );
                        }
                        return Err(e);
                    },
                    Ok(true) => {
                        rows.push(row);
                    },
                    Ok(false) => {},
                }
            },
        }
        i += 1;
    }
    Ok(rows)
}

/// Decodes all rows of a block.
pub fn decode_block_into_rows(table_spec: &TableSpec, block: &[u8], keep: Option<&[bool]>) -> (r:
    Result<Vec<Row>, DbError>)
    requires
        keep matches Some(k) ==> k@.len() >= table_spec.column_specs@.len(),
    ensures
        match block_rows(
            block@,
            types_of(table_spec.column_specs@),
            keep_view(keep),
            None,
            None,
        ) {
            Ok(rows) => r is Ok && rows_of((r->Ok_0)@) == rows,
            Err(issue) => r is Err && is_block_issue(r->Err_0, issue),
        },
{
    decode_block_into_rows_maybe_filtered(table_spec, block, keep, None, None)
}

/// Decodes the rows of a block that pass some tests.
pub fn decode_block_into_rows_filtered(
    table_spec: &TableSpec,
    block: &[u8],
    keep: Option<&[bool]>,
    scan_filter: &[ResolvedPredicate],
) -> (r: Result<Vec<Row>, DbError>)
    requires
        keep matches Some(k) ==> k@.len() >= table_spec.column_specs@.len(),
        all_read_within(
            tests(scan_filter@),
            kept_count(keep_view(keep), table_spec.column_specs@.len()) as int,
        ),
    ensures
        match block_rows(
            block@,
            types_of(table_spec.column_specs@),
            keep_view(keep),
            Some(tests(scan_filter@)),
            None,
        ) {
            Ok(rows) => r is Ok && rows_of((r->Ok_0)@) == rows,
            Err(issue) => r is Err && is_block_issue(r->Err_0, issue),
        },
{
    decode_block_into_rows_maybe_filtered(table_spec, block, keep, Some(scan_filter), None)
}

/// Decodes the rows of a block that a run-time filter takes, and that pass the tests, if any.
pub fn decode_block_into_rows_runtime_filtered(
    table_spec: &TableSpec,
    block: &[u8],
    keep: Option<&[bool]>,
    runtime_filter: &RuntimeMembershipFilter,
    scan_filter: Option<&[ResolvedPredicate]>,
) -> (r: Result<Vec<Row>, DbError>)
    requires
        keep matches Some(k) ==> k@.len() >= table_spec.column_specs@.len(),
        scan_filter matches Some(f) ==> all_read_within(
            tests(f@),
            kept_count(keep_view(keep), table_spec.column_specs@.len()) as int,
        ),
        runtime_filter.inv(),
    ensures
        match block_rows(
            block@,
            types_of(table_spec.column_specs@),
            keep_view(keep),
            filter_view(scan_filter),
            Some(*runtime_filter),
        ) {
            Ok(rows) => r is Ok && rows_of((r->Ok_0)@) == rows,
            Err(issue) => r is Err && is_block_issue(r->Err_0, issue),
        },
{
    decode_block_into_rows_maybe_filtered(
        table_spec,
        block,
        keep,
        scan_filter,
        Some(runtime_filter),
    )
}

proof fn lemma_rows_len(
    bytes: Seq<u8>,
    types: Seq<DataType>,
    keep: Option<Seq<bool>>,
    scan_filter: Option<Seq<Test>>,
    runtime: Option<RuntimeMembershipFilter>,
    n: nat,
)
    ensures
        rows_to(bytes, types, keep, scan_filter, runtime, n) matches Ok(p) ==> forall|i: int|
            0 <= i < p.0.len() ==> (#[trigger] p.0[i]).len() == kept_count(keep, types.len()),
    decreases n,
{
    if n > 0 {
        lemma_rows_len(bytes, types, keep, scan_filter, runtime, (n - 1) as nat);
        if let Ok((rows, at)) = rows_to(bytes, types, keep, scan_filter, runtime, (n - 1) as nat) {
            lemma_columns_len(bytes, bytes.len() - 2, at, types, keep, types.len());
            if let Some(f) = runtime {
                lemma_filtered_len(bytes, bytes.len() - 2, at, types, keep, f, types.len());
            }
        }
    }
}

/// The rows of a block have as many values as columns are kept.
pub proof fn lemma_row_lengths(
    bytes: Seq<u8>,
    types: Seq<DataType>,
    keep: Option<Seq<bool>>,
    scan_filter: Option<Seq<Test>>,
    runtime: Option<RuntimeMembershipFilter>,
)
    ensures
        block_rows(bytes, types, keep, scan_filter, runtime) matches Ok(rows) ==> forall|i: int|
            0 <= i < rows.len() ==> (#[trigger] rows[i]).len() == kept_count(keep, types.len()),
{
    if bytes.len() >= 2 {
        lemma_rows_len(
            bytes,
            types,
            keep,
            scan_filter,
            runtime,
            le_value(bytes.skip(bytes.len() - 2)),
        );
    }
}

/// The values that are kept.
pub open spec fn kept_values(row: Seq<Value>, keep: Seq<bool>, n: nat) -> Seq<Value>
    decreases n,
{
    if n == 0 {
        Seq::empty()
    } else {
        let before = kept_values(row, keep, (n - 1) as nat);
        if keep[n - 1] {
            before.push(row[n - 1])
        } else {
            before
        }
    }
}

proof fn lemma_kept_prefix(row: Seq<Value>, v: Value, keep: Seq<bool>, n: nat)
    requires
        n <= row.len(),
    ensures
        kept_values(row.push(v), keep, n) == kept_values(row, keep, n),
    decreases n,
{
    if n > 0 {
        lemma_kept_prefix(row, v, keep, (n - 1) as nat);
        assert(row.push(v)[n - 1] == row[n - 1]);
    }
}

proof fn lemma_pruned_columns(
    bytes: Seq<u8>,
    end: int,
    at: int,
    types: Seq<DataType>,
    keep: Seq<bool>,
    n: nat,
)
    requires
        columns_to(bytes, end, at, types, None, n) is Ok,
    ensures
        ({
            let whole = columns_to(bytes, end, at, types, None, n)->Ok_0;
            &&& whole.0.len() == n
            &&& columns_to(bytes, end, at, types, Some(keep), n) == Ok::<
                (Seq<Value>, int),
                BlockIssue,
            >((kept_values(whole.0, keep, n), whole.1))
        }),
    decreases n,
{
    if n > 0 {
        let m = (n - 1) as nat;
        lemma_pruned_columns(bytes, end, at, types, keep, m);
        let before = columns_to(bytes, end, at, types, None, m)->Ok_0;
        let whole = columns_to(bytes, end, at, types, None, n)->Ok_0;
        let v = whole.0.last();
        assert(whole.0 == before.0.push(v));
        lemma_kept_prefix(before.0, v, keep, m);
    }
}

proof fn lemma_pruned_rows(bytes: Seq<u8>, types: Seq<DataType>, keep: Seq<bool>, n: nat)
    requires
        rows_to(bytes, types, None, None, None, n) is Ok,
    ensures
        ({
            let whole = rows_to(bytes, types, None, None, None, n)->Ok_0;
            rows_to(bytes, types, Some(keep), None, None, n) == Ok::<
                (Seq<Seq<Value>>, int),
                BlockIssue,
            >(
                (
                    whole.0.map_values(|row: Seq<Value>| kept_values(row, keep, types.len())),
                    whole.1,
                ),
            )
        }),
    decreases n,
{
    let f = |row: Seq<Value>| kept_values(row, keep, types.len());
    if n == 0 {
        assert(Seq::<Seq<Value>>::empty().map_values(f) =~= Seq::<Seq<Value>>::empty());
    } else {
        let m = (n - 1) as nat;
        lemma_pruned_rows(bytes, types, keep, m);
        let before = rows_to(bytes, types, None, None, None, m)->Ok_0;
        let whole = rows_to(bytes, types, None, None, None, n)->Ok_0;
        lemma_pruned_columns(bytes, bytes.len() - 2, before.1, types, keep, types.len());
        let row = whole.0.last();
        assert(whole.0 == before.0.push(row));
        assert(whole.0.map_values(f) =~= before.0.map_values(f).push(f(row)));
    }
}

/// Leaving columns out while a block is decoded is the same as decoding it whole and keeping some
/// of the values.
pub proof fn pruned_scan_projects(bytes: Seq<u8>, types: Seq<DataType>, keep: Seq<bool>)
    requires
        block_rows(bytes, types, None, None, None) is Ok,
    ensures
        block_rows(bytes, types, Some(keep), None, None) == Ok::<Seq<Seq<Value>>, BlockIssue>(
            (block_rows(bytes, types, None, None, None)->Ok_0).map_values(
                |row: Seq<Value>| kept_values(row, keep, types.len()),
            ),
        ),
{
    lemma_pruned_rows(bytes, types, keep, le_value(bytes.skip(bytes.len() - 2)));
}

} // verus!

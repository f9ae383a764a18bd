//! What an ordered column tells of the blocks that a scan with bounds reads.

use vstd::arithmetic::power2::{lemma_pow2_pos, pow2};
use vstd::prelude::*;
use crate::block_decode::{block_rows, kept_values, pruned_scan_projects};
use crate::block_search::{OrderedScanBounds, ScanBound, after_bound, before_bound, only};
use crate::catalog::{TableSpec, types_of};
use crate::filter_laws::{comparable, less, order_tells_less_and_same, same};
use crate::float_laws::integers_keep_their_order;
use crate::floats::Comparison;
use crate::scan::{ScanOperator, is_parted, lies_before, may_hold, was_seen};
use crate::value::{DataType, Value, has_type, order_is_antisymmetric, order_is_transitive_within_a_type, order_of};
use crate::value_laws::{float_of, floats_compare_as_numbers, integer_of, integers_compare_as_integers, is_of};

verus! {

/// The rows of a block, with nothing but one column.
pub open spec fn column_of_block(block: Seq<u8>, types: Seq<DataType>, col: int) -> Seq<Seq<Value>> {
    block_rows(block, types, Some(only(col, types.len())), None, None)->Ok_0
}

/// Whether every block of a file can be decoded and holds a row, and a column holds values of its
/// type that compare with themselves.
pub open spec fn has_column(file: Seq<Seq<u8>>, types: Seq<DataType>, col: int) -> bool {
    &&& 0 <= col < types.len()
    &&& forall|i: int|
        0 <= i < file.len() ==> block_rows(
            #[trigger] file[i],
            types,
            Some(only(col, types.len())),
            None,
            None,
        ) is Ok && column_of_block(file[i], types, col).len() > 0
    &&& forall|i: int, a: int|
        0 <= i < file.len() && 0 <= a < column_of_block(file[i], types, col).len() ==> plain(
            (#[trigger] column_of_block(file[i], types, col)[a])[0],
            types[col],
        )
}

/// Whether a value has a type and compares with itself.
pub open spec fn plain(v: Value, t: DataType) -> bool {
    has_type(v, t) && order_of(v, v) is Some
}

/// Whether a column never decreases over a file.
pub open spec fn never_decreases(file: Seq<Seq<u8>>, types: Seq<DataType>, col: int) -> bool {
    forall|i: int, j: int, a: int, b: int|
        0 <= i <= j < file.len() && 0 <= a < column_of_block(file[i], types, col).len() && 0 <= b
            < column_of_block(file[j], types, col).len() && (i < j || a <= b) ==> order_of(
            (#[trigger] column_of_block(file[i], types, col)[a])[0],
            (#[trigger] column_of_block(file[j], types, col)[b])[0],
        ) != Some(Comparison::Greater)
}

/// Whether a bound compares with the values of a column: both are texts, or both are numbers.
pub open spec fn bound_fits(bound: ScanBound, t: DataType) -> bool {
    let v = bound.value@;
    &&& order_of(v, v) is Some
    &&& v is Str <==> t is String
}

/// Whether the bounds of a scan fit the column.
pub open spec fn bounds_fit(bounds: OrderedScanBounds, types: Seq<DataType>) -> bool {
    let t = types[bounds.ordered_col_idx as int];
    &&& bounds.lower is Some ==> bound_fits(bounds.lower->0, t)
    &&& bounds.upper is Some ==> bound_fits(bounds.upper->0, t)
}

/// Of two values in order, the second lies before a bound only if the first does, and the first
/// lies behind it only if the second does.
proof fn lemma_bound_is_monotonic(v: Value, w: Value, bound: ScanBound, t: DataType)
    requires
        plain(v, t),
        plain(w, t),
        bound_fits(bound, t),
        order_of(v, w) != Some(Comparison::Greater),
    ensures
        before_bound(v, bound) is Some,
        before_bound(w, bound) is Some,
        after_bound(v, bound) is Some,
        after_bound(w, bound) is Some,
        before_bound(w, bound)->0 ==> before_bound(v, bound)->0,
        after_bound(v, bound)->0 ==> after_bound(w, bound)->0,
{
    let b = bound.value@;
    if v is Str {
        order_is_transitive_within_a_type(v, w, b, t);
        order_is_transitive_within_a_type(b, v, w, t);
        order_is_antisymmetric(v, b);
        order_is_antisymmetric(w, b);
    } else if integer_of(v) is Some && integer_of(b) is Some {
        integers_compare_as_integers(v, w);
        integers_compare_as_integers(v, b);
        integers_compare_as_integers(w, b);
    } else {
        lemma_numbers_in_order(v, w, t);
        if integer_of(b) is None {
            floats_compare_as_numbers(b, b);
        }
        floats_compare_as_numbers(v, b);
        floats_compare_as_numbers(w, b);
    }
}

/// Numbers of one type in order stay in order where they meet a float.
proof fn lemma_numbers_in_order(v: Value, w: Value, t: DataType)
    requires
        !(v is Str),
        plain(v, t),
        plain(w, t),
        order_of(v, w) != Some(Comparison::Greater),
    ensures
        float_of(v) is Some,
        float_of(w) is Some,
        float_of(v)->0 <= float_of(w)->0,
{
    if integer_of(v) is Some {
        integers_compare_as_integers(v, w);
        match (v, w) {
            (Value::Int64(a), Value::Int64(b)) => {
                integers_keep_their_order(a, b);
            },
            (Value::Int32(a), Value::Int32(b)) => {
                let unit = pow2(1074) as int;
                lemma_pow2_pos(1074);
                assert(a * unit <= b * unit) by (nonlinear_arith)
                    requires
                        a <= b,
                        unit > 0,
                ;
            },
            _ => {},
        }
    } else {
        floats_compare_as_numbers(v, v);
        floats_compare_as_numbers(w, w);
        floats_compare_as_numbers(v, w);
    }
}

/// Where a column never decreases over a file, the blocks that lie before either end of a range
/// come first.
pub proof fn ordered_column_parts_the_file(
    file: Seq<Seq<u8>>,
    upper: bool,
    bounds: OrderedScanBounds,
    types: Seq<DataType>,
)
    requires
        has_column(file, types, bounds.ordered_col_idx as int),
        never_decreases(file, types, bounds.ordered_col_idx as int),
        bounds_fit(bounds, types),
        upper ==> bounds.upper is Some,
        !upper ==> bounds.lower is Some,
    ensures
        is_parted(file, upper, bounds, types),
{
    let col = bounds.ordered_col_idx as int;
    let t = types[col];
    assert forall|i: int, j: int|
        0 <= i <= j < file.len() && #[trigger] lies_before(
            file[j],
            upper,
            bounds,
            types,
        ) implies #[trigger] lies_before(file[i], upper, bounds, types) by {
        let p = column_of_block(file[i], types, col);
        let q = column_of_block(file[j], types, col);
        let (a, b) = if upper {
            (0int, 0int)
        } else {
            (p.len() - 1, q.len() - 1)
        };
        assert(p[a] == column_of_block(file[i], types, col)[a]);
        assert(q[b] == column_of_block(file[j], types, col)[b]);
        lemma_bound_is_monotonic(
            p[a][0],
            q[b][0],
            if upper {
                bounds.upper->0
            } else {
                bounds.lower->0
            },
            t,
        );
    }
}

/// Where a column never decreases over a file, a block with a row whose value is inside the bounds
/// is one of those that may hold such values.
pub proof fn blocks_with_matches_may_hold(
    file: Seq<Seq<u8>>,
    bounds: OrderedScanBounds,
    types: Seq<DataType>,
    i: int,
    a: int,
)
    requires
        has_column(file, types, bounds.ordered_col_idx as int),
        never_decreases(file, types, bounds.ordered_col_idx as int),
        bounds_fit(bounds, types),
        0 <= i < file.len(),
        0 <= a < column_of_block(file[i], types, bounds.ordered_col_idx as int).len(),
        bounds.lower is Some ==> before_bound(
            column_of_block(file[i], types, bounds.ordered_col_idx as int)[a][0],
            bounds.lower->0,
        ) == Some(false),
        bounds.upper is Some ==> after_bound(
            column_of_block(file[i], types, bounds.ordered_col_idx as int)[a][0],
            bounds.upper->0,
        ) == Some(false),
    ensures
        may_hold(file[i], bounds, types),
{
    let col = bounds.ordered_col_idx as int;
    let t = types[col];
    let rows = column_of_block(file[i], types, col);
    assert(rows[0] == column_of_block(file[i], types, col)[0]);
    assert(rows[rows.len() - 1] == column_of_block(file[i], types, col)[rows.len() - 1]);
    if bounds.lower is Some {
        lemma_bound_is_monotonic(rows[a][0], rows[rows.len() - 1][0], bounds.lower->0, t);
    }
    if bounds.upper is Some {
        lemma_bound_is_monotonic(rows[0][0], rows[a][0], bounds.upper->0, t);
    }
}

/// Whether a value lies within a range: behind its lower end and before its upper end, or equal to
/// an end that belongs to it.
pub open spec fn in_range(v: Value, bounds: OrderedScanBounds) -> bool {
    &&& bounds.lower matches Some(low) ==> order_of(v, low.value@) == Some(Comparison::Greater) || (
    low.inclusive && order_of(v, low.value@) == Some(Comparison::Equal))
    &&& bounds.upper matches Some(high) ==> order_of(v, high.value@) == Some(Comparison::Less) || (
    high.inclusive && order_of(v, high.value@) == Some(Comparison::Equal))
}

/// A value lies before a lower end where it is less, or equal to an end that does not belong to the
/// range; it lies behind an upper end where it is greater, or equal to such an end. There is no
/// answer where value and end have no order.
pub proof fn ends_are_tested_by_the_order(v: Value, bound: ScanBound)
    ensures
        before_bound(v, bound) is Some <==> comparable(v, bound.value@),
        before_bound(v, bound) == Some(true) <==> less(v, bound.value@) || (same(v, bound.value@)
            && !bound.inclusive),
        after_bound(v, bound) is Some <==> comparable(v, bound.value@),
        after_bound(v, bound) == Some(true) <==> less(bound.value@, v) || (same(v, bound.value@)
            && !bound.inclusive),
{
    order_tells_less_and_same(v, bound.value@);
}

/// The rows of a block.
pub open spec fn rows_of_block(block: Seq<u8>, types: Seq<DataType>) -> Seq<Seq<Value>> {
    block_rows(block, types, None, None, None)->Ok_0
}

/// Whether a file is ordered by a column: every block can be decoded and holds a row, the column
/// holds values of its type that compare with themselves, and from row to row and from block to
/// block it never decreases.
pub open spec fn ordered_by(file: Seq<Seq<u8>>, types: Seq<DataType>, col: int) -> bool {
    &&& 0 <= col < types.len()
    &&& forall|i: int|
        0 <= i < file.len() ==> block_rows(#[trigger] file[i], types, None, None, None) is Ok
            && rows_of_block(file[i], types).len() > 0
    &&& forall|i: int, a: int|
        0 <= i < file.len() && 0 <= a < rows_of_block(file[i], types).len() ==> is_of(
            (#[trigger] rows_of_block(file[i], types)[a])[col],
            types[col],
        ) && order_of(
            rows_of_block(file[i], types)[a][col],
            rows_of_block(file[i], types)[a][col],
        ) is Some
    &&& forall|i: int, j: int, a: int, b: int|
        0 <= i <= j < file.len() && 0 <= a < rows_of_block(file[i], types).len() && 0 <= b
            < rows_of_block(file[j], types).len() && (i < j || a <= b) ==> order_of(
            (#[trigger] rows_of_block(file[i], types)[a])[col],
            (#[trigger] rows_of_block(file[j], types)[b])[col],
        ) != Some(Comparison::Greater)
}

proof fn lemma_only_kept(row: Seq<Value>, col: int, all: nat, n: nat)
    requires
        0 <= col,
        n <= all,
    ensures
        kept_values(row, only(col, all), n) == (if col < n {
            seq![row[col]]
        } else {
            Seq::<Value>::empty()
        }),
    decreases n,
{
    if n > 0 {
        lemma_only_kept(row, col, all, (n - 1) as nat);
        if col == n - 1 {
            assert(Seq::<Value>::empty().push(row[col]) =~= seq![row[col]]);
        }
    }
}

proof fn lemma_column_of(block: Seq<u8>, types: Seq<DataType>, col: int)
    requires
        0 <= col < types.len(),
        block_rows(block, types, None, None, None) is Ok,
    ensures
        block_rows(block, types, Some(only(col, types.len())), None, None) is Ok,
        column_of_block(block, types, col).len() == rows_of_block(block, types).len(),
        forall|a: int|
            0 <= a < rows_of_block(block, types).len() ==> #[trigger] column_of_block(
                block,
                types,
                col,
            )[a] == seq![rows_of_block(block, types)[a][col]],
{
    pruned_scan_projects(block, types, only(col, types.len()));
    let rows = rows_of_block(block, types);
    assert forall|a: int| 0 <= a < rows.len() implies #[trigger] column_of_block(
        block,
        types,
        col,
    )[a] == seq![rows[a][col]] by {
        lemma_only_kept(rows[a], col, types.len(), types.len());
    }
}

proof fn lemma_ordered_column(file: Seq<Seq<u8>>, types: Seq<DataType>, col: int)
    requires
        ordered_by(file, types, col),
    ensures
        has_column(file, types, col),
        never_decreases(file, types, col),
{
    assert forall|i: int| 0 <= i < file.len() implies block_rows(
        #[trigger] file[i],
        types,
        Some(only(col, types.len())),
        None,
        None,
    ) is Ok && column_of_block(file[i], types, col).len() > 0 by {
        lemma_column_of(file[i], types, col);
    }
    assert forall|i: int, a: int|
        0 <= i < file.len() && 0 <= a < column_of_block(file[i], types, col).len() implies plain(
        (#[trigger] column_of_block(file[i], types, col)[a])[0],
        types[col],
    ) by {
        lemma_column_of(file[i], types, col);
        assert(is_of(rows_of_block(file[i], types)[a][col], types[col]));
    }
    assert forall|i: int, j: int, a: int, b: int|
        0 <= i <= j < file.len() && 0 <= a < column_of_block(file[i], types, col).len() && 0 <= b
            < column_of_block(file[j], types, col).len() && (i < j || a <= b) implies order_of(
        (#[trigger] column_of_block(file[i], types, col)[a])[0],
        (#[trigger] column_of_block(file[j], types, col)[b])[0],
    ) != Some(Comparison::Greater) by {
        lemma_column_of(file[i], types, col);
        lemma_column_of(file[j], types, col);
        assert(order_of(
            rows_of_block(file[i], types)[a][col],
            rows_of_block(file[j], types)[b][col],
        ) != Some(Comparison::Greater));
    }
}

/// No row is lost to the bounds of a scan: where a file is ordered by a column, every block with a
/// row whose value lies within the range is among those that the scan reads.
pub proof fn rows_in_range_are_read(
    scan: &ScanOperator,
    table: TableSpec,
    file: Seq<Seq<u8>>,
    i: int,
    a: int,
)
    requires
        scan.inv(table),
        scan.range() is Some,
        scan.bounds() is Some,
        file.len() == scan.file().1,
        was_seen(scan.seen(false), file),
        was_seen(scan.seen(true), file),
        ordered_by(
            file,
            types_of(table.column_specs@),
            scan.bounds()->0.ordered_col_idx as int,
        ),
        bounds_fit(scan.bounds()->0, types_of(table.column_specs@)),
        0 <= i < file.len(),
        0 <= a < rows_of_block(file[i], types_of(table.column_specs@)).len(),
        in_range(
            rows_of_block(file[i], types_of(table.column_specs@))[a][scan.bounds(
            )->0.ordered_col_idx as int],
            scan.bounds()->0,
        ),
    ensures
        (scan.range()->0).0 <= scan.file().0 + i < (scan.range()->0).0 + (scan.range()->0).1,
{
    let bounds = scan.bounds()->0;
    let types = types_of(table.column_specs@);
    let col = bounds.ordered_col_idx as int;
    lemma_ordered_column(file, types, col);
    lemma_column_of(file[i], types, col);
    assert(column_of_block(file[i], types, col)[a] == seq![rows_of_block(file[i], types)[a][col]]);
    if bounds.lower is Some {
        ordered_column_parts_the_file(file, false, bounds, types);
    }
    if bounds.upper is Some {
        ordered_column_parts_the_file(file, true, bounds, types);
    }
    blocks_with_matches_may_hold(file, bounds, types, i, a);
    scan.scan_reads_what_may_match(table, file, i);
}

/// A scan with bounds reads no block whose last row lies before the range, or whose first row lies
/// behind it.
pub proof fn blocks_out_of_range_are_not_read(
    scan: &ScanOperator,
    table: TableSpec,
    file: Seq<Seq<u8>>,
    i: int,
)
    requires
        scan.inv(table),
        scan.range() is Some,
        scan.bounds() is Some,
        file.len() == scan.file().1,
        was_seen(scan.seen(false), file),
        was_seen(scan.seen(true), file),
        ordered_by(
            file,
            types_of(table.column_specs@),
            scan.bounds()->0.ordered_col_idx as int,
        ),
        bounds_fit(scan.bounds()->0, types_of(table.column_specs@)),
        0 <= i < file.len(),
        ({
            let rows = rows_of_block(file[i], types_of(table.column_specs@));
            let b = scan.bounds()->0;
            let first = rows[0][b.ordered_col_idx as int];
            let last = rows[rows.len() - 1][b.ordered_col_idx as int];
            ||| b.lower is Some && (order_of(last, (b.lower->0).value@) == Some(Comparison::Less)
                || (!(b.lower->0).inclusive && order_of(last, (b.lower->0).value@) == Some(
                Comparison::Equal,
            )))
            ||| b.upper is Some && (order_of(first, (b.upper->0).value@) == Some(
                Comparison::Greater,
            ) || (!(b.upper->0).inclusive && order_of(first, (b.upper->0).value@) == Some(
                Comparison::Equal,
            )))
        }),
    ensures
        !((scan.range()->0).0 <= scan.file().0 + i < (scan.range()->0).0 + (scan.range()->0).1),
{
    let bounds = scan.bounds()->0;
    let types = types_of(table.column_specs@);
    let col = bounds.ordered_col_idx as int;
    lemma_ordered_column(file, types, col);
    lemma_column_of(file[i], types, col);
    let rows = rows_of_block(file[i], types);
    assert(column_of_block(file[i], types, col)[0] == seq![rows[0][col]]);
    assert(column_of_block(file[i], types, col)[rows.len() - 1] == seq![rows[rows.len() - 1][col]]);
    if bounds.lower is Some {
        ordered_column_parts_the_file(file, false, bounds, types);
    }
    if bounds.upper is Some {
        ordered_column_parts_the_file(file, true, bounds, types);
    }
    scan.scan_reads_what_may_match(table, file, i);
}

} // verus!

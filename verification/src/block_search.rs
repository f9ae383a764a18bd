//! Finding the blocks of an ordered file that a range of values lies in.

use vstd::prelude::*;
use crate::block_decode::{block_rows, decode_block_into_rows};
use crate::buffer::{BlockIssue, is_block_issue};
use crate::catalog::{TableSpec, types_of};
use crate::error::DbError;
use crate::floats::Comparison;
use crate::value::{Data, DataType, Value, order_of};
use crate::views::{rows_of, values_of};

verus! {

/// One end of a range.
#[derive(Debug)]
pub struct ScanBound {
    pub value: Data,
    pub inclusive: bool,
}

/// The range of the values of an ordered column that a scan is after.
#[derive(Debug)]
pub struct OrderedScanBounds {
    pub ordered_col_idx: usize,
    pub lower: Option<ScanBound>,
    pub upper: Option<ScanBound>,
}

/// Whether a value lies before a lower end; `None` where the two do not compare.
pub open spec fn before_bound(v: Value, bound: ScanBound) -> Option<bool> {
    match order_of(v, bound.value@) {
        Some(Comparison::Less) => Some(true),
        Some(Comparison::Equal) => Some(!bound.inclusive),
        Some(Comparison::Greater) => Some(false),
        None => None,
    }
}

/// Whether a value lies behind an upper end; `None` where the two do not compare.
pub open spec fn after_bound(v: Value, bound: ScanBound) -> Option<bool> {
    match order_of(v, bound.value@) {
        Some(Comparison::Greater) => Some(true),
        Some(Comparison::Equal) => Some(!bound.inclusive),
        Some(Comparison::Less) => Some(false),
        None => None,
    }
}

pub fn is_strictly_before_bound(value: &Data, bound: &ScanBound) -> (r: Result<bool, DbError>)
    ensures
        match before_bound(value@, *bound) {
            Some(b) => r == Ok::<bool, DbError>(b),
            None => r == Err::<bool, DbError>(DbError::IncomparableValues),
        },
{
    match value.compare(&bound.value) {
        Some(Comparison::Less) => Ok(true),
        Some(Comparison::Equal) => Ok(!bound.inclusive),
        Some(Comparison::Greater) => Ok(false),
        None => Err(DbError::IncomparableValues),
    }
}

pub fn is_strictly_after_bound(value: &Data, bound: &ScanBound) -> (r: Result<bool, DbError>)
    ensures
        match after_bound(value@, *bound) {
            Some(b) => r == Ok::<bool, DbError>(b),
            None => r == Err::<bool, DbError>(DbError::IncomparableValues),
        },
{
    match value.compare(&bound.value) {
        Some(Comparison::Greater) => Ok(true),
        Some(Comparison::Equal) => Ok(!bound.inclusive),
        Some(Comparison::Less) => Ok(false),
        None => Err(DbError::IncomparableValues),
    }
}

/// Keeping one column.
pub open spec fn only(col: int, n: nat) -> Seq<bool> {
    Seq::new(n, |i: int| i == col)
}

/// The first and the last value of a column in a block.
pub open spec fn ends_of_block(bytes: Seq<u8>, types: Seq<DataType>, col: int) -> Result<
    Option<(Value, Value)>,
    BlockIssue,
> {
    match block_rows(bytes, types, Some(only(col, types.len())), None, None) {
        Err(e) => Err(e),
        Ok(rows) => if rows.len() > 0 && 0 <= col < types.len() {
            Ok(Some((rows[0][0], rows.last()[0])))
        } else {
            Ok(None)
        },
    }
}

proof fn lemma_kept_one(keep: Option<Seq<bool>>, col: int, n: nat, all: nat)
    requires
        keep == Some(only(col, all)),
        n <= all,
    ensures
        crate::block_decode::kept_count(keep, n) == (if 0 <= col < n {
            1nat
        } else {
            0
        }),
    decreases n,
{
    if n > 0 {
        lemma_kept_one(keep, col, (n - 1) as nat, all);
    }
}

/// Reads the first and the last value of a column in a block.
pub fn ordered_column_min_max_in_block(
    table_spec: &TableSpec,
    block: &[u8],
    block_id: u64,
    ordered_col_idx: usize,
) -> (r: Result<(Data, Data), DbError>)
    ensures
        match ends_of_block(
            block@,
            types_of(table_spec.column_specs@),
            ordered_col_idx as int,
        ) {
            Err(issue) => r is Err && is_block_issue(r->Err_0, issue),
            Ok(None) => r == Err::<(Data, Data), DbError>(DbError::EmptyOrderedBlock(block_id)),
            Ok(Some((first, last))) => r matches Ok(p) && p.0@ == first && p.1@ == last,
        },
{
    let n: usize = table_spec.column_specs.len();
    let ghost types = types_of(table_spec.column_specs@);
    let mut keep: Vec<bool> = Vec::new();
    let mut i: usize = 0;
    while i < n
        invariant
            i <= n,
            keep@.len() == i,
            forall|j: int| 0 <= j < i ==> #[trigger] keep@[j] == (j == ordered_col_idx),
        decreases n - i,
    {
        keep.push(i == ordered_col_idx);
        i += 1;
    }
    proof {
        assert(keep@ =~= only(ordered_col_idx as int, types.len()));
    }
    let rows = match decode_block_into_rows(table_spec, block, Some(keep.as_slice())) {
        Ok(v) => v,
        Err(e) => {
            return Err(e);
        },
    };
    let ghost all = rows_of(rows@);
    if rows.len() == 0 || ordered_col_idx >= n {
        assert(all.len() == rows@.len());
        return Err(DbError::EmptyOrderedBlock(block_id));
    }
    proof {
        crate::block_decode::lemma_row_lengths(
            block@,
            types,
            Some(keep@),
            None,
            None,
        );
        lemma_kept_one(Some(keep@), ordered_col_idx as int, types.len(), types.len());
        assert(all.len() == rows@.len());
        assert(all[0] == rows@[0]@);
        assert(all[all.len() - 1] == rows@[rows@.len() - 1]@);
    }
    let last: usize = rows.len() - 1;
    let first_row = rows[0].values();
    let last_row = rows[last].values();
    proof {
        assert(values_of(first_row@).len() == first_row@.len());
        assert(values_of(last_row@).len() == last_row@.len());
        assert(values_of(first_row@)[0] == first_row@[0]@);
        assert(values_of(last_row@)[0] == last_row@[0]@);
    }
    Ok((first_row[0].clone(), last_row[0].clone()))
}

/// A binary search over the blocks of a file. The answer for a block says whether the place
/// sought lies behind it.
pub struct BlockSearch {
    num_blocks: u64,
    lo: u64,
    hi: u64,
    answers: Ghost<Map<int, bool>>,
}

impl BlockSearch {
    pub closed spec fn size(&self) -> int {
        self.num_blocks as int
    }

    /// What was answered so far.
    pub closed spec fn answers(&self) -> Map<int, bool> {
        self.answers@
    }

    /// The block that is looked at next.
    pub closed spec fn asks(&self) -> Option<int> {
        if self.lo < self.hi {
            Some(self.lo + (self.hi - self.lo) / 2)
        } else {
            None
        }
    }

    /// Where the search has come to.
    pub closed spec fn found(&self) -> int {
        self.lo as int
    }

    pub closed spec fn inv(&self) -> bool {
        &&& self.lo <= self.hi <= self.num_blocks
        &&& self.lo > 0 ==> self.answers@.dom().contains(self.lo - 1) && self.answers@[self.lo - 1]
        &&& self.hi < self.num_blocks ==> self.answers@.dom().contains(self.hi as int)
            && !self.answers@[self.hi as int]
    }

    pub fn new(num_blocks: u64) -> (r: BlockSearch)
        ensures
            r.inv(),
            r.size() == num_blocks,
            r.answers() == Map::<int, bool>::empty(),
    {
        BlockSearch { num_blocks, lo: 0, hi: num_blocks, answers: Ghost(Map::empty()) }
    }

    /// The block to look at next; `None` once the search is over.
    pub fn next(&self) -> (r: Option<u64>)
        requires
            self.inv(),
        ensures
            r matches Some(m) ==> self.asks() == Some(m as int) && m < self.size(),
            r is None ==> self.asks() is None,
    {
        if self.lo < self.hi {
            Some(self.lo + (self.hi - self.lo) / 2)
        } else {
            None
        }
    }

    /// Takes the answer for the block that was looked at.
    pub fn answer(&mut self, behind: bool)
        requires
            old(self).inv(),
            old(self).asks() is Some,
        ensures
            final(self).inv(),
            final(self).size() == old(self).size(),
            final(self).answers() == old(self).answers().insert(old(self).asks()->0, behind),
            final(self).left() < old(self).left(),
    {
        let mid: u64 = self.lo + (self.hi - self.lo) / 2;
        proof {
            self.answers@ = self.answers@.insert(mid as int, behind);
        }
        if behind {
            self.lo = mid + 1;
        } else {
            self.hi = mid;
        }
    }

    /// How many blocks may still be the one sought.
    pub closed spec fn left(&self) -> nat {
        (self.hi - self.lo) as nat
    }

    /// The place that the search found.
    pub fn result(&self) -> (r: u64)
        requires
            self.inv(),
        ensures
            r == self.found(),
            r <= self.size(),
    {
        self.lo
    }

    /// A search that is over has asked about the blocks on both sides of the place it found.
    pub proof fn lemma_boundary_was_asked(&self)
        requires
            self.inv(),
            self.asks() is None,
        ensures
            0 <= self.found() <= self.size(),
            self.found() > 0 ==> self.answers().dom().contains(self.found() - 1)
                && self.answers()[self.found() - 1],
            self.found() < self.size() ==> self.answers().dom().contains(self.found())
                && !self.answers()[self.found()],
    {
    }

    /// Where the answers are those of an ordered file, the search ends at the boundary: the place
    /// sought lies behind all blocks before it, and behind none from it on.
    pub proof fn search_finds_the_boundary(&self, behind: spec_fn(int) -> bool)
        requires
            self.inv(),
            self.asks() is None,
            forall|i: int| #[trigger]
                self.answers().dom().contains(i) ==> self.answers()[i] == behind(i),
            forall|i: int, j: int|
                0 <= i <= j < self.size() && #[trigger] behind(j) ==> #[trigger] behind(i),
        ensures
            0 <= self.found() <= self.size(),
            forall|i: int| 0 <= i < self.found() ==> #[trigger] behind(i),
            forall|i: int| self.found() <= i < self.size() ==> !(#[trigger] behind(i)),
    {
        let f = self.lo as int;
        if f > 0 {
            assert(self.answers().dom().contains(f - 1));
            assert(behind(f - 1));
        }
        if f < self.num_blocks {
            assert(self.answers().dom().contains(f));
            assert(!behind(f));
        }
    }
}

/// The blocks of a scan: where they start in the file's region, and how many they are. Where the
/// two ends leave none, the scan has no blocks.
pub fn restricted_range(file_start: u64, start_idx: u64, end_idx: u64) -> (r: Result<
    (u64, u64),
    DbError,
>)
    ensures
        if start_idx >= end_idx {
            r == Ok::<(u64, u64), DbError>((file_start, 0))
        } else if file_start + start_idx > u64::MAX {
            r == Err::<(u64, u64), DbError>(DbError::BlockIdOverflow)
        } else {
            r == Ok::<(u64, u64), DbError>(
                ((file_start + start_idx) as u64, (end_idx - start_idx) as u64),
            )
        },
{
    if start_idx >= end_idx {
        return Ok((file_start, 0));
    }
    match file_start.checked_add(start_idx) {
        Some(start) => Ok((start, end_idx - start_idx)),
        None => Err(DbError::BlockIdOverflow),
    }
}

} // verus!

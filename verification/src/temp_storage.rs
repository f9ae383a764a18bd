//! Temporary files on the anonymous region of the disk.
//!
//! A temporary file is a list of extents. Writes are queued for the caller to carry out, in
//! order, before any read; `disk` tells what the disk holds once they are.

use std::collections::HashMap;
use vstd::prelude::*;
use crate::error::{DbError, storage_error};

verus! {

broadcast use vstd::std_specs::hash::group_hash_axioms;

/// Names a temporary file.
#[derive(Clone, Copy, Debug, PartialEq, Eq, Hash, Structural)]
pub struct TempFileId(pub u64);

/// Names a page of a temporary file.
#[derive(Clone, Copy, Debug, PartialEq, Eq, Hash, Structural)]
pub struct TempPageId {
    pub file_id: TempFileId,
    pub page_index: u64,
}

/// Consecutive blocks on the disk.
#[derive(Clone, Copy, Debug, PartialEq, Eq, Structural)]
pub struct BlockRange {
    pub start_block: u64,
    pub num_blocks: u64,
}

impl BlockRange {
    pub open spec fn end(self) -> int {
        self.start_block + self.num_blocks
    }

    pub open spec fn has(self, block: int) -> bool {
        self.start_block <= block < self.end()
    }
}

/// Whether two ranges share no block.
pub open spec fn apart(a: BlockRange, b: BlockRange) -> bool {
    a.end() <= b.start_block || b.end() <= a.start_block
}

/// Blocks to be written.
#[derive(Debug)]
pub struct DiskWrite {
    pub range: BlockRange,
    pub data: Vec<u8>,
}

#[derive(Debug)]
struct TempFileMeta {
    extents: Vec<BlockRange>,
    num_pages: u64,
}

/// The number of blocks of some extents.
pub open spec fn total_blocks(extents: Seq<BlockRange>) -> nat
    decreases extents.len(),
{
    if extents.len() == 0 {
        0
    } else {
        total_blocks(extents.drop_last()) + extents.last().num_blocks as nat
    }
}

/// The block that holds page `page` of a file with the given extents.
pub open spec fn block_at(extents: Seq<BlockRange>, page: int) -> int
    decreases extents.len(),
{
    if extents.len() == 0 {
        0
    } else if page >= total_blocks(extents.drop_last()) {
        extents.last().start_block + (page - total_blocks(extents.drop_last()))
    } else {
        block_at(extents.drop_last(), page)
    }
}

/// The `i`-th piece of `size` bytes.
pub open spec fn chunk(data: Seq<u8>, size: int, i: int) -> Seq<u8> {
    data.subrange(i * size, i * size + size)
}

/// The disk after a write.
pub open spec fn disk_after(
    disk: spec_fn(int) -> Seq<u8>,
    start: int,
    num: int,
    data: Seq<u8>,
    size: int,
) -> spec_fn(int) -> Seq<u8> {
    |b: int|
        if start <= b < start + num {
            chunk(data, size, b - start)
        } else {
            disk(b)
        }
}

/// The disk after some writes, one after the other.
pub open spec fn disk_after_all(
    disk: spec_fn(int) -> Seq<u8>,
    writes: Seq<DiskWrite>,
    size: int,
) -> spec_fn(int) -> Seq<u8>
    decreases writes.len(),
{
    if writes.len() == 0 {
        disk
    } else {
        let w = writes.last();
        disk_after(
            disk_after_all(disk, writes.drop_last(), size),
            w.range.start_block as int,
            w.range.num_blocks as int,
            w.data@,
            size,
        )
    }
}

/// The anonymous region and the temporary files on it.
pub struct TempStorageManager {
    block_size: usize,
    next_file_id: u64,
    next_free_block: Option<u64>,
    files: HashMap<u64, TempFileMeta>,
    free_extents: Vec<BlockRange>,
    outbox: Vec<DiskWrite>,
    disk: Ghost<spec_fn(int) -> Seq<u8>>,
    flushed: Ghost<spec_fn(int) -> Seq<u8>>,
    start: Ghost<u64>,
}

proof fn lemma_block_at_push(extents: Seq<BlockRange>, e: BlockRange, page: int)
    requires
        0 <= page < total_blocks(extents) + e.num_blocks,
    ensures
        total_blocks(extents.push(e)) == total_blocks(extents) + e.num_blocks,
        page < total_blocks(extents) ==> block_at(extents.push(e), page) == block_at(
            extents,
            page,
        ),
        page >= total_blocks(extents) ==> block_at(extents.push(e), page) == e.start_block + (page
            - total_blocks(extents)),
{
    assert(extents.push(e).drop_last() =~= extents);
}

/// The extent that holds a page, and the number of pages before that extent.
proof fn lemma_block_at_inside(extents: Seq<BlockRange>, page: int) -> (i: int)
    requires
        0 <= page < total_blocks(extents),
    ensures
        0 <= i < extents.len(),
        total_blocks(extents.take(i)) <= page < total_blocks(extents.take(i))
            + extents[i].num_blocks,
        block_at(extents, page) == extents[i].start_block + (page - total_blocks(extents.take(i))),
        extents[i].has(block_at(extents, page)),
    decreases extents.len(),
{
    let init = extents.drop_last();
    if page >= total_blocks(init) {
        assert(extents.take(extents.len() - 1) =~= init);
        extents.len() - 1
    } else {
        let i = lemma_block_at_inside(init, page);
        assert(init.take(i) =~= extents.take(i));
        i
    }
}

proof fn lemma_total_take(extents: Seq<BlockRange>, i: int)
    requires
        0 <= i < extents.len(),
    ensures
        total_blocks(extents.take(i + 1)) == total_blocks(extents.take(i))
            + extents[i].num_blocks,
        total_blocks(extents.take(i + 1)) <= total_blocks(extents),
    decreases extents.len(),
{
    assert(extents.take(i + 1).drop_last() =~= extents.take(i));
    if i + 1 == extents.len() {
        assert(extents.take(i + 1) =~= extents);
    } else {
        let init = extents.drop_last();
        lemma_total_take(init, i);
        assert(init.take(i + 1) =~= extents.take(i + 1));
    }
}

proof fn lemma_block_at_in_extent(extents: Seq<BlockRange>, i: int, off: int)
    requires
        0 <= i < extents.len(),
        0 <= off < extents[i].num_blocks,
    ensures
        block_at(extents, total_blocks(extents.take(i)) + off) == extents[i].start_block + off,
        total_blocks(extents.take(i)) + off < total_blocks(extents),
    decreases extents.len(),
{
    lemma_total_take(extents, i);
    let init = extents.drop_last();
    if i == extents.len() - 1 {
        assert(extents.take(i) =~= init);
    } else {
        lemma_block_at_in_extent(init, i, off);
        assert(init.take(i) =~= extents.take(i));
    }
}

/// The blocks of some extents.
spec fn blocks_taken(extents: Seq<BlockRange>) -> Set<int>
    decreases extents.len(),
{
    if extents.len() == 0 {
        Set::empty()
    } else {
        let e = extents.last();
        blocks_taken(extents.drop_last()).union(
            vstd::set_lib::set_int_range(e.start_block as int, e.start_block + e.num_blocks),
        )
    }
}

/// Extents that do not overlap have as many blocks as they have together.
proof fn lemma_blocks_taken(extents: Seq<BlockRange>, top: int)
    requires
        forall|i: int, j: int|
            0 <= i < j < extents.len() ==> apart(#[trigger] extents[i], #[trigger] extents[j]),
        forall|i: int| 0 <= i < extents.len() ==> (#[trigger] extents[i]).end() <= top,
    ensures
        blocks_taken(extents).finite(),
        blocks_taken(extents).len() == total_blocks(extents),
        forall|b: int| #[trigger]
            blocks_taken(extents).contains(b) ==> 0 <= b < top && exists|i: int|
                0 <= i < extents.len() && (#[trigger] extents[i]).has(b),
    decreases extents.len(),
{
    if extents.len() > 0 {
        let init = extents.drop_last();
        let e = extents.last();
        let lo = e.start_block as int;
        let hi = e.start_block + e.num_blocks;
        assert forall|i: int, j: int| 0 <= i < j < init.len() implies apart(
            #[trigger] init[i],
            #[trigger] init[j],
        ) by {
            assert(extents[i] == init[i] && extents[j] == init[j]);
        }
        assert forall|i: int| 0 <= i < init.len() implies (#[trigger] init[i]).end() <= top by {
            assert(extents[i] == init[i]);
        }
        lemma_blocks_taken(init, top);
        let a = blocks_taken(init);
        let b = vstd::set_lib::set_int_range(lo, hi);
        vstd::set_lib::lemma_int_range(lo, hi);
        assert(extents[extents.len() - 1] == e);
        assert forall|x: int| a.contains(x) implies !b.contains(x) by {
            let i = choose|i: int| 0 <= i < init.len() && (#[trigger] init[i]).has(x);
            assert(extents[i] == init[i]);
            assert(apart(extents[i], extents[extents.len() - 1]));
        }
        assert(a.disjoint(b));
        vstd::set_lib::lemma_set_disjoint_lens(a, b);
        assert forall|x: int| #[trigger] blocks_taken(extents).contains(x) implies 0 <= x < top
            && exists|i: int| 0 <= i < extents.len() && (#[trigger] extents[i]).has(x) by {
            if a.contains(x) {
                let i = choose|i: int| 0 <= i < init.len() && (#[trigger] init[i]).has(x);
                assert(extents[i] == init[i]);
            } else {
                assert(extents[extents.len() - 1].has(x));
            }
        }
    }
}

/// Whether a file has an `i`-th extent.
pub open spec fn is_extent(layout: Map<u64, Seq<BlockRange>>, f: u64, i: int) -> bool {
    layout.dom().contains(f) && 0 <= i < layout[f].len()
}

/// Whether a range is not empty and lies below the frontier.
pub open spec fn below(e: BlockRange, frontier: Option<u64>) -> bool {
    e.num_blocks > 0 && frontier is Some && e.end() <= frontier->0
}

/// No two extents overlap, of files or free, and all lie below the frontier.
pub open spec fn space_ok(
    layout: Map<u64, Seq<BlockRange>>,
    free: Seq<BlockRange>,
    frontier: Option<u64>,
) -> bool {
    &&& forall|f: u64, i: int, g: u64, j: int|
        #![trigger is_extent(layout, f, i), is_extent(layout, g, j)]
        is_extent(layout, f, i) && is_extent(layout, g, j) && (f != g || i != j) ==> apart(
            layout[f][i],
            layout[g][j],
        )
    &&& forall|f: u64, i: int, k: int|
        #![trigger is_extent(layout, f, i), free[k]]
        is_extent(layout, f, i) && 0 <= k < free.len() ==> apart(layout[f][i], free[k])
    &&& forall|k: int, m: int|
        #![trigger free[k], free[m]]
        0 <= k < m < free.len() ==> apart(free[k], free[m])
    &&& forall|f: u64, i: int| #[trigger]
        is_extent(layout, f, i) ==> below(layout[f][i], frontier)
    &&& forall|k: int| 0 <= k < free.len() ==> below(#[trigger] free[k], frontier)
}

/// Whether all extents, of files or free, lie at or behind the start of the region.
pub open spec fn behind(
    layout: Map<u64, Seq<BlockRange>>,
    free: Seq<BlockRange>,
    frontier: Option<u64>,
    start: u64,
) -> bool {
    &&& forall|f: u64, i: int| #[trigger]
        is_extent(layout, f, i) ==> start <= layout[f][i].start_block
    &&& forall|k: int| 0 <= k < free.len() ==> start <= (#[trigger] free[k]).start_block
    &&& frontier is Some ==> start <= frontier->0
}

/// Page counts agree with the extents, and names were given out.
spec fn counts_ok(files: Map<u64, TempFileMeta>, next: u64) -> bool {
    forall|f: u64| #[trigger]
        files.dom().contains(f) ==> f < next && files[f].num_pages == total_blocks(
            files[f].extents@,
        )
}

impl TempStorageManager {
    /// The size of a page in bytes.
    pub closed spec fn size(&self) -> nat {
        self.block_size as nat
    }

    /// Where each file lies.
    pub closed spec fn layout(&self) -> Map<u64, Seq<BlockRange>> {
        self.files@.map_values(|m: TempFileMeta| m.extents@)
    }

    pub open spec fn has_file(&self, f: u64) -> bool {
        self.layout().dom().contains(f)
    }

    /// Where a file lies.
    pub open spec fn extents(&self, f: u64) -> Seq<BlockRange> {
        self.layout()[f]
    }

    /// What the disk holds once all queued writes are carried out.
    pub closed spec fn disk(&self) -> spec_fn(int) -> Seq<u8> {
        self.disk@
    }

    /// What the disk holds once the writes that were handed out are carried out.
    pub closed spec fn flushed(&self) -> spec_fn(int) -> Seq<u8> {
        self.flushed@
    }

    /// The writes that are still to be carried out.
    pub closed spec fn pending(&self) -> Seq<DiskWrite> {
        self.outbox@
    }

    /// The extents of deleted files, which are used again.
    pub closed spec fn free(&self) -> Seq<BlockRange> {
        self.free_extents@
    }

    /// The first block that was never used; `None` before the region's start is known.
    pub closed spec fn frontier(&self) -> Option<u64> {
        self.next_free_block
    }

    /// The start of the region, once it is known.
    pub closed spec fn region_start(&self) -> Option<u64> {
        match self.next_free_block {
            Some(_) => Some(self.start@),
            None => None,
        }
    }

    /// Whether `num` blocks from `start` on were taken: of the best-fitting free extent, and where
    /// none fits, from the frontier.
    pub open spec fn gave_space(&self, after: &TempStorageManager, start: u64, num: u64) -> bool {
        if some_fits(self.free(), num) {
            after.frontier() == self.frontier() && exists|k: int| #[trigger]
                is_best_fit(self.free(), num, k) && start == self.free()[k].start_block
                    && after.free() == free_after(self.free(), k, num as int)
        } else {
            Some(start) == self.frontier() && after.frontier() == Some(
                (self.frontier()->0 + num) as u64,
            ) && after.free() == self.free()
        }
    }

    /// The number of file names given out.
    pub closed spec fn names_given(&self) -> u64 {
        self.next_file_id
    }

    pub open spec fn page_count(&self, f: u64) -> nat {
        total_blocks(self.extents(f))
    }

    /// What a page of a file holds.
    pub open spec fn page(&self, f: u64, i: int) -> Seq<u8> {
        (self.disk())(block_at(self.extents(f), i))
    }

    /// What a file holds, page by page.
    pub open spec fn pages(&self, f: u64) -> Seq<Seq<u8>> {
        Seq::new(self.page_count(f), |i: int| self.page(f, i))
    }

    pub closed spec fn inv(&self) -> bool {
        &&& space_ok(self.layout(), self.free(), self.frontier())
        &&& 64 <= self.block_size
        &&& behind(self.layout(), self.free(), self.frontier(), self.start@)
        &&& counts_ok(self.files@, self.next_file_id)
        &&& self.disk@ == disk_after_all(self.flushed@, self.outbox@, self.block_size as int)
    }

    /// Whether the other storage agrees with this one on a file.
    pub open spec fn same_file(&self, other: &TempStorageManager, f: u64) -> bool {
        &&& self.has_file(f) == other.has_file(f)
        &&& self.has_file(f) ==> self.extents(f) == other.extents(f) && self.pages(f)
            == other.pages(f)
    }

    /// Whether the storage can take a batch of so many pages of any file, or of a new one: there
    /// are names and block numbers for it, it can be held in memory, and no page can hold more
    /// rows than it can count.
    pub open spec fn roomy(&self, pages: nat) -> bool {
        &&& self.frontier() is Some
        &&& self.frontier()->0 + pages <= u64::MAX
        &&& self.names_given() < u64::MAX
        &&& self.size() * pages <= usize::MAX
        &&& self.size() <= 0x4_0000
    }

    /// The ranges that were given back lie apart, before the frontier.
    pub(crate) proof fn lemma_space(&self)
        requires
            self.inv(),
        ensures
            forall|k: int, m: int|
                0 <= k < m < self.free().len() ==> apart(
                    #[trigger] self.free()[k],
                    #[trigger] self.free()[m],
                ),
            forall|k: int|
                0 <= k < self.free().len() ==> below(#[trigger] self.free()[k], self.frontier()),
    {
    }

    /// Room for many pages is room for fewer.
    pub proof fn roomy_for_fewer(&self, many: nat, few: nat)
        requires
            self.roomy(many),
            few <= many,
        ensures
            self.roomy(few),
    {
        assert(self.size() * few <= self.size() * many) by (nonlinear_arith)
            requires
                few <= many,
        ;
    }

    /// A file has no more pages than there are blocks below the frontier.
    pub proof fn pages_below_frontier(&self, f: u64)
        requires
            self.inv(),
            self.has_file(f),
            self.frontier() is Some,
        ensures
            self.page_count(f) <= self.frontier()->0,
    {
        let extents = self.extents(f);
        let top = self.frontier()->0 as int;
        assert forall|i: int, j: int| 0 <= i < j < extents.len() implies apart(
            #[trigger] extents[i],
            #[trigger] extents[j],
        ) by {
            assert(is_extent(self.layout(), f, i));
            assert(is_extent(self.layout(), f, j));
        }
        assert forall|i: int| 0 <= i < extents.len() implies (#[trigger] extents[i]).end()
            <= top by {
            assert(is_extent(self.layout(), f, i));
        }
        lemma_blocks_taken(extents, top);
        vstd::set_lib::lemma_int_range(0, top);
        vstd::set_lib::lemma_len_subset(
            blocks_taken(extents),
            vstd::set_lib::set_int_range(0, top),
        );
    }

    /// Whether the other storage agrees with this one on every file but `f`.
    pub open spec fn same_but(&self, other: &TempStorageManager, f: u64) -> bool {
        &&& self.size() == other.size()
        &&& self.flushed() == other.flushed()
        &&& forall|g: u64| g != f ==> #[trigger] self.same_file(other, g)
    }

    /// Whether the other storage agrees with this one on every file.
    pub open spec fn same_files(&self, other: &TempStorageManager) -> bool {
        &&& self.size() == other.size()
        &&& forall|g: u64| #[trigger] self.same_file(other, g)
    }

    /// Whether the other storage agrees with this one on every file, and no writes were handed
    /// out in between.
    pub open spec fn same_all(&self, other: &TempStorageManager) -> bool {
        self.same_files(other) && self.flushed() == other.flushed()
    }

    pub fn new(block_size: usize) -> (r: Result<TempStorageManager, DbError>)
        ensures
            r is Ok <==> block_size >= 64,
            r matches Ok(s) ==> s.inv() && s.size() == block_size && s.frontier() is None
                && s.names_given() == 0 && s.pending() == Seq::<DiskWrite>::empty() && s.free()
                == Seq::<BlockRange>::empty() && forall|f: u64| !#[trigger] s.has_file(f),
            r is Err ==> r->Err_0 == DbError::BlockSizeTooSmall(block_size),
    {
        if block_size < 64 {
            return Err(DbError::BlockSizeTooSmall(block_size));
        }
        Ok(
            TempStorageManager {
                block_size,
                next_file_id: 0,
                next_free_block: None,
                files: HashMap::new(),
                free_extents: Vec::new(),
                outbox: Vec::new(),
                disk: Ghost(|b: int| Seq::empty()),
                flushed: Ghost(|b: int| Seq::empty()),
                start: Ghost(0),
            },
        )
    }

    pub fn block_size(&self) -> (r: usize)
        requires
            self.inv(),
        ensures
            r == self.size(),
            r >= 64,
    {
        self.block_size
    }

    /// Whether the start of the anonymous region is known.
    pub fn anon_region_known(&self) -> (r: bool)
        ensures
            r == self.frontier() is Some,
    {
        self.next_free_block.is_some()
    }

    /// Tells where the anonymous region starts; only the first call counts.
    pub fn init_anon_region(&mut self, start: u64)
        requires
            old(self).inv(),
        ensures
            final(self).inv(),
            final(self).frontier() == Some(
                match old(self).frontier() {
                    Some(b) => b,
                    None => start,
                },
            ),
            final(self).region_start() == Some(
                match old(self).region_start() {
                    Some(b) => b,
                    None => start,
                },
            ),
            final(self).pending() == old(self).pending(),
            final(self).free() == old(self).free(),
            final(self).disk() == old(self).disk(),
            old(self).same_all(final(self)),
            final(self).names_given() == old(self).names_given(),
    {
        if self.next_free_block.is_none() {
            self.next_free_block = Some(start);
            proof {
                self.start@ = start;
            }
        }
        proof {
            self.lemma_same_layout(old(self));
        }
    }

    proof fn lemma_same_layout(&self, other: &TempStorageManager)
        requires
            self.block_size == other.block_size,
            self.files@ == other.files@,
            self.disk@ == other.disk@,
        ensures
            self.layout() == other.layout(),
            other.same_files(self),
    {
        assert(self.layout() =~= other.layout());
        assert forall|g: u64| #[trigger] other.same_file(self, g) by {
            assert(other.pages(g) =~= self.pages(g));
        }
    }

    /// Where no writes are queued, the disk holds what was written.
    pub proof fn lemma_nothing_pending(&self)
        requires
            self.inv(),
            self.pending().len() == 0,
        ensures
            self.flushed() == self.disk(),
    {
    }

    /// Hands out the queued writes.
    pub fn take_writes(&mut self) -> (r: Vec<DiskWrite>)
        requires
            old(self).inv(),
        ensures
            final(self).inv(),
            r@ == old(self).pending(),
            final(self).pending() == Seq::<DiskWrite>::empty(),
            final(self).frontier() == old(self).frontier(),
            final(self).free() == old(self).free(),
            final(self).disk() == old(self).disk(),
            final(self).flushed() == old(self).disk(),
            old(self).disk() == disk_after_all(
                old(self).flushed(),
                r@,
                old(self).size() as int,
            ),
            old(self).same_files(final(self)),
            final(self).region_start() == old(self).region_start(),
            final(self).names_given() == old(self).names_given(),
    {
        let mut out: Vec<DiskWrite> = Vec::new();
        out.append(&mut self.outbox);
        proof {
            self.flushed@ = self.disk@;
            self.lemma_same_layout(old(self));
        }
        out
    }

    /// Makes an empty file under a new name.
    pub fn create_temp_file(&mut self) -> (r: Result<TempFileId, DbError>)
        requires
            old(self).inv(),
        ensures
            final(self).inv(),
            r is Ok <==> old(self).names_given() < u64::MAX,
            r matches Ok(id) ==> {
                &&& id.0 == old(self).names_given()
                &&& final(self).names_given() == old(self).names_given() + 1
                &&& !old(self).has_file(id.0)
                &&& final(self).has_file(id.0)
                &&& final(self).pages(id.0) == Seq::<Seq<u8>>::empty()
                &&& final(self).extents(id.0) == Seq::<BlockRange>::empty()
                &&& old(self).same_but(final(self), id.0)
            },
            r is Err ==> r->Err_0 is TooManyTempFiles && old(self).same_all(final(self))
                && final(self).names_given() == old(self).names_given(),
            final(self).pending() == old(self).pending(),
            final(self).region_start() == old(self).region_start(),
            final(self).frontier() == old(self).frontier(),
            final(self).free() == old(self).free(),
            final(self).disk() == old(self).disk(),
    {
        if self.next_file_id == u64::MAX {
            return Err(DbError::TooManyTempFiles);
        }
        let id: u64 = self.next_file_id;
        self.next_file_id = id + 1;
        proof {
            assert(!old(self).files@.dom().contains(id));
        }
        let extents: Vec<BlockRange> = Vec::new();
        self.files.insert(id, TempFileMeta { extents, num_pages: 0 });
        proof {
            assert(self.layout() =~= old(self).layout().insert(id, extents@));
            assert(self.extents(id) =~= Seq::<BlockRange>::empty());
            assert(self.pages(id) =~= Seq::<Seq<u8>>::empty());
            assert forall|f: u64, i: int| #[trigger]
                is_extent(self.layout(), f, i) implies is_extent(old(self).layout(), f, i)
                && self.layout()[f][i] == old(self).layout()[f][i] by {
                assert(f != id);
            }
            assert forall|g: u64| g != id implies #[trigger] old(self).same_file(self, g) by {
                assert(old(self).pages(g) =~= self.pages(g));
            }
        }
        Ok(TempFileId(id))
    }

    /// Deletes a file; its extents become free.
    pub fn delete_temp_file(&mut self, file_id: TempFileId) -> (r: Result<(), DbError>)
        requires
            old(self).inv(),
        ensures
            final(self).inv(),
            r is Ok <==> old(self).has_file(file_id.0),
            r is Ok ==> !final(self).has_file(file_id.0) && final(self).free() == old(self).free()
                + old(self).extents(file_id.0),
            r is Err ==> r->Err_0 == DbError::UnknownTempFile(file_id.0) && old(self).same_all(
                final(self),
            ) && final(self).free() == old(self).free(),
            old(self).same_but(final(self), file_id.0),
            final(self).pending() == old(self).pending(),
            final(self).region_start() == old(self).region_start(),
            final(self).frontier() == old(self).frontier(),
            final(self).disk() == old(self).disk(),
            final(self).names_given() == old(self).names_given(),
    {
        let mut meta = match self.files.remove(&file_id.0) {
            Some(m) => m,
            None => {
                proof {
                    assert(self.files@ =~= old(self).files@);
                    self.lemma_same_layout(old(self));
                }
                return Err(DbError::UnknownTempFile(file_id.0));
            },
        };
        let ghost gone = meta.extents@;
        let ghost f0 = file_id.0;
        self.free_extents.append(&mut meta.extents);
        proof {
            let before = old(self).layout();
            assert(self.files@ =~= old(self).files@.remove(f0));
            assert(self.layout() =~= before.remove(f0));
            assert(gone == before[f0]);
            assert(self.free() =~= old(self).free() + gone);
            let n = old(self).free().len() as int;
            assert forall|f: u64, i: int| #[trigger]
                is_extent(self.layout(), f, i) implies is_extent(before, f, i) && self.layout()[f][i]
                == before[f][i] && f != f0 by {}
            assert forall|k: int| n <= k < self.free().len() implies #[trigger] self.free()[k]
                == before[f0][k - n] && is_extent(before, f0, k - n) by {}
            assert forall|f: u64, i: int, k: int|
                #![trigger is_extent(self.layout(), f, i), self.free()[k]]
                is_extent(self.layout(), f, i) && 0 <= k < self.free().len() implies apart(
                self.layout()[f][i],
                self.free()[k],
            ) by {
                if k < n {
                    assert(self.free()[k] == old(self).free()[k]);
                } else {
                    assert(is_extent(before, f0, k - n));
                    assert(is_extent(before, f, i));
                }
            }
            assert forall|k: int, m: int|
                #![trigger self.free()[k], self.free()[m]]
                0 <= k < m < self.free().len() implies apart(self.free()[k], self.free()[m]) by {
                if m < n {
                    assert(self.free()[k] == old(self).free()[k]);
                    assert(self.free()[m] == old(self).free()[m]);
                } else if k < n {
                    assert(self.free()[k] == old(self).free()[k]);
                    assert(is_extent(before, f0, m - n));
                } else {
                    assert(is_extent(before, f0, k - n));
                    assert(is_extent(before, f0, m - n));
                }
            }
            assert forall|k: int| 0 <= k < self.free().len() implies below(
                #[trigger] self.free()[k],
                self.frontier(),
            ) by {
                if k < n {
                    assert(self.free()[k] == old(self).free()[k]);
                } else {
                    assert(is_extent(before, f0, k - n));
                }
            }
            assert forall|g: u64| g != f0 implies #[trigger] old(self).same_file(self, g) by {
                assert(old(self).pages(g) =~= self.pages(g));
            }
        }
        Ok(())
    }

    /// The number of pages of a file.
    pub fn num_pages(&self, file_id: TempFileId) -> (r: Result<u64, DbError>)
        requires
            self.inv(),
        ensures
            r is Ok <==> self.has_file(file_id.0),
            r is Ok ==> r->Ok_0 == self.page_count(file_id.0),
            r is Err ==> r->Err_0 == DbError::UnknownTempFile(file_id.0),
    {
        match self.files.get(&file_id.0) {
            Some(meta) => {
                assert(self.files@.dom().contains(file_id.0));
                Ok(meta.num_pages)
            },
            None => Err(DbError::UnknownTempFile(file_id.0)),
        }
    }
}

/// The free extents once `num` blocks of the one at `pos` are taken: the last one is in its place,
/// and what is left of it comes last.
pub open spec fn free_after(free: Seq<BlockRange>, pos: int, num: int) -> Seq<BlockRange> {
    let others = free.update(pos, free.last()).drop_last();
    if free[pos].num_blocks > num {
        others.push(
            BlockRange {
                start_block: (free[pos].start_block + num) as u64,
                num_blocks: (free[pos].num_blocks - num) as u64,
            },
        )
    } else {
        others
    }
}

/// Where the free extent at index `k` of `free_after` was before.
spec fn free_origin(free: Seq<BlockRange>, pos: int, k: int) -> int {
    if k >= free.len() - 1 {
        pos
    } else if k == pos {
        free.len() - 1
    } else {
        k
    }
}

proof fn lemma_free_behind(free: Seq<BlockRange>, pos: int, num: u64, start: u64)
    requires
        0 <= pos < free.len(),
        0 < num <= free[pos].num_blocks,
        free[pos].end() <= u64::MAX,
        forall|k: int| 0 <= k < free.len() ==> start <= (#[trigger] free[k]).start_block,
    ensures
        forall|k: int|
            0 <= k < free_after(free, pos, num as int).len() ==> start <= (#[trigger] free_after(
                free,
                pos,
                num as int,
            )[k]).start_block,
{
    let after = free_after(free, pos, num as int);
    assert forall|k: int| 0 <= k < after.len() implies start <= (#[trigger] after[k]).start_block by {
        let m = free_origin(free, pos, k);
        assert(start <= free[m].start_block);
        if m != pos {
            assert(after[k] == free[m]);
        }
    }
}

proof fn lemma_space_reuse(
    layout: Map<u64, Seq<BlockRange>>,
    free: Seq<BlockRange>,
    frontier: Option<u64>,
    f: u64,
    pos: int,
    num: u64,
)
    requires
        space_ok(layout, free, frontier),
        layout.dom().contains(f),
        0 <= pos < free.len(),
        0 < num <= free[pos].num_blocks,
    ensures
        ({
            let e = BlockRange { start_block: free[pos].start_block, num_blocks: num };
            space_ok(
                layout.insert(f, layout[f].push(e)),
                free_after(free, pos, num as int),
                frontier,
            )
        }),
{
    let e = BlockRange { start_block: free[pos].start_block, num_blocks: num };
    let layout2 = layout.insert(f, layout[f].push(e));
    let free2 = free_after(free, pos, num as int);
    assert(below(free[pos], frontier));
    assert forall|g: u64, j: int| #[trigger] is_extent(layout2, g, j) implies (is_extent(
        layout,
        g,
        j,
    ) && layout2[g][j] == layout[g][j]) || (g == f && j == layout[f].len() && layout2[g][j]
        == e) by {
        if g == f && j < layout[f].len() {
            assert(is_extent(layout, g, j));
        }
    }
    assert forall|k: int| 0 <= k < free2.len() implies ({
        let m = free_origin(free, pos, k);
        &&& 0 <= m < free.len()
        &&& m != pos ==> #[trigger] free2[k] == free[m]
        &&& m == pos ==> k == free2.len() - 1 && free2[k].start_block == free[pos].start_block
            + num && free2[k].end() == free[pos].end() && free2[k].num_blocks > 0
    }) by {}
    assert forall|k: int| 0 <= k < free2.len() implies apart(e, #[trigger] free2[k]) && below(
        free2[k],
        frontier,
    ) by {
        let m = free_origin(free, pos, k);
        if m < pos {
            assert(apart(free[m], free[pos]));
        } else if m > pos {
            assert(apart(free[pos], free[m]));
        }
        assert(below(free[m], frontier));
    }
    assert forall|g: u64, i: int, h: u64, j: int|
        #![trigger is_extent(layout2, g, i), is_extent(layout2, h, j)]
        is_extent(layout2, g, i) && is_extent(layout2, h, j) && (g != h || i != j) implies apart(
        layout2[g][i],
        layout2[h][j],
    ) by {
        if g == f && i == layout[f].len() {
            assert(is_extent(layout, h, j));
            assert(apart(layout[h][j], free[pos]));
        } else if h == f && j == layout[f].len() {
            assert(is_extent(layout, g, i));
            assert(apart(layout[g][i], free[pos]));
        } else {
            assert(is_extent(layout, g, i) && is_extent(layout, h, j));
        }
    }
    assert forall|g: u64, i: int, k: int|
        #![trigger is_extent(layout2, g, i), free2[k]]
        is_extent(layout2, g, i) && 0 <= k < free2.len() implies apart(
        layout2[g][i],
        free2[k],
    ) by {
        let m = free_origin(free, pos, k);
        if g == f && i == layout[f].len() {
            assert(apart(e, free2[k]));
        } else {
            assert(is_extent(layout, g, i));
            assert(apart(layout[g][i], free[m]));
        }
    }
    assert forall|k: int, l: int|
        #![trigger free2[k], free2[l]]
        0 <= k < l < free2.len() implies apart(free2[k], free2[l]) by {
        let a = free_origin(free, pos, k);
        let b = free_origin(free, pos, l);
        assert(a != b);
        assert(apart(free[a], free[b])) by {
            if a < b {
                assert(apart(free[a], free[b]));
            } else {
                assert(apart(free[b], free[a]));
            }
        }
    }
    assert forall|g: u64, i: int| #[trigger] is_extent(layout2, g, i) implies below(
        layout2[g][i],
        frontier,
    ) by {
        if !(g == f && i == layout[f].len()) {
            assert(is_extent(layout, g, i));
        }
    }
}

proof fn lemma_space_grow(
    layout: Map<u64, Seq<BlockRange>>,
    free: Seq<BlockRange>,
    frontier: u64,
    f: u64,
    num: u64,
)
    requires
        space_ok(layout, free, Some(frontier)),
        layout.dom().contains(f),
        num > 0,
        frontier + num <= u64::MAX,
    ensures
        ({
            let e = BlockRange { start_block: frontier, num_blocks: num };
            space_ok(
                layout.insert(f, layout[f].push(e)),
                free,
                Some((frontier + num) as u64),
            )
        }),
{
    let e = BlockRange { start_block: frontier, num_blocks: num };
    let layout2 = layout.insert(f, layout[f].push(e));
    assert forall|g: u64, j: int| #[trigger] is_extent(layout2, g, j) implies (is_extent(
        layout,
        g,
        j,
    ) && layout2[g][j] == layout[g][j]) || (g == f && j == layout[f].len() && layout2[g][j]
        == e) by {
        if g == f && j < layout[f].len() {
            assert(is_extent(layout, g, j));
        }
    }
    assert forall|g: u64, i: int, h: u64, j: int|
        #![trigger is_extent(layout2, g, i), is_extent(layout2, h, j)]
        is_extent(layout2, g, i) && is_extent(layout2, h, j) && (g != h || i != j) implies apart(
        layout2[g][i],
        layout2[h][j],
    ) by {
        if g == f && i == layout[f].len() {
            assert(is_extent(layout, h, j));
        } else if h == f && j == layout[f].len() {
            assert(is_extent(layout, g, i));
        } else {
            assert(is_extent(layout, g, i) && is_extent(layout, h, j));
        }
    }
    assert forall|g: u64, i: int, k: int|
        #![trigger is_extent(layout2, g, i), free[k]]
        is_extent(layout2, g, i) && 0 <= k < free.len() implies apart(layout2[g][i], free[k]) by {
        assert(below(free[k], Some(frontier)));
        if !(g == f && i == layout[f].len()) {
            assert(is_extent(layout, g, i));
        }
    }
    assert forall|g: u64, i: int| #[trigger] is_extent(layout2, g, i) implies below(
        layout2[g][i],
        Some((frontier + num) as u64),
    ) by {
        if !(g == f && i == layout[f].len()) {
            assert(is_extent(layout, g, i));
        }
    }
    assert forall|k: int| 0 <= k < free.len() implies below(
        #[trigger] free[k],
        Some((frontier + num) as u64),
    ) by {
        assert(below(free[k], Some(frontier)));
    }
}

/// Two pages of files never share a block.
pub proof fn pages_do_not_share_blocks(
    storage: &TempStorageManager,
    f: u64,
    i: int,
    g: u64,
    j: int,
)
    requires
        storage.inv(),
        storage.has_file(f),
        storage.has_file(g),
        0 <= i < storage.page_count(f),
        0 <= j < storage.page_count(g),
        f != g || i != j,
    ensures
        block_at(storage.extents(f), i) != block_at(storage.extents(g), j),
{
    let a = lemma_block_at_inside(storage.extents(f), i);
    let b = lemma_block_at_inside(storage.extents(g), j);
    assert(is_extent(storage.layout(), f, a));
    assert(is_extent(storage.layout(), g, b));
}

/// A page never lies before the start of the region.
pub proof fn pages_lie_in_the_region(storage: &TempStorageManager, f: u64, i: int)
    requires
        storage.inv(),
        storage.has_file(f),
        0 <= i < storage.page_count(f),
    ensures
        storage.region_start() is Some,
        storage.region_start()->0 <= block_at(storage.extents(f), i),
        storage.frontier() is Some,
        block_at(storage.extents(f), i) < storage.frontier()->0,
{
    let a = lemma_block_at_inside(storage.extents(f), i);
    assert(is_extent(storage.layout(), f, a));
    assert(below(storage.layout()[f][a], storage.frontier()));
}

/// A file has a name that was given out, so that no new file has it.
pub proof fn names_were_given(storage: &TempStorageManager, f: u64)
    requires
        storage.inv(),
        storage.has_file(f),
    ensures
        f < storage.names_given(),
{
    assert(storage.files@.dom().contains(f));
}

/// Whether `k` is the smallest free extent of at least `num` blocks, the first of equals.
pub open spec fn is_best_fit(free: Seq<BlockRange>, num: u64, k: int) -> bool {
    &&& 0 <= k < free.len()
    &&& free[k].num_blocks >= num
    &&& forall|m: int|
        0 <= m < free.len() && (#[trigger] free[m]).num_blocks >= num ==> free[k].num_blocks
            <= free[m].num_blocks && (m < k ==> free[k].num_blocks < free[m].num_blocks)
}

/// Whether some free extent has at least `num` blocks.
pub open spec fn some_fits(free: Seq<BlockRange>, num: u64) -> bool {
    exists|m: int| 0 <= m < free.len() && (#[trigger] free[m]).num_blocks >= num
}

/// Finds the best-fitting free extent.
fn best_fit(free: &[BlockRange], num: u64) -> (r: Option<usize>)
    ensures
        match r {
            Some(k) => is_best_fit(free@, num, k as int),
            None => !some_fits(free@, num),
        },
{
    let mut best: Option<usize> = None;
    let mut i: usize = 0;
    while i < free.len()
        invariant
            i <= free@.len(),
            match best {
                Some(k) => k < i && free@[k as int].num_blocks >= num && forall|m: int|
                    0 <= m < i && (#[trigger] free@[m]).num_blocks >= num
                        ==> free@[k as int].num_blocks <= free@[m].num_blocks && (m < k
                        ==> free@[k as int].num_blocks < free@[m].num_blocks),
                None => forall|m: int| 0 <= m < i ==> (#[trigger] free@[m]).num_blocks < num,
            },
        decreases free@.len() - i,
    {
        if free[i].num_blocks >= num {
            match best {
                Some(k) => {
                    if free[i].num_blocks < free[k].num_blocks {
                        best = Some(i);
                    }
                },
                None => {
                    best = Some(i);
                },
            }
        }
        i = i + 1;
    }
    best
}

impl TempStorageManager {
    /// Whether an extent of `num` blocks can be had.
    pub open spec fn has_space(&self, num: u64) -> bool {
        some_fits(self.free(), num) || (self.frontier() is Some && self.frontier()->0 + num
            <= u64::MAX)
    }

    /// Appends an extent of `num` pages to a file: the best-fitting free extent, or new blocks
    /// from the frontier. Gives the first of the pages. What the new pages hold is open.
    pub fn allocate_extent(&mut self, file_id: TempFileId, num: u64) -> (r: Result<
        TempPageId,
        DbError,
    >)
        requires
            old(self).inv(),
        ensures
            final(self).inv(),
            r is Ok <==> num > 0 && old(self).has_file(file_id.0) && old(self).page_count(
                file_id.0,
            ) + num <= u64::MAX && old(self).has_space(num),
            r matches Ok(id) ==> {
                let old_extents = old(self).extents(file_id.0);
                let new_extents = final(self).extents(file_id.0);
                &&& id.file_id == file_id
                &&& id.page_index == old(self).page_count(file_id.0)
                &&& final(self).has_file(file_id.0)
                &&& new_extents.len() == old_extents.len() + 1
                &&& new_extents.last().num_blocks == num
                &&& new_extents == old_extents.push(new_extents.last())
                &&& final(self).page_count(file_id.0) == old(self).page_count(file_id.0) + num
                &&& final(self).pages(file_id.0).take(old(self).page_count(file_id.0) as int)
                    == old(self).pages(file_id.0)
                &&& old(self).gave_space(final(self), new_extents.last().start_block, num)
            },
            r matches Err(e) ==> old(self).same_all(final(self)) && final(self).free() == old(
                self,
            ).free() && final(self).frontier() == old(self).frontier() && e == (if num == 0 {
                DbError::ZeroPageExtent
            } else if !old(self).has_file(file_id.0) {
                DbError::UnknownTempFile(file_id.0)
            } else if old(self).page_count(file_id.0) + num > u64::MAX {
                DbError::PageCountOverflow(file_id.0)
            } else if old(self).frontier() is None {
                DbError::AnonRegionUnknown
            } else {
                DbError::BlockIdOverflow
            }),
            old(self).same_but(final(self), file_id.0),
            final(self).pending() == old(self).pending(),
            final(self).disk() == old(self).disk(),
            final(self).region_start() == old(self).region_start(),
            final(self).names_given() == old(self).names_given(),
    {
        if num == 0 {
            proof {
                self.lemma_same_layout(old(self));
            }
            return Err(DbError::ZeroPageExtent);
        }
        let ghost f = file_id.0;
        let count: u64 = match self.num_pages(file_id) {
            Ok(n) => n,
            Err(e) => {
                proof {
                    self.lemma_same_layout(old(self));
                }
                return Err(e);
            },
        };
        let new_count: u64 = match count.checked_add(num) {
            Some(n) => n,
            None => {
                proof {
                    self.lemma_same_layout(old(self));
                }
                return Err(DbError::PageCountOverflow(file_id.0));
            },
        };
        let start: u64 = match best_fit(self.free_extents.as_slice(), num) {
            Some(pos) => {
                let chosen = self.free_extents.swap_remove(pos);
                proof {
                    assert(chosen == old(self).free()[pos as int]);
                    assert(below(chosen, self.next_free_block));
                    lemma_free_behind(old(self).free(), pos as int, num, old(self).start@);
                    lemma_space_reuse(
                        old(self).layout(),
                        old(self).free(),
                        old(self).frontier(),
                        f,
                        pos as int,
                        num,
                    );
                }
                if chosen.num_blocks > num {
                    self.free_extents.push(
                        BlockRange {
                            start_block: chosen.start_block + num,
                            num_blocks: chosen.num_blocks - num,
                        },
                    );
                }
                proof {
                    assert(self.free() =~= free_after(old(self).free(), pos as int, num as int));
                    assert(some_fits(old(self).free(), num));
                    assert(is_best_fit(old(self).free(), num, pos as int));
                }
                chosen.start_block
            },
            None => {
                let first: u64 = match self.next_free_block {
                    Some(b) => b,
                    None => {
                        proof {
                            self.lemma_same_layout(old(self));
                        }
                        return Err(DbError::AnonRegionUnknown);
                    },
                };
                let next: u64 = match first.checked_add(num) {
                    Some(n) => n,
                    None => {
                        proof {
                            self.lemma_same_layout(old(self));
                        }
                        return Err(DbError::BlockIdOverflow);
                    },
                };
                self.next_free_block = Some(next);
                proof {
                    lemma_space_grow(old(self).layout(), old(self).free(), first, f, num);
                }
                first
            },
        };
        let e = BlockRange { start_block: start, num_blocks: num };
        let mut extents: Vec<BlockRange> = Vec::new();
        match self.files.remove(&file_id.0) {
            Some(meta) => {
                extents = meta.extents;
            },
            None => {},
        }
        proof {
            assert(extents@ == old(self).extents(f));
        }
        extents.push(e);
        self.files.insert(file_id.0, TempFileMeta { extents, num_pages: new_count });
        proof {
            let before = old(self).extents(f);
            assert(self.layout() =~= old(self).layout().insert(f, before.push(e)));
            assert(before.push(e).drop_last() =~= before);
            assert forall|g: u64, i: int| #[trigger] is_extent(self.layout(), g, i) implies self.start@
                <= self.layout()[g][i].start_block by {
                if g != f || i < before.len() {
                    assert(is_extent(old(self).layout(), g, i));
                }
            }
            assert forall|i: int| 0 <= i < total_blocks(before) implies block_at(
                before.push(e),
                i,
            ) == #[trigger] block_at(before, i) by {
                lemma_block_at_push(before, e, i);
            }
            assert(self.pages(f).take(old(self).page_count(f) as int) =~= old(self).pages(f));
            assert forall|g: u64| g != f implies #[trigger] old(self).same_file(self, g) by {
                assert(old(self).pages(g) =~= self.pages(g));
            }
            assert(counts_ok(self.files@, self.next_file_id));
        }
        Ok(TempPageId { file_id, page_index: count })
    }

    /// Appends one page to a file.
    pub fn allocate_page(&mut self, file_id: TempFileId) -> (r: Result<TempPageId, DbError>)
        requires
            old(self).inv(),
        ensures
            final(self).inv(),
            r is Ok <==> old(self).has_file(file_id.0) && old(self).page_count(file_id.0)
                < u64::MAX && old(self).has_space(1),
            r matches Ok(id) ==> id.file_id == file_id && id.page_index == old(self).page_count(
                file_id.0,
            ) && final(self).has_file(file_id.0) && final(self).page_count(file_id.0) == old(
                self,
            ).page_count(file_id.0) + 1 && final(self).pages(file_id.0).take(
                old(self).page_count(file_id.0) as int,
            ) == old(self).pages(file_id.0) && final(self).extents(file_id.0) == old(self).extents(
                file_id.0,
            ).push(final(self).extents(file_id.0).last()) && final(self).extents(
                file_id.0,
            ).last().num_blocks == 1 && old(self).gave_space(
                final(self),
                final(self).extents(file_id.0).last().start_block,
                1,
            ),
            r matches Err(e) ==> old(self).same_all(final(self)) && final(self).free() == old(
                self,
            ).free() && final(self).frontier() == old(self).frontier() && e == (if !old(self).has_file(
                file_id.0,
            ) {
                DbError::UnknownTempFile(file_id.0)
            } else if old(self).page_count(file_id.0) == u64::MAX {
                DbError::PageCountOverflow(file_id.0)
            } else if old(self).frontier() is None {
                DbError::AnonRegionUnknown
            } else {
                DbError::BlockIdOverflow
            }),
            old(self).same_but(final(self), file_id.0),
            final(self).pending() == old(self).pending(),
            final(self).disk() == old(self).disk(),
            final(self).names_given() == old(self).names_given(),
            final(self).region_start() == old(self).region_start(),
    {
        self.allocate_extent(file_id, 1)
    }
}

/// The number of pages from `page` to the end of the extent that holds it.
pub open spec fn run_length(extents: Seq<BlockRange>, page: int) -> int
    decreases extents.len(),
{
    if extents.len() == 0 {
        0
    } else if page >= total_blocks(extents.drop_last()) {
        total_blocks(extents) - page
    } else {
        run_length(extents.drop_last(), page)
    }
}

proof fn lemma_run_length_in_extent(extents: Seq<BlockRange>, i: int, off: int)
    requires
        0 <= i < extents.len(),
        0 <= off < extents[i].num_blocks,
    ensures
        run_length(extents, total_blocks(extents.take(i)) + off) == extents[i].num_blocks - off,
    decreases extents.len(),
{
    lemma_total_take(extents, i);
    let init = extents.drop_last();
    if i == extents.len() - 1 {
        assert(extents.take(i) =~= init);
        assert(extents.take(i + 1) =~= extents);
    } else {
        lemma_run_length_in_extent(init, i, off);
        lemma_block_at_in_extent(init, i, off);
        assert(init.take(i) =~= extents.take(i));
    }
}

/// The blocks of the pages in a run follow one another, and all belong to the file.
pub proof fn lemma_run(extents: Seq<BlockRange>, page: int, k: int)
    requires
        0 <= page < total_blocks(extents),
        0 <= k < run_length(extents, page),
    ensures
        page + k < total_blocks(extents),
        block_at(extents, page + k) == block_at(extents, page) + k,
        run_length(extents, page + k) == run_length(extents, page) - k,
    decreases extents.len(),
{
    let init = extents.drop_last();
    if page < total_blocks(init) {
        lemma_run(init, page, k);
    }
}

proof fn lemma_run_length_positive(extents: Seq<BlockRange>, page: int)
    requires
        0 <= page < total_blocks(extents),
    ensures
        0 < run_length(extents, page) <= total_blocks(extents) - page,
    decreases extents.len(),
{
    let init = extents.drop_last();
    if page < total_blocks(init) {
        lemma_run_length_positive(init, page);
    }
}

/// The pages of a file after a write.
pub open spec fn pages_after(
    pages: Seq<Seq<u8>>,
    first: int,
    num: int,
    data: Seq<u8>,
    size: int,
) -> Seq<Seq<u8>> {
    Seq::new(
        pages.len(),
        |i: int|
            if first <= i < first + num {
                chunk(data, size, i - first)
            } else {
                pages[i]
            },
    )
}

/// What is wrong with a buffer of `len` bytes for `num` pages of `size` bytes, if anything is.
pub open spec fn buffer_error(len: nat, num: u64, size: nat) -> Option<DbError> {
    if num == 0 {
        if len != 0 {
            Some(DbError::BufferForNoPages)
        } else {
            None
        }
    } else if num * size > usize::MAX {
        Some(DbError::BufferSizeOverflow(num))
    } else if len != num * size {
        Some(
            DbError::BufferLengthMismatch {
                len: len as usize,
                num_pages: num,
                block_size: size as usize,
            },
        )
    } else {
        None
    }
}

impl TempStorageManager {
    /// What is wrong with pages `page .. page + num` of a file, if anything is.
    pub open spec fn span_error(&self, f: u64, page: u64, num: u64) -> Option<DbError> {
        if !self.has_file(f) {
            Some(DbError::UnknownTempFile(f))
        } else if page >= self.page_count(f) {
            Some(
                DbError::PageOutOfBounds {
                    page,
                    file: f,
                    num_pages: self.page_count(f) as u64,
                },
            )
        } else if num > run_length(self.extents(f), page as int) {
            Some(DbError::CrossesExtent { num_pages: num, page, file: f })
        } else {
            None
        }
    }

    fn check_buffer(&self, len: usize, num: u64) -> (r: Result<(), DbError>)
        requires
            self.inv(),
        ensures
            match buffer_error(len as nat, num, self.size()) {
                Some(e) => r == Err::<(), DbError>(e),
                None => r is Ok,
            },
    {
        if num == 0 {
            if len != 0 {
                return Err(DbError::BufferForNoPages);
            }
            return Ok(());
        }
        let size: usize = self.block_size;
        proof {
            assert(num * size >= num) by (nonlinear_arith)
                requires
                    size >= 1,
            ;
        }
        if num > usize::MAX as u64 {
            return Err(DbError::BufferSizeOverflow(num));
        }
        match (num as usize).checked_mul(size) {
            None => Err(DbError::BufferSizeOverflow(num)),
            Some(expected) => {
                if len != expected {
                    Err(
                        DbError::BufferLengthMismatch { len, num_pages: num, block_size: size },
                    )
                } else {
                    Ok(())
                }
            },
        }
    }

    /// The block that holds a page, and the length of the run that starts there.
    pub fn locate(&self, file_id: TempFileId, page_index: u64) -> (r: Result<(u64, u64), DbError>)
        requires
            self.inv(),
        ensures
            r is Ok <==> self.has_file(file_id.0) && page_index < self.page_count(file_id.0),
            r matches Ok(p) ==> p.0 == block_at(self.extents(file_id.0), page_index as int) && p.1
                == run_length(self.extents(file_id.0), page_index as int) && p.1 > 0 && p.0 + p.1
                <= u64::MAX,
            r matches Err(e) ==> Some(e) == self.span_error(file_id.0, page_index, 0),
    {
        let ghost f = file_id.0;
        let meta = match self.files.get(&file_id.0) {
            Some(m) => m,
            None => {
                return Err(DbError::UnknownTempFile(file_id.0));
            },
        };
        proof {
            assert(self.files@.dom().contains(f));
            assert(self.extents(f) == meta.extents@);
        }
        if page_index >= meta.num_pages {
            return Err(
                DbError::PageOutOfBounds {
                    page: page_index,
                    file: file_id.0,
                    num_pages: meta.num_pages,
                },
            );
        }
        let mut prefix: u64 = 0;
        let mut i: usize = 0;
        let ghost extents = meta.extents@;
        assert(extents.take(0) =~= Seq::<BlockRange>::empty());
        while i < meta.extents.len()
            invariant
                self.inv(),
                f == file_id.0,
                self.has_file(f),
                i <= extents.len(),
                extents == meta.extents@,
                extents == self.extents(f),
                meta.num_pages == total_blocks(extents),
                prefix == total_blocks(extents.take(i as int)),
                prefix <= page_index < meta.num_pages,
            decreases extents.len() - i,
        {
            let e = meta.extents[i];
            proof {
                lemma_total_take(extents, i as int);
                assert(is_extent(self.layout(), f, i as int));
                assert(below(e, self.frontier()));
            }
            if page_index - prefix < e.num_blocks {
                let off: u64 = page_index - prefix;
                proof {
                    lemma_block_at_in_extent(extents, i as int, off as int);
                    lemma_run_length_in_extent(extents, i as int, off as int);
                }
                return Ok((e.start_block + off, e.num_blocks - off));
            }
            prefix = prefix + e.num_blocks;
            i = i + 1;
        }
        proof {
            assert(extents.take(i as int) =~= extents);
            assert(false);
        }
        Err(DbError::UnknownTempFile(file_id.0))
    }

    /// The blocks to read for consecutive pages of one extent, into a buffer of `len` bytes.
    pub fn read_pages(&self, start_page: TempPageId, num_pages: u64, len: usize) -> (r: Result<
        BlockRange,
        DbError,
    >)
        requires
            self.inv(),
        ensures
            ({
                let f = start_page.file_id.0;
                let wrong = if f >= self.names_given() {
                    Some(DbError::UnknownTempFile(f))
                } else if buffer_error(len as nat, num_pages, self.size()) is Some {
                    buffer_error(len as nat, num_pages, self.size())
                } else if num_pages == 0 {
                    None
                } else {
                    self.span_error(f, start_page.page_index, num_pages)
                };
                match wrong {
                    Some(e) => r == Err::<BlockRange, DbError>(e),
                    None => r matches Ok(range) && range.num_blocks == num_pages && (num_pages > 0
                        ==> forall|i: int|
                        0 <= i < num_pages ==> range.start_block + i == #[trigger] block_at(
                            self.extents(f),
                            start_page.page_index + i,
                        )),
                }
            }),
    {
        if start_page.file_id.0 >= self.next_file_id {
            return Err(DbError::UnknownTempFile(start_page.file_id.0));
        }
        match self.check_buffer(len, num_pages) {
            Ok(_) => {},
            Err(e) => {
                return Err(e);
            },
        }
        if num_pages == 0 {
            return Ok(BlockRange { start_block: 0, num_blocks: 0 });
        }
        self.locate_span(start_page, num_pages)
    }

    fn locate_span(&self, start_page: TempPageId, num_pages: u64) -> (r: Result<
        BlockRange,
        DbError,
    >)
        requires
            self.inv(),
            num_pages > 0,
        ensures
            match self.span_error(start_page.file_id.0, start_page.page_index, num_pages) {
                Some(e) => r == Err::<BlockRange, DbError>(e),
                None => r matches Ok(range) && range.num_blocks == num_pages && range.start_block
                    == block_at(
                    self.extents(start_page.file_id.0),
                    start_page.page_index as int,
                ) && forall|i: int|
                    0 <= i < num_pages ==> range.start_block + i == #[trigger] block_at(
                        self.extents(start_page.file_id.0),
                        start_page.page_index + i,
                    ),
            },
    {
        let (block, left) = match self.locate(start_page.file_id, start_page.page_index) {
            Ok(p) => p,
            Err(e) => {
                return Err(e);
            },
        };
        if num_pages > left {
            return Err(
                DbError::CrossesExtent {
                    num_pages,
                    page: start_page.page_index,
                    file: start_page.file_id.0,
                },
            );
        }
        proof {
            let extents = self.extents(start_page.file_id.0);
            assert forall|i: int| 0 <= i < num_pages implies block + i == #[trigger] block_at(
                extents,
                start_page.page_index + i,
            ) by {
                lemma_run(extents, start_page.page_index as int, i);
            }
        }
        Ok(BlockRange { start_block: block, num_blocks: num_pages })
    }

    /// The block to read for one page, into a buffer of `len` bytes.
    pub fn read_page(&self, page_id: TempPageId, len: usize) -> (r: Result<BlockRange, DbError>)
        requires
            self.inv(),
        ensures
            ({
                let f = page_id.file_id.0;
                let wrong = if f >= self.names_given() {
                    Some(DbError::UnknownTempFile(f))
                } else if buffer_error(len as nat, 1, self.size()) is Some {
                    buffer_error(len as nat, 1, self.size())
                } else {
                    self.span_error(f, page_id.page_index, 1)
                };
                match wrong {
                    Some(e) => r == Err::<BlockRange, DbError>(e),
                    None => r matches Ok(range) && range.num_blocks == 1 && range.start_block
                        == block_at(self.extents(f), page_id.page_index as int),
                }
            }),
    {
        let r = self.read_pages(page_id, 1, len);
        proof {
            if let Ok(range) = r {
                assert(range.start_block + 0 == block_at(
                    self.extents(page_id.file_id.0),
                    page_id.page_index + 0,
                ));
            }
        }
        r
    }

    /// Queues a write of consecutive pages of one extent.
    pub fn write_pages(&mut self, start_page: TempPageId, num_pages: u64, data: &[u8]) -> (r:
        Result<(), DbError>)
        requires
            old(self).inv(),
        ensures
            final(self).inv(),
            ({
                let f = start_page.file_id.0;
                let page = start_page.page_index;
                let wrong = if buffer_error(data@.len(), num_pages, old(self).size())
                    is Some {
                    buffer_error(data@.len(), num_pages, old(self).size())
                } else if num_pages == 0 {
                    None
                } else {
                    old(self).span_error(f, page, num_pages)
                };
                match wrong {
                    Some(e) => r == Err::<(), DbError>(e) && old(self).same_all(final(self))
                        && final(self).pending() == old(self).pending() && final(self).disk()
                        == old(self).disk(),
                    None if num_pages == 0 => r is Ok && old(self).same_all(final(self))
                        && final(self).pending() == old(self).pending() && final(self).disk()
                        == old(self).disk(),
                    None => {
                        let start = block_at(old(self).extents(f), page as int);
                        &&& r is Ok
                        &&& final(self).pending().len() == old(self).pending().len() + 1
                        &&& final(self).pending().drop_last() == old(self).pending()
                        &&& final(self).pending().last().range.start_block == start
                        &&& final(self).pending().last().range.num_blocks == num_pages
                        &&& final(self).pending().last().data@ == data@
                        &&& final(self).disk() == disk_after(
                            old(self).disk(),
                            start,
                            num_pages as int,
                            data@,
                            old(self).size() as int,
                        )
                        &&& final(self).has_file(f)
                        &&& final(self).pages(f) == pages_after(
                            old(self).pages(f),
                            page as int,
                            num_pages as int,
                            data@,
                            old(self).size() as int,
                        )
                    },
                }
            }),
            final(self).layout() == old(self).layout(),
            final(self).free() == old(self).free(),
            final(self).region_start() == old(self).region_start(),
            final(self).frontier() == old(self).frontier(),
            old(self).same_but(final(self), start_page.file_id.0),
            final(self).names_given() == old(self).names_given(),
    {
        let ghost f = start_page.file_id.0;
        proof {
            self.lemma_same_layout(old(self));
        }
        match self.check_buffer(data.len(), num_pages) {
            Ok(_) => {},
            Err(e) => {
                return Err(e);
            },
        }
        if num_pages == 0 {
            return Ok(());
        }
        let range = match self.locate_span(start_page, num_pages) {
            Ok(x) => x,
            Err(e) => {
                return Err(e);
            },
        };
        let copy = vstd::slice::slice_to_vec(data);
        self.outbox.push(DiskWrite { range, data: copy });
        proof {
            let start = range.start_block as int;
            let size = self.block_size as int;
            self.disk@ = disk_after(self.disk@, start, num_pages as int, data@, size);
            assert(self.layout() =~= old(self).layout());
            assert(self.pending().drop_last() =~= old(self).pending());
            assert(self.outbox@.drop_last() =~= old(self).outbox@);
            let page = start_page.page_index as int;
            let extents = old(self).extents(f);
            assert(num_pages <= run_length(extents, page));
            lemma_run_length_positive(extents, page);
            assert forall|i: int| 0 <= i < old(self).page_count(f) implies (start
                <= #[trigger] block_at(extents, i) < start + num_pages <==> page <= i < page
                + num_pages) && (page <= i < page + num_pages ==> block_at(extents, i) == start
                + (i - page)) by {
                if page <= i < page + num_pages {
                    assert(start + (i - page) == block_at(extents, page + (i - page)));
                } else if start <= block_at(extents, i) < start + num_pages {
                    let k = block_at(extents, i) - start;
                    assert(start + k == block_at(extents, page + k));
                    lemma_run(extents, page, k);
                    pages_do_not_share_blocks(old(self), f, i, f, page + k);
                }
            }
            assert(self.pages(f) =~= pages_after(
                old(self).pages(f),
                page,
                num_pages as int,
                data@,
                size,
            )) by {
                assert forall|i: int| 0 <= i < self.page_count(f) implies #[trigger] self.pages(
                    f,
                )[i] == pages_after(old(self).pages(f), page, num_pages as int, data@, size)[i] by {
                    assert(start <= block_at(extents, i) < start + num_pages <==> page <= i < page
                        + num_pages);
                }
            }
            assert forall|g: u64| g != f implies #[trigger] old(self).same_file(self, g) by {
                if old(self).has_file(g) {
                    assert forall|i: int| 0 <= i < old(self).page_count(g) implies old(self).pages(
                        g,
                    )[i] == #[trigger] self.pages(g)[i] by {
                        let b = block_at(old(self).extents(g), i);
                        if start <= b < start + num_pages {
                            let k = b - start;
                            assert(start + k == block_at(extents, page + k));
                            lemma_run(extents, page, k);
                            pages_do_not_share_blocks(old(self), g, i, f, page + k);
                        }
                    }
                    assert(old(self).pages(g) =~= self.pages(g));
                }
            }
        }
        Ok(())
    }

    /// Queues a write of one page.
    pub fn write_page(&mut self, page_id: TempPageId, data: &[u8]) -> (r: Result<(), DbError>)
        requires
            old(self).inv(),
        ensures
            final(self).inv(),
            ({
                let f = page_id.file_id.0;
                let page = page_id.page_index;
                let wrong = if buffer_error(data@.len(), 1, old(self).size()) is Some {
                    buffer_error(data@.len(), 1, old(self).size())
                } else {
                    old(self).span_error(f, page, 1)
                };
                match wrong {
                    Some(e) => r == Err::<(), DbError>(e) && old(self).same_all(final(self))
                        && final(self).pending() == old(self).pending(),
                    None => {
                        let w = final(self).pending().last();
                        &&& r is Ok
                        &&& final(self).has_file(f)
                        &&& final(self).pages(f) == old(self).pages(f).update(page as int, data@)
                        &&& final(self).pending().len() == old(self).pending().len() + 1
                        &&& final(self).pending().drop_last() == old(self).pending()
                        &&& w.range.start_block == block_at(old(self).extents(f), page as int)
                        &&& w.range.num_blocks == 1
                        &&& w.data@ == data@
                    },
                }
            }),
            old(self).same_but(final(self), page_id.file_id.0),
            final(self).layout() == old(self).layout(),
            final(self).free() == old(self).free(),
            final(self).frontier() == old(self).frontier(),
            final(self).names_given() == old(self).names_given(),
            final(self).region_start() == old(self).region_start(),
    {
        let r = self.write_pages(page_id, 1, data);
        proof {
            let f = page_id.file_id.0;
            let page = page_id.page_index as int;
            if r is Ok {
                let size = old(self).size() as int;
                assert(0 * size == 0 && 1 * size == size) by (nonlinear_arith);
                assert(chunk(data@, size, 0) =~= data@);
                assert(self.pages(f) =~= old(self).pages(f).update(page, data@));
            }
        }
        r
    }

    /// Appends pages to a file in one extent.
    pub fn append_pages(&mut self, file_id: TempFileId, num_pages: u64, data: &[u8]) -> (r: Result<
        (),
        DbError,
    >)
        requires
            old(self).inv(),
            num_pages > 0,
            data@.len() == num_pages * old(self).size(),
        ensures
            final(self).inv(),
            r is Ok <==> old(self).has_file(file_id.0) && old(self).page_count(file_id.0)
                + num_pages <= u64::MAX && old(self).has_space(num_pages),
            r is Ok ==> final(self).has_file(file_id.0) && final(self).pages(file_id.0) == old(
                self,
            ).pages(file_id.0) + Seq::new(
                num_pages as nat,
                |i: int| chunk(data@, old(self).size() as int, i),
            ),
            r is Ok ==> {
                let e = final(self).extents(file_id.0).last();
                let w = final(self).pending().last();
                &&& final(self).extents(file_id.0) == old(self).extents(file_id.0).push(e)
                &&& e.num_blocks == num_pages
                &&& old(self).gave_space(final(self), e.start_block, num_pages)
                &&& final(self).pending().len() == old(self).pending().len() + 1
                &&& final(self).pending().drop_last() == old(self).pending()
                &&& w.range == e
                &&& w.data@ == data@
            },
            r matches Err(e) ==> old(self).same_all(final(self)) && final(self).pending() == old(
                self,
            ).pending() && final(self).free() == old(self).free() && final(self).frontier() == old(
                self,
            ).frontier() && e == (if !old(self).has_file(
                file_id.0,
            ) {
                DbError::UnknownTempFile(file_id.0)
            } else if old(self).page_count(file_id.0) + num_pages > u64::MAX {
                DbError::PageCountOverflow(file_id.0)
            } else if old(self).frontier() is None {
                DbError::AnonRegionUnknown
            } else {
                DbError::BlockIdOverflow
            }),
            old(self).same_but(final(self), file_id.0),
            final(self).region_start() == old(self).region_start(),
            final(self).names_given() == old(self).names_given(),
            old(self).frontier() is Some ==> final(self).frontier() is Some,
    {
        let len: usize = data.len();
        let first = match self.allocate_extent(file_id, num_pages) {
            Ok(id) => id,
            Err(e) => {
                return Err(e);
            },
        };
        let ghost f = file_id.0;
        let ghost mid = *self;
        proof {
            let extents = self.extents(f);
            let n = old(self).page_count(f) as int;
            assert(extents.drop_last() =~= old(self).extents(f));
            assert(run_length(extents, n) == num_pages);
            assert(buffer_error(len as nat, num_pages, self.size()) is None);
        }
        let r = self.write_pages(first, num_pages, data);
        proof {
            assert(r is Ok);
            let n = old(self).page_count(f) as int;
            let added = Seq::new(
                num_pages as nat,
                |i: int| chunk(data@, old(self).size() as int, i),
            );
            assert forall|i: int| 0 <= i < n implies mid.pages(f)[i] == #[trigger] old(
                self,
            ).pages(f)[i] by {
                assert(mid.pages(f).take(n)[i] == old(self).pages(f)[i]);
            }
            assert(self.pages(f) =~= old(self).pages(f) + added);
            assert forall|g: u64| g != f implies #[trigger] old(self).same_file(self, g) by {
                assert(old(self).same_file(&mid, g));
                assert(mid.same_file(self, g));
            }
        }
        r
    }
}

/// Whether all files but those in `owned` are as they were.
#[verifier::opaque]
pub open spec fn unharmed(
    before: &TempStorageManager,
    after: &TempStorageManager,
    owned: Set<u64>,
) -> bool {
    &&& before.size() == after.size()
    &&& forall|g: u64|
        before.has_file(g) && !owned.contains(g) ==> #[trigger] before.same_file(after, g)
    &&& before.names_given() <= after.names_given()
    &&& before.frontier() is Some ==> after.frontier() is Some
}

/// Whether all files but those in `owned` are as they were, and no writes were handed out.
pub open spec fn untouched(
    before: &TempStorageManager,
    after: &TempStorageManager,
    owned: Set<u64>,
) -> bool {
    unharmed(before, after, owned) && before.flushed() == after.flushed()
}

/// The most pages that an operator writes or reads at a time.
pub const MAX_BATCH_PAGES: usize = 512;

/// Whether an error is one of storing rows, and the storage cannot take another batch.
pub open spec fn out_of_room(e: DbError, storage: &TempStorageManager) -> bool {
    storage_error(e) && !storage.roomy(MAX_BATCH_PAGES as nat)
}

/// Whether at most so many blocks were taken behind the frontier, and no name was given.
pub open spec fn grew(
    before: &TempStorageManager,
    after: &TempStorageManager,
    pages: nat,
) -> bool {
    &&& after.names_given() == before.names_given()
    &&& before.frontier() matches Some(b) ==> (after.frontier() matches Some(a) && a <= b + pages)
}

/// Whether at most so many blocks were taken behind the frontier, and at most so many names were
/// given.
pub open spec fn grew_by(
    before: &TempStorageManager,
    after: &TempStorageManager,
    pages: nat,
    files: nat,
) -> bool {
    &&& after.names_given() <= before.names_given() + files
    &&& before.frontier() matches Some(b) ==> (after.frontier() matches Some(a) && a <= b + pages)
}

/// Whether no block was taken behind the frontier, and no name was given.
pub open spec fn same_room(before: &TempStorageManager, after: &TempStorageManager) -> bool {
    &&& after.size() == before.size()
    &&& after.frontier() == before.frontier()
    &&& after.names_given() == before.names_given()
}

/// Whether an error is one of storing rows, and the storage cannot take so many pages.
pub open spec fn out_of_pages(e: DbError, storage: &TempStorageManager, pages: nat) -> bool {
    storage_error(e) && !storage.roomy(pages)
}

/// A storage that cannot take another batch could not take so many pages more before.
pub proof fn lemma_out_of_pages(
    e: DbError,
    before: &TempStorageManager,
    after: &TempStorageManager,
    pages: nat,
)
    requires
        out_of_room(e, after),
        before.size() == after.size(),
        grew_by(before, after, pages, 0),
    ensures
        out_of_pages(e, before, pages + MAX_BATCH_PAGES as nat),
{
    let all = pages + MAX_BATCH_PAGES as nat;
    if before.roomy(all) {
        assert(before.size() * MAX_BATCH_PAGES <= before.size() * all) by (nonlinear_arith)
            requires
                MAX_BATCH_PAGES <= all,
        ;
    }
}

/// Whether no file was made.
pub open spec fn no_new_files(before: &TempStorageManager, after: &TempStorageManager) -> bool {
    forall|f: u64| #[trigger] after.has_file(f) ==> before.has_file(f)
}

/// Whether the files that an owner lets go of are gone.
pub open spec fn let_go(before: Set<u64>, after: Set<u64>, storage: &TempStorageManager) -> bool {
    forall|f: u64| #[trigger] before.contains(f) && !after.contains(f) ==> !storage.has_file(f)
}

/// Files that neither of two steps touches are untouched by both together. The second step may
/// also touch files that were made in between.
pub proof fn untouched_twice(
    a: &TempStorageManager,
    b: &TempStorageManager,
    c: &TempStorageManager,
    first: Set<u64>,
    second: Set<u64>,
)
    requires
        unharmed(a, b, first),
        unharmed(b, c, second),
        forall|f: u64| #[trigger] second.contains(f) ==> first.contains(f) || !a.has_file(f),
    ensures
        unharmed(a, c, first),
{
    reveal(unharmed);
    assert forall|g: u64| a.has_file(g) && !first.contains(g) implies #[trigger] a.same_file(
        c,
        g,
    ) by {
        assert(a.same_file(b, g));
        assert(!second.contains(g));
        assert(b.same_file(c, g));
    }
}

/// Touching fewer files leaves more untouched.
pub proof fn untouched_more(
    a: &TempStorageManager,
    b: &TempStorageManager,
    few: Set<u64>,
    many: Set<u64>,
)
    requires
        unharmed(a, b, few),
        forall|f: u64| #[trigger] few.contains(f) && a.has_file(f) ==> many.contains(f),
    ensures
        unharmed(a, b, many),
{
    reveal(unharmed);
    assert forall|g: u64| a.has_file(g) && !many.contains(g) implies #[trigger] a.same_file(
        b,
        g,
    ) by {
        assert(!few.contains(g));
    }
}

/// What being untouched means for one file.
pub proof fn untouched_file(
    a: &TempStorageManager,
    b: &TempStorageManager,
    owned: Set<u64>,
    f: u64,
)
    requires
        unharmed(a, b, owned),
    ensures
        a.size() == b.size(),
        a.names_given() <= b.names_given(),
        a.frontier() is Some ==> b.frontier() is Some,
        a.has_file(f) && !owned.contains(f) ==> a.same_file(b, f),
{
    reveal(unharmed);
}

/// A change of one file touches no other.
pub proof fn untouched_but(a: &TempStorageManager, b: &TempStorageManager, f: u64, owned: Set<u64>)
    requires
        a.same_but(b, f),
        a.has_file(f) ==> owned.contains(f),
        a.names_given() <= b.names_given(),
        a.frontier() is Some ==> b.frontier() is Some,
    ensures
        unharmed(a, b, owned),
{
    reveal(unharmed);
}

/// Nothing is touched where no file changes.
pub proof fn untouched_same(a: &TempStorageManager, b: &TempStorageManager, owned: Set<u64>)
    requires
        a.same_files(b),
        a.names_given() <= b.names_given(),
        a.frontier() is Some ==> b.frontier() is Some,
    ensures
        unharmed(a, b, owned),
{
    reveal(unharmed);
}

} // verus!

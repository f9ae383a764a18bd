//! What a query runs with, and a query that runs.

use vstd::prelude::*;
use crate::answer::answer;
use crate::buffer_manager::BufferManager;
use crate::catalog::TableSpec;
use crate::error::{DbError, storage_error};
use crate::execution::prepare_query;
use crate::memory::{MemoryAccount, QueryMemoryManager};
use crate::pipeline::{Ask, Node, NodeStep, is_result, plan_may_end_with, plan_stores, plan_tests};
use crate::progress::{nearer, nearer_at, nearer_back, not_farther};
use crate::plan::{PlanIssue, PlanTree, plan_columns};
use crate::plan_answer::{keys_agree, named_rows, plan_gives_the_answer, projection_gives_the_answer, projects_last, readable};
use crate::planner::{is_issue, logical_columns, plan_of};
use crate::query::QueryOp;
use crate::scan::{TableFiles, scan_error};
use crate::temp_run::{blocks_of, is_content};
use crate::temp_storage::{DiskWrite, MAX_BATCH_PAGES, TempStorageManager, disk_after_all, untouched_same};
use crate::value::Value;

verus! {

/// The most blocks that the buffer manager keeps.
pub const BUFFER_CAPACITY: usize = 2;

/// What operators work with while a query runs.
pub struct ExecContext {
    pub buffer_manager: BufferManager,
    pub temp_storage: TempStorageManager,
    pub sort_run_bytes: usize,
    pub memory: QueryMemoryManager,
}

impl ExecContext {
    pub open spec fn inv(&self) -> bool {
        &&& self.buffer_manager.inv()
        &&& self.temp_storage.inv()
        &&& self.memory@.inv()
    }

    /// Reserves bytes of the query's memory, where there is room for them.
    pub fn try_reserve_memory(&mut self, bytes: usize) -> (r: Result<(), DbError>)
        requires
            old(self).inv(),
        ensures
            final(self).inv(),
            final(self).buffer_manager == old(self).buffer_manager,
            final(self).temp_storage == old(self).temp_storage,
            final(self).sort_run_bytes == old(self).sort_run_bytes,
            r is Ok <==> old(self).memory@.used + bytes <= old(self).memory@.budget,
            r is Ok ==> final(self).memory@ == (MemoryAccount {
                used: old(self).memory@.used + bytes as nat,
                peak: if old(self).memory@.used + bytes > old(self).memory@.peak {
                    old(self).memory@.used + bytes as nat
                } else {
                    old(self).memory@.peak
                },
                ..old(self).memory@
            }),
            r is Err ==> final(self).memory@ == old(self).memory@,
            r matches Err(e) ==> if old(self).memory@.used + bytes > usize::MAX {
                e == DbError::MemoryAccountingOverflow(bytes)
            } else {
                e matches DbError::MemoryBudgetExceeded { requested, used, budget } && requested
                    == bytes && used as nat == old(self).memory@.used && budget as nat
                    == old(self).memory@.budget
            },
    {
        self.memory.try_reserve(bytes)
    }

    /// Gives bytes of the query's memory back.
    pub fn release_memory(&mut self, bytes: usize)
        requires
            old(self).inv(),
        ensures
            final(self).inv(),
            final(self).buffer_manager == old(self).buffer_manager,
            final(self).temp_storage == old(self).temp_storage,
            final(self).sort_run_bytes == old(self).sort_run_bytes,
            final(self).memory@ == (MemoryAccount {
                used: if bytes <= old(self).memory@.used {
                    (old(self).memory@.used - bytes) as nat
                } else {
                    0
                },
                ..old(self).memory@
            }),
    {
        self.memory.release(bytes);
    }

    pub fn available_memory(&self) -> (r: usize)
        requires
            self.inv(),
        ensures
            r == self.memory@.budget - self.memory@.used,
    {
        self.memory.available_bytes()
    }

    pub fn used_memory(&self) -> (r: usize)
        ensures
            r == self.memory@.used,
    {
        self.memory.used_bytes()
    }

    pub fn memory_budget(&self) -> (r: usize)
        ensures
            r == self.memory@.budget,
    {
        self.memory.budget_bytes()
    }
}

/// The bytes of a number of megabytes; nothing where they are too many to count.
pub fn megabytes(mb: u64) -> (r: Option<u64>)
    ensures
        r == if mb * 1024 * 1024 <= u64::MAX {
            Some((mb * 1024 * 1024) as u64)
        } else {
            None
        },
{
    match mb.checked_mul(1024) {
        Some(kb) => kb.checked_mul(1024),
        None => None,
    }
}

/// How many bytes of rows a sort gathers before it writes them out: four fifths of the memory
/// that the buffers leave; at least a block.
pub open spec fn sort_run_size(memory_limit_bytes: int, block_size: int) -> int {
    let fixed = BUFFER_CAPACITY * block_size;
    let usable = if fixed <= memory_limit_bytes {
        memory_limit_bytes - fixed
    } else {
        0
    };
    if usable * 4 / 5 >= block_size {
        usable * 4 / 5
    } else {
        block_size
    }
}

/// How many bytes the operators of a query may reserve: what the buffers and some slack leave of
/// the memory limit; at least a block. The slack is a sixteenth of the limit, between two and
/// eight megabytes.
pub open spec fn query_budget(memory_limit_bytes: int, block_size: int) -> int {
    let fixed = BUFFER_CAPACITY * block_size;
    let slack = if memory_limit_bytes / 16 < 2097152 {
        2097152
    } else if memory_limit_bytes / 16 > 8388608 {
        8388608
    } else {
        memory_limit_bytes / 16
    };
    if memory_limit_bytes - fixed - slack >= block_size {
        memory_limit_bytes - fixed - slack
    } else {
        block_size
    }
}

/// Tells how many bytes of rows a sort gathers.
pub fn sort_run_bytes_for(memory_limit_bytes: usize, block_size: usize) -> (r: usize)
    ensures
        r == sort_run_size(memory_limit_bytes as int, block_size as int),
{
    let fixed: u128 = (block_size as u128) * 2;
    let limit: u128 = memory_limit_bytes as u128;
    let usable: u128 = if fixed <= limit {
        limit - fixed
    } else {
        0
    };
    let share: u128 = usable * 4 / 5;
    if share >= block_size as u128 {
        share as usize
    } else {
        block_size
    }
}

/// Tells how many bytes the operators of a query may reserve.
pub fn query_budget_for(memory_limit_bytes: usize, block_size: usize) -> (r: usize)
    ensures
        r == query_budget(memory_limit_bytes as int, block_size as int),
{
    let fixed: u128 = (block_size as u128) * 2;
    let limit: u128 = memory_limit_bytes as u128;
    let part: u128 = limit / 16;
    let slack: u128 = if part < 2097152 {
        2097152
    } else if part > 8388608 {
        8388608
    } else {
        part
    };
    if limit >= fixed + slack + block_size as u128 {
        (limit - fixed - slack) as usize
    } else {
        block_size
    }
}

/// A query that runs.
pub struct QueryRun {
    node: Node,
    tables: Vec<TableSpec>,
    ctx: ExecContext,
    plan: Ghost<PlanTree>,
}

impl QueryRun {
    pub closed spec fn tables(&self) -> Seq<TableSpec> {
        self.tables@
    }

    /// What the query runs with.
    pub closed spec fn runs_with(&self) -> ExecContext {
        self.ctx
    }

    /// The plan of the query.
    pub closed spec fn plan(&self) -> PlanTree {
        self.plan@
    }

    /// How much is left to do: whether the start of the anonymous region is still to be told, and
    /// of the operators.
    pub closed spec fn left_to_do(&self) -> Seq<nat> {
        seq![
            if self.frontier() is None {
                1nat
            } else {
                0nat
            },
        ] + self.node.left_to_do()
    }

    /// Whether the blocks of a table's file, as it was told, cannot all be numbered.
    pub closed spec fn out_of_numbers(&self) -> bool {
        self.node.out_of_numbers()
    }

    /// Whether a test on rows that were given out within the query has no answer.
    pub closed spec fn has_undecided(&self) -> bool {
        self.node.has_undecided()
    }

    /// Whether a row that is to be kept in temporary storage does not fit a page.
    pub closed spec fn has_oversized(&self) -> bool {
        self.node.has_oversized(self.ctx.temp_storage.size())
    }

    /// Whether temporary storage can take another batch.
    pub closed spec fn has_room(&self) -> bool {
        self.ctx.temp_storage.roomy(MAX_BATCH_PAGES as nat)
    }

    /// Whether an answer needs no memory, or has rows without strings and there is memory for
    /// them.
    pub closed spec fn affords(&self, data: Seq<u8>) -> bool {
        self.node.affords(data, self.block_size(), self.tables@, self.ctx.memory@)
    }

    /// What is left to do of the operators, where nothing else changes, decides.
    proof fn node_nearer(&self, before: &QueryRun)
        requires
            before.frontier() is Some ==> self.frontier() is Some,
            not_farther(self.node.left_to_do(), before.node.left_to_do()),
        ensures
            not_farther(self.left_to_do(), before.left_to_do()),
            nearer(self.node.left_to_do(), before.node.left_to_do()) ==> nearer(
                self.left_to_do(),
                before.left_to_do(),
            ),
            self.frontier() is Some && before.frontier() is None ==> nearer(
                self.left_to_do(),
                before.left_to_do(),
            ),
    {
        let a = self.node.left_to_do();
        let b = before.node.left_to_do();
        if self.frontier() is Some && before.frontier() is None {
            nearer_at(self.left_to_do(), before.left_to_do(), 0);
        } else if nearer(a, b) {
            nearer_back(self.left_to_do().take(1), a, b);
            assert(self.left_to_do() =~= self.left_to_do().take(1) + a);
            assert(before.left_to_do() =~= self.left_to_do().take(1) + b);
        }
    }

    /// The rows given out so far.
    pub closed spec fn emitted(&self) -> Seq<Seq<Value>> {
        self.node.emitted()
    }

    /// Whether there are no more rows.
    pub closed spec fn done(&self) -> bool {
        self.node.done()
    }

    /// Whether all data that was supplied from temporary storage is what it held.
    pub closed spec fn faithful(&self) -> bool {
        self.node.faithful()
    }

    /// Whether the scans were told where the tables' files lie, and have read what their blocks
    /// hold.
    pub closed spec fn reads_from(&self, files: TableFiles) -> bool {
        self.node.reads_from(files)
    }

    /// The table whose file is asked for.
    pub closed spec fn asks_of(&self) -> int {
        self.node.asks_of()
    }

    /// The blocks of a table that are asked for: the first one, and how many.
    pub closed spec fn wanted(&self) -> (int, nat) {
        self.node.wanted()
    }

    /// Whether `data` is an answer that the scan which asks for blocks can go on with.
    pub closed spec fn accepts(&self, data: Seq<u8>) -> bool {
        self.node.accepts(data, self.block_size(), self.tables@)
    }

    pub closed spec fn asks(&self) -> Option<Ask> {
        self.node.asks()
    }

    pub closed spec fn expects(&self, data: Seq<u8>) -> bool {
        self.node.expects(data)
    }

    /// What temporary storage holds once all writes that were handed out are carried out.
    pub closed spec fn disk(&self) -> spec_fn(int) -> Seq<u8> {
        self.ctx.temp_storage.disk()
    }

    pub closed spec fn block_size(&self) -> int {
        self.ctx.temp_storage.size() as int
    }

    /// The first block of the anonymous region that was never used; `None` before the region's
    /// start is known.
    pub closed spec fn frontier(&self) -> Option<u64> {
        self.ctx.temp_storage.frontier()
    }

    pub closed spec fn inv(&self) -> bool {
        &&& self.ctx.inv()
        &&& self.node.inv(self.tables@, &self.ctx.temp_storage)
        &&& self.node.built_from(self.plan@, self.tables@)
        &&& self.node.reserved() <= self.ctx.memory@.used
        &&& self.ctx.temp_storage.pending().len() == 0
        &&& self.ctx.temp_storage.flushed() == self.ctx.temp_storage.disk()
    }

    /// A query that came to its end, was told where the tables' files lie, and was supplied with
    /// what their blocks and temporary storage hold, has given out a result of its plan for the
    /// contents of the files.
    pub proof fn run_gives_the_result(&self, files: TableFiles)
        requires
            self.inv(),
            self.done(),
            self.faithful(),
            self.reads_from(files),
        ensures
            is_result(self.plan(), self.tables(), files, self.emitted()),
    {
        self.node.pipeline_gives_the_result(
            self.plan@,
            self.tables@,
            &self.ctx.temp_storage,
            files,
        );
    }

    /// A query that came to its end, and was supplied as above, has given out the rows that it
    /// asks for, by the names of their columns and as often. A query that names its columns by a
    /// projection has given out exactly these rows.
    pub proof fn run_answers_the_query(&self, op: QueryOp, files: TableFiles)
        requires
            self.inv(),
            self.done(),
            self.faithful(),
            self.reads_from(files),
            plan_of(self.tables(), op, None) == Ok::<PlanTree, PlanIssue>(self.plan()),
            readable(self.tables(), op, files),
            keys_agree(self.tables(), op, files),
        ensures
            named_rows(plan_columns(self.plan()), self.emitted()) == named_rows(
                logical_columns(self.tables(), op)->Ok_0,
                answer(self.tables(), op, files),
            ),
            projects_last(op) ==> self.emitted().to_multiset() == answer(
                self.tables(),
                op,
                files,
            ).to_multiset(),
    {
        self.run_gives_the_result(files);
        plan_gives_the_answer(self.tables@, op, files, self.emitted());
        if projects_last(op) {
            projection_gives_the_answer(self.tables@, op, files, self.emitted());
        }
    }

    /// Plans a query and makes it ready to run.
    pub fn new(tables: Vec<TableSpec>, root: &QueryOp, ctx: ExecContext) -> (r: Result<
        QueryRun,
        DbError,
    >)
        requires
            ctx.inv(),
            ctx.temp_storage.pending().len() == 0,
        ensures
            match plan_of(tables@, *root, None) {
                Ok(tree) => {
                    &&& r is Ok
                    &&& (r->Ok_0).inv()
                    &&& (r->Ok_0).plan() == tree
                    &&& (r->Ok_0).tables() == tables@
                    &&& (r->Ok_0).emitted().len() == 0
                    &&& (r->Ok_0).faithful()
                    &&& !(r->Ok_0).done()
                    &&& (r->Ok_0).block_size() == ctx.temp_storage.size()
                    &&& (r->Ok_0).frontier() == ctx.temp_storage.frontier()
                    &&& (r->Ok_0).runs_with() == ctx
                    &&& !(r->Ok_0).out_of_numbers()
                    &&& forall|files: TableFiles| #[trigger] (r->Ok_0).reads_from(files)
                },
                Err(issue) => r is Err && is_issue(r->Err_0, issue),
            },
    {
        let node = match prepare_query(tables.as_slice(), root, ctx.sort_run_bytes) {
            Ok(n) => n,
            Err(e) => {
                return Err(e);
            },
        };
        let ghost tree = plan_of(tables@, *root, None)->Ok_0;
        proof {
            assert(node.inv(tables@, &ctx.temp_storage));
            ctx.temp_storage.lemma_nothing_pending();
        }
        Ok(QueryRun { node, tables, ctx, plan: Ghost(tree) })
    }

    /// The name of the file of a table.
    pub fn file_id(&self, table: usize) -> (r: Option<&str>)
        ensures
            match r {
                Some(f) => table < self.tables().len() && f@
                    == self.tables()[table as int].file_id@,
                None => table >= self.tables().len(),
            },
    {
        if table < self.tables.len() {
            Some(self.tables[table].file_id.as_str())
        } else {
            None
        }
    }

    /// What the query runs with.
    pub fn context(&self) -> (r: &ExecContext)
        requires
            self.inv(),
        ensures
            r.inv(),
            *r == self.runs_with(),
    {
        &self.ctx
    }

    /// Does the next piece of work. The writes have to be done before anything is read.
    pub fn step(&mut self) -> (r: Result<(Vec<DiskWrite>, NodeStep), DbError>)
        requires
            old(self).inv(),
        ensures
            r matches Ok(p) ==> {
                &&& final(self).inv()
                &&& final(self).plan() == old(self).plan()
                &&& final(self).tables() == old(self).tables()
                &&& final(self).faithful() == old(self).faithful()
                &&& final(self).block_size() == old(self).block_size()
                &&& final(self).emitted() == match p.1 {
                    NodeStep::Row(row) => old(self).emitted().push(row@),
                    _ => old(self).emitted(),
                }
                &&& match p.1 {
                    NodeStep::AskFile(t) => t < old(self).tables().len() && final(self).asks()
                        == Some(Ask::File) && final(self).asks_of() == t,
                    NodeStep::ReadTable { start, count } => final(self).asks() == Some(Ask::Table)
                        && count > 0 && final(self).wanted() == (start as int, count as nat),
                    NodeStep::ReadTemp(ranges) => final(self).asks() == Some(Ask::Temp) && forall|
                        data: Seq<u8>,
                    |
                        is_content(
                            final(self).disk(),
                            blocks_of(ranges@),
                            data,
                            final(self).block_size(),
                        ) ==> #[trigger] final(self).expects(data),
                    NodeStep::NeedAnonStart => final(self).frontier() is None,
                    NodeStep::Done => final(self).done(),
                    _ => true,
                }
                &&& old(self).done() ==> p.1 is Done
                &&& match p.1 {
                    NodeStep::Again | NodeStep::Row(_) => nearer(
                        final(self).left_to_do(),
                        old(self).left_to_do(),
                    ),
                    _ => not_farther(final(self).left_to_do(), old(self).left_to_do()),
                }
                &&& final(self).out_of_numbers() == old(self).out_of_numbers()
                &&& old(self).frontier() is Some ==> final(self).frontier() is Some
                &&& final(self).disk() == disk_after_all(
                    old(self).disk(),
                    p.0@,
                    old(self).block_size(),
                )
                &&& forall|files: TableFiles| #[trigger]
                    final(self).reads_from(files) == old(self).reads_from(files)
            },
            r matches Err(e) ==> !old(self).done() && (old(self).faithful()
                ==> plan_may_end_with(old(self).plan(), old(self).out_of_numbers(), e)),
            r matches Err(e) ==> old(self).faithful() ==> (e is IncomparableValues && final(
                self).has_undecided()) || (storage_error(e) && (final(self).has_oversized()
                || !final(self).has_room())) || (e == DbError::BlockIdOverflow && old(
                self,
            ).out_of_numbers()),
            old(self).faithful() && !plan_stores(old(self).plan()) && !plan_tests(
                old(self).plan(),
            ) && !old(self).out_of_numbers() ==> r is Ok,
    {
        let ghost before = self.node;
        let ghost tables = self.tables@;
        let ghost s0 = self.ctx.temp_storage;
        let block_size: usize = self.ctx.temp_storage.block_size();
        proof {
            before.lemma_ends_as_planned(self.plan@, tables);
        }
        let step = match self.node.step(
            self.tables.as_slice(),
            block_size,
            &mut self.ctx.memory,
            &mut self.ctx.temp_storage,
        ) {
            Ok(s) => s,
            Err(e) => {
                return Err(e);
            },
        };
        let ghost s1 = self.ctx.temp_storage;
        let writes = self.ctx.temp_storage.take_writes();
        proof {
            let none = Set::<u64>::empty();
            let s2 = self.ctx.temp_storage;
            untouched_same(&s1, &s2, none);
            self.node.inv_kept(tables, &s1, &s2, none);
            before.stays_built(&self.node, self.plan@, tables);
            crate::temp_storage::untouched_file(&s0, &s1, before.files(), 0);
            self.node_nearer(old(self));
            if step is ReadTemp {
                let ranges = step->ReadTemp_0;
                assert forall|data: Seq<u8>|
                    is_content(
                        self.disk(),
                        blocks_of(ranges@),
                        data,
                        self.block_size(),
                    ) implies #[trigger] self.expects(data) by {
                    assert(self.node.expects(data));
                }
            }
        }
        Ok((writes, step))
    }

    /// Tells where the anonymous region starts; only the first call counts. What is asked for
    /// stays the same.
    pub fn supply_anon_start(&mut self, start: u64)
        requires
            old(self).inv(),
        ensures
            final(self).inv(),
            final(self).frontier() == Some(
                match old(self).frontier() {
                    Some(b) => b,
                    None => start,
                },
            ),
            old(self).frontier() is None ==> nearer(
                final(self).left_to_do(),
                old(self).left_to_do(),
            ),
            final(self).out_of_numbers() == old(self).out_of_numbers(),
            final(self).asks() == old(self).asks(),
            final(self).asks_of() == old(self).asks_of(),
            final(self).wanted() == old(self).wanted(),
            forall|data: Seq<u8>| #[trigger] final(self).accepts(data) == old(self).accepts(data),
            forall|data: Seq<u8>| #[trigger] final(self).expects(data) == old(self).expects(data),
            final(self).plan() == old(self).plan(),
            final(self).tables() == old(self).tables(),
            final(self).emitted() == old(self).emitted(),
            final(self).faithful() == old(self).faithful(),
            final(self).done() == old(self).done(),
            final(self).block_size() == old(self).block_size(),
            final(self).disk() == old(self).disk(),
            forall|files: TableFiles| #[trigger]
                final(self).reads_from(files) == old(self).reads_from(files),
    {
        let ghost s0 = self.ctx.temp_storage;
        self.ctx.temp_storage.init_anon_region(start);
        proof {
            let none = Set::<u64>::empty();
            let s1 = self.ctx.temp_storage;
            untouched_same(&s0, &s1, none);
            self.node.inv_kept(self.tables@, &s0, &s1, none);
            self.node_nearer(old(self));
        }
    }

    /// Takes the place and the size of the file that was asked for.
    pub fn supply_file(&mut self, file_start: u64, file_blocks: u64) -> (r: Result<(), DbError>)
        requires
            old(self).inv(),
            old(self).asks() == Some(Ask::File),
        ensures
            r is Ok ==> {
                &&& final(self).inv()
                &&& final(self).plan() == old(self).plan()
                &&& final(self).tables() == old(self).tables()
                &&& final(self).emitted() == old(self).emitted()
                &&& final(self).faithful() == old(self).faithful()
                &&& final(self).block_size() == old(self).block_size()
                &&& final(self).disk() == old(self).disk()
                &&& final(self).frontier() == old(self).frontier()
                &&& final(self).asks() is None
                &&& nearer(final(self).left_to_do(), old(self).left_to_do())
                &&& final(self).out_of_numbers() ==> old(self).out_of_numbers() || file_start
                    + file_blocks > u64::MAX
                &&& forall|files: TableFiles|
                    old(self).reads_from(files) && files.lies_at(
                        old(self).asks_of(),
                        file_start,
                        file_blocks,
                    ) ==> #[trigger] final(self).reads_from(files)
            },
            r matches Err(e) ==> e == DbError::BlockIdOverflow && file_start + file_blocks
                > u64::MAX,
    {
        let ghost before = self.node;
        let r = self.node.supply_file(
            file_start,
            file_blocks,
            self.tables.as_slice(),
            &self.ctx.temp_storage,
        );
        proof {
            if r is Ok {
                before.stays_built(&self.node, self.plan@, self.tables@);
                self.node_nearer(old(self));
            }
        }
        r
    }

    /// Takes the contents of the blocks of a table that were asked for.
    pub fn supply_table(&mut self, data: &[u8]) -> (r: Result<(), DbError>)
        requires
            old(self).inv(),
            old(self).asks() == Some(Ask::Table),
        ensures
            r is Ok ==> {
                &&& final(self).inv()
                &&& final(self).plan() == old(self).plan()
                &&& final(self).tables() == old(self).tables()
                &&& final(self).emitted() == old(self).emitted()
                &&& final(self).faithful() == old(self).faithful()
                &&& final(self).block_size() == old(self).block_size()
                &&& final(self).disk() == old(self).disk()
                &&& final(self).frontier() == old(self).frontier()
                &&& final(self).asks() is None
                &&& nearer(final(self).left_to_do(), old(self).left_to_do())
                &&& final(self).out_of_numbers() == old(self).out_of_numbers()
                &&& forall|files: TableFiles|
                    old(self).reads_from(files) && files.holds(
                        old(self).wanted(),
                        data@,
                        old(self).block_size(),
                    ) ==> #[trigger] final(self).reads_from(files)
                &&& old(self).accepts(data@)
            },
            old(self).accepts(data@) && old(self).affords(data@) ==> r is Ok,
            r matches Err(e) ==> scan_error(e) && (old(self).accepts(data@)
                ==> e is MemoryBudgetExceeded || e is MemoryAccountingOverflow),
    {
        let ghost before = self.node;
        let block_size: usize = self.ctx.temp_storage.block_size();
        let r = self.node.supply_table(
            data,
            block_size,
            self.tables.as_slice(),
            &mut self.ctx.memory,
            &self.ctx.temp_storage,
        );
        proof {
            if r is Ok {
                before.stays_built(&self.node, self.plan@, self.tables@);
                self.node_nearer(old(self));
            }
        }
        r
    }

    /// Takes the contents of the blocks of temporary storage that were asked for.
    pub fn supply_temp(&mut self, data: Vec<u8>) -> (r: Result<(), DbError>)
        requires
            old(self).inv(),
            old(self).asks() == Some(Ask::Temp),
        ensures
            r is Ok ==> {
                &&& final(self).inv()
                &&& final(self).plan() == old(self).plan()
                &&& final(self).tables() == old(self).tables()
                &&& final(self).emitted() == old(self).emitted()
                &&& final(self).faithful() == (old(self).faithful() && old(self).expects(data@))
                &&& final(self).block_size() == old(self).block_size()
                &&& final(self).disk() == old(self).disk()
                &&& final(self).frontier() == old(self).frontier()
                &&& final(self).asks() is None
                &&& nearer(final(self).left_to_do(), old(self).left_to_do())
                &&& final(self).out_of_numbers() == old(self).out_of_numbers()
                &&& forall|files: TableFiles| #[trigger]
                    final(self).reads_from(files) == old(self).reads_from(files)
            },
            old(self).expects(data@) ==> r is Ok,
    {
        let ghost before = self.node;
        let r = self.node.supply_temp(data, self.tables.as_slice(), &self.ctx.temp_storage);
        proof {
            if r is Ok {
                before.stays_built(&self.node, self.plan@, self.tables@);
                self.node_nearer(old(self));
            }
        }
        r
    }
}

} // verus!

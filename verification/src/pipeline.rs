//! Operators put together: a tree that gives out the rows of a plan.

use vstd::multiset::Multiset;
use vstd::prelude::*;
use crate::binary_join::lemma_fresh_join;
use crate::block_decode::kept_count;
use crate::catalog::{TableSpec, table_at, table_index, types_of};
use crate::error::{DbError, storage_error};
use crate::filter::{FilterOperator, FilterStep, Test, all_read_within, first_missing_column, resolved, row_passes};
use crate::join_builder::{JoinOperator, build_join, joined_on, missing_for_join};
use crate::join_spec::join_of;
use crate::join_step::{JoinStep, Side};
use crate::memory::{MemoryAccount, QueryMemoryManager};
use crate::ordering::{SortKey, sortable, sorted};
use crate::plan::{Plan, PlanTree, ScanPlan, pair_names, plan_columns, sort_pairs, tree_of};
use crate::project::ProjectOperator;
use crate::query::{Condition, conditions};
use crate::progress::{nearer, nearer_back, nearer_front, nearer_twice, not_farther};
use crate::row::{Row, all_present, column_position, column_positions, in_bounds, pick};
use crate::scan::{ScanOperator, ScanStep, TableFiles, blocks_in, rows_of_blocks, scan_error};
use crate::sort::{SortOperator, SortStep, sort_keys_of, spec_names};
use crate::temp_run::{all_fit, blocks_of, is_content};
use crate::temp_storage::{BlockRange, MAX_BATCH_PAGES, TempStorageManager, unharmed, untouched, untouched_file, untouched_more, untouched_same, untouched_twice};
use crate::value::Value;
use crate::views::positions;
use crate::join_table::{decided, lemma_no_tests_decided};

verus! {

/// What a tree of operators asks for or gives.
#[derive(Debug)]
pub enum NodeStep {
    /// The place and the size of the file of this table are to be told.
    AskFile(usize),
    /// These blocks of a table are to be read and supplied.
    ReadTable { start: u64, count: u64 },
    /// These blocks of temporary storage are to be read and supplied.
    ReadTemp(Vec<BlockRange>),
    /// The start of the anonymous region is to be told to the storage.
    NeedAnonStart,
    /// Work was done; another step is to be made.
    Again,
    /// A row of the result.
    Row(Row),
    /// There are no more rows.
    Done,
}

/// What a tree of operators waits for.
pub enum Ask {
    File,
    Table,
    Temp,
}

/// Which part of a node waits.
#[derive(Clone, Copy, Debug, PartialEq, Eq, Structural)]
enum Pending {
    Nothing,
    Own,
    First,
    Second,
}

pub struct ScanNode {
    op: ScanOperator,
    table: usize,
}

pub struct FilterNode {
    op: FilterOperator,
    input: Box<Node>,
    done: bool,
    emitted: Ghost<Seq<Seq<Value>>>,
}

pub struct ProjectNode {
    op: ProjectOperator,
    input: Box<Node>,
    done: bool,
    emitted: Ghost<Seq<Seq<Value>>>,
}

pub struct JoinNode {
    op: JoinOperator,
    left: Box<Node>,
    right: Box<Node>,
    pending: Pending,
    emitted: Ghost<Seq<Seq<Value>>>,
}

pub struct SortNode {
    op: SortOperator,
    input: Box<Node>,
    pending: Pending,
}

/// An operator and its inputs.
pub enum Node {
    Scan(ScanNode),
    Filter(FilterNode),
    Project(ProjectNode),
    Join(JoinNode),
    Sort(SortNode),
}

/// The rows that pass all tests, in their order.
pub open spec fn passing(ts: Seq<Test>, rows: Seq<Seq<Value>>) -> Seq<Seq<Value>>
    decreases rows.len(),
{
    if rows.len() == 0 {
        Seq::empty()
    } else if row_passes(ts, rows.last()) == Some(true) {
        passing(ts, rows.drop_last()).push(rows.last())
    } else {
        passing(ts, rows.drop_last())
    }
}

/// The rows with some of their columns, in their order.
pub open spec fn picked(at: Seq<int>, rows: Seq<Seq<Value>>) -> Seq<Seq<Value>> {
    rows.map_values(|r: Seq<Value>| pick(r, at))
}

impl Node {
    /// How many operators are stacked up.
    pub closed spec fn depth(&self) -> nat
        decreases self,
    {
        match self {
            Node::Scan(_) => 0,
            Node::Filter(n) => 1 + n.input.depth(),
            Node::Project(n) => 1 + n.input.depth(),
            Node::Join(n) => 1 + n.left.depth() + n.right.depth(),
            Node::Sort(n) => 1 + n.input.depth(),
        }
    }

    /// How much is left to do: of the inputs first, for an operator has work as long as they
    /// have rows.
    pub closed spec fn left_to_do(&self) -> Seq<nat>
        decreases self,
    {
        match self {
            Node::Scan(n) => n.op.left_to_do(),
            Node::Filter(n) => n.input.left_to_do(),
            Node::Project(n) => n.input.left_to_do(),
            Node::Join(n) => (n.left.left_to_do() + n.right.left_to_do()) + n.op.left_to_do(),
            Node::Sort(n) => n.input.left_to_do() + n.op.left_to_do(),
        }
    }

    /// Whether the blocks of a table's file, as it was told, cannot all be numbered.
    pub closed spec fn out_of_numbers(&self) -> bool
        decreases self,
    {
        match self {
            Node::Scan(n) => n.op.started() && n.op.file().0 + n.op.file().1 > u64::MAX,
            Node::Filter(n) => n.input.out_of_numbers(),
            Node::Project(n) => n.input.out_of_numbers(),
            Node::Join(n) => n.left.out_of_numbers() || n.right.out_of_numbers(),
            Node::Sort(n) => n.input.out_of_numbers(),
        }
    }

    /// The temporary files of the operators.
    pub closed spec fn files(&self) -> Set<u64>
        decreases self,
    {
        match self {
            Node::Scan(_) => Set::empty(),
            Node::Filter(n) => n.input.files(),
            Node::Project(n) => n.input.files(),
            Node::Join(n) => n.op.files().union(n.left.files()).union(n.right.files()),
            Node::Sort(n) => n.op.files().union(n.input.files()),
        }
    }

    /// The bytes that the operators have reserved.
    pub closed spec fn reserved(&self) -> nat
        decreases self,
    {
        match self {
            Node::Scan(n) => n.op.reserved(),
            Node::Filter(n) => n.input.reserved(),
            Node::Project(n) => n.input.reserved(),
            Node::Join(n) => n.left.reserved() + n.right.reserved(),
            Node::Sort(n) => n.input.reserved(),
        }
    }

    /// The rows given out so far.
    pub closed spec fn emitted(&self) -> Seq<Seq<Value>> {
        match self {
            Node::Scan(n) => n.op.emitted(),
            Node::Filter(n) => n.emitted@,
            Node::Project(n) => n.emitted@,
            Node::Join(n) => n.emitted@,
            Node::Sort(n) => n.op.emitted(),
        }
    }

    /// Whether there are no more rows.
    pub closed spec fn done(&self) -> bool {
        match self {
            Node::Scan(n) => n.op.ended(),
            Node::Filter(n) => n.done,
            Node::Project(n) => n.done,
            Node::Join(n) => n.op.ended(),
            Node::Sort(n) => n.op.ended(),
        }
    }

    /// Whether all data that was supplied from temporary storage is what it held.
    pub closed spec fn faithful(&self) -> bool
        decreases self,
    {
        match self {
            Node::Scan(_) => true,
            Node::Filter(n) => n.input.faithful(),
            Node::Project(n) => n.input.faithful(),
            Node::Join(n) => n.op.faithful() && n.left.faithful() && n.right.faithful(),
            Node::Sort(n) => n.op.faithful() && n.input.faithful(),
        }
    }

    /// What is waited for.
    pub closed spec fn asks(&self) -> Option<Ask>
        decreases self,
    {
        match self {
            Node::Scan(n) => if !n.op.started() {
                Some(Ask::File)
            } else if n.op.asked() > 0 {
                Some(Ask::Table)
            } else {
                None
            },
            Node::Filter(n) => n.input.asks(),
            Node::Project(n) => n.input.asks(),
            Node::Join(n) => match n.pending {
                Pending::Nothing => None,
                Pending::Own => Some(Ask::Temp),
                Pending::First => n.left.asks(),
                Pending::Second => n.right.asks(),
            },
            Node::Sort(n) => match n.pending {
                Pending::Own => Some(Ask::Temp),
                Pending::First => n.input.asks(),
                _ => None,
            },
        }
    }

    /// Whether `data` is what temporary storage held in the blocks that are asked for.
    pub closed spec fn expects(&self, data: Seq<u8>) -> bool
        decreases self,
    {
        match self {
            Node::Scan(_) => false,
            Node::Filter(n) => n.input.expects(data),
            Node::Project(n) => n.input.expects(data),
            Node::Join(n) => match n.pending {
                Pending::Nothing => false,
                Pending::Own => n.op.expects(data),
                Pending::First => n.left.expects(data),
                Pending::Second => n.right.expects(data),
            },
            Node::Sort(n) => match n.pending {
                Pending::Own => n.op.expects(data),
                Pending::First => n.input.expects(data),
                _ => false,
            },
        }
    }

    /// Whether an operator of the tree tests conditions on rows.
    pub closed spec fn tests_rows(&self) -> bool
        decreases self,
    {
        match self {
            Node::Scan(_) => false,
            Node::Filter(n) => n.op.tests_view().len() > 0 || n.input.tests_rows(),
            Node::Project(n) => n.input.tests_rows(),
            Node::Join(n) => n.op.on().extra.len() > 0 || n.left.tests_rows()
                || n.right.tests_rows(),
            Node::Sort(n) => n.input.tests_rows(),
        }
    }

    /// Whether an operator of the tree keeps rows in temporary storage.
    pub closed spec fn stores_rows(&self) -> bool
        decreases self,
    {
        match self {
            Node::Scan(_) => false,
            Node::Filter(n) => n.input.stores_rows(),
            Node::Project(n) => n.input.stores_rows(),
            Node::Join(_) => true,
            Node::Sort(_) => true,
        }
    }

    /// How many columns the rows have that are given out.
    pub closed spec fn width(&self) -> nat
        decreases self,
    {
        match self {
            Node::Scan(n) => n.op.schema_view().len(),
            Node::Filter(n) => n.input.width(),
            Node::Project(n) => n.op.positions_view().len(),
            Node::Join(n) => n.op.schema_view().len(),
            Node::Sort(n) => n.op.schema_view().len(),
        }
    }

    /// Whether a test on rows that were given out within the tree has no answer.
    pub closed spec fn has_undecided(&self) -> bool
        decreases self,
    {
        match self {
            Node::Scan(_) => false,
            Node::Filter(n) => n.input.has_undecided() || exists|i: int|
                0 <= i < n.input.emitted().len() && row_passes(
                    n.op.tests_view(),
                    #[trigger] n.input.emitted()[i],
                ) is None,
            Node::Project(n) => n.input.has_undecided(),
            Node::Join(n) => n.left.has_undecided() || n.right.has_undecided() || !decided(
                n.op.on(),
                n.op.left_rows(),
                n.op.right_rows(),
            ),
            Node::Sort(n) => n.input.has_undecided(),
        }
    }

    /// Whether a row that was given out to an operator which keeps rows in temporary storage does
    /// not fit a page.
    pub closed spec fn has_oversized(&self, size: nat) -> bool
        decreases self,
    {
        match self {
            Node::Scan(_) => false,
            Node::Filter(n) => n.input.has_oversized(size),
            Node::Project(n) => n.input.has_oversized(size),
            Node::Join(n) => n.left.has_oversized(size) || n.right.has_oversized(size) || !all_fit(
                n.left.emitted(),
                size,
            ) || !all_fit(n.right.emitted(), size),
            Node::Sort(n) => n.input.has_oversized(size) || !all_fit(n.input.emitted(), size),
        }
    }

    /// The table whose file is asked for.
    pub closed spec fn asks_of(&self) -> int
        decreases self,
    {
        match self {
            Node::Scan(n) => n.table as int,
            Node::Filter(n) => n.input.asks_of(),
            Node::Project(n) => n.input.asks_of(),
            Node::Join(n) => match n.pending {
                Pending::First => n.left.asks_of(),
                _ => n.right.asks_of(),
            },
            Node::Sort(n) => n.input.asks_of(),
        }
    }

    /// The blocks of a table that are asked for: the first one, and how many.
    pub closed spec fn wanted(&self) -> (int, nat)
        decreases self,
    {
        match self {
            Node::Scan(n) => n.op.wanted(),
            Node::Filter(n) => n.input.wanted(),
            Node::Project(n) => n.input.wanted(),
            Node::Join(n) => match n.pending {
                Pending::First => n.left.wanted(),
                _ => n.right.wanted(),
            },
            Node::Sort(n) => n.input.wanted(),
        }
    }

    /// Whether the scans were told where the tables' files lie, and have read what their blocks
    /// hold.
    pub closed spec fn reads_from(&self, files: TableFiles) -> bool
        decreases self,
    {
        match self {
            Node::Scan(n) => n.op.reads_from(files, n.table as int),
            Node::Filter(n) => n.input.reads_from(files),
            Node::Project(n) => n.input.reads_from(files),
            Node::Join(n) => n.left.reads_from(files) && n.right.reads_from(files),
            Node::Sort(n) => n.input.reads_from(files),
        }
    }

    /// Whether `data` is an answer that the scan which asks for blocks can go on with.
    pub closed spec fn accepts(&self, data: Seq<u8>, block_size: int, tables: Seq<TableSpec>) -> bool
        decreases self,
    {
        match self {
            Node::Scan(n) => n.op.accepts(data, block_size, tables[n.table as int]),
            Node::Filter(n) => n.input.accepts(data, block_size, tables),
            Node::Project(n) => n.input.accepts(data, block_size, tables),
            Node::Join(n) => match n.pending {
                Pending::First => n.left.accepts(data, block_size, tables),
                Pending::Second => n.right.accepts(data, block_size, tables),
                _ => false,
            },
            Node::Sort(n) => n.input.accepts(data, block_size, tables),
        }
    }

    /// Whether the answer needs no memory, or has rows without strings and there is memory for
    /// them.
    pub closed spec fn affords(
        &self,
        data: Seq<u8>,
        block_size: int,
        tables: Seq<TableSpec>,
        memory: MemoryAccount,
    ) -> bool
        decreases self,
    {
        match self {
            Node::Scan(n) => n.op.affords(data, block_size, tables[n.table as int], memory),
            Node::Filter(n) => n.input.affords(data, block_size, tables, memory),
            Node::Project(n) => n.input.affords(data, block_size, tables, memory),
            Node::Join(n) => match n.pending {
                Pending::First => n.left.affords(data, block_size, tables, memory),
                _ => n.right.affords(data, block_size, tables, memory),
            },
            Node::Sort(n) => n.input.affords(data, block_size, tables, memory),
        }
    }

    pub closed spec fn inv(&self, tables: Seq<TableSpec>, storage: &TempStorageManager) -> bool
        decreases self,
    {
        &&& storage.inv()
        &&& match self {
            Node::Scan(n) => {
                &&& n.table < tables.len()
                &&& n.op.inv(tables[n.table as int])
                &&& n.op.fits(tables[n.table as int])
                &&& !n.op.failed()
            },
            Node::Filter(n) => {
                &&& n.input.inv(tables, storage)
                &&& all_read_within(n.op.tests_view(), n.op.schema_view().len() as int)
                &&& n.emitted@ == passing(n.op.tests_view(), n.input.emitted())
                &&& n.done ==> n.input.done()
                &&& n.op.schema_view().len() == n.input.width()
            },
            Node::Project(n) => {
                &&& n.input.inv(tables, storage)
                &&& n.emitted@ == picked(n.op.positions_view(), n.input.emitted())
                &&& n.done ==> n.input.done()
                &&& in_bounds(n.op.positions_view(), n.input.width() as int)
            },
            Node::Join(n) => {
                &&& n.op.is_plain()
                &&& n.op.inv(storage)
                &&& !n.op.failed()
                &&& n.left.inv(tables, storage)
                &&& n.right.inv(tables, storage)
                &&& n.op.files().disjoint(n.left.files())
                &&& n.op.files().disjoint(n.right.files())
                &&& n.left.files().disjoint(n.right.files())
                &&& n.op.left_rows() == n.left.emitted()
                &&& n.op.right_rows() == n.right.emitted()
                &&& n.op.exhausted(Side::Left) ==> n.left.done()
                &&& n.op.exhausted(Side::Right) ==> n.right.done()
                &&& n.emitted@.to_multiset() == n.op.emitted()
                &&& n.pending is Own ==> n.op.waiting()
                &&& n.op.side_len(Side::Left) == n.left.width()
                &&& n.op.side_len(Side::Right) == n.right.width()
            },
            Node::Sort(n) => {
                &&& n.op.inv(storage)
                &&& !n.op.failed()
                &&& n.input.inv(tables, storage)
                &&& n.op.files().disjoint(n.input.files())
                &&& n.op.input() == n.input.emitted()
                &&& !n.op.wants() && !n.op.spills() ==> n.input.done()
                &&& n.pending is Own ==> n.op.waiting()
                &&& n.op.schema_view().len() == n.input.width()
            },
        }
    }

    /// Whether two trees have the same operators.
    pub closed spec fn same_tree(&self, other: &Node) -> bool
        decreases self,
    {
        match (self, other) {
            (Node::Scan(a), Node::Scan(b)) => a.table == b.table && a.op.is_still(&b.op),
            (Node::Filter(a), Node::Filter(b)) => a.op == b.op && a.input.same_tree(&*b.input),
            (Node::Project(a), Node::Project(b)) => a.op == b.op && a.input.same_tree(&*b.input),
            (Node::Join(a), Node::Join(b)) => a.op.on() == b.op.on() && a.op.schema_view()
                == b.op.schema_view() && a.left.same_tree(&*b.left) && a.right.same_tree(&*b.right),
            (Node::Sort(a), Node::Sort(b)) => a.op.keys() == b.op.keys() && a.op.schema_view()
                == b.op.schema_view() && a.input.same_tree(&*b.input),
            _ => false,
        }
    }

    proof fn lemma_same_tree_refl(&self)
        ensures
            self.same_tree(self),
        decreases self,
    {
        match self {
            Node::Scan(_) => {},
            Node::Filter(n) => n.input.lemma_same_tree_refl(),
            Node::Project(n) => n.input.lemma_same_tree_refl(),
            Node::Join(n) => {
                n.left.lemma_same_tree_refl();
                n.right.lemma_same_tree_refl();
            },
            Node::Sort(n) => n.input.lemma_same_tree_refl(),
        }
    }

    /// The files of a tree exist.
    proof fn lemma_files_exist(&self, tables: Seq<TableSpec>, storage: &TempStorageManager)
        requires
            self.inv(tables, storage),
        ensures
            storage.inv(),
            forall|f: u64| #[trigger] self.files().contains(f) ==> storage.has_file(f),
        decreases self,
    {
        assert forall|f: u64| #[trigger] self.files().contains(f) implies storage.has_file(f) by {
            match self {
                Node::Scan(_) => {},
                Node::Filter(n) => {
                    n.input.lemma_files_exist(tables, storage);
                    assert(n.input.files().contains(f));
                },
                Node::Project(n) => {
                    n.input.lemma_files_exist(tables, storage);
                    assert(n.input.files().contains(f));
                },
                Node::Join(n) => {
                    n.op.inv_gives(storage);
                    n.left.lemma_files_exist(tables, storage);
                    n.right.lemma_files_exist(tables, storage);
                    assert(n.op.files().contains(f) || n.left.files().contains(f)
                        || n.right.files().contains(f));
                },
                Node::Sort(n) => {
                    n.op.inv_gives(storage);
                    n.input.lemma_files_exist(tables, storage);
                    assert(n.op.files().contains(f) || n.input.files().contains(f));
                },
            }
        }
    }

    /// A tree depends on its own files alone.
    pub proof fn inv_kept(
        &self,
        tables: Seq<TableSpec>,
        before: &TempStorageManager,
        after: &TempStorageManager,
        touched: Set<u64>,
    )
        requires
            self.inv(tables, before),
            after.inv(),
            unharmed(before, after, touched),
            touched.disjoint(self.files()),
        ensures
            self.inv(tables, after),
        decreases self,
    {
        match self {
            Node::Scan(_) => {},
            Node::Filter(n) => n.input.inv_kept(tables, before, after, touched),
            Node::Project(n) => n.input.inv_kept(tables, before, after, touched),
            Node::Join(n) => {
                assert(touched.disjoint(n.op.files()));
                assert(touched.disjoint(n.left.files()));
                assert(touched.disjoint(n.right.files()));
                n.op.inv_kept(before, after, touched);
                n.left.inv_kept(tables, before, after, touched);
                n.right.inv_kept(tables, before, after, touched);
            },
            Node::Sort(n) => {
                assert(touched.disjoint(n.op.files()));
                assert(touched.disjoint(n.input.files()));
                n.op.inv_kept(before, after, touched);
                n.input.inv_kept(tables, before, after, touched);
            },
        }
    }
}

/// What follows for files where one step comes after another: `mine` are the files that the whole
/// owns at the start, `touched` those that the second step may touch, `next` those of it after
/// that step.
proof fn lemma_owned(
    s0: &TempStorageManager,
    s1: &TempStorageManager,
    s2: &TempStorageManager,
    mine: Set<u64>,
    touched: Set<u64>,
    next: Set<u64>,
)
    requires
        untouched(s0, s1, mine),
        untouched(s1, s2, touched),
        forall|f: u64| #[trigger] touched.contains(f) ==> mine.contains(f) || !s0.has_file(f),
        forall|f: u64| #[trigger] next.contains(f) ==> touched.contains(f) || !s1.has_file(f),
    ensures
        untouched(s0, s2, mine),
        forall|f: u64| #[trigger] next.contains(f) ==> mine.contains(f) || !s0.has_file(f),
{
    untouched_twice(s0, s1, s2, mine, touched);
    assert forall|f: u64| #[trigger] next.contains(f) implies mine.contains(f) || !s0.has_file(
        f,
    ) by {
        if !touched.contains(f) {
            untouched_file(s0, s1, mine, f);
        }
    }
}

/// Work on two inputs and an operator together: what is done of the inputs decides, then what is
/// done of the operator.
proof fn lemma_all_nearer(
    l2: Seq<nat>,
    r2: Seq<nat>,
    o2: Seq<nat>,
    l1: Seq<nat>,
    r1: Seq<nat>,
    o1: Seq<nat>,
)
    requires
        not_farther(l2, l1),
        not_farther(r2, r1),
        o2.len() == o1.len(),
    ensures
        nearer(l2, l1) || nearer(r2, r1) || nearer(o2, o1) ==> nearer(
            (l2 + r2) + o2,
            (l1 + r1) + o1,
        ),
        not_farther(o2, o1) ==> not_farther((l2 + r2) + o2, (l1 + r1) + o1),
{
    if nearer(l2, l1) {
        nearer_front(l2, l1, r2, r1);
        nearer_front(l2 + r2, l1 + r1, o2, o1);
    } else if nearer(r2, r1) {
        nearer_back(l2, r2, r1);
        nearer_front(l2 + r2, l1 + r1, o2, o1);
    } else if nearer(o2, o1) {
        nearer_back(l2 + r2, o2, o1);
    }
}

/// Work on an input and an operator together.
proof fn lemma_both_nearer(l2: Seq<nat>, o2: Seq<nat>, l1: Seq<nat>, o1: Seq<nat>)
    requires
        not_farther(l2, l1),
        o2.len() == o1.len(),
    ensures
        nearer(l2, l1) || nearer(o2, o1) ==> nearer(l2 + o2, l1 + o1),
        not_farther(o2, o1) ==> not_farther(l2 + o2, l1 + o1),
{
    if nearer(l2, l1) {
        nearer_front(l2, l1, o2, o1);
    } else if nearer(o2, o1) {
        nearer_back(l2, o2, o1);
    }
}

/// What holds after a step of a tree.
pub open spec fn stepped(
    a: Node,
    b: Node,
    tables: Seq<TableSpec>,
    s0: &TempStorageManager,
    s1: &TempStorageManager,
    m0: MemoryAccount,
    m1: MemoryAccount,
    step: NodeStep,
) -> bool {
    &&& b.inv(tables, s1)
    &&& s1.inv()
    &&& m1.inv()
    &&& untouched(s0, s1, a.files())
    &&& forall|f: u64| #[trigger]
        b.files().contains(f) ==> a.files().contains(f) || !s0.has_file(f)
    &&& m1.used + a.reserved() == m0.used + b.reserved()
    &&& b.same_tree(&a)
    &&& b.faithful() == a.faithful()
    &&& b.width() == a.width()
    &&& step matches NodeStep::Row(row) ==> a.faithful() ==> row@.len() == a.width()
    &&& b.out_of_numbers() == a.out_of_numbers()
    &&& b.emitted() == match step {
        NodeStep::Row(row) => a.emitted().push(row@),
        _ => a.emitted(),
    }
    &&& match step {
        NodeStep::AskFile(t) => t < tables.len() && b.asks() == Some(Ask::File) && b.asks_of() == t,
        NodeStep::ReadTable { start, count } => b.asks() == Some(Ask::Table) && count > 0
            && b.wanted() == (start as int, count as nat),
        NodeStep::ReadTemp(ranges) => b.asks() == Some(Ask::Temp) && forall|data: Seq<u8>|
            is_content(s1.disk(), blocks_of(ranges@), data, s1.size() as int)
                ==> #[trigger] b.expects(data),
        NodeStep::NeedAnonStart => s1.frontier() is None,
        NodeStep::Done => b.done(),
        _ => true,
    }
    &&& a.done() ==> step is Done
    &&& match step {
        NodeStep::Again | NodeStep::Row(_) => nearer(b.left_to_do(), a.left_to_do()),
        _ => not_farther(b.left_to_do(), a.left_to_do()),
    }
    &&& forall|files: TableFiles| #[trigger] b.reads_from(files) == a.reads_from(files)
}

/// Whether an error can end a run whose temporary storage holds what was written to it: one of
/// the storage, where a row that is stored does not fit a page or the storage cannot take another
/// batch; values that do not compare, where rows are tested that have no answer; or a file without
/// block numbers. `a` is the tree before the step, `b` the tree at the error.
pub open spec fn ended_by(a: Node, b: Node, e: DbError, storage: &TempStorageManager) -> bool {
    ||| storage_error(e) && a.stores_rows() && (b.has_oversized(storage.size()) || !storage.roomy(
        MAX_BATCH_PAGES as nat,
    ))
    ||| e is IncomparableValues && a.tests_rows() && b.has_undecided()
    ||| e == DbError::BlockIdOverflow && a.out_of_numbers()
}

/// What a node asks for on behalf of its input is what the input asks for.
proof fn lemma_passes_on(b: Node, inner: Node, step: NodeStep, s: &TempStorageManager)
    requires
        match b {
            Node::Filter(n) => *n.input == inner,
            Node::Project(n) => *n.input == inner,
            Node::Join(n) => n.pending is First && *n.left == inner || n.pending is Second
                && *n.right == inner,
            Node::Sort(n) => n.pending is First && *n.input == inner,
            _ => false,
        },
    ensures
        b.asks() == inner.asks(),
        b.asks_of() == inner.asks_of(),
        b.wanted() == inner.wanted(),
        step matches NodeStep::ReadTemp(ranges) ==> (forall|data: Seq<u8>|
            is_content(s.disk(), blocks_of(ranges@), data, s.size() as int)
                ==> #[trigger] inner.expects(data)) ==> (forall|data: Seq<u8>|
            is_content(s.disk(), blocks_of(ranges@), data, s.size() as int)
                ==> #[trigger] b.expects(data)),
{
    assert forall|data: Seq<u8>| inner.expects(data) implies #[trigger] b.expects(data) by {}
}

impl ScanNode {
    fn step(
        &mut self,
        tables: &[TableSpec],
        block_size: usize,
        memory: &mut QueryMemoryManager,
        Ghost(storage): Ghost<TempStorageManager>,
    ) -> (r: Result<NodeStep, DbError>)
        requires
            Node::Scan(*old(self)).inv(tables@, &storage),
            old(memory)@.inv(),
            Node::Scan(*old(self)).reserved() <= old(memory)@.used,
        ensures
            r matches Ok(step) ==> stepped(
                Node::Scan(*old(self)),
                Node::Scan(*final(self)),
                tables@,
                &storage,
                &storage,
                old(memory)@,
                final(memory)@,
                step,
            ),
            r matches Err(e) ==> !Node::Scan(*old(self)).done(),
            r matches Err(e) ==> ended_by(
                Node::Scan(*old(self)),
                Node::Scan(*final(self)),
                e,
                &storage,
            ),
    {
        let ghost a = Node::Scan(*self);
        let at: usize = self.table;
        let ghost op0 = self.op;
        proof {
            untouched_same(&storage, &storage, a.files());
            self.op.lemma_ended();
            self.op.lemma_unread(tables@[at as int]);
        }
        let r = self.op.step(block_size, memory, &tables[at]);
        proof {
            self.op.lemma_ended();
            assert(Node::Scan(*self).files() == Set::<u64>::empty());
            if r is Ok {
                let b = Node::Scan(*self);
                assert forall|files: TableFiles| #[trigger]
                    b.reads_from(files) == a.reads_from(files) by {
                    assert(self.op.reads_from(files, at as int) == op0.reads_from(
                        files,
                        at as int,
                    ));
                }
            }
        }
        match r {
            Ok(ScanStep::AskFile) => Ok(NodeStep::AskFile(at)),
            Ok(ScanStep::Need { start, count }) => Ok(NodeStep::ReadTable { start, count }),
            Ok(ScanStep::Again) => Ok(NodeStep::Again),
            Ok(ScanStep::Row(row)) => Ok(NodeStep::Row(row)),
            Ok(ScanStep::Done) => Ok(NodeStep::Done),
            Err(e) => Err(e),
        }
    }
}

impl FilterNode {
    fn step(
        &mut self,
        tables: &[TableSpec],
        block_size: usize,
        memory: &mut QueryMemoryManager,
        storage: &mut TempStorageManager,
    ) -> (r: Result<NodeStep, DbError>)
        requires
            Node::Filter(*old(self)).inv(tables@, old(storage)),
            old(memory)@.inv(),
            Node::Filter(*old(self)).reserved() <= old(memory)@.used,
        ensures
            r matches Ok(step) ==> stepped(
                Node::Filter(*old(self)),
                Node::Filter(*final(self)),
                tables@,
                old(storage),
                final(storage),
                old(memory)@,
                final(memory)@,
                step,
            ),
            r matches Err(e) ==> !Node::Filter(*old(self)).done(),
            r matches Err(e) ==> Node::Filter(*old(self)).faithful() ==> ended_by(
                Node::Filter(*old(self)),
                Node::Filter(*final(self)),
                e,
                final(storage),
            ),
        decreases Node::Filter(*old(self)).depth(), 1nat,
    {
        let ghost a = Node::Filter(*self);
        if self.done {
            proof {
                untouched_same(storage, storage, a.files());
                a.lemma_same_tree_refl();
            }
            return Ok(NodeStep::Done);
        }
        let ghost rows = self.input.emitted();
        let ghost input0 = *self.input;
        let next = match self.input.step(tables, block_size, memory, storage) {
            Ok(s) => s,
            Err(e) => {
                return Err(e);
            },
        };
        let r = match next {
            NodeStep::Row(row) => {
                let len: usize = self.op.schema().len();
                if row.len() != len {
                    return Err(DbError::RowSchemaMismatch(row.len(), len));
                }
                let ghost value = row@;
                proof {
                    assert(rows.push(value).drop_last() =~= rows);
                    assert(rows.push(value).last() == value);
                }
                match self.op.offer(Some(row)) {
                    Ok(FilterStep::Emit(out)) => {
                        proof {
                            self.emitted@ = self.emitted@.push(out@);
                        }
                        Ok(NodeStep::Row(out))
                    },
                    Ok(FilterStep::PullAgain) => Ok(NodeStep::Again),
                    Ok(FilterStep::Done) => Ok(NodeStep::Again),
                    Err(e) => {
                        proof {
                            let all = self.input.emitted();
                            assert(all[all.len() - 1] == value);
                            assert(self.op.tests_view().len() > 0);
                        }
                        Err(e)
                    },
                }
            },
            NodeStep::Done => {
                self.done = true;
                Ok(NodeStep::Done)
            },
            other => {
                proof {
                    let b = Node::Filter(*self);
                    lemma_passes_on(b, *self.input, other, storage);
                }
                Ok(other)
            },
        };
        proof {
            let b = Node::Filter(*self);
            assert(a.files() == input0.files());
            assert(b.files() == self.input.files());
            assert forall|f: u64| #[trigger] b.files().contains(f) implies a.files().contains(f)
                || !old(storage).has_file(f) by {
                assert(self.input.files().contains(f));
            }
            assert forall|files: TableFiles| #[trigger]
                b.reads_from(files) == a.reads_from(files) by {
                assert(self.input.reads_from(files) == input0.reads_from(files));
            }
        }
        r
    }
}

impl ProjectNode {
    fn step(
        &mut self,
        tables: &[TableSpec],
        block_size: usize,
        memory: &mut QueryMemoryManager,
        storage: &mut TempStorageManager,
    ) -> (r: Result<NodeStep, DbError>)
        requires
            Node::Project(*old(self)).inv(tables@, old(storage)),
            old(memory)@.inv(),
            Node::Project(*old(self)).reserved() <= old(memory)@.used,
        ensures
            r matches Ok(step) ==> stepped(
                Node::Project(*old(self)),
                Node::Project(*final(self)),
                tables@,
                old(storage),
                final(storage),
                old(memory)@,
                final(memory)@,
                step,
            ),
            r matches Err(e) ==> !Node::Project(*old(self)).done(),
            r matches Err(e) ==> Node::Project(*old(self)).faithful() ==> ended_by(
                Node::Project(*old(self)),
                Node::Project(*final(self)),
                e,
                final(storage),
            ),
        decreases Node::Project(*old(self)).depth(), 1nat,
    {
        let ghost a = Node::Project(*self);
        if self.done {
            proof {
                untouched_same(storage, storage, a.files());
                a.lemma_same_tree_refl();
            }
            return Ok(NodeStep::Done);
        }
        let ghost rows = self.input.emitted();
        let ghost input0 = *self.input;
        let next = match self.input.step(tables, block_size, memory, storage) {
            Ok(s) => s,
            Err(e) => {
                return Err(e);
            },
        };
        let r = match next {
            NodeStep::Row(row) => {
                let ghost value = row@;
                match self.op.offer(Some(row)) {
                    Ok(Some(out)) => {
                        proof {
                            self.emitted@ = self.emitted@.push(out@);
                            assert(picked(self.op.positions_view(), rows.push(value)) =~= picked(
                                self.op.positions_view(),
                                rows,
                            ).push(out@));
                        }
                        Ok(NodeStep::Row(out))
                    },
                    Ok(None) => Ok(NodeStep::Again),
                    Err(e) => Err(e),
                }
            },
            NodeStep::Done => {
                self.done = true;
                Ok(NodeStep::Done)
            },
            other => {
                proof {
                    let b = Node::Project(*self);
                    lemma_passes_on(b, *self.input, other, storage);
                }
                Ok(other)
            },
        };
        proof {
            let b = Node::Project(*self);
            assert(a.files() == input0.files());
            assert(b.files() == self.input.files());
            assert forall|f: u64| #[trigger] b.files().contains(f) implies a.files().contains(f)
                || !old(storage).has_file(f) by {
                assert(self.input.files().contains(f));
            }
            assert forall|files: TableFiles| #[trigger]
                b.reads_from(files) == a.reads_from(files) by {
                assert(self.input.reads_from(files) == input0.reads_from(files));
            }
        }
        r
    }
}

impl JoinNode {
    fn step(
        &mut self,
        tables: &[TableSpec],
        block_size: usize,
        memory: &mut QueryMemoryManager,
        storage: &mut TempStorageManager,
    ) -> (r: Result<NodeStep, DbError>)
        requires
            Node::Join(*old(self)).inv(tables@, old(storage)),
            old(memory)@.inv(),
            Node::Join(*old(self)).reserved() <= old(memory)@.used,
        ensures
            r matches Ok(step) ==> stepped(
                Node::Join(*old(self)),
                Node::Join(*final(self)),
                tables@,
                old(storage),
                final(storage),
                old(memory)@,
                final(memory)@,
                step,
            ),
            r matches Err(e) ==> !Node::Join(*old(self)).done(),
            r matches Err(e) ==> Node::Join(*old(self)).faithful() ==> ended_by(
                Node::Join(*old(self)),
                Node::Join(*final(self)),
                e,
                final(storage),
            ),
        decreases Node::Join(*old(self)).depth(), 1nat,
    {
        let ghost a = Node::Join(*self);
        let ghost mine = a.files();
        let ghost s0 = *storage;
        let ghost op0 = self.op;
        proof {
            self.op.inv_gives(&s0);
            self.left.lemma_files_exist(tables@, &s0);
            self.right.lemma_files_exist(tables@, &s0);
            self.left.lemma_same_tree_refl();
            self.right.lemma_same_tree_refl();
        }
        self.pending = Pending::Nothing;
        let next = match self.op.step(storage) {
            Ok(s) => s,
            Err(e) => {
                proof {
                    lemma_no_tests_decided(op0.on(), op0.left_rows(), op0.right_rows());
                }
                return Err(e);
            },
        };
        let ghost s1 = *storage;
        proof {
            untouched_more(&s0, &s1, op0.files(), mine);
            self.left.inv_kept(tables@, &s0, &s1, op0.files());
            self.right.inv_kept(tables@, &s0, &s1, op0.files());
            self.op.inv_gives(&s1);
            self.left.lemma_files_exist(tables@, &s1);
            self.right.lemma_files_exist(tables@, &s1);
            let l = self.left.left_to_do();
            let r = self.right.left_to_do();
            lemma_all_nearer(l, r, self.op.left_to_do(), l, r, op0.left_to_do());
        }
        match next {
            JoinStep::Pull(side) => self.pull(
                side,
                tables,
                block_size,
                memory,
                storage,
                Ghost(a),
                Ghost(s0),
            ),
            JoinStep::Again => Ok(NodeStep::Again),
            JoinStep::Need(ranges) => {
                self.pending = Pending::Own;
                Ok(NodeStep::ReadTemp(ranges))
            },
            JoinStep::NeedAnonStart => Ok(NodeStep::NeedAnonStart),
            JoinStep::Row(row) => {
                proof {
                    broadcast use vstd::seq_lib::group_to_multiset_ensures;

                    self.emitted@ = self.emitted@.push(row@);
                }
                Ok(NodeStep::Row(row))
            },
            JoinStep::Done => Ok(NodeStep::Done),
        }
    }

    /// Fetches the next row of a side for the join.
    fn pull(
        &mut self,
        side: Side,
        tables: &[TableSpec],
        block_size: usize,
        memory: &mut QueryMemoryManager,
        storage: &mut TempStorageManager,
        Ghost(a): Ghost<Node>,
        Ghost(s0): Ghost<TempStorageManager>,
    ) -> (r: Result<NodeStep, DbError>)
        requires
            Node::Join(*old(self)).inv(tables@, old(storage)),
            old(self).op.wants() == Some(side),
            old(self).pending is Nothing,
            a is Join,
            (a->Join_0).left == old(self).left,
            (a->Join_0).right == old(self).right,
            (a->Join_0).emitted == old(self).emitted,
            (a->Join_0).op.on() == old(self).op.on(),
            (a->Join_0).op.schema_view() == old(self).op.schema_view(),
            (a->Join_0).op.faithful() == old(self).op.faithful(),
            !a.done(),
            not_farther(old(self).op.left_to_do(), (a->Join_0).op.left_to_do()),
            untouched(&s0, old(storage), a.files()),
            forall|f: u64| #[trigger]
                Node::Join(*old(self)).files().contains(f) ==> a.files().contains(f)
                    || !s0.has_file(f),
            old(memory)@.inv(),
            Node::Join(*old(self)).reserved() <= old(memory)@.used,
        ensures
            r matches Ok(step) ==> stepped(
                a,
                Node::Join(*final(self)),
                tables@,
                &s0,
                final(storage),
                old(memory)@,
                final(memory)@,
                step,
            ),
            r matches Err(e) ==> a.faithful() ==> ended_by(
                a,
                Node::Join(*final(self)),
                e,
                final(storage),
            ),
        decreases Node::Join(*old(self)).depth(), 0nat,
    {
        let ghost mine = a.files();
        let ghost s1 = *storage;
        let ghost op1 = self.op;
        let ghost left1 = *self.left;
        let ghost right1 = *self.right;
        let ghost b1 = Node::Join(*self);
        proof {
            assert forall|f: u64|
                op1.files().contains(f) || left1.files().contains(f) || right1.files().contains(
                    f,
                ) implies #[trigger] mine.contains(f) || !s0.has_file(f) by {
                assert(b1.files().contains(f));
            }
            op1.inv_gives(&s1);
            left1.lemma_files_exist(tables@, &s1);
            right1.lemma_files_exist(tables@, &s1);
            left1.lemma_same_tree_refl();
            right1.lemma_same_tree_refl();
        }
        let next = match side {
            Side::Left => self.left.step(tables, block_size, memory, storage),
            Side::Right => self.right.step(tables, block_size, memory, storage),
        };
        let next = match next {
            Ok(s) => s,
            Err(e) => {
                return Err(e);
            },
        };
        let ghost s2 = *storage;
        let ghost touched = match side {
            Side::Left => left1.files(),
            Side::Right => right1.files(),
        };
        let ghost later = match side {
            Side::Left => self.left.files(),
            Side::Right => self.right.files(),
        };
        proof {
            lemma_owned(&s0, &s1, &s2, mine, touched, later);
            op1.inv_kept(&s1, &s2, touched);
            match side {
                Side::Left => {
                    right1.inv_kept(tables@, &s1, &s2, touched);
                },
                Side::Right => {
                    left1.inv_kept(tables@, &s1, &s2, touched);
                },
            }
            self.op.inv_gives(&s2);
            self.left.lemma_files_exist(tables@, &s2);
            self.right.lemma_files_exist(tables@, &s2);
            lemma_all_nearer(
                self.left.left_to_do(),
                self.right.left_to_do(),
                op1.left_to_do(),
                left1.left_to_do(),
                right1.left_to_do(),
                (a->Join_0).op.left_to_do(),
            );
        }
        let ghost left2 = *self.left;
        let ghost right2 = *self.right;
        let fed: Option<Row> = match next {
            NodeStep::Row(row) => Some(row),
            NodeStep::Done => None,
            other => {
                self.pending = match side {
                    Side::Left => Pending::First,
                    Side::Right => Pending::Second,
                };
                proof {
                    let b = Node::Join(*self);
                    match side {
                        Side::Left => lemma_passes_on(b, *self.left, other, storage),
                        Side::Right => lemma_passes_on(b, *self.right, other, storage),
                    }
                    assert forall|files: TableFiles| #[trigger]
                        b.reads_from(files) == a.reads_from(files) by {
                        assert(left2.reads_from(files) == left1.reads_from(files));
                        assert(right2.reads_from(files) == right1.reads_from(files));
                    }
                }
                return Ok(other);
            },
        };
        let ghost given = fed;
        match self.op.feed(side, fed, storage) {
            Ok(_) => {},
            Err(e) => {
                proof {
                    untouched_file(&s2, storage, op1.files(), 0);
                    if given is Some {
                        let all = match side {
                            Side::Left => left2.emitted(),
                            Side::Right => right2.emitted(),
                        };
                        assert(all[all.len() - 1] == given->0@);
                    }
                }
                return Err(e);
            },
        }
        let ghost s3 = *storage;
        proof {
            lemma_owned(&s0, &s2, &s3, mine, op1.files(), self.op.files());
            self.left.inv_kept(tables@, &s2, &s3, op1.files());
            self.right.inv_kept(tables@, &s2, &s3, op1.files());
            if fed is None {
                nearer_twice(
                    self.op.left_to_do(),
                    op1.left_to_do(),
                    (a->Join_0).op.left_to_do(),
                );
            }
            lemma_all_nearer(
                self.left.left_to_do(),
                self.right.left_to_do(),
                self.op.left_to_do(),
                left1.left_to_do(),
                right1.left_to_do(),
                (a->Join_0).op.left_to_do(),
            );
            let b = Node::Join(*self);
            assert forall|files: TableFiles| #[trigger]
                b.reads_from(files) == a.reads_from(files) by {
                assert(left2.reads_from(files) == left1.reads_from(files));
                assert(right2.reads_from(files) == right1.reads_from(files));
            }
        }
        Ok(NodeStep::Again)
    }
}

impl SortNode {
    fn step(
        &mut self,
        tables: &[TableSpec],
        block_size: usize,
        memory: &mut QueryMemoryManager,
        storage: &mut TempStorageManager,
    ) -> (r: Result<NodeStep, DbError>)
        requires
            Node::Sort(*old(self)).inv(tables@, old(storage)),
            old(memory)@.inv(),
            Node::Sort(*old(self)).reserved() <= old(memory)@.used,
        ensures
            r matches Ok(step) ==> stepped(
                Node::Sort(*old(self)),
                Node::Sort(*final(self)),
                tables@,
                old(storage),
                final(storage),
                old(memory)@,
                final(memory)@,
                step,
            ),
            r matches Err(e) ==> !Node::Sort(*old(self)).done(),
            r matches Err(e) ==> Node::Sort(*old(self)).faithful() ==> ended_by(
                Node::Sort(*old(self)),
                Node::Sort(*final(self)),
                e,
                final(storage),
            ),
        decreases Node::Sort(*old(self)).depth(), 1nat,
    {
        let ghost a = Node::Sort(*self);
        let ghost mine = a.files();
        let ghost s0 = *storage;
        let ghost op0 = self.op;
        let ghost input0 = *self.input;
        proof {
            self.op.inv_gives(&s0);
            input0.lemma_files_exist(tables@, &s0);
            input0.lemma_same_tree_refl();
        }
        self.pending = Pending::Nothing;
        let next = match self.op.step(storage) {
            Ok(s) => s,
            Err(e) => {
                return Err(e);
            },
        };
        let ghost s1 = *storage;
        let ghost op1 = self.op;
        proof {
            untouched_more(&s0, &s1, op0.files(), mine);
            input0.inv_kept(tables@, &s0, &s1, op0.files());
            op1.inv_gives(&s1);
            input0.lemma_files_exist(tables@, &s1);
            let l = input0.left_to_do();
            lemma_both_nearer(l, op1.left_to_do(), l, op0.left_to_do());
        }
        match next {
            SortStep::Pull => {},
            SortStep::Again => {
                return Ok(NodeStep::Again);
            },
            SortStep::Need(ranges) => {
                self.pending = Pending::Own;
                return Ok(NodeStep::ReadTemp(ranges));
            },
            SortStep::NeedAnonStart => {
                return Ok(NodeStep::NeedAnonStart);
            },
            SortStep::Row(row) => {
                return Ok(NodeStep::Row(row));
            },
            SortStep::Done => {
                return Ok(NodeStep::Done);
            },
        }
        let pulled = match self.input.step(tables, block_size, memory, storage) {
            Ok(s) => s,
            Err(e) => {
                return Err(e);
            },
        };
        let ghost s2 = *storage;
        let ghost touched = input0.files();
        proof {
            lemma_owned(&s0, &s1, &s2, mine, touched, self.input.files());
            op1.inv_kept(&s1, &s2, touched);
            op1.inv_gives(&s2);
            self.input.lemma_files_exist(tables@, &s2);
            lemma_both_nearer(
                self.input.left_to_do(),
                op1.left_to_do(),
                input0.left_to_do(),
                op0.left_to_do(),
            );
        }
        let fed: Option<Row> = match pulled {
            NodeStep::Row(row) => Some(row),
            NodeStep::Done => None,
            other => {
                self.pending = Pending::First;
                proof {
                    let b = Node::Sort(*self);
                    lemma_passes_on(b, *self.input, other, storage);
                    assert forall|files: TableFiles| #[trigger]
                        b.reads_from(files) == a.reads_from(files) by {
                        assert(self.input.reads_from(files) == input0.reads_from(files));
                    }
                }
                return Ok(other);
            },
        };
        match self.op.feed(fed, storage) {
            Ok(_) => {},
            Err(e) => {
                return Err(e);
            },
        }
        let ghost s3 = *storage;
        proof {
            lemma_owned(&s0, &s2, &s3, mine, op1.files(), self.op.files());
            self.input.inv_kept(tables@, &s2, &s3, op1.files());
            self.op.left_is_five();
            op0.left_is_five();
            if fed is None {
                nearer_twice(self.op.left_to_do(), op1.left_to_do(), op0.left_to_do());
            }
            lemma_both_nearer(
                self.input.left_to_do(),
                self.op.left_to_do(),
                input0.left_to_do(),
                op0.left_to_do(),
            );
            let b = Node::Sort(*self);
            assert forall|files: TableFiles| #[trigger]
                b.reads_from(files) == a.reads_from(files) by {
                assert(self.input.reads_from(files) == input0.reads_from(files));
            }
        }
        Ok(NodeStep::Again)
    }
}

impl Node {
    /// Does the next piece of work: asks for blocks or gives a row out.
    pub fn step(
        &mut self,
        tables: &[TableSpec],
        block_size: usize,
        memory: &mut QueryMemoryManager,
        storage: &mut TempStorageManager,
    ) -> (r: Result<NodeStep, DbError>)
        requires
            old(self).inv(tables@, old(storage)),
            old(memory)@.inv(),
            old(self).reserved() <= old(memory)@.used,
        ensures
            r matches Ok(step) ==> stepped(
                *old(self),
                *final(self),
                tables@,
                old(storage),
                final(storage),
                old(memory)@,
                final(memory)@,
                step,
            ),
            r matches Err(e) ==> !old(self).done(),
            r matches Err(e) ==> old(self).faithful() ==> ended_by(
                *old(self),
                *final(self),
                e,
                final(storage),
            ),
        decreases old(self).depth(), 2nat,
    {
        match self {
            Node::Scan(n) => n.step(tables, block_size, memory, Ghost(*storage)),
            Node::Filter(n) => n.step(tables, block_size, memory, storage),
            Node::Project(n) => n.step(tables, block_size, memory, storage),
            Node::Join(n) => n.step(tables, block_size, memory, storage),
            Node::Sort(n) => n.step(tables, block_size, memory, storage),
        }
    }
}

/// What holds after a tree was supplied with what it waited for.
pub open spec fn supplied(
    a: Node,
    b: Node,
    tables: Seq<TableSpec>,
    storage: &TempStorageManager,
) -> bool {
    &&& b.inv(tables, storage)
    &&& b.files().subset_of(a.files())
    &&& b.same_tree(&a)
    &&& b.emitted() == a.emitted()
    &&& b.asks() is None
    &&& b.width() == a.width()
    &&& nearer(b.left_to_do(), a.left_to_do())
}

impl Node {
    /// A tree that waits has not come to its end.
    proof fn lemma_asking(&self, tables: Seq<TableSpec>, storage: &TempStorageManager)
        requires
            self.inv(tables, storage),
            self.asks() is Some,
        ensures
            !self.done(),
        decreases self,
    {
        match self {
            Node::Scan(n) => {
                if n.op.started() {
                    n.op.lemma_waiting(tables[n.table as int]);
                } else {
                    n.op.lemma_not_started(tables[n.table as int]);
                }
            },
            Node::Filter(n) => n.input.lemma_asking(tables, storage),
            Node::Project(n) => n.input.lemma_asking(tables, storage),
            Node::Join(n) => {
                if n.op.ended() {
                    n.op.ended_is_exhausted(Side::Left);
                    n.op.ended_is_exhausted(Side::Right);
                }
                match n.pending {
                    Pending::Own => n.op.waiting_is_not_ended(),
                    Pending::First => n.left.lemma_asking(tables, storage),
                    Pending::Second => n.right.lemma_asking(tables, storage),
                    Pending::Nothing => {},
                }
            },
            Node::Sort(n) => {
                if n.op.ended() {
                    n.op.ended_wants_nothing();
                }
                match n.pending {
                    Pending::Own => n.op.waiting_is_not_ended(),
                    Pending::First => n.input.lemma_asking(tables, storage),
                    _ => {},
                }
            },
        }
    }

    /// Takes the place and the size of the file that was asked for.
    pub fn supply_file(
        &mut self,
        file_start: u64,
        file_blocks: u64,
        tables: &[TableSpec],
        storage: &TempStorageManager,
    ) -> (r: Result<(), DbError>)
        requires
            old(self).inv(tables@, storage),
            old(self).asks() == Some(Ask::File),
        ensures
            r is Ok ==> supplied(*old(self), *final(self), tables@, storage),
            r is Ok ==> final(self).reserved() == old(self).reserved(),
            r is Ok ==> final(self).faithful() == old(self).faithful(),
            r is Ok && final(self).out_of_numbers() ==> old(self).out_of_numbers() || file_start
                + file_blocks > u64::MAX,
            r matches Err(e) ==> e == DbError::BlockIdOverflow && file_start + file_blocks
                > u64::MAX,
            r is Ok ==> forall|files: TableFiles|
                old(self).reads_from(files) && files.lies_at(
                    old(self).asks_of(),
                    file_start,
                    file_blocks,
                ) ==> #[trigger] final(self).reads_from(files),
        decreases old(self).depth(),
    {
        let ghost a = *self;
        proof {
            a.lemma_asking(tables@, storage);
        }
        match self {
            Node::Scan(n) => {
                let at: usize = n.table;
                proof {
                    n.op.lemma_not_started(tables@[at as int]);
                    n.op.lemma_unread(tables@[at as int]);
                }
                let r = n.op.supply_file(file_start, file_blocks, &tables[at]);
                proof {
                    if r is Ok {
                        let b = Node::Scan(*n);
                        assert forall|files: TableFiles|
                            a.reads_from(files) && files.lies_at(
                                a.asks_of(),
                                file_start,
                                file_blocks,
                            ) implies #[trigger] b.reads_from(files) by {
                            assert(n.op.reads_from(files, at as int));
                        }
                    }
                }
                r
            },
            Node::Filter(n) => {
                let ghost was = *n;
                proof {
                    was.input.lemma_asking(tables@, storage);
                }
                let r = n.input.supply_file(file_start, file_blocks, tables, storage);
                proof {
                    if r is Ok {
                        let b = Node::Filter(*n);
                        assert forall|files: TableFiles|
                            a.reads_from(files) && files.lies_at(
                                a.asks_of(),
                                file_start,
                                file_blocks,
                            ) implies #[trigger] b.reads_from(files) by {
                            assert(was.input.reads_from(files));
                            assert(n.input.reads_from(files));
                        }
                    }
                }
                r
            },
            Node::Project(n) => {
                let ghost was = *n;
                proof {
                    was.input.lemma_asking(tables@, storage);
                }
                let r = n.input.supply_file(file_start, file_blocks, tables, storage);
                proof {
                    if r is Ok {
                        let b = Node::Project(*n);
                        assert forall|files: TableFiles|
                            a.reads_from(files) && files.lies_at(
                                a.asks_of(),
                                file_start,
                                file_blocks,
                            ) implies #[trigger] b.reads_from(files) by {
                            assert(was.input.reads_from(files));
                            assert(n.input.reads_from(files));
                        }
                    }
                }
                r
            },
            Node::Join(n) => {
                let ghost was = *n;
                proof {
                    n.left.lemma_same_tree_refl();
                    n.right.lemma_same_tree_refl();
                }
                match n.pending {
                    Pending::First => {
                        proof {
                            n.left.lemma_asking(tables@, storage);
                        }
                        let r = n.left.supply_file(file_start, file_blocks, tables, storage);
                        proof {
                            if r is Ok {
                                lemma_all_nearer(
                                    n.left.left_to_do(),
                                    n.right.left_to_do(),
                                    n.op.left_to_do(),
                                    was.left.left_to_do(),
                                    was.right.left_to_do(),
                                    was.op.left_to_do(),
                                );
                                let b = Node::Join(*n);
                                assert forall|files: TableFiles|
                                    a.reads_from(files) && files.lies_at(
                                        a.asks_of(),
                                        file_start,
                                        file_blocks,
                                    ) implies #[trigger] b.reads_from(files) by {
                                    assert(was.left.reads_from(files));
                                    assert(n.left.reads_from(files));
                                }
                            }
                        }
                        r
                    },
                    Pending::Second => {
                        proof {
                            n.right.lemma_asking(tables@, storage);
                        }
                        let r = n.right.supply_file(file_start, file_blocks, tables, storage);
                        proof {
                            if r is Ok {
                                lemma_all_nearer(
                                    n.left.left_to_do(),
                                    n.right.left_to_do(),
                                    n.op.left_to_do(),
                                    was.left.left_to_do(),
                                    was.right.left_to_do(),
                                    was.op.left_to_do(),
                                );
                                let b = Node::Join(*n);
                                assert forall|files: TableFiles|
                                    a.reads_from(files) && files.lies_at(
                                        a.asks_of(),
                                        file_start,
                                        file_blocks,
                                    ) implies #[trigger] b.reads_from(files) by {
                                    assert(was.right.reads_from(files));
                                    assert(n.right.reads_from(files));
                                }
                            }
                        }
                        r
                    },
                    _ => Ok(()),
                }
            },
            Node::Sort(n) => {
                let ghost was = *n;
                proof {
                    n.input.lemma_asking(tables@, storage);
                }
                let r = n.input.supply_file(file_start, file_blocks, tables, storage);
                proof {
                    if r is Ok {
                        lemma_both_nearer(
                            n.input.left_to_do(),
                            n.op.left_to_do(),
                            was.input.left_to_do(),
                            was.op.left_to_do(),
                        );
                        let b = Node::Sort(*n);
                        assert forall|files: TableFiles|
                            a.reads_from(files) && files.lies_at(
                                a.asks_of(),
                                file_start,
                                file_blocks,
                            ) implies #[trigger] b.reads_from(files) by {
                            assert(was.input.reads_from(files));
                            assert(n.input.reads_from(files));
                        }
                    }
                }
                r
            },
        }
    }

    /// Takes the contents of the blocks of a table that were asked for.
    pub fn supply_table(
        &mut self,
        data: &[u8],
        block_size: usize,
        tables: &[TableSpec],
        memory: &mut QueryMemoryManager,
        storage: &TempStorageManager,
    ) -> (r: Result<(), DbError>)
        requires
            old(self).inv(tables@, storage),
            old(self).asks() == Some(Ask::Table),
            old(memory)@.inv(),
        ensures
            r is Ok ==> supplied(*old(self), *final(self), tables@, storage),
            r is Ok ==> final(memory)@.inv() && final(memory)@.used + old(self).reserved() == old(
                memory,
            )@.used + final(self).reserved(),
            r is Ok ==> final(self).faithful() == old(self).faithful(),
            r is Ok ==> final(self).out_of_numbers() == old(self).out_of_numbers(),
            r is Ok ==> old(self).accepts(data@, block_size as int, tables@),
            r is Ok ==> forall|files: TableFiles|
                old(self).reads_from(files) && files.holds(
                    old(self).wanted(),
                    data@,
                    block_size as int,
                ) ==> #[trigger] final(self).reads_from(files),
            block_size > 0 && old(self).accepts(data@, block_size as int, tables@) && old(
                self,
            ).affords(data@, block_size as int, tables@, old(memory)@) ==> r is Ok,
            r matches Err(e) ==> scan_error(e) && (block_size > 0 && old(self).accepts(
                data@,
                block_size as int,
                tables@,
            ) ==> e is MemoryBudgetExceeded || e is MemoryAccountingOverflow),
        decreases old(self).depth(),
    {
        let ghost a = *self;
        proof {
            a.lemma_asking(tables@, storage);
        }
        match self {
            Node::Scan(n) => {
                let at: usize = n.table;
                let ghost was = *n;
                proof {
                    was.op.lemma_unread(tables@[at as int]);
                    was.op.lemma_ended();
                }
                let r = n.op.supply(data, block_size, &tables[at], memory);
                proof {
                    if r is Ok {
                        let b = Node::Scan(*n);
                        let asked = was.op.asked();
                        let more = blocks_in(data@, block_size as int, asked);
                        assert forall|files: TableFiles|
                            a.reads_from(files) && files.holds(
                                a.wanted(),
                                data@,
                                block_size as int,
                            ) implies #[trigger] b.reads_from(files) by {
                            assert(was.op.reads_from(files, at as int));
                            if let Some(range) = was.op.range() {
                                let done = was.op.blocks_read().len();
                                assert forall|i: int|
                                    0 <= i < n.op.blocks_read().len() implies #[trigger]
                                    n.op.blocks_read()[i] == (files.disk)(range.0 + i) by {
                                    if i < done {
                                        assert(was.op.blocks_read()[i] == n.op.blocks_read()[i]);
                                    } else {
                                        let k = i - done;
                                        let w = a.wanted();
                                        assert(w == (range.0 + done, asked));
                                        assert(blocks_in(data@, block_size as int, w.1)[k] == (
                                        files.disk)(w.0 + k));
                                        assert(more[k] == n.op.blocks_read()[i]);
                                    }
                                }
                            }
                            assert(n.op.reads_from(files, at as int));
                        }
                    }
                }
                r
            },
            Node::Filter(n) => {
                let ghost was = *n;
                proof {
                    was.input.lemma_asking(tables@, storage);
                }
                let r = n.input.supply_table(data, block_size, tables, memory, storage);
                proof {
                    if r is Ok {
                        let b = Node::Filter(*n);
                        assert forall|files: TableFiles|
                            a.reads_from(files) && files.holds(
                                a.wanted(),
                                data@,
                                block_size as int,
                            ) implies #[trigger] b.reads_from(files) by {
                            assert(was.input.reads_from(files));
                            assert(n.input.reads_from(files));
                        }
                    }
                }
                r
            },
            Node::Project(n) => {
                let ghost was = *n;
                proof {
                    was.input.lemma_asking(tables@, storage);
                }
                let r = n.input.supply_table(data, block_size, tables, memory, storage);
                proof {
                    if r is Ok {
                        let b = Node::Project(*n);
                        assert forall|files: TableFiles|
                            a.reads_from(files) && files.holds(
                                a.wanted(),
                                data@,
                                block_size as int,
                            ) implies #[trigger] b.reads_from(files) by {
                            assert(was.input.reads_from(files));
                            assert(n.input.reads_from(files));
                        }
                    }
                }
                r
            },
            Node::Join(n) => {
                let ghost was = *n;
                proof {
                    n.left.lemma_same_tree_refl();
                    n.right.lemma_same_tree_refl();
                }
                match n.pending {
                    Pending::First => {
                        proof {
                            n.left.lemma_asking(tables@, storage);
                        }
                        let r = n.left.supply_table(data, block_size, tables, memory, storage);
                        proof {
                            if r is Ok {
                                lemma_all_nearer(
                                    n.left.left_to_do(),
                                    n.right.left_to_do(),
                                    n.op.left_to_do(),
                                    was.left.left_to_do(),
                                    was.right.left_to_do(),
                                    was.op.left_to_do(),
                                );
                                let b = Node::Join(*n);
                                assert forall|files: TableFiles|
                                    a.reads_from(files) && files.holds(
                                        a.wanted(),
                                        data@,
                                        block_size as int,
                                    ) implies #[trigger] b.reads_from(files) by {
                                    assert(was.left.reads_from(files));
                                    assert(n.left.reads_from(files));
                                }
                            }
                        }
                        r
                    },
                    Pending::Second => {
                        proof {
                            n.right.lemma_asking(tables@, storage);
                        }
                        let r = n.right.supply_table(data, block_size, tables, memory, storage);
                        proof {
                            if r is Ok {
                                lemma_all_nearer(
                                    n.left.left_to_do(),
                                    n.right.left_to_do(),
                                    n.op.left_to_do(),
                                    was.left.left_to_do(),
                                    was.right.left_to_do(),
                                    was.op.left_to_do(),
                                );
                                let b = Node::Join(*n);
                                assert forall|files: TableFiles|
                                    a.reads_from(files) && files.holds(
                                        a.wanted(),
                                        data@,
                                        block_size as int,
                                    ) implies #[trigger] b.reads_from(files) by {
                                    assert(was.right.reads_from(files));
                                    assert(n.right.reads_from(files));
                                }
                            }
                        }
                        r
                    },
                    _ => Ok(()),
                }
            },
            Node::Sort(n) => {
                let ghost was = *n;
                proof {
                    n.input.lemma_asking(tables@, storage);
                }
                let r = n.input.supply_table(data, block_size, tables, memory, storage);
                proof {
                    if r is Ok {
                        lemma_both_nearer(
                            n.input.left_to_do(),
                            n.op.left_to_do(),
                            was.input.left_to_do(),
                            was.op.left_to_do(),
                        );
                        let b = Node::Sort(*n);
                        assert forall|files: TableFiles|
                            a.reads_from(files) && files.holds(
                                a.wanted(),
                                data@,
                                block_size as int,
                            ) implies #[trigger] b.reads_from(files) by {
                            assert(was.input.reads_from(files));
                            assert(n.input.reads_from(files));
                        }
                    }
                }
                r
            },
        }
    }

    /// Takes the contents of the blocks of temporary storage that were asked for.
    pub fn supply_temp(
        &mut self,
        data: Vec<u8>,
        tables: &[TableSpec],
        storage: &TempStorageManager,
    ) -> (r: Result<(), DbError>)
        requires
            old(self).inv(tables@, storage),
            old(self).asks() == Some(Ask::Temp),
        ensures
            r is Ok ==> supplied(*old(self), *final(self), tables@, storage),
            r is Ok ==> final(self).reserved() == old(self).reserved(),
            r is Ok ==> final(self).faithful() == (old(self).faithful() && old(self).expects(
                data@,
            )),
            old(self).expects(data@) ==> r is Ok,
            r is Ok ==> final(self).out_of_numbers() == old(self).out_of_numbers(),
            r is Ok ==> forall|files: TableFiles| #[trigger]
                final(self).reads_from(files) == old(self).reads_from(files),
        decreases old(self).depth(),
    {
        let ghost a = *self;
        proof {
            a.lemma_asking(tables@, storage);
        }
        match self {
            Node::Scan(_) => Ok(()),
            Node::Filter(n) => {
                let ghost was = *n;
                proof {
                    was.input.lemma_asking(tables@, storage);
                }
                let r = n.input.supply_temp(data, tables, storage);
                proof {
                    if r is Ok {
                        let b = Node::Filter(*n);
                        assert forall|files: TableFiles| #[trigger]
                            b.reads_from(files) == a.reads_from(files) by {
                            assert(n.input.reads_from(files) == was.input.reads_from(files));
                        }
                    }
                }
                r
            },
            Node::Project(n) => {
                let ghost was = *n;
                proof {
                    was.input.lemma_asking(tables@, storage);
                }
                let r = n.input.supply_temp(data, tables, storage);
                proof {
                    if r is Ok {
                        let b = Node::Project(*n);
                        assert forall|files: TableFiles| #[trigger]
                            b.reads_from(files) == a.reads_from(files) by {
                            assert(n.input.reads_from(files) == was.input.reads_from(files));
                        }
                    }
                }
                r
            },
            Node::Join(n) => {
                let ghost was = *n;
                proof {
                    n.left.lemma_same_tree_refl();
                    n.right.lemma_same_tree_refl();
                }
                match n.pending {
                    Pending::First => {
                        proof {
                            n.left.lemma_asking(tables@, storage);
                        }
                        let r = n.left.supply_temp(data, tables, storage);
                        proof {
                            if r is Ok {
                                lemma_all_nearer(
                                    n.left.left_to_do(),
                                    n.right.left_to_do(),
                                    n.op.left_to_do(),
                                    was.left.left_to_do(),
                                    was.right.left_to_do(),
                                    was.op.left_to_do(),
                                );
                                let b = Node::Join(*n);
                                assert forall|files: TableFiles| #[trigger]
                                    b.reads_from(files) == a.reads_from(files) by {
                                    assert(n.left.reads_from(files) == was.left.reads_from(files));
                                }
                            }
                        }
                        r
                    },
                    Pending::Second => {
                        proof {
                            n.right.lemma_asking(tables@, storage);
                        }
                        let r = n.right.supply_temp(data, tables, storage);
                        proof {
                            if r is Ok {
                                lemma_all_nearer(
                                    n.left.left_to_do(),
                                    n.right.left_to_do(),
                                    n.op.left_to_do(),
                                    was.left.left_to_do(),
                                    was.right.left_to_do(),
                                    was.op.left_to_do(),
                                );
                                let b = Node::Join(*n);
                                assert forall|files: TableFiles| #[trigger]
                                    b.reads_from(files) == a.reads_from(files) by {
                                    assert(n.right.reads_from(files) == was.right.reads_from(files));
                                }
                            }
                        }
                        r
                    },
                    Pending::Own => {
                        n.pending = Pending::Nothing;
                        let r = n.op.supply(data, storage);
                        proof {
                            if r is Ok {
                                lemma_all_nearer(
                                    n.left.left_to_do(),
                                    n.right.left_to_do(),
                                    n.op.left_to_do(),
                                    was.left.left_to_do(),
                                    was.right.left_to_do(),
                                    was.op.left_to_do(),
                                );
                            }
                        }
                        r
                    },
                    _ => Ok(()),
                }
            },
            Node::Sort(n) => {
                let ghost was = *n;
                proof {
                    n.input.lemma_same_tree_refl();
                }
                match n.pending {
                    Pending::Own => {
                        proof {
                            n.op.waiting_is_not_ended();
                        }
                        n.pending = Pending::Nothing;
                        let r = n.op.supply(data, storage);
                        proof {
                            if r is Ok {
                                lemma_both_nearer(
                                    n.input.left_to_do(),
                                    n.op.left_to_do(),
                                    was.input.left_to_do(),
                                    was.op.left_to_do(),
                                );
                            }
                        }
                        r
                    },
                    _ => {
                        proof {
                            n.input.lemma_asking(tables@, storage);
                        }
                        let r = n.input.supply_temp(data, tables, storage);
                        proof {
                            if r is Ok {
                                lemma_both_nearer(
                                    n.input.left_to_do(),
                                    n.op.left_to_do(),
                                    was.input.left_to_do(),
                                    was.op.left_to_do(),
                                );
                                let b = Node::Sort(*n);
                                assert forall|files: TableFiles| #[trigger]
                                    b.reads_from(files) == a.reads_from(files) by {
                                    assert(n.input.reads_from(files) == was.input.reads_from(files));
                                }
                            }
                        }
                        r
                    },
                }
            },
        }
    }
}

/// Which columns of a table are kept.
pub open spec fn mask(kept: Option<Seq<int>>, total: int) -> Option<Seq<bool>> {
    match kept {
        Some(k) => Some(Seq::new(total as nat, |i: int| k.contains(i))),
        None => None,
    }
}

/// The tests that conditions stand for.
pub open spec fn tests_of(columns: Seq<Seq<char>>, cs: Seq<Condition>) -> Seq<Test> {
    cs.map_values(|c: Condition| resolved(columns, c))
}

/// The sort keys that columns and directions stand for.
pub open spec fn keys_of(columns: Seq<Seq<char>>, keys: Seq<(Seq<char>, bool)>) -> Seq<SortKey> {
    keys.map_values(
        |k: (Seq<char>, bool)|
            SortKey { idx: column_position(columns, k.0) as usize, ascending: k.1 },
    )
}

/// Whether a plan fits the tables: its tables are there, its scans keep columns that there are,
/// and every column that an operator reads is given out below it.
pub open spec fn buildable(tree: PlanTree, tables: Seq<TableSpec>) -> bool
    decreases tree,
{
    match tree {
        PlanTree::Scan { table, columns, kept, total } => match table_at(tables, table) {
            Some(i) => {
                let n = tables[i].column_specs@.len();
                &&& total == n
                &&& kept matches Some(k) ==> in_bounds(k, n as int)
                &&& columns.len() == kept_count(mask(kept, total), n)
            },
            None => false,
        },
        PlanTree::Filter(input, cs) => {
            &&& buildable(*input, tables)
            &&& first_missing_column(plan_columns(*input), cs) is None
        },
        PlanTree::Join(l, r, cs) => {
            &&& buildable(*l, tables)
            &&& buildable(*r, tables)
            &&& missing_for_join(plan_columns(*l), plan_columns(*r), cs) is None
        },
        PlanTree::Project(input, from, _) => {
            &&& buildable(*input, tables)
            &&& all_present(plan_columns(*input), from)
        },
        PlanTree::Sort(input, keys) => {
            &&& buildable(*input, tables)
            &&& all_present(plan_columns(*input), pair_names(keys))
        },
    }
}

/// Whether rows are those of an input that meet conditions.
pub open spec fn filters(
    columns: Seq<Seq<char>>,
    cs: Seq<Condition>,
    below: Seq<Seq<Value>>,
    rows: Seq<Seq<Value>>,
) -> bool {
    rows == passing(tests_of(columns, cs), below)
}

/// Whether rows are some columns of those of an input.
pub open spec fn projects(
    columns: Seq<Seq<char>>,
    from: Seq<Seq<char>>,
    below: Seq<Seq<Value>>,
    rows: Seq<Seq<Value>>,
) -> bool {
    rows == picked(column_positions(columns, from), below)
}

/// Whether rows are those of two inputs joined, in any order.
pub open spec fn joins(
    ls: Seq<Seq<char>>,
    rs: Seq<Seq<char>>,
    cs: Seq<Condition>,
    a: Seq<Seq<Value>>,
    b: Seq<Seq<Value>>,
    rows: Seq<Seq<Value>>,
) -> bool {
    rows.to_multiset() == join_of(joined_on(ls, rs, cs), a, b)
}

/// Whether rows are those of an input; in order, where they can be put in order.
pub open spec fn sorts(
    columns: Seq<Seq<char>>,
    keys: Seq<(Seq<char>, bool)>,
    below: Seq<Seq<Value>>,
    rows: Seq<Seq<Value>>,
) -> bool {
    &&& rows.to_multiset() == below.to_multiset()
    &&& sortable(keys_of(columns, keys), below) ==> sorted(keys_of(columns, keys), rows)
}

/// Whether rows are a result of a plan for the contents of the tables' files.
pub open spec fn is_result(
    tree: PlanTree,
    tables: Seq<TableSpec>,
    files: TableFiles,
    rows: Seq<Seq<Value>>,
) -> bool
    decreases tree,
{
    match tree {
        PlanTree::Scan { table, columns: _, kept, total } => {
            let i = table_at(tables, table)->0;
            rows == rows_of_blocks(
                files.content(i),
                types_of(tables[i].column_specs@),
                mask(kept, total),
                None,
                None,
            )
        },
        PlanTree::Filter(input, cs) => exists|below: Seq<Seq<Value>>| #[trigger]
            filters(plan_columns(*input), cs, below, rows) && is_result(
                *input,
                tables,
                files,
                below,
            ),
        PlanTree::Join(l, r, cs) => exists|a: Seq<Seq<Value>>, b: Seq<Seq<Value>>| #[trigger]
            joins(plan_columns(*l), plan_columns(*r), cs, a, b, rows) && is_result(
                *l,
                tables,
                files,
                a,
            ) && is_result(*r, tables, files, b),
        PlanTree::Project(input, from, _) => exists|below: Seq<Seq<Value>>| #[trigger]
            projects(plan_columns(*input), from, below, rows) && is_result(
                *input,
                tables,
                files,
                below,
            ),
        PlanTree::Sort(input, keys) => exists|below: Seq<Seq<Value>>| #[trigger]
            sorts(plan_columns(*input), keys, below, rows) && is_result(
                *input,
                tables,
                files,
                below,
            ),
    }
}

/// Whether a plan tests conditions on rows.
pub open spec fn plan_tests(tree: PlanTree) -> bool
    decreases tree,
{
    match tree {
        PlanTree::Scan { .. } => false,
        PlanTree::Filter(input, cs) => cs.len() > 0 || plan_tests(*input),
        PlanTree::Project(input, _, _) => plan_tests(*input),
        PlanTree::Join(l, r, cs) => cs.len() > 0 || plan_tests(*l) || plan_tests(*r),
        PlanTree::Sort(input, _) => plan_tests(*input),
    }
}

/// Whether a plan keeps rows in temporary storage.
pub open spec fn plan_stores(tree: PlanTree) -> bool
    decreases tree,
{
    match tree {
        PlanTree::Scan { .. } => false,
        PlanTree::Filter(input, _) => plan_stores(*input),
        PlanTree::Project(input, _, _) => plan_stores(*input),
        _ => true,
    }
}

/// Whether an error can end a run of a plan whose temporary storage holds what was written to it.
pub open spec fn plan_may_end_with(tree: PlanTree, out_of_numbers: bool, e: DbError) -> bool {
    ||| storage_error(e) && plan_stores(tree)
    ||| e is IncomparableValues && plan_tests(tree)
    ||| e == DbError::BlockIdOverflow && out_of_numbers
}

impl Node {
    /// The operators of a plan test and store rows only where the plan does.
    pub proof fn lemma_ends_as_planned(&self, tree: PlanTree, tables: Seq<TableSpec>)
        requires
            self.built_from(tree, tables),
        ensures
            self.tests_rows() ==> plan_tests(tree),
            self.stores_rows() ==> plan_stores(tree),
        decreases tree,
    {
        match (self, tree) {
            (Node::Filter(n), PlanTree::Filter(input, _)) => {
                n.input.lemma_ends_as_planned(*input, tables);
            },
            (Node::Project(n), PlanTree::Project(input, _, _)) => {
                n.input.lemma_ends_as_planned(*input, tables);
            },
            (Node::Join(n), PlanTree::Join(l, r, cs)) => {
                n.left.lemma_ends_as_planned(*l, tables);
                n.right.lemma_ends_as_planned(*r, tables);
            },
            (Node::Sort(n), PlanTree::Sort(input, _)) => {
                n.input.lemma_ends_as_planned(*input, tables);
            },
            _ => {},
        }
    }

    /// Whether the operators are those of a plan.
    pub closed spec fn built_from(&self, tree: PlanTree, tables: Seq<TableSpec>) -> bool
        decreases tree,
    {
        match (self, tree) {
            (Node::Scan(n), PlanTree::Scan { table, columns, kept, total }) => {
                &&& table_at(tables, table) == Some(n.table as int)
                &&& n.op.schema_view() == columns
                &&& n.op.keep() == mask(kept, total)
                &&& n.op.tests().len() == 0
                &&& n.op.runtime() is None
                &&& n.op.bounds() is None
            },
            (Node::Filter(n), PlanTree::Filter(input, cs)) => {
                &&& n.input.built_from(*input, tables)
                &&& n.op.tests_view() == tests_of(plan_columns(*input), cs)
            },
            (Node::Join(n), PlanTree::Join(l, r, cs)) => {
                &&& n.left.built_from(*l, tables)
                &&& n.right.built_from(*r, tables)
                &&& n.op.on() == joined_on(plan_columns(*l), plan_columns(*r), cs)
            },
            (Node::Project(n), PlanTree::Project(input, from, _)) => {
                &&& n.input.built_from(*input, tables)
                &&& n.op.positions_view() == column_positions(plan_columns(*input), from)
            },
            (Node::Sort(n), PlanTree::Sort(input, keys)) => {
                &&& n.input.built_from(*input, tables)
                &&& n.op.keys() == keys_of(plan_columns(*input), keys)
            },
            _ => false,
        }
    }

    /// Running a tree does not change which plan it was built from.
    pub proof fn stays_built(&self, other: &Node, tree: PlanTree, tables: Seq<TableSpec>)
        requires
            self.built_from(tree, tables),
            other.same_tree(self),
        ensures
            other.built_from(tree, tables),
        decreases tree,
    {
        match (self, other, tree) {
            (Node::Filter(a), Node::Filter(b), PlanTree::Filter(input, _)) => {
                a.input.stays_built(&*b.input, *input, tables);
            },
            (Node::Project(a), Node::Project(b), PlanTree::Project(input, _, _)) => {
                a.input.stays_built(&*b.input, *input, tables);
            },
            (Node::Join(a), Node::Join(b), PlanTree::Join(l, r, _)) => {
                a.left.stays_built(&*b.left, *l, tables);
                a.right.stays_built(&*b.right, *r, tables);
            },
            (Node::Sort(a), Node::Sort(b), PlanTree::Sort(input, _)) => {
                a.input.stays_built(&*b.input, *input, tables);
            },
            _ => {},
        }
    }

    /// A tree that came to its end, was told where the tables' files lie, and was supplied with
    /// what their blocks and temporary storage hold, has given out a result of its plan for the
    /// contents of the files.
    pub proof fn pipeline_gives_the_result(
        &self,
        tree: PlanTree,
        tables: Seq<TableSpec>,
        storage: &TempStorageManager,
        files: TableFiles,
    )
        requires
            self.inv(tables, storage),
            self.done(),
            self.faithful(),
            self.built_from(tree, tables),
            self.reads_from(files),
        ensures
            is_result(tree, tables, files, self.emitted()),
        decreases tree,
    {
        match (self, tree) {
            (Node::Scan(n), PlanTree::Scan { .. }) => {
                n.op.scan_is_complete(tables[n.table as int]);
                n.op.ended_scan_read_its_file(tables[n.table as int], files, n.table as int);
                assert(n.op.filter() is None);
            },
            (Node::Filter(n), PlanTree::Filter(input, cs)) => {
                n.input.pipeline_gives_the_result(*input, tables, storage, files);
                assert(filters(plan_columns(*input), cs, n.input.emitted(), self.emitted()));
            },
            (Node::Project(n), PlanTree::Project(input, from, _)) => {
                n.input.pipeline_gives_the_result(*input, tables, storage, files);
                assert(projects(plan_columns(*input), from, n.input.emitted(), self.emitted()));
            },
            (Node::Join(n), PlanTree::Join(l, r, cs)) => {
                n.op.join_is_complete(storage);
                n.left.pipeline_gives_the_result(*l, tables, storage, files);
                n.right.pipeline_gives_the_result(*r, tables, storage, files);
                assert(joins(
                    plan_columns(*l),
                    plan_columns(*r),
                    cs,
                    n.left.emitted(),
                    n.right.emitted(),
                    self.emitted(),
                ));
            },
            (Node::Sort(n), PlanTree::Sort(input, keys)) => {
                n.op.sort_is_complete(storage);
                n.op.ended_wants_nothing();
                n.input.pipeline_gives_the_result(*input, tables, storage, files);
                assert(sorts(plan_columns(*input), keys, n.input.emitted(), self.emitted()));
            },
            _ => {},
        }
    }

    /// Whether nothing has happened in a tree yet.
    pub open spec fn is_fresh(&self, tables: Seq<TableSpec>) -> bool {
        &&& !self.out_of_numbers()
        &&& self.emitted().len() == 0
        &&& self.files() == Set::<u64>::empty()
        &&& self.reserved() == 0
        &&& self.faithful()
        &&& !self.done()
        &&& forall|s: &TempStorageManager| s.inv() ==> #[trigger] self.inv(tables, s)
        &&& forall|files: TableFiles| #[trigger] self.reads_from(files)
    }

    /// Builds the operators of a plan.
    pub fn build(plan: &Plan, tables: &[TableSpec], sort_run_bytes: usize) -> (r: Result<
        Node,
        DbError,
    >)
        ensures
            r is Ok <==> buildable(tree_of(*plan), tables@),
            r matches Ok(n) ==> n.built_from(tree_of(*plan), tables@) && n.is_fresh(tables@)
                && n.width() == plan_columns(tree_of(*plan)).len(),
            r matches Err(e) ==> e is TableNotFound || e is ColumnNotFound || e is RowSchemaMismatch
                || e is RowIndexOutOfBounds,
        decreases plan,
    {
        match plan {
            Plan::Scan(s) => build_scan(s, tables),
            Plan::Filter(input, preds) => {
                let below = match Node::build(input, tables, sort_run_bytes) {
                    Ok(n) => n,
                    Err(e) => {
                        return Err(e);
                    },
                };
                let op = match FilterOperator::new(input.schema(), preds.as_slice()) {
                    Ok(op) => op,
                    Err(e) => {
                        return Err(e);
                    },
                };
                let n = FilterNode {
                    op,
                    input: Box::new(below),
                    done: false,
                    emitted: Ghost(Seq::empty()),
                };
                proof {
                    let node = Node::Filter(n);
                    assert(below.emitted() =~= Seq::<Seq<Value>>::empty());
                    assert forall|s: &TempStorageManager| s.inv() implies #[trigger] node.inv(
                        tables@,
                        s,
                    ) by {
                        assert(below.inv(tables@, s));
                    }
                    assert forall|files: TableFiles| #[trigger] node.reads_from(files) by {
                        assert(below.reads_from(files));
                    }
                }
                Ok(Node::Filter(n))
            },
            Plan::Join(l, r, preds) => {
                let left = match Node::build(l, tables, sort_run_bytes) {
                    Ok(n) => n,
                    Err(e) => {
                        return Err(e);
                    },
                };
                let right = match Node::build(r, tables, sort_run_bytes) {
                    Ok(n) => n,
                    Err(e) => {
                        return Err(e);
                    },
                };
                let ls = l.schema();
                let rs = r.schema();
                let op = match build_join(&ls, &rs, preds.as_slice(), sort_run_bytes) {
                    Ok(op) => op,
                    Err(e) => {
                        return Err(e);
                    },
                };
                let n = JoinNode {
                    op,
                    left: Box::new(left),
                    right: Box::new(right),
                    pending: Pending::Nothing,
                    emitted: Ghost(Seq::empty()),
                };
                proof {
                    let node = Node::Join(n);
                    let none = Seq::<Seq<Value>>::empty();
                    assert(left.emitted() =~= none);
                    assert(right.emitted() =~= none);
                    assert(none.to_multiset() =~= Multiset::<Seq<Value>>::empty()) by {
                        broadcast use vstd::seq_lib::group_to_multiset_ensures;

                    }
                    assert forall|s: &TempStorageManager| s.inv() implies #[trigger] node.inv(
                        tables@,
                        s,
                    ) by {
                        assert(left.inv(tables@, s));
                        assert(right.inv(tables@, s));
                        lemma_fresh_join(op, ls@, rs@, conditions(preds@), s);
                        assert(op.left_rows() =~= none);
                        assert(op.right_rows() =~= none);
                    }
                    assert(node.files() =~= Set::<u64>::empty());
                    assert forall|files: TableFiles| #[trigger] node.reads_from(files) by {
                        assert(left.reads_from(files));
                        assert(right.reads_from(files));
                    }
                }
                Ok(Node::Join(n))
            },
            Plan::Project(input, map) => {
                let below = match Node::build(input, tables, sort_run_bytes) {
                    Ok(n) => n,
                    Err(e) => {
                        return Err(e);
                    },
                };
                let schema = input.schema();
                let op = match ProjectOperator::new(&schema, map.as_slice()) {
                    Ok(op) => op,
                    Err(e) => {
                        return Err(e);
                    },
                };
                let n = ProjectNode {
                    op,
                    input: Box::new(below),
                    done: false,
                    emitted: Ghost(Seq::empty()),
                };
                proof {
                    let node = Node::Project(n);
                    assert(below.emitted() =~= Seq::<Seq<Value>>::empty());
                    assert(picked(op.positions_view(), below.emitted()) =~= Seq::<
                        Seq<Value>,
                    >::empty());
                    assert forall|s: &TempStorageManager| s.inv() implies #[trigger] node.inv(
                        tables@,
                        s,
                    ) by {
                        assert(below.inv(tables@, s));
                    }
                    assert forall|files: TableFiles| #[trigger] node.reads_from(files) by {
                        assert(below.reads_from(files));
                    }
                }
                Ok(Node::Project(n))
            },
            Plan::Sort(input, specs) => {
                let below = match Node::build(input, tables, sort_run_bytes) {
                    Ok(n) => n,
                    Err(e) => {
                        return Err(e);
                    },
                };
                let schema = input.schema();
                proof {
                    assert(pair_names(sort_pairs(specs@)) =~= spec_names(specs@));
                    assert(keys_of(schema@, sort_pairs(specs@)) =~= sort_keys_of(
                        schema@,
                        specs@,
                    ));
                }
                let op = match SortOperator::new(&schema, specs.as_slice(), sort_run_bytes) {
                    Ok(op) => op,
                    Err(e) => {
                        return Err(e);
                    },
                };
                let n = SortNode { op, input: Box::new(below), pending: Pending::Nothing };
                proof {
                    let node = Node::Sort(n);
                    assert(below.emitted() =~= Seq::<Seq<Value>>::empty());
                    assert forall|s: &TempStorageManager| s.inv() implies #[trigger] node.inv(
                        tables@,
                        s,
                    ) by {
                        assert(below.inv(tables@, s));
                        assert(op.inv(s));
                    }
                    assert(node.files() =~= Set::<u64>::empty());
                    assert forall|files: TableFiles| #[trigger] node.reads_from(files) by {
                        assert(below.reads_from(files));
                    }
                }
                Ok(Node::Sort(n))
            },
        }
    }
}

/// Counts the columns that are kept.
fn count_kept(kept: &Vec<usize>, total: usize) -> (r: usize)
    requires
        in_bounds(positions(kept@), total as int),
    ensures
        r == kept_count(mask(Some(positions(kept@)), total as int), total as nat),
{
    let ghost m = mask(Some(positions(kept@)), total as int);
    let mut n: usize = 0;
    let mut i: usize = 0;
    while i < total
        invariant
            i <= total,
            n <= i,
            m == mask(Some(positions(kept@)), total as int),
            n == kept_count(m, i as nat),
        decreases total - i,
    {
        let mut k: usize = 0;
        let mut found = false;
        while k < kept.len()
            invariant
                k <= kept@.len(),
                found <==> exists|j: int| 0 <= j < k && #[trigger] kept@[j] == i,
            decreases kept@.len() - k,
        {
            if kept[k] == i {
                assert(kept@[k as int] == i);
                found = true;
            }
            k += 1;
        }
        proof {
            let p = positions(kept@);
            if found {
                let j = choose|j: int| 0 <= j < kept@.len() && #[trigger] kept@[j] == i;
                assert(p[j] == i as int);
                assert(p.contains(i as int));
            }
            if p.contains(i as int) {
                let j = choose|j: int| 0 <= j < p.len() && p[j] == i as int;
                assert(kept@[j] == i);
            }
            assert(m->0[i as int] == p.contains(i as int));
        }
        if found {
            n += 1;
        }
        i += 1;
    }
    n
}

/// Builds the scan of a plan.
fn build_scan(s: &ScanPlan, tables: &[TableSpec]) -> (r: Result<Node, DbError>)
    ensures
        r is Ok <==> buildable(tree_of(Plan::Scan(*s)), tables@),
        r matches Ok(n) ==> n.built_from(tree_of(Plan::Scan(*s)), tables@) && n.is_fresh(tables@)
            && n.width() == plan_columns(tree_of(Plan::Scan(*s))).len(),
        r matches Err(e) ==> e is TableNotFound || e is RowSchemaMismatch
            || e is RowIndexOutOfBounds,
{
    let at: usize = match table_index(tables, s.table_id.as_str()) {
        Some(i) => i,
        None => {
            return Err(DbError::TableNotFound(s.table_id.clone()));
        },
    };
    let n: usize = tables[at].column_specs.len();
    if s.total_columns != n {
        return Err(DbError::RowSchemaMismatch(s.total_columns, n));
    }
    let op = ScanOperator::new(s.table_id.clone(), s.schema.clone());
    let op = match &s.kept {
        None => {
            proof {
                lemma_all_kept(n as nat);
            }
            if s.schema.len() != n {
                return Err(DbError::RowSchemaMismatch(s.schema.len(), n));
            }
            op
        },
        Some(kept) => {
            let mut k: usize = 0;
            while k < kept.len()
                invariant
                    k <= kept@.len(),
                    forall|j: int| 0 <= j < k ==> #[trigger] kept@[j] < n,
                    s.kept == Some(*kept),
                    s.total_columns == n,
                    table_at(tables@, s.table_id@) == Some(at as int),
                    n == tables@[at as int].column_specs@.len(),
                decreases kept@.len() - k,
            {
                if kept[k] >= n {
                    assert(positions(kept@)[k as int] >= n);
                    return Err(DbError::RowIndexOutOfBounds(kept[k]));
                }
                k += 1;
            }
            assert(in_bounds(positions(kept@), n as int));
            let count: usize = count_kept(kept, n);
            if s.schema.len() != count {
                return Err(DbError::RowSchemaMismatch(s.schema.len(), count));
            }
            let op = op.with_needed_columns(kept.clone(), n);
            proof {
                let p = positions(kept@);
                let want = mask(Some(p), n as int)->0;
                assert forall|i: int| 0 <= i < n implies #[trigger] op.keep()->0[i] == want[i] by {
                    if kept@.contains(i as usize) {
                        let j = choose|j: int| 0 <= j < kept@.len() && kept@[j] == i as usize;
                        assert(p[j] == i);
                    }
                    if p.contains(i) {
                        let j = choose|j: int| 0 <= j < p.len() && p[j] == i;
                        assert(kept@[j] == i as usize);
                    }
                }
                assert(op.keep()->0 =~= want);
            }
            op
        },
    };
    let node = Node::Scan(ScanNode { op, table: at });
    proof {
        op.lemma_not_started(tables@[at as int]);
        assert(node.emitted() == op.emitted());
    }
    Ok(node)
}

/// Where no columns are named, all are kept.
pub proof fn lemma_all_kept(n: nat)
    ensures
        kept_count(None, n) == n,
    decreases n,
{
    if n > 0 {
        lemma_all_kept((n - 1) as nat);
    }
}

} // verus!

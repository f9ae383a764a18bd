//! The external merge sort.
//!
//! Rows are gathered until the memory for them is used up. They are sorted and written to a
//! temporary run, and gathering starts again. In the end the runs are merged, in groups and in
//! as many passes as it takes.

use std::collections::VecDeque;
use vstd::multiset::Multiset;
use vstd::prelude::*;
use crate::error::DbError;
use crate::group_merge::{GroupMerge, GroupNext, in_order, lemma_in_order_step, spill_run};
use crate::join_table::all_len;
use crate::ordering::{SortKey, all_typed, keys_within, not_after, sortable, sorted};
use crate::partition_join::{bag, lemma_bag_empty};
use crate::query::SortSpec;
use crate::progress::{nearer, nearer_at, nearer_back, not_farther, not_farther_if};
use crate::row::{Row, RowSchema, all_present, column_position, first_missing};
use crate::row_sort::{lemma_bag_front, lemma_len_permutation, sort_rows};
use crate::run_list::{lemma_runs_bag_one, lemma_runs_kept, lemma_runs_none, lemma_runs_present, lemma_runs_push, lemma_runs_split, lemma_runs_typed, run_files, runs_of, runs_ok};
use crate::run_merge::{RunMerger, runs_bag, runs_sorted, taking_one};
use crate::sort_plan::{choose_merge_reader_pages, choose_sort_merge_fan_in, choose_sort_spill_batch_pages, projected_sort_bytes, projected_vec_capacity_after_push, sort_row_budget_bytes};
use crate::temp_run::{ReadStep, all_fit, blocks_of, cannot_store_all, fits_page, is_content, run_of};
use crate::temp_storage::{BlockRange, MAX_BATCH_PAGES, TempFileId, TempStorageManager, let_go, out_of_room, unharmed, untouched, untouched_file, untouched_more, untouched_same};
use crate::value::{DataType, Value};
use crate::views::rows_of;
use crate::pairs::shares;

verus! {

broadcast use crate::views::lemma_rows_of_push;

/// What a sort asks for or gives.
#[derive(Debug)]
pub enum SortStep {
    /// The next row of the input is to be fed in.
    Pull,
    /// Work was done; another step is to be made.
    Again,
    /// These blocks are to be read and supplied.
    Need(Vec<BlockRange>),
    /// The start of the anonymous region is to be told to the storage.
    NeedAnonStart,
    /// The next row in order.
    Row(Row),
    /// There are no more rows.
    Done,
}

struct Gather {
    rows: VecDeque<Row>,
    bytes_used: usize,
    capacity: usize,
    overflow: Option<Row>,
    run_ids: Vec<TempFileId>,
}

struct Collapse {
    current: Vec<TempFileId>,
    next: Vec<TempFileId>,
    active: Option<GroupMerge>,
}

struct FinalMerge {
    run_ids: Vec<TempFileId>,
    merger: RunMerger,
}

enum SortState {
    Gathering(Gather),
    Collapsing(Collapse),
    InMemory(VecDeque<Row>),
    External(FinalMerge),
    Done,
}

/// Sorts its input.
pub struct SortOperator {
    schema: RowSchema,
    sort_keys: Vec<SortKey>,
    sort_run_bytes: usize,
    state: SortState,
    input: Ghost<Seq<Seq<Value>>>,
    emitted: Ghost<Seq<Seq<Value>>>,
    faithful: Ghost<bool>,
    failed: Ghost<bool>,
}

/// The names of the columns to sort by.
pub open spec fn spec_names(specs: Seq<SortSpec>) -> Seq<Seq<char>> {
    specs.map_values(|s: SortSpec| s.column_name@)
}

/// The sort keys that a list of columns stands for.
pub open spec fn sort_keys_of(schema: Seq<Seq<char>>, specs: Seq<SortSpec>) -> Seq<SortKey> {
    specs.map_values(
        |s: SortSpec|
            SortKey {
                idx: column_position(schema, s.column_name@) as usize,
                ascending: s.ascending,
            },
    )
}

/// Looks the columns up.
pub fn resolve_sort_specs(schema: &RowSchema, sort_specs: &[SortSpec]) -> (r: Result<
    Vec<SortKey>,
    DbError,
>)
    ensures
        r is Ok <==> all_present(schema@, spec_names(sort_specs@)),
        r matches Ok(v) ==> v@ == sort_keys_of(schema@, sort_specs@) && keys_within(
            v@,
            schema@.len(),
        ),
        r matches Err(e) ==> e matches DbError::ColumnNotFound(c) && c@ == first_missing(
            schema@,
            spec_names(sort_specs@),
        ),
{
    let ghost names = spec_names(sort_specs@);
    let mut keys: Vec<SortKey> = Vec::new();
    let mut i: usize = 0;
    assert(names.skip(0) =~= names);
    while i < sort_specs.len()
        invariant
            i <= sort_specs@.len(),
            names == spec_names(sort_specs@),
            keys@.len() == i,
            forall|j: int|
                0 <= j < i ==> (#[trigger] keys@[j]) == sort_keys_of(schema@, sort_specs@)[j]
                    && keys@[j].idx < schema@.len(),
            forall|j: int| 0 <= j < i ==> schema@.contains(#[trigger] names[j]),
            first_missing(schema@, names) == first_missing(schema@, names.skip(i as int)),
        decreases sort_specs@.len() - i,
    {
        assert(names[i as int] == sort_specs@[i as int].column_name@);
        assert(names.skip(i as int)[0] == names[i as int]);
        match schema.require_index(sort_specs[i].column_name.as_str()) {
            Ok(idx) => {
                keys.push(SortKey { idx, ascending: sort_specs[i].ascending });
            },
            Err(e) => {
                return Err(e);
            },
        }
        assert(names.skip(i as int).drop_first() =~= names.skip(i + 1));
        i = i + 1;
    }
    assert(keys@ =~= sort_keys_of(schema@, sort_specs@));
    Ok(keys)
}

impl Gather {
    spec fn overflow_bag(&self) -> Multiset<Seq<Value>> {
        match self.overflow {
            Some(row) => Multiset::singleton(row@),
            None => Multiset::empty(),
        }
    }

    spec fn ok(
        &self,
        keys: Seq<SortKey>,
        len: nat,
        input: Seq<Seq<Value>>,
        storage: &TempStorageManager,
    ) -> bool {
        &&& runs_ok(self.run_ids@, storage, len)
        &&& all_len(rows_of(self.rows@), len)
        &&& self.overflow matches Some(row) ==> row@.len() == len && self.rows@.len() > 0
        &&& runs_bag(runs_of(self.run_ids@, storage)).add(bag(self.rows@)).add(self.overflow_bag())
            == input.to_multiset()
        &&& sortable(keys, input) ==> runs_sorted(keys, runs_of(self.run_ids@, storage))
    }
}

impl Collapse {
    /// How many runs there are.
    spec fn width(&self) -> nat {
        self.current@.len() + self.next@.len() + (match self.active {
            Some(g) => g.width(),
            None => 0,
        })
    }

    /// How much is left to do: the runs, whether the pass is under way, its runs, and of the
    /// group that is being merged.
    spec fn left_to_do(&self) -> Seq<nat> {
        seq![
            self.width(),
            if self.width() > 1 && self.next@.len() > 0 {
                1nat
            } else {
                0nat
            },
            self.current@.len(),
            match self.active {
                Some(g) => g.left_to_do(),
                None => 0,
            },
        ]
    }

    spec fn active_files(&self) -> Set<u64> {
        match self.active {
            Some(g) => g.files(),
            None => Set::empty(),
        }
    }

    spec fn active_bag(&self) -> Multiset<Seq<Value>> {
        match self.active {
            Some(g) => g.content(),
            None => Multiset::empty(),
        }
    }

    spec fn files(&self) -> Set<u64> {
        run_files(self.current@).union(run_files(self.next@)).union(self.active_files())
    }

    spec fn ok(&self, len: nat, storage: &TempStorageManager) -> bool {
        &&& runs_ok(self.current@, storage, len)
        &&& runs_ok(self.next@, storage, len)
        &&& run_files(self.current@).disjoint(run_files(self.next@))
        &&& self.active_files().disjoint(run_files(self.current@))
        &&& self.active_files().disjoint(run_files(self.next@))
        &&& self.active matches Some(g) ==> g.ok(len, storage) && g.width() > 1
    }

    spec fn good(
        &self,
        keys: Seq<SortKey>,
        len: nat,
        input: Seq<Seq<Value>>,
        storage: &TempStorageManager,
    ) -> bool {
        &&& self.active matches Some(g) ==> g.good(len)
        &&& runs_bag(runs_of(self.current@, storage)).add(
            runs_bag(runs_of(self.next@, storage)),
        ).add(self.active_bag()) == input.to_multiset()
        &&& sortable(keys, input) ==> {
            &&& runs_sorted(keys, runs_of(self.current@, storage))
            &&& runs_sorted(keys, runs_of(self.next@, storage))
            &&& self.active matches Some(g) ==> in_order(keys, g.written(), g.left())
        }
    }
}

/// Rows that are all among rows that fit a page fit a page.
proof fn lemma_fit_part(rows: Seq<Seq<Value>>, all: Seq<Seq<Value>>, size: nat)
    requires
        rows.to_multiset().subset_of(all.to_multiset()),
        all_fit(all, size),
    ensures
        all_fit(rows, size),
{
    broadcast use vstd::seq_lib::group_to_multiset_ensures;

    assert forall|i: int| 0 <= i < rows.len() implies fits_page(#[trigger] rows[i], size) by {
        assert(rows.contains(rows[i]));
        assert(rows.to_multiset().count(rows[i]) > 0);
        assert(all.to_multiset().count(rows[i]) > 0);
        assert(all.contains(rows[i]));
        let j = choose|j: int| 0 <= j < all.len() && all[j] == rows[i];
        assert(fits_page(all[j], size));
    }
}

proof fn lemma_fit_permutation(a: Seq<Seq<Value>>, b: Seq<Seq<Value>>, size: nat)
    requires
        a.to_multiset() == b.to_multiset(),
    ensures
        all_fit(b, size) ==> all_fit(a, size),
        a.len() == b.len(),
{
    broadcast use vstd::seq_lib::group_to_multiset_ensures;

    assert(a.to_multiset().len() == a.len());
    assert(b.to_multiset().len() == b.len());
    if all_fit(b, size) {
        lemma_fit_part(a, b, size);
    }
}

/// Room for more batches is room for one.
proof fn lemma_room_for_one(storage: &TempStorageManager, n: nat)
    ensures
        storage.roomy(shares(n + 2, MAX_BATCH_PAGES as nat)) ==> storage.roomy(
            MAX_BATCH_PAGES as nat,
        ),
{
    reveal(shares);
    assert(512 <= (n + 2) * 512) by (nonlinear_arith);
    if storage.roomy(shares(n + 2, MAX_BATCH_PAGES as nat)) {
        storage.roomy_for_fewer(shares(n + 2, MAX_BATCH_PAGES as nat), MAX_BATCH_PAGES as nat);
    }
}

/// Rows that are all among sortable rows are sortable.
proof fn lemma_sortable_part(
    keys: Seq<SortKey>,
    part: Seq<Seq<Value>>,
    input: Seq<Seq<Value>>,
)
    requires
        part.to_multiset().subset_of(input.to_multiset()),
        sortable(keys, input),
    ensures
        sortable(keys, part),
{
    broadcast use vstd::seq_lib::group_to_multiset_ensures;

    let types = choose|types: Seq<DataType>| #[trigger] all_typed(keys, types, input);
    assert forall|i: int| 0 <= i < part.len() implies crate::ordering::row_typed(
        keys,
        types,
        #[trigger] part[i],
    ) by {
        assert(part.contains(part[i]));
        assert(input.to_multiset().count(part[i]) > 0);
        assert(input.contains(part[i]));
    }
    assert(all_typed(keys, types, part));
}

/// More input cannot make rows sortable that were not.
proof fn lemma_sortable_prefix(keys: Seq<SortKey>, input: Seq<Seq<Value>>, row: Seq<Value>)
    requires
        sortable(keys, input.push(row)),
    ensures
        sortable(keys, input),
{
    let types = choose|types: Seq<DataType>| #[trigger] all_typed(keys, types, input.push(row));
    assert forall|i: int| 0 <= i < input.len() implies crate::ordering::row_typed(
        keys,
        types,
        #[trigger] input[i],
    ) by {
        assert(input.push(row)[i] == input[i]);
    }
    assert(all_typed(keys, types, input));
}

/// Sorts rows and writes them to a new run.
fn write_sorted(
    rows: VecDeque<Row>,
    run_ids: &mut Vec<TempFileId>,
    sort_keys: &[SortKey],
    sort_run_bytes: usize,
    storage: &mut TempStorageManager,
    Ghost(len): Ghost<nat>,
) -> (r: Result<(), DbError>)
    requires
        old(storage).inv(),
        runs_ok(old(run_ids)@, old(storage), len),
        all_len(rows_of(rows@), len),
        keys_within(sort_keys@, len),
    ensures
        final(storage).inv(),
        untouched(old(storage), final(storage), Set::empty()),
        r is Ok ==> {
            &&& runs_ok(final(run_ids)@, final(storage), len)
            &&& final(run_ids)@.len() == old(run_ids)@.len() + 1
            &&& run_files(old(run_ids)@).subset_of(run_files(final(run_ids)@))
            &&& runs_bag(runs_of(final(run_ids)@, final(storage))) == runs_bag(
                runs_of(old(run_ids)@, old(storage)),
            ).add(bag(rows@))
            &&& sortable(sort_keys@, rows_of(rows@)) && runs_sorted(
                sort_keys@,
                runs_of(old(run_ids)@, old(storage)),
            ) ==> runs_sorted(sort_keys@, runs_of(final(run_ids)@, final(storage)))
            &&& forall|f: u64| #[trigger]
                run_files(final(run_ids)@).contains(f) ==> run_files(old(run_ids)@).contains(f)
                    || !old(storage).has_file(f)
        },
        all_fit(rows_of(rows@), old(storage).size()) && old(storage).roomy(
            shares(rows@.len() + 2, MAX_BATCH_PAGES as nat),
        ) ==> r is Ok,
        r matches Err(e) ==> cannot_store_all(e, rows_of(rows@), final(storage)),
{
    let ghost s0 = *storage;
    let ghost ids = run_ids@;
    let ghost none = Set::<u64>::empty();
    let pages: usize = choose_sort_spill_batch_pages(sort_run_bytes, storage.block_size());
    let ghost before = rows@;
    let sorted_rows = sort_rows(rows, sort_keys);
    proof {
        lemma_runs_present(ids, storage, len);
        lemma_fit_permutation(rows_of(sorted_rows@), rows_of(before), storage.size());
        lemma_fit_permutation(rows_of(before), rows_of(sorted_rows@), storage.size());
    }
    let spilled = spill_run(&sorted_rows, pages, storage);
    proof {
        untouched_file(&s0, storage, none, 0);
    }
    match spilled {
        Ok(id) => {
            proof {
                lemma_runs_kept(ids, &s0, storage, none, len);
                lemma_runs_push(ids, id, storage, len);
                let runs = runs_of(ids.push(id), storage);
                if sortable(sort_keys@, rows_of(before)) && runs_sorted(
                    sort_keys@,
                    runs_of(ids, &s0),
                ) {
                    assert forall|i: int| 0 <= i < runs.len() implies sorted(
                        sort_keys@,
                        #[trigger] runs[i],
                    ) by {
                        if i < ids.len() {
                            assert(runs[i] == runs_of(ids, &s0)[i]);
                        }
                    }
                }
            }
            run_ids.push(id);
            Ok(())
        },
        Err(e) => Err(e),
    }
}

impl Gather {
    /// Writes the rows that were gathered to a run, and starts with the row that had no room.
    fn spill(
        self,
        sort_keys: &[SortKey],
        sort_run_bytes: usize,
        storage: &mut TempStorageManager,
        Ghost(len): Ghost<nat>,
        Ghost(input): Ghost<Seq<Seq<Value>>>,
    ) -> (r: Result<Gather, DbError>)
        requires
            old(storage).inv(),
            keys_within(sort_keys@, len),
            self.ok(sort_keys@, len, input, old(storage)),
        ensures
            final(storage).inv(),
            untouched(old(storage), final(storage), Set::empty()),
            r matches Ok(g) ==> {
                &&& g.ok(sort_keys@, len, input, final(storage))
                &&& g.overflow is None
                &&& g.rows@.len() == (if self.overflow is Some {
                    1nat
                } else {
                    0
                })
                &&& g.run_ids@.len() == self.run_ids@.len() + 1
                &&& run_files(self.run_ids@).subset_of(run_files(g.run_ids@))
                &&& forall|f: u64| #[trigger]
                    run_files(g.run_ids@).contains(f) ==> run_files(self.run_ids@).contains(f)
                        || !old(storage).has_file(f)
            },
            all_fit(input, old(storage).size()) && old(storage).roomy(
                shares(self.rows@.len() + 2, MAX_BATCH_PAGES as nat),
            ) ==> r is Ok,
            r matches Err(e) ==> cannot_store_all(e, input, final(storage)),
    {
        let ghost s0 = *storage;
        let ghost keys = sort_keys@;
        let ghost over = self.overflow_bag();
        let ghost kept = bag(self.rows@);
        let ghost earlier = runs_bag(runs_of(self.run_ids@, storage));
        let mut run_ids = self.run_ids;
        proof {
            assert(kept.subset_of(input.to_multiset())) by {
                assert(earlier.add(kept).add(over) == input.to_multiset());
            }
            if all_fit(input, storage.size()) {
                lemma_fit_part(rows_of(self.rows@), input, storage.size());
            }
            if sortable(keys, input) {
                assert(kept.subset_of(input.to_multiset())) by {
                    assert(earlier.add(kept).add(over) == input.to_multiset());
                }
                lemma_sortable_part(keys, rows_of(self.rows@), input);
            }
        }
        match write_sorted(
            self.rows,
            &mut run_ids,
            sort_keys,
            sort_run_bytes,
            storage,
            Ghost(len),
        ) {
            Ok(_) => {},
            Err(e) => {
                proof {
                    untouched_file(&s0, storage, Set::empty(), 0);
                }
                return Err(e);
            },
        }
        let mut rows: VecDeque<Row> = VecDeque::new();
        let mut bytes_used: usize = 0;
        let mut capacity: usize = 0;
        proof {
            lemma_bag_empty();
            assert(rows_of(rows@) =~= Seq::<Seq<Value>>::empty());
        }
        match self.overflow {
            Some(row) => {
                bytes_used = row.estimate_heap_size();
                capacity = projected_vec_capacity_after_push(0, 0);
                let ghost rv = row@;
                rows.push_back(row);
                proof {
                    broadcast use vstd::seq_lib::group_to_multiset_ensures;

                    assert(rows_of(rows@) =~= Seq::<Seq<Value>>::empty().push(rv));
                    assert(bag(rows@) =~= Multiset::singleton(rv));
                }
            },
            None => {},
        }
        let g = Gather { rows, bytes_used, capacity, overflow: None, run_ids };
        proof {
            let none = Multiset::<Seq<Value>>::empty();
            assert(bag(g.rows@) =~= over);
            assert(earlier.add(kept).add(over).add(none) =~= earlier.add(kept).add(over));
        }
        Ok(g)
    }

    /// Takes a row: into the rows that are gathered where there is memory for it.
    fn take(
        &mut self,
        row: Row,
        sort_run_bytes: usize,
        block_size: usize,
        Ghost(keys): Ghost<Seq<SortKey>>,
        Ghost(len): Ghost<nat>,
        Ghost(input): Ghost<Seq<Seq<Value>>>,
        Ghost(storage): Ghost<TempStorageManager>,
    )
        requires
            old(self).ok(keys, len, input, &storage),
            old(self).overflow is None,
            row@.len() == len,
        ensures
            final(self).ok(keys, len, input.push(row@), &storage),
            final(self).run_ids == old(self).run_ids,
    {
        let ghost before = *self;
        let ghost rv = row@;
        let row_bytes: usize = row.estimate_heap_size();
        let capacity: usize = projected_vec_capacity_after_push(self.rows.len(), self.capacity);
        let need: usize = projected_sort_bytes(self.bytes_used, row_bytes, capacity);
        let budget: usize = sort_row_budget_bytes(sort_run_bytes, block_size);
        let ghost runs = runs_bag(runs_of(self.run_ids@, &storage));
        let ghost none = Multiset::<Seq<Value>>::empty();
        proof {
            broadcast use vstd::seq_lib::group_to_multiset_ensures;

            assert(input.push(rv).to_multiset() == input.to_multiset().insert(rv));
            if sortable(keys, input.push(rv)) {
                lemma_sortable_prefix(keys, input, rv);
            }
        }
        if self.rows.len() > 0 && need >= budget {
            self.overflow = Some(row);
            proof {
                let b = bag(before.rows@);
                assert(runs.add(b).add(Multiset::singleton(rv)) =~= runs.add(b).add(none).insert(
                    rv,
                ));
            }
            return ;
        }
        self.bytes_used = self.bytes_used.saturating_add(row_bytes);
        self.capacity = capacity;
        self.rows.push_back(row);
        proof {
            broadcast use vstd::seq_lib::group_to_multiset_ensures;

            let b = bag(before.rows@);
            assert(rows_of(self.rows@) =~= rows_of(before.rows@).push(rv));
            assert(bag(self.rows@) == b.insert(rv));
            assert(runs.add(b.insert(rv)).add(none) =~= runs.add(b).add(none).insert(rv));
        }
    }
}

enum CollapseNext {
    Again(Collapse),
    Need(Collapse, Vec<BlockRange>),
    /// Few enough runs are left.
    Ready(Vec<TempFileId>),
}

impl Collapse {
    /// Takes up the next group of runs, or goes over to the next pass.
    #[verifier::rlimit(40)]
    fn advance(
        self,
        sort_run_bytes: usize,
        storage: &mut TempStorageManager,
        Ghost(keys): Ghost<Seq<SortKey>>,
        Ghost(len): Ghost<nat>,
        Ghost(input): Ghost<Seq<Seq<Value>>>,
    ) -> (r: Result<CollapseNext, DbError>)
        requires
            old(storage).inv(),
            self.ok(len, old(storage)),
            self.active is None,
        ensures
            final(storage).inv(),
            untouched(old(storage), final(storage), self.files()),
            match r {
                Ok(CollapseNext::Again(c)) => {
                    &&& nearer(c.left_to_do(), self.left_to_do())
                    &&& let_go(self.files(), c.files(), final(storage))
                    &&& c.ok(len, final(storage))
                    &&& forall|f: u64| #[trigger]
                        c.files().contains(f) ==> self.files().contains(f) || !old(
                            storage,
                        ).has_file(f)
                    &&& self.good(keys, len, input, old(storage)) ==> c.good(
                        keys,
                        len,
                        input,
                        final(storage),
                    )
                },
                Ok(CollapseNext::Need(_, _)) => false,
                Ok(CollapseNext::Ready(ids)) => {
                    &&& *final(storage) == *old(storage)
                    &&& self.files() == run_files(ids@)
                    &&& runs_ok(ids@, final(storage), len)
                    &&& run_files(ids@).subset_of(self.files())
                    &&& self.good(keys, len, input, old(storage)) ==> runs_bag(
                        runs_of(ids@, final(storage)),
                    ) == input.to_multiset() && (sortable(keys, input) ==> runs_sorted(
                        keys,
                        runs_of(ids@, final(storage)),
                    ))
                },
                Err(e) => out_of_room(e, final(storage)) && !old(storage).roomy(
                    MAX_BATCH_PAGES as nat,
                ),
            },
    {
        let ghost s0 = *storage;
        let ghost mine = self.files();
        let ghost none = Multiset::<Seq<Value>>::empty();
        let ghost cur_bag = runs_bag(runs_of(self.current@, storage));
        let ghost next_bag = runs_bag(runs_of(self.next@, storage));
        let block_size: usize = storage.block_size();
        let fan_in: usize = choose_sort_merge_fan_in(sort_run_bytes, block_size);
        proof {
            untouched_same(&s0, storage, mine);
            lemma_runs_none();
            lemma_runs_present(self.current@, storage, len);
            lemma_runs_present(self.next@, storage, len);
        }
        let mut current = self.current;
        let mut next = self.next;
        if current.len() == 0 {
            proof {
                assert(current@ =~= Seq::<TempFileId>::empty());
                assert(none.add(next_bag).add(none) =~= next_bag);
            }
            if next.len() <= fan_in {
                assert(mine =~= run_files(next@));
                return Ok(CollapseNext::Ready(next));
            }
            let c = Collapse { current: next, next: Vec::new(), active: None };
            proof {
                assert(c.next@ =~= Seq::<TempFileId>::empty());
                assert(next_bag.add(none).add(none) =~= next_bag);
                nearer_at(c.left_to_do(), self.left_to_do(), 1);
                assert(mine =~= c.files());
            }
            return Ok(CollapseNext::Again(c));
        }
        let k: usize = if fan_in < current.len() {
            fan_in
        } else {
            current.len()
        };
        proof {
            lemma_runs_split(current@, k as int, storage, len);
        }
        let ghost whole = current@;
        let rest = current.split_off(k);
        proof {
            assert(current@ =~= whole.take(k as int));
            assert(rest@ =~= whole.skip(k as int));
        }
        let ghost group_bag = runs_bag(runs_of(current@, storage));
        let ghost rest_bag = runs_bag(runs_of(rest@, storage));
        if k == 1 {
            let id = current[0];
            proof {
                reveal(runs_ok);
                reveal(run_files);
                assert(current@[0] == id);
                assert(run_files(current@).contains(id.0));
                assert(run_of(storage, id.0) is Some);
                assert(!run_files(next@).contains(id.0));
                lemma_runs_push(next@, id, storage, len);
                assert(runs_of(current@, storage) =~= seq![run_of(storage, id.0)->0]);
                lemma_runs_bag_one(run_of(storage, id.0)->0);
            }
            let ghost old_next = next@;
            next.push(id);
            let c = Collapse { current: rest, next, active: None };
            proof {
                nearer_at(c.left_to_do(), self.left_to_do(), 2);
                assert(c.files().subset_of(mine));
                assert(mine.subset_of(c.files()));
                if self.good(keys, len, input, &s0) {
                    assert(rest_bag.add(next_bag.add(group_bag)).add(none) =~= group_bag.add(
                        rest_bag,
                    ).add(next_bag).add(none));
                    if sortable(keys, input) {
                        self.lemma_group_sorted(keys, whole, k as int, storage);
                        let runs = runs_of(c.next@, storage);
                        assert forall|i: int| 0 <= i < runs.len() implies sorted(
                            keys,
                            #[trigger] runs[i],
                        ) by {
                            if i < old_next.len() {
                                assert(runs[i] == runs_of(old_next, storage)[i]);
                            } else {
                                assert(runs[i] == runs_of(current@, storage)[0]);
                            }
                        }
                    }
                }
            }
            return Ok(CollapseNext::Again(c));
        }
        let reader_pages: usize = choose_merge_reader_pages(
            sort_run_bytes,
            block_size,
            current.len(),
        );
        let writer_pages: usize = choose_sort_spill_batch_pages(sort_run_bytes, block_size);
        let ghost group = current@;
        match GroupMerge::start(current, reader_pages, writer_pages, storage, Ghost(len)) {
            Ok(g) => {
                let c = Collapse { current: rest, next, active: Some(g) };
                proof {
                    nearer_at(c.left_to_do(), self.left_to_do(), 2);
                    let empty = Set::<u64>::empty();
                    untouched_more(&s0, storage, empty, mine);
                    lemma_runs_kept(rest@, &s0, storage, empty, len);
                    lemma_runs_kept(next@, &s0, storage, empty, len);
                    lemma_bag_empty();
                    assert(g.content() =~= group_bag);
                    assert(run_files(group).subset_of(run_files(whole)));
                    lemma_runs_present(rest@, &s0, len);
                    assert(run_files(group).disjoint(run_files(rest@)));
                    assert(g.files().disjoint(run_files(rest@)));
                    assert(g.files().disjoint(run_files(next@)));
                    assert forall|f: u64| #[trigger] c.files().contains(f) implies mine.contains(f)
                        || !s0.has_file(f) by {}
                    assert(mine.subset_of(c.files()));
                    if self.good(keys, len, input, &s0) {
                        assert(rest_bag.add(next_bag).add(group_bag) =~= group_bag.add(
                            rest_bag,
                        ).add(next_bag).add(none));
                        if sortable(keys, input) {
                            self.lemma_group_sorted(keys, whole, k as int, &s0);
                        }
                    }
                }
                Ok(CollapseNext::Again(c))
            },
            Err(e) => {
                proof {
                    untouched_more(&s0, storage, Set::empty(), mine);
                }
                Err(e)
            },
        }
    }

    proof fn lemma_group_sorted(
        &self,
        keys: Seq<SortKey>,
        whole: Seq<TempFileId>,
        k: int,
        storage: &TempStorageManager,
    )
        requires
            0 <= k <= whole.len(),
            runs_sorted(keys, runs_of(whole, storage)),
        ensures
            runs_sorted(keys, runs_of(whole.take(k), storage)),
            runs_sorted(keys, runs_of(whole.skip(k), storage)),
    {
        let all = runs_of(whole, storage);
        let a = runs_of(whole.take(k), storage);
        let b = runs_of(whole.skip(k), storage);
        assert forall|i: int| 0 <= i < a.len() implies sorted(keys, #[trigger] a[i]) by {
            assert(a[i] == all[i]);
        }
        assert forall|i: int| 0 <= i < b.len() implies sorted(keys, #[trigger] b[i]) by {
            assert(b[i] == all[k + i]);
        }
    }

    /// Goes on with the group that is being merged.
    fn merge(
        self,
        sort_keys: &[SortKey],
        len: usize,
        storage: &mut TempStorageManager,
        Ghost(input): Ghost<Seq<Seq<Value>>>,
    ) -> (r: Result<CollapseNext, DbError>)
        requires
            old(storage).inv(),
            self.ok(len as nat, old(storage)),
            self.active is Some,
            keys_within(sort_keys@, len as nat),
        ensures
            final(storage).inv(),
            untouched(old(storage), final(storage), self.files()),
            match r {
                Ok(CollapseNext::Again(c)) => {
                    &&& nearer(c.left_to_do(), self.left_to_do())
                    &&& let_go(self.files(), c.files(), final(storage))
                    &&& c.ok(len as nat, final(storage))
                    &&& c.files().subset_of(self.files())
                    &&& self.good(sort_keys@, len as nat, input, old(storage)) ==> c.good(
                        sort_keys@,
                        len as nat,
                        input,
                        final(storage),
                    )
                },
                Ok(CollapseNext::Need(c, ranges)) => {
                    &&& not_farther(c.left_to_do(), self.left_to_do())
                    &&& let_go(self.files(), c.files(), final(storage))
                    &&& c.ok(len as nat, final(storage))
                    &&& c.files().subset_of(self.files())
                    &&& c.active is Some
                    &&& c.active->0.waiting()
                    &&& forall|data: Seq<u8>|
                        is_content(
                            final(storage).disk(),
                            blocks_of(ranges@),
                            data,
                            final(storage).size() as int,
                        ) ==> #[trigger] c.active->0.expects(data)
                    &&& self.good(sort_keys@, len as nat, input, old(storage)) ==> c.good(
                        sort_keys@,
                        len as nat,
                        input,
                        final(storage),
                    )
                },
                Ok(CollapseNext::Ready(_)) => false,
                Err(e) => self.good(sort_keys@, len as nat, input, old(storage)) ==> out_of_room(
                    e,
                    final(storage),
                ) && !old(storage).roomy(MAX_BATCH_PAGES as nat),
            },
    {
        let ghost s0 = *storage;
        let ghost mine = self.files();
        let ghost n = len as nat;
        let ghost keys = sort_keys@;
        let ghost none = Multiset::<Seq<Value>>::empty();
        let ghost was_good = self.good(keys, n, input, storage);
        let ghost cur_bag = runs_bag(runs_of(self.current@, storage));
        let ghost next_bag = runs_bag(runs_of(self.next@, storage));
        let current = self.current;
        let mut next = self.next;
        let g = match self.active {
            Some(g) => g,
            None => {
                proof {
                    untouched_same(&s0, storage, mine);
                }
                return Ok(CollapseNext::Again(Collapse { current, next, active: None }));
            },
        };
        let ghost own = g.files();
        proof {
            if was_good && sortable(keys, input) {
                let types = choose|types: Seq<DataType>| #[trigger] all_typed(keys, types, input);
                assert(runs_bag(g.left()).subset_of(input.to_multiset())) by {
                    assert(cur_bag.add(next_bag).add(g.content()) == input.to_multiset());
                }
                lemma_runs_typed(keys, types, g.left(), input);
            }
        }
        let stepped = g.step(sort_keys, len, storage);
        proof {
            untouched_more(&s0, storage, own, mine);
            lemma_runs_kept(current@, &s0, storage, own, n);
            lemma_runs_kept(next@, &s0, storage, own, n);
        }
        match stepped {
            Ok(GroupNext::Need(g2, ranges)) => {
                let c = Collapse { current, next, active: Some(g2) };
                proof {
                    not_farther_if(c.left_to_do(), self.left_to_do());
                }
                Ok(CollapseNext::Need(c, ranges))
            },
            Ok(GroupNext::Again(g2)) => {
                let c = Collapse { current, next, active: Some(g2) };
                proof {
                    nearer_at(c.left_to_do(), self.left_to_do(), 3);
                }
                Ok(CollapseNext::Again(c))
            },
            Ok(GroupNext::Finished(id)) => {
                let ghost old_next = next@;
                proof {
                    assert(!run_files(next@).contains(id.0));
                    assert(!run_files(current@).contains(id.0));
                    lemma_runs_push(next@, id, storage, n);
                }
                next.push(id);
                let c = Collapse { current, next, active: None };
                proof {
                    assert(let_go(mine, c.files(), storage)) by {
                        assert forall|f: u64| #[trigger]
                            mine.contains(f) && !c.files().contains(f) implies !storage.has_file(
                            f,
                        ) by {
                            assert(own.contains(f));
                        }
                    }
                    nearer_at(c.left_to_do(), self.left_to_do(), 0);
                    if was_good {
                        let done = g.written().to_multiset();
                        assert(cur_bag.add(next_bag.add(done)).add(none) =~= cur_bag.add(
                            next_bag,
                        ).add(done));
                        if sortable(keys, input) {
                            let runs = runs_of(c.next@, storage);
                            assert forall|i: int| 0 <= i < runs.len() implies sorted(
                                keys,
                                #[trigger] runs[i],
                            ) by {
                                if i < old_next.len() {
                                    assert(runs[i] == runs_of(old_next, storage)[i]);
                                }
                            }
                        }
                    }
                }
                Ok(CollapseNext::Again(c))
            },
            Err(e) => Err(e),
        }
    }
}

impl FinalMerge {
    spec fn ok(&self, len: nat, storage: &TempStorageManager) -> bool {
        &&& runs_ok(self.run_ids@, storage, len)
        &&& self.merger.ok(len, storage)
        &&& forall|f: u64| #[trigger] self.merger.reads(f) ==> run_files(self.run_ids@).contains(f)
    }

    spec fn good(
        &self,
        keys: Seq<SortKey>,
        len: nat,
        input: Seq<Seq<Value>>,
        emitted: Seq<Seq<Value>>,
    ) -> bool {
        &&& self.merger.good(len)
        &&& emitted.to_multiset().add(runs_bag(self.merger.runs())) == input.to_multiset()
        &&& sortable(keys, input) ==> in_order(keys, emitted, self.merger.runs())
    }
}

impl SortOperator {
    pub closed spec fn keys(&self) -> Seq<SortKey> {
        self.sort_keys@
    }

    pub closed spec fn schema_view(&self) -> Seq<Seq<char>> {
        self.schema@
    }

    /// The rows that the input handed over.
    pub closed spec fn input(&self) -> Seq<Seq<Value>> {
        self.input@
    }

    /// The rows given out.
    pub closed spec fn emitted(&self) -> Seq<Seq<Value>> {
        self.emitted@
    }

    /// Whether all data that was supplied is what the storage held.
    pub closed spec fn faithful(&self) -> bool {
        self.faithful@
    }

    /// Whether an error ended the sort.
    pub closed spec fn failed(&self) -> bool {
        self.failed@
    }

    /// Whether the sort has come to its end, well or not.
    pub closed spec fn ended(&self) -> bool {
        self.state is Done
    }

    /// Whether the next row of the input is asked for.
    pub closed spec fn wants(&self) -> bool {
        match self.state {
            SortState::Gathering(g) => g.overflow is None,
            _ => false,
        }
    }

    /// Whether rows have to be written before the sort can go on.
    pub closed spec fn spills(&self) -> bool {
        match self.state {
            SortState::Gathering(g) => g.overflow is Some,
            _ => false,
        }
    }

    /// How much is left to do: the stages, and of the merge or the rows that are sorted.
    pub closed spec fn left_to_do(&self) -> Seq<nat> {
        match self.state {
            SortState::Gathering(_) => seq![3nat, 0nat, 0nat, 0nat, 0nat],
            SortState::Collapsing(c) => seq![2nat] + c.left_to_do(),
            SortState::InMemory(rows) => seq![1nat, rows@.len(), 0nat, 0nat, 0nat],
            SortState::External(e) => seq![1nat, e.merger.left_to_do(), 0nat, 0nat, 0nat],
            SortState::Done => seq![0nat, 0nat, 0nat, 0nat, 0nat],
        }
    }

    pub proof fn left_is_five(&self)
        ensures
            self.left_to_do().len() == 5,
    {
    }

    /// The stage that was reached decides.
    proof fn stage_nearer(&self, before: &SortOperator)
        requires
            self.left_to_do()[0] < before.left_to_do()[0],
        ensures
            nearer(self.left_to_do(), before.left_to_do()),
    {
        nearer_at(self.left_to_do(), before.left_to_do(), 0);
    }

    /// How many rows are gathered in memory.
    pub closed spec fn gathered(&self) -> nat {
        match self.state {
            SortState::Gathering(g) => g.rows@.len(),
            _ => 0,
        }
    }

    /// Whether rows were written to temporary storage.
    pub closed spec fn has_spilled(&self) -> bool {
        match self.state {
            SortState::Gathering(g) => g.run_ids@.len() > 0,
            _ => false,
        }
    }

    /// Whether the rows are in order, or are merged as they are given out.
    pub closed spec fn gives_rows(&self) -> bool {
        self.state is InMemory || self.state is External
    }

    /// Whether blocks are asked for.
    pub closed spec fn waiting(&self) -> bool {
        match self.state {
            SortState::Collapsing(c) => c.active is Some && c.active->0.waiting(),
            SortState::External(e) => e.merger.waiting(),
            _ => false,
        }
    }

    /// Whether `data` is what the storage held in the blocks that are asked for.
    pub closed spec fn expects(&self, data: Seq<u8>) -> bool {
        match self.state {
            SortState::Collapsing(c) => c.active is Some && c.active->0.expects(data),
            SortState::External(e) => e.merger.expects(data),
            _ => false,
        }
    }

    /// The temporary files of the sort.
    pub closed spec fn files(&self) -> Set<u64> {
        match self.state {
            SortState::Gathering(g) => run_files(g.run_ids@),
            SortState::Collapsing(c) => c.files(),
            SortState::External(e) => run_files(e.run_ids@),
            _ => Set::empty(),
        }
    }

    spec fn state_ok(&self, storage: &TempStorageManager) -> bool {
        let keys = self.sort_keys@;
        let len = self.schema@.len();
        let input = self.input@;
        match self.state {
            SortState::Gathering(g) => {
                &&& g.ok(keys, len, input, storage)
                &&& self.emitted@.len() == 0
                &&& !self.failed@
            },
            SortState::Collapsing(c) => {
                &&& c.ok(len, storage)
                &&& self.faithful@ ==> c.good(keys, len, input, storage)
                &&& self.emitted@.len() == 0
                &&& !self.failed@
            },
            SortState::InMemory(rows) => {
                &&& (self.emitted@ + rows_of(rows@)).to_multiset() == input.to_multiset()
                &&& sortable(keys, input) ==> sorted(keys, self.emitted@ + rows_of(rows@))
                &&& !self.failed@
            },
            SortState::External(e) => {
                &&& e.ok(len, storage)
                &&& self.faithful@ ==> e.good(keys, len, input, self.emitted@)
                &&& !self.failed@
            },
            SortState::Done => self.faithful@ && !self.failed@ ==> self.emitted@.to_multiset()
                == input.to_multiset() && (sortable(keys, input) ==> sorted(keys, self.emitted@)),
        }
    }

    pub closed spec fn inv(&self, storage: &TempStorageManager) -> bool {
        &&& storage.inv()
        &&& keys_within(self.sort_keys@, self.schema@.len())
        &&& self.schema@.len() <= usize::MAX
        &&& all_len(self.input@, self.schema@.len())
        &&& self.state_ok(storage)
    }

    /// A sort that waits for blocks has taken all its rows and has not come to its end.
    pub proof fn waiting_is_not_ended(&self)
        requires
            self.waiting(),
        ensures
            !self.ended(),
            !self.wants(),
            !self.spills(),
    {
    }

    /// A sort that came to its end asks for nothing.
    pub proof fn ended_wants_nothing(&self)
        requires
            self.ended(),
        ensures
            !self.wants(),
            !self.spills(),
    {
    }

    /// The files of a sort exist.
    pub proof fn inv_gives(&self, storage: &TempStorageManager)
        requires
            self.inv(storage),
        ensures
            storage.inv(),
            forall|f: u64| #[trigger] self.files().contains(f) ==> storage.has_file(f),
    {
        let len = self.schema@.len();
        match self.state {
            SortState::Gathering(g) => {
                lemma_runs_present(g.run_ids@, storage, len);
            },
            SortState::Collapsing(c) => {
                lemma_runs_present(c.current@, storage, len);
                lemma_runs_present(c.next@, storage, len);
                if let Some(g) = c.active {
                    g.ok_gives(len, storage);
                }
            },
            SortState::External(e) => {
                lemma_runs_present(e.run_ids@, storage, len);
            },
            _ => {},
        }
    }

    /// A sort depends on its own files alone.
    pub proof fn inv_kept(
        &self,
        before: &TempStorageManager,
        after: &TempStorageManager,
        touched: Set<u64>,
    )
        requires
            self.inv(before),
            after.inv(),
            unharmed(before, after, touched),
            touched.disjoint(self.files()),
        ensures
            self.inv(after),
    {
        let len = self.schema@.len();
        crate::temp_storage::untouched_file(before, after, touched, 0);
        match self.state {
            SortState::Gathering(g) => {
                lemma_runs_kept(g.run_ids@, before, after, touched, len);
            },
            SortState::Collapsing(c) => {
                assert(touched.disjoint(run_files(c.current@)));
                assert(touched.disjoint(run_files(c.next@)));
                assert(touched.disjoint(c.active_files()));
                lemma_runs_kept(c.current@, before, after, touched, len);
                lemma_runs_kept(c.next@, before, after, touched, len);
                if let Some(g) = c.active {
                    g.ok_kept(len, before, after, touched);
                }
            },
            SortState::External(e) => {
                lemma_runs_kept(e.run_ids@, before, after, touched, len);
                assert forall|f: u64| #[trigger] e.merger.reads(f) implies before.same_file(
                    after,
                    f,
                ) by {
                    assert(run_files(e.run_ids@).contains(f));
                }
                e.merger.ok_kept(len, before, after);
            },
            _ => {},
        }
    }

    /// A sort that came to its end without an error, and was supplied with what the storage
    /// held, has given out exactly the rows of its input. Where they can be put in order, they
    /// came out in order.
    pub proof fn sort_is_complete(&self, storage: &TempStorageManager)
        requires
            self.inv(storage),
            self.ended(),
            !self.failed(),
            self.faithful(),
        ensures
            self.emitted().to_multiset() == self.input().to_multiset(),
            sortable(self.keys(), self.input()) ==> sorted(self.keys(), self.emitted()),
    {
    }

    /// The rows of the input that were not given out yet.
    pub open spec fn rest(&self) -> Multiset<Seq<Value>> {
        self.input().to_multiset().sub(self.emitted().to_multiset())
    }

    /// What was given out comes before what is left.
    pub proof fn emitted_comes_first(&self, storage: &TempStorageManager)
        requires
            self.inv(storage),
            !self.failed(),
            self.faithful(),
        ensures
            self.emitted().to_multiset().subset_of(self.input().to_multiset()),
            sortable(self.keys(), self.input()) ==> sorted(self.keys(), self.emitted()) && forall|
                i: int,
                x: Seq<Value>,
            |
                0 <= i < self.emitted().len() && #[trigger] self.rest().count(x) > 0 ==> not_after(
                    self.keys(),
                    #[trigger] self.emitted()[i],
                    x,
                ),
    {
        broadcast use vstd::seq_lib::group_to_multiset_ensures;

        let keys = self.sort_keys@;
        let e = self.emitted@;
        let none = Multiset::<Seq<Value>>::empty();
        match self.state {
            SortState::Gathering(_) | SortState::Collapsing(_) => {
                assert(e =~= Seq::<Seq<Value>>::empty());
                lemma_bag_empty();
            },
            SortState::InMemory(rows) => {
                let r = rows_of(rows@);
                vstd::seq_lib::lemma_multiset_commutative(e, r);
                assert(self.rest() =~= r.to_multiset());
                if sortable(keys, self.input@) {
                    let all = e + r;
                    assert forall|i: int, j: int| 0 <= i < j < e.len() implies not_after(
                        keys,
                        #[trigger] e[i],
                        #[trigger] e[j],
                    ) by {
                        assert(e[i] == all[i] && e[j] == all[j]);
                    }
                    assert forall|i: int, x: Seq<Value>|
                        0 <= i < e.len() && #[trigger] self.rest().count(x) > 0 implies not_after(
                        keys,
                        #[trigger] e[i],
                        x,
                    ) by {
                        assert(r.contains(x));
                        let j = choose|j: int| 0 <= j < r.len() && r[j] == x;
                        assert(all[i] == e[i] && all[e.len() + j] == x);
                    }
                }
            },
            SortState::External(m) => {
                let left = m.merger.runs();
                assert(self.rest() =~= runs_bag(left));
                if sortable(keys, self.input@) {
                    assert forall|i: int, x: Seq<Value>|
                        0 <= i < e.len() && #[trigger] self.rest().count(x) > 0 implies not_after(
                        keys,
                        #[trigger] e[i],
                        x,
                    ) by {
                        crate::run_list::lemma_in_some_run(left, x);
                        let (a, b) = choose|a: int, b: int|
                            0 <= a < left.len() && 0 <= b < left[a].len() && #[trigger] left[a][b]
                                == x;
                        assert(crate::run_merge::bounds_runs(keys, e[i], left));
                        assert(crate::ordering::bounds(keys, e[i], left[a]));
                    }
                }
            },
            SortState::Done => {
                assert(self.rest() =~= none);
            },
        }
    }

    /// Makes a sort of an input with the given schema.
    pub fn new(schema: &RowSchema, sort_specs: &[SortSpec], sort_run_bytes: usize) -> (r: Result<
        SortOperator,
        DbError,
    >)
        ensures
            r is Ok <==> all_present(schema@, spec_names(sort_specs@)),
            r matches Ok(s) ==> {
                &&& s.schema_view() == schema@
                &&& s.keys() == sort_keys_of(schema@, sort_specs@)
                &&& s.input() == Seq::<Seq<Value>>::empty()
                &&& s.emitted() == Seq::<Seq<Value>>::empty()
                &&& s.faithful()
                &&& !s.failed()
                &&& !s.ended()
                &&& s.wants()
                &&& s.files() == Set::<u64>::empty()
                &&& forall|storage: &TempStorageManager|
                    storage.inv() ==> #[trigger] s.inv(storage)
            },
            r matches Err(e) ==> e matches DbError::ColumnNotFound(c) && c@ == first_missing(
                schema@,
                spec_names(sort_specs@),
            ),
    {
        let sort_keys = match resolve_sort_specs(schema, sort_specs) {
            Ok(k) => k,
            Err(e) => {
                return Err(e);
            },
        };
        let n: usize = schema.len();
        let gather = Gather {
            rows: VecDeque::new(),
            bytes_used: 0,
            capacity: 0,
            overflow: None,
            run_ids: Vec::new(),
        };
        proof {
            lemma_runs_none();
            lemma_bag_empty();
            assert(rows_of(gather.rows@) =~= Seq::<Seq<Value>>::empty());
            assert forall|storage: &TempStorageManager| storage.inv() implies #[trigger] gather.ok(
                sort_keys@,
                schema@.len(),
                Seq::empty(),
                storage,
            ) by {
                let none = Multiset::<Seq<Value>>::empty();
                assert(runs_of(gather.run_ids@, storage) =~= Seq::<Seq<Seq<Value>>>::empty());
                assert(runs_bag(runs_of(gather.run_ids@, storage)) == none);
                assert(none.add(none).add(none) =~= none);
            }
        }
        Ok(
            SortOperator {
                schema: schema.clone(),
                sort_keys,
                sort_run_bytes,
                state: SortState::Gathering(gather),
                input: Ghost(Seq::empty()),
                emitted: Ghost(Seq::empty()),
                faithful: Ghost(true),
                failed: Ghost(false),
            },
        )
    }

    pub fn schema(&self) -> (r: &RowSchema)
        ensures
            r@ == self.schema_view(),
    {
        &self.schema
    }

    /// Ends the sort with an error.
    fn fail(&mut self)
        ensures
            *final(self) == (SortOperator {
                state: SortState::Done,
                failed: Ghost(true),
                ..*old(self)
            }),
    {
        self.state = SortState::Done;
        proof {
            self.failed@ = true;
        }
    }

    /// Opens the runs for the last merge.
    fn open_merge(&mut self, run_ids: Vec<TempFileId>, storage: &TempStorageManager) -> (r: Result<
        (),
        DbError,
    >)
        requires
            storage.inv(),
            keys_within(old(self).sort_keys@, old(self).schema@.len()),
            old(self).schema@.len() <= usize::MAX,
            all_len(old(self).input@, old(self).schema@.len()),
            runs_ok(run_ids@, storage, old(self).schema@.len()),
            old(self).emitted@.len() == 0,
            !old(self).failed@,
            old(self).faithful@ ==> runs_bag(runs_of(run_ids@, storage))
                == old(self).input@.to_multiset() && (sortable(
                old(self).sort_keys@,
                old(self).input@,
            ) ==> runs_sorted(old(self).sort_keys@, runs_of(run_ids@, storage))),
        ensures
            final(self).inv(storage),
            final(self).schema == old(self).schema,
            final(self).sort_keys == old(self).sort_keys,
            final(self).input == old(self).input,
            final(self).emitted == old(self).emitted,
            final(self).faithful == old(self).faithful,
            final(self).files().subset_of(run_files(run_ids@)),
            r is Ok ==> !final(self).failed@ && final(self).state is External && final(self).files()
                == run_files(run_ids@),
            r is Err ==> final(self).failed@ && final(self).state is Done,
            storage.size() * MAX_BATCH_PAGES <= usize::MAX ==> r is Ok,
            r matches Err(e) ==> out_of_room(e, storage),
    {
        let ghost len = self.schema@.len();
        let pages: usize = choose_merge_reader_pages(
            self.sort_run_bytes,
            storage.block_size(),
            run_ids.len(),
        );
        proof {
            reveal(runs_ok);
            assert(storage.size() * pages <= storage.size() * MAX_BATCH_PAGES) by (nonlinear_arith)
                requires
                    pages <= MAX_BATCH_PAGES,
            ;
        }
        match RunMerger::new(run_ids.as_slice(), pages, storage, Ghost(len)) {
            Ok(merger) => {
                let e = FinalMerge { run_ids, merger };
                proof {
                    assert forall|f: u64| #[trigger] e.merger.reads(f) implies run_files(
                        e.run_ids@,
                    ).contains(f) by {
                        reveal(run_files);
                    }
                    lemma_bag_empty();
                    assert(self.emitted@ =~= Seq::<Seq<Value>>::empty());
                    let b = runs_bag(runs_of(run_ids@, storage));
                    assert(Multiset::<Seq<Value>>::empty().add(b) =~= b);
                }
                self.state = SortState::External(e);
                Ok(())
            },
            Err(e) => {
                self.fail();
                Err(e)
            },
        }
    }

    /// Does the next piece of work: asks for a row or for blocks, or gives the next row out.
    pub fn step(&mut self, storage: &mut TempStorageManager) -> (r: Result<SortStep, DbError>)
        requires
            old(self).inv(old(storage)),
        ensures
            final(self).inv(final(storage)),
            final(storage).inv(),
            untouched(old(storage), final(storage), old(self).files()),
            final(self).keys() == old(self).keys(),
            final(self).schema_view() == old(self).schema_view(),
            final(self).input() == old(self).input(),
            final(self).faithful() == old(self).faithful(),
            forall|f: u64| #[trigger]
                final(self).files().contains(f) ==> old(self).files().contains(f) || !old(
                    storage,
                ).has_file(f),
            final(self).emitted() == match r {
                Ok(SortStep::Row(row)) => old(self).emitted().push(row@),
                _ => old(self).emitted(),
            },
            r is Ok ==> final(self).failed() == old(self).failed(),
            r matches Ok(step) ==> step is Done || let_go(
                old(self).files(),
                final(self).files(),
                final(storage),
            ),
            match r {
                Ok(SortStep::Again) | Ok(SortStep::Row(_)) => nearer(
                    final(self).left_to_do(),
                    old(self).left_to_do(),
                ),
                Ok(_) => not_farther(final(self).left_to_do(), old(self).left_to_do()),
                Err(_) => true,
            },
            match r {
                Ok(SortStep::Pull) => final(self).wants(),
                Ok(SortStep::Need(ranges)) => final(self).waiting() && (forall|data: Seq<u8>|
                    is_content(
                        final(storage).disk(),
                        blocks_of(ranges@),
                        data,
                        final(storage).size() as int,
                    ) ==> #[trigger] final(self).expects(data)),
                Ok(SortStep::NeedAnonStart) => final(storage).frontier() is None && final(self).spills(),
                Ok(SortStep::Done) => final(self).ended() && !final(self).wants() && !final(
                    self).spills(),
                Ok(SortStep::Again) => !final(self).ended(),
                Ok(SortStep::Row(row)) => !final(self).ended() && !final(self).wants()
                    && !final(self).spills() && row@.len() == old(self).schema_view().len(),
                Err(e) => {
                    &&& final(self).ended()
                    &&& final(self).failed()
                    &&& old(self).faithful() ==> cannot_store_all(
                        e,
                        old(self).input(),
                        final(storage),
                    )
                },
            },
            old(self).ended() ==> r matches Ok(SortStep::Done),
            old(self).wants() ==> r matches Ok(SortStep::Pull),
            old(self).gives_rows() && old(self).faithful() ==> r is Ok,
            old(self).faithful() && all_fit(old(self).input(), old(storage).size()) && old(
                storage,
            ).roomy(shares(old(self).gathered() + 2, MAX_BATCH_PAGES as nat)) ==> r is Ok,
            !old(self).wants() && !old(self).spills() ==> !final(self).wants() && !final(
                self).spills(),
            old(self).spills() ==> match r {
                Ok(SortStep::NeedAnonStart) => old(storage).frontier() is None,
                Ok(SortStep::Pull) => old(storage).frontier() is Some,
                Err(_) => old(storage).frontier() is Some,
                _ => false,
            },
    {
        let ghost s0 = *storage;
        let ghost len = self.schema@.len();
        let ghost keys = self.sort_keys@;
        let mut state = SortState::Done;
        core::mem::swap(&mut self.state, &mut state);
        proof {
            untouched_same(&s0, storage, old(self).files());
            lemma_room_for_one(&s0, self.gathered());
        }
        match state {
            SortState::Gathering(g) => {
                if g.overflow.is_none() {
                    self.state = SortState::Gathering(g);
                    return Ok(SortStep::Pull);
                }
                if !storage.anon_region_known() {
                    self.state = SortState::Gathering(g);
                    return Ok(SortStep::NeedAnonStart);
                }
                let spilled = g.spill(
                    self.sort_keys.as_slice(),
                    self.sort_run_bytes,
                    storage,
                    Ghost(len),
                    Ghost(self.input@),
                );
                proof {
                    untouched_more(&s0, storage, Set::empty(), old(self).files());
                }
                match spilled {
                    Ok(g2) => {
                        self.state = SortState::Gathering(g2);
                        Ok(SortStep::Pull)
                    },
                    Err(e) => {
                        self.fail();
                        Err(e)
                    },
                }
            },
            SortState::Collapsing(c) => {
                let ghost c0 = c;
                let ghost two = seq![2nat];
                let next = if c.active.is_none() {
                    c.advance(
                        self.sort_run_bytes,
                        storage,
                        Ghost(keys),
                        Ghost(len),
                        Ghost(self.input@),
                    )
                } else {
                    let n: usize = self.schema.len();
                    c.merge(self.sort_keys.as_slice(), n, storage, Ghost(self.input@))
                };
                match next {
                    Ok(CollapseNext::Again(c2)) => {
                        self.state = SortState::Collapsing(c2);
                        proof {
                            nearer_back(two, c2.left_to_do(), c0.left_to_do());
                        }
                        Ok(SortStep::Again)
                    },
                    Ok(CollapseNext::Need(c2, ranges)) => {
                        self.state = SortState::Collapsing(c2);
                        proof {
                            if c2.left_to_do() != c0.left_to_do() {
                                nearer_back(two, c2.left_to_do(), c0.left_to_do());
                            }
                        }
                        Ok(SortStep::Need(ranges))
                    },
                    Ok(CollapseNext::Ready(ids)) => {
                        match self.open_merge(ids, storage) {
                            Ok(_) => {
                                proof {
                                    self.stage_nearer(old(self));
                                }
                                Ok(SortStep::Again)
                            },
                            Err(e) => Err(e),
                        }
                    },
                    Err(e) => {
                        self.fail();
                        Err(e)
                    },
                }
            },
            SortState::InMemory(rows) => {
                let mut rows = rows;
                let ghost before = rows@;
                match rows.pop_front() {
                    Some(row) => {
                        proof {
                            lemma_bag_front(before);
                            assert(rows@ =~= before.drop_first());
                            self.emitted@ = self.emitted@.push(row@);
                            assert(self.emitted@ + rows_of(rows@) =~= old(self).emitted@ + rows_of(
                                before,
                            ));
                            let all = old(self).emitted@ + rows_of(before);
                            lemma_len_permutation(self.input@, all, self.schema@.len());
                            assert(all[old(self).emitted@.len() as int] == row@);
                        }
                        self.state = SortState::InMemory(rows);
                        proof {
                            nearer_at(self.left_to_do(), old(self).left_to_do(), 1);
                        }
                        Ok(SortStep::Row(row))
                    },
                    None => {
                        proof {
                            assert(self.emitted@ + rows_of(before) =~= self.emitted@);
                            self.stage_nearer(old(self));
                        }
                        Ok(SortStep::Done)
                    },
                }
            },
            SortState::External(e) => self.merge_step(e, storage),
            SortState::Done => Ok(SortStep::Done),
        }
    }

    /// Gives the next row of the last merge.
    fn merge_step(&mut self, e: FinalMerge, storage: &TempStorageManager) -> (r: Result<
        SortStep,
        DbError,
    >)
        requires
            (SortOperator { state: SortState::External(e), ..*old(self) }).inv(storage),
            old(self).state is Done,
        ensures
            final(self).inv(storage),
            final(self).schema == old(self).schema,
            final(self).sort_keys == old(self).sort_keys,
            final(self).input == old(self).input,
            final(self).faithful == old(self).faithful,
            final(self).emitted@ == match r {
                Ok(SortStep::Row(row)) => old(self).emitted@.push(row@),
                _ => old(self).emitted@,
            },
            final(self).files().subset_of(run_files(e.run_ids@)),
            r matches Ok(step) ==> step is Done || final(self).files() == run_files(e.run_ids@),
            match r {
                Ok(SortStep::Row(_)) => nearer(
                    final(self).left_to_do(),
                    seq![1nat, e.merger.left_to_do(), 0nat, 0nat, 0nat],
                ),
                Ok(_) => not_farther(
                    final(self).left_to_do(),
                    seq![1nat, e.merger.left_to_do(), 0nat, 0nat, 0nat],
                ),
                Err(_) => true,
            },
            match r {
                Ok(SortStep::Need(ranges)) => !final(self).failed@ && final(self).waiting() && (
                forall|data: Seq<u8>|
                    is_content(
                        storage.disk(),
                        blocks_of(ranges@),
                        data,
                        storage.size() as int,
                    ) ==> #[trigger] final(self).expects(data)),
                Ok(SortStep::Done) => !final(self).failed@ && final(self).ended(),
                Ok(SortStep::Row(row)) => !final(self).failed@ && !final(self).ended() && !final(
                    self).wants() && !final(self).spills() && row@.len()
                    == old(self).schema@.len(),
                Ok(_) => false,
                Err(e) => final(self).ended() && final(self).failed() && !old(self).faithful@,
            },
    {
        let ghost len = self.schema@.len();
        let ghost keys = self.sort_keys@;
        let ghost input = self.input@;
        let mut e = e;
        let ghost before = e;
        let ghost left_then = seq![1nat, e.merger.left_to_do(), 0nat, 0nat, 0nat];
        let n: usize = self.schema.len();
        proof {
            if self.faithful@ && sortable(keys, input) {
                let types = choose|types: Seq<DataType>| #[trigger] all_typed(keys, types, input);
                assert(runs_bag(e.merger.runs()).subset_of(input.to_multiset())) by {
                    assert(self.emitted@.to_multiset().add(runs_bag(e.merger.runs()))
                        == input.to_multiset());
                }
                lemma_runs_typed(keys, types, e.merger.runs(), input);
            }
        }
        let read = match e.merger.step(self.sort_keys.as_slice(), n, storage) {
            Ok(s) => s,
            Err(err) => {
                self.fail();
                return Err(err);
            },
        };
        proof {
            assert forall|f: u64| #[trigger] e.merger.reads(f) implies run_files(
                e.run_ids@,
            ).contains(f) by {
                assert(before.merger.reads(f));
            }
        }
        match read {
            ReadStep::Need(ranges) => {
                self.state = SortState::External(e);
                proof {
                    not_farther_if(self.left_to_do(), left_then);
                }
                Ok(SortStep::Need(ranges))
            },
            ReadStep::Row(row) => {
                proof {
                    broadcast use vstd::seq_lib::group_to_multiset_ensures;

                    let taken = self.emitted@;
                    self.emitted@ = taken.push(row@);
                    if self.faithful@ {
                        taking_one(before.merger.runs(), row@, e.merger.runs());
                        assert(self.emitted@.to_multiset().add(runs_bag(e.merger.runs()))
                            =~= taken.to_multiset().add(runs_bag(before.merger.runs())));
                        if sortable(keys, input) {
                            let types = choose|types: Seq<DataType>| #[trigger]
                                all_typed(keys, types, input);
                            lemma_in_order_step(
                                keys,
                                types,
                                taken,
                                before.merger.runs(),
                                row@,
                                e.merger.runs(),
                            );
                        }
                    }
                }
                self.state = SortState::External(e);
                proof {
                    nearer_at(self.left_to_do(), left_then, 1);
                }
                Ok(SortStep::Row(row))
            },
            ReadStep::End => {
                proof {
                    if self.faithful@ {
                        assert(self.emitted@.to_multiset().add(Multiset::<Seq<Value>>::empty())
                            =~= self.emitted@.to_multiset());
                    }
                    nearer_at(self.left_to_do(), left_then, 0);
                }
                Ok(SortStep::Done)
            },
        }
    }

    /// Takes the next row of the input, or that there is no more.
    pub fn feed(&mut self, row: Option<Row>, storage: &mut TempStorageManager) -> (r: Result<
        (),
        DbError,
    >)
        requires
            old(self).inv(old(storage)),
            old(self).wants(),
        ensures
            final(self).inv(final(storage)),
            final(storage).inv(),
            untouched(old(storage), final(storage), old(self).files()),
            final(self).keys() == old(self).keys(),
            final(self).schema_view() == old(self).schema_view(),
            final(self).faithful() == old(self).faithful(),
            final(self).emitted() == old(self).emitted(),
            forall|f: u64| #[trigger]
                final(self).files().contains(f) ==> old(self).files().contains(f) || !old(
                    storage,
                ).has_file(f),
            r is Ok ==> !final(self).failed() && !final(self).ended() && final(self).input()
                == match row {
                Some(row) => old(self).input().push(row@),
                None => old(self).input(),
            } && (row is None <==> !final(self).wants() && !final(self).spills()),
            r matches Err(e) ==> {
                &&& final(self).failed()
                &&& final(self).ended()
                &&& match row {
                    Some(row) => e matches DbError::RowSchemaMismatch(n, m) && n == row@.len() && m
                        == old(self).schema_view().len() && n != m,
                    None => cannot_store_all(e, old(self).input(), final(storage)),
                }
            },
            row is Some ==> (r is Ok <==> row->0@.len() == old(self).schema_view().len()),
            r is Ok && row is Some ==> final(self).left_to_do() == old(self).left_to_do(),
            r is Ok && row is None ==> nearer(final(self).left_to_do(), old(self).left_to_do()),
            r is Ok ==> let_go(old(self).files(), final(self).files(), final(storage)),
            row is None && !old(self).has_spilled() ==> r is Ok && final(self).gives_rows(),
            row is None && all_fit(old(self).input(), old(storage).size()) && old(storage).roomy(
                shares(old(self).gathered() + 2, MAX_BATCH_PAGES as nat),
            ) ==> r is Ok,
    {
        let ghost s0 = *storage;
        let ghost len = self.schema@.len();
        let ghost keys = self.sort_keys@;
        let mut state = SortState::Done;
        core::mem::swap(&mut self.state, &mut state);
        proof {
            untouched_same(&s0, storage, old(self).files());
        }
        match state {
            SortState::Gathering(g) => {
                let mut g = g;
                match row {
                    Some(row) => {
                        match row.validate_against_schema(&self.schema) {
                            Ok(_) => {},
                            Err(e) => {
                                self.fail();
                                return Err(e);
                            },
                        }
                        let ghost rv = row@;
                        let block_size: usize = storage.block_size();
                        g.take(
                            row,
                            self.sort_run_bytes,
                            block_size,
                            Ghost(keys),
                            Ghost(len),
                            Ghost(self.input@),
                            Ghost(*storage),
                        );
                        proof {
                            self.input@ = self.input@.push(rv);
                        }
                        self.state = SortState::Gathering(g);
                        Ok(())
                    },
                    None => {
                        let r = self.end_of_input(g, storage);
                        proof {
                            if r is Ok {
                                self.stage_nearer(old(self));
                            }
                        }
                        r
                    },
                }
            },
            _ => Ok(()),
        }
    }

    /// Sorts what was gathered. Where nothing was written yet, that is all.
    fn end_of_input(&mut self, g: Gather, storage: &mut TempStorageManager) -> (r: Result<
        (),
        DbError,
    >)
        requires
            (SortOperator { state: SortState::Gathering(g), ..*old(self) }).inv(old(storage)),
            old(self).state is Done,
            g.overflow is None,
        ensures
            final(self).inv(final(storage)),
            final(storage).inv(),
            untouched(old(storage), final(storage), run_files(g.run_ids@)),
            final(self).schema == old(self).schema,
            final(self).sort_keys == old(self).sort_keys,
            final(self).input == old(self).input,
            final(self).emitted == old(self).emitted,
            final(self).faithful == old(self).faithful,
            forall|f: u64| #[trigger]
                final(self).files().contains(f) ==> run_files(g.run_ids@).contains(f) || !old(
                    storage,
                ).has_file(f),
            r is Ok ==> !final(self).failed@ && !(final(self).state is Done) && !(final(self).state
                is Gathering),
            g.run_ids@.len() == 0 ==> r is Ok && final(self).state is InMemory,
            r is Ok ==> let_go(run_files(g.run_ids@), final(self).files(), final(storage)),
            all_fit(old(self).input@, old(storage).size()) && old(storage).roomy(
                shares(g.rows@.len() + 2, MAX_BATCH_PAGES as nat),
            ) ==> r is Ok,
            r matches Err(e) ==> cannot_store_all(e, old(self).input@, final(storage)),
            r is Err ==> final(self).failed@ && final(self).state is Done,
    {
        let ghost s0 = *storage;
        let ghost len = self.schema@.len();
        let ghost keys = self.sort_keys@;
        let ghost input = self.input@;
        let ghost mine = run_files(g.run_ids@);
        let ghost none = Multiset::<Seq<Value>>::empty();
        proof {
            lemma_room_for_one(&s0, g.rows@.len());
            untouched_same(&s0, storage, mine);
            lemma_runs_none();
        }
        if g.run_ids.len() == 0 {
            let ghost rows = rows_of(g.rows@);
            proof {
                assert(g.run_ids@ =~= Seq::<TempFileId>::empty());
                assert(runs_of(g.run_ids@, storage) =~= Seq::<Seq<Seq<Value>>>::empty());
                assert(none.add(bag(g.rows@)).add(none) =~= bag(g.rows@));
                if sortable(keys, input) {
                    lemma_sortable_part(keys, rows, input);
                }
            }
            let out = sort_rows(g.rows, self.sort_keys.as_slice());
            proof {
                assert(self.emitted@ + rows_of(out@) =~= rows_of(out@));
            }
            self.state = SortState::InMemory(out);
            return Ok(());
        }
        let g2 = if g.rows.len() > 0 {
            let spilled = g.spill(
                self.sort_keys.as_slice(),
                self.sort_run_bytes,
                storage,
                Ghost(len),
                Ghost(input),
            );
            proof {
                untouched_more(&s0, storage, Set::empty(), mine);
            }
            match spilled {
                Ok(g2) => g2,
                Err(e) => {
                    self.fail();
                    return Err(e);
                },
            }
        } else {
            g
        };
        proof {
            lemma_bag_empty();
            assert(rows_of(g2.rows@) =~= Seq::<Seq<Value>>::empty());
            let b = runs_bag(runs_of(g2.run_ids@, storage));
            assert(b.add(none).add(none) =~= b);
        }
        let run_ids = g2.run_ids;
        let fan_in: usize = choose_sort_merge_fan_in(self.sort_run_bytes, storage.block_size());
        proof {
            untouched_file(&s0, storage, mine, 0);
        }
        if run_ids.len() <= fan_in {
            return self.open_merge(run_ids, storage);
        }
        let c = Collapse { current: run_ids, next: Vec::new(), active: None };
        proof {
            assert(c.next@ =~= Seq::<TempFileId>::empty());
            let b = runs_bag(runs_of(run_ids@, storage));
            assert(b.add(none).add(none) =~= b);
        }
        self.state = SortState::Collapsing(c);
        Ok(())
    }

    /// Takes the contents of the blocks that were asked for.
    pub fn supply(&mut self, data: Vec<u8>, storage: &TempStorageManager) -> (r: Result<
        (),
        DbError,
    >)
        requires
            old(self).inv(storage),
            old(self).waiting(),
        ensures
            final(self).inv(storage),
            final(self).keys() == old(self).keys(),
            final(self).schema_view() == old(self).schema_view(),
            final(self).input() == old(self).input(),
            final(self).emitted() == old(self).emitted(),
            final(self).faithful() == (old(self).faithful() && old(self).expects(data@)),
            final(self).files().subset_of(old(self).files()),
            old(self).expects(data@) ==> r is Ok,
            r is Ok ==> nearer(final(self).left_to_do(), old(self).left_to_do()),
            r is Ok ==> !final(self).failed() && !final(self).ended(),
            r is Err ==> final(self).failed() && final(self).ended(),
            !final(self).wants() && !final(self).spills(),
    {
        let ghost len = self.schema@.len();
        let mut state = SortState::Done;
        core::mem::swap(&mut self.state, &mut state);
        let ghost good_data = old(self).expects(data@);
        proof {
            self.faithful@ = self.faithful@ && good_data;
        }
        match state {
            SortState::Collapsing(c) => {
                let mut c = c;
                let ghost c0 = c;
                let mut active: Option<GroupMerge> = None;
                core::mem::swap(&mut c.active, &mut active);
                match active {
                    Some(g) => {
                        let mut g = g;
                        match g.supply(data, Ghost(len), Ghost(*storage)) {
                            Ok(_) => {},
                            Err(e) => {
                                self.fail();
                                return Err(e);
                            },
                        }
                        c.active = Some(g);
                        self.state = SortState::Collapsing(c);
                        proof {
                            nearer_at(c.left_to_do(), c0.left_to_do(), 3);
                            nearer_back(seq![2nat], c.left_to_do(), c0.left_to_do());
                        }
                        Ok(())
                    },
                    None => Ok(()),
                }
            },
            SortState::External(e) => {
                let mut e = e;
                let ghost before = e;
                match e.merger.supply(data, Ghost(len), Ghost(*storage)) {
                    Ok(_) => {},
                    Err(err) => {
                        self.fail();
                        return Err(err);
                    },
                }
                proof {
                    assert forall|f: u64| #[trigger] e.merger.reads(f) implies run_files(
                        e.run_ids@,
                    ).contains(f) by {
                        assert(before.merger.reads(f));
                    }
                }
                self.state = SortState::External(e);
                proof {
                    nearer_at(self.left_to_do(), old(self).left_to_do(), 1);
                }
                Ok(())
            },
            _ => Ok(()),
        }
    }
}

} // verus!

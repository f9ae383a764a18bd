//! Partitions whose files are finished.

use vstd::multiset::Multiset;
use vstd::prelude::*;
use crate::adaptive_spec::{lemma_total_empty_build, total};
use crate::error::DbError;
use crate::join_spec::{JoinOn, sum_parts};
use crate::join_table::{all_in, all_len};
use crate::pairs::{FilePair, lemma_pairs_kept, lemma_pairs_none, lemma_pairs_push_ok, lemma_within_kept, lemma_within_push, pair_files, pairs_ok, pairs_within};
use crate::partition::PartitionWriters;
use crate::temp_run::{TempRunWriter, run_of};
use crate::temp_storage::{MAX_BATCH_PAGES, TempFileId, TempStorageManager, grew_by, out_of_room, unharmed, untouched, untouched_but, untouched_file, untouched_more, untouched_same, untouched_twice};
use crate::value::Value;

verus! {

/// The files of partitions, as far as there are any.
pub struct FinishedParts {
    files: Vec<Option<TempFileId>>,
}

impl FinishedParts {
    pub closed spec fn count(&self) -> nat {
        self.files@.len()
    }

    pub closed spec fn file(&self, p: int) -> Option<u64> {
        match self.files@[p] {
            Some(id) => Some(id.0),
            None => None,
        }
    }

    /// The rows of a partition.
    pub open spec fn rows(&self, p: int, storage: &TempStorageManager) -> Seq<Seq<Value>> {
        match self.file(p) {
            Some(f) => run_of(storage, f)->0,
            None => Seq::empty(),
        }
    }

    pub closed spec fn file_set(&self) -> Set<u64> {
        Set::new(|f: u64| exists|p: int| 0 <= p < self.count() && #[trigger] self.file(p) == Some(f))
    }

    pub closed spec fn ok(&self, storage: &TempStorageManager, len: nat) -> bool {
        &&& storage.inv()
        &&& forall|p: int|
            0 <= p < self.count() && (#[trigger] self.file(p)) is Some ==> run_of(
                storage,
                self.file(p)->0,
            ) is Some && all_len(run_of(storage, self.file(p)->0)->0, len)
        &&& forall|p: int, q: int|
            0 <= p < q < self.count() && (#[trigger] self.file(p)) is Some && (#[trigger] self.file(
                q,
            )) is Some ==> self.file(p) != self.file(q)
    }

    pub proof fn ok_gives(&self, storage: &TempStorageManager, len: nat)
        requires
            self.ok(storage, len),
        ensures
            storage.inv(),
            forall|f: u64| #[trigger] self.file_set().contains(f) ==> storage.has_file(f),
            forall|p: int|
                0 <= p < self.count() && (#[trigger] self.file(p)) is Some
                    ==> self.file_set().contains(self.file(p)->0) && run_of(
                    storage,
                    self.file(p)->0,
                ) is Some && all_len(run_of(storage, self.file(p)->0)->0, len),
    {
        assert forall|f: u64| #[trigger] self.file_set().contains(f) implies storage.has_file(
            f,
        ) by {
            let p = choose|p: int| 0 <= p < self.count() && #[trigger] self.file(p) == Some(f);
            assert(run_of(storage, self.file(p)->0) is Some);
        }
    }

    /// Finished files depend on nothing else.
    pub proof fn ok_kept(
        &self,
        before: &TempStorageManager,
        after: &TempStorageManager,
        touched: Set<u64>,
        len: nat,
    )
        requires
            self.ok(before, len),
            after.inv(),
            unharmed(before, after, touched),
            touched.disjoint(self.file_set()),
        ensures
            self.ok(after, len),
            forall|p: int|
                0 <= p < self.count() ==> #[trigger] self.rows(p, after) == self.rows(p, before),
    {
        self.ok_gives(before, len);
        assert forall|p: int| 0 <= p < self.count() && (#[trigger] self.file(p)) is Some implies
            run_of(after, self.file(p)->0) == run_of(before, self.file(p)->0) by {
            assert(self.file_set().contains(self.file(p)->0));
            untouched_file(before, after, touched, self.file(p)->0);
        }
    }

    pub fn len(&self) -> (r: usize)
        ensures
            r == self.count(),
    {
        self.files.len()
    }

    /// The file of a partition.
    pub fn get(&self, part: usize) -> (r: Option<TempFileId>)
        requires
            part < self.count(),
        ensures
            match r {
                Some(id) => self.file(part as int) == Some(id.0),
                None => self.file(part as int) is None,
            },
    {
        self.files[part]
    }

    /// Takes the file of a partition out.
    pub fn take(
        &mut self,
        part: usize,
        Ghost(storage): Ghost<TempStorageManager>,
        Ghost(len): Ghost<nat>,
    ) -> (r: Option<TempFileId>)
        requires
            part < old(self).count(),
            old(self).ok(&storage, len),
        ensures
            final(self).ok(&storage, len),
            final(self).count() == old(self).count(),
            match r {
                Some(id) => old(self).file(part as int) == Some(id.0)
                    && !final(self).file_set().contains(id.0) && old(self).file_set().contains(
                    id.0,
                ),
                None => old(self).file(part as int) is None,
            },
            final(self).file(part as int) is None,
            forall|q: int|
                0 <= q < old(self).count() && q != part ==> #[trigger] final(self).file(q) == old(
                    self,
                ).file(q),
            final(self).file_set().subset_of(old(self).file_set()),
            forall|f: u64| #[trigger]
                old(self).file_set().contains(f) ==> final(self).file_set().contains(f) || old(
                    self,
                ).file(part as int) == Some(f),
    {
        let ghost before = *self;
        let r = self.files[part];
        self.files.set(part, None);
        proof {
            before.ok_gives(&storage, len);
            assert forall|q: int| 0 <= q < before.count() && q != part implies #[trigger] self.file(
                q,
            ) == before.file(q) by {}
            assert forall|p: int, q: int|
                0 <= p < q < self.count() && (#[trigger] self.file(p)) is Some && (
                #[trigger] self.file(q)) is Some implies self.file(p) != self.file(q) by {
                assert(before.file(p) == self.file(p));
                assert(before.file(q) == self.file(q));
            }
            assert forall|p: int| 0 <= p < self.count() && (#[trigger] self.file(p)) is Some implies
                run_of(&storage, self.file(p)->0) is Some && all_len(
                run_of(&storage, self.file(p)->0)->0,
                len,
            ) by {
                assert(before.file(p) == self.file(p));
            }
            assert forall|f: u64| #[trigger] self.file_set().contains(
                f,
            ) implies before.file_set().contains(f) by {
                let p = choose|p: int| 0 <= p < self.count() && #[trigger] self.file(p) == Some(f);
                assert(before.file(p) == Some(f));
            }
            assert forall|f: u64| #[trigger] before.file_set().contains(
                f,
            ) implies self.file_set().contains(f) || before.file(part as int) == Some(f) by {
                let p = choose|p: int| 0 <= p < before.count() && #[trigger] before.file(p) == Some(
                    f,
                );
                if p != part {
                    assert(self.file(p) == Some(f));
                }
            }
            if r is Some {
                let f = (r->0).0;
                assert(before.file(part as int) == Some(f));
                if self.file_set().contains(f) {
                    let p = choose|p: int| 0 <= p < self.count() && #[trigger] self.file(p)
                        == Some(f);
                    assert(before.file(p) == Some(f));
                    if p < part {
                        assert(before.file(p) != before.file(part as int));
                    } else {
                        assert(before.file(part as int) != before.file(p));
                    }
                }
            }
        }
        r
    }

    /// Finishes the writers of all partitions.
    pub fn finish_all(
        writers: PartitionWriters,
        storage: &mut TempStorageManager,
        Ghost(len): Ghost<nat>,
    ) -> (r: Result<FinishedParts, DbError>)
        requires
            writers.inv(old(storage)),
            writers.count() <= usize::MAX,
            forall|p: int|
                0 <= p < writers.count() ==> all_len(#[trigger] writers.rows(p), len),
        ensures
            final(storage).inv(),
            untouched(old(storage), final(storage), writers.files()),
            r matches Ok(fp) ==> {
                &&& fp.ok(final(storage), len)
                &&& fp.count() == writers.count()
                &&& fp.file_set().subset_of(writers.files())
                &&& forall|p: int|
                    0 <= p < fp.count() ==> #[trigger] fp.rows(p, final(storage)) == writers.rows(p)
                &&& forall|p: int|
                    0 <= p < fp.count() ==> ((#[trigger] fp.file(p)) is Some <==> writers.file(
                        p,
                    ) is Some)
            },
            r matches Err(e) ==> out_of_room(e, final(storage)),
            grew_by(
                old(storage),
                final(storage),
                writers.count() * MAX_BATCH_PAGES as nat,
                0,
            ),
    {
        let ghost w0 = writers;
        let ghost s0 = *storage;
        let ghost mine = w0.files();
        let mut w = writers;
        let n: usize = w.len();
        let mut files: Vec<Option<TempFileId>> = Vec::new();
        let mut p: usize = 0;
        proof {
            untouched_same(&s0, storage, mine);
            w.inv_gives(storage);
        }
        while p < n
            invariant
                p <= n,
                w0 == writers,
                s0 == *old(storage),
                mine == w0.files(),
                n == w0.count(),
                w.count() == n,
                w.inv(storage),
                w0.inv(&s0),
                w.files().subset_of(mine),
                untouched(&s0, storage, mine),
                grew_by(&s0, storage, (p * MAX_BATCH_PAGES) as nat, 0),
                files@.len() == p,
                forall|q: int|
                    p <= q < n ==> #[trigger] w.rows(q) == w0.rows(q) && w.file(q) == w0.file(q),
                forall|q: int| 0 <= q < n ==> all_len(#[trigger] w0.rows(q), len),
                forall|q: int|
                    0 <= q < p ==> match (#[trigger] files@[q]) {
                        Some(id) => {
                            &&& w0.file(q) == Some(id.0)
                            &&& run_of(storage, id.0) == Some(w0.rows(q))
                            &&& !w.files().contains(id.0)
                        },
                        None => w0.file(q) is None,
                    },
            decreases n - p,
        {
            let ghost w1 = w;
            let ghost s1 = *storage;
            proof {
                w.inv_gives(storage);
                w0.inv_gives(&s0);
                assert(w1.rows(p as int) == w0.rows(p as int));
            }
            let taken = w.take(p, storage);
            match taken {
                Some(writer) => {
                    let ghost f = writer.file();
                    let ghost own = Set::<u64>::empty().insert(f);
                    proof {
                        assert(w1.file(p as int) == Some(f));
                        assert(w1.files().contains(f));
                        writer.inv_gives(storage);
                    }
                    let r = writer.finish(storage);
                    proof {
                        untouched_but(&s1, storage, f, own);
                        untouched_more(&s1, storage, own, mine);
                        untouched_twice(&s0, &s1, storage, mine, mine);
                        assert(own.disjoint(w.files()));
                        w.inv_kept(&s1, storage, own);
                        assert forall|q: int| 0 <= q < p implies match (#[trigger] files@[q]) {
                            Some(id) => {
                                &&& w0.file(q) == Some(id.0)
                                &&& run_of(storage, id.0) == Some(w0.rows(q))
                                &&& !w.files().contains(id.0)
                            },
                            None => w0.file(q) is None,
                        } by {
                            if let Some(id) = files@[q] {
                                assert(!w1.files().contains(id.0));
                                assert(id.0 != f);
                                assert(s1.same_file(storage, id.0));
                            }
                        }
                    }
                    match r {
                        Ok(id) => {
                            files.push(Some(id));
                        },
                        Err(e) => {
                            return Err(e);
                        },
                    }
                },
                None => {
                    proof {
                        assert(w1.file(p as int) is None);
                        assert forall|q: int| 0 <= q < p implies match (#[trigger] files@[q]) {
                            Some(id) => {
                                &&& w0.file(q) == Some(id.0)
                                &&& run_of(storage, id.0) == Some(w0.rows(q))
                                &&& !w.files().contains(id.0)
                            },
                            None => w0.file(q) is None,
                        } by {
                            if let Some(id) = files@[q] {
                                assert(!w1.files().contains(id.0));
                            }
                        }
                    }
                    files.push(None);
                },
            }
            p = p + 1;
            proof {
                assert forall|q: int| p <= q < n implies #[trigger] w.rows(q) == w0.rows(q)
                    && w.file(q) == w0.file(q) by {
                    assert(w1.rows(q) == w0.rows(q));
                    assert(w1.file(q) == w0.file(q));
                    assert(w.rows(q) == w1.rows(q));
                    assert(w.file(q) == w1.file(q));
                }
            }
        }
        let fp = FinishedParts { files };
        proof {
            w.inv_gives(storage);
            w0.inv_gives(&s0);
            assert forall|q: int| 0 <= q < fp.count() implies match #[trigger] fp.file(q) {
                Some(f) => w0.file(q) == Some(f) && run_of(storage, f) == Some(w0.rows(q)),
                None => w0.file(q) is None,
            } by {
                assert(fp.files@[q] == files@[q]);
            }
            assert forall|a: int, b: int|
                0 <= a < b < fp.count() && (#[trigger] fp.file(a)) is Some && (#[trigger] fp.file(
                    b,
                )) is Some implies fp.file(a) != fp.file(b) by {
                assert(w0.file(a) != w0.file(b));
            }
            assert forall|q: int| 0 <= q < fp.count() implies #[trigger] fp.rows(q, storage)
                == w0.rows(q) by {
                if fp.file(q) is None {
                    assert(w0.file(q) is None);
                    assert(w0.rows(q) =~= Seq::<Seq<Value>>::empty());
                }
            }
            assert forall|f: u64| #[trigger] fp.file_set().contains(f) implies mine.contains(f) by {
                let q = choose|q: int| 0 <= q < fp.count() && #[trigger] fp.file(q) == Some(f);
                assert(w0.file(q) == Some(f));
            }
        }
        Ok(fp)
    }
}

/// What the probe rows of a pair of files contribute.
pub open spec fn pair_total(
    full: bool,
    on: JoinOn,
    build_is_left: bool,
    storage: &TempStorageManager,
    pair: FilePair,
) -> Multiset<Seq<Value>> {
    let left = run_of(storage, pair.left.0)->0;
    let right = run_of(storage, pair.right.0)->0;
    if build_is_left {
        total(full, on, true, left, right)
    } else {
        total(full, on, false, right, left)
    }
}

pub open spec fn pairs_total(
    full: bool,
    on: JoinOn,
    build_is_left: bool,
    storage: &TempStorageManager,
    pairs: Seq<FilePair>,
) -> Multiset<Seq<Value>>
    decreases pairs.len(),
{
    if pairs.len() == 0 {
        Multiset::empty()
    } else {
        pair_total(full, on, build_is_left, storage, pairs[0]).add(
            pairs_total(full, on, build_is_left, storage, pairs.drop_first()),
        )
    }
}

proof fn lemma_pairs_total_push(
    full: bool,
    on: JoinOn,
    bl: bool,
    storage: &TempStorageManager,
    pairs: Seq<FilePair>,
    pair: FilePair,
)
    ensures
        pairs_total(full, on, bl, storage, pairs.push(pair)) == pairs_total(
            full,
            on,
            bl,
            storage,
            pairs,
        ).add(pair_total(full, on, bl, storage, pair)),
    decreases pairs.len(),
{
    let all = pairs.push(pair);
    if pairs.len() == 0 {
        assert(all.drop_first() =~= Seq::<FilePair>::empty());
        reveal_with_fuel(pairs_total, 2);
        assert(pairs_total(full, on, bl, storage, all) =~= pairs_total(
            full,
            on,
            bl,
            storage,
            pairs,
        ).add(pair_total(full, on, bl, storage, pair)));
    } else {
        lemma_pairs_total_push(full, on, bl, storage, pairs.drop_first(), pair);
        assert(all.drop_first() =~= pairs.drop_first().push(pair));
        assert(all[0] == pairs[0]);
        assert(pairs_total(full, on, bl, storage, all) =~= pairs_total(
            full,
            on,
            bl,
            storage,
            pairs,
        ).add(pair_total(full, on, bl, storage, pair)));
    }
}

proof fn lemma_pairs_total_same(
    full: bool,
    on: JoinOn,
    bl: bool,
    pairs: Seq<FilePair>,
    before: &TempStorageManager,
    after: &TempStorageManager,
)
    requires
        forall|i: int|
            0 <= i < pairs.len() ==> run_of(after, (#[trigger] pairs[i]).left.0) == run_of(
                before,
                pairs[i].left.0,
            ) && run_of(after, pairs[i].right.0) == run_of(before, pairs[i].right.0),
    ensures
        pairs_total(full, on, bl, after, pairs) == pairs_total(full, on, bl, before, pairs),
    decreases pairs.len(),
{
    if pairs.len() > 0 {
        let rest = pairs.drop_first();
        assert forall|i: int| 0 <= i < rest.len() implies run_of(after, (
        #[trigger] rest[i]).left.0) == run_of(before, rest[i].left.0) && run_of(
            after,
            rest[i].right.0,
        ) == run_of(before, rest[i].right.0) by {
            assert(rest[i] == pairs[i + 1]);
        }
        lemma_pairs_total_same(full, on, bl, rest, before, after);
        assert(pairs[0] == pairs[0]);
    }
}

/// Pairs whose files are untouched keep what they contribute.
pub proof fn lemma_pairs_total_kept(
    full: bool,
    on: JoinOn,
    bl: bool,
    pairs: Seq<FilePair>,
    before: &TempStorageManager,
    after: &TempStorageManager,
    touched: Set<u64>,
    left_len: nat,
    right_len: nat,
)
    requires
        pairs_ok(pairs, before, left_len, right_len),
        unharmed(before, after, touched),
        touched.disjoint(pair_files(pairs)),
    ensures
        pairs_ok(pairs, after, left_len, right_len),
        pairs_total(full, on, bl, after, pairs) == pairs_total(full, on, bl, before, pairs),
{
    lemma_pairs_kept(on, pairs, before, after, touched, left_len, right_len);
    lemma_pairs_total_same(full, on, bl, pairs, before, after);
}

/// Partitions whose files are untouched keep their rows.
proof fn lemma_pairs_stay_within(
    on: JoinOn,
    pairs: Seq<FilePair>,
    before: &TempStorageManager,
    after: &TempStorageManager,
    touched: Set<u64>,
    left_len: nat,
    right_len: nat,
    ls: Seq<Seq<Value>>,
    rs: Seq<Seq<Value>>,
)
    requires
        pairs_ok(pairs, before, left_len, right_len),
        unharmed(before, after, touched),
        touched.disjoint(pair_files(pairs)),
        pairs_within(pairs, before, ls, rs),
    ensures
        pairs_within(pairs, after, ls, rs),
{
    lemma_pairs_kept(on, pairs, before, after, touched, left_len, right_len);
    lemma_within_kept(pairs, before, after, ls, rs);
}

/// What each partition contributes.
pub open spec fn parts_total(
    full: bool,
    on: JoinOn,
    bl: bool,
    build: &FinishedParts,
    storage: &TempStorageManager,
    probe: &PartitionWriters,
) -> spec_fn(int) -> Multiset<Seq<Value>> {
    |p: int| total(full, on, bl, build.rows(p, storage), probe.rows(p))
}

/// Finishes the probe file of a partition. A file without a counterpart is deleted.
fn finish_part(
    build: Option<TempFileId>,
    probe: Option<TempRunWriter>,
    storage: &mut TempStorageManager,
    Ghost(own): Ghost<Set<u64>>,
) -> (r: Result<Option<(TempFileId, TempFileId)>, DbError>)
    requires
        old(storage).inv(),
        build matches Some(id) ==> run_of(old(storage), id.0) is Some && own.contains(id.0),
        probe matches Some(w) ==> w.inv(old(storage)) && own.contains(w.file()),
        build is Some && probe is Some ==> (build->0).0 != probe->0.file(),
        probe matches Some(w) ==> w.batch() <= MAX_BATCH_PAGES,
    ensures
        final(storage).inv(),
        untouched(old(storage), final(storage), own),
        r matches Ok(o) ==> (o is Some <==> build is Some && probe is Some) && (o matches Some((
            b,
            q,
        )) ==> b == build->0 && q.0 == probe->0.file() && run_of(final(storage), b.0) == run_of(
            old(storage),
            b.0,
        ) && run_of(final(storage), q.0) == Some(probe->0.rows())),
        r matches Err(e) ==> out_of_room(e, final(storage)),
        grew_by(old(storage), final(storage), MAX_BATCH_PAGES as nat, 0),
{
    let ghost s0 = *storage;
    proof {
        untouched_same(&s0, storage, own);
    }
    let probe_file: Option<TempFileId> = match probe {
        Some(w) => {
            let ghost f = w.file();
            let r = w.finish(storage);
            proof {
                untouched_but(&s0, storage, f, own);
                if build is Some {
                    assert(s0.same_file(storage, (build->0).0));
                }
            }
            match r {
                Ok(id) => Some(id),
                Err(e) => {
                    return Err(e);
                },
            }
        },
        None => None,
    };
    let ghost s1 = *storage;
    match (build, probe_file) {
        (Some(b), Some(p)) => Ok(Some((b, p))),
        (Some(b), None) => {
            let r = storage.delete_temp_file(b);
            proof {
                untouched_but(&s1, storage, b.0, own);
                untouched_twice(&s0, &s1, storage, own, own);
            }
            Ok(None)
        },
        (None, Some(p)) => {
            let r = storage.delete_temp_file(p);
            proof {
                untouched_but(&s1, storage, p.0, own);
                untouched_twice(&s0, &s1, storage, own, own);
            }
            Ok(None)
        },
        (None, None) => Ok(None),
    }
}

/// The files of a partition.
#[verifier::opaque]
spec fn one_part(bf: &FinishedParts, pw: &PartitionWriters, p: int) -> Set<u64> {
    Set::new(|f: u64| bf.file(p) == Some(f) || pw.file(p) == Some(f))
}

/// Takes one partition out and finishes it.
#[verifier::rlimit(60)]
#[verifier::spinoff_prover]
fn finish_at(
    bf: &mut FinishedParts,
    pw: &mut PartitionWriters,
    p: usize,
    storage: &mut TempStorageManager,
    Ghost(bn): Ghost<nat>,
    Ghost(pn): Ghost<nat>,
    Ghost(done): Ghost<Set<u64>>,
) -> (r: Result<Option<(TempFileId, TempFileId)>, DbError>)
    requires
        old(bf).ok(old(storage), bn),
        old(pw).inv(old(storage)),
        p < old(bf).count(),
        p < old(pw).count(),
        all_len(old(pw).rows(p as int), pn),
        old(bf).file_set().disjoint(old(pw).files()),
        done.disjoint(old(bf).file_set()),
        done.disjoint(old(pw).files()),
    ensures
        final(storage).inv(),
        final(bf).ok(final(storage), bn),
        final(pw).inv(final(storage)),
        final(bf).count() == old(bf).count(),
        final(pw).count() == old(pw).count(),
        forall|q: int|
            0 <= q < old(bf).count() && q != p ==> (#[trigger] final(bf).file(q)) == old(bf).file(q)
                && final(bf).rows(q, final(storage)) == old(bf).rows(q, old(storage)),
        forall|q: int|
            0 <= q < old(pw).count() && q != p ==> #[trigger] final(pw).rows(q) == old(pw).rows(q)
                && final(pw).file(q) == old(pw).file(q),
        final(bf).file_set().subset_of(old(bf).file_set()),
        final(pw).files().subset_of(old(pw).files()),
        untouched(old(storage), final(storage), one_part(old(bf), old(pw), p as int)),
        one_part(old(bf), old(pw), p as int).subset_of(
            old(bf).file_set().union(old(pw).files()),
        ),
        one_part(old(bf), old(pw), p as int).disjoint(done),
        one_part(old(bf), old(pw), p as int).disjoint(final(bf).file_set()),
        one_part(old(bf), old(pw), p as int).disjoint(final(pw).files()),
        match r {
            Ok(Some((b, q))) => {
                &&& b != q
                &&& old(bf).file(p as int) == Some(b.0)
                &&& old(pw).file(p as int) == Some(q.0)
                &&& run_of(final(storage), b.0) == Some(old(bf).rows(p as int, old(storage)))
                &&& run_of(final(storage), q.0) == Some(old(pw).rows(p as int))
                &&& all_len(old(bf).rows(p as int, old(storage)), bn)
                &&& forall|f: u64|
                    one_part(old(bf), old(pw), p as int).contains(f) <==> f == b.0 || f == q.0
            },
            Ok(None) => old(bf).file(p as int) is None || old(pw).file(p as int) is None,
            Err(e) => out_of_room(e, final(storage)),
        },
        grew_by(old(storage), final(storage), MAX_BATCH_PAGES as nat, 0),
{
    let ghost bf1 = *bf;
    let ghost pw1 = *pw;
    let ghost s1 = *storage;
    let ghost k = p as int;
    proof {
        bf.ok_gives(storage, bn);
        pw.inv_gives(storage);
    }
    let build = bf.take(p, Ghost(*storage), Ghost(bn));
    let probe = pw.take(p, storage);
    let ghost own = part_own(build, probe);
    proof {
        lemma_part_own(
            bf1.file_set(),
            pw1.files(),
            bf1.file_set(),
            pw1.files(),
            bf.file_set(),
            pw.files(),
            done,
            build,
            probe,
        );
        assert(own =~= one_part(&bf1, &pw1, k)) by {
            reveal(part_own);
            reveal(one_part);
        }
    }
    let finished = finish_part(build, probe, storage, Ghost(own));
    proof {
        bf.ok_kept(&s1, storage, own, bn);
        pw.inv_kept(&s1, storage, own);
        assert forall|q: int| 0 <= q < bf1.count() && q != p implies (#[trigger] bf.file(q))
            == bf1.file(q) && bf.rows(q, storage) == bf1.rows(q, &s1) by {
            assert(bf.rows(q, storage) == bf.rows(q, &s1));
        }
        reveal(part_own);
    }
    finished
}

/// Pairs the files of the build side with those of the probe side.
#[verifier::rlimit(100)]
#[verifier::spinoff_prover]
pub fn finalize_partition_pairs(
    build_is_left: bool,
    build_files: FinishedParts,
    probe_writers: PartitionWriters,
    storage: &mut TempStorageManager,
    Ghost(full): Ghost<bool>,
    Ghost(on): Ghost<JoinOn>,
    Ghost(left_len): Ghost<nat>,
    Ghost(right_len): Ghost<nat>,
    Ghost(build): Ghost<Seq<Seq<Value>>>,
    Ghost(probe): Ghost<Seq<Seq<Value>>>,
) -> (r: Result<Vec<FilePair>, DbError>)
    requires
        ({
            let (bn, pn) = if build_is_left {
                (left_len, right_len)
            } else {
                (right_len, left_len)
            };
            &&& build_files.ok(old(storage), bn)
            &&& probe_writers.inv(old(storage))
            &&& forall|p: int|
                0 <= p < probe_writers.count() ==> all_len(#[trigger] probe_writers.rows(p), pn)
        }),
        parts_in(&build_files, old(storage), build),
        writers_in(&probe_writers, probe),
        build_files.count() == probe_writers.count(),
        build_files.count() <= usize::MAX,
        build_files.file_set().disjoint(probe_writers.files()),
    ensures
        final(storage).inv(),
        untouched(
            old(storage),
            final(storage),
            build_files.file_set().union(probe_writers.files()),
        ),
        r matches Ok(pairs) ==> {
            &&& pairs_within(
                pairs@,
                final(storage),
                if build_is_left {
                    build
                } else {
                    probe
                },
                if build_is_left {
                    probe
                } else {
                    build
                },
            )
            &&& pairs_ok(pairs@, final(storage), left_len, right_len)
            &&& pair_files(pairs@).subset_of(build_files.file_set().union(probe_writers.files()))
            &&& pairs_total(full, on, build_is_left, final(storage), pairs@) == sum_parts(
                build_files.count(),
                parts_total(full, on, build_is_left, &build_files, old(storage), &probe_writers),
            )
        },
        r matches Err(e) ==> out_of_room(e, final(storage)),
        grew_by(
            old(storage),
            final(storage),
            build_files.count() * MAX_BATCH_PAGES as nat,
            0,
        ),
{
    let ghost b0 = build_files;
    let ghost w0 = probe_writers;
    let ghost s0 = *storage;
    let ghost mine = b0.file_set().union(w0.files());
    let ghost bl = build_is_left;
    let ghost (ls, rs) = if bl {
        (build, probe)
    } else {
        (probe, build)
    };
    let ghost build_all = build;
    let ghost probe_all = probe;
    let ghost bn = if bl {
        left_len
    } else {
        right_len
    };
    let ghost pn = if bl {
        right_len
    } else {
        left_len
    };
    let ghost parts = parts_total(full, on, bl, &b0, &s0, &w0);
    let mut bf = build_files;
    let mut pw = probe_writers;
    let n: usize = bf.len();
    let mut pairs: Vec<FilePair> = Vec::new();
    let mut p: usize = 0;
    proof {
        untouched_same(&s0, storage, mine);
        lemma_pairs_none();
        assert(pairs_within(Seq::empty(), storage, ls, rs)) by {
            reveal(pairs_within);
        }
        b0.ok_gives(&s0, bn);
    }
    while p < n
        invariant
            p <= n,
            s0 == *old(storage),
            grew_by(&s0, storage, (p * MAX_BATCH_PAGES) as nat, 0),
            b0 == build_files,
            w0 == probe_writers,
            bl == build_is_left,
            bn == (if bl {
                left_len
            } else {
                right_len
            }),
            pn == (if bl {
                right_len
            } else {
                left_len
            }),
            n == b0.count(),
            n == w0.count(),
            bf.count() == n,
            pw.count() == n,
            b0.ok(&s0, bn),
            bf.ok(storage, bn),
            pw.inv(storage),
            mine == b0.file_set().union(w0.files()),
            b0.file_set().disjoint(w0.files()),
            bf.file_set().subset_of(b0.file_set()),
            pw.files().subset_of(w0.files()),
            forall|q: int|
                p <= q < n ==> (#[trigger] bf.file(q)) == b0.file(q) && bf.rows(q, storage)
                    == b0.rows(q, &s0),
            forall|q: int|
                p <= q < n ==> #[trigger] pw.rows(q) == w0.rows(q) && pw.file(q) == w0.file(q),
            forall|q: int| 0 <= q < n ==> all_len(#[trigger] w0.rows(q), pn),
            parts == parts_total(full, on, bl, &b0, &s0, &w0),
            untouched(&s0, storage, mine),
            pairs_ok(pairs@, storage, left_len, right_len),
            pairs_within(pairs@, storage, ls, rs),
            ls == (if bl {
                build_all
            } else {
                probe_all
            }),
            rs == (if bl {
                probe_all
            } else {
                build_all
            }),
            parts_in(&b0, &s0, build_all),
            writers_in(&w0, probe_all),
            pair_files(pairs@).subset_of(mine),
            pair_files(pairs@).disjoint(bf.file_set()),
            pair_files(pairs@).disjoint(pw.files()),
            pairs_total(full, on, bl, storage, pairs@) == sum_parts(p as nat, parts),
        decreases n - p,
    {
        let ghost bf1 = bf;
        let ghost pw1 = pw;
        let ghost s1 = *storage;
        let ghost k = p as int;
        proof {
            bf.ok_gives(storage, bn);
            pw.inv_gives(storage);
            assert(bf1.file(k) == b0.file(k));
            assert(pw1.rows(k) == w0.rows(k));
            assert(parts(k) == total(full, on, bl, b0.rows(k, &s0), w0.rows(k)));
        }
        let ghost own = one_part(&bf1, &pw1, k);
        let finished = finish_at(
            &mut bf,
            &mut pw,
            p,
            storage,
            Ghost(bn),
            Ghost(pn),
            Ghost(pair_files(pairs@)),
        );
        let ghost so_far = pairs@;
        proof {
            untouched_more(&s1, storage, own, mine);
            untouched_twice(&s0, &s1, storage, mine, mine);
            lemma_pairs_total_kept(
                full,
                on,
                bl,
                so_far,
                &s1,
                storage,
                own,
                left_len,
                right_len,
            );
            lemma_pairs_stay_within(
                on,
                so_far,
                &s1,
                storage,
                own,
                left_len,
                right_len,
                ls,
                rs,
            );
            assert(sum_parts((p + 1) as nat, parts) == sum_parts(p as nat, parts).add(parts(k)));
        }
        match finished {
            Ok(Some((b, q))) => {
                let pair = if build_is_left {
                    FilePair { left: b, right: q }
                } else {
                    FilePair { left: q, right: b }
                };
                proof {
                    lemma_pairs_push_ok(so_far, pair, storage, left_len, right_len, own);
                    lemma_pairs_total_push(full, on, bl, storage, so_far, pair);
                    assert(pair_total(full, on, bl, storage, pair) == parts(k));
                    lemma_part_within(
                        &b0,
                        &s0,
                        &w0,
                        k,
                        build_all,
                        probe_all,
                        bl,
                        so_far,
                        pair,
                        storage,
                    );
                }
                pairs.push(pair);
            },
            Ok(None) => {
                proof {
                    let none = Multiset::<Seq<Value>>::empty();
                    if bf1.file(k) is None {
                        assert(b0.rows(k, &s0) =~= Seq::<Seq<Value>>::empty());
                        lemma_total_empty_build(full, on, bl, b0.rows(k, &s0), w0.rows(k));
                    } else {
                        assert(pw1.file(k) is None);
                        assert(w0.rows(k).len() == 0);
                    }
                    assert(parts(k) == none);
                    assert(sum_parts(p as nat, parts).add(none) =~= sum_parts(p as nat, parts));
                }
            },
            Err(e) => {
                return Err(e);
            },
        }
        proof {
            assert forall|q: int| p + 1 <= q < n implies (#[trigger] bf.file(q)) == b0.file(q)
                && bf.rows(q, storage) == b0.rows(q, &s0) by {
                assert(bf1.file(q) == b0.file(q));
                assert(bf1.rows(q, &s1) == b0.rows(q, &s0));
            }
            assert forall|q: int| p + 1 <= q < n implies #[trigger] pw.rows(q) == w0.rows(q)
                && pw.file(q) == w0.file(q) by {
                assert(pw1.rows(q) == w0.rows(q));
            }
        }
        p = p + 1;
    }
    proof {
        bf.ok_gives(storage, bn);
    }
    Ok(pairs)
}

/// Whether the rows of all partitions are among some rows.
#[verifier::opaque]
pub open spec fn parts_in(
    files: &FinishedParts,
    storage: &TempStorageManager,
    all: Seq<Seq<Value>>,
) -> bool {
    forall|p: int| 0 <= p < files.count() ==> all_in(#[trigger] files.rows(p, storage), all)
}

/// The same of partitions that are being written.
#[verifier::opaque]
pub open spec fn writers_in(writers: &PartitionWriters, all: Seq<Seq<Value>>) -> bool {
    forall|p: int| 0 <= p < writers.count() ==> all_in(#[trigger] writers.rows(p), all)
}

proof fn lemma_part_within(
    files: &FinishedParts,
    s0: &TempStorageManager,
    writers: &PartitionWriters,
    k: int,
    build: Seq<Seq<Value>>,
    probe: Seq<Seq<Value>>,
    bl: bool,
    pairs: Seq<FilePair>,
    pair: FilePair,
    storage: &TempStorageManager,
)
    requires
        parts_in(files, s0, build),
        writers_in(writers, probe),
        0 <= k < files.count(),
        k < writers.count(),
        if bl {
            pairs_within(pairs, storage, build, probe)
        } else {
            pairs_within(pairs, storage, probe, build)
        },
        run_of(
            storage,
            if bl {
                pair.left.0
            } else {
                pair.right.0
            },
        )->0 == files.rows(k, s0),
        run_of(
            storage,
            if bl {
                pair.right.0
            } else {
                pair.left.0
            },
        )->0 == writers.rows(k),
    ensures
        if bl {
            pairs_within(pairs.push(pair), storage, build, probe)
        } else {
            pairs_within(pairs.push(pair), storage, probe, build)
        },
{
    reveal(parts_in);
    reveal(writers_in);
    assert(all_in(files.rows(k, s0), build));
    assert(all_in(writers.rows(k), probe));
    if bl {
        lemma_within_push(pairs, pair, storage, build, probe);
    } else {
        lemma_within_push(pairs, pair, storage, probe, build);
    }
}

/// The files of one partition.
#[verifier::opaque]
spec fn part_own(build: Option<TempFileId>, probe: Option<TempRunWriter>) -> Set<u64> {
    Set::new(
        |f: u64| (build is Some && (build->0).0 == f) || (probe is Some && probe->0.file() == f),
    )
}

proof fn lemma_part_own(
    b0: Set<u64>,
    w0: Set<u64>,
    b1: Set<u64>,
    w1: Set<u64>,
    b: Set<u64>,
    w: Set<u64>,
    done: Set<u64>,
    build: Option<TempFileId>,
    probe: Option<TempRunWriter>,
)
    requires
        b0.disjoint(w0),
        b1.subset_of(b0),
        w1.subset_of(w0),
        b.subset_of(b1),
        w.subset_of(w1),
        done.disjoint(b1),
        done.disjoint(w1),
        build is Some ==> b1.contains((build->0).0) && !b.contains((build->0).0),
        probe is Some ==> w1.contains(probe->0.file()) && !w.contains(probe->0.file()),
    ensures
        part_own(build, probe).subset_of(b0.union(w0)),
        part_own(build, probe).disjoint(b),
        part_own(build, probe).disjoint(w),
        part_own(build, probe).disjoint(done),
        b.subset_of(b0),
        w.subset_of(w0),
        done.disjoint(b),
        done.disjoint(w),
        build is Some ==> part_own(build, probe).contains((build->0).0),
        probe is Some ==> part_own(build, probe).contains(probe->0.file()),
        build is Some && probe is Some ==> (build->0).0 != probe->0.file(),
{
    reveal(part_own);
}

} // verus!

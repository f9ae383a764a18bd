//! Where the probe rows of a hybrid hash join go.

use vstd::prelude::*;
use crate::adaptive_spec::lemma_no_contribution;
use crate::error::DbError;
use crate::hashing::key_hash64;
use crate::hybrid_build::part_of_hash;
use crate::hybrid_probe::HybridProbe;
use crate::join_table::JoinParams;
use crate::row::Row;
use crate::temp_storage::{TempStorageManager, untouched, untouched_same};
use crate::value::Value;
use crate::temp_run::cannot_store;

verus! {

impl HybridProbe {
    /// Takes a probe row: it goes to its partition's file, unless it can have no match.
    pub fn add_row(
        &mut self,
        row: Row,
        params: &JoinParams,
        storage: &mut TempStorageManager,
        Ghost(full): Ghost<bool>,
    ) -> (r: Result<(), DbError>)
        requires
            old(self).inv(params, old(storage)),
            old(self).scanned(),
            row@.len() == params.build_len(!old(self).build_is_left),
        ensures
            final(storage).inv(),
            untouched(old(storage), final(storage), old(self).files()),
            r is Ok ==> {
                &&& final(self).inv(params, final(storage))
                &&& final(self).scanned()
                &&& final(self).build_is_left == old(self).build_is_left
                &&& final(self).build_rows == old(self).build_rows
                &&& final(self).probe_rows@ == old(self).probe_rows@.push(row@)
                &&& final(self).reserved() == old(self).reserved()
                &&& forall|f: u64| #[trigger]
                    final(self).files().contains(f) ==> old(self).files().contains(f) || !old(
                        storage,
                    ).has_file(f)
                &&& old(self).good(full, params, old(storage)) ==> final(self).good(
                    full,
                    params,
                    final(storage),
                )
            },
            r matches Err(e) ==> cannot_store(e, row@, final(storage)),
            r matches Err(e) ==> cannot_store(e, row@, old(storage)),
    {
        let ghost before = *self;
        let ghost s0 = *storage;
        let ghost on = params@;
        let ghost bl = self.build_is_left;
        let ghost x = row@;
        proof {
            before.inv_gives(params, storage);
        }
        let probe_keys = params.keys_of(!self.build_is_left);
        let h: u64 = key_hash64(&row, probe_keys);
        let part: usize = part_of_hash(h, self.num_partitions);
        proof {
            untouched_same(&s0, storage, before.files());
        }
        assert(self.filters@[part as int].inv());
        let keep = self.keep_probe_row(&row, params, h, part);
        if !keep {
            proof {
                if before.good(full, params, &s0) {
                    before.lemma_not_kept(full, params, storage, x);
                }
            }
            self.pass_over(&row, params, storage, Ghost(full));
            return Ok(());
        }
        if part != 0 {
            return self.append_part(part, &row, params, storage, Ghost(full));
        }
        let spilled = self.build_files.get(0).is_some();
        if spilled || !self.resident.is_empty(
            Ghost(params.build_at(bl)),
            Ghost(params.build_len(bl)),
        ) {
            return self.append_resident_row(&row, params, storage, Ghost(full));
        }
        proof {
            before.lemma_same_part(params, storage, x);
            assert(before.resident_build(&s0) =~= Seq::<Seq<Value>>::empty());
            lemma_no_contribution(full, on, bl, before.resident_build(&s0), x);
        }
        self.pass_over(&row, params, storage, Ghost(full));
        Ok(())
    }
}

} // verus!

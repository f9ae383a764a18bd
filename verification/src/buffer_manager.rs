//! A cache of blocks, which gives up the block that came first.

use std::collections::{HashMap, VecDeque};
use vstd::prelude::*;
use crate::error::DbError;

verus! {

broadcast use vstd::std_specs::hash::group_hash_axioms;

#[derive(Debug)]
struct Frame {
    block_id: u64,
    data: Vec<u8>,
}

/// Keeps the contents of some blocks in memory.
pub struct BufferManager {
    block_size: usize,
    capacity: usize,
    frames: Vec<Option<Frame>>,
    page_table: HashMap<u64, usize>,
    fifo_queue: VecDeque<u64>,
    free_frames: VecDeque<usize>,
}

/// The order of blocks in which they came, after one more came.
pub open spec fn order_after(order: Seq<u64>, capacity: int, block_id: u64) -> Seq<u64> {
    if order.len() >= capacity {
        order.drop_first().push(block_id)
    } else {
        order.push(block_id)
    }
}

/// The blocks that are kept, after one more came.
pub open spec fn pages_after(
    pages: Map<u64, Seq<u8>>,
    order: Seq<u64>,
    capacity: int,
    block_id: u64,
    data: Seq<u8>,
) -> Map<u64, Seq<u8>> {
    if order.len() >= capacity {
        pages.remove(order[0]).insert(block_id, data)
    } else {
        pages.insert(block_id, data)
    }
}

impl BufferManager {
    pub closed spec fn size(&self) -> int {
        self.block_size as int
    }

    pub closed spec fn room(&self) -> int {
        self.capacity as int
    }

    /// The blocks that are kept, and their contents.
    pub closed spec fn pages(&self) -> Map<u64, Seq<u8>> {
        self.page_table@.map_values(|at: usize| (self.frames@[at as int]->0).data@)
    }

    /// The blocks that are kept, in the order in which they came.
    pub closed spec fn order(&self) -> Seq<u64> {
        self.fifo_queue@
    }

    pub closed spec fn inv(&self) -> bool {
        &&& self.capacity > 0
        &&& self.frames@.len() == self.capacity
        &&& self.free_frames@.len() + self.fifo_queue@.len() == self.capacity
        &&& self.fifo_queue@.no_duplicates()
        &&& self.free_frames@.no_duplicates()
        &&& forall|b: u64| #[trigger]
            self.page_table@.contains_key(b) <==> self.fifo_queue@.contains(b)
        &&& forall|b: u64| #[trigger]
            self.page_table@.contains_key(b) ==> self.holds(b, self.page_table@[b])
        &&& forall|i: int|
            0 <= i < self.free_frames@.len() ==> self.is_free(#[trigger] self.free_frames@[i])
    }

    spec fn holds(&self, b: u64, at: usize) -> bool {
        &&& at < self.capacity
        &&& self.frames@[at as int] matches Some(f) && f.block_id == b && f.data@.len()
            == self.block_size
    }

    spec fn is_free(&self, at: usize) -> bool {
        at < self.capacity && self.frames@[at as int] is None
    }

    /// No more blocks are kept than there is room for; each has a block's size; and the order
    /// names each of them once.
    pub proof fn cache_is_bounded(&self)
        requires
            self.inv(),
        ensures
            self.order().len() <= self.room(),
            self.order().no_duplicates(),
            forall|b: u64| #[trigger]
                self.pages().contains_key(b) <==> self.order().contains(b),
            forall|b: u64| #[trigger]
                self.pages().contains_key(b) ==> self.pages()[b].len() == self.size(),
    {
        assert forall|b: u64| #[trigger] self.pages().contains_key(b) implies self.pages()[b].len()
            == self.size() by {
            assert(self.page_table@.contains_key(b));
        }
    }

    /// Makes an empty cache with room for some blocks.
    pub fn new(block_size: usize, capacity: usize) -> (r: Result<BufferManager, DbError>)
        ensures
            r is Err <==> capacity == 0,
            r matches Err(e) ==> e == DbError::NoBufferCapacity,
            r matches Ok(m) ==> {
                &&& m.inv()
                &&& m.size() == block_size
                &&& m.room() == capacity
                &&& m.pages() == Map::<u64, Seq<u8>>::empty()
                &&& m.order().len() == 0
            },
    {
        if capacity == 0 {
            return Err(DbError::NoBufferCapacity);
        }
        let mut frames: Vec<Option<Frame>> = Vec::new();
        let mut free_frames: VecDeque<usize> = VecDeque::new();
        let mut i: usize = 0;
        while i < capacity
            invariant
                i <= capacity,
                frames@.len() == i,
                free_frames@.len() == i,
                forall|j: int| 0 <= j < i ==> #[trigger] frames@[j] is None,
                forall|j: int| 0 <= j < i ==> #[trigger] free_frames@[j] == j,
            decreases capacity - i,
        {
            frames.push(None);
            free_frames.push_back(i);
            i += 1;
        }
        let m = BufferManager {
            block_size,
            capacity,
            frames,
            page_table: HashMap::new(),
            fifo_queue: VecDeque::new(),
            free_frames,
        };
        assert(m.pages() =~= Map::<u64, Seq<u8>>::empty());
        Ok(m)
    }

    pub fn block_size(&self) -> (r: usize)
        ensures
            r == self.size(),
    {
        self.block_size
    }

    pub fn capacity(&self) -> (r: usize)
        ensures
            r == self.room(),
    {
        self.capacity
    }

    /// Whether a block is kept.
    pub fn contains(&self, block_id: u64) -> (r: bool)
        ensures
            r == self.pages().contains_key(block_id),
    {
        self.page_table.contains_key(&block_id)
    }

    /// The contents of a block, where it is kept. Where it is not, its contents are to be read
    /// and put into the cache.
    pub fn get_block(&self, block_id: u64) -> (r: Option<&[u8]>)
        requires
            self.inv(),
        ensures
            match r {
                Some(data) => self.pages().contains_key(block_id) && data@ == self.pages()[block_id],
                None => !self.pages().contains_key(block_id),
            },
    {
        match self.page_table.get(&block_id) {
            Some(at) => {
                proof {
                    assert(self.page_table@.contains_key(block_id));
                    assert(self.holds(block_id, *at));
                }
                match &self.frames[*at] {
                    Some(frame) => Some(frame.data.as_slice()),
                    None => None,
                }
            },
            None => None,
        }
    }

    fn find_free_frame(&mut self) -> (r: Option<usize>)
        requires
            old(self).inv(),
        ensures
            final(self).block_size == old(self).block_size,
            final(self).capacity == old(self).capacity,
            final(self).frames == old(self).frames,
            final(self).page_table == old(self).page_table,
            final(self).fifo_queue == old(self).fifo_queue,
            match r {
                Some(at) => {
                    &&& old(self).free_frames@.len() > 0
                    &&& at == old(self).free_frames@[0]
                    &&& final(self).free_frames@ == old(self).free_frames@.drop_first()
                },
                None => {
                    &&& old(self).free_frames@.len() == 0
                    &&& final(self).free_frames@ == old(self).free_frames@
                },
            },
    {
        let r = self.free_frames.pop_front();
        proof {
            if r is Some {
                assert(self.free_frames@ =~= old(self).free_frames@.drop_first());
            }
        }
        r
    }

    /// Gives up the block that came first; tells the frame that it leaves.
    fn evict_one(&mut self) -> (r: Result<usize, DbError>)
        requires
            old(self).inv(),
        ensures
            final(self).block_size == old(self).block_size,
            final(self).capacity == old(self).capacity,
            r is Err <==> old(self).fifo_queue@.len() == 0,
            r is Err ==> final(self).inv() && final(self).pages() == old(self).pages() && final(
                self).order() == old(self).order(),
            r matches Ok(at) ==> {
                let victim = old(self).fifo_queue@[0];
                &&& at == old(self).page_table@[victim]
                &&& at < old(self).capacity
                &&& final(self).page_table@ == old(self).page_table@.remove(victim)
                &&& final(self).fifo_queue@ == old(self).fifo_queue@.drop_first()
                &&& final(self).frames@ == old(self).frames@.update(at as int, None)
                &&& final(self).free_frames == old(self).free_frames
            },
    {
        let victim: u64 = match self.fifo_queue.pop_front() {
            Some(b) => b,
            None => {
                return Err(DbError::NoEvictionVictim);
            },
        };
        proof {
            assert(self.fifo_queue@ =~= old(self).fifo_queue@.drop_first());
            assert(old(self).fifo_queue@.contains(old(self).fifo_queue@[0]));
            assert(old(self).page_table@.contains_key(victim));
            assert(old(self).holds(victim, old(self).page_table@[victim]));
        }
        let at: usize = match self.page_table.remove(&victim) {
            Some(at) => at,
            None => {
                return Err(DbError::NoEvictionVictim);
            },
        };
        self.frames.set(at, None);
        Ok(at)
    }

    /// Puts the contents of a block that was read into the cache. Where there is no room, the
    /// block that came first is given up.
    pub fn put_block(&mut self, block_id: u64, data: Vec<u8>) -> (r: Result<(), DbError>)
        requires
            old(self).inv(),
            !old(self).pages().contains_key(block_id),
        ensures
            final(self).inv(),
            final(self).size() == old(self).size(),
            final(self).room() == old(self).room(),
            if data@.len() == old(self).size() {
                &&& r is Ok
                &&& final(self).order() == order_after(old(self).order(), old(self).room(), block_id)
                &&& final(self).pages() == pages_after(
                    old(self).pages(),
                    old(self).order(),
                    old(self).room(),
                    block_id,
                    data@,
                )
            } else {
                &&& r == Err::<(), DbError>(
                    DbError::BufferLengthMismatch {
                        len: data.len(),
                        num_pages: 1,
                        block_size: old(self).size() as usize,
                    },
                )
                &&& final(self).order() == old(self).order()
                &&& final(self).pages() == old(self).pages()
            },
    {
        if data.len() != self.block_size {
            return Err(
                DbError::BufferLengthMismatch {
                    len: data.len(),
                    num_pages: 1,
                    block_size: self.block_size,
                },
            );
        }
        let ghost contents = data@;
        let at: usize = match self.find_free_frame() {
            Some(at) => at,
            None => {
                let evicted = self.evict_one();
                match evicted {
                    Ok(at) => at,
                    Err(e) => {
                        return Err(e);
                    },
                }
            },
        };
        let ghost mid = *self;
        proof {
            if old(self).free_frames@.len() > 0 {
                assert(old(self).is_free(old(self).free_frames@[0]));
            }
        }
        self.frames.set(at, Some(Frame { block_id, data }));
        self.page_table.insert(block_id, at);
        self.fifo_queue.push_back(block_id);
        proof {
            let was = *old(self);
            let evicts = was.free_frames@.len() == 0;
            assert(!was.page_table@.contains_key(block_id));
            assert forall|b: u64| #[trigger] self.page_table@.contains_key(b) implies self.holds(
                b,
                self.page_table@[b],
            ) by {
                if b != block_id {
                    assert(mid.page_table@.contains_key(b));
                    assert(was.page_table@.contains_key(b));
                    assert(was.holds(b, was.page_table@[b]));
                    if evicts {
                        let victim = was.fifo_queue@[0];
                        assert(was.fifo_queue@.contains(victim));
                        assert(was.page_table@.contains_key(victim));
                        assert(was.holds(victim, was.page_table@[victim]));
                    }
                    assert(was.page_table@[b] != at);
                }
            }
            assert forall|b: u64| #[trigger] self.page_table@.contains_key(b)
                <==> self.fifo_queue@.contains(b) by {
                let order = was.fifo_queue@;
                if b == block_id {
                    assert(self.fifo_queue@[self.fifo_queue@.len() - 1] == b);
                } else if evicts {
                    assert(was.page_table@.contains_key(b) <==> order.contains(b));
                    if order.contains(b) && b != order[0] {
                        let k = choose|k: int| 0 <= k < order.len() && order[k] == b;
                        assert(self.fifo_queue@[k - 1] == b);
                    }
                    if self.fifo_queue@.contains(b) {
                        let k = choose|k: int|
                            0 <= k < self.fifo_queue@.len() && self.fifo_queue@[k] == b;
                        assert(order[k + 1] == b);
                        assert(order.contains(b));
                        assert(b != order[0]);
                    }
                } else {
                    assert(was.page_table@.contains_key(b) <==> order.contains(b));
                    if order.contains(b) {
                        let k = choose|k: int| 0 <= k < order.len() && order[k] == b;
                        assert(self.fifo_queue@[k] == b);
                    }
                    if self.fifo_queue@.contains(b) {
                        let k = choose|k: int|
                            0 <= k < self.fifo_queue@.len() && self.fifo_queue@[k] == b;
                        assert(order[k] == b);
                    }
                }
            }
            assert(!was.fifo_queue@.contains(block_id));
            assert(self.fifo_queue@.no_duplicates());
            assert forall|i: int| 0 <= i < self.free_frames@.len() implies self.is_free(
                #[trigger] self.free_frames@[i],
            ) by {
                assert(was.is_free(was.free_frames@[i + 1]));
            }
            assert(self.order() =~= order_after(was.order(), was.room(), block_id));
            let want = pages_after(was.pages(), was.order(), was.room(), block_id, contents);
            assert forall|b: u64| #[trigger] self.pages().contains_key(b) implies self.pages()[b]
                == want[b] by {
                assert(self.page_table@.contains_key(b));
                if b != block_id {
                    assert(was.page_table@.contains_key(b));
                    assert(was.holds(b, was.page_table@[b]));
                    if evicts {
                        let victim = was.fifo_queue@[0];
                        assert(was.fifo_queue@.contains(victim));
                        assert(was.page_table@.contains_key(victim));
                        assert(was.holds(victim, was.page_table@[victim]));
                    }
                    assert(was.page_table@[b] != at);
                }
            }
            assert(self.pages() =~= want);
        }
        Ok(())
    }
}

} // verus!

//! The buffer pool: a cache of disk blocks with LRU, MRU and CLOCK
//! eviction, the scratch-block allocator with its free list, and the queue
//! of requests for the disk simulator.
//!
//! The pool performs no I/O.  A method that needs something from the disk
//! (a block's bytes, a file's location, where the scratch region starts)
//! and does not have it yet records a [`DiskRequest`] and returns `None`;
//! the caller performs the request, hands back the answer with one of the
//! `provide_*` methods, and calls the method again.  Writes are queued, in
//! order, for the caller to perform before its next read.
use vstd::prelude::*;
use std::collections::{HashMap, VecDeque};
use crate::disk_run::Run;
use crate::data::copy_bytes;

verus! {

broadcast use vstd::std_specs::hash::group_hash_axioms;

/// Which frame a full pool gives up.
#[derive(Debug, Clone, Copy, PartialEq, Eq, Structural)]
pub enum EvictionPolicy {
    LRU,
    MRU,
    CLOCK,
}

/// One cache slot.
pub struct Frame {
    pub data: Vec<u8>,
    pub block_id: Option<u64>,
    pub dirty: bool,
    pub pin_count: u32,
    pub referenced: bool,
}

/// Something the pool needs from the disk simulator.
#[derive(Debug)]
pub enum DiskRequest {
    /// `get anon-start-block`
    AnonStartBlock,
    /// `get file start-block <id>`
    FileStartBlock(String),
    /// `get file num-blocks <id>`
    FileNumBlocks(String),
    /// `get block <start> <count>`
    ReadBlocks { start: u64, count: u64 },
}

pub struct BufferPool {
    frames: Vec<Frame>,
    page_table: HashMap<u64, usize>,
    lru_list: VecDeque<usize>,
    clock_hand: usize,
    policy: EvictionPolicy,
    block_size: usize,
    /// Next block ID to hand out from the anonymous (scratch) region.
    next_anon_block_id: Option<u64>,
    /// Free list of recycled block IDs.
    free_anon_blocks: Vec<u64>,
    /// The first block of the scratch region, once the disk has said.
    anon_start: Option<u64>,
    /// File locations the disk has reported: (file id, first block).
    file_starts: Vec<(String, u64)>,
    /// File sizes the disk has reported: (file id, number of blocks).
    file_sizes: Vec<(String, u64)>,
    /// Bytes the disk returned for a read: (first block, count, bytes).
    ready_read: Option<(u64, u64, Vec<u8>)>,
    /// What the last call that returned `None` was waiting for.
    pending_request: Option<DiskRequest>,
    /// Writes to perform, in order: (first block, bytes of whole blocks).
    pending_writes: Vec<(u64, Vec<u8>)>,
}

impl BufferPool {
    /// The pool's invariant: the page table and the frames agree, block by
    /// block, and every index the pool keeps points at a frame.
    pub closed spec fn wf(&self) -> bool {
        &&& vstd::std_specs::hash::obeys_key_model::<u64>()
        &&& vstd::std_specs::hash::builds_valid_hashers::<std::hash::RandomState>()
        &&& self.block_size > 0
        &&& forall|b: u64| #[trigger]
            self.page_table@.contains_key(b) ==> {
                let f = self.page_table@[b];
                &&& f < self.frames@.len()
                &&& self.frames@[f as int].block_id == Some(b)
            }
        &&& forall|f: int|
            0 <= f < self.frames@.len() ==> match (#[trigger] self.frames@[f]).block_id {
                Some(b) => self.page_table@.contains_key(b) && self.page_table@[b] == f,
                None => true,
            }
        &&& forall|i: int|
            0 <= i < self.lru_list@.len() ==> #[trigger] self.lru_list@[i] < self.frames@.len()
        &&& (self.frames@.len() > 0 ==> self.clock_hand < self.frames@.len())
        &&& (self.ready_read matches Some((start, count, data)) ==> data@.len() == count
            * self.block_size)
    }

    /// The blocks the cache holds, with their bytes.
    pub closed spec fn cached(&self) -> Map<u64, Seq<u8>> {
        Map::new(
            |b: u64| self.page_table@.contains_key(b),
            |b: u64| self.frames@[self.page_table@[b] as int].data@,
        )
    }

    /// The pins held on a cached block.
    pub closed spec fn pins(&self, b: u64) -> u32 {
        self.frames@[self.page_table@[b] as int].pin_count
    }

    /// Whether a cached block has changed since it was read.
    pub closed spec fn is_dirty(&self, b: u64) -> bool {
        self.frames@[self.page_table@[b] as int].dirty
    }

    /// The policy in force.
    pub closed spec fn spec_policy(&self) -> EvictionPolicy {
        self.policy
    }

    pub closed spec fn spec_block_size(&self) -> usize {
        self.block_size
    }

    pub closed spec fn spec_num_frames(&self) -> nat {
        self.frames@.len()
    }

    /// The recycled scratch blocks, the next to hand out last.
    pub closed spec fn free_list(&self) -> Seq<u64> {
        self.free_anon_blocks@
    }

    /// The next fresh scratch block, once the scratch region is known.
    pub closed spec fn next_anon(&self) -> Option<u64> {
        self.next_anon_block_id
    }

    /// The start of the scratch region, once the disk has said.
    pub closed spec fn anon_start_known(&self) -> Option<u64> {
        self.anon_start
    }

    /// The disk's answer to a read, not yet taken: first block, count and
    /// bytes.
    pub closed spec fn answered(&self) -> Option<(u64, u64, Seq<u8>)> {
        match self.ready_read {
            Some((s, c, d)) => Some((s, c, d@)),
            None => None,
        }
    }

    /// The request the pool is waiting on.
    pub closed spec fn request(&self) -> Option<DiskRequest> {
        self.pending_request
    }

    /// The bytes frame `f` holds allocated: none until a block is fetched
    /// into it.
    pub closed spec fn frame_bytes(&self, f: int) -> nat {
        self.frames@[f].data@.len()
    }

    /// The frame that holds a cached block.
    pub closed spec fn frame_of(&self, b: u64) -> usize {
        self.page_table@[b]
    }

    /// The frames, in order: each one's block, bytes, pins, dirty and
    /// reference marks.
    pub closed spec fn frames_view(&self) -> Seq<Frame> {
        self.frames@
    }

    /// The recency list: frame indices, the most recently used first.
    pub closed spec fn recency(&self) -> Seq<usize> {
        self.lru_list@
    }

    /// The frame the CLOCK hand points at.
    pub closed spec fn hand(&self) -> usize {
        self.clock_hand
    }

    /// The writes queued so far, oldest first.
    pub closed spec fn writes(&self) -> Seq<(u64, Seq<u8>)> {
        self.pending_writes@.map_values(|w: (u64, Vec<u8>)| (w.0, w.1@))
    }

    /// An empty pool of `num_frames` frames over blocks of `block_size`
    /// bytes.  Frames hold no bytes until a block is fetched into them.
    pub fn new(num_frames: usize, block_size: usize) -> (r: BufferPool)
        requires
            block_size > 0,
        ensures
            r.wf(),
            r.spec_num_frames() == num_frames,
            r.spec_block_size() == block_size,
            r.spec_policy() == EvictionPolicy::LRU,
            r.cached() == Map::<u64, Seq<u8>>::empty(),
            r.free_list() == Seq::<u64>::empty(),
            r.next_anon() is None,
            r.anon_start_known() is None,
            r.request() is None,
            r.writes() == Seq::<(u64, Seq<u8>)>::empty(),
            forall|f: int| 0 <= f < num_frames ==> #[trigger] r.frame_bytes(f) == 0,
            forall|id: Seq<char>| #[trigger] r.file_start_known(id) is None && r.file_size_known(id) is None,
            r.answered() is None,
    {
        let mut frames: Vec<Frame> = Vec::new();
        let mut i: usize = 0;
        while i < num_frames
            invariant
                i <= num_frames,
                frames@.len() == i,
                forall|f: int| 0 <= f < i ==> (#[trigger] frames@[f]).block_id is None,
                forall|f: int| 0 <= f < i ==> (#[trigger] frames@[f]).data@.len() == 0,
            decreases num_frames - i,
        {
            frames.push(
                Frame { data: Vec::new(), block_id: None, dirty: false, pin_count: 0, referenced: false },
            );
            i += 1;
        }
        let r = BufferPool {
            frames,
            page_table: HashMap::new(),
            lru_list: VecDeque::new(),
            clock_hand: 0,
            policy: EvictionPolicy::LRU,
            block_size,
            next_anon_block_id: None,
            free_anon_blocks: Vec::new(),
            anon_start: None,
            file_starts: Vec::new(),
            file_sizes: Vec::new(),
            ready_read: None,
            pending_request: None,
            pending_writes: Vec::new(),
        };
        proof {
            assert(r.cached() =~= Map::<u64, Seq<u8>>::empty());
            assert(r.writes() =~= Seq::<(u64, Seq<u8>)>::empty());
        }
        r
    }

    pub fn set_eviction_policy(&mut self, policy: EvictionPolicy)
        requires
            old(self).wf(),
        ensures
            final(self).wf(),
            final(self).spec_policy() == policy,
            final(self).cached() == old(self).cached(),
            final(self).spec_num_frames() == old(self).spec_num_frames(),
            final(self).spec_block_size() == old(self).spec_block_size(),
            final(self).writes() == old(self).writes(),
            final(self).free_list() == old(self).free_list(),
            final(self).next_anon() == old(self).next_anon(),
            final(self).anon_start_known() == old(self).anon_start_known(),
            final(self).request() == old(self).request(),
            forall|b: u64| #[trigger] old(self).cached().contains_key(b) ==> final(self).pins(b) == old(self).pins(b)
                && final(self).is_dirty(b) == old(self).is_dirty(b),
            final(self).recency() == old(self).recency(),
            final(self).hand() == old(self).hand(),
    {
        self.policy = policy;
    }

    /// The policy in force.
    pub fn get_eviction_policy(&self) -> (r: EvictionPolicy)
        ensures
            r == self.spec_policy(),
    {
        self.policy
    }

    pub fn num_frames(&self) -> (r: usize)
        ensures
            r == self.spec_num_frames(),
    {
        self.frames.len()
    }

    pub fn block_size(&self) -> (r: usize)
        ensures
            r == self.spec_block_size(),
    {
        self.block_size
    }

    // ─── Exchange with the disk ──────────────────────────────────────────

    /// The request the last blocked call is waiting on; the pool forgets it.
    pub fn take_request(&mut self) -> (r: Option<DiskRequest>)
        requires
            old(self).wf(),
        ensures
            final(self).wf(),
            r == old(self).request(),
            final(self).request() is None,
            final(self).cached() == old(self).cached(),
            final(self).spec_num_frames() == old(self).spec_num_frames(),
            final(self).spec_block_size() == old(self).spec_block_size(),
            final(self).spec_policy() == old(self).spec_policy(),
            final(self).writes() == old(self).writes(),
    {
        let r = self.pending_request.take();
        r
    }

    /// The queued writes, oldest first; the queue is emptied.
    pub fn take_writes(&mut self) -> (r: Vec<(u64, Vec<u8>)>)
        requires
            old(self).wf(),
        ensures
            final(self).wf(),
            r@.map_values(|w: (u64, Vec<u8>)| (w.0, w.1@)) == old(self).writes(),
            final(self).writes() == Seq::<(u64, Seq<u8>)>::empty(),
            final(self).cached() == old(self).cached(),
            final(self).spec_num_frames() == old(self).spec_num_frames(),
            final(self).spec_block_size() == old(self).spec_block_size(),
            final(self).spec_policy() == old(self).spec_policy(),
            final(self).request() == old(self).request(),
    {
        let mut out: Vec<(u64, Vec<u8>)> = Vec::new();
        std::mem::swap(&mut out, &mut self.pending_writes);
        proof {
            assert(self.writes() =~= Seq::<(u64, Seq<u8>)>::empty());
        }
        out
    }

    /// Records where the scratch region starts.
    pub fn provide_anon_start(&mut self, start: u64)
        requires
            old(self).wf(),
        ensures
            final(self).wf(),
            final(self).anon_start_known() == Some(start),
            final(self).cached() == old(self).cached(),
            final(self).spec_num_frames() == old(self).spec_num_frames(),
            final(self).spec_block_size() == old(self).spec_block_size(),
            final(self).spec_policy() == old(self).spec_policy(),
            final(self).writes() == old(self).writes(),
            final(self).next_anon() == old(self).next_anon(),
            final(self).free_list() == old(self).free_list(),
    {
        self.anon_start = Some(start);
    }

    /// Records the first block of a file.
    pub fn provide_file_start(&mut self, file_id: String, start: u64)
        requires
            old(self).wf(),
        ensures
            final(self).wf(),
            final(self).cached() == old(self).cached(),
            final(self).spec_num_frames() == old(self).spec_num_frames(),
            final(self).spec_block_size() == old(self).spec_block_size(),
            final(self).spec_policy() == old(self).spec_policy(),
            final(self).writes() == old(self).writes(),
            forall|id: Seq<char>| #[trigger] final(self).file_start_known(id) == if id == file_id@ && old(self).file_start_known(id) is None {
                Some(start)
            } else {
                old(self).file_start_known(id)
            },
    {
        let ghost before = self.file_starts@;
        let ghost fid = file_id@;
        self.file_starts.push((file_id, start));
        proof {
            assert forall|id: Seq<char>| #[trigger] self.file_start_known(id) == if id == fid && first_entry(before, id) is None {
                Some(start)
            } else {
                first_entry(before, id)
            } by {
                assert(self.file_starts@ == before.push(self.file_starts@.last()));
                lemma_first_entry_push(before, self.file_starts@.last(), id);
            }
        }
    }


    /// Records the number of blocks of a file.
    pub fn provide_file_num_blocks(&mut self, file_id: String, num_blocks: u64)
        requires
            old(self).wf(),
        ensures
            final(self).wf(),
            final(self).cached() == old(self).cached(),
            final(self).spec_num_frames() == old(self).spec_num_frames(),
            final(self).spec_block_size() == old(self).spec_block_size(),
            final(self).spec_policy() == old(self).spec_policy(),
            final(self).writes() == old(self).writes(),
            forall|id: Seq<char>| #[trigger] final(self).file_size_known(id) == if id == file_id@ && old(self).file_size_known(id) is None {
                Some(num_blocks)
            } else {
                old(self).file_size_known(id)
            },
    {
        let ghost before = self.file_sizes@;
        let ghost fid = file_id@;
        self.file_sizes.push((file_id, num_blocks));
        proof {
            assert forall|id: Seq<char>| #[trigger] self.file_size_known(id) == if id == fid && first_entry(before, id) is None {
                Some(num_blocks)
            } else {
                first_entry(before, id)
            } by {
                assert(self.file_sizes@ == before.push(self.file_sizes@.last()));
                lemma_first_entry_push(before, self.file_sizes@.last(), id);
            }
        }
    }

    /// Records the bytes of `count` blocks read from `start`.
    pub fn provide_blocks(&mut self, start: u64, count: u64, data: Vec<u8>)
        requires
            old(self).wf(),
            data@.len() == count * old(self).spec_block_size(),
        ensures
            final(self).wf(),
            final(self).cached() == old(self).cached(),
            final(self).spec_num_frames() == old(self).spec_num_frames(),
            final(self).spec_block_size() == old(self).spec_block_size(),
            final(self).spec_policy() == old(self).spec_policy(),
            final(self).writes() == old(self).writes(),
            final(self).answered() == Some((start, count, data@)),
    {
        self.ready_read = Some((start, count, data));
    }

    /// Takes the bytes of a read that the disk has answered, if the answer
    /// is for `start` and `count`; else asks for that read.
    fn take_read(&mut self, start: u64, count: u64) -> (r: Option<Vec<u8>>)
        requires
            old(self).wf(),
        ensures
            final(self).wf(),
            final(self).cached() == old(self).cached(),
            final(self).frames@ == old(self).frames@,
            final(self).page_table@ == old(self).page_table@,
            final(self).lru_list@ == old(self).lru_list@,
            final(self).clock_hand == old(self).clock_hand,
            final(self).policy == old(self).policy,
            final(self).block_size == old(self).block_size,
            final(self).next_anon_block_id == old(self).next_anon_block_id,
            final(self).free_anon_blocks@ == old(self).free_anon_blocks@,
            final(self).anon_start == old(self).anon_start,
            final(self).pending_writes@ == old(self).pending_writes@,
            (old(self).answered() matches Some((s, c, _)) && s == start && c == count) ==> r is Some,
            match r {
                Some(d) => d@.len() == count * old(self).block_size && old(self).answered() == Some((start, count, d@)),
                None => final(self).pending_request == Some(
                    DiskRequest::ReadBlocks { start, count },
                ),
            },
    {
        let ready = self.ready_read.take();
        match ready {
            Some((s, c, d)) => {
                if s == start && c == count {
                    return Some(d);
                }
                self.ready_read = Some((s, c, d));
            },
            None => {},
        }
        self.pending_request = Some(DiskRequest::ReadBlocks { start, count });
        None
    }

    /// Reads `count` consecutive blocks from `start_block`, bypassing the
    /// cache so that a long scan does not evict the blocks worth keeping.
    /// `None` until the disk has answered; then the `count * block_size`
    /// bytes.
    pub fn read_blocks_sequential(&mut self, start_block: u64, count: u64) -> (r: Option<Vec<u8>>)
        requires
            old(self).wf(),
        ensures
            final(self).wf(),
            final(self).cached() == old(self).cached(),
            final(self).spec_num_frames() == old(self).spec_num_frames(),
            final(self).spec_block_size() == old(self).spec_block_size(),
            final(self).spec_policy() == old(self).spec_policy(),
            final(self).writes() == old(self).writes(),
            final(self).free_list() == old(self).free_list(),
            final(self).next_anon() == old(self).next_anon(),
            final(self).anon_start_known() == old(self).anon_start_known(),
            forall|b: u64| #[trigger] old(self).cached().contains_key(b) ==> final(self).pins(b) == old(self).pins(b)
                && final(self).is_dirty(b) == old(self).is_dirty(b),
            final(self).recency() == old(self).recency(),
            final(self).hand() == old(self).hand(),
            (old(self).answered() matches Some((s, c, _)) && s == start_block && c == count) ==> r is Some,
            match r {
                Some(d) => d@.len() == count * old(self).spec_block_size() && old(self).answered() == Some(
                    (start_block, count, d@),
                ),
                None => final(self).request() == Some(
                    DiskRequest::ReadBlocks { start: start_block, count },
                ),
            },
    {
        self.take_read(start_block, count)
    }

    /// The start of the scratch region, or `None` after asking the disk.
    pub fn get_anon_start_block(&mut self) -> (r: Option<u64>)
        requires
            old(self).wf(),
        ensures
            final(self).wf(),
            r == old(self).anon_start_known(),
            r is None ==> final(self).request() == Some(DiskRequest::AnonStartBlock),
            final(self).cached() == old(self).cached(),
            final(self).spec_num_frames() == old(self).spec_num_frames(),
            final(self).spec_block_size() == old(self).spec_block_size(),
            final(self).spec_policy() == old(self).spec_policy(),
            final(self).writes() == old(self).writes(),
            final(self).free_list() == old(self).free_list(),
            final(self).next_anon() == old(self).next_anon(),
            final(self).anon_start_known() == old(self).anon_start_known(),
    {
        match self.anon_start {
            Some(s) => Some(s),
            None => {
                self.pending_request = Some(DiskRequest::AnonStartBlock);
                None
            },
        }
    }

    fn invalidate_cached_block(&mut self, block_id: u64)
        requires
            old(self).wf(),
        ensures
            final(self).wf(),
            final(self).cached() == old(self).cached().remove(block_id),
            final(self).frames@.len() == old(self).frames@.len(),
            final(self).policy == old(self).policy,
            final(self).block_size == old(self).block_size,
            final(self).next_anon_block_id == old(self).next_anon_block_id,
            final(self).free_anon_blocks@ == old(self).free_anon_blocks@,
            final(self).anon_start == old(self).anon_start,
            final(self).pending_writes@ == old(self).pending_writes@,
            final(self).pending_request == old(self).pending_request,
    {
        let removed = self.page_table.remove(&block_id);
        match removed {
            Some(f) => {
                self.frames[f].block_id = None;
                self.frames[f].dirty = false;
            },
            None => {},
        }
        proof {
            assert(self.cached() =~= old(self).cached().remove(block_id));
        }
    }

    /// Where the next fresh scratch range starts, once known.
    pub open spec fn anon_base(&self) -> Option<u64> {
        match self.next_anon() {
            Some(n) => Some(n),
            None => self.anon_start_known(),
        }
    }

    /// Where the next fresh range starts: `None`, after asking the disk for
    /// the scratch region, when neither is known.
    fn fresh_base(&mut self) -> (r: Option<u64>)
        requires
            old(self).wf(),
        ensures
            final(self).wf(),
            r == old(self).anon_base(),
            final(self).cached() == old(self).cached(),
            final(self).frames@ == old(self).frames@,
            final(self).page_table@ == old(self).page_table@,
            final(self).policy == old(self).policy,
            final(self).block_size == old(self).block_size,
            final(self).next_anon_block_id == old(self).next_anon_block_id,
            final(self).free_anon_blocks@ == old(self).free_anon_blocks@,
            final(self).anon_start == old(self).anon_start,
            final(self).pending_writes@ == old(self).pending_writes@,
            r is None ==> final(self).pending_request == Some(DiskRequest::AnonStartBlock),
            r is Some ==> final(self).pending_request == old(self).pending_request,
    {
        match self.next_anon_block_id {
            Some(n) => Some(n),
            None => match self.anon_start {
                Some(a) => Some(a),
                None => {
                    self.pending_request = Some(DiskRequest::AnonStartBlock);
                    None
                },
            },
        }
    }

    /// Allocates `num_blocks` consecutive scratch blocks and returns the
    /// first.  A single block comes from the free list when it holds one
    /// (the most recently freed); otherwise the range is fresh, taken from
    /// where the last fresh range ended.  `None` while the start of the
    /// scratch region is unknown (the disk is asked).
    pub fn allocate_anon_blocks(&mut self, num_blocks: u64) -> (r: Option<u64>)
        requires
            old(self).wf(),
        ensures
            final(self).wf(),
            final(self).cached() == old(self).cached(),
            final(self).spec_num_frames() == old(self).spec_num_frames(),
            final(self).spec_block_size() == old(self).spec_block_size(),
            final(self).spec_policy() == old(self).spec_policy(),
            final(self).writes() == old(self).writes(),
            final(self).anon_start_known() == old(self).anon_start_known(),
            if num_blocks == 1 && old(self).free_list().len() > 0 {
                &&& r == Some(old(self).free_list().last())
                &&& final(self).free_list() == old(self).free_list().drop_last()
                &&& final(self).next_anon() == old(self).next_anon()
            } else {
                &&& final(self).free_list() == old(self).free_list()
                &&& match old(self).anon_base() {
                    None => r is None && final(self).request() == Some(DiskRequest::AnonStartBlock)
                        && final(self).next_anon() == old(self).next_anon(),
                    Some(b) => r == Some(b) && final(self).next_anon() == Some(
                        b.wrapping_add(num_blocks),
                    ),
                }
            },
    {
        if num_blocks == 1 {
            if self.free_anon_blocks.len() > 0 {
                let recycled = self.free_anon_blocks.pop().unwrap();
                return Some(recycled);
            }
        }
        match self.fresh_base() {
            None => None,
            Some(start) => {
                // Block IDs stay far below 2^64; the sum wraps as a release
                // build's does.
                self.next_anon_block_id = Some(start.wrapping_add(num_blocks));
                Some(start)
            },
        }
    }

    /// Drops each of `ids` from the cache.
    fn invalidate_blocks(&mut self, ids: &Vec<u64>)
        requires
            old(self).wf(),
        ensures
            final(self).wf(),
            final(self).cached() == old(self).cached().remove_keys(ids@.to_set()),
            final(self).frames@.len() == old(self).frames@.len(),
            final(self).policy == old(self).policy,
            final(self).block_size == old(self).block_size,
            final(self).next_anon_block_id == old(self).next_anon_block_id,
            final(self).free_anon_blocks@ == old(self).free_anon_blocks@,
            final(self).anon_start == old(self).anon_start,
            final(self).pending_writes@ == old(self).pending_writes@,
            final(self).pending_request == old(self).pending_request,
    {
        let mut i: usize = 0;
        while i < ids.len()
            invariant
                i <= ids.len(),
                self.wf(),
                self.cached() == old(self).cached().remove_keys(ids@.subrange(0, i as int).to_set()),
                self.frames@.len() == old(self).frames@.len(),
                self.policy == old(self).policy,
                self.block_size == old(self).block_size,
                self.next_anon_block_id == old(self).next_anon_block_id,
                self.free_anon_blocks@ == old(self).free_anon_blocks@,
                self.anon_start == old(self).anon_start,
                self.pending_writes@ == old(self).pending_writes@,
                self.pending_request == old(self).pending_request,
            decreases ids.len() - i,
        {
            self.invalidate_cached_block(ids[i]);
            proof {
                assert(ids@.subrange(0, i + 1).to_set() =~= ids@.subrange(0, i as int).to_set().insert(ids@[i as int])) by {
                    assert(ids@.subrange(0, i + 1) =~= ids@.subrange(0, i as int).push(ids@[i as int]));
                    ids@.subrange(0, i as int).lemma_push_to_set_commute(ids@[i as int]);
                }
                assert(self.cached() =~= old(self).cached().remove_keys(ids@.subrange(0, i + 1).to_set()));
            }
            i += 1;
        }
        assert(ids@.subrange(0, i as int) =~= ids@);
    }

    /// Queues a write of `raw` (`num_blocks` whole blocks) to a fresh
    /// scratch range and returns the range's block IDs.  `None` while the
    /// start of the scratch region is unknown (the disk is asked).
    pub fn write_raw_run_blocks(&mut self, raw: &[u8], num_blocks: usize) -> (r: Option<Vec<u64>>)
        requires
            old(self).wf(),
            num_blocks == 0 || raw@.len() == num_blocks * old(self).spec_block_size(),
        ensures
            final(self).wf(),
            final(self).spec_num_frames() == old(self).spec_num_frames(),
            final(self).spec_block_size() == old(self).spec_block_size(),
            final(self).spec_policy() == old(self).spec_policy(),
            final(self).free_list() == old(self).free_list(),
            final(self).anon_start_known() == old(self).anon_start_known(),
            num_blocks == 0 ==> (r matches Some(ids) && ids@.len() == 0) && final(self).cached()
                == old(self).cached() && final(self).writes() == old(self).writes()
                && final(self).next_anon() == old(self).next_anon(),
            num_blocks > 0 ==> match old(self).anon_base() {
                None => r is None && final(self).request() == Some(DiskRequest::AnonStartBlock)
                    && final(self).cached() == old(self).cached() && final(self).writes()
                    == old(self).writes() && final(self).next_anon() == old(self).next_anon(),
                Some(b) => r matches Some(ids) && ids@ == Seq::new(
                    num_blocks as nat,
                    |k: int| b.wrapping_add(k as u64),
                ) && final(self).next_anon() == Some(b.wrapping_add(num_blocks as u64))
                    && final(self).writes() == old(self).writes().push((b, raw@))
                    && final(self).cached() == old(self).cached().remove_keys(ids@.to_set()),
            },
    {
        if num_blocks == 0 {
            return Some(Vec::new());
        }
        let start = match self.fresh_base() {
            None => return None,
            Some(s) => s,
        };
        self.next_anon_block_id = Some(start.wrapping_add(num_blocks as u64));
        let mut data: Vec<u8> = Vec::new();
        let mut j: usize = 0;
        while j < raw.len()
            invariant
                j <= raw.len(),
                data@ == raw@.subrange(0, j as int),
            decreases raw.len() - j,
        {
            data.push(raw[j]);
            j += 1;
            assert(data@ =~= raw@.subrange(0, j as int));
        }
        assert(raw@.subrange(0, j as int) =~= raw@);
        let ghost w0 = self.writes();
        self.pending_writes.push((start, data));
        assert(self.writes() =~= w0.push((start, raw@)));
        let mut ids: Vec<u64> = Vec::new();
        let mut k: usize = 0;
        while k < num_blocks
            invariant
                k <= num_blocks,
                ids@ == Seq::new(k as nat, |q: int| start.wrapping_add(q as u64)),
            decreases num_blocks - k,
        {
            ids.push(start.wrapping_add(k as u64));
            k += 1;
            assert(ids@ =~= Seq::new(k as nat, |q: int| start.wrapping_add(q as u64)));
        }
        self.invalidate_blocks(&ids);
        Some(ids)
    }

    /// Queues writes of whole `blocks` to scratch space and returns their
    /// block IDs, in order.  Recycled IDs are used first, the most recently
    /// freed for the first block, each written on its own; the blocks left
    /// over go, in one write, to a fresh contiguous range.  The IDs are
    /// dropped from the cache.  `None`, with nothing changed, while the
    /// remainder needs the start of the scratch region and it is unknown
    /// (the disk is asked).
    pub fn write_run_blocks(&mut self, blocks: &[Vec<u8>]) -> (r: Option<Vec<u64>>)
        requires
            old(self).wf(),
            forall|i: int| 0 <= i < blocks@.len() ==> (#[trigger] blocks@[i])@.len() == old(self).spec_block_size(),
        ensures
            final(self).wf(),
            final(self).spec_num_frames() == old(self).spec_num_frames(),
            final(self).spec_block_size() == old(self).spec_block_size(),
            final(self).spec_policy() == old(self).spec_policy(),
            final(self).anon_start_known() == old(self).anon_start_known(),
            ({
                let free = old(self).free_list();
                let m = blocks@.len();
                let t = reused_count(free.len(), m);
                if t < m && old(self).anon_base() is None {
                    &&& r is None
                    &&& final(self).request() == Some(DiskRequest::AnonStartBlock)
                    &&& final(self).writes() == old(self).writes()
                    &&& final(self).free_list() == free
                    &&& final(self).cached() == old(self).cached()
                    &&& final(self).next_anon() == old(self).next_anon()
                } else {
                    &&& r matches Some(ids) && ids@ == run_ids(free, m, t, old(self).anon_base())
                    &&& final(self).free_list() == free.subrange(0, free.len() - t)
                    &&& final(self).writes() == if t < m {
                        old(self).writes() + reuse_writes(free, blocks@, t)
                            + seq![(old(self).anon_base()->0, concat_blocks(blocks@.subrange(t as int, m as int)))]
                    } else {
                        old(self).writes() + reuse_writes(free, blocks@, t)
                    }
                    &&& final(self).next_anon() == if t < m {
                        Some(old(self).anon_base()->0.wrapping_add((m - t) as u64))
                    } else {
                        old(self).next_anon()
                    }
                    &&& final(self).cached() == old(self).cached().remove_keys(
                        run_ids(free, m, t, old(self).anon_base()).to_set())
                }
            }),
            ({
                let free = old(self).free_list();
                let m = blocks@.len();
                let t = reused_count(free.len(), m);
                let base = old(self).anon_base();
                (r matches Some(ids) && free.no_duplicates() && (t < m ==> base->0 + (m - t) <= u64::MAX
                    && forall|i: int| 0 <= i < free.len() ==> #[trigger] free[i] < base->0)) ==> r->0@.no_duplicates()
            }),
    {
        let m = blocks.len();
        let k = self.free_anon_blocks.len();
        let t = if k < m { k } else { m };
        let ghost free = old(self).free_list();
        let ghost base = old(self).anon_base();
        if t < m {
            match self.fresh_base() {
                None => return None,
                Some(_) => {},
            }
        }
        let mut ids: Vec<u64> = Vec::new();
        let mut i: usize = 0;
        while i < t
            invariant
                t <= m,
                m == blocks@.len(),
                k == free.len(),
                t == reused_count(k as nat, m as nat),
                i <= t,
                self.wf(),
                forall|q: int| 0 <= q < blocks@.len() ==> (#[trigger] blocks@[q])@.len() == old(self).spec_block_size(),
                self.free_anon_blocks@ == free.subrange(0, k - i),
                ids@ == Seq::new(i as nat, |q: int| free[k - 1 - q]),
                self.writes() == old(self).writes() + reuse_writes(free, blocks@, i as nat),
                self.cached() == old(self).cached().remove_keys(ids@.to_set()),
                self.anon_base() == base,
                self.frames@.len() == old(self).frames@.len(),
                self.policy == old(self).policy,
                self.block_size == old(self).block_size,
                self.anon_start == old(self).anon_start,
                self.next_anon_block_id == old(self).next_anon_block_id,
                t < m ==> base is Some,
            decreases t - i,
        {
            let id = self.free_anon_blocks.pop().unwrap();
            assert(id == free[k - 1 - i]);
            let ghost w0 = self.writes();
            let ghost ids0 = ids@;
            self.pending_writes.push((id, copy_bytes(&blocks[i])));
            assert(self.writes() =~= w0.push((id, blocks@[i as int]@)));
            self.invalidate_cached_block(id);
            ids.push(id);
            proof {
                assert(reuse_writes(free, blocks@, (i + 1) as nat) =~= reuse_writes(free, blocks@, i as nat).push(
                    (free[k - 1 - i], blocks@[i as int]@)));
                assert(self.writes() =~= old(self).writes() + reuse_writes(free, blocks@, (i + 1) as nat));
                ids0.lemma_push_to_set_commute(id);
                assert(self.cached() =~= old(self).cached().remove_keys(ids@.to_set()));
                assert(self.free_anon_blocks@ =~= free.subrange(0, k - (i + 1)));
                assert(ids@ =~= Seq::new((i + 1) as nat, |q: int| free[k - 1 - q]));
            }
            i += 1;
        }
        if t < m {
            let raw = concat_from(blocks, t, self.block_size);
            let ghost c0 = self.cached();
            let ghost w1 = self.writes();
            let ghost reused = ids@;
            let fresh = match self.write_raw_run_blocks(raw.as_slice(), m - t) {
                Some(f) => f,
                None => { assert(false); return None; },
            };
            let mut j: usize = 0;
            while j < fresh.len()
                invariant
                    j <= fresh.len(),
                    ids@ == reused + fresh@.subrange(0, j as int),
                decreases fresh.len() - j,
            {
                ids.push(fresh[j]);
                j += 1;
                assert(ids@ =~= reused + fresh@.subrange(0, j as int));
            }
            proof {
                assert(fresh@.subrange(0, j as int) =~= fresh@);
                assert(ids@ =~= run_ids(free, m as nat, t as nat, base));
                assert(w1 + seq![(base->0, concat_blocks(blocks@.subrange(t as int, m as int)))] =~= w1.push(
                    (base->0, concat_blocks(blocks@.subrange(t as int, m as int)))));
                assert(ids@.to_set() =~= reused.to_set().union(fresh@.to_set())) by {
                    assert forall|x: u64| ids@.to_set().contains(x) <==> reused.to_set().union(fresh@.to_set()).contains(x) by {
                        if ids@.contains(x) {
                            let q = choose|q: int| 0 <= q < ids@.len() && ids@[q] == x;
                            if q < reused.len() {
                                assert(reused[q] == x);
                            } else {
                                assert(fresh@[q - reused.len()] == x);
                            }
                        }
                        if reused.contains(x) {
                            let q = choose|q: int| 0 <= q < reused.len() && reused[q] == x;
                            assert(ids@[q] == x);
                        }
                        if fresh@.contains(x) {
                            let q = choose|q: int| 0 <= q < fresh@.len() && fresh@[q] == x;
                            assert(ids@[reused.len() + q] == x);
                        }
                    }
                }
                assert(self.cached() =~= old(self).cached().remove_keys(ids@.to_set()));
            }
        } else {
            proof {
                assert(ids@ =~= run_ids(free, m as nat, t as nat, base));
            }
        }
        proof {
            assert(t < m ==> base is Some);
            if free.no_duplicates() && (t < m ==> base->0 + (m - t) <= u64::MAX
                && forall|i: int| 0 <= i < free.len() ==> #[trigger] free[i] < base->0) {
                lemma_run_ids_distinct(free, m as nat, t as nat, base);
            }
        }
        Some(ids)
    }

    /// Returns the blocks of a run to the free list (in run order, so the
    /// last is reused first) and drops them from the cache, so that no
    /// stale copy of a recycled block is ever read.
    pub fn free_run(&mut self, run: &Run)
        requires
            old(self).wf(),
        ensures
            final(self).wf(),
            final(self).free_list() == old(self).free_list() + run.block_ids@,
            final(self).cached() == old(self).cached().remove_keys(run.block_ids@.to_set()),
            final(self).spec_num_frames() == old(self).spec_num_frames(),
            final(self).spec_block_size() == old(self).spec_block_size(),
            final(self).spec_policy() == old(self).spec_policy(),
            final(self).writes() == old(self).writes(),
            final(self).next_anon() == old(self).next_anon(),
            final(self).anon_start_known() == old(self).anon_start_known(),
            final(self).request() == old(self).request(),
    {
        let mut i: usize = 0;
        while i < run.block_ids.len()
            invariant
                i <= run.block_ids.len(),
                self.wf(),
                self.free_anon_blocks@ == old(self).free_anon_blocks@ + run.block_ids@.subrange(0, i as int),
                self.cached() == old(self).cached().remove_keys(run.block_ids@.subrange(0, i as int).to_set()),
                self.frames@.len() == old(self).frames@.len(),
                self.policy == old(self).policy,
                self.block_size == old(self).block_size,
                self.next_anon_block_id == old(self).next_anon_block_id,
                self.anon_start == old(self).anon_start,
                self.pending_writes@ == old(self).pending_writes@,
                self.pending_request == old(self).pending_request,
            decreases run.block_ids.len() - i,
        {
            let block_id = run.block_ids[i];
            self.free_anon_blocks.push(block_id);
            self.invalidate_cached_block(block_id);
            proof {
                let s0 = run.block_ids@.subrange(0, i as int);
                assert(run.block_ids@.subrange(0, i + 1) =~= s0.push(block_id));
                s0.lemma_push_to_set_commute(block_id);
                assert(self.cached() =~= old(self).cached().remove_keys(run.block_ids@.subrange(0, i + 1).to_set()));
                assert(self.free_anon_blocks@ =~= old(self).free_anon_blocks@ + run.block_ids@.subrange(0, i + 1));
            }
            i += 1;
        }
        assert(run.block_ids@.subrange(0, i as int) =~= run.block_ids@);
    }

    /// Queues a write of whole `blocks` to consecutive blocks from
    /// `start_block_id`, bypassing the cache, and drops those blocks from
    /// the cache.
    pub fn write_blocks(&mut self, start_block_id: u64, blocks: &[Vec<u8>])
        requires
            old(self).wf(),
            forall|i: int| 0 <= i < blocks@.len() ==> (#[trigger] blocks@[i])@.len() == old(self).spec_block_size(),
        ensures
            final(self).wf(),
            blocks@.len() == 0 ==> final(self).writes() == old(self).writes(),
            blocks@.len() > 0 ==> final(self).writes() == old(self).writes().push((start_block_id, concat_blocks(blocks@))),
            final(self).cached() == old(self).cached().remove_keys(Seq::new(blocks@.len(), |k: int| start_block_id.wrapping_add(k as u64)).to_set()),
            final(self).spec_num_frames() == old(self).spec_num_frames(),
            final(self).spec_block_size() == old(self).spec_block_size(),
            final(self).spec_policy() == old(self).spec_policy(),
            final(self).free_list() == old(self).free_list(),
            final(self).next_anon() == old(self).next_anon(),
            final(self).anon_start_known() == old(self).anon_start_known(),
    {
        if blocks.len() == 0 {
            assert(Seq::new(blocks@.len(), |k: int| start_block_id.wrapping_add(k as u64)).to_set() =~= Set::<u64>::empty());
            assert(self.cached().remove_keys(Set::<u64>::empty()) =~= self.cached());
            return;
        }
        let mut raw: Vec<u8> = Vec::new();
        let mut i: usize = 0;
        while i < blocks.len()
            invariant
                i <= blocks.len(),
                raw@ == concat_blocks(blocks@.subrange(0, i as int)),
            decreases blocks.len() - i,
        {
            let ghost before = raw@;
            let b = &blocks[i];
            let mut j: usize = 0;
            while j < b.len()
                invariant
                    j <= b.len(),
                    raw@ == before + b@.subrange(0, j as int),
                decreases b.len() - j,
            {
                raw.push(b[j]);
                j += 1;
                assert(raw@ =~= before + b@.subrange(0, j as int));
            }
            assert(b@.subrange(0, j as int) =~= b@);
            assert(blocks@.subrange(0, i + 1).drop_last() =~= blocks@.subrange(0, i as int));
            i += 1;
        }
        assert(blocks@.subrange(0, i as int) =~= blocks@);
        let ghost w0 = self.writes();
        self.pending_writes.push((start_block_id, raw));
        assert(self.writes() =~= w0.push((start_block_id, concat_blocks(blocks@))));
        let mut ids: Vec<u64> = Vec::new();
        let mut k: usize = 0;
        while k < blocks.len()
            invariant
                k <= blocks.len(),
                ids@ == Seq::new(k as nat, |q: int| start_block_id.wrapping_add(q as u64)),
            decreases blocks.len() - k,
        {
            ids.push(start_block_id.wrapping_add(k as u64));
            k += 1;
            assert(ids@ =~= Seq::new(k as nat, |q: int| start_block_id.wrapping_add(q as u64)));
        }
        self.invalidate_blocks(&ids);
    }

    /// Queues a write of whole blocks' bytes to consecutive blocks from
    /// `block_id`, bypassing the cache (a cached copy is left as it is).
    pub fn write_block(&mut self, block_id: u64, data: &[u8])
        requires
            old(self).wf(),
            data@.len() % (old(self).spec_block_size() as nat) == 0,
        ensures
            final(self).wf(),
            forall|b: u64| #[trigger] old(self).cached().contains_key(b) ==> final(self).pins(b) == old(self).pins(b)
                && final(self).is_dirty(b) == old(self).is_dirty(b),
            final(self).recency() == old(self).recency(),
            final(self).hand() == old(self).hand(),
            final(self).writes() == old(self).writes().push((block_id, data@)),
            final(self).cached() == old(self).cached(),
            final(self).spec_num_frames() == old(self).spec_num_frames(),
            final(self).spec_block_size() == old(self).spec_block_size(),
            final(self).spec_policy() == old(self).spec_policy(),
            final(self).free_list() == old(self).free_list(),
            final(self).next_anon() == old(self).next_anon(),
            final(self).anon_start_known() == old(self).anon_start_known(),
    {
        let mut bytes: Vec<u8> = Vec::with_capacity(data.len());
        let mut i: usize = 0;
        while i < data.len()
            invariant
                i <= data@.len(),
                bytes@ == data@.subrange(0, i as int),
            decreases data.len() - i,
        {
            bytes.push(data[i]);
            i += 1;
            assert(bytes@ =~= data@.subrange(0, i as int));
        }
        assert(data@.subrange(0, i as int) =~= data@);
        let ghost w0 = self.writes();
        self.pending_writes.push((block_id, bytes));
        assert(self.writes() =~= w0.push((block_id, data@)));
    }

    /// A frame can be had for a block not in the cache: one is empty, or
    /// the policy has an unpinned frame to give up (CLOCK: any frame; LRU
    /// and MRU: a frame on the recency list).
    pub closed spec fn has_room(&self) -> bool {
        ||| exists|f: int| 0 <= f < self.frames@.len() && (#[trigger] self.frames@[f]).block_id is None
        ||| (self.policy == EvictionPolicy::CLOCK && exists|f: int|
            0 <= f < self.frames@.len() && (#[trigger] self.frames@[f]).pin_count == 0)
        ||| (self.policy != EvictionPolicy::CLOCK && exists|i: int|
            0 <= i < self.lru_list@.len() && self.frames@[#[trigger] self.lru_list@[i] as int].pin_count
                == 0)
    }

    /// Whether `fetch_block(block_id)` may be called: the block is cached,
    /// or the pool has room for it (see `has_room`).
    pub fn can_fetch(&self, block_id: u64) -> (r: bool)
        requires
            self.wf(),
        ensures
            r == (self.cached().contains_key(block_id) || self.has_room()),
    {
        if self.page_table.contains_key(&block_id) {
            return true;
        }
        let mut f: usize = 0;
        while f < self.frames.len()
            invariant
                f <= self.frames@.len(),
                forall|g: int| 0 <= g < f ==> (#[trigger] self.frames@[g]).block_id is Some,
            decreases self.frames@.len() - f,
        {
            if self.frames[f].block_id.is_none() {
                return true;
            }
            f += 1;
        }
        if self.policy == EvictionPolicy::CLOCK {
            let mut g: usize = 0;
            while g < self.frames.len()
                invariant
                    g <= self.frames@.len(),
                    self.policy == EvictionPolicy::CLOCK,
                    forall|h: int| 0 <= h < g ==> (#[trigger] self.frames@[h]).pin_count != 0,
                    forall|h: int| 0 <= h < self.frames@.len() ==> (#[trigger] self.frames@[h]).block_id is Some,
                decreases self.frames@.len() - g,
            {
                if self.frames[g].pin_count == 0 {
                    return true;
                }
                g += 1;
            }
            false
        } else {
            let mut i: usize = 0;
            while i < self.lru_list.len()
                invariant
                    i <= self.lru_list@.len(),
                    self.wf(),
                    self.policy != EvictionPolicy::CLOCK,
                    forall|k: int| 0 <= k < i ==> self.frames@[#[trigger] self.lru_list@[k] as int].pin_count != 0,
                    forall|h: int| 0 <= h < self.frames@.len() ==> (#[trigger] self.frames@[h]).block_id is Some,
                decreases self.lru_list@.len() - i,
            {
                let fi = self.lru_list[i];
                assert(fi == self.lru_list@[i as int]);
                if self.frames[fi].pin_count == 0 {
                    return true;
                }
                i += 1;
            }
            false
        }
    }

    /// A pool with at least one frame and nothing cached has room.
    pub proof fn lemma_empty_has_room(&self)
        requires
            self.wf(),
            self.spec_num_frames() > 0,
            self.cached() == Map::<u64, Seq<u8>>::empty(),
        ensures
            self.has_room(),
    {
        let f0 = self.frames@[0];
        if let Some(b) = f0.block_id {
            assert(self.cached().contains_key(b));
        }
    }

    /// The frame a miss would use: the first empty frame, else the one
    /// the policy gives up (see [`last_fresh_unpinned`], [`first_unpinned_from`]
    /// and [`clock_victim`]).
    pub open spec fn victim_frame(&self) -> int {
        let frames = self.frames_view();
        let ff = first_free(frames);
        if ff < frames.len() {
            ff
        } else {
            match self.spec_policy() {
                EvictionPolicy::LRU => self.recency()[last_fresh_unpinned(self.recency(), frames)] as int,
                EvictionPolicy::MRU => self.recency()[first_unpinned_from(self.recency(), frames, 0)] as int,
                EvictionPolicy::CLOCK => clock_victim(frames, self.hand() as int),
            }
        }
    }

    /// The block a miss would evict (`None` while a frame is empty).
    pub open spec fn eviction_victim(&self) -> Option<u64> {
        self.frames_view()[self.victim_frame()].block_id
    }

    /// The writes after evicting the block of frame `f`: its bytes are
    /// written back when it is dirty.
    pub open spec fn writes_after_evicting(&self, f: int) -> Seq<(u64, Seq<u8>)> {
        let fr = self.frames_view()[f];
        match fr.block_id {
            Some(b) => if fr.dirty {
                self.writes().push((b, fr.data@))
            } else {
                self.writes()
            },
            None => self.writes(),
        }
    }

    /// Frees a frame for a new block: an empty one if there is one (the
    /// first), else the one the policy gives up, writing its bytes back
    /// first when dirty.
    #[verifier::rlimit(40)]
    fn find_free_or_evict(&mut self) -> (r: usize)
        requires
            old(self).wf(),
            old(self).has_room(),
        ensures
            final(self).wf(),
            r as int == old(self).victim_frame(),
            old(self).frames@[r as int].block_id is Some ==> old(self).frames@[r as int].pin_count == 0,
            r < final(self).frames@.len(),
            final(self).frames@[r as int].block_id is None,
            final(self).frames@.len() == old(self).frames@.len(),
            final(self).cached() == match old(self).eviction_victim() {
                Some(b) => old(self).cached().remove(b),
                None => old(self).cached(),
            },
            final(self).writes() == old(self).writes_after_evicting(r as int),
            forall|b: u64| #[trigger] final(self).page_table@.contains_key(b) ==> old(self).page_table@.contains_key(b)
                && final(self).page_table@[b] == old(self).page_table@[b],
            forall|f: int| 0 <= f < final(self).frames@.len() ==> (#[trigger] final(self).frames@[f]).pin_count
                == old(self).frames@[f].pin_count && final(self).frames@[f].dirty == old(self).frames@[f].dirty,
            final(self).policy == old(self).policy,
            final(self).block_size == old(self).block_size,
            final(self).next_anon_block_id == old(self).next_anon_block_id,
            final(self).free_anon_blocks@ == old(self).free_anon_blocks@,
            final(self).anon_start == old(self).anon_start,
            final(self).pending_request == old(self).pending_request,
            old(self).eviction_victim() is None ==> final(self).lru_list@ == old(self).lru_list@
                && final(self).clock_hand == old(self).clock_hand,
    {
        let n = self.frames.len();
        match first_free_frame(&self.frames) {
            Some(i) => {
                proof {
                    assert(self.cached() =~= old(self).cached());
                }
                return i;
            },
            None => {},
        }
        assert(forall|f: int| 0 <= f < n ==> (#[trigger] self.frames@[f]).block_id is Some);
        proof {
            lemma_no_free(self.frames@, 0);
        }
        let ghost orig = self.lru_list@;
        let ghost len = orig.len();
        let mut frame_idx_to_evict: usize = 0;
        match self.policy {
            EvictionPolicy::LRU => {
                let ghost mut rem: int = len as int;
                let ghost mut moved: Seq<usize> = Seq::empty();
                proof {
                    assert(orig.subrange(0, len as int) =~= orig);
                    assert(self.lru_list@ =~= moved + orig.subrange(0, rem));
                    lemma_fresh_unpinned_exists(orig, self.frames@);
                }
                loop
                    invariant_except_break
                        0 < rem <= len,
                        self.lru_list@ == moved + orig.subrange(0, rem),
                        forall|j: int| 0 <= j < moved.len() ==> !orig.subrange(0, rem).contains(#[trigger] moved[j]),
                        last_fresh_unpinned(orig, self.frames@) == last_fresh_unpinned(orig.subrange(0, rem), self.frames@),
                        last_fresh_unpinned(orig.subrange(0, rem), self.frames@) >= 0,
                    invariant
                        self.wf(),
                        n == self.frames@.len(),
                        self.frames@ == old(self).frames@,
                        self.page_table@ == old(self).page_table@,
                        self.policy == old(self).policy,
                        self.clock_hand == old(self).clock_hand,
                        self.block_size == old(self).block_size,
                        self.next_anon_block_id == old(self).next_anon_block_id,
                        self.free_anon_blocks@ == old(self).free_anon_blocks@,
                        self.anon_start == old(self).anon_start,
                        self.pending_request == old(self).pending_request,
                        self.pending_writes@ == old(self).pending_writes@,
                        orig == old(self).lru_list@,
                        len == orig.len(),
                        forall|f: int| 0 <= f < n ==> (#[trigger] self.frames@[f]).block_id is Some,
                        forall|i: int| 0 <= i < orig.len() ==> #[trigger] orig[i] < n,
                    ensures
                        self.wf(),
                        n == self.frames@.len(),
                        self.frames@ == old(self).frames@,
                        self.page_table@ == old(self).page_table@,
                        self.policy == old(self).policy,
                        self.clock_hand == old(self).clock_hand,
                        self.block_size == old(self).block_size,
                        self.next_anon_block_id == old(self).next_anon_block_id,
                        self.free_anon_blocks@ == old(self).free_anon_blocks@,
                        self.anon_start == old(self).anon_start,
                        self.pending_request == old(self).pending_request,
                        self.pending_writes@ == old(self).pending_writes@,
                        forall|f: int| 0 <= f < n ==> (#[trigger] self.frames@[f]).block_id is Some,
                        frame_idx_to_evict < n,
                        self.frames@[frame_idx_to_evict as int].pin_count == 0,
                        frame_idx_to_evict as int == orig[last_fresh_unpinned(orig, self.frames@)] as int,
                    decreases rem,
                {
                    let ghost before = self.lru_list@;
                    let ghost pre = orig.subrange(0, rem);
                    proof {
                        assert(before.last() == orig[rem - 1]);
                    }
                    let fi = self.lru_list.pop_back().unwrap();
                    proof {
                        assert(self.lru_list@ =~= moved + orig.subrange(0, rem - 1));
                        assert(pre.drop_last() =~= orig.subrange(0, rem - 1));
                        assert(pre.last() == fi);
                    }
                    let stale = deque_contains(&self.lru_list, fi);
                    proof {
                        if stale {
                            let q = choose|q: int| 0 <= q < self.lru_list@.len() && self.lru_list@[q] == fi;
                            if q < moved.len() {
                                assert(moved[q] == fi);
                                assert(pre[rem - 1] == fi);
                                assert(pre.contains(fi));
                                assert(false);
                            } else {
                                assert(orig.subrange(0, rem - 1)[q - moved.len()] == fi);
                            }
                            assert(pre.drop_last().contains(fi));
                        } else {
                            if pre.drop_last().contains(fi) {
                                let q = choose|q: int| 0 <= q < pre.drop_last().len() && pre.drop_last()[q] == fi;
                                assert(self.lru_list@[moved.len() + q] == fi);
                            }
                            assert(!pre.drop_last().contains(fi));
                        }
                    }
                    if !stale && self.frames[fi].pin_count == 0 {
                        frame_idx_to_evict = fi;
                        proof {
                            assert(last_fresh_unpinned(pre, self.frames@) == rem - 1);
                        }
                        break;
                    }
                    if !stale {
                        self.lru_list.push_front(fi);
                        proof {
                            assert(self.lru_list@ =~= seq![fi] + moved + orig.subrange(0, rem - 1));
                            moved = seq![fi] + moved;
                            assert forall|j: int| 0 <= j < moved.len() implies !orig.subrange(0, rem - 1).contains(#[trigger] moved[j]) by {
                                if j > 0 {
                                    let x = moved[j];
                                    assert(x == moved.subrange(1, moved.len() as int)[j - 1]);
                                    if orig.subrange(0, rem - 1).contains(x) {
                                        let q = choose|q: int| 0 <= q < rem - 1 && #[trigger] orig.subrange(0, rem - 1)[q] == x;
                                        assert(pre[q] == x);
                                    }
                                }
                            }
                        }
                    } else {
                        proof {
                            assert forall|j: int| 0 <= j < moved.len() implies !orig.subrange(0, rem - 1).contains(#[trigger] moved[j]) by {
                                let x = moved[j];
                                if orig.subrange(0, rem - 1).contains(x) {
                                    let q = choose|q: int| 0 <= q < rem - 1 && #[trigger] orig.subrange(0, rem - 1)[q] == x;
                                    assert(pre[q] == x);
                                }
                            }
                        }
                    }
                    proof {
                        assert(last_fresh_unpinned(pre, self.frames@) == last_fresh_unpinned(pre.drop_last(), self.frames@));
                        rem = rem - 1;
                        assert(rem > 0) by {
                            if rem == 0 {
                                assert(orig.subrange(0, 0).len() == 0);
                            }
                        }
                    }
                }
            },
            EvictionPolicy::MRU => {
                let ghost mut t: int = choose|i: int|
                    0 <= i < self.lru_list@.len() && self.frames@[#[trigger] self.lru_list@[i] as int].pin_count == 0;
                let ghost mut k: int = 0;
                proof {
                    assert(orig.subrange(0, len as int) =~= orig);
                }
                loop
                    invariant_except_break
                        0 <= t < self.lru_list@.len(),
                        self.frames@[self.lru_list@[t] as int].pin_count == 0,
                        0 <= k < len,
                        t < len - k,
                        self.lru_list@.len() == len,
                        self.lru_list@.subrange(0, len - k) == orig.subrange(k, len as int),
                        first_unpinned_from(orig, self.frames@, 0) == first_unpinned_from(orig, self.frames@, k),
                    invariant
                        self.wf(),
                        n == self.frames@.len(),
                        self.frames@ == old(self).frames@,
                        self.page_table@ == old(self).page_table@,
                        self.policy == old(self).policy,
                        self.clock_hand == old(self).clock_hand,
                        self.block_size == old(self).block_size,
                        self.next_anon_block_id == old(self).next_anon_block_id,
                        self.free_anon_blocks@ == old(self).free_anon_blocks@,
                        self.anon_start == old(self).anon_start,
                        self.pending_request == old(self).pending_request,
                        self.pending_writes@ == old(self).pending_writes@,
                        orig == old(self).lru_list@,
                        len == orig.len(),
                        forall|f: int| 0 <= f < n ==> (#[trigger] self.frames@[f]).block_id is Some,
                    ensures
                        self.wf(),
                        n == self.frames@.len(),
                        self.frames@ == old(self).frames@,
                        self.page_table@ == old(self).page_table@,
                        self.policy == old(self).policy,
                        self.clock_hand == old(self).clock_hand,
                        self.block_size == old(self).block_size,
                        self.next_anon_block_id == old(self).next_anon_block_id,
                        self.free_anon_blocks@ == old(self).free_anon_blocks@,
                        self.anon_start == old(self).anon_start,
                        self.pending_request == old(self).pending_request,
                        self.pending_writes@ == old(self).pending_writes@,
                        forall|f: int| 0 <= f < n ==> (#[trigger] self.frames@[f]).block_id is Some,
                        frame_idx_to_evict < n,
                        self.frames@[frame_idx_to_evict as int].pin_count == 0,
                        frame_idx_to_evict as int == orig[first_unpinned_from(orig, self.frames@, 0)] as int,
                    decreases t,
                {
                    let ghost before = self.lru_list@;
                    let fi = self.lru_list.pop_front().unwrap();
                    assert(fi == before[0]);
                    proof {
                        let sa = before.subrange(0, len - k);
                        let sb = orig.subrange(k, len as int);
                        assert(sa == sb);
                        assert(sa[0] == before[0]);
                        assert(sb[0] == orig[k]);
                    }
                    let stale = match self.frames[fi].block_id {
                        Some(blk) => match self.page_table.get(&blk) {
                            Some(g) => *g != fi,
                            None => true,
                        },
                        None => false,
                    };
                    if stale {
                        assert(false);
                        continue;
                    }
                    if self.frames[fi].pin_count == 0 {
                        frame_idx_to_evict = fi;
                        break;
                    }
                    self.lru_list.push_back(fi);
                    proof {
                        assert(before.subrange(0, len - k) == orig.subrange(k, len as int));
                        assert forall|i: int| 0 <= i < len - k - 1 implies #[trigger] self.lru_list@.subrange(0, len - k - 1)[i] == orig.subrange(k + 1, len as int)[i] by {
                            assert(self.lru_list@[i] == before[i + 1]);
                            assert(before.subrange(0, len - k)[i + 1] == before[i + 1]);
                            assert(orig.subrange(k, len as int)[i + 1] == orig[k + 1 + i]);
                        }
                        assert(self.lru_list@.subrange(0, len - k - 1) =~= orig.subrange(k + 1, len as int));
                        assert(t != 0);
                        assert(self.lru_list@[t - 1] == before[t]);
                        t = t - 1;
                        k = k + 1;
                    }
                }
            },
            EvictionPolicy::CLOCK => {
                let ghost h0 = self.clock_hand as int;
                let ghost ofr = self.frames@;
                let ghost mut d: int = 0;
                let ghost mut pass2: bool = false;
                proof {
                    let f = choose|f: int| 0 <= f < n && (#[trigger] self.frames@[f]).pin_count == 0;
                    let e = if f >= h0 { f - h0 } else { f + n - h0 };
                    assert(clock_at(h0, e, n as int) == f);
                    assert(ofr[clock_at(h0, e, ofr.len() as int)].pin_count == 0);
                    lemma_clock_unpinned_exists(ofr, h0, 0);
                }
                loop
                    invariant_except_break
                        0 <= d < n,
                        self.clock_hand as int == clock_at(h0, d, n as int),
                        !pass2 ==> clock_first_clear(ofr, h0, 0) == clock_first_clear(ofr, h0, d),
                        !pass2 ==> forall|e: int| 0 <= e < n ==> (#[trigger] self.frames@[clock_at(h0, e, n as int)]).referenced
                            == if e < d && ofr[clock_at(h0, e, n as int)].pin_count == 0 { false } else { ofr[clock_at(h0, e, n as int)].referenced },
                        pass2 ==> clock_first_clear(ofr, h0, 0) == n,
                        pass2 ==> forall|f: int| 0 <= f < n && (#[trigger] self.frames@[f]).pin_count == 0 ==> !self.frames@[f].referenced,
                        pass2 ==> clock_first_unpinned(ofr, h0, 0) == clock_first_unpinned(ofr, h0, d),
                        pass2 ==> clock_first_unpinned(ofr, h0, d) < n,
                    invariant
                        self.wf(),
                        n == self.frames@.len(),
                        n > 0,
                        0 <= h0 < n,
                        ofr == old(self).frames@,
                        h0 == old(self).clock_hand,
                        clock_first_unpinned(ofr, h0, 0) < n,
                        self.frames@.len() == old(self).frames@.len(),
                        forall|f: int| 0 <= f < n ==> (#[trigger] self.frames@[f]).block_id == old(self).frames@[f].block_id,
                        forall|f: int| 0 <= f < n ==> (#[trigger] self.frames@[f]).data == old(self).frames@[f].data,
                        forall|f: int| 0 <= f < n ==> (#[trigger] self.frames@[f]).pin_count == old(self).frames@[f].pin_count,
                        forall|f: int| 0 <= f < n ==> (#[trigger] self.frames@[f]).dirty == old(self).frames@[f].dirty,
                        self.page_table@ == old(self).page_table@,
                        self.lru_list@ == old(self).lru_list@,
                        self.policy == old(self).policy,
                        self.block_size == old(self).block_size,
                        self.next_anon_block_id == old(self).next_anon_block_id,
                        self.free_anon_blocks@ == old(self).free_anon_blocks@,
                        self.anon_start == old(self).anon_start,
                        self.pending_request == old(self).pending_request,
                        self.pending_writes@ == old(self).pending_writes@,
                        self.clock_hand < n,
                    ensures
                        self.wf(),
                        n == self.frames@.len(),
                        forall|f: int| 0 <= f < n ==> (#[trigger] self.frames@[f]).block_id == old(self).frames@[f].block_id,
                        forall|f: int| 0 <= f < n ==> (#[trigger] self.frames@[f]).data == old(self).frames@[f].data,
                        forall|f: int| 0 <= f < n ==> (#[trigger] self.frames@[f]).pin_count == old(self).frames@[f].pin_count,
                        forall|f: int| 0 <= f < n ==> (#[trigger] self.frames@[f]).dirty == old(self).frames@[f].dirty,
                        self.page_table@ == old(self).page_table@,
                        self.lru_list@ == old(self).lru_list@,
                        self.policy == old(self).policy,
                        self.block_size == old(self).block_size,
                        self.next_anon_block_id == old(self).next_anon_block_id,
                        self.free_anon_blocks@ == old(self).free_anon_blocks@,
                        self.anon_start == old(self).anon_start,
                        self.pending_request == old(self).pending_request,
                        self.pending_writes@ == old(self).pending_writes@,
                        frame_idx_to_evict < n,
                        frame_idx_to_evict as int == clock_victim(ofr, h0),
                        ofr[frame_idx_to_evict as int].pin_count == 0,
                    decreases (if pass2 { 0int } else { 1int }), n - d,
                {
                    let hand = self.clock_hand;
                    let mut is_evicted = false;
                    if self.frames[hand].pin_count == 0 {
                        if self.frames[hand].referenced {
                            self.frames[hand].referenced = false;
                        } else {
                            frame_idx_to_evict = hand;
                            is_evicted = true;
                        }
                    }
                    let next = if hand + 1 == n { 0 } else { hand + 1 };
                    self.clock_hand = next;
                    if is_evicted {
                        proof {
                            if !pass2 {
                                assert(ofr[hand as int].pin_count == 0 && !ofr[hand as int].referenced);
                                assert(clock_first_clear(ofr, h0, d) == d);
                            } else {
                                assert(clock_first_unpinned(ofr, h0, d) == d);
                            }
                        }
                        break;
                    }
                    proof {
                        if !pass2 {
                            assert(clock_first_clear(ofr, h0, d) == clock_first_clear(ofr, h0, d + 1));
                            if d + 1 == n {
                                pass2 = true;
                                d = 0;
                                assert(clock_first_clear(ofr, h0, n as int) == n);
                                assert forall|f: int| 0 <= f < n && (#[trigger] self.frames@[f]).pin_count == 0 implies !self.frames@[f].referenced by {
                                    let e = if f >= h0 { f - h0 } else { f + n - h0 };
                                    assert(clock_at(h0, e, n as int) == f);
                                }
                            } else {
                                d = d + 1;
                                assert forall|e: int| 0 <= e < n implies (#[trigger] self.frames@[clock_at(h0, e, n as int)]).referenced
                                    == if e < d && ofr[clock_at(h0, e, n as int)].pin_count == 0 { false } else { ofr[clock_at(h0, e, n as int)].referenced } by {
                                    if e != d - 1 {
                                        lemma_clock_at_distinct(h0, e, d - 1, n as int);
                                    }
                                }
                            }
                        } else {
                            assert(clock_first_unpinned(ofr, h0, d) == clock_first_unpinned(ofr, h0, d + 1));
                            d = d + 1;
                        }
                    }
                }
            },
        }
        let frame_idx = frame_idx_to_evict;
        let old_block_id = self.frames[frame_idx].block_id.unwrap();
        let ghost w0 = self.writes();
        if self.frames[frame_idx].dirty {
            let bytes = copy_bytes(&self.frames[frame_idx].data);
            self.pending_writes.push((old_block_id, bytes));
            assert(self.writes() =~= w0.push((old_block_id, self.frames@[frame_idx as int].data@)));
        }
        self.page_table.remove(&old_block_id);
        self.frames[frame_idx].block_id = None;
        proof {
            assert(self.cached() =~= old(self).cached().remove(old_block_id));
        }
        frame_idx
    }

    /// Reads one block through the cache.  On a hit the frame is pinned
    /// again and marked referenced; on a miss a frame is freed (see
    /// `has_room`) and the block, once the disk has answered, is loaded into
    /// it, pinned once.  Under LRU and MRU the frame goes to the front of
    /// the recency list (an older entry for it may stay behind).  `None`
    /// until the disk has answered a miss.
    pub fn fetch_block(&mut self, block_id: u64) -> (r: Option<Vec<u8>>)
        requires
            old(self).wf(),
            old(self).cached().contains_key(block_id) || old(self).has_room(),
        ensures
            final(self).wf(),
            final(self).spec_num_frames() == old(self).spec_num_frames(),
            final(self).spec_block_size() == old(self).spec_block_size(),
            final(self).spec_policy() == old(self).spec_policy(),
            final(self).free_list() == old(self).free_list(),
            final(self).next_anon() == old(self).next_anon(),
            old(self).cached().contains_key(block_id) ==> ((r matches Some(d) && d@ == old(self).cached()[block_id])
                && final(self).cached() == old(self).cached() && final(self).writes() == old(self).writes()),
            !old(self).cached().contains_key(block_id) ==> (r matches Some(d) ==> {
                &&& d@.len() == old(self).spec_block_size()
                &&& old(self).answered() == Some((block_id, 1u64, d@))
                &&& final(self).cached() == match old(self).eviction_victim() {
                    Some(v) => old(self).cached().remove(v),
                    None => old(self).cached(),
                }.insert(block_id, d@)
                &&& final(self).writes() == old(self).writes_after_evicting(old(self).victim_frame())
                &&& (old(self).eviction_victim() matches Some(v) ==> old(self).pins(v) == 0)
            }),
            (old(self).answered() matches Some((s, c, _)) && s == block_id && c == 1) ==> r is Some,
            old(self).cached().contains_key(block_id) ==> final(self).hand() == old(self).hand()
                && final(self).recency() == if old(self).spec_policy() == EvictionPolicy::CLOCK {
                    old(self).recency()
                } else {
                    seq![old(self).frame_of(block_id)] + old(self).recency()
                },
            (!old(self).cached().contains_key(block_id) && r is Some && old(self).eviction_victim() is None)
                ==> final(self).hand() == old(self).hand() && final(self).frame_of(block_id) == old(self).victim_frame()
                && final(self).recency() == if old(self).spec_policy() == EvictionPolicy::CLOCK {
                    old(self).recency()
                } else {
                    seq![old(self).victim_frame() as usize] + old(self).recency()
                },
            r is None ==> final(self).request() == Some(DiskRequest::ReadBlocks { start: block_id, count: 1 })
                && final(self).cached() == old(self).cached(),
            r is Some ==> final(self).pins(block_id) == if old(self).cached().contains_key(block_id) {
                if old(self).pins(block_id) == u32::MAX { 0 } else { (old(self).pins(block_id) + 1) as u32 }
            } else {
                1
            },
            r is Some ==> final(self).is_dirty(block_id) == (old(self).cached().contains_key(block_id)
                && old(self).is_dirty(block_id)),
            forall|b: u64| #[trigger] final(self).cached().contains_key(b) && b != block_id ==> {
                &&& old(self).cached().contains_key(b)
                &&& final(self).pins(b) == old(self).pins(b)
                &&& final(self).is_dirty(b) == old(self).is_dirty(b)
            },
    {
        let hit = match self.page_table.get(&block_id) {
            Some(f) => Some(*f),
            None => None,
        };
        match hit {
            Some(frame_idx) => {
                let pc = self.frames[frame_idx].pin_count;
                self.frames[frame_idx].pin_count = pc.wrapping_add(1);
                self.frames[frame_idx].referenced = true;
                if self.policy != EvictionPolicy::CLOCK {
                    self.lru_list.push_front(frame_idx);
                }
                let d = copy_bytes(&self.frames[frame_idx].data);
                proof {
                    assert(self.cached() =~= old(self).cached());
                    assert forall|b: u64| #[trigger] self.cached().contains_key(b) && b != block_id implies
                        self.page_table@[b] != frame_idx by {}
                }
                return Some(d);
            },
            None => {},
        }
        let data = match self.take_read(block_id, 1) {
            Some(d) => d,
            None => return None,
        };
        let ghost before_evict = *self;
        assert(before_evict.victim_frame() == old(self).victim_frame());
        assert(before_evict.writes() == old(self).writes());
        let frame_idx = self.find_free_or_evict();
        let ghost cached_mid = self.cached();
        let ghost mid = *self;
        assert(!cached_mid.contains_key(block_id));
        assert(!self.page_table@.contains_key(block_id));
        self.frames[frame_idx].data = data;
        self.frames[frame_idx].block_id = Some(block_id);
        self.frames[frame_idx].dirty = false;
        self.frames[frame_idx].pin_count = 1;
        self.frames[frame_idx].referenced = true;
        self.page_table.insert(block_id, frame_idx);
        if self.policy != EvictionPolicy::CLOCK {
            self.lru_list.push_front(frame_idx);
        }
        let d = copy_bytes(&self.frames[frame_idx].data);
        proof {
            assert(self.cached() =~= cached_mid.insert(block_id, d@));
            assert forall|b: u64| #[trigger] self.cached().contains_key(b) && b != block_id implies {
                &&& old(self).cached().contains_key(b)
                &&& self.pins(b) == old(self).pins(b)
                &&& self.is_dirty(b) == old(self).is_dirty(b)
            } by {
                assert(mid.page_table@.contains_key(b));
                let f = mid.page_table@[b];
                assert(mid.frames@[f as int].block_id == Some(b));
                assert(f != frame_idx);
                assert(old(self).page_table@[b] == f);
            }
        }
        Some(d)
    }

    /// Drops one pin of a cached block (never below zero).
    pub fn unpin(&mut self, block_id: u64)
        requires
            old(self).wf(),
        ensures
            final(self).wf(),
            final(self).cached() == old(self).cached(),
            final(self).spec_num_frames() == old(self).spec_num_frames(),
            final(self).spec_block_size() == old(self).spec_block_size(),
            final(self).spec_policy() == old(self).spec_policy(),
            final(self).writes() == old(self).writes(),
            final(self).free_list() == old(self).free_list(),
            final(self).next_anon() == old(self).next_anon(),
            forall|b: u64| #[trigger] old(self).cached().contains_key(b) ==> {
                &&& final(self).is_dirty(b) == old(self).is_dirty(b)
                &&& final(self).pins(b) == if b == block_id && old(self).pins(b) > 0 {
                    (old(self).pins(b) - 1) as u32
                } else {
                    old(self).pins(b)
                }
            },
    {
        let hit = match self.page_table.get(&block_id) {
            Some(f) => Some(*f),
            None => None,
        };
        if let Some(frame_idx) = hit {
            if self.frames[frame_idx].pin_count > 0 {
                self.frames[frame_idx].pin_count = self.frames[frame_idx].pin_count - 1;
            }
        }
        proof {
            assert(self.cached() =~= old(self).cached());
        }
    }

    /// Marks a cached block dirty, so that it is written back when evicted.
    pub fn mark_dirty(&mut self, block_id: u64)
        requires
            old(self).wf(),
        ensures
            final(self).wf(),
            final(self).cached() == old(self).cached(),
            final(self).spec_num_frames() == old(self).spec_num_frames(),
            final(self).spec_block_size() == old(self).spec_block_size(),
            final(self).spec_policy() == old(self).spec_policy(),
            final(self).writes() == old(self).writes(),
            final(self).free_list() == old(self).free_list(),
            final(self).next_anon() == old(self).next_anon(),
            forall|b: u64| #[trigger] old(self).cached().contains_key(b) ==> {
                &&& final(self).is_dirty(b) == (b == block_id || old(self).is_dirty(b))
                &&& final(self).pins(b) == old(self).pins(b)
            },
    {
        let hit = match self.page_table.get(&block_id) {
            Some(f) => Some(*f),
            None => None,
        };
        if let Some(frame_idx) = hit {
            self.frames[frame_idx].dirty = true;
        }
        proof {
            assert(self.cached() =~= old(self).cached());
        }
    }

    /// What the disk reported for a file: the first entry with its id.
    pub closed spec fn file_start_known(&self, id: Seq<char>) -> Option<u64> {
        first_entry(self.file_starts@, id)
    }

    pub closed spec fn file_size_known(&self, id: Seq<char>) -> Option<u64> {
        first_entry(self.file_sizes@, id)
    }

    /// The first block of a file, as the disk reported it, or `None` after
    /// asking the disk.  The answer is used once: the next call asks again.
    pub fn get_file_start_block(&mut self, file_id: &String) -> (r: Option<u64>)
        requires
            old(self).wf(),
        ensures
            final(self).wf(),
            r == old(self).file_start_known(file_id@),
            r is None ==> (final(self).request() matches Some(DiskRequest::FileStartBlock(id))
                && id@ == file_id@),
            forall|id: Seq<char>| #[trigger] final(self).file_start_known(id) == if id == file_id@ {
                None
            } else {
                old(self).file_start_known(id)
            },
            final(self).cached() == old(self).cached(),
            final(self).spec_num_frames() == old(self).spec_num_frames(),
            final(self).spec_block_size() == old(self).spec_block_size(),
            final(self).spec_policy() == old(self).spec_policy(),
            final(self).writes() == old(self).writes(),
            final(self).free_list() == old(self).free_list(),
            final(self).next_anon() == old(self).next_anon(),
            final(self).anon_start_known() == old(self).anon_start_known(),
    {
        match take_entry(&mut self.file_starts, file_id) {
            Some(v) => Some(v),
            None => {
                self.pending_request = Some(DiskRequest::FileStartBlock(file_id.clone()));
                None
            },
        }
    }

    /// The number of blocks of a file, as the disk reported it, or `None`
    /// after asking the disk.  The answer is used once: the next call asks
    /// again.
    pub fn get_file_num_blocks(&mut self, file_id: &String) -> (r: Option<u64>)
        requires
            old(self).wf(),
        ensures
            final(self).wf(),
            r == old(self).file_size_known(file_id@),
            r is None ==> (final(self).request() matches Some(DiskRequest::FileNumBlocks(id))
                && id@ == file_id@),
            forall|id: Seq<char>| #[trigger] final(self).file_size_known(id) == if id == file_id@ {
                None
            } else {
                old(self).file_size_known(id)
            },
            final(self).cached() == old(self).cached(),
            final(self).spec_num_frames() == old(self).spec_num_frames(),
            final(self).spec_block_size() == old(self).spec_block_size(),
            final(self).spec_policy() == old(self).spec_policy(),
            final(self).writes() == old(self).writes(),
            final(self).free_list() == old(self).free_list(),
            final(self).next_anon() == old(self).next_anon(),
            final(self).anon_start_known() == old(self).anon_start_known(),
    {
        match take_entry(&mut self.file_sizes, file_id) {
            Some(v) => Some(v),
            None => {
                self.pending_request = Some(DiskRequest::FileNumBlocks(file_id.clone()));
                None
            },
        }
    }
}

/// The first frame that holds no block.
fn first_free_frame(frames: &Vec<Frame>) -> (r: Option<usize>)
    ensures
        match r {
            Some(i) => i < frames@.len() && frames@[i as int].block_id is None && i == first_free(frames@),
            None => forall|f: int| 0 <= f < frames@.len() ==> (#[trigger] frames@[f]).block_id is Some,
        },
{
    let mut i: usize = 0;
    while i < frames.len()
        invariant
            i <= frames.len(),
            forall|f: int| 0 <= f < i ==> (#[trigger] frames@[f]).block_id is Some,
            first_free(frames@) == first_free_from(frames@, i as int),
        decreases frames.len() - i,
    {
        if frames[i].block_id.is_none() {
            return Some(i);
        }
        i += 1;
    }
    None
}

/// The first frame from `i` on that holds no block (the number of frames
/// when there is none).
pub open spec fn first_free_from(frames: Seq<Frame>, i: int) -> int
    decreases frames.len() - i,
{
    if 0 <= i < frames.len() && frames[i].block_id is Some {
        first_free_from(frames, i + 1)
    } else {
        i
    }
}

pub open spec fn first_free(frames: Seq<Frame>) -> int {
    first_free_from(frames, 0)
}

/// The position of the last entry of the recency list that is its frame's
/// most recent entry (no entry before it names the same frame) and whose
/// frame is unpinned (-1 for none): the least recently used frame LRU
/// gives up.  Older entries of a frame used again are stale and skipped.
pub open spec fn last_fresh_unpinned(list: Seq<usize>, frames: Seq<Frame>) -> int
    decreases list.len(),
{
    if list.len() == 0 {
        -1
    } else if frames[list.last() as int].pin_count == 0 && !list.drop_last().contains(list.last()) {
        list.len() - 1
    } else {
        last_fresh_unpinned(list.drop_last(), frames)
    }
}

/// A list with an unpinned frame has a most recent entry of one.
proof fn lemma_fresh_unpinned_exists(list: Seq<usize>, frames: Seq<Frame>)
    requires
        exists|i: int| 0 <= i < list.len() && frames[#[trigger] list[i] as int].pin_count == 0,
    ensures
        0 <= last_fresh_unpinned(list, frames) < list.len(),
        frames[list[last_fresh_unpinned(list, frames)] as int].pin_count == 0,
    decreases list.len(),
{
    let i = choose|i: int| 0 <= i < list.len() && frames[#[trigger] list[i] as int].pin_count == 0;
    let last = list.last();
    if frames[last as int].pin_count == 0 && !list.drop_last().contains(last) {
    } else if i < list.len() - 1 {
        assert(list.drop_last()[i] == list[i]);
        lemma_fresh_unpinned_exists(list.drop_last(), frames);
    } else {
        let q = choose|q: int| 0 <= q < list.drop_last().len() && list.drop_last()[q] == last;
        assert(list.drop_last()[q] == last);
        lemma_fresh_unpinned_exists(list.drop_last(), frames);
    }
}

/// Whether the deque holds `x`.
fn deque_contains(d: &VecDeque<usize>, x: usize) -> (r: bool)
    ensures
        r == d@.contains(x),
{
    let mut j: usize = 0;
    while j < d.len()
        invariant
            j <= d@.len(),
            forall|q: int| 0 <= q < j ==> d@[q] != x,
        decreases d@.len() - j,
    {
        if d[j] == x {
            return true;
        }
        j += 1;
    }
    false
}

/// The position of the first entry of the recency list whose frame is
/// unpinned (the list's length for none): the most recently used frame
/// MRU gives up.
pub open spec fn first_unpinned_from(list: Seq<usize>, frames: Seq<Frame>, i: int) -> int
    decreases list.len() - i,
{
    if 0 <= i < list.len() && frames[list[i] as int].pin_count != 0 {
        first_unpinned_from(list, frames, i + 1)
    } else {
        i
    }
}

/// The frame `d` steps after the clock hand.
pub open spec fn clock_at(hand: int, d: int, n: int) -> int {
    if hand + d < n { hand + d } else { hand + d - n }
}

/// The first step `d' >= d` of one turn of the clock at an unpinned frame
/// whose referenced bit is clear (`n` when none).
pub open spec fn clock_first_clear(frames: Seq<Frame>, hand: int, d: int) -> int
    decreases frames.len() - d,
{
    let n = frames.len() as int;
    if 0 <= d < n && !(frames[clock_at(hand, d, n)].pin_count == 0 && !frames[clock_at(hand, d, n)].referenced) {
        clock_first_clear(frames, hand, d + 1)
    } else {
        d
    }
}

/// The first step `d' >= d` of one turn of the clock at an unpinned frame
/// (`n` when none).
pub open spec fn clock_first_unpinned(frames: Seq<Frame>, hand: int, d: int) -> int
    decreases frames.len() - d,
{
    let n = frames.len() as int;
    if 0 <= d < n && frames[clock_at(hand, d, n)].pin_count != 0 {
        clock_first_unpinned(frames, hand, d + 1)
    } else {
        d
    }
}

/// The frame CLOCK gives up: going round from the hand, the first
/// unpinned frame whose referenced bit is clear; when every unpinned frame
/// has its bit set, the bits are cleared on the way and the first unpinned
/// frame from the hand is taken on the second turn.
pub open spec fn clock_victim(frames: Seq<Frame>, hand: int) -> int {
    let n = frames.len() as int;
    let d = clock_first_clear(frames, hand, 0);
    if d < n { clock_at(hand, d, n) } else { clock_at(hand, clock_first_unpinned(frames, hand, 0), n) }
}

/// The bytes of whole blocks, one after the other.
pub open spec fn concat_blocks(blocks: Seq<Vec<u8>>) -> Seq<u8>
    decreases blocks.len(),
{
    if blocks.len() == 0 {
        Seq::empty()
    } else {
        concat_blocks(blocks.drop_last()) + blocks.last()@
    }
}

/// The value of the first entry whose key is `id`.
pub open spec fn first_entry(entries: Seq<(String, u64)>, id: Seq<char>) -> Option<u64>
    decreases entries.len(),
{
    if entries.len() == 0 {
        None
    } else if entries[0].0@ == id {
        Some(entries[0].1)
    } else {
        first_entry(entries.drop_first(), id)
    }
}

/// An entry appended after the others is found only where no earlier
/// entry has its id.
proof fn lemma_first_entry_push(entries: Seq<(String, u64)>, e: (String, u64), id: Seq<char>)
    ensures
        first_entry(entries.push(e), id) == match first_entry(entries, id) {
            Some(v) => Some(v),
            None => if e.0@ == id { Some(e.1) } else { None },
        },
    decreases entries.len(),
{
    let pushed = entries.push(e);
    assert(pushed[0] == if entries.len() > 0 { entries[0] } else { e });
    if entries.len() > 0 {
        assert(pushed.drop_first() =~= entries.drop_first().push(e));
        lemma_first_entry_push(entries.drop_first(), e, id);
    } else {
        assert(pushed.drop_first() =~= Seq::<(String, u64)>::empty());
        assert(first_entry(pushed.drop_first(), id) is None);
    }
}

/// Removing an entry of another id finds the same first entry.
proof fn lemma_first_entry_remove(entries: Seq<(String, u64)>, i: int, id: Seq<char>)
    requires
        0 <= i < entries.len(),
        entries[i].0@ != id,
    ensures
        first_entry(entries.remove(i), id) == first_entry(entries, id),
    decreases entries.len(),
{
    if i > 0 {
        assert(entries.remove(i)[0] == entries[0]);
        assert(entries.remove(i).drop_first() =~= entries.drop_first().remove(i - 1));
        lemma_first_entry_remove(entries.drop_first(), i - 1, id);
    } else {
        assert(entries.remove(0) =~= entries.drop_first());
    }
}

/// Entries none of which has the id find nothing.
proof fn lemma_first_entry_absent(entries: Seq<(String, u64)>, id: Seq<char>)
    requires
        forall|k: int| 0 <= k < entries.len() ==> (#[trigger] entries[k]).0@ != id,
    ensures
        first_entry(entries, id) is None,
    decreases entries.len(),
{
    if entries.len() > 0 {
        assert forall|k: int| 0 <= k < entries.drop_first().len() implies (#[trigger] entries.drop_first()[k]).0@ != id by {
            assert(entries.drop_first()[k] == entries[k + 1]);
        }
        lemma_first_entry_absent(entries.drop_first(), id);
    }
}

/// Takes the first value reported for `id` and forgets every entry of it,
/// so that the next lookup of `id` asks again.
fn take_entry(entries: &mut Vec<(String, u64)>, id: &String) -> (r: Option<u64>)
    ensures
        r == first_entry(old(entries)@, id@),
        forall|other: Seq<char>| #[trigger] first_entry(final(entries)@, other) == if other == id@ {
            None
        } else {
            first_entry(old(entries)@, other)
        },
{
    let r = lookup_entry(entries, id);
    let mut i: usize = 0;
    while i < entries.len()
        invariant
            i <= entries@.len(),
            forall|k: int| 0 <= k < i ==> (#[trigger] entries@[k]).0@ != id@,
            forall|other: Seq<char>| other != id@ ==> #[trigger] first_entry(entries@, other) == first_entry(old(entries)@, other),
        decreases entries@.len() - i, 
    {
        if entries[i].0 == *id {
            let ghost before = entries@;
            let _gone = entries.remove(i);
            proof {
                assert forall|other: Seq<char>| other != id@ implies #[trigger] first_entry(entries@, other) == first_entry(old(entries)@, other) by {
                    lemma_first_entry_remove(before, i as int, other);
                }
                assert forall|k: int| 0 <= k < i implies (#[trigger] entries@[k]).0@ != id@ by {
                    assert(entries@[k] == before[k]);
                }
            }
        } else {
            i += 1;
        }
    }
    proof {
        lemma_first_entry_absent(entries@, id@);
    }
    r
}

fn lookup_entry(entries: &Vec<(String, u64)>, id: &String) -> (r: Option<u64>)
    ensures
        r == first_entry(entries@, id@),
{
    let mut i: usize = 0;
    assert(entries@.skip(0) =~= entries@);
    while i < entries.len()
        invariant
            i <= entries.len(),
            first_entry(entries@, id@) == first_entry(entries@.skip(i as int), id@),
        decreases entries.len() - i,
    {
        assert(entries@.skip(i as int)[0] == entries@[i as int]);
        assert(entries@.skip(i as int).drop_first() =~= entries@.skip(i + 1));
        if entries[i].0 == *id {
            return Some(entries[i].1);
        }
        i += 1;
    }
    assert(entries@.skip(i as int).len() == 0);
    None
}


/// Without an empty frame from `i` on, the first empty frame is past the
/// end.
proof fn lemma_no_free(frames: Seq<Frame>, i: int)
    requires
        0 <= i <= frames.len(),
        forall|f: int| 0 <= f < frames.len() ==> (#[trigger] frames[f]).block_id is Some,
    ensures
        first_free_from(frames, i) == frames.len(),
    decreases frames.len() - i,
{
    if i < frames.len() {
        lemma_no_free(frames, i + 1);
    }
}

/// Two different steps of one turn of the clock reach different frames.
proof fn lemma_clock_at_distinct(h: int, a: int, b: int, n: int)
    requires
        0 <= h < n,
        0 <= a < n,
        0 <= b < n,
        a != b,
    ensures
        clock_at(h, a, n) != clock_at(h, b, n),
{
}

/// Some unpinned frame is met in one turn from any step, when one exists.
proof fn lemma_clock_unpinned_exists(frames: Seq<Frame>, h: int, d: int)
    requires
        0 <= h < frames.len(),
        0 <= d <= frames.len(),
    ensures
        clock_first_unpinned(frames, h, d) >= d,
        clock_first_unpinned(frames, h, d) <= frames.len(),
        clock_first_unpinned(frames, h, d) < frames.len() ==> frames[clock_at(h, clock_first_unpinned(frames, h, d), frames.len() as int)].pin_count == 0,
        (exists|e: int| d <= e < frames.len() && (#[trigger] frames[clock_at(h, e, frames.len() as int)]).pin_count == 0)
            ==> clock_first_unpinned(frames, h, d) < frames.len(),
    decreases frames.len() - d,
{
    if d < frames.len() {
        lemma_clock_unpinned_exists(frames, h, d + 1);
        if exists|e: int| d <= e < frames.len() && (#[trigger] frames[clock_at(h, e, frames.len() as int)]).pin_count == 0 {
            let e = choose|e: int| d <= e < frames.len() && (#[trigger] frames[clock_at(h, e, frames.len() as int)]).pin_count == 0;
            if e > d {
                assert(d + 1 <= e < frames.len());
            }
        }
    }
}


/// How many recycled IDs a write of `m` blocks uses when `k` are free.
pub open spec fn reused_count(k: nat, m: nat) -> nat {
    if k < m { k } else { m }
}

/// The writes of the first `t` blocks to recycled IDs, the most recently
/// freed first.
pub open spec fn reuse_writes(free: Seq<u64>, blocks: Seq<Vec<u8>>, t: nat) -> Seq<(u64, Seq<u8>)> {
    Seq::new(t, |i: int| (free[free.len() - 1 - i], blocks[i]@))
}

/// The IDs a write of `m` blocks gets: `t` recycled ones, the most recently
/// freed first, then consecutive fresh ones from `base`.
pub open spec fn run_ids(free: Seq<u64>, m: nat, t: nat, base: Option<u64>) -> Seq<u64> {
    Seq::new(m, |i: int| if i < t { free[free.len() - 1 - i] } else { base->0.wrapping_add((i - t) as u64) })
}

/// The IDs a write gets are distinct when the free list holds no ID twice,
/// and fresh IDs lie above the free ones without passing `u64::MAX`.
pub proof fn lemma_run_ids_distinct(free: Seq<u64>, m: nat, t: nat, base: Option<u64>)
    requires
        t <= m,
        t <= free.len(),
        free.no_duplicates(),
        t < m ==> base is Some && base->0 + (m - t) <= u64::MAX && forall|i: int| 0 <= i < free.len() ==> #[trigger] free[i]
            < base->0,
    ensures
        run_ids(free, m, t, base).no_duplicates(),
{
    let ids = run_ids(free, m, t, base);
    assert forall|a: int, b: int| 0 <= a < ids.len() && 0 <= b < ids.len() && a != b implies ids[a] != ids[b] by {
        let k = free.len() as int;
        if a < t && b < t {
            assert(free[k - 1 - a] != free[k - 1 - b]);
        } else if a >= t && b >= t {
            assert(base->0.wrapping_add((a - t) as u64) == base->0 + (a - t));
            assert(base->0.wrapping_add((b - t) as u64) == base->0 + (b - t));
        } else if a < t {
            assert(free[k - 1 - a] < base->0);
            assert(base->0.wrapping_add((b - t) as u64) == base->0 + (b - t));
        } else {
            assert(free[k - 1 - b] < base->0);
            assert(base->0.wrapping_add((a - t) as u64) == base->0 + (a - t));
        }
    }
}

/// The bytes of `blocks[from..]`, one block after the other.
fn concat_from(blocks: &[Vec<u8>], from: usize, bs: usize) -> (r: Vec<u8>)
    requires
        from <= blocks@.len(),
        forall|i: int| 0 <= i < blocks@.len() ==> (#[trigger] blocks@[i])@.len() == bs,
    ensures
        r@ == concat_blocks(blocks@.subrange(from as int, blocks@.len() as int)),
        r@.len() == (blocks@.len() - from) * bs,
{
    let mut raw: Vec<u8> = Vec::new();
    let mut i: usize = from;
    while i < blocks.len()
        invariant
            from <= i <= blocks.len(),
            raw@ == concat_blocks(blocks@.subrange(from as int, i as int)),
            raw@.len() == (i - from) * bs,
            forall|q: int| 0 <= q < blocks@.len() ==> (#[trigger] blocks@[q])@.len() == bs,
        decreases blocks.len() - i,
    {
        let ghost before = raw@;
        let b = &blocks[i];
        let mut j: usize = 0;
        while j < b.len()
            invariant
                j <= b.len(),
                raw@ == before + b@.subrange(0, j as int),
            decreases b.len() - j,
        {
            raw.push(b[j]);
            j += 1;
            assert(raw@ =~= before + b@.subrange(0, j as int));
        }
        assert(b@.subrange(0, j as int) =~= b@);
        assert(blocks@.subrange(from as int, i + 1).drop_last() =~= blocks@.subrange(from as int, i as int));
        assert(raw@.len() == (i + 1 - from) * bs) by (nonlinear_arith)
            requires
                raw@.len() == before.len() + b@.len(),
                before.len() == (i - from) * bs,
                b@.len() == bs,
                i >= from,
        ;
        i += 1;
    }
    raw
}

} // verus!

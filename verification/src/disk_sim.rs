//! The disk simulator's model: where each table file lies on the
//! simulated disk, the scratch region of anonymous blocks, and the
//! commands the simulator understands.
//!
//! Files are laid out one after another from block 0, each followed by a
//! gap of at least 10 GB (or four times its own size); the scratch region
//! starts 10 GB after the end of the last file.  File blocks are read-only;
//! scratch blocks hold what was last written to them.
use vstd::prelude::*;
use std::collections::HashMap;
use crate::data::copy_bytes;
use crate::predicate::names_view;
use crate::text::{lowercase, parse_u64, parse_unsigned, split_whitespace, str_eq, to_lowercase, words};

verus! {

broadcast use vstd::std_specs::hash::group_hash_axioms;

/// The minimum gap after a file, in bytes.
pub const GAP_BYTES: u64 = 10000000000;

/// The gap in blocks: 10 GB rounded up to whole blocks.
pub open spec fn gap_blocks(bs: nat) -> nat {
    ((GAP_BYTES + bs - 1) / (bs as int)) as nat
}

/// The blocks a file of `num` blocks takes with the gap after it.
pub open spec fn file_span(num: nat, bs: nat) -> nat {
    num + if 4 * num >= gap_blocks(bs) { 4 * num } else { gap_blocks(bs) }
}

/// The first block after the files (and their gaps): where the next file
/// would start.  Each file is (id, size in bytes).
pub open spec fn layout_end(files: Seq<(Seq<char>, u64)>, bs: nat) -> nat
    decreases files.len(),
{
    if files.len() == 0 {
        0
    } else {
        layout_end(files.drop_last(), bs) + file_span((files.last().1 as nat) / bs, bs)
    }
}

/// Where each file lies: its id maps to (first block, number of blocks).
/// A file listed twice keeps its later place.
pub open spec fn file_layout(files: Seq<(Seq<char>, u64)>, bs: nat) -> Map<Seq<char>, (nat, nat)>
    decreases files.len(),
{
    if files.len() == 0 {
        Map::empty()
    } else {
        file_layout(files.drop_last(), bs).insert(
            files.last().0,
            (layout_end(files.drop_last(), bs), (files.last().1 as nat) / bs),
        )
    }
}

/// The first block of the scratch region: the gap after the highest end of
/// a file.
pub open spec fn anon_start_of(files: Seq<(Seq<char>, u64)>, bs: nat) -> nat {
    let end = if files.len() == 0 {
        0
    } else {
        layout_end(files.drop_last(), bs) + (files.last().1 as nat) / bs
    };
    end + gap_blocks(bs)
}

/// Every file ends before `end` and no two files share a block.
pub open spec fn layout_wf(m: Map<Seq<char>, (nat, nat)>, end: nat) -> bool {
    &&& forall|id: Seq<char>| #[trigger] m.contains_key(id) ==> m[id].0 + m[id].1 <= end
    &&& forall|a: Seq<char>, b: Seq<char>|
        #[trigger] m.contains_key(a) && #[trigger] m.contains_key(b) && a != b ==> m[a].0 + m[a].1
            <= m[b].0 || m[b].0 + m[b].1 <= m[a].0
}

/// No two files overlap, and every file ends by the end of the layout.
pub proof fn lemma_layout_disjoint(files: Seq<(Seq<char>, u64)>, bs: nat)
    requires
        bs > 0,
    ensures
        layout_wf(file_layout(files, bs), layout_end(files, bs)),
    decreases files.len(),
{
    if files.len() > 0 {
        let p = files.drop_last();
        lemma_layout_disjoint(p, bs);
        let m = file_layout(p, bs);
        let e = layout_end(p, bs);
        let num = (files.last().1 as nat) / bs;
        let m2 = m.insert(files.last().0, (e, num));
        assert forall|id: Seq<char>| #[trigger] m2.contains_key(id) implies m2[id].0 + m2[id].1 <= layout_end(files, bs) by {
            if id != files.last().0 {
                assert(m.contains_key(id));
            }
        }
    }
}

/// The scratch region starts past every file.
pub proof fn lemma_anon_after_files(files: Seq<(Seq<char>, u64)>, bs: nat)
    requires
        bs > 0,
    ensures
        forall|id: Seq<char>| #[trigger] file_layout(files, bs).contains_key(id) ==>
            file_layout(files, bs)[id].0 + file_layout(files, bs)[id].1 + gap_blocks(bs) <= anon_start_of(files, bs),
        files.len() > 0 ==> file_layout(files, bs)[files.last().0].0 + file_layout(files, bs)[files.last().0].1
            + gap_blocks(bs) == anon_start_of(files, bs),
{
    if files.len() > 0 {
        let p = files.drop_last();
        lemma_layout_disjoint(p, bs);
        let m = file_layout(files, bs);
        assert forall|id: Seq<char>| #[trigger] m.contains_key(id) implies m[id].0 + m[id].1 + gap_blocks(bs)
            <= anon_start_of(files, bs) by {
            if id != files.last().0 {
                assert(file_layout(p, bs).contains_key(id));
            }
        }
    }
}

/// What the disk refuses.
#[derive(Debug, Clone, Copy, PartialEq, Eq, Structural)]
pub enum DiskSimError {
    /// A scratch block that was never written.
    MissingBlock,
    /// A block below the scratch region that lies in no file.
    InvalidFileBlock,
    /// A write below the scratch region.
    WriteProtected,
    /// Data that is not one block long.
    WrongSize,
}

/// Where the bytes of a block come from.
#[derive(Debug)]
pub enum BlockSource {
    /// A scratch block's bytes.
    Anon(Vec<u8>),
    /// The bytes of a file, from a byte offset, one block long.
    File { file_id: String, offset: u64 },
}

/// A file's place on the disk.
#[derive(Debug)]
pub struct FileDiskMetadata {
    pub id: String,
    pub start_block: u64,
    pub num_blocks: u64,
}

/// The simulated disk.
pub struct Disk {
    block_size: u64,
    anon_pages: HashMap<u64, Vec<u8>>,
    anon_start_index: u64,
    /// The files in the order they were listed, later entries overriding
    /// earlier ones of the same id.
    files: Vec<FileDiskMetadata>,
    ghost_files: Ghost<Seq<(Seq<char>, u64)>>,
}

/// The map the file entries describe, later entries overriding earlier.
pub open spec fn entries_map(es: Seq<FileDiskMetadata>) -> Map<Seq<char>, (nat, nat)>
    decreases es.len(),
{
    if es.len() == 0 {
        Map::empty()
    } else {
        entries_map(es.drop_last()).insert(
            es.last().id@,
            (es.last().start_block as nat, es.last().num_blocks as nat),
        )
    }
}

proof fn lemma_entries_map_last(es: Seq<FileDiskMetadata>, k: int)
    requires
        0 <= k < es.len(),
        forall|j: int| k < j < es.len() ==> (#[trigger] es[j]).id@ != es[k].id@,
    ensures
        entries_map(es).contains_key(es[k].id@),
        entries_map(es)[es[k].id@] == (es[k].start_block as nat, es[k].num_blocks as nat),
    decreases es.len(),
{
    if k < es.len() - 1 {
        let p = es.drop_last();
        assert forall|j: int| k < j < p.len() implies (#[trigger] p[j]).id@ != p[k].id@ by {
            assert(p[j] == es[j]);
        }
        lemma_entries_map_last(p, k);
    }
}

proof fn lemma_entries_map_has(es: Seq<FileDiskMetadata>, id: Seq<char>)
    requires
        entries_map(es).contains_key(id),
    ensures
        exists|k: int| 0 <= k < es.len() && (#[trigger] es[k]).id@ == id && forall|j: int| k < j < es.len() ==> (#[trigger] es[j]).id@ != id,
    decreases es.len(),
{
    let p = es.drop_last();
    if es.last().id@ == id {
        assert(es[es.len() - 1].id@ == id);
    } else {
        lemma_entries_map_has(p, id);
        let k = choose|k: int| 0 <= k < p.len() && (#[trigger] p[k]).id@ == id && forall|j: int| k < j < p.len() ==> (#[trigger] p[j]).id@ != id;
        assert(es[k] == p[k]);
        assert forall|j: int| k < j < es.len() implies (#[trigger] es[j]).id@ != id by {
            if j < p.len() {
                assert(es[j] == p[j]);
            }
        }
    }
}

impl Disk {
    pub closed spec fn wf(&self) -> bool {
        &&& vstd::std_specs::hash::obeys_key_model::<u64>()
        &&& vstd::std_specs::hash::builds_valid_hashers::<std::hash::RandomState>()
        &&& self.block_size > 0
        &&& entries_map(self.files@) == file_layout(self.ghost_files@, self.block_size as nat)
        &&& self.anon_start_index == anon_start_of(self.ghost_files@, self.block_size as nat)
        &&& forall|b: u64| #[trigger] self.anon_pages@.contains_key(b) ==> self.anon_pages@[b]@.len() == self.block_size
        &&& forall|k: int| 0 <= k < self.files@.len() ==> (#[trigger] self.files@[k]).num_blocks * self.block_size <= u64::MAX
    }

    /// Where each file lies.
    pub closed spec fn layout(&self) -> Map<Seq<char>, (nat, nat)> {
        entries_map(self.files@)
    }

    /// The scratch blocks written so far, with their bytes.
    pub closed spec fn pages(&self) -> Map<u64, Seq<u8>> {
        self.anon_pages@.map_values(|v: Vec<u8>| v@)
    }

    pub closed spec fn spec_block_size(&self) -> u64 {
        self.block_size
    }

    pub closed spec fn spec_anon_start(&self) -> u64 {
        self.anon_start_index
    }

    /// A disk of `block_size`-byte blocks holding the files listed as
    /// (id, size in bytes), in that order, with no scratch block written.
    pub fn new(block_size: u64, files: &Vec<(String, u64)>) -> (r: Disk)
        requires
            block_size > 0,
            GAP_BYTES + block_size - 1 <= u64::MAX,
            layout_end(files@.map_values(|f: (String, u64)| (f.0@, f.1)), block_size as nat) + gap_blocks(block_size as nat) <= u64::MAX,
        ensures
            r.wf(),
            r.spec_block_size() == block_size,
            r.layout() == file_layout(files@.map_values(|f: (String, u64)| (f.0@, f.1)), block_size as nat),
            r.spec_anon_start() == anon_start_of(files@.map_values(|f: (String, u64)| (f.0@, f.1)), block_size as nat),
            r.pages() == Map::<u64, Seq<u8>>::empty(),
    {
        let ghost fs = files@.map_values(|f: (String, u64)| (f.0@, f.1));
        let gap: u64 = (GAP_BYTES + (block_size - 1)) / block_size;
        let mut entries: Vec<FileDiskMetadata> = Vec::new();
        let mut position: u64 = 0;
        let mut last_end: u64 = 0;
        let mut i: usize = 0;
        while i < files.len()
            invariant
                i <= files@.len(),
                block_size > 0,
                fs == files@.map_values(|f: (String, u64)| (f.0@, f.1)),
                gap == gap_blocks(block_size as nat),
                layout_end(fs, block_size as nat) + gap <= u64::MAX,
                position == layout_end(fs.subrange(0, i as int), block_size as nat),
                entries_map(entries@) == file_layout(fs.subrange(0, i as int), block_size as nat),
                last_end + gap == anon_start_of(fs.subrange(0, i as int), block_size as nat),
                forall|k: int| 0 <= k < entries@.len() ==> (#[trigger] entries@[k]).num_blocks * block_size <= u64::MAX,
            decreases files.len() - i,
        {
            let size = files[i].1;
            let num = size / block_size;
            let ghost pre = fs.subrange(0, i as int);
            let ghost next = fs.subrange(0, i + 1);
            proof {
                assert(next.drop_last() =~= pre);
                assert(next.last() == fs[i as int]);
                lemma_layout_end_mono(fs, i + 1, block_size as nat);
                assert(num * block_size <= size) by (nonlinear_arith)
                    requires num == size / block_size, block_size > 0;
                assert(layout_end(next, block_size as nat) == position + file_span(num as nat, block_size as nat));
            }
            let span: u64 = if 4 * num >= gap { 4 * num } else { gap };
            let id = files[i].0.clone();
            assert(id@ == files@[i as int].0@);
            let ghost before = entries@;
            entries.push(FileDiskMetadata { id, start_block: position, num_blocks: num });
            proof {
                assert((next.last().1 as nat) / (block_size as nat) == num);
                assert(entries@.drop_last() =~= before);
                assert(next.last().0 == files@[i as int].0@);
                assert(entries_map(entries@) == entries_map(before).insert(files@[i as int].0@, (position as nat, num as nat)));
                assert(file_layout(next, block_size as nat) == file_layout(pre, block_size as nat).insert(files@[i as int].0@, (position as nat, num as nat)));
            }
            last_end = position + num;
            position = position + num + span;
            i += 1;
        }
        proof {
            assert(fs.subrange(0, i as int) =~= fs);
        }
        let r = Disk {
            block_size,
            anon_pages: HashMap::new(),
            anon_start_index: last_end + gap,
            files: entries,
            ghost_files: Ghost(fs),
        };
        proof {
            assert(r.pages() =~= Map::<u64, Seq<u8>>::empty());
        }
        r
    }

    /// Whether a disk of `block_size`-byte blocks can lay out the files
    /// (id, size in bytes) with every block number fitting in 64 bits.
    pub fn layout_fits(block_size: u64, files: &Vec<(String, u64)>) -> (r: bool)
        ensures
            r == (block_size > 0 && GAP_BYTES + block_size - 1 <= u64::MAX && layout_end(
                files@.map_values(|f: (String, u64)| (f.0@, f.1)),
                block_size as nat,
            ) + gap_blocks(block_size as nat) <= u64::MAX),
    {
        let ghost fs = files@.map_values(|f: (String, u64)| (f.0@, f.1));
        if block_size == 0 || block_size - 1 > u64::MAX - GAP_BYTES {
            return false;
        }
        let gap: u64 = (GAP_BYTES + (block_size - 1)) / block_size;
        let mut pos: u128 = 0;
        let mut i: usize = 0;
        while i < files.len()
            invariant
                i <= files@.len(),
                block_size > 0,
                fs == files@.map_values(|f: (String, u64)| (f.0@, f.1)),
                gap == gap_blocks(block_size as nat),
                pos == layout_end(fs.subrange(0, i as int), block_size as nat),
                pos <= u64::MAX,
            decreases files.len() - i,
        {
            let num = files[i].1 / block_size;
            let four: u128 = 4 * (num as u128);
            let span: u128 = if four >= gap as u128 { four } else { gap as u128 };
            proof {
                let next = fs.subrange(0, i + 1);
                assert(next.drop_last() =~= fs.subrange(0, i as int));
                assert((next.last().1 as nat) / (block_size as nat) == num);
            }
            pos = pos + num as u128 + span;
            i += 1;
            if pos > u64::MAX as u128 {
                proof {
                    lemma_layout_end_mono(fs, i as int, block_size as nat);
                }
                return false;
            }
        }
        assert(fs.subrange(0, i as int) =~= fs);
        pos + gap as u128 <= u64::MAX as u128
    }

    /// The first block of a file, if the disk holds it.
    pub fn get_file_start_block(&self, query_file_id: &str) -> (r: Option<u64>)
        requires
            self.wf(),
        ensures
            match r {
                Some(s) => self.layout().contains_key(query_file_id@) && s == self.layout()[query_file_id@].0,
                None => !self.layout().contains_key(query_file_id@),
            },
    {
        match self.find_file(query_file_id) {
            Some(k) => Some(self.files[k].start_block),
            None => None,
        }
    }

    /// The number of blocks of a file, if the disk holds it.
    pub fn get_num_file_blocks(&self, query_file_id: &str) -> (r: Option<u64>)
        requires
            self.wf(),
        ensures
            match r {
                Some(n) => self.layout().contains_key(query_file_id@) && n == self.layout()[query_file_id@].1,
                None => !self.layout().contains_key(query_file_id@),
            },
    {
        match self.find_file(query_file_id) {
            Some(k) => Some(self.files[k].num_blocks),
            None => None,
        }
    }

    pub fn get_block_size(&self) -> (r: u64)
        ensures
            r == self.spec_block_size(),
    {
        self.block_size
    }

    pub fn get_anon_start_block(&self) -> (r: u64)
        ensures
            r == self.spec_anon_start(),
    {
        self.anon_start_index
    }

    /// The last entry of a file id.
    fn find_file(&self, id: &str) -> (r: Option<usize>)
        ensures
            match r {
                Some(k) => k < self.files@.len() && self.files@[k as int].id@ == id@
                    && entries_map(self.files@).contains_key(id@)
                    && entries_map(self.files@)[id@] == (self.files@[k as int].start_block as nat, self.files@[k as int].num_blocks as nat),
                None => !entries_map(self.files@).contains_key(id@),
            },
    {
        let mut k: usize = self.files.len();
        while k > 0
            invariant
                k <= self.files@.len(),
                forall|j: int| k <= j < self.files@.len() ==> (#[trigger] self.files@[j]).id@ != id@,
            decreases k,
        {
            k -= 1;
            if str_eq(self.files[k].id.as_str(), id) {
                proof { lemma_entries_map_last(self.files@, k as int); }
                return Some(k);
            }
        }
        proof {
            if entries_map(self.files@).contains_key(id@) {
                lemma_entries_map_has(self.files@, id@);
            }
        }
        None
    }

    /// The file whose blocks include `block_id`, if any.
    pub fn get_file_id(&self, block_id: u64) -> (r: Option<String>)
        requires
            self.wf(),
        ensures
            match r {
                Some(id) => self.layout().contains_key(id@) && self.layout()[id@].0 <= block_id
                    < self.layout()[id@].0 + self.layout()[id@].1,
                None => forall|id: Seq<char>| #[trigger] self.layout().contains_key(id) ==> !(self.layout()[id].0 <= block_id
                    < self.layout()[id].0 + self.layout()[id].1),
            },
    {
        match self.find_file_of_block(block_id) {
            Some(k) => Some(self.files[k].id.clone()),
            None => None,
        }
    }

    /// The position of a live entry (the last of its id) that holds
    /// `block_id`.
    fn find_file_of_block(&self, block_id: u64) -> (r: Option<usize>)
        ensures
            match r {
                Some(k) => k < self.files@.len() && entries_map(self.files@).contains_key(self.files@[k as int].id@)
                    && entries_map(self.files@)[self.files@[k as int].id@] == (self.files@[k as int].start_block as nat, self.files@[k as int].num_blocks as nat)
                    && self.files@[k as int].start_block <= block_id < self.files@[k as int].start_block + self.files@[k as int].num_blocks,
                None => forall|id: Seq<char>| #[trigger] entries_map(self.files@).contains_key(id) ==> !(entries_map(self.files@)[id].0 <= block_id
                    < entries_map(self.files@)[id].0 + entries_map(self.files@)[id].1),
            },
    {
        let ghost es = self.files@;
        let n = self.files.len();
        let mut k: usize = n;
        while k > 0
            invariant
                k <= n,
                n == es.len(),
                es == self.files@,
                forall|j: int| k <= j < n && (forall|l: int| j < l < n ==> (#[trigger] es[l]).id@ != es[j].id@)
                    ==> !((#[trigger] es[j]).start_block <= block_id < es[j].start_block + es[j].num_blocks),
            decreases k,
        {
            k -= 1;
            let e = &self.files[k];
            if e.start_block <= block_id && (block_id as u128) < e.start_block as u128 + e.num_blocks as u128 {
                if !self.shadowed(k) {
                    proof { lemma_entries_map_last(es, k as int); }
                    return Some(k);
                }
            }
        }
        proof {
            assert forall|id: Seq<char>| #[trigger] entries_map(es).contains_key(id) implies !(entries_map(es)[id].0 <= block_id
                < entries_map(es)[id].0 + entries_map(es)[id].1) by {
                lemma_entries_map_has(es, id);
                let j = choose|j: int| 0 <= j < es.len() && (#[trigger] es[j]).id@ == id && forall|l: int| j < l < es.len() ==> (#[trigger] es[l]).id@ != id;
                lemma_entries_map_last(es, j);
            }
        }
        None
    }

    /// Whether a later entry has the same id as entry `k`.
    fn shadowed(&self, k: usize) -> (r: bool)
        requires
            k < self.files@.len(),
        ensures
            r == exists|l: int| k < l < self.files@.len() && (#[trigger] self.files@[l]).id@ == self.files@[k as int].id@,
    {
        let n = self.files.len();
        let mut later = k + 1;
        while later < n
            invariant
                k < later <= n,
                n == self.files@.len(),
                forall|l: int| k < l < later ==> (#[trigger] self.files@[l]).id@ != self.files@[k as int].id@,
            decreases n - later,
        {
            if str_eq(self.files[later].id.as_str(), self.files[k].id.as_str()) {
                return true;
            }
            later += 1;
        }
        false
    }

    /// Where the bytes of `block_id` are: a written scratch block, or a
    /// place in a file.
    pub fn read_block(&self, block_id: u64) -> (r: Result<BlockSource, DiskSimError>)
        requires
            self.wf(),
        ensures
            block_id >= self.spec_anon_start() ==> match r {
                Ok(BlockSource::Anon(data)) => self.pages().contains_key(block_id) && data@ == self.pages()[block_id],
                Ok(BlockSource::File { .. }) => false,
                Err(e) => e == DiskSimError::MissingBlock && !self.pages().contains_key(block_id),
            },
            block_id < self.spec_anon_start() ==> match r {
                Ok(BlockSource::File { file_id, offset }) => self.layout().contains_key(file_id@)
                    && self.layout()[file_id@].0 <= block_id < self.layout()[file_id@].0 + self.layout()[file_id@].1
                    && offset == (block_id - self.layout()[file_id@].0) * self.spec_block_size(),
                Ok(BlockSource::Anon(_)) => false,
                Err(e) => e == DiskSimError::InvalidFileBlock && forall|id: Seq<char>| #[trigger] self.layout().contains_key(id)
                    ==> !(self.layout()[id].0 <= block_id < self.layout()[id].0 + self.layout()[id].1),
            },
    {
        if block_id >= self.anon_start_index {
            match self.anon_pages.get(&block_id) {
                Some(data) => Ok(BlockSource::Anon(copy_bytes(data))),
                None => Err(DiskSimError::MissingBlock),
            }
        } else {
            match self.find_file_of_block(block_id) {
                Some(k) => {
                    let e = &self.files[k];
                    let rel = block_id - e.start_block;
                    assert(rel * self.block_size <= e.num_blocks * self.block_size) by (nonlinear_arith)
                        requires rel < e.num_blocks;
                    Ok(BlockSource::File { file_id: e.id.clone(), offset: rel * self.block_size })
                },
                None => Err(DiskSimError::InvalidFileBlock),
            }
        }
    }

    /// Writes one block of the scratch region.
    pub fn write_block(&mut self, block_id: u64, data: &[u8]) -> (r: Result<(), DiskSimError>)
        requires
            old(self).wf(),
        ensures
            final(self).wf(),
            final(self).layout() == old(self).layout(),
            final(self).spec_block_size() == old(self).spec_block_size(),
            final(self).spec_anon_start() == old(self).spec_anon_start(),
            block_id < old(self).spec_anon_start() ==> r == Err::<(), DiskSimError>(DiskSimError::WriteProtected)
                && final(self).pages() == old(self).pages(),
            block_id >= old(self).spec_anon_start() && data@.len() != old(self).spec_block_size()
                ==> r == Err::<(), DiskSimError>(DiskSimError::WrongSize) && final(self).pages() == old(self).pages(),
            block_id >= old(self).spec_anon_start() && data@.len() == old(self).spec_block_size()
                ==> r is Ok && final(self).pages() == old(self).pages().insert(block_id, data@),
    {
        if block_id < self.anon_start_index {
            return Err(DiskSimError::WriteProtected);
        }
        if data.len() as u64 != self.block_size {
            return Err(DiskSimError::WrongSize);
        }
        let mut bytes: Vec<u8> = Vec::with_capacity(data.len());
        let mut i: usize = 0;
        while i < data.len()
            invariant
                i <= data@.len(),
                bytes@ == data@.subrange(0, i as int),
            decreases data.len() - i,
        {
            bytes.push(data[i]);
            i += 1;
            assert(bytes@ =~= data@.subrange(0, i as int));
        }
        assert(data@.subrange(0, i as int) =~= data@);
        let ghost p0 = self.pages();
        self.anon_pages.insert(block_id, bytes);
        assert(self.pages() =~= p0.insert(block_id, data@));
        Ok(())
    }
}

proof fn lemma_layout_end_mono(fs: Seq<(Seq<char>, u64)>, i: int, bs: nat)
    requires
        0 <= i <= fs.len(),
    ensures
        layout_end(fs.subrange(0, i), bs) <= layout_end(fs, bs),
    decreases fs.len() - i,
{
    if i < fs.len() {
        lemma_layout_end_mono(fs, i + 1, bs);
        assert(fs.subrange(0, i + 1).drop_last() =~= fs.subrange(0, i));
    } else {
        assert(fs.subrange(0, i) =~= fs);
    }
}

/// A scratch block reads back as what was last written to it, and a
/// write leaves every other block as it was: after `write_block(b, data)`
/// succeeds (so the pages become `pages.insert(b, data)`), `read_block(b)`
/// gives `data`.
pub proof fn lemma_read_after_write(before: Map<u64, Seq<u8>>, after: Map<u64, Seq<u8>>, b: u64, data: Seq<u8>, other: u64)
    requires
        after == before.insert(b, data),
    ensures
        after.contains_key(b),
        after[b] == data,
        other != b ==> (after.contains_key(other) == before.contains_key(other)),
        other != b && before.contains_key(other) ==> after[other] == before[other],
{
}

// ─── Configuration ───────────────────────────────────────────────────────

/// A table file the disk serves: its id and where it is stored.
#[derive(Debug)]
pub struct FileSpec {
    pub id: String,
    pub file_path: String,
}

impl FileSpec {
    pub fn get_file_path(&self) -> (r: &String)
        ensures
            r == &self.file_path,
    {
        &self.file_path
    }
}

/// Why a disk configuration is refused.
#[derive(Debug, Clone, Copy, PartialEq, Eq, Structural)]
pub enum ConfigError {
    /// The block size is 0.
    ZeroBlockSize,
    /// The id of the file at this position holds a space.
    SpaceInId(usize),
    /// The file at this position is empty.
    EmptyFile(usize),
    /// The size of the file at this position is not a whole number of
    /// blocks.
    PartialBlock(usize),
}

/// The first problem of the file at position `k`, if any.
pub open spec fn file_problem(files: Seq<(Seq<char>, u64)>, k: int, bs: nat) -> Option<ConfigError> {
    if files[k].0.contains(' ') {
        Some(ConfigError::SpaceInId(k as usize))
    } else if files[k].1 == 0 {
        Some(ConfigError::EmptyFile(k as usize))
    } else if (files[k].1 as nat) % bs != 0 {
        Some(ConfigError::PartialBlock(k as usize))
    } else {
        None
    }
}

/// Checks a disk configuration: a positive block size, and files (id,
/// size in bytes) whose ids hold no space and whose sizes are positive
/// whole numbers of blocks.  The first problem found, in file order, is
/// reported.
pub fn validate_disk_config(block_size: u64, files: &Vec<(String, u64)>) -> (r: Result<(), ConfigError>)
    ensures
        ({
            let fs = files@.map_values(|f: (String, u64)| (f.0@, f.1));
            match r {
                Ok(()) => block_size > 0 && forall|k: int| 0 <= k < fs.len() ==> file_problem(fs, k, block_size as nat) is None,
                Err(e) => if block_size == 0 {
                    e == ConfigError::ZeroBlockSize
                } else {
                    exists|k: int| 0 <= k < fs.len() && file_problem(fs, k, block_size as nat) == Some(e)
                        && forall|j: int| 0 <= j < k ==> file_problem(fs, j, block_size as nat) is None
                },
            }
        }),
{
    let ghost fs = files@.map_values(|f: (String, u64)| (f.0@, f.1));
    if block_size == 0 {
        return Err(ConfigError::ZeroBlockSize);
    }
    let mut k: usize = 0;
    while k < files.len()
        invariant
            k <= files@.len(),
            block_size > 0,
            fs == files@.map_values(|f: (String, u64)| (f.0@, f.1)),
            forall|j: int| 0 <= j < k ==> file_problem(fs, j, block_size as nat) is None,
        decreases files.len() - k,
    {
        let cs = crate::text::chars_of(files[k].0.as_str());
        let mut has_space = false;
        let mut i: usize = 0;
        while i < cs.len()
            invariant
                i <= cs@.len(),
                has_space == exists|j: int| 0 <= j < i && cs@[j] == ' ',
            decreases cs.len() - i,
        {
            if cs[i] == ' ' {
                has_space = true;
            }
            i += 1;
        }
        proof {
            assert(fs[k as int].0 == cs@);
            if has_space {
                let j = choose|j: int| 0 <= j < i && cs@[j] == ' ';
                assert(fs[k as int].0.contains(' ')) by { assert(fs[k as int].0[j] == ' '); }
            } else {
                assert(!fs[k as int].0.contains(' '));
            }
        }
        if has_space {
            assert(file_problem(fs, k as int, block_size as nat) == Some(ConfigError::SpaceInId(k)));
            return Err(ConfigError::SpaceInId(k));
        }
        let size = files[k].1;
        assert(fs[k as int].1 == size);
        if size == 0 {
            assert(file_problem(fs, k as int, block_size as nat) == Some(ConfigError::EmptyFile(k)));
            return Err(ConfigError::EmptyFile(k));
        }
        if size % block_size != 0 {
            assert(file_problem(fs, k as int, block_size as nat) == Some(ConfigError::PartialBlock(k)));
            return Err(ConfigError::PartialBlock(k));
        }
        k += 1;
    }
    Ok(())
}

// ─── Commands ────────────────────────────────────────────────────────────

/// A command of the disk simulator's protocol.
#[derive(Debug)]
pub enum DiskCommand {
    Exit,
    GetBlock { start: u64, count: u64 },
    GetBlockSize,
    GetFileStartBlock(String),
    GetFileNumBlocks(String),
    GetAnonStartBlock,
    PutBlock { start: u64, count: u64 },
}

/// A command, with its file id as characters.
pub enum CommandView {
    Exit,
    GetBlock { start: u64, count: u64 },
    GetBlockSize,
    GetFileStartBlock(Seq<char>),
    GetFileNumBlocks(Seq<char>),
    GetAnonStartBlock,
    PutBlock { start: u64, count: u64 },
}

impl DiskCommand {
    pub open spec fn view(&self) -> CommandView {
        match self {
            DiskCommand::Exit => CommandView::Exit,
            DiskCommand::GetBlock { start, count } => CommandView::GetBlock { start: *start, count: *count },
            DiskCommand::GetBlockSize => CommandView::GetBlockSize,
            DiskCommand::GetFileStartBlock(id) => CommandView::GetFileStartBlock(id@),
            DiskCommand::GetFileNumBlocks(id) => CommandView::GetFileNumBlocks(id@),
            DiskCommand::GetAnonStartBlock => CommandView::GetAnonStartBlock,
            DiskCommand::PutBlock { start, count } => CommandView::PutBlock { start: *start, count: *count },
        }
    }
}

/// Why a command line is refused.
#[derive(Debug, Clone, Copy, PartialEq, Eq, Structural)]
pub enum CommandError {
    /// A word that names no command.
    UnknownCommand,
    /// A command that needs more words.
    MissingArguments,
    /// A command with the wrong number of arguments.
    WrongArguments,
    /// A block number or count that is not a number.
    BadNumber,
}

/// Two numbers, the arguments of `get block` and `put block`.
pub open spec fn two_numbers(args: Seq<Seq<char>>) -> Result<(u64, u64), CommandError> {
    if args.len() != 2 {
        Err(CommandError::WrongArguments)
    } else {
        match (parse_unsigned(args[0], u64::MAX as nat), parse_unsigned(args[1], u64::MAX as nat)) {
            (Some(a), Some(b)) => Ok((a as u64, b as u64)),
            _ => Err(CommandError::BadNumber),
        }
    }
}

/// The meaning of the words `ws` of a command line, given the same words
/// in lowercase (`low`), by which the command's own words are compared;
/// `exit` ignores what follows it.
pub open spec fn command_from(ws: Seq<Seq<char>>, low: Seq<Seq<char>>) -> Result<CommandView, CommandError> {
    let c = low[0];
    let a = ws.drop_first();
    if c == "exit"@ {
        Ok(CommandView::Exit)
    } else if c == "get"@ {
        if a.len() == 0 {
            Err(CommandError::MissingArguments)
        } else {
            let g = low[1];
            let b = a.drop_first();
            if g == "block"@ {
                match two_numbers(b) {
                    Ok((x, y)) => Ok(CommandView::GetBlock { start: x, count: y }),
                    Err(e) => Err(e),
                }
            } else if g == "block-size"@ {
                if b.len() == 0 { Ok(CommandView::GetBlockSize) } else { Err(CommandError::WrongArguments) }
            } else if g == "file"@ {
                if b.len() == 0 {
                    Err(CommandError::MissingArguments)
                } else {
                    let f = low[2];
                    if f == "start-block"@ {
                        if b.len() == 2 { Ok(CommandView::GetFileStartBlock(b[1])) } else { Err(CommandError::WrongArguments) }
                    } else if f == "num-blocks"@ {
                        if b.len() == 2 { Ok(CommandView::GetFileNumBlocks(b[1])) } else { Err(CommandError::WrongArguments) }
                    } else {
                        Err(CommandError::UnknownCommand)
                    }
                }
            } else if g == "anon-start-block"@ {
                if b.len() == 0 { Ok(CommandView::GetAnonStartBlock) } else { Err(CommandError::WrongArguments) }
            } else {
                Err(CommandError::UnknownCommand)
            }
        }
    } else if c == "put"@ {
        if a.len() == 0 {
            Err(CommandError::MissingArguments)
        } else if low[1] == "block"@ {
            match two_numbers(a.drop_first()) {
                Ok((x, y)) => Ok(CommandView::PutBlock { start: x, count: y }),
                Err(e) => Err(e),
            }
        } else {
            Err(CommandError::UnknownCommand)
        }
    } else {
        Err(CommandError::UnknownCommand)
    }
}

/// The meaning of the words of a command line, compared in lowercase.
pub open spec fn command_of(ws: Seq<Seq<char>>) -> Result<CommandView, CommandError> {
    command_from(ws, ws.map_values(|w: Seq<char>| lowercase(w)))
}

fn two_numbers_exec(ws: &Vec<String>, from: usize) -> (r: Result<(u64, u64), CommandError>)
    requires
        from <= ws@.len(),
    ensures
        r == two_numbers(names_view(ws@).subrange(from as int, ws@.len() as int)),
{
    let ghost args = names_view(ws@).subrange(from as int, ws@.len() as int);
    if ws.len() - from != 2 {
        return Err(CommandError::WrongArguments);
    }
    let a = parse_u64(ws[from].as_str());
    let b = parse_u64(ws[from + 1].as_str());
    assert(args[0] == ws@[from as int]@);
    assert(args[1] == ws@[from + 1]@);
    match (a, b) {
        (Some(x), Some(y)) => Ok((x, y)),
        _ => Err(CommandError::BadNumber),
    }
}

/// Reads the words `ws` of a command line (at least one word), given the
/// same words in lowercase.
pub fn parse_lowered_command(ws: &Vec<String>, lowered: &Vec<String>) -> (r: Result<DiskCommand, CommandError>)
    requires
        ws@.len() > 0,
        lowered@.len() == ws@.len(),
    ensures
        match r {
            Ok(c) => command_from(names_view(ws@), names_view(lowered@)) == Ok::<CommandView, CommandError>(c.view()),
            Err(e) => command_from(names_view(ws@), names_view(lowered@)) == Err::<CommandView, CommandError>(e),
        },
{
    let ghost v = names_view(ws@);
    let n = ws.len();
    proof {
        assert(v.drop_first() =~= v.subrange(1, n as int));
        if n >= 2 {
            assert(v.subrange(1, n as int).drop_first() =~= v.subrange(2, n as int));
        }
    }
    if str_eq(lowered[0].as_str(), "exit") {
        return Ok(DiskCommand::Exit);
    }
    if str_eq(lowered[0].as_str(), "get") {
        if n < 2 {
            return Err(CommandError::MissingArguments);
        }
        if str_eq(lowered[1].as_str(), "block") {
            return match two_numbers_exec(ws, 2) {
                Ok((x, y)) => Ok(DiskCommand::GetBlock { start: x, count: y }),
                Err(e) => Err(e),
            };
        }
        if str_eq(lowered[1].as_str(), "block-size") {
            return if n == 2 { Ok(DiskCommand::GetBlockSize) } else { Err(CommandError::WrongArguments) };
        }
        if str_eq(lowered[1].as_str(), "file") {
            if n < 3 {
                return Err(CommandError::MissingArguments);
            }
            proof {
                assert(v.subrange(2, n as int)[0] == ws@[2]@);
            }
            if str_eq(lowered[2].as_str(), "start-block") {
                if n == 4 {
                    assert(v.subrange(2, n as int)[1] == ws@[3]@);
                    return Ok(DiskCommand::GetFileStartBlock(ws[3].clone()));
                }
                return Err(CommandError::WrongArguments);
            }
            if str_eq(lowered[2].as_str(), "num-blocks") {
                if n == 4 {
                    assert(v.subrange(2, n as int)[1] == ws@[3]@);
                    return Ok(DiskCommand::GetFileNumBlocks(ws[3].clone()));
                }
                return Err(CommandError::WrongArguments);
            }
            return Err(CommandError::UnknownCommand);
        }
        if str_eq(lowered[1].as_str(), "anon-start-block") {
            return if n == 2 { Ok(DiskCommand::GetAnonStartBlock) } else { Err(CommandError::WrongArguments) };
        }
        return Err(CommandError::UnknownCommand);
    }
    if str_eq(lowered[0].as_str(), "put") {
        if n < 2 {
            return Err(CommandError::MissingArguments);
        }
        if str_eq(lowered[1].as_str(), "block") {
            return match two_numbers_exec(ws, 2) {
                Ok((x, y)) => Ok(DiskCommand::PutBlock { start: x, count: y }),
                Err(e) => Err(e),
            };
        }
        return Err(CommandError::UnknownCommand);
    }
    Err(CommandError::UnknownCommand)
}

/// Reads the words of a command line (at least one word).
pub fn parse_command(ws: &Vec<String>) -> (r: Result<DiskCommand, CommandError>)
    requires
        ws@.len() > 0,
    ensures
        match r {
            Ok(c) => command_of(names_view(ws@)) == Ok::<CommandView, CommandError>(c.view()),
            Err(e) => command_of(names_view(ws@)) == Err::<CommandView, CommandError>(e),
        },
{
    let mut lowered: Vec<String> = Vec::with_capacity(ws.len());
    let mut i: usize = 0;
    while i < ws.len()
        invariant
            i <= ws@.len(),
            lowered@.len() == i,
            forall|k: int| 0 <= k < i ==> (#[trigger] lowered@[k])@ == lowercase(ws@[k]@),
        decreases ws.len() - i,
    {
        lowered.push(to_lowercase(ws[i].as_str()));
        i += 1;
    }
    assert(names_view(lowered@) =~= names_view(ws@).map_values(|w: Seq<char>| lowercase(w)));
    parse_lowered_command(ws, &lowered)
}

/// Reads a command line: `None` for a line of white space only, else the
/// command its words make.
pub fn parse_command_line(line: &str) -> (r: Option<Result<DiskCommand, CommandError>>)
    ensures
        words(line@).len() == 0 <==> r is None,
        r matches Some(Ok(c)) ==> command_of(words(line@)) == Ok::<CommandView, CommandError>(c.view()),
        r matches Some(Err(e)) ==> command_of(words(line@)) == Err::<CommandView, CommandError>(e),
{
    let ws = split_whitespace(line);
    proof {
        assert(names_view(ws@) =~= ws@.map_values(|w: String| w@));
    }
    if ws.len() == 0 {
        return None;
    }
    Some(parse_command(&ws))
}

// ─── I/O metrics ─────────────────────────────────────────────────────────

/// The totals the simulator reports at the end, times in microseconds.
#[derive(Debug, Clone, Copy, PartialEq, Eq, Structural)]
pub struct DiskIOMetricsResult {
    pub total_reads: u64,
    pub total_writes: u64,
    pub total_blocks_processed: u64,
    pub total_cylinders_traveled: u64,
    pub total_io_time_us: u64,
    pub total_seek_time_us: u64,
    pub total_rotational_latency_us: u64,
    pub total_transfer_time_us: u64,
}

/// How an access of consecutive blocks moves the disk head.
#[derive(Debug, Clone, Copy, PartialEq, Eq, Structural)]
pub struct IoMotion {
    /// Cylinders between the head and the first block.
    pub distance: u64,
    /// Cylinders between the first and the last block.
    pub cylinders_crossed: u64,
    /// The access starts right after the previous one ended.
    pub is_sequential: bool,
    /// The bytes transferred.
    pub total_bytes: u64,
    pub end_cylinder: u64,
    pub end_block: u64,
}

/// The time an access takes, in nanoseconds: seeking (crossings
/// included), rotation, and transfer.
#[derive(Debug, Clone, Copy, PartialEq, Eq, Structural)]
pub struct IoTimes {
    pub seek_ns: u64,
    pub rot_ns: u64,
    pub transfer_ns: u64,
}

/// The simulator's running account of the disk head and the time spent.
#[derive(Debug, Clone, Copy, PartialEq, Eq, Structural)]
pub struct DiskIOMetricsSimulator {
    pub block_size: u64,
    pub blocks_per_cylinder: u64,
    pub current_cylinder: u64,
    pub last_end_block: u64,
    pub total_reads: u64,
    pub total_writes: u64,
    pub total_io_time_ns: u64,
    pub total_seek_time_ns: u64,
    pub total_rotational_latency_ns: u64,
    pub total_transfer_time_ns: u64,
    pub total_cylinders_traveled: u64,
    pub total_blocks_processed: u64,
}

/// The distance between two numbers.
pub open spec fn abs_diff(a: u64, b: u64) -> u64 {
    if a >= b { (a - b) as u64 } else { (b - a) as u64 }
}

/// The motion of reading or writing `num` blocks from `start` (at least
/// one block).
pub open spec fn motion_of(m: DiskIOMetricsSimulator, start: u64, num: u64) -> IoMotion {
    let end_block = (start + num - 1) as u64;
    let start_cyl = start / m.blocks_per_cylinder;
    let end_cyl = end_block / m.blocks_per_cylinder;
    IoMotion {
        distance: abs_diff(m.current_cylinder, start_cyl),
        cylinders_crossed: abs_diff(end_cyl, start_cyl),
        is_sequential: start == m.last_end_block + 1,
        total_bytes: (num * m.block_size) as u64,
        end_cylinder: end_cyl,
        end_block,
    }
}

/// The account after an access of this motion and these times.
pub open spec fn after_access(m: DiskIOMetricsSimulator, mo: IoMotion, t: IoTimes, num: u64) -> DiskIOMetricsSimulator {
    DiskIOMetricsSimulator {
        total_blocks_processed: (m.total_blocks_processed + num) as u64,
        total_cylinders_traveled: (m.total_cylinders_traveled + mo.distance + mo.cylinders_crossed) as u64,
        total_seek_time_ns: (m.total_seek_time_ns + t.seek_ns) as u64,
        total_rotational_latency_ns: (m.total_rotational_latency_ns + t.rot_ns) as u64,
        total_transfer_time_ns: (m.total_transfer_time_ns + t.transfer_ns) as u64,
        total_io_time_ns: (m.total_io_time_ns + t.seek_ns + t.rot_ns + t.transfer_ns) as u64,
        current_cylinder: mo.end_cylinder,
        last_end_block: mo.end_block,
        ..m
    }
}

/// The access can be accounted without a count overflowing.
pub open spec fn access_fits(m: DiskIOMetricsSimulator, start: u64, num: u64, t: IoTimes) -> bool {
    let mo = motion_of(m, start, num);
    &&& start + num - 1 <= u64::MAX
    &&& num * m.block_size <= u64::MAX
    &&& m.last_end_block < u64::MAX
    &&& m.total_blocks_processed + num <= u64::MAX
    &&& m.total_cylinders_traveled + mo.distance + mo.cylinders_crossed <= u64::MAX
    &&& m.total_seek_time_ns + t.seek_ns <= u64::MAX
    &&& m.total_rotational_latency_ns + t.rot_ns <= u64::MAX
    &&& m.total_transfer_time_ns + t.transfer_ns <= u64::MAX
    &&& m.total_io_time_ns + t.seek_ns + t.rot_ns + t.transfer_ns <= u64::MAX
}

/// The account with one more read.
pub open spec fn counted_reads(m: DiskIOMetricsSimulator) -> DiskIOMetricsSimulator {
    DiskIOMetricsSimulator { total_reads: (m.total_reads + 1) as u64, ..m }
}

/// The account with one more write.
pub open spec fn counted_writes(m: DiskIOMetricsSimulator) -> DiskIOMetricsSimulator {
    DiskIOMetricsSimulator { total_writes: (m.total_writes + 1) as u64, ..m }
}

/// The account only grows: an access adds to every total and the
/// counts of blocks and cylinders.
pub proof fn lemma_totals_grow(m: DiskIOMetricsSimulator, start: u64, num: u64, t: IoTimes)
    requires
        access_fits(m, start, num, t),
    ensures
        ({
            let a = after_access(m, motion_of(m, start, num), t, num);
            &&& a.total_blocks_processed == m.total_blocks_processed + num
            &&& a.total_io_time_ns == m.total_io_time_ns + t.seek_ns + t.rot_ns + t.transfer_ns
            &&& a.total_io_time_ns >= m.total_io_time_ns
            &&& a.total_cylinders_traveled >= m.total_cylinders_traveled
            &&& a.total_reads == m.total_reads
            &&& a.total_writes == m.total_writes
        }),
{
}

/// Rounds nanoseconds to microseconds.
pub open spec fn ns_to_us(ns: u64) -> u64 {
    ((ns + 500) / 1000) as u64
}

impl DiskIOMetricsSimulator {
    /// A fresh account for a disk of `block_size`-byte blocks with
    /// `blocks_per_track` blocks per track and `heads_per_cylinder` heads.
    pub fn new(block_size: u64, blocks_per_track: u64, heads_per_cylinder: u64) -> (r: DiskIOMetricsSimulator)
        requires
            blocks_per_track > 0,
            heads_per_cylinder > 0,
            blocks_per_track * heads_per_cylinder <= u64::MAX,
        ensures
            r.block_size == block_size,
            r.blocks_per_cylinder == blocks_per_track * heads_per_cylinder,
            r.blocks_per_cylinder > 0,
            r.current_cylinder == 0,
            r.last_end_block == 0,
            r.total_reads == 0,
            r.total_writes == 0,
            r.total_io_time_ns == 0,
            r.total_seek_time_ns == 0,
            r.total_rotational_latency_ns == 0,
            r.total_transfer_time_ns == 0,
            r.total_cylinders_traveled == 0,
            r.total_blocks_processed == 0,
    {
        assert(blocks_per_track * heads_per_cylinder > 0) by (nonlinear_arith)
            requires blocks_per_track > 0, heads_per_cylinder > 0;
        DiskIOMetricsSimulator {
            block_size,
            blocks_per_cylinder: blocks_per_track * heads_per_cylinder,
            current_cylinder: 0,
            last_end_block: 0,
            total_reads: 0,
            total_writes: 0,
            total_io_time_ns: 0,
            total_seek_time_ns: 0,
            total_rotational_latency_ns: 0,
            total_transfer_time_ns: 0,
            total_cylinders_traveled: 0,
            total_blocks_processed: 0,
        }
    }

    /// How an access of `num` blocks from `start` moves the head; `None`
    /// for an access of no block.
    pub fn motion(&self, start: u64, num: u64) -> (r: Option<IoMotion>)
        requires
            self.blocks_per_cylinder > 0,
            num > 0 ==> start + num - 1 <= u64::MAX && num * self.block_size <= u64::MAX && self.last_end_block < u64::MAX,
        ensures
            num == 0 ==> r is None,
            num > 0 ==> r == Some(motion_of(*self, start, num)),
    {
        if num == 0 {
            return None;
        }
        let end_block = start + (num - 1);
        let start_cyl = start / self.blocks_per_cylinder;
        let end_cyl = end_block / self.blocks_per_cylinder;
        let distance = if self.current_cylinder >= start_cyl { self.current_cylinder - start_cyl } else { start_cyl - self.current_cylinder };
        let crossed = if end_cyl >= start_cyl { end_cyl - start_cyl } else { start_cyl - end_cyl };
        Some(IoMotion {
            distance,
            cylinders_crossed: crossed,
            is_sequential: start == self.last_end_block + 1,
            total_bytes: num * self.block_size,
            end_cylinder: end_cyl,
            end_block,
        })
    }

    fn account(&mut self, start: u64, num: u64, times: IoTimes)
        requires
            old(self).blocks_per_cylinder > 0,
            num > 0,
            access_fits(*old(self), start, num, times),
        ensures
            *final(self) == after_access(*old(self), motion_of(*old(self), start, num), times, num),
    {
        let mo = match self.motion(start, num) {
            Some(m) => m,
            None => { return; },
        };
        self.total_blocks_processed = self.total_blocks_processed + num;
        self.total_cylinders_traveled = self.total_cylinders_traveled + mo.distance + mo.cylinders_crossed;
        self.total_seek_time_ns = self.total_seek_time_ns + times.seek_ns;
        self.total_rotational_latency_ns = self.total_rotational_latency_ns + times.rot_ns;
        self.total_transfer_time_ns = self.total_transfer_time_ns + times.transfer_ns;
        self.total_io_time_ns = self.total_io_time_ns + times.seek_ns + times.rot_ns + times.transfer_ns;
        self.current_cylinder = mo.end_cylinder;
        self.last_end_block = mo.end_block;
    }

    /// Whether an access of `num` (at least one) blocks from `start` that
    /// took `times` can be accounted without a count overflowing.
    pub fn fits(&self, start: u64, num: u64, times: IoTimes) -> (r: bool)
        requires
            self.blocks_per_cylinder > 0,
        ensures
            r == (num > 0 && access_fits(*self, start, num, times)),
    {
        if num == 0 {
            return false;
        }
        if (start as u128) + (num as u128) - 1 > u64::MAX as u128 {
            return false;
        }
        assert((num as u128) * (self.block_size as u128) <= 0xffff_ffff_ffff_ffffu128 * 0xffff_ffff_ffff_ffffu128) by (nonlinear_arith)
            requires num <= 0xffff_ffff_ffff_ffffu64, self.block_size <= 0xffff_ffff_ffff_ffffu64;
        if (num as u128) * (self.block_size as u128) > u64::MAX as u128 {
            return false;
        }
        if self.last_end_block == u64::MAX {
            return false;
        }
        let mo = match self.motion(start, num) {
            Some(m) => m,
            None => { return false; },
        };
        let max = u64::MAX as u128;
        (self.total_blocks_processed as u128) + (num as u128) <= max
            && (self.total_cylinders_traveled as u128) + (mo.distance as u128) + (mo.cylinders_crossed as u128) <= max
            && (self.total_seek_time_ns as u128) + (times.seek_ns as u128) <= max
            && (self.total_rotational_latency_ns as u128) + (times.rot_ns as u128) <= max
            && (self.total_transfer_time_ns as u128) + (times.transfer_ns as u128) <= max
            && (self.total_io_time_ns as u128) + (times.seek_ns as u128) + (times.rot_ns as u128)
                + (times.transfer_ns as u128) <= max
    }

    /// Accounts a read of `num` blocks from `start` that took `times`
    /// (given exactly when at least one block is read).
    pub fn update_read_on(&mut self, start: u64, num: u64, times: Option<IoTimes>)
        requires
            old(self).blocks_per_cylinder > 0,
            old(self).total_reads < u64::MAX,
            num == 0 <==> times is None,
            times matches Some(t) ==> access_fits(*old(self), start, num, t),
        ensures
            num == 0 ==> *final(self) == counted_reads(*old(self)),
            times matches Some(t) ==> *final(self) == after_access(counted_reads(*old(self)), motion_of(*old(self), start, num), t, num),
    {
        self.total_reads = self.total_reads + 1;
        match times {
            Some(t) => self.account(start, num, t),
            None => {},
        }
    }

    /// Accounts a write of `num` blocks from `start` that took `times`
    /// (given exactly when at least one block is written).
    pub fn update_write_on(&mut self, start: u64, num: u64, times: Option<IoTimes>)
        requires
            old(self).blocks_per_cylinder > 0,
            old(self).total_writes < u64::MAX,
            num == 0 <==> times is None,
            times matches Some(t) ==> access_fits(*old(self), start, num, t),
        ensures
            num == 0 ==> *final(self) == counted_writes(*old(self)),
            times matches Some(t) ==> *final(self) == after_access(counted_writes(*old(self)), motion_of(*old(self), start, num), t, num),
    {
        self.total_writes = self.total_writes + 1;
        match times {
            Some(t) => self.account(start, num, t),
            None => {},
        }
    }

    /// The totals so far, times rounded to microseconds.
    pub fn get_current_metrics(&self) -> (r: DiskIOMetricsResult)
        requires
            self.total_io_time_ns + 500 <= u64::MAX,
            self.total_seek_time_ns + 500 <= u64::MAX,
            self.total_rotational_latency_ns + 500 <= u64::MAX,
            self.total_transfer_time_ns + 500 <= u64::MAX,
        ensures
            r == (DiskIOMetricsResult {
                total_reads: self.total_reads,
                total_writes: self.total_writes,
                total_blocks_processed: self.total_blocks_processed,
                total_cylinders_traveled: self.total_cylinders_traveled,
                total_io_time_us: ns_to_us(self.total_io_time_ns),
                total_seek_time_us: ns_to_us(self.total_seek_time_ns),
                total_rotational_latency_us: ns_to_us(self.total_rotational_latency_ns),
                total_transfer_time_us: ns_to_us(self.total_transfer_time_ns),
            }),
    {
        DiskIOMetricsResult {
            total_reads: self.total_reads,
            total_writes: self.total_writes,
            total_blocks_processed: self.total_blocks_processed,
            total_cylinders_traveled: self.total_cylinders_traveled,
            total_io_time_us: (self.total_io_time_ns + 500) / 1000,
            total_seek_time_us: (self.total_seek_time_ns + 500) / 1000,
            total_rotational_latency_us: (self.total_rotational_latency_ns + 500) / 1000,
            total_transfer_time_us: (self.total_transfer_time_ns + 500) / 1000,
        }
    }
}

} // verus!

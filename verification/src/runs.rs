//! Spilling rows to scratch runs and reading them back, one step at a time.
use vstd::prelude::*;
use crate::buffer_pool::{BufferPool, DiskRequest};
use crate::data::{Data, DataType, Value};
use crate::disk_run::{Run, packable, pack_rows, rows_bytes, rows_to_run_buffer, encoded_row_size, run_image};
use crate::row::{Row, rows_view, row_size, decode_block_with_mask, count_true, decode_block_spec};

verus! {

/// A row of `types.len()` values, each of its column's type.
pub open spec fn conforms(r: Seq<Value>, types: Seq<DataType>) -> bool {
    &&& r.len() == types.len()
    &&& forall|i: int| 0 <= i < r.len() ==> (#[trigger] r[i]).data_type() == types[i]
}

pub open spec fn all_conform(rows: Seq<Seq<Value>>, types: Seq<DataType>) -> bool {
    forall|i: int| 0 <= i < rows.len() ==> conforms(#[trigger] rows[i], types)
}

/// Whether a row has one value of each column's type.
pub fn row_conforms(row: &Row, types: &Vec<DataType>) -> (r: bool)
    ensures
        r == conforms(row@, types@),
{
    if row.values.len() != types.len() {
        return false;
    }
    let mut i: usize = 0;
    while i < types.len()
        invariant
            i <= types.len(),
            row@.len() == types@.len(),
            forall|k: int| 0 <= k < i ==> (#[trigger] row@[k]).data_type() == types@[k],
        decreases types.len() - i,
    {
        if row.values[i].data_type() != types[i] {
            assert(row@[i as int].data_type() != types@[i as int]);
            return false;
        }
        i += 1;
    }
    true
}

/// The smallest block payload a row can need is zero bytes, so a run is
/// writable only when each row fits a block and no block would record more
/// than 65535 rows.  Whether the rows can be packed into blocks of `block_size`.
pub fn check_packable(rows: &Vec<Row>, block_size: usize) -> (r: bool)
    ensures
        r == packable(rows_view(rows@), block_size as nat),
{
    if block_size < 2 {
        return false;
    }
    let usable = block_size - 2;
    let ghost rv = rows_view(rows@);
    let mut cur_bytes: usize = 0;
    let mut cur_count: usize = 0;
    let mut i: usize = 0;
    assert(rv.subrange(0, 0) =~= Seq::<Seq<Value>>::empty());
    assert(pack_rows(Seq::<Seq<Value>>::empty(), usable as nat) =~= seq![Seq::<Seq<Value>>::empty()]);
    while i < rows.len()
        invariant
            i <= rows.len(),
            usable == block_size - 2,
            block_size >= 2,
            rv == rows_view(rows@),
            forall|j: int| 0 <= j < i ==> row_size(#[trigger] rv[j]) <= usable,
            cur_bytes as nat == rows_bytes(pack_rows(rv.subrange(0, i as int), usable as nat).last()),
            cur_count as nat == pack_rows(rv.subrange(0, i as int), usable as nat).last().len(),
            cur_bytes <= usable,
            cur_count <= 0xffff,
            forall|k: int| 0 <= k < pack_rows(rv.subrange(0, i as int), usable as nat).len() ==> (#[trigger] pack_rows(rv.subrange(0, i as int), usable as nat)[k]).len() <= 0xffff,
            pack_rows(rv.subrange(0, i as int), usable as nat).len() >= 1,
        decreases rows.len() - i,
    {
        let ghost pre = rv.subrange(0, i as int);
        let ghost next = rv.subrange(0, i + 1);
        assert(next.drop_last() =~= pre);
        assert(next.last() == rv[i as int]);
        let sz = row_size_within(&rows[i], usable);
        match sz {
            None => {
                proof {
                    assert(row_size(rv[i as int]) > usable);
                    assert(!packable(rv, block_size as nat));
                }
                return false;
            },
            Some(s) => {
                let ghost p = pack_rows(pre, usable as nat);
                if s > usable - cur_bytes {
                    cur_bytes = s;
                    cur_count = 1;
                    proof {
                        let np = pack_rows(next, usable as nat);
                        assert(np == p.push(seq![rv[i as int]]));
                        assert(seq![rv[i as int]].drop_last() =~= Seq::<Seq<Value>>::empty());
                        assert(seq![rv[i as int]].last() == rv[i as int]);
                        assert(np.last() == seq![rv[i as int]]);
                        assert(s as nat == row_size(rv[i as int]));
                        crate::disk_run::lemma_rows_encoding_single(rv[i as int]);
                        assert(cur_bytes as nat == rows_bytes(np.last()));
                        assert forall|k: int| 0 <= k < np.len() implies (#[trigger] np[k]).len() <= 0xffff by {
                            if k < p.len() { assert(np[k] == p[k]); }
                        }
                    }
                } else {
                    if cur_count >= 0xffff {
                        proof {
                            let np = pack_rows(next, usable as nat);
                            assert(np == p.update(p.len() - 1, p.last().push(rv[i as int])));
                            assert(np[p.len() - 1].len() > 0xffff);
                            lemma_pack_prefix_count(rv, (i + 1) as nat, usable as nat, (p.len() - 1) as int);
                            let j = choose|j: int| 0 <= j < pack_rows(rv, usable as nat).len() && #[trigger] pack_rows(rv, usable as nat)[j].len() > 0xffff;
                            assert(pack_rows(rv, (block_size - 2) as nat)[j].len() > 0xffff);
                            assert(!packable(rv, block_size as nat));
                        }
                        return false;
                    }
                    cur_bytes = cur_bytes + s;
                    cur_count = cur_count + 1;
                    proof {
                        let np = pack_rows(next, usable as nat);
                        assert(np == p.update(p.len() - 1, p.last().push(rv[i as int])));
                        assert(np.last() == p.last().push(rv[i as int]));
                        assert(p.last().push(rv[i as int]).drop_last() =~= p.last());
                        assert(p.last().push(rv[i as int]).last() == rv[i as int]);
                        assert(s as nat == row_size(rv[i as int]));
                        assert(rows_bytes(p.last().push(rv[i as int])) == rows_bytes(p.last()) + row_size(rv[i as int]));
                        assert(cur_bytes as nat == rows_bytes(np.last()));
                        assert forall|k: int| 0 <= k < np.len() implies (#[trigger] np[k]).len() <= 0xffff by {
                            if k < p.len() - 1 { assert(np[k] == p[k]); }
                        }
                    }
                }
            },
        }
        i += 1;
    }
    proof {
        assert(rv.subrange(0, i as int) =~= rv);
    }
    true
}

/// A block of the packing of a prefix that holds more than 65535 rows is
/// still that crowded in the packing of all the rows.
proof fn lemma_pack_prefix_count(rows: Seq<Seq<Value>>, n: nat, usable: nat, k: int)
    requires
        n <= rows.len(),
        0 <= k < pack_rows(rows.subrange(0, n as int), usable).len(),
        pack_rows(rows.subrange(0, n as int), usable)[k].len() > 0xffff,
    ensures
        exists|j: int| 0 <= j < pack_rows(rows, usable).len() && #[trigger] pack_rows(rows, usable)[j].len() > 0xffff,
    decreases rows.len() - n,
{
    if n == rows.len() {
        assert(rows.subrange(0, n as int) =~= rows);
        assert(pack_rows(rows, usable)[k].len() > 0xffff);
    } else {
        let pre = rows.subrange(0, n as int);
        let next = rows.subrange(0, n + 1int);
        assert(next.drop_last() =~= pre);
        let p = pack_rows(pre, usable);
        let np = pack_rows(next, usable);
        if k < p.len() - 1 {
            assert(np[k] == p[k]);
        } else {
            assert(np[k].len() >= p[k].len());
        }
        lemma_pack_prefix_count(rows, n + 1, usable, k);
    }
}

/// The encoded size of a row, or `None` when it exceeds `limit`.
pub fn row_size_within(row: &Row, limit: usize) -> (r: Option<usize>)
    ensures
        match r {
            Some(s) => s as nat == row_size(row@) && s <= limit,
            None => row_size(row@) > limit,
        },
{
    let mut total: usize = 0;
    let mut i: usize = 0;
    while i < row.values.len()
        invariant
            i <= row.values.len(),
            total <= limit,
            total as nat == row_size(row@.take(i as int)),
        decreases row.values.len() - i,
    {
        assert(row@.take(i + 1).drop_last() =~= row@.take(i as int));
        assert(row@.take(i + 1).last() == row.values@[i as int]@);
        let room = limit - total;
        let sz: usize = match &row.values[i] {
            Data::Int32(_) => 4,
            Data::Int64(_) => 8,
            Data::Float32(_) => 4,
            Data::Float64(_) => 8,
            Data::String(v) => {
                if v.len() >= room {
                    proof { crate::disk_run::lemma_row_size_prefix(row@, (i + 1) as nat); }
                    return None;
                }
                v.len() + 1
            },
        };
        if sz > room {
            proof { crate::disk_run::lemma_row_size_prefix(row@, (i + 1) as nat); }
            return None;
        }
        total = total + sz;
        i += 1;
    }
    assert(row@.take(i as int) =~= row@);
    Some(total)
}

/// Writes rows to a fresh scratch run.  `None` while the scratch region's
/// start is unknown (the pool has asked the disk).
pub fn spill_rows(pool: &mut BufferPool, rows: &Vec<Row>) -> (r: Option<Run>)
    requires
        old(pool).wf(),
        packable(rows_view(rows@), old(pool).spec_block_size() as nat),
    ensures
        final(pool).wf(),
        final(pool).spec_block_size() == old(pool).spec_block_size(),
        final(pool).spec_num_frames() == old(pool).spec_num_frames(),
        match r {
            Some(run) => {
                &&& run.num_rows == rows@.len()
                &&& run.block_ids@.len() * old(pool).spec_block_size() == run_image(rows_view(rows@), old(pool).spec_block_size() as nat).len()
                &&& forall|k: int| 0 <= k < run.block_ids@.len() ==> #[trigger] run.block_ids@[k] == run.block_ids@[0].wrapping_add(k as u64)
                &&& final(pool).writes() == if run.block_ids@.len() == 0 {
                    old(pool).writes()
                } else {
                    old(pool).writes().push((run.block_ids@[0], run_image(rows_view(rows@), old(pool).spec_block_size() as nat)))
                }
            },
            None => final(pool).request() == Some(crate::buffer_pool::DiskRequest::AnonStartBlock)
                && final(pool).writes() == old(pool).writes(),
        },
{
    let block_size = pool.block_size();
    let raw = rows_to_run_buffer(rows.as_slice(), block_size);
    let ghost k = crate::disk_run::run_blocks(rows_view(rows@), block_size as nat);
    proof {
        crate::disk_run::lemma_run_image_len(rows_view(rows@), block_size as nat);
        assert(block_size >= 2);
        vstd::arithmetic::div_mod::lemma_div_multiples_vanish(k as int, block_size as int);
        assert(raw@.len() == block_size * k) by (nonlinear_arith)
            requires raw@.len() == k * block_size;
    }
    let n = raw.len() / block_size;
    assert(raw@.len() == n * block_size) by (nonlinear_arith)
        requires raw@.len() == block_size * k, n as int == (raw@.len() as int) / (block_size as int), ((block_size * k) as int) / (block_size as int) == k, block_size > 0;
    match pool.write_raw_run_blocks(raw.as_slice(), n) {
        Some(ids) => Some(Run { block_ids: ids, num_rows: rows.len() }),
        None => None,
    }
}

/// What reading the next row of a run gave.
pub enum Fetch {
    Row(Row),
    End,
    /// The pool recorded a request for the disk; call again once answered.
    Blocked,
    /// Progress was made without a row; call again.
    Pending,
}

/// Reads a run back, block by block, reading up to `prefetch_blocks`
/// consecutive blocks at a time.
#[derive(Debug)]
pub struct RunReader {
    run: Run,
    types: Vec<DataType>,
    mask: Vec<bool>,
    /// The next block of the run to read.
    next_block: usize,
    /// Blocks read but not yet decoded: their bytes, and how many.
    raw: Vec<u8>,
    raw_count: usize,
    raw_pos: usize,
    /// Decoded rows of the current block, and the next to hand out.
    rows: Vec<Row>,
    row_pos: usize,
    prefetch_blocks: usize,
}

impl RunReader {
    pub closed spec fn out_types(&self) -> Seq<DataType> {
        self.types@
    }

    pub closed spec fn spec_run(&self) -> Run {
        self.run
    }

    /// The rows decoded and not yet handed out, next first.
    pub closed spec fn buffered(&self) -> Seq<Seq<Value>> {
        if self.row_pos <= self.rows@.len() {
            rows_view(self.rows@).subrange(self.row_pos as int, self.rows@.len() as int)
        } else {
            Seq::empty()
        }
    }

    /// The bytes read from the disk and not yet decoded, block after block.
    pub closed spec fn pending_bytes(&self, bs: nat) -> Seq<u8> {
        self.raw@.subrange(self.raw_pos * bs, self.raw_count * bs)
    }

    /// Whether a block read from the disk waits to be decoded.
    pub closed spec fn has_undecoded(&self) -> bool {
        self.raw_pos < self.raw_count
    }

    /// How many of the run's blocks have been read from the disk.
    pub closed spec fn blocks_read(&self) -> nat {
        self.next_block as nat
    }

    /// The number of blocks the next read asks for: the stretch of
    /// consecutive IDs from the next unread block, at most the prefetch.
    pub closed spec fn next_read_count(&self) -> int {
        stretch_from(self.run.block_ids@, self.next_block as int, 1, self.prefetch_blocks as int)
    }

    /// Nothing more to hand out: no decoded row, no undecoded block, and
    /// every block of the run read.
    pub open spec fn exhausted(&self) -> bool {
        &&& self.buffered().len() == 0
        &&& !self.has_undecoded()
        &&& self.blocks_read() >= self.spec_run().block_ids@.len()
    }

    /// How far the reader is from the end: blocks left to read, blocks
    /// left to decode, rows left to hand out.
    pub closed spec fn progress(&self) -> (int, int, int, int) {
        (
            if self.next_block < self.run.block_ids@.len() { self.run.block_ids@.len() - self.next_block } else { 0 },
            self.raw_count - self.raw_pos,
            self.buffered().len() as int,
            0,
        )
    }

    /// The run being read.
    pub fn run(&self) -> (r: &Run)
        ensures
            *r == self.spec_run(),
    {
        &self.run
    }

    pub closed spec fn wf(&self, block_size: nat) -> bool {
        &&& self.mask@.len() == self.types@.len()
        &&& forall|i: int| 0 <= i < self.mask@.len() ==> #[trigger] self.mask@[i]
        &&& self.raw_pos <= self.raw_count
        &&& self.raw@.len() == self.raw_count * block_size
        &&& self.row_pos <= self.rows@.len()
        &&& self.prefetch_blocks >= 1
        &&& forall|i: int| self.row_pos <= i < self.rows@.len() ==> conforms(#[trigger] rows_view(self.rows@)[i], self.types@)
    }

    /// A reader of `run`, whose rows have the given column types.
    pub fn new_with_prefetch(run: Run, types: Vec<DataType>, prefetch_blocks: usize) -> (r: RunReader)
        ensures
            forall|b: nat| #[trigger] r.wf(b),
            r.out_types() == types@,
            r.spec_run() == run,
    {
        let mut mask: Vec<bool> = Vec::with_capacity(types.len());
        let mut i: usize = 0;
        while i < types.len()
            invariant
                i <= types.len(),
                mask@.len() == i,
                forall|k: int| 0 <= k < i ==> #[trigger] mask@[k],
            decreases types.len() - i,
        {
            mask.push(true);
            i += 1;
        }
        let r = RunReader {
            run,
            types,
            mask,
            next_block: 0,
            raw: Vec::new(),
            raw_count: 0,
            raw_pos: 0,
            rows: Vec::new(),
            row_pos: 0,
            prefetch_blocks: if prefetch_blocks == 0 { 1 } else { prefetch_blocks },
        };
        assert(rows_view(r.rows@) =~= Seq::<Seq<Value>>::empty());
        r
    }

    /// A reader that reads up to 128 blocks at a time.
    pub fn new(run: Run, types: Vec<DataType>) -> (r: RunReader)
        ensures
            forall|b: nat| #[trigger] r.wf(b),
            r.out_types() == types@,
            r.spec_run() == run,
    {
        Self::new_with_prefetch(run, types, 128)
    }

    /// The next row of the run.
    #[verifier::rlimit(30)]
    pub fn next_owned(&mut self, pool: &mut BufferPool) -> (r: Fetch)
        requires
            old(self).wf(old(pool).spec_block_size() as nat),
            old(pool).wf(),
        ensures
            final(self).wf(final(pool).spec_block_size() as nat),
            final(pool).wf(),
            final(pool).spec_block_size() == old(pool).spec_block_size(),
            final(pool).spec_num_frames() == old(pool).spec_num_frames(),
            final(self).out_types() == old(self).out_types(),
            final(self).spec_run() == old(self).spec_run(),
            r matches Fetch::Row(row) ==> conforms(row@, old(self).out_types()),
            old(self).buffered().len() > 0 ==> (r matches Fetch::Row(row) && row@ == old(self).buffered()[0]
                && final(self).buffered() == old(self).buffered().drop_first() && *final(pool) == *old(pool)),
            ({
                let bs = old(pool).spec_block_size() as nat;
                (old(self).buffered().len() == 0 && old(self).has_undecoded()) ==> {
                    &&& r is Pending
                    &&& *final(pool) == *old(pool)
                    &&& final(self).buffered() == decode_block_spec(old(self).pending_bytes(bs).take(bs as int),
                        old(self).out_types(), Seq::new(old(self).out_types().len(), |i: int| true), true).filter(
                        |row: Seq<Value>| conforms(row, old(self).out_types()))
                    &&& final(self).pending_bytes(bs) == old(self).pending_bytes(bs).skip(bs as int)
                    &&& final(self).blocks_read() == old(self).blocks_read()
                }
            }),
            (r is End) <==> old(self).exhausted(),
            r is End ==> *final(self) == *old(self) && *final(pool) == *old(pool),
            r is Blocked ==> *final(self) == *old(self) && final(pool).request() == Some(DiskRequest::ReadBlocks {
                start: old(self).spec_run().block_ids@[old(self).blocks_read() as int],
                count: old(self).next_read_count() as u64,
            }),
            (old(self).buffered().len() == 0 && !old(self).has_undecoded() && !old(self).exhausted()) ==> {
                &&& 1 <= old(self).next_read_count()
                &&& old(self).blocks_read() + old(self).next_read_count() <= old(self).spec_run().block_ids@.len()
                &&& (old(pool).answered() matches Some((s, c, _)) && s == old(self).spec_run().block_ids@[old(self).blocks_read() as int]
                    && c == old(self).next_read_count()) ==> r is Pending
                &&& r is Pending ==> (old(pool).answered() matches Some((s, c, d))
                    && s == old(self).spec_run().block_ids@[old(self).blocks_read() as int]
                    && c == old(self).next_read_count()
                    && final(self).pending_bytes(old(pool).spec_block_size() as nat) == d
                    && final(self).buffered().len() == 0
                    && final(self).blocks_read() == old(self).blocks_read() + old(self).next_read_count())
            },
            (r is Pending || r is Row) ==> crate::engine::lex_less(final(self).progress(), old(self).progress()),
    {
        let block_size = pool.block_size();
        if self.row_pos < self.rows.len() {
            let mut row = Row { values: Vec::new() };
            let ghost rv = rows_view(self.rows@);
            let ghost before = self.rows@;
            self.rows.set_and_swap(self.row_pos, &mut row);
            assert(row@ == rv[self.row_pos as int]);
            self.row_pos += 1;
            proof {
                assert forall|i: int| self.row_pos <= i < self.rows@.len() implies conforms(#[trigger] rows_view(self.rows@)[i], self.types@) by {
                    assert(rows_view(self.rows@)[i] == rv[i]);
                }
                assert(self.buffered() =~= old(self).buffered().drop_first());
            }
            return Fetch::Row(row);
        }
        // Decode the next block already read.
        if self.raw_pos < self.raw_count {
            let rl = self.raw.len();
            assert((self.raw_pos + 1) * block_size <= self.raw_count * block_size) by (nonlinear_arith)
                requires self.raw_pos < self.raw_count;
            assert((self.raw_pos + 1) * block_size == self.raw_pos * block_size + block_size) by (nonlinear_arith);
            let begin = self.raw_pos * block_size;
            let end = begin + block_size;
            let block = vstd::slice::slice_subrange(self.raw.as_slice(), begin, end);
            let decoded = decode_block_with_mask(block, self.types.as_slice(), self.mask.as_slice());
            let ghost pred = |row: Seq<Value>| conforms(row, self.types@);
            proof {
                assert(self.mask@ =~= Seq::new(self.types@.len(), |i: int| true));
                lemma_count_all_true(self.types@.len());
                assert(block@ =~= old(self).pending_bytes(block_size as nat).take(block_size as int));
                assert(rows_view(decoded@).subrange(0, 0) =~= Seq::<Seq<Value>>::empty());
                reveal(Seq::filter);
            }
            let mut kept: Vec<Row> = Vec::new();
            let mut k: usize = 0;
            while k < decoded.len()
                invariant
                    k <= decoded.len(),
                    all_conform(rows_view(kept@), self.types@),
                    rows_view(kept@) == rows_view(decoded@).subrange(0, k as int).filter(pred),
                    pred == (|row: Seq<Value>| conforms(row, self.types@)),
                decreases decoded.len() - k,
            {
                let ghost b = kept@;
                proof {
                    assert(rows_view(decoded@).subrange(0, k + 1).drop_last() =~= rows_view(decoded@).subrange(0, k as int));
                    assert(rows_view(decoded@).subrange(0, k + 1).last() == decoded@[k as int]@);
                    reveal(Seq::filter);
                }
                if row_conforms(&decoded[k], &self.types) {
                    kept.push(decoded[k].copy());
                    assert(rows_view(kept@) =~= rows_view(b).push(decoded@[k as int]@));
                } else {
                    assert(rows_view(kept@) =~= rows_view(b));
                }
                k += 1;
            }
            assert(rows_view(decoded@).subrange(0, k as int) =~= rows_view(decoded@));
            self.rows = kept;
            self.row_pos = 0;
            proof {
                assert forall|i: int| self.row_pos <= i < self.rows@.len() implies conforms(#[trigger] rows_view(self.rows@)[i], self.types@) by {}
            }
            self.raw_pos += 1;
            proof {
                assert(self.buffered() =~= rows_view(self.rows@));
                assert(self.pending_bytes(block_size as nat) =~= old(self).pending_bytes(block_size as nat).skip(block_size as int));
            }
            return Fetch::Pending;
        }
        if self.next_block >= self.run.block_ids.len() {
            return Fetch::End;
        }
        // Read the next stretch of consecutive blocks.
        let start_idx = self.next_block;
        let ids = &self.run.block_ids;
        let n = ids.len();
        let start_id = ids[start_idx];
        let mut count: usize = 1;
        let mut stop = false;
        while !stop && count < n - start_idx && count < self.prefetch_blocks
            invariant
                1 <= count,
                start_idx < n,
                n == ids@.len(),
                start_idx + count <= n,
                stretch_from(ids@, start_idx as int, 1, self.prefetch_blocks as int) == stretch_from(
                    ids@, start_idx as int, count as int, self.prefetch_blocks as int),
                stop ==> stretch_from(ids@, start_idx as int, count as int, self.prefetch_blocks as int) == count,
            decreases n - start_idx - count, if stop { 0int } else { 1int },
        {
            let prev = ids[start_idx + count - 1];
            let next = ids[start_idx + count];
            if prev == u64::MAX || next != prev + 1 {
                stop = true;
            } else {
                count += 1;
            }
        }
        assert(stretch_from(ids@, start_idx as int, count as int, self.prefetch_blocks as int) == count);
        assert(old(self).next_read_count() == count as int);
        assert(start_id == old(self).spec_run().block_ids@[old(self).blocks_read() as int]);
        assert(old(self).buffered().len() == 0 && !old(self).has_undecoded() && !old(self).exhausted());
        match pool.read_blocks_sequential(start_id, count as u64) {
            None => Fetch::Blocked,
            Some(raw) => {
                self.raw = raw;
                self.raw_count = count;
                self.raw_pos = 0;
                self.next_block = start_idx + count;
                proof {
                    assert(self.raw_pos * block_size == 0) by (nonlinear_arith)
                        requires self.raw_pos == 0;
                    assert(self.raw@.len() == self.raw_count * block_size);
                    assert(self.raw@.subrange(0, self.raw_count * block_size) =~= self.raw@);
                    assert(rows_view(self.rows@).subrange(self.row_pos as int, self.rows@.len() as int).len() == 0);
                    assert(self.pending_bytes(block_size as nat) == self.raw@);
                    assert(old(pool).answered() == Some((start_id, count as u64, self.raw@)));
                    assert(self.blocks_read() == old(self).blocks_read() + old(self).next_read_count());
                }
                Fetch::Pending
            },
        }
    }
}

impl RunReader {
    /// The next row, if one is decoded and waiting; `None` also while the
    /// next block still has to be read or decoded (see `next_owned`).
    pub fn peek(&self) -> (r: Option<&Row>)
        ensures
            match r {
                Some(row) => self.buffered().len() > 0 && row@ == self.buffered()[0],
                None => self.buffered().len() == 0,
            },
    {
        if self.row_pos < self.rows.len() {
            assert(self.buffered()[0] == rows_view(self.rows@)[self.row_pos as int]);
            Some(&self.rows[self.row_pos])
        } else {
            None
        }
    }

    /// Moves past the next row: what `next_owned` does, without handing the
    /// row out (`Pending` in its place).
    pub fn advance(&mut self, pool: &mut BufferPool) -> (r: Fetch)
        requires
            old(self).wf(old(pool).spec_block_size() as nat),
            old(pool).wf(),
        ensures
            final(self).wf(final(pool).spec_block_size() as nat),
            final(pool).wf(),
            final(pool).spec_block_size() == old(pool).spec_block_size(),
            final(pool).spec_num_frames() == old(pool).spec_num_frames(),
            final(self).out_types() == old(self).out_types(),
            final(self).spec_run() == old(self).spec_run(),
            !(r is Row),
            old(self).buffered().len() > 0 ==> (r is Pending && final(self).buffered()
                == old(self).buffered().drop_first() && *final(pool) == *old(pool)),
    {
        match self.next_owned(pool) {
            Fetch::Row(_) => Fetch::Pending,
            other => other,
        }
    }
}

/// The length of the stretch of consecutive IDs from `start`, counting
/// on from `c` of them, at most `max` long and within `ids`.
pub open spec fn stretch_from(ids: Seq<u64>, start: int, c: int, max: int) -> int
    decreases ids.len() - start - c,
{
    if c < ids.len() - start && c < max && ids[start + c - 1] != u64::MAX && ids[start + c] == ids[start + c - 1] + 1 {
        stretch_from(ids, start, c + 1, max)
    } else {
        c
    }
}

/// All of `n` marks set count `n`.
proof fn lemma_count_all_true(n: nat)
    ensures
        count_true(Seq::new(n, |i: int| true)) == n,
    decreases n,
{
    if n > 0 {
        lemma_count_all_true((n - 1) as nat);
        assert(Seq::new(n, |i: int| true).drop_last() =~= Seq::new((n - 1) as nat, |i: int| true));
    }
}

/// A copy of a list of block IDs.
pub fn copy_ids(v: &Vec<u64>) -> (r: Vec<u64>)
    ensures
        r@ == v@,
{
    let mut r: Vec<u64> = Vec::with_capacity(v.len());
    let mut i: usize = 0;
    while i < v.len()
        invariant
            i <= v.len(),
            r@ == v@.subrange(0, i as int),
        decreases v.len() - i,
    {
        r.push(v[i]);
        i += 1;
    }
    assert(r@ =~= v@);
    r
}

} // verus!

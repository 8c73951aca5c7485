//! Runs: sequences of rows spilled to scratch blocks, and their packing.
use vstd::prelude::*;
use crate::bytes::{le_bytes, lemma_le_bytes_len, push_le, lemma_pow256_values, lemma_le_roundtrip, le_value, pow256};
use crate::data::{DataType, Value};
use crate::row::{
    Row, encode_values, row_size, value_size, push_value, encoded_value_size, values_view,
    rows_view, lemma_encode_values_len, lemma_encode_values_append, decode_block_spec,
    decode_rows, decode_row_spec, block_row_count, types_of, strings_without_zero,
    lemma_row_roundtrip, lemma_single_value,
};

verus! {

/// Rows written to scratch blocks: the block IDs in order, and the number of
/// rows they hold.
#[derive(Debug)]
pub struct Run {
    pub block_ids: Vec<u64>,
    pub num_rows: usize,
}

impl Run {
    /// A copy of this run.
    pub fn copy(&self) -> (r: Run)
        ensures
            r.block_ids@ == self.block_ids@,
            r.num_rows == self.num_rows,
    {
        let mut ids: Vec<u64> = Vec::new();
        let mut i: usize = 0;
        while i < self.block_ids.len()
            invariant
                i <= self.block_ids.len(),
                ids@ == self.block_ids@.subrange(0, i as int),
            decreases self.block_ids.len() - i,
        {
            ids.push(self.block_ids[i]);
            i += 1;
            assert(ids@ =~= self.block_ids@.subrange(0, i as int));
        }
        assert(self.block_ids@.subrange(0, i as int) =~= self.block_ids@);
        Run { block_ids: ids, num_rows: self.num_rows }
    }
}

/// The total encoded size of a list of rows.
pub open spec fn rows_bytes(rows: Seq<Seq<Value>>) -> nat
    decreases rows.len(),
{
    if rows.len() == 0 {
        0
    } else {
        rows_bytes(rows.drop_last()) + row_size(rows.last())
    }
}

/// The encodings of a list of rows, one after the other.
pub open spec fn rows_encoding(rows: Seq<Seq<Value>>) -> Seq<u8>
    decreases rows.len(),
{
    if rows.len() == 0 {
        Seq::empty()
    } else {
        rows_encoding(rows.drop_last()) + encode_values(rows.last())
    }
}

/// How rows are laid out in blocks of `usable` payload bytes: in order,
/// a row going to a new block when it does not fit in what is left of the
/// current one.  The last block is the one being filled.
pub open spec fn pack_rows(rows: Seq<Seq<Value>>, usable: nat) -> Seq<Seq<Seq<Value>>>
    decreases rows.len(),
{
    if rows.len() == 0 {
        seq![Seq::empty()]
    } else {
        let p = pack_rows(rows.drop_last(), usable);
        let r = rows.last();
        let cur = p.last();
        if rows_bytes(cur) + row_size(r) > usable {
            p.push(seq![r])
        } else {
            p.update(p.len() - 1, cur.push(r))
        }
    }
}

/// The bytes of a block holding `rows`: their encodings, zero padding, and
/// the row count in the last two bytes.
pub open spec fn block_image(rows: Seq<Seq<Value>>, block_size: nat) -> Seq<u8> {
    let payload = rows_encoding(rows);
    payload + Seq::new((block_size - 2 - payload.len()) as nat, |i: int| 0u8) + le_bytes(
        rows.len(),
        2,
    )
}

/// The bytes of a list of blocks, one after the other.
pub open spec fn blocks_image(blocks: Seq<Seq<Seq<Value>>>, block_size: nat) -> Seq<u8>
    decreases blocks.len(),
{
    if blocks.len() == 0 {
        Seq::empty()
    } else {
        blocks_image(blocks.drop_last(), block_size) + block_image(blocks.last(), block_size)
    }
}

/// The bytes a run of `rows` takes: nothing for no rows, else the blocks of
/// their packing.
pub open spec fn run_image(rows: Seq<Seq<Value>>, block_size: nat) -> Seq<u8> {
    if rows.len() == 0 {
        Seq::empty()
    } else {
        blocks_image(pack_rows(rows, (block_size - 2) as nat), block_size)
    }
}

/// The packing can be written: every row fits in a block, and no block
/// holds more rows than its two-byte count can record.
pub open spec fn packable(rows: Seq<Seq<Value>>, block_size: nat) -> bool {
    &&& block_size >= 2
    &&& forall|i: int| 0 <= i < rows.len() ==> row_size(#[trigger] rows[i]) <= block_size - 2
    &&& forall|k: int|
        0 <= k < pack_rows(rows, (block_size - 2) as nat).len() ==> (#[trigger] pack_rows(
            rows,
            (block_size - 2) as nat,
        )[k]).len() <= 0xffff
}

pub proof fn lemma_pack_shape(rows: Seq<Seq<Value>>, usable: nat)
    requires
        forall|i: int| 0 <= i < rows.len() ==> row_size(#[trigger] rows[i]) <= usable,
    ensures
        pack_rows(rows, usable).len() >= 1,
        rows_bytes(pack_rows(rows, usable).last()) <= usable,
        forall|k: int|
            0 <= k < pack_rows(rows, usable).len() ==> rows_bytes(
                #[trigger] pack_rows(rows, usable)[k],
            ) <= usable,
        rows.len() > 0 ==> pack_rows(rows, usable).last().len() > 0,
    decreases rows.len(),
{
    if rows.len() > 0 {
        let pre = rows.drop_last();
        assert forall|i: int| 0 <= i < pre.len() implies row_size(#[trigger] pre[i]) <= usable by {
            assert(pre[i] == rows[i]);
        }
        lemma_pack_shape(pre, usable);
        let p = pack_rows(pre, usable);
        let r = rows.last();
        assert(row_size(r) <= usable) by {
            assert(r == rows[rows.len() - 1]);
        }
        let cur = p.last();
        assert(seq![r].drop_last() =~= Seq::<Seq<Value>>::empty());
        assert(cur.push(r).drop_last() =~= cur);
        let np = pack_rows(rows, usable);
        assert forall|k: int| 0 <= k < np.len() implies rows_bytes(#[trigger] np[k]) <= usable by {
            if k < p.len() - 1 {
                assert(np[k] == p[k]);
            } else if k == p.len() - 1 {
                if rows_bytes(cur) + row_size(r) > usable {
                    assert(np[k] == p[k]);
                } else {
                    assert(np[k] == cur.push(r));
                    assert(cur.push(r).last() == r);
                    assert(rows_bytes(cur.push(r)) == rows_bytes(cur) + row_size(r));
                }
            } else {
                assert(np[k] == seq![r]);
                assert(rows_bytes(seq![r]) == rows_bytes(Seq::<Seq<Value>>::empty()) + row_size(r));
            }
        }
    }
}

/// The encoded size of a row.
pub fn encoded_row_size(row: &Row) -> (r: usize)
    requires
        row_size(row@) <= usize::MAX,
    ensures
        r as nat == row_size(row@),
{
    let mut total: usize = 0;
    let mut i: usize = 0;
    while i < row.values.len()
        invariant
            i <= row.values.len(),
            row_size(row@) <= usize::MAX,
            total as nat == row_size(values_view(row.values@.subrange(0, i as int))),
        decreases row.values.len() - i,
    {
        let ghost pre = values_view(row.values@.subrange(0, i as int));
        let ghost cur = values_view(row.values@.subrange(0, i + 1));
        assert(cur.drop_last() =~= pre);
        proof {
            lemma_row_size_prefix(row@, (i + 1) as nat);
            assert(row@.take(i + 1) =~= cur);
        }
        let s = encoded_value_size(&row.values[i]);
        total = total + s;
        i += 1;
    }
    assert(row.values@.subrange(0, i as int) =~= row.values@);
    total
}

pub proof fn lemma_row_size_prefix(vs: Seq<Value>, k: nat)
    requires
        k <= vs.len(),
    ensures
        row_size(vs.take(k as int)) <= row_size(vs),
        forall|j: int| 0 <= j < vs.len() ==> value_size(#[trigger] vs[j]) <= row_size(vs),
    decreases vs.len(),
{
    if vs.len() > 0 {
        let pre = vs.drop_last();
        if k == vs.len() {
            assert(vs.take(k as int) =~= vs);
            lemma_row_size_prefix(pre, 0);
        } else {
            assert(vs.take(k as int) =~= pre.take(k as int));
            lemma_row_size_prefix(pre, k);
        }
        assert forall|j: int| 0 <= j < vs.len() implies value_size(#[trigger] vs[j]) <= row_size(vs) by {
            if j < vs.len() - 1 {
                assert(vs[j] == pre[j]);
            }
        }
    } else {
        assert(vs.take(k as int) =~= vs);
    }
}

pub proof fn lemma_rows_encoding_len(rows: Seq<Seq<Value>>)
    ensures
        rows_encoding(rows).len() == rows_bytes(rows),
    decreases rows.len(),
{
    if rows.len() > 0 {
        lemma_rows_encoding_len(rows.drop_last());
        lemma_encode_values_len(rows.last());
    }
}

/// Packing a prefix of the rows: no more blocks than packing them all, and
/// its last block no fuller than the block of the same position.
proof fn lemma_pack_prefix(rows: Seq<Seq<Value>>, j: nat, usable: nat)
    requires
        j <= rows.len(),
    ensures
        ({
            let pj = pack_rows(rows.take(j as int), usable);
            let pn = pack_rows(rows, usable);
            &&& 1 <= pj.len() <= pn.len()
            &&& pj.last().len() <= pn[pj.len() - 1].len()
        }),
    decreases rows.len(),
{
    if j == rows.len() {
        assert(rows.take(j as int) =~= rows);
        lemma_pack_len(rows, usable);
    } else {
        let pre = rows.drop_last();
        assert(pre.take(j as int) =~= rows.take(j as int));
        lemma_pack_prefix(pre, j, usable);
        lemma_pack_len(pre, usable);
    }
}

pub proof fn lemma_pack_len(rows: Seq<Seq<Value>>, usable: nat)
    ensures
        pack_rows(rows, usable).len() >= 1,
    decreases rows.len(),
{
    if rows.len() > 0 {
        lemma_pack_len(rows.drop_last(), usable);
    }
}

/// Appends a finished block holding `payload` and `count` rows.
pub fn finish_block(buffer: &mut Vec<u8>, payload: &Vec<u8>, count: u64, block_size: usize)
    requires
        2 <= block_size,
        payload@.len() <= block_size - 2,
        count <= 0xffff,
    ensures
        final(buffer)@ == old(buffer)@ + payload@ + Seq::new(
            (block_size - 2 - payload@.len()) as nat,
            |i: int| 0u8,
        ) + le_bytes(count as nat, 2),
{
    let ghost start = buffer@;
    let mut i: usize = 0;
    while i < payload.len()
        invariant
            i <= payload.len(),
            buffer@ == start + payload@.subrange(0, i as int),
        decreases payload.len() - i,
    {
        buffer.push(payload[i]);
        i += 1;
        assert(buffer@ =~= start + payload@.subrange(0, i as int));
    }
    assert(payload@.subrange(0, i as int) =~= payload@);
    let pad = block_size - 2 - payload.len();
    let mut k: usize = 0;
    while k < pad
        invariant
            k <= pad,
            buffer@ == start + payload@ + Seq::new(k as nat, |i: int| 0u8),
        decreases pad - k,
    {
        buffer.push(0u8);
        k += 1;
        assert(buffer@ =~= start + payload@ + Seq::new(k as nat, |i: int| 0u8));
    }
    push_le(buffer, count, 2);
}

/// Packs rows into one contiguous run buffer of whole blocks: each block
/// holds the encodings of the rows that fit, zero padding, and its row count
/// in the last two bytes.  No rows give an empty buffer.
pub fn rows_to_run_buffer(rows: &[Row], block_size: usize) -> (r: Vec<u8>)
    requires
        packable(rows_view(rows@), block_size as nat),
    ensures
        r@ == run_image(rows_view(rows@), block_size as nat),
{
    let ghost all = rows_view(rows@);
    let usable = block_size - 2;
    if rows.len() == 0 {
        return Vec::new();
    }
    let mut buffer: Vec<u8> = Vec::new();
    let mut cur: Vec<u8> = Vec::new();
    let mut count: u64 = 0;
    let mut i: usize = 0;
    assert(all.take(0) =~= Seq::<Seq<Value>>::empty());
    assert(blocks_image(Seq::<Seq<Seq<Value>>>::empty(), block_size as nat) =~= Seq::<u8>::empty());
    while i < rows.len()
        invariant
            all == rows_view(rows@),
            packable(all, block_size as nat),
            usable == block_size - 2,
            i <= rows.len(),
            buffer@ == blocks_image(pack_rows(all.take(i as int), usable as nat).drop_last(), block_size as nat),
            cur@ == rows_encoding(pack_rows(all.take(i as int), usable as nat).last()),
            count == pack_rows(all.take(i as int), usable as nat).last().len(),
            cur@.len() <= usable,
            count <= 0xffff,
        decreases rows.len() - i,
    {
        let ghost p = pack_rows(all.take(i as int), usable as nat);
        let ghost r = all[i as int];
        let ghost np = pack_rows(all.take(i + 1), usable as nat);
        assert(all.take(i + 1).drop_last() =~= all.take(i as int));
        assert(all.take(i + 1).last() == r);
        assert(r == rows@[i as int]@);
        assert(row_size(r) <= usable);
        proof {
            lemma_pack_len(all.take(i as int), usable as nat);
            lemma_rows_encoding_len(p.last());
        }
        let rs = encoded_row_size(&rows[i]);
        if rs > usable - cur.len() {
            finish_block(&mut buffer, &cur, count, block_size);
            proof {
                assert(np == p.push(seq![r]));
                assert(np.drop_last() =~= p);
                assert(p =~= p.drop_last().push(p.last()));
                assert(blocks_image(p, block_size as nat) == blocks_image(p.drop_last(), block_size as nat)
                    + block_image(p.last(), block_size as nat));
                assert(buffer@ =~= blocks_image(np.drop_last(), block_size as nat));
            }
            cur = Vec::new();
            count = 0;
            assert(np.last() == seq![r]);
            assert(seq![r].drop_last() =~= Seq::<Seq<Value>>::empty());
            assert(rows_encoding(Seq::<Seq<Value>>::empty()) =~= Seq::<u8>::empty());
            assert(cur@ =~= rows_encoding(seq![r].drop_last()));
        } else {
            proof {
                assert(np == p.update(p.len() - 1, p.last().push(r)));
                assert(np.drop_last() =~= p.drop_last());
                assert(np.last() == p.last().push(r));
                assert(p.last().push(r).drop_last() =~= p.last());
            }
        }
        let ghost before = cur@;
        let row = &rows[i];
        let mut k: usize = 0;
        while k < row.values.len()
            invariant
                k <= row.values.len(),
                cur@ == before + encode_values(values_view(row.values@.subrange(0, k as int))),
            decreases row.values.len() - k,
        {
            let ghost pre = values_view(row.values@.subrange(0, k as int));
            push_value(&mut cur, &row.values[k]);
            k += 1;
            assert(values_view(row.values@.subrange(0, k as int)).drop_last() =~= pre);
            assert(cur@ =~= before + encode_values(values_view(row.values@.subrange(0, k as int))));
        }
        assert(row.values@.subrange(0, k as int) =~= row.values@);
        proof {
            lemma_pack_prefix(all, (i + 1) as nat, usable as nat);
            assert(np.last().last() == r);
            lemma_pack_shape(all.take(i + 1), usable as nat);
            lemma_rows_encoding_len(np.last());
            assert(np.last().drop_last() == pack_rows(all.take(i as int), usable as nat).last() || np.last().drop_last() =~= Seq::<Seq<Value>>::empty());
            assert(np.last().len() <= 0xffff) by {
                assert(0 <= np.len() - 1 < pack_rows(all, usable as nat).len());
                assert(pack_rows(all, usable as nat)[np.len() - 1].len() <= 0xffff);
            }
        }
        count = count + 1;
        i += 1;
        proof {
            assert forall|j: int| 0 <= j < all.take(i as int).len() implies row_size(#[trigger] all.take(i as int)[j]) <= usable by {
                assert(all.take(i as int)[j] == all[j]);
            }
        }
    }
    assert(all.take(i as int) =~= all);
    finish_block(&mut buffer, &cur, count, block_size);
    proof {
        let p = pack_rows(all, usable as nat);
        lemma_pack_len(all, usable as nat);
        assert(p =~= p.drop_last().push(p.last()));
    }
    buffer
}

// ─── Reading a run back ──────────────────────────────────────────────────

/// The rows of a list of blocks, one block after the other.
pub open spec fn flatten_blocks(blocks: Seq<Seq<Seq<Value>>>) -> Seq<Seq<Value>>
    decreases blocks.len(),
{
    if blocks.len() == 0 {
        Seq::empty()
    } else {
        flatten_blocks(blocks.drop_last()) + blocks.last()
    }
}

proof fn lemma_rows_encoding_append(a: Seq<Seq<Value>>, b: Seq<Seq<Value>>)
    ensures
        rows_encoding(a + b) == rows_encoding(a) + rows_encoding(b),
        rows_bytes(a + b) == rows_bytes(a) + rows_bytes(b),
    decreases b.len(),
{
    if b.len() == 0 {
        assert(a + b =~= a);
        assert(rows_encoding(a) + rows_encoding(b) =~= rows_encoding(a));
    } else {
        lemma_rows_encoding_append(a, b.drop_last());
        assert((a + b).drop_last() =~= a + b.drop_last());
        assert((a + b).last() == b.last());
        assert(rows_encoding(a + b) =~= rows_encoding(a) + rows_encoding(b));
    }
}

pub proof fn lemma_rows_encoding_single(r: Seq<Value>)
    ensures
        rows_encoding(seq![r]) == encode_values(r),
        rows_bytes(seq![r]) == row_size(r),
{
    let sr = seq![r];
    assert(sr.drop_last() =~= Seq::<Seq<Value>>::empty());
    assert(sr.last() == r);
    assert(rows_encoding(sr.drop_last()) == Seq::<u8>::empty());
    assert(rows_bytes(sr.drop_last()) == 0);
    assert(rows_encoding(sr) =~= Seq::<u8>::empty() + encode_values(r));
    assert(Seq::<u8>::empty() + encode_values(r) =~= encode_values(r));
}

proof fn lemma_value_size_pos(vs: Seq<Value>)
    requires
        vs.len() > 0,
    ensures
        row_size(vs) >= 1,
    decreases vs.len(),
{
    if vs.len() > 1 {
        lemma_value_size_pos(vs.drop_last());
    }
}

/// The block layout of rows, each of the given column types.
pub open spec fn rows_typed(rows: Seq<Seq<Value>>, types: Seq<DataType>) -> bool {
    forall|i: int|
        0 <= i < rows.len() ==> types_of(#[trigger] rows[i]) == types && strings_without_zero(
            rows[i],
        )
}

proof fn lemma_decode_rows_tail(
    b: Seq<Seq<Value>>,
    types: Seq<DataType>,
    mask: Seq<bool>,
    data: Seq<u8>,
    pad: Seq<u8>,
    k: nat,
)
    requires
        k <= b.len(),
        types.len() > 0,
        rows_typed(b, types),
        data == rows_encoding(b) + pad,
    ensures
        decode_rows(data, types, mask, true, rows_bytes(b.take(k as int)) as int, (b.len() - k) as nat)
            == b.skip(k as int),
    decreases b.len() - k,
{
    let off = rows_bytes(b.take(k as int)) as int;
    if k == b.len() {
        assert(b.skip(k as int) =~= Seq::<Seq<Value>>::empty());
    } else {
        let r = b[k as int];
        assert(types_of(r) == types && strings_without_zero(r));
        assert(b =~= b.take(k as int) + (seq![r] + b.skip(k as int + 1)));
        lemma_rows_encoding_append(b.take(k as int), seq![r] + b.skip(k as int + 1));
        lemma_rows_encoding_append(seq![r], b.skip(k as int + 1));
        lemma_rows_encoding_single(r);
        lemma_rows_encoding_len(b.take(k as int));
        let rest = rows_encoding(b.skip(k as int + 1)) + pad;
        assert(data.skip(off) =~= encode_values(r) + rest);
        assert(r.len() == types.len());
        lemma_value_size_pos(r);
        lemma_encode_values_len(r);
        assert(off < data.len());
        lemma_row_roundtrip(r, rest, mask);
        assert(b.take(k as int + 1) =~= b.take(k as int) + seq![r]);
        lemma_rows_encoding_append(b.take(k as int), seq![r]);
        lemma_decode_rows_tail(b, types, mask, data, pad, k + 1);
        assert(b.skip(k as int) =~= seq![r] + b.skip(k as int + 1));
    }
}

/// Reading a block written for `rows` gives back `rows`, every column of
/// each.
pub proof fn lemma_block_roundtrip(
    rows: Seq<Seq<Value>>,
    types: Seq<DataType>,
    mask: Seq<bool>,
    block_size: nat,
)
    requires
        types.len() > 0,
        rows_typed(rows, types),
        2 <= block_size,
        rows_bytes(rows) <= block_size - 2,
        rows.len() <= 0xffff,
    ensures
        decode_block_spec(block_image(rows, block_size), types, mask, true) == rows,
        block_image(rows, block_size).len() == block_size,
{
    let img = block_image(rows, block_size);
    let payload = rows_encoding(rows);
    lemma_rows_encoding_len(rows);
    let pad = Seq::new((block_size - 2 - payload.len()) as nat, |i: int| 0u8);
    lemma_pow256_values();
    lemma_le_roundtrip(rows.len(), 2);
    assert(img.len() == block_size);
    assert(img.subrange(img.len() - 2, img.len() as int) =~= le_bytes(rows.len(), 2));
    assert(img.take(img.len() - 2) =~= payload + pad);
    lemma_decode_rows_tail(rows, types, mask, payload + pad, pad, 0);
    assert(rows.take(0) =~= Seq::<Seq<Value>>::empty());
    assert(rows.skip(0) =~= rows);
}

proof fn lemma_blocks_image_len(blocks: Seq<Seq<Seq<Value>>>, block_size: nat)
    requires
        2 <= block_size,
        forall|k: int| 0 <= k < blocks.len() ==> rows_bytes(#[trigger] blocks[k]) <= block_size - 2,
    ensures
        blocks_image(blocks, block_size).len() == blocks.len() * block_size,
    decreases blocks.len(),
{
    if blocks.len() > 0 {
        let pre = blocks.drop_last();
        assert forall|k: int| 0 <= k < pre.len() implies rows_bytes(#[trigger] pre[k]) <= block_size - 2 by {
            assert(pre[k] == blocks[k]);
        }
        lemma_blocks_image_len(pre, block_size);
        lemma_rows_encoding_len(blocks.last());
        assert(rows_bytes(blocks.last()) <= block_size - 2) by {
            assert(blocks.last() == blocks[blocks.len() - 1]);
        }
        lemma_le_bytes_len(blocks.last().len(), 2);
        assert(blocks.len() * block_size == pre.len() * block_size + block_size) by (nonlinear_arith)
            requires
                blocks.len() == pre.len() + 1,
        ;
    }
}

proof fn lemma_blocks_image_block(blocks: Seq<Seq<Seq<Value>>>, block_size: nat, k: int)
    requires
        2 <= block_size,
        0 <= k < blocks.len(),
        forall|j: int| 0 <= j < blocks.len() ==> rows_bytes(#[trigger] blocks[j]) <= block_size - 2,
    ensures
        blocks_image(blocks, block_size).subrange(k * block_size, (k + 1) * block_size) == block_image(
            blocks[k],
            block_size,
        ),
    decreases blocks.len(),
{
    let pre = blocks.drop_last();
    assert forall|j: int| 0 <= j < pre.len() implies rows_bytes(#[trigger] pre[j]) <= block_size - 2 by {
        assert(pre[j] == blocks[j]);
    }
    lemma_blocks_image_len(pre, block_size);
    lemma_rows_encoding_len(blocks.last());
    assert(rows_bytes(blocks.last()) <= block_size - 2) by {
        assert(blocks.last() == blocks[blocks.len() - 1]);
    }
    lemma_le_bytes_len(blocks.last().len(), 2);
    let whole = blocks_image(blocks, block_size);
    let a = blocks_image(pre, block_size);
    assert(k * block_size + block_size == (k + 1) * block_size) by (nonlinear_arith);
    if k == blocks.len() - 1 {
        assert(a.len() == k * block_size);
        assert(whole.subrange(k * block_size, (k + 1) * block_size) =~= block_image(blocks.last(), block_size));
    } else {
        lemma_blocks_image_block(pre, block_size, k);
        assert((k + 1) * block_size <= pre.len() * block_size) by (nonlinear_arith)
            requires
                k + 1 <= pre.len(),
        ;
        assert(whole.subrange(k * block_size, (k + 1) * block_size) =~= a.subrange(
            k * block_size,
            (k + 1) * block_size,
        ));
        assert(pre[k] == blocks[k]);
    }
}

proof fn lemma_pack_flatten(rows: Seq<Seq<Value>>, usable: nat)
    ensures
        flatten_blocks(pack_rows(rows, usable)) == rows,
    decreases rows.len(),
{
    if rows.len() == 0 {
        let p = pack_rows(rows, usable);
        assert(p.drop_last() =~= Seq::<Seq<Seq<Value>>>::empty());
        assert(flatten_blocks(p.drop_last()) == Seq::<Seq<Value>>::empty());
        assert(p.last() =~= Seq::<Seq<Value>>::empty());
        assert(flatten_blocks(p) =~= rows);
    } else {
        let pre = rows.drop_last();
        lemma_pack_flatten(pre, usable);
        lemma_pack_len(pre, usable);
        let p = pack_rows(pre, usable);
        let r = rows.last();
        let np = pack_rows(rows, usable);
        assert(flatten_blocks(p) == flatten_blocks(p.drop_last()) + p.last());
        if rows_bytes(p.last()) + row_size(r) > usable {
            assert(np == p.push(seq![r]));
            assert(np.drop_last() =~= p);
            assert(np.last() == seq![r]);
            assert(flatten_blocks(np) == flatten_blocks(np.drop_last()) + np.last());
            assert(flatten_blocks(np) =~= rows);
        } else {
            assert(np.drop_last() =~= p.drop_last());
            assert(np.last() == p.last().push(r));
            assert(flatten_blocks(np) == flatten_blocks(np.drop_last()) + np.last());
            assert(flatten_blocks(p.drop_last()) + p.last().push(r) =~= (flatten_blocks(p.drop_last()) + p.last()).push(r));
            assert(rows =~= pre.push(r));
            assert(flatten_blocks(np) =~= rows);
        }
    }
}

proof fn lemma_pack_typed(rows: Seq<Seq<Value>>, usable: nat, types: Seq<DataType>)
    requires
        rows_typed(rows, types),
    ensures
        forall|k: int|
            0 <= k < pack_rows(rows, usable).len() ==> rows_typed(
                #[trigger] pack_rows(rows, usable)[k],
                types,
            ),
    decreases rows.len(),
{
    if rows.len() > 0 {
        let pre = rows.drop_last();
        assert forall|i: int| 0 <= i < pre.len() implies types_of(#[trigger] pre[i]) == types
            && strings_without_zero(pre[i]) by {
            assert(pre[i] == rows[i]);
        }
        lemma_pack_typed(pre, usable, types);
        lemma_pack_len(pre, usable);
        let p = pack_rows(pre, usable);
        let r = rows.last();
        assert(types_of(r) == types && strings_without_zero(r)) by {
            assert(r == rows[rows.len() - 1]);
        }
        let np = pack_rows(rows, usable);
        assert forall|k: int| 0 <= k < np.len() implies rows_typed(#[trigger] np[k], types) by {
            if k < p.len() - 1 {
                assert(np[k] == p[k]);
            } else if k == p.len() - 1 {
                if rows_bytes(p.last()) + row_size(r) > usable {
                    assert(np[k] == p[k]);
                } else {
                    let b = p.last().push(r);
                    assert(np[k] == b);
                    assert forall|i: int| 0 <= i < b.len() implies types_of(#[trigger] b[i])
                        == types && strings_without_zero(b[i]) by {
                        if i < b.len() - 1 {
                            assert(b[i] == p[k][i]);
                        }
                    }
                }
            } else {
                assert(rows_bytes(p.last()) + row_size(r) > usable);
                assert(np == p.push(seq![r]));
                assert(np[k] == seq![r]);
            }
        }
    }
}

/// The run of `rows` is whole blocks, and reading each block in turn gives
/// back the rows in order: the blocks decode to the packing of `rows`, whose
/// blocks hold `rows` one after the other.
pub proof fn lemma_run_roundtrip(
    rows: Seq<Seq<Value>>,
    types: Seq<DataType>,
    mask: Seq<bool>,
    block_size: nat,
)
    requires
        types.len() > 0,
        rows.len() > 0,
        rows_typed(rows, types),
        packable(rows, block_size),
    ensures
        ({
            let blocks = pack_rows(rows, (block_size - 2) as nat);
            let img = run_image(rows, block_size);
            &&& img.len() == blocks.len() * block_size
            &&& flatten_blocks(blocks) == rows
            &&& forall|k: int|
                0 <= k < blocks.len() ==> decode_block_spec(
                    #[trigger] img.subrange(k * block_size, (k + 1) * block_size),
                    types,
                    mask,
                    true,
                ) == blocks[k]
        }),
{
    let usable = (block_size - 2) as nat;
    let blocks = pack_rows(rows, usable);
    lemma_pack_shape(rows, usable);
    lemma_pack_flatten(rows, usable);
    lemma_pack_typed(rows, usable, types);
    lemma_blocks_image_len(blocks, block_size);
    assert forall|k: int| 0 <= k < blocks.len() implies decode_block_spec(
        #[trigger] run_image(rows, block_size).subrange(k * block_size, (k + 1) * block_size),
        types,
        mask,
        true,
    ) == blocks[k] by {
        lemma_blocks_image_block(blocks, block_size, k);
        lemma_block_roundtrip(blocks[k], types, mask, block_size);
    }
}

/// The blocks of the run of `rows`, each `block_size` bytes.
pub fn rows_to_blocks(rows: &[Row], block_size: usize) -> (r: Vec<Vec<u8>>)
    requires
        packable(rows_view(rows@), block_size as nat),
    ensures
        r@.len() * block_size == run_image(rows_view(rows@), block_size as nat).len(),
        forall|k: int|
            0 <= k < r@.len() ==> (#[trigger] r@[k])@ == run_image(
                rows_view(rows@),
                block_size as nat,
            ).subrange(k * block_size, (k + 1) * block_size),
{
    let raw = rows_to_run_buffer(rows, block_size);
    proof {
        let all = rows_view(rows@);
        if all.len() > 0 {
            lemma_pack_shape(all, (block_size - 2) as nat);
            lemma_blocks_image_len(pack_rows(all, (block_size - 2) as nat), block_size as nat);
        }
    }
    let rl = raw.len();
    let num_blocks = rl / block_size;
    let ghost nb = if rows@.len() == 0 {
        0
    } else {
        pack_rows(rows_view(rows@), (block_size - 2) as nat).len()
    };
    assert(raw@.len() == nb * block_size);
    assert(num_blocks == nb) by (nonlinear_arith)
        requires
            raw@.len() == nb * block_size,
            num_blocks == (raw@.len() as int) / (block_size as int),
            block_size >= 2,
    ;
    let mut out: Vec<Vec<u8>> = Vec::new();
    let mut i: usize = 0;
    while i < num_blocks
        invariant
            i <= num_blocks,
            block_size >= 2,
            raw@.len() == num_blocks * block_size,
            rl == raw@.len(),
            out@.len() == i,
            forall|k: int|
                0 <= k < i ==> (#[trigger] out@[k])@ == raw@.subrange(
                    k * block_size,
                    (k + 1) * block_size,
                ),
        decreases num_blocks - i,
    {
        assert((i + 1) * block_size <= num_blocks * block_size) by (nonlinear_arith)
            requires
                i + 1 <= num_blocks,
        ;
        assert(i * block_size + block_size == (i + 1) * block_size) by (nonlinear_arith);
        let begin = i * block_size;
        let mut blk: Vec<u8> = Vec::new();
        let mut j: usize = 0;
        while j < block_size
            invariant
                j <= block_size,
                begin + block_size <= raw@.len(),
                rl == raw@.len(),
                blk@ == raw@.subrange(begin as int, begin + j),
            decreases block_size - j,
        {
            blk.push(raw[begin + j]);
            j += 1;
            assert(blk@ =~= raw@.subrange(begin as int, begin + j));
        }
        out.push(blk);
        i += 1;
    }
    out
}


/// The number of blocks a run of `rows` takes.
pub open spec fn run_blocks(rows: Seq<Seq<Value>>, block_size: nat) -> nat {
    if rows.len() == 0 {
        0
    } else {
        pack_rows(rows, (block_size - 2) as nat).len()
    }
}

/// A run takes whole blocks.
pub proof fn lemma_run_image_len(rows: Seq<Seq<Value>>, block_size: nat)
    requires
        packable(rows, block_size),
    ensures
        run_image(rows, block_size).len() == run_blocks(rows, block_size) * block_size,
{
    if rows.len() > 0 {
        lemma_pack_shape(rows, (block_size - 2) as nat);
        lemma_blocks_image_len(pack_rows(rows, (block_size - 2) as nat), block_size);
    }
}

} // verus!

//! Rows and their on-disk encoding.
//!
//! A row is encoded as its values one after the other: 32-bit values in 4
//! little-endian bytes, 64-bit values in 8, strings as their bytes followed
//! by a zero byte.  A block holds encoded rows from its start and, in its
//! last two bytes, the number of rows it holds (little-endian `u16`).
use vstd::prelude::*;
use crate::bytes::{le_bytes, le_value, lemma_le_bytes_len, push_le, read_le, pow256, lemma_le_roundtrip, lemma_le_value_bound, lemma_pow256_values};
use crate::data::{Data, DataType, Value, copy_bytes};

verus! {

/// A record: one value per column.
#[derive(Debug)]
pub struct Row {
    pub values: Vec<Data>,
}

pub open spec fn values_view(values: Seq<Data>) -> Seq<Value> {
    values.map_values(|d: Data| d@)
}

impl View for Row {
    type V = Seq<Value>;

    open spec fn view(&self) -> Seq<Value> {
        values_view(self.values@)
    }
}

pub open spec fn rows_view(rows: Seq<Row>) -> Seq<Seq<Value>> {
    rows.map_values(|r: Row| r@)
}

impl Row {
    /// A copy of this row.
    pub fn copy(&self) -> (r: Row)
        ensures
            r@ == self@,
    {
        Row { values: copy_values(&self.values) }
    }
}

/// A copy of a list of values.
pub fn copy_values(values: &Vec<Data>) -> (r: Vec<Data>)
    ensures
        values_view(r@) == values_view(values@),
{
    let mut r: Vec<Data> = Vec::with_capacity(values.len());
    let mut i: usize = 0;
    while i < values.len()
        invariant
            i <= values.len(),
            values_view(r@) =~= values_view(values@.subrange(0, i as int)),
        decreases values.len() - i,
    {
        let d = values[i].copy();
        let ghost before = r@;
        r.push(d);
        assert(values_view(r@) =~= values_view(before).push(values@[i as int]@));
        assert(values@.subrange(0, i + 1) =~= values@.subrange(0, i as int).push(values@[i as int]));
        i += 1;
    }
    assert(values@.subrange(0, i as int) =~= values@);
    r
}

// ─── Integer representations ─────────────────────────────────────────────

pub open spec fn u32_of_i32(x: i32) -> nat {
    if x >= 0 {
        x as nat
    } else {
        (x + 0x1_0000_0000) as nat
    }
}

pub open spec fn i32_of_u32(u: nat) -> i32 {
    if u < 0x8000_0000 {
        u as i32
    } else {
        (u - 0x1_0000_0000) as i32
    }
}

pub open spec fn u64_of_i64(x: i64) -> nat {
    if x >= 0 {
        x as nat
    } else {
        (x + 0x1_0000_0000_0000_0000) as nat
    }
}

pub open spec fn i64_of_u64(u: nat) -> i64 {
    if u < 0x8000_0000_0000_0000 {
        u as i64
    } else {
        (u - 0x1_0000_0000_0000_0000) as i64
    }
}

fn i32_from_bits(u: u64) -> (r: i32)
    requires
        u < 0x1_0000_0000,
    ensures
        r == i32_of_u32(u as nat),
{
    if u < 0x8000_0000 {
        u as i32
    } else {
        let d: u64 = u - 0x8000_0000;
        (d as i32) - 0x7fff_ffff - 1
    }
}

fn i64_from_bits(u: u64) -> (r: i64)
    ensures
        r == i64_of_u64(u as nat),
{
    if u < 0x8000_0000_0000_0000 {
        u as i64
    } else {
        let d: u64 = u - 0x8000_0000_0000_0000;
        (d as i64) - 0x7fff_ffff_ffff_ffff - 1
    }
}

pub fn bits_of_i32(x: i32) -> (r: u64)
    ensures
        r as nat == u32_of_i32(x),
{
    if x >= 0 {
        x as u64
    } else {
        let y: i64 = x as i64 + 0x1_0000_0000;
        y as u64
    }
}

pub fn bits_of_i64(x: i64) -> (r: u64)
    ensures
        r as nat == u64_of_i64(x),
{
    if x >= 0 {
        x as u64
    } else {
        let y: i64 = x + 0x7fff_ffff_ffff_ffff + 1;
        (y as u64) + 0x8000_0000_0000_0000
    }
}

// ─── Encoding ────────────────────────────────────────────────────────────

/// The bytes of one value.
pub open spec fn encode_value(v: Value) -> Seq<u8> {
    match v {
        Value::Int32(x) => le_bytes(u32_of_i32(x), 4),
        Value::Int64(x) => le_bytes(u64_of_i64(x), 8),
        Value::Float32(b) => le_bytes(b as nat, 4),
        Value::Float64(b) => le_bytes(b as nat, 8),
        Value::Str(s) => s.push(0u8),
    }
}

/// The bytes of a row.
pub open spec fn encode_values(vs: Seq<Value>) -> Seq<u8>
    decreases vs.len(),
{
    if vs.len() == 0 {
        Seq::empty()
    } else {
        encode_values(vs.drop_last()) + encode_value(vs.last())
    }
}

/// The number of bytes a value takes.
pub open spec fn value_size(v: Value) -> nat {
    match v {
        Value::Int32(_) => 4,
        Value::Int64(_) => 8,
        Value::Float32(_) => 4,
        Value::Float64(_) => 8,
        Value::Str(s) => s.len() + 1,
    }
}

/// The number of bytes a row takes.
pub open spec fn row_size(vs: Seq<Value>) -> nat
    decreases vs.len(),
{
    if vs.len() == 0 {
        0
    } else {
        row_size(vs.drop_last()) + value_size(vs.last())
    }
}

pub proof fn lemma_encode_value_len(v: Value)
    ensures
        encode_value(v).len() == value_size(v),
{
    match v {
        Value::Int32(x) => lemma_le_bytes_len(u32_of_i32(x), 4),
        Value::Int64(x) => lemma_le_bytes_len(u64_of_i64(x), 8),
        Value::Float32(b) => lemma_le_bytes_len(b as nat, 4),
        Value::Float64(b) => lemma_le_bytes_len(b as nat, 8),
        Value::Str(s) => {},
    }
}

pub proof fn lemma_encode_values_len(vs: Seq<Value>)
    ensures
        encode_values(vs).len() == row_size(vs),
    decreases vs.len(),
{
    if vs.len() > 0 {
        lemma_encode_values_len(vs.drop_last());
        lemma_encode_value_len(vs.last());
    }
}

/// Appends the bytes of `d` to `out`.
pub fn push_value(out: &mut Vec<u8>, d: &Data)
    ensures
        final(out)@ == old(out)@ + encode_value(d@),
{
    match d {
        Data::Int32(v) => push_le(out, bits_of_i32(*v), 4),
        Data::Int64(v) => push_le(out, bits_of_i64(*v), 8),
        Data::Float32(v) => push_le(out, *v as u64, 4),
        Data::Float64(v) => push_le(out, *v, 8),
        Data::String(v) => {
            let ghost before = out@;
            let mut i: usize = 0;
            while i < v.len()
                invariant
                    i <= v.len(),
                    out@ == before + v@.subrange(0, i as int),
                decreases v.len() - i,
            {
                out.push(v[i]);
                i += 1;
                assert(out@ =~= before + v@.subrange(0, i as int));
            }
            out.push(0u8);
            assert(out@ =~= before + v@.push(0u8));
        },
    }
}

/// The encoded bytes of a row.
pub fn encode_row(row: &Row) -> (r: Vec<u8>)
    ensures
        r@ == encode_values(row@),
{
    let mut bytes: Vec<u8> = Vec::new();
    let mut i: usize = 0;
    while i < row.values.len()
        invariant
            i <= row.values.len(),
            bytes@ == encode_values(values_view(row.values@.subrange(0, i as int))),
        decreases row.values.len() - i,
    {
        let ghost prev = values_view(row.values@.subrange(0, i as int));
        push_value(&mut bytes, &row.values[i]);
        i += 1;
        let ghost cur = values_view(row.values@.subrange(0, i as int));
        assert(cur.drop_last() =~= prev);
    }
    assert(row.values@.subrange(0, i as int) =~= row.values@);
    bytes
}

/// The number of bytes a value takes when encoded.
pub fn encoded_value_size(d: &Data) -> (r: usize)
    requires
        value_size(d@) <= usize::MAX,
    ensures
        r as nat == value_size(d@),
{
    match d {
        Data::Int32(_) => 4,
        Data::Int64(_) => 8,
        Data::Float32(_) => 4,
        Data::Float64(_) => 8,
        Data::String(v) => v.len() + 1,
    }
}

// ─── Decoding ────────────────────────────────────────────────────────────

/// The index of the first zero byte of `s` at or after `i`, or -1.
pub open spec fn find_zero(s: Seq<u8>, i: int) -> int
    decreases s.len() - i,
{
    if i < 0 || i >= s.len() {
        -1
    } else if s[i] == 0 {
        i
    } else {
        find_zero(s, i + 1)
    }
}

/// Reads a value of type `t` at `off`: the value and the offset just past
/// it, or `None` where the bytes end too early (or a string has no
/// terminating zero).
pub open spec fn decode_value(s: Seq<u8>, t: DataType, off: int) -> Option<(Value, int)> {
    match t {
        DataType::Int32 => if off + 4 <= s.len() {
            Some((Value::Int32(i32_of_u32(le_value(s.subrange(off, off + 4)))), off + 4))
        } else {
            None
        },
        DataType::Int64 => if off + 8 <= s.len() {
            Some((Value::Int64(i64_of_u64(le_value(s.subrange(off, off + 8)))), off + 8))
        } else {
            None
        },
        DataType::Float32 => if off + 4 <= s.len() {
            Some((Value::Float32(le_value(s.subrange(off, off + 4)) as u32), off + 4))
        } else {
            None
        },
        DataType::Float64 => if off + 8 <= s.len() {
            Some((Value::Float64(le_value(s.subrange(off, off + 8)) as u64), off + 8))
        } else {
            None
        },
        DataType::String => if off >= s.len() {
            None
        } else {
            let z = find_zero(s, off);
            if z < 0 {
                None
            } else {
                Some((Value::Str(s.subrange(off, z)), z + 1))
            }
        },
    }
}

/// Whether column `i` is kept: every column when `all`, else those the mask
/// marks.
pub open spec fn needed(mask: Seq<bool>, all: bool, i: int) -> bool {
    all || mask[i]
}

/// Reads the first `i` columns of a row from the start of `s`: the kept
/// values and the offset just past the last column read.
pub open spec fn decode_prefix(
    s: Seq<u8>,
    types: Seq<DataType>,
    mask: Seq<bool>,
    all: bool,
    i: nat,
) -> Option<(Seq<Value>, int)>
    decreases i,
{
    if i == 0 {
        Some((Seq::empty(), 0))
    } else {
        match decode_prefix(s, types, mask, all, (i - 1) as nat) {
            None => None,
            Some((vals, off)) => match decode_value(s, types[i - 1], off) {
                None => None,
                Some((v, next)) => Some(
                    (
                        if needed(mask, all, i - 1) {
                            vals.push(v)
                        } else {
                            vals
                        },
                        next,
                    ),
                ),
            },
        }
    }
}

/// Reads a whole row from the start of `s`.
pub open spec fn decode_row_spec(s: Seq<u8>, types: Seq<DataType>, mask: Seq<bool>, all: bool) -> Option<
    (Seq<Value>, int),
> {
    decode_prefix(s, types, mask, all, types.len())
}

proof fn lemma_decode_prefix_none(
    s: Seq<u8>,
    types: Seq<DataType>,
    mask: Seq<bool>,
    all: bool,
    i: nat,
    j: nat,
)
    requires
        i <= j,
        decode_prefix(s, types, mask, all, i) is None,
    ensures
        decode_prefix(s, types, mask, all, j) is None,
    decreases j,
{
    if i < j {
        lemma_decode_prefix_none(s, types, mask, all, i, (j - 1) as nat);
    }
}

proof fn lemma_decode_prefix_bounds(
    s: Seq<u8>,
    types: Seq<DataType>,
    mask: Seq<bool>,
    all: bool,
    i: nat,
)
    requires
        decode_prefix(s, types, mask, all, i) is Some,
    ensures
        0 <= decode_prefix(s, types, mask, all, i).unwrap().1 <= s.len(),
    decreases i,
{
    if i > 0 {
        lemma_decode_prefix_bounds(s, types, mask, all, (i - 1) as nat);
        let off = decode_prefix(s, types, mask, all, (i - 1) as nat).unwrap().1;
        if types[i - 1] == DataType::String {
            lemma_find_zero_range(s, off);
        }
    }
}

proof fn lemma_find_zero_range(s: Seq<u8>, i: int)
    ensures
        find_zero(s, i) == -1 || (i <= find_zero(s, i) < s.len() && s[find_zero(s, i)] == 0),
    decreases s.len() - i,
{
    if 0 <= i < s.len() && s[i] != 0 {
        lemma_find_zero_range(s, i + 1);
    }
}

/// Reads one value of type `t` from `bytes[start..end]` at relative offset
/// `off`.
fn decode_one(
    bytes: &[u8],
    start: usize,
    end: usize,
    t: DataType,
    off: usize,
    keep: bool,
) -> (r: Option<(Option<Data>, usize)>)
    requires
        start <= end <= bytes.len(),
        off <= end - start,
    ensures
        ({
            let s = bytes@.subrange(start as int, end as int);
            match r {
                None => decode_value(s, t, off as int) is None,
                Some((d, next)) => decode_value(s, t, off as int) is Some && next as int
                    == decode_value(s, t, off as int).unwrap().1 && next <= end - start && (keep
                    ==> d is Some && d.unwrap()@ == decode_value(s, t, off as int).unwrap().0) && (
                !keep ==> d is None),
            }
        }),
{
    let ghost s = bytes@.subrange(start as int, end as int);
    let len = end - start;
    match t {
        DataType::Int32 | DataType::Float32 => {
            if off > len || len - off < 4 {
                return None;
            }
            let u = read_le(bytes, start + off, 4);
            assert(bytes@.subrange(start + off, start + off + 4) =~= s.subrange(
                off as int,
                off + 4,
            ));
            proof {
                lemma_le_value_bound(s.subrange(off as int, off + 4));
                lemma_pow256_values();
            }
            let d = if !keep {
                None
            } else if t == DataType::Int32 {
                Some(Data::Int32(i32_from_bits(u)))
            } else {
                Some(Data::Float32(u as u32))
            };
            Some((d, off + 4))
        },
        DataType::Int64 | DataType::Float64 => {
            if off > len || len - off < 8 {
                return None;
            }
            let u = read_le(bytes, start + off, 8);
            assert(bytes@.subrange(start + off, start + off + 8) =~= s.subrange(
                off as int,
                off + 8,
            ));
            let d = if !keep {
                None
            } else if t == DataType::Int64 {
                Some(Data::Int64(i64_from_bits(u)))
            } else {
                Some(Data::Float64(u))
            };
            Some((d, off + 8))
        },
        DataType::String => {
            if off >= len {
                return None;
            }
            let mut j: usize = start + off;
            while j < end && bytes[j] != 0
                invariant
                    start + off <= j <= end,
                    end <= bytes.len(),
                    s == bytes@.subrange(start as int, end as int),
                    off < end - start,
                    find_zero(s, off as int) == find_zero(s, j - start),
                decreases end - j,
            {
                assert(s[j - start] == bytes@[j as int]);
                j += 1;
            }
            if j == end {
                return None;
            }
            assert(s[j - start] == bytes@[j as int]);
            let d = if keep {
                let mut v: Vec<u8> = Vec::new();
                let mut k: usize = start + off;
                while k < j
                    invariant
                        start + off <= k <= j,
                        j < end,
                        end <= bytes.len(),
                        v@ == bytes@.subrange(start + off, k as int),
                    decreases j - k,
                {
                    v.push(bytes[k]);
                    k += 1;
                    assert(v@ =~= bytes@.subrange(start + off, k as int));
                }
                assert(v@ =~= s.subrange(off as int, j - start));
                Some(Data::String(v))
            } else {
                None
            };
            Some((d, j - start + 1))
        },
    }
}

/// Reads a row from `bytes[start..end]`: each column in turn, keeping those
/// the mask marks (or all when `all`).  `None` where a column runs past the
/// end.
fn decode_fields(
    bytes: &[u8],
    start: usize,
    end: usize,
    types: &[DataType],
    mask: &[bool],
    all: bool,
) -> (r: Option<(Row, usize)>)
    requires
        start <= end <= bytes.len(),
        all || mask@.len() >= types@.len(),
    ensures
        ({
            let spec_r = decode_row_spec(
                bytes@.subrange(start as int, end as int),
                types@,
                mask@,
                all,
            );
            match r {
                None => spec_r is None,
                Some((row, used)) => spec_r == Some((row@, used as int)) && used <= end - start,
            }
        }),
{
    let ghost s = bytes@.subrange(start as int, end as int);
    let mut values: Vec<Data> = Vec::new();
    let mut off: usize = 0;
    let mut i: usize = 0;
    while i < types.len()
        invariant
            start <= end <= bytes.len(),
            all || mask@.len() >= types@.len(),
            s == bytes@.subrange(start as int, end as int),
            i <= types.len(),
            off <= end - start,
            decode_prefix(s, types@, mask@, all, i as nat) == Some((values_view(values@), off as int)),
        decreases types.len() - i,
    {
        let keep = all || mask[i];
        match decode_one(bytes, start, end, types[i], off, keep) {
            None => {
                proof {
                    lemma_decode_prefix_none(s, types@, mask@, all, (i + 1) as nat, types.len() as nat);
                }
                return None;
            },
            Some((d, next)) => {
                let ghost before = values@;
                match d {
                    Some(v) => {
                        values.push(v);
                        assert(values_view(values@) =~= values_view(before).push(
                            decode_value(s, types@[i as int], off as int).unwrap().0,
                        ));
                    },
                    None => {},
                }
                off = next;
            },
        }
        i += 1;
    }
    Some((Row { values }, off))
}

/// `needed_mask[i]` holds iff `i` occurs in `needed`, for each of the
/// `types_len` columns; indices past the last column are ignored.
pub fn build_needed_mask(types_len: usize, needed: &[usize]) -> (r: Vec<bool>)
    ensures
        r@.len() == types_len,
        forall|i: int| 0 <= i < types_len ==> (#[trigger] r@[i] <==> needed@.contains(i as usize)),
{
    let mut mask: Vec<bool> = Vec::new();
    let mut k: usize = 0;
    while k < types_len
        invariant
            k <= types_len,
            mask@.len() == k,
            forall|i: int| 0 <= i < k ==> !mask@[i],
        decreases types_len - k,
    {
        mask.push(false);
        k += 1;
    }
    let mut j: usize = 0;
    while j < needed.len()
        invariant
            j <= needed.len(),
            mask@.len() == types_len,
            forall|i: int|
                0 <= i < types_len ==> (#[trigger] mask@[i] <==> needed@.subrange(
                    0,
                    j as int,
                ).contains(i as usize)),
        decreases needed.len() - j,
    {
        let idx = needed[j];
        if idx < types_len {
            mask.set(idx, true);
        }
        proof {
            let s0 = needed@.subrange(0, j as int);
            let s1 = needed@.subrange(0, j + 1);
            assert(s1 =~= s0.push(idx));
            assert forall|i: int| 0 <= i < types_len implies (#[trigger] mask@[i]
                <==> s1.contains(i as usize)) by {
                if s0.contains(i as usize) {
                    let w = choose|w: int| 0 <= w < s0.len() && #[trigger] s0[w] == i as usize;
                    assert(s1[w] == i as usize);
                }
                if idx == i as usize {
                    assert(s1[j as int] == idx);
                }
                if s1.contains(i as usize) {
                    let w = choose|w: int| 0 <= w < s1.len() && #[trigger] s1[w] == i as usize;
                    if w < j {
                        assert(s0[w] == i as usize);
                    }
                }
            }
        }
        j += 1;
    }
    assert(needed@.subrange(0, j as int) =~= needed@);
    mask
}

/// The number of `true` entries.
pub open spec fn count_true(s: Seq<bool>) -> nat
    decreases s.len(),
{
    if s.len() == 0 {
        0
    } else {
        count_true(s.drop_last()) + if s.last() {
            1nat
        } else {
            0nat
        }
    }
}

proof fn lemma_count_true_le(s: Seq<bool>)
    ensures
        count_true(s) <= s.len(),
    decreases s.len(),
{
    if s.len() > 0 {
        lemma_count_true_le(s.drop_last());
    }
}

/// The number of columns the mask keeps.
pub fn count_needed_columns(needed_mask: &[bool]) -> (r: usize)
    ensures
        r == count_true(needed_mask@),
{
    let mut n: usize = 0;
    let mut i: usize = 0;
    while i < needed_mask.len()
        invariant
            i <= needed_mask.len(),
            n == count_true(needed_mask@.subrange(0, i as int)),
            n <= i,
        decreases needed_mask.len() - i,
    {
        assert(needed_mask@.subrange(0, i + 1).drop_last() =~= needed_mask@.subrange(0, i as int));
        if needed_mask[i] {
            n += 1;
        }
        i += 1;
    }
    assert(needed_mask@.subrange(0, i as int) =~= needed_mask@);
    n
}

/// Reads a row from the start of `bytes`, keeping the columns listed in
/// `needed`.  Where the bytes end before the row does, the result is an
/// empty row that consumed all of `bytes`.
pub fn decode_row(bytes: &[u8], types: &[DataType], needed: &[usize]) -> (r: (Row, usize))
    ensures
        ({
            let mask = Seq::new(
                types@.len(),
                |i: int| needed@.contains(i as usize),
            );
            match decode_row_spec(bytes@, types@, mask, false) {
                Some((vals, used)) => r.0@ == vals && r.1 as int == used,
                None => r.0@ == Seq::<Value>::empty() && r.1 == bytes@.len(),
            }
        }),
{
    let needed_mask = build_needed_mask(types.len(), needed);
    assert(needed_mask@ =~= Seq::new(types@.len(), |i: int| needed@.contains(i as usize)));
    assert(bytes@.subrange(0, bytes@.len() as int) =~= bytes@);
    match decode_fields(bytes, 0, bytes.len(), types, needed_mask.as_slice(), false) {
        Some(r) => r,
        None => {
            let row = Row { values: Vec::new() };
            assert(row@ =~= Seq::<Value>::empty());
            (row, bytes.len())
        },
    }
}

// ─── Blocks ──────────────────────────────────────────────────────────────

/// The row count a block records in its last two bytes.
pub open spec fn block_row_count(block: Seq<u8>) -> nat {
    le_value(block.subrange(block.len() - 2, block.len() as int))
}

/// Reads up to `count` rows from `data`, starting at `off`, stopping early
/// at the end of the data or at a row that does not decode.
pub open spec fn decode_rows(
    data: Seq<u8>,
    types: Seq<DataType>,
    mask: Seq<bool>,
    all: bool,
    off: int,
    count: nat,
) -> Seq<Seq<Value>>
    decreases count,
{
    if count == 0 || off < 0 || off >= data.len() {
        Seq::empty()
    } else {
        match decode_row_spec(data.skip(off), types, mask, all) {
            None => Seq::empty(),
            Some((row, used)) => seq![row] + decode_rows(
                data,
                types,
                mask,
                all,
                off + used,
                (count - 1) as nat,
            ),
        }
    }
}

/// The rows of a block, with the kept columns.
pub open spec fn decode_block_spec(
    block: Seq<u8>,
    types: Seq<DataType>,
    mask: Seq<bool>,
    all: bool,
) -> Seq<Seq<Value>> {
    if block.len() < 2 {
        Seq::empty()
    } else {
        decode_rows(block.take(block.len() - 2), types, mask, all, 0, block_row_count(block))
    }
}

/// Appends to `rows` the rows of a block, keeping the columns the mask marks.
pub fn decode_block_with_mask_into(
    block_data: &[u8],
    types: &[DataType],
    needed_mask: &[bool],
    rows: &mut Vec<Row>,
)
    requires
        needed_mask@.len() >= types@.len(),
    ensures
        rows_view(final(rows)@) == rows_view(old(rows)@) + decode_block_spec(
            block_data@,
            types@,
            needed_mask@,
            count_true(needed_mask@) == types@.len(),
        ),
{
    let ghost all_spec = count_true(needed_mask@) == types@.len();
    if block_data.len() < 2 {
        assert(rows_view(rows@) =~= rows_view(old(rows)@) + Seq::<Seq<Value>>::empty());
        return;
    }
    let len = block_data.len();
    let row_count = read_le(block_data, len - 2, 2);
    let needed_count = count_needed_columns(needed_mask);
    let all_needed = needed_count == types.len();
    let ghost data = block_data@.take(len - 2);
    let ghost total = decode_rows(data, types@, needed_mask@, all_spec, 0, row_count as nat);
    let mut offset: usize = 0;
    let mut k: u64 = 0;
    while k < row_count
        invariant
            len == block_data.len(),
            len >= 2,
            needed_mask@.len() >= types@.len(),
            data == block_data@.take(len - 2),
            all_needed == all_spec,
            k <= row_count,
            offset <= len - 2,
            rows_view(rows@) + decode_rows(
                data,
                types@,
                needed_mask@,
                all_spec,
                offset as int,
                (row_count - k) as nat,
            ) == rows_view(old(rows)@) + total,
        ensures
            rows_view(rows@) =~= rows_view(old(rows)@) + total,
        decreases row_count - k,
    {
        if offset >= len - 2 {
            assert(decode_rows(data, types@, needed_mask@, all_spec, offset as int, (row_count - k) as nat) =~= Seq::<Seq<Value>>::empty());
            break;
        }
        assert(block_data@.subrange(offset as int, (len - 2) as int) =~= data.skip(offset as int));
        let decoded = decode_fields(block_data, offset, len - 2, types, needed_mask, all_needed);
        match decoded {
            None => {
                assert(decode_rows(data, types@, needed_mask@, all_spec, offset as int, (row_count - k) as nat) =~= Seq::<Seq<Value>>::empty());
                break;
            },
            Some((row, used)) => {
                let ghost before = rows@;
                let ghost rest = decode_rows(data, types@, needed_mask@, all_spec, offset + used, (row_count - k - 1) as nat);
                assert(decode_rows(data, types@, needed_mask@, all_spec, offset as int, (row_count - k) as nat) == seq![row@] + rest);
                rows.push(row);
                assert(rows_view(rows@) =~= rows_view(before).push(row@));
                assert(rows_view(rows@) + rest =~= rows_view(before) + (seq![row@] + rest));
                offset = offset + used;
            },
        }
        k += 1;
    }
}

/// The rows of a block, keeping the columns the mask marks.
pub fn decode_block_with_mask(block_data: &[u8], types: &[DataType], needed_mask: &[bool]) -> (r: Vec<Row>)
    requires
        needed_mask@.len() >= types@.len(),
    ensures
        rows_view(r@) == decode_block_spec(
            block_data@,
            types@,
            needed_mask@,
            count_true(needed_mask@) == types@.len(),
        ),
{
    let mut rows: Vec<Row> = Vec::new();
    decode_block_with_mask_into(block_data, types, needed_mask, &mut rows);
    assert(rows_view(Seq::<Row>::empty()) =~= Seq::<Seq<Value>>::empty());
    rows
}

/// The rows of a block, keeping the columns listed in `needed`.
pub fn decode_block(block_data: &[u8], types: &[DataType], needed: &[usize]) -> (r: Vec<Row>)
    ensures
        ({
            let mask = Seq::new(types@.len(), |i: int| needed@.contains(i as usize));
            rows_view(r@) == decode_block_spec(
                block_data@,
                types@,
                mask,
                count_true(mask) == types@.len(),
            )
        }),
{
    let needed_mask = build_needed_mask(types.len(), needed);
    assert(needed_mask@ =~= Seq::new(types@.len(), |i: int| needed@.contains(i as usize)));
    decode_block_with_mask(block_data, types, needed_mask.as_slice())
}

// ─── Reading back what was written ───────────────────────────────────────

/// The column types of a row.
pub open spec fn types_of(vs: Seq<Value>) -> Seq<DataType> {
    vs.map_values(|v: Value| v.data_type())
}

/// No string of the row holds a zero byte (the string terminator).
pub open spec fn strings_without_zero(vs: Seq<Value>) -> bool {
    forall|i: int|
        0 <= i < vs.len() ==> match #[trigger] vs[i] {
            Value::Str(s) => !s.contains(0u8),
            _ => true,
        }
}

pub proof fn lemma_encode_values_append(a: Seq<Value>, b: Seq<Value>)
    ensures
        encode_values(a + b) == encode_values(a) + encode_values(b),
        row_size(a + b) == row_size(a) + row_size(b),
    decreases b.len(),
{
    if b.len() == 0 {
        assert(a + b =~= a);
        assert(encode_values(a) + encode_values(b) =~= encode_values(a));
    } else {
        lemma_encode_values_append(a, b.drop_last());
        assert((a + b).drop_last() =~= a + b.drop_last());
        assert((a + b).last() == b.last());
        assert(encode_values(a + b) =~= encode_values(a) + encode_values(b));
    }
}

proof fn lemma_find_zero_at(s: Seq<u8>, i: int, z: int)
    requires
        0 <= i <= z < s.len(),
        s[z] == 0,
        forall|k: int| i <= k < z ==> s[k] != 0,
    ensures
        find_zero(s, i) == z,
    decreases z - i,
{
    if i < z {
        lemma_find_zero_at(s, i + 1, z);
    }
}

proof fn lemma_decode_value_roundtrip(v: Value, s: Seq<u8>, off: int)
    requires
        0 <= off,
        off + value_size(v) <= s.len(),
        s.subrange(off, off + value_size(v)) == encode_value(v),
        v matches Value::Str(t) ==> !t.contains(0u8),
    ensures
        decode_value(s, v.data_type(), off) == Some((v, off + value_size(v))),
{
    lemma_pow256_values();
    match v {
        Value::Int32(x) => {
            lemma_le_roundtrip(u32_of_i32(x), 4);
        },
        Value::Int64(x) => {
            lemma_le_roundtrip(u64_of_i64(x), 8);
        },
        Value::Float32(b) => {
            lemma_le_roundtrip(b as nat, 4);
        },
        Value::Float64(b) => {
            lemma_le_roundtrip(b as nat, 8);
        },
        Value::Str(t) => {
            let z = off + t.len();
            assert(s[z] == s.subrange(off, off + value_size(v))[t.len() as int]);
            assert forall|k: int| off <= k < z implies s[k] != 0 by {
                assert(s[k] == s.subrange(off, off + value_size(v))[k - off]);
                assert(t[k - off] == s[k]);
            }
            lemma_find_zero_at(s, off, z);
            assert(s.subrange(off, z) =~= t);
        },
    }
}

pub proof fn lemma_single_value(v: Value)
    ensures
        encode_values(seq![v]) == encode_value(v),
        row_size(seq![v]) == value_size(v),
{
    let sv = seq![v];
    assert(sv.drop_last() =~= Seq::<Value>::empty());
    assert(sv.last() == v);
    assert(encode_values(sv.drop_last()) =~= Seq::<u8>::empty());
    assert(encode_values(sv) =~= Seq::<u8>::empty() + encode_value(v));
    assert(Seq::<u8>::empty() + encode_value(v) =~= encode_value(v));
    assert(row_size(sv.drop_last()) == 0);
}

proof fn lemma_decode_prefix_roundtrip(vs: Seq<Value>, rest: Seq<u8>, mask: Seq<bool>, i: nat)
    requires
        i <= vs.len(),
        strings_without_zero(vs),
    ensures
        decode_prefix(encode_values(vs) + rest, types_of(vs), mask, true, i) == Some(
            (vs.take(i as int), row_size(vs.take(i as int)) as int),
        ),
    decreases i,
{
    let s = encode_values(vs) + rest;
    if i == 0 {
        assert(vs.take(0) =~= Seq::<Value>::empty());
    } else {
        let j = (i - 1) as nat;
        lemma_decode_prefix_roundtrip(vs, rest, mask, j);
        let pre = vs.take(j as int);
        let v = vs[j as int];
        let off = row_size(pre) as int;
        assert(vs.take(i as int) =~= pre.push(v));
        assert(vs =~= pre + seq![v] + vs.skip(i as int));
        lemma_encode_values_append(pre + seq![v], vs.skip(i as int));
        lemma_encode_values_append(pre, seq![v]);
        lemma_single_value(v);
        lemma_encode_values_len(pre);
        lemma_encode_value_len(v);
        lemma_encode_values_len(vs);
        assert(s.subrange(off, off + value_size(v)) =~= encode_value(v));
        assert(types_of(vs)[j as int] == v.data_type());
        assert(v matches Value::Str(t) ==> !t.contains(0u8)) by {
            assert(strings_without_zero(vs));
            let _ = vs[j as int];
        }
        lemma_decode_value_roundtrip(v, s, off);
        assert(pre.push(v) =~= pre + seq![v]);
    }
}

/// Reading an encoded row gives the row back, and the offset just past it,
/// whatever bytes follow it (strings must not hold the zero terminator).
pub proof fn lemma_row_roundtrip(vs: Seq<Value>, rest: Seq<u8>, mask: Seq<bool>)
    requires
        strings_without_zero(vs),
    ensures
        decode_row_spec(encode_values(vs) + rest, types_of(vs), mask, true) == Some(
            (vs, row_size(vs) as int),
        ),
{
    lemma_decode_prefix_roundtrip(vs, rest, mask, vs.len());
    assert(vs.take(vs.len() as int) =~= vs);
}

} // verus!

//! The operators that run a physical plan.
//!
//! An operator is advanced by [`Operator::step`], which does a bounded
//! amount of work and says what came of it: a row, the end of the rows, a
//! request the buffer pool recorded for the disk (perform it and step
//! again), or progress without a row (step again).  Join filters built by
//! hash joins are published in numbered slots that scans read.
use vstd::prelude::*;
use crate::buffer_pool::{BufferPool, DiskRequest};
use crate::catalog::{ColumnStat, Range, TableSpec};
use crate::data::{Comparison, Data, DataType, Value, data_key_compare, value_key_order, value_partial_order};
use crate::hash_join::{JoinFilter, hash_data, spec_hash_value};
use crate::predicate::{CompiledPredicate, RightValue, all_fit, all_hold, literal_to_data, literal_value, op_holds, row_passes};
use crate::query::{ComparisionOperator, Predicate};
use crate::row::{Row, build_needed_mask, decode_block_with_mask_into, rows_view, values_view, decode_block_spec, count_true};
use crate::runs::{all_conform, conforms, row_conforms};

verus! {

/// What one step of an operator gave.
#[derive(Debug)]
pub enum Step {
    /// The next output row.
    Row(Row),
    /// There are no more rows.
    Done,
    /// The buffer pool recorded a request for the disk: perform it, hand
    /// the answer to the pool, and step again.
    Blocked,
    /// Work was done but no row is ready yet: step again.
    Pending,
    /// The plan cannot be run.
    Failed(EngineError),
}

/// Why a plan cannot be run.
#[derive(Debug, Clone, Copy, PartialEq, Eq, Structural)]
pub enum EngineError {
    /// A row to spill does not fit in a block.
    RowTooLarge,
}

/// The memory the operators may use.
#[derive(Debug, Clone, Copy, PartialEq, Eq, Structural)]
pub struct EngineConfig {
    pub sort_memory_bytes: usize,
    pub hash_join_budget: usize,
    pub num_frames: usize,
    pub block_size: usize,
}

/// Every published join filter is usable.
pub open spec fn slots_wf(slots: Seq<Option<JoinFilter>>) -> bool {
    forall|i: int| 0 <= i < slots.len() ==> (#[trigger] slots[i] matches Some(f) ==> f.wf())
}

/// The concatenation of two rows.
pub fn combine_rows(left: &Row, right: &Row) -> (r: Row)
    ensures
        r@ == left@ + right@,
{
    let mut values = crate::row::copy_values(&left.values);
    let mut i: usize = 0;
    let ghost l = left@;
    while i < right.values.len()
        invariant
            i <= right.values.len(),
            values_view(values@) == l + right@.subrange(0, i as int),
        decreases right.values.len() - i,
    {
        let ghost before = values@;
        values.push(right.values[i].copy());
        assert(values_view(values@) =~= values_view(before).push(right@[i as int]));
        assert(right@.subrange(0, i + 1) =~= right@.subrange(0, i as int).push(right@[i as int]));
        i += 1;
    }
    assert(right@.subrange(0, i as int) =~= right@);
    Row { values }
}

proof fn lemma_combine_conforms(a: Seq<Value>, b: Seq<Value>, ta: Seq<DataType>, tb: Seq<DataType>)
    requires
        conforms(a, ta),
        conforms(b, tb),
    ensures
        conforms(a + b, ta + tb),
{
    assert forall|i: int| 0 <= i < (a + b).len() implies (#[trigger] (a + b)[i]).data_type() == (ta + tb)[i] by {
        if i < a.len() {
            assert((a + b)[i] == a[i]);
        } else {
            assert((a + b)[i] == b[i - a.len()]);
        }
    }
}

/// The values at positions `a` and `b` of a row are equal (as `==` on
/// values compares them).
pub open spec fn keys_equal(row: Seq<Value>, a: int, b: int) -> bool {
    0 <= a < row.len() && 0 <= b < row.len() && crate::data::value_eq(row[a], row[b])
}

/// The values of `row` at `indices`, in that order.
pub open spec fn projected(row: Seq<Value>, indices: Seq<usize>) -> Seq<Value> {
    Seq::new(indices.len(), |i: int| row[indices[i] as int])
}

/// Each left row paired with every right row, left rows in order, and
/// for each the right rows in order.
pub open spec fn cross_rows(ls: Seq<Seq<Value>>, rs: Seq<Seq<Value>>) -> Seq<Seq<Value>>
    decreases ls.len(),
{
    if ls.len() == 0 {
        Seq::empty()
    } else {
        cross_rows(ls.drop_last(), rs) + rs.map_values(|r: Seq<Value>| ls.last() + r)
    }
}

/// A chunk of left rows paired with right rows read one after another:
/// for each right row in turn, every left row of the chunk with it.
pub open spec fn chunk_pairs(rs: Seq<Seq<Value>>, chunk: Seq<Seq<Value>>) -> Seq<Seq<Value>>
    decreases rs.len(),
{
    if rs.len() == 0 {
        Seq::empty()
    } else {
        chunk_pairs(rs.drop_last(), chunk) + chunk.map_values(|l: Seq<Value>| l + rs.last())
    }
}

/// Rows handed out after a skip: a row handed out later comes last.
proof fn lemma_skip_push(s: Seq<Seq<Value>>, k: nat, x: Seq<Value>)
    requires
        k <= s.len(),
    ensures
        s.push(x).skip(k as int) == s.skip(k as int).push(x),
{
    assert(s.push(x).skip(k as int) =~= s.skip(k as int).push(x));
}

/// One more left row adds its pairs with every right row.
proof fn lemma_cross_push(ls: Seq<Seq<Value>>, l: Seq<Value>, rs: Seq<Seq<Value>>)
    ensures
        cross_rows(ls.push(l), rs) == cross_rows(ls, rs) + rs.map_values(|r: Seq<Value>| l + r),
{
    assert(ls.push(l).drop_last() =~= ls);
}

/// The pairs of a left row with one more right row.
proof fn lemma_pairs_take(l: Seq<Value>, rs: Seq<Seq<Value>>, k: int)
    requires
        0 <= k < rs.len(),
    ensures
        rs.take(k + 1).map_values(|r: Seq<Value>| l + r) == rs.take(k).map_values(|r: Seq<Value>| l + r).push(l + rs[k]),
{
    assert(rs.take(k + 1).map_values(|r: Seq<Value>| l + r) =~= rs.take(k).map_values(|r: Seq<Value>| l + r).push(l + rs[k]));
}

/// The rows that pass every predicate, in order.
pub open spec fn passing(rows: Seq<Seq<Value>>, preds: Seq<CompiledPredicate>) -> Seq<Seq<Value>>
    decreases rows.len(),
{
    if rows.len() == 0 {
        Seq::empty()
    } else {
        let rest = passing(rows.drop_last(), preds);
        if all_hold(preds, rows.last()) { rest.push(rows.last()) } else { rest }
    }
}

pub fn project_row(row: &Row, indices: &Vec<usize>) -> (r: Row)
    requires
        forall|i: int| 0 <= i < indices@.len() ==> #[trigger] indices@[i] < row@.len(),
    ensures
        r@ == projected(row@, indices@),
{
    let mut values: Vec<Data> = Vec::with_capacity(indices.len());
    let mut i: usize = 0;
    while i < indices.len()
        invariant
            i <= indices.len(),
            forall|k: int| 0 <= k < indices@.len() ==> #[trigger] indices@[k] < row@.len(),
            values_view(values@) == Seq::new(i as nat, |k: int| row@[indices@[k] as int]),
        decreases indices.len() - i,
    {
        let ghost before = values@;
        values.push(row.values[indices[i]].copy());
        assert(values_view(values@) =~= values_view(before).push(row@[indices@[i as int] as int]));
        assert(values_view(values@) =~= Seq::new((i + 1) as nat, |k: int| row@[indices@[k] as int]));
        i += 1;
    }
    Row { values }
}

/// The memory estimate of one column of a type.
pub open spec fn type_memory(t: DataType) -> int {
    match t {
        DataType::Int32 => 36,
        DataType::Int64 => 40,
        DataType::Float32 => 36,
        DataType::Float64 => 40,
        DataType::String => 106,
    }
}

/// The memory estimate of a row of these types: 24 bytes, 32 per column,
/// and 4 or 8 per number, 74 per string.
pub open spec fn types_memory(types: Seq<DataType>) -> int
    decreases types.len(),
{
    if types.len() == 0 {
        24
    } else {
        types_memory(types.drop_last()) + type_memory(types.last())
    }
}

/// An estimate of the memory a row of these types takes (saturating).
pub fn estimate_row_size(types: &Vec<DataType>) -> (r: usize)
    ensures
        r == if types_memory(types@) <= usize::MAX { types_memory(types@) as usize } else { usize::MAX },
{
    let mut size: usize = 24;
    let mut i: usize = 0;
    while i < types.len()
        invariant
            i <= types.len(),
            types_memory(types@.take(i as int)) >= 24,
            size == if types_memory(types@.take(i as int)) <= usize::MAX { types_memory(types@.take(i as int)) as usize } else { usize::MAX },
        decreases types.len() - i,
    {
        assert(types@.take(i + 1).drop_last() =~= types@.take(i as int));
        assert(types@.take(i + 1).last() == types@[i as int]);
        let add: usize = match types[i] {
            DataType::Int32 => 36,
            DataType::Int64 => 40,
            DataType::Float32 => 36,
            DataType::Float64 => 40,
            DataType::String => 106,
        };
        size = size.saturating_add(add);
        i += 1;
    }
    assert(types@.take(i as int) =~= types@);
    size
}

/// The memory a row takes: 24 bytes, 32 per value, and the payload (a
/// string's bytes and one more).
pub open spec fn row_memory_bytes(r: Seq<Value>) -> int
    decreases r.len(),
{
    if r.len() == 0 {
        24
    } else {
        row_memory_bytes(r.drop_last()) + 32 + match r.last() {
            Value::Int32(_) => 4int,
            Value::Int64(_) => 8,
            Value::Float32(_) => 4,
            Value::Float64(_) => 8,
            Value::Str(s) => s.len() + 1int,
        }
    }
}

/// The memory a row takes, saturating at `usize::MAX`.
pub fn estimate_row_memory_bytes(row: &Row) -> (r: usize)
    ensures
        r == if row_memory_bytes(row@) <= usize::MAX { row_memory_bytes(row@) as usize } else { usize::MAX },
{
    let mut total: usize = 24;
    let mut exact: bool = true;
    let mut i: usize = 0;
    while i < row.values.len()
        invariant
            i <= row.values.len(),
            exact ==> total as int == row_memory_bytes(row@.take(i as int)),
            !exact ==> total == usize::MAX && row_memory_bytes(row@.take(i as int)) > usize::MAX,
            row_memory_bytes(row@.take(i as int)) >= 24,
        decreases row.values.len() - i,
    {
        assert(row@.take(i + 1).drop_last() =~= row@.take(i as int));
        assert(row@.take(i + 1).last() == row@[i as int]);
        let payload: usize = match &row.values[i] {
            Data::Int32(_) => 4,
            Data::Int64(_) => 8,
            Data::Float32(_) => 4,
            Data::Float64(_) => 8,
            Data::String(s) => s.len().saturating_add(1),
        };
        let step = payload.saturating_add(32);
        let exact_step = match &row.values[i] {
            Data::String(s) => s.len() < usize::MAX - 33,
            _ => true,
        };
        if exact && exact_step && step <= usize::MAX - total {
            total = total + step;
        } else {
            total = usize::MAX;
            exact = false;
        }
        i += 1;
    }
    assert(row@.take(i as int) =~= row@);
    total
}

// ─── Scans ───────────────────────────────────────────────────────────────

/// A pushed predicate as the scan uses it to skip blocks.
#[derive(Debug)]
pub struct PrunePredicate {
    /// The column's position in the table.
    pub col: usize,
    pub operator: ComparisionOperator,
    pub value: Data,
    /// The column's range statistics exclude every match.
    pub impossible: bool,
    /// The column is stored in ascending order.
    pub ordered: bool,
}

/// How a column value compares with a literal: by the literal's type,
/// floats by `total_cmp`; a value of another type compares equal.
pub open spec fn literal_cmp(row_val: Value, lit: Value) -> Comparison {
    value_key_order(lit.data_type(), row_val, lit)
}

/// The range `[lower, upper]` of a column holds no value satisfying
/// `column <op> lit`.
pub open spec fn range_excludes(op: ComparisionOperator, lit: Value, lower: Value, upper: Value) -> bool {
    let ol = literal_cmp(lower, lit);
    let ou = literal_cmp(upper, lit);
    match op {
        ComparisionOperator::GT => ou == Comparison::Less || ou == Comparison::Equal,
        ComparisionOperator::GTE => ou == Comparison::Less,
        ComparisionOperator::LT => ol == Comparison::Greater || ol == Comparison::Equal,
        ComparisionOperator::LTE => ol == Comparison::Greater,
        ComparisionOperator::EQ => ol == Comparison::Greater || ou == Comparison::Less,
        ComparisionOperator::NE => false,
    }
}

/// A range statistic rules out only what it must: where `[lower, upper]`
/// excludes `column <op> lit`, no value of the column's type between
/// `lower` and `upper` satisfies it (for integer and string columns, whose
/// comparison is the one the range is kept by).
pub proof fn lemma_range_excludes_sound(op: ComparisionOperator, lit: Value, lower: Value, upper: Value, v: Value)
    requires
        !(lit is Float32) && !(lit is Float64),
        lower.data_type() == lit.data_type(),
        upper.data_type() == lit.data_type(),
        v.data_type() == lit.data_type(),
        value_key_order(lit.data_type(), lower, v) != Comparison::Greater,
        value_key_order(lit.data_type(), v, upper) != Comparison::Greater,
        range_excludes(op, lit, lower, upper),
    ensures
        !op_holds(op, v, lit),
{
    let dt = lit.data_type();
    crate::sort::lemma_value_order_laws(dt, v, upper, lit);
    crate::sort::lemma_value_order_laws(dt, lower, v, lit);
    crate::sort::lemma_value_order_laws(dt, v, lit, upper);
    crate::sort::lemma_value_order_laws(dt, lit, v, lower);
    crate::sort::lemma_value_order_laws(dt, upper, v, lit);
    crate::sort::lemma_value_order_laws(dt, lit, lower, v);
    assert(value_partial_order(v, lit) == Some(value_key_order(dt, v, lit)));
    if op == ComparisionOperator::EQ && crate::data::value_eq(v, lit) {
        assert(v == lit);
    }
}

/// Whether a column's range statistic rules out every row.
pub fn range_prunes(op: ComparisionOperator, lit: &Data, range: &Range) -> (r: bool)
    ensures
        r == range_excludes(op, lit@, range.lower_bound@, range.upper_bound@),
{
    let dt = lit.data_type();
    let ol = data_key_compare(dt, &range.lower_bound, lit);
    let ou = data_key_compare(dt, &range.upper_bound, lit);
    match op {
        ComparisionOperator::GT => ou == Comparison::Less || ou == Comparison::Equal,
        ComparisionOperator::GTE => ou == Comparison::Less,
        ComparisionOperator::LT => ol == Comparison::Greater || ol == Comparison::Equal,
        ComparisionOperator::LTE => ol == Comparison::Greater,
        ComparisionOperator::EQ => ol == Comparison::Greater || ou == Comparison::Less,
        ComparisionOperator::NE => false,
    }
}

/// Some range statistic of the list rules out every row.
pub open spec fn stats_exclude(stats: Seq<ColumnStat>, op: ComparisionOperator, lit: Value) -> bool {
    exists|i: int| 0 <= i < stats.len() && (#[trigger] stats[i] matches ColumnStat::RangeStat(rg) && range_excludes(op, lit, rg.lower_bound@, rg.upper_bound@))
}

/// Whether the column statistics rule out every row, and whether they say
/// the column is stored in order.
fn stats_facts(stats: &Option<Vec<ColumnStat>>, op: ComparisionOperator, lit: &Data) -> (r: (bool, bool))
    ensures
        r.0 == (stats matches Some(v) && stats_exclude(v@, op, lit@)),
        r.1 == (stats matches Some(v) && exists|i: int| 0 <= i < v@.len() && #[trigger] v@[i] matches ColumnStat::IsPhysicallyOrdered),
{
    match stats {
        None => (false, false),
        Some(v) => {
            let mut impossible = false;
            let mut ordered = false;
            let mut i: usize = 0;
            while i < v.len()
                invariant
                    i <= v.len(),
                    impossible == exists|k: int| 0 <= k < i && (#[trigger] v@[k] matches ColumnStat::RangeStat(rg) && range_excludes(op, lit@, rg.lower_bound@, rg.upper_bound@)),
                    ordered == exists|k: int| 0 <= k < i && #[trigger] v@[k] matches ColumnStat::IsPhysicallyOrdered,
                decreases v.len() - i,
            {
                match &v[i] {
                    ColumnStat::RangeStat(rg) => {
                        if range_prunes(op, lit, rg) {
                            impossible = true;
                        }
                    },
                    ColumnStat::IsPhysicallyOrdered => {
                        ordered = true;
                    },
                    _ => {},
                }
                i += 1;
            }
            (impossible, ordered)
        },
    }
}

/// Where a scan is.
#[derive(Debug, Clone, Copy, PartialEq, Eq, Structural)]
pub enum ScanPhase {
    /// Asking where the table's file starts.
    Locate,
    /// Asking how many blocks the table's file has.
    Size,
    /// Narrowing the range of blocks by the pushed predicates.
    Prune,
    /// Reading blocks.
    Scan,
}

/// A binary search for the first (or, `upper`, last) block that may hold
/// a matching row, among blocks `low .. high`.
#[derive(Debug, Clone, Copy, PartialEq, Eq, Structural)]
pub struct BlockSearch {
    pub upper: bool,
    pub low: u64,
    pub high: u64,
}

/// Reads a table's blocks, keeping some columns and the rows that pass the
/// pushed predicates and the join filter of its slot.
pub struct TableScanner {
    /// The rows handed out so far, in order.
    out: Ghost<Seq<Seq<Value>>>,
    /// In the current block search: the value read from each block probed
    /// (its first row's for an upper-end search, its last row's for a
    /// lower-end one), and the range searched.
    probed: Ghost<Map<u64, Value>>,
    search_from: Ghost<u64>,
    search_to: Ghost<u64>,
    file_id: String,
    all_types: Vec<DataType>,
    needed_mask: Vec<bool>,
    out_types: Vec<DataType>,
    prune: Vec<PrunePredicate>,
    phase: ScanPhase,
    prune_idx: usize,
    search: Option<BlockSearch>,
    start_block: u64,
    end_block: u64,
    current_block: u64,
    scan_predicates: Vec<CompiledPredicate>,
    dynamic_filter: Option<(usize, usize)>,
    batch: Vec<Row>,
    batch_pos: usize,
}

impl TableScanner {
    pub closed spec fn out_types(&self) -> Seq<DataType> {
        self.out_types@
    }

    /// The column types of the rows it produces.
    pub fn out_types_exec(&self) -> (r: Vec<DataType>)
        ensures
            r@ == self.out_types(),
    {
        crate::plan::copy_types(&self.out_types)
    }

    /// What the block search has learnt, for a column stored in ascending
    /// order: an upper-end search (for `<`, `<=`, `=`) has its low end past
    /// blocks whose first value is not above the literal, and its high end
    /// at a block whose first value is above it (or at the range's end); a
    /// lower-end search (for `>`, `>=`, `=`) has its low end past blocks
    /// whose last value is below the literal, and its high end at a block
    /// whose last value is not (or at the range's end).  So the blocks it
    /// drops hold no row that passes.
    pub closed spec fn search_ok(&self) -> bool {
        match self.search {
            Some(s) => {
                let lit = self.prune@[self.prune_idx as int].value@;
                let dt = lit.data_type();
                let pr = self.probed@;
                &&& self.search_from@ <= s.low
                &&& s.high <= self.search_to@
                &&& if s.upper {
                    &&& (s.low == self.search_from@ || (pr.contains_key((s.low - 1) as u64)
                        && value_key_order(dt, pr[(s.low - 1) as u64], lit) != Comparison::Greater))
                    &&& (s.high == self.search_to@ || (pr.contains_key(s.high)
                        && value_key_order(dt, pr[s.high], lit) == Comparison::Greater))
                } else {
                    &&& (s.low == self.search_from@ || (pr.contains_key((s.low - 1) as u64)
                        && value_key_order(dt, pr[(s.low - 1) as u64], lit) == Comparison::Less))
                    &&& (s.high == self.search_to@ || (pr.contains_key(s.high)
                        && value_key_order(dt, pr[s.high], lit) != Comparison::Less))
                }
            },
            None => true,
        }
    }

    /// The current block search, if any: the range left to search.
    pub closed spec fn search_state(&self) -> Option<BlockSearch> {
        self.search
    }

    /// The range the current block search started from.
    pub closed spec fn search_range(&self) -> (u64, u64) {
        (self.search_from@, self.search_to@)
    }

    /// The values read from the blocks probed by the current search.
    pub closed spec fn probed_values(&self) -> Map<u64, Value> {
        self.probed@
    }

    /// The literal the current block search compares with.
    pub closed spec fn search_literal(&self) -> Value {
        self.prune@[self.prune_idx as int].value@
    }

    /// An upper-end block search keeps every block that may start with a
    /// value not above the literal: the blocks below its low end start with
    /// such values, and its high end is a block that starts above the
    /// literal or the end of the range searched.
    pub proof fn lemma_upper_search_sound(&self)
        requires
            self.wf(),
            self.search_state() matches Some(s) && s.upper,
        ensures
            ({
                let s = self.search_state()->0;
                let lit = self.search_literal();
                let pr = self.probed_values();
                &&& s.low == self.search_range().0 || (pr.contains_key((s.low - 1) as u64)
                    && value_key_order(lit.data_type(), pr[(s.low - 1) as u64], lit) != Comparison::Greater)
                &&& s.high == self.search_range().1 || (pr.contains_key(s.high)
                    && value_key_order(lit.data_type(), pr[s.high], lit) == Comparison::Greater)
            }),
    {
    }

    /// A lower-end block search keeps every block that may end with a value
    /// not below the literal: the block below its low end ends below the
    /// literal, and its high end is a block that does not, or the end of
    /// the range searched.
    pub proof fn lemma_lower_search_sound(&self)
        requires
            self.wf(),
            self.search_state() matches Some(s) && !s.upper,
        ensures
            ({
                let s = self.search_state()->0;
                let lit = self.search_literal();
                let pr = self.probed_values();
                &&& s.low == self.search_range().0 || (pr.contains_key((s.low - 1) as u64)
                    && value_key_order(lit.data_type(), pr[(s.low - 1) as u64], lit) == Comparison::Less)
                &&& s.high == self.search_range().1 || (pr.contains_key(s.high)
                    && value_key_order(lit.data_type(), pr[s.high], lit) != Comparison::Less)
            }),
    {
    }

    /// The rows handed out so far (recorded by `Operator::step`).
    pub closed spec fn spec_out(&self) -> Seq<Seq<Value>> {
        self.out@
    }

    /// The file it reads.
    pub closed spec fn spec_file_id(&self) -> Seq<char> {
        self.file_id@
    }

    /// Where it stands: locating the file, sizing it, pruning, scanning.
    pub closed spec fn phase_view(&self) -> ScanPhase {
        self.phase
    }

    /// The range of blocks to read: first, and one past the last.
    pub closed spec fn block_range(&self) -> (u64, u64) {
        (self.start_block, self.end_block)
    }

    /// The literal predicates every row of the scan satisfies.
    pub closed spec fn spec_scan_predicates(&self) -> Seq<CompiledPredicate> {
        self.scan_predicates@
    }

    pub closed spec fn wf(&self) -> bool {
        &&& self.needed_mask@.len() == self.all_types@.len()
        &&& all_fit(self.scan_predicates@, self.out_types@.len())
        &&& (self.dynamic_filter matches Some((c, _)) ==> c < self.out_types@.len())
        &&& self.batch_pos <= self.batch@.len()
        &&& forall|i: int| self.batch_pos <= i < self.batch@.len() ==> conforms(#[trigger] rows_view(self.batch@)[i], self.out_types@)
        &&& forall|i: int| self.batch_pos <= i < self.batch@.len() ==> all_hold(self.scan_predicates@, #[trigger] rows_view(self.batch@)[i])
        &&& forall|i: int| 0 <= i < self.prune@.len() ==> #[trigger] self.prune@[i].col < self.all_types@.len()
        &&& (self.search is Some ==> self.prune_idx < self.prune@.len())
        &&& self.search_ok()
    }

    /// The scan of `table` keeping the columns at `needed` (ascending).
    pub fn new(table: &TableSpec, needed: &Vec<usize>, pushed: &Vec<Predicate>, dynamic_filter: &Option<(String, usize)>) -> (r: TableScanner)
        requires
            forall|i: int| 0 <= i < needed@.len() ==> #[trigger] needed@[i] < table.column_specs@.len(),
        ensures
            r.wf(),
            r.out_types() == Seq::new(needed@.len(), |i: int| table.column_specs@[needed@[i] as int].data_type),
            r.spec_file_id() == table.file_id@,
            r.phase_view() == ScanPhase::Locate,
            forall|k: int| 0 <= k < r.spec_scan_predicates().len() ==> (#[trigger] r.spec_scan_predicates()[k]).right is Literal,
            r.spec_scan_predicates().map_values(|c: CompiledPredicate| check_view(c)) == scan_checks(
                table.column_specs@, needed@, crate::query::preds_view(pushed@)),
    {
        let cols = &table.column_specs;
        let mut all_types: Vec<DataType> = Vec::with_capacity(cols.len());
        let mut i: usize = 0;
        while i < cols.len()
            invariant
                i <= cols.len(),
                all_types@.len() == i,
            decreases cols.len() - i,
        {
            all_types.push(cols[i].data_type);
            i += 1;
        }
        let mut out_types: Vec<DataType> = Vec::with_capacity(needed.len());
        let mut j: usize = 0;
        while j < needed.len()
            invariant
                j <= needed.len(),
                forall|k: int| 0 <= k < needed@.len() ==> #[trigger] needed@[k] < cols@.len(),
                out_types@ == Seq::new(j as nat, |k: int| cols@[needed@[k] as int].data_type),
            decreases needed.len() - j,
        {
            out_types.push(cols[needed[j]].data_type);
            assert(out_types@ =~= Seq::new((j + 1) as nat, |k: int| cols@[needed@[k] as int].data_type));
            j += 1;
        }
        let needed_mask = build_needed_mask(all_types.len(), needed.as_slice());
        // The pushed predicates, resolved against the table and the kept columns.
        let (prune, scan_predicates) = compile_pushed(cols, needed, pushed, out_types.len());
        let dyn_idx = match dynamic_filter {
            Some((name, slot)) => match column_position(cols, name) {
                Some(full) => match index_of_usize(needed, full) {
                    Some(projected) => Some((projected, *slot)),
                    None => None,
                },
                None => None,
            },
            None => None,
        };
        let r = TableScanner {
            out: Ghost(Seq::empty()),
            file_id: table.file_id.clone(),
            all_types,
            needed_mask,
            out_types,
            prune,
            phase: ScanPhase::Locate,
            prune_idx: 0,
            search: None,
            probed: Ghost(Map::empty()),
            search_from: Ghost(0),
            search_to: Ghost(0),
            start_block: 0,
            end_block: 0,
            current_block: 0,
            scan_predicates,
            dynamic_filter: dyn_idx,
            batch: Vec::new(),
            batch_pos: 0,
        };
        r
    }

    /// A decoded row the scan hands out: of the output types, passing the
    /// pushed predicates and the join filter, if one is published.
    pub closed spec fn kept(&self, row: Seq<Value>, slots: Seq<Option<JoinFilter>>) -> bool {
        &&& conforms(row, self.out_types@)
        &&& all_hold(self.scan_predicates@, row)
        &&& match self.dynamic_filter {
            Some((col, slot)) => (slot < slots.len() && slots[slot as int] is Some) ==> slots[slot as int]->0.admits(
                spec_hash_value(row[col as int]),
            ),
            None => true,
        }
    }

    /// The rows of `count` blocks of `raw` the scan hands out: each block
    /// decoded to the needed columns, the rows it keeps, in file order.
    pub closed spec fn batch_rows(&self, raw: Seq<u8>, bs: nat, count: nat, slots: Seq<Option<JoinFilter>>) -> Seq<Seq<Value>>
        decreases count,
    {
        if count == 0 {
            Seq::empty()
        } else {
            self.batch_rows(raw, bs, (count - 1) as nat, slots) + decode_block_spec(
                raw.subrange(((count - 1) * bs) as int, (count * bs) as int),
                self.all_types@,
                self.needed_mask@,
                count_true(self.needed_mask@) == self.all_types@.len(),
            ).filter(|row: Seq<Value>| self.kept(row, slots))
        }
    }

    /// Reading blocks (the file is located and the range narrowed).
    pub closed spec fn scanning(&self) -> bool {
        self.phase == ScanPhase::Scan
    }

    /// The next block the scan reads.
    pub closed spec fn read_position(&self) -> u64 {
        self.current_block
    }

    /// The rows read and not yet handed out, next first.
    pub closed spec fn pending_rows(&self) -> Seq<Seq<Value>> {
        rows_view(self.batch@).subrange(self.batch_pos as int, self.batch@.len() as int)
    }

    /// The number of blocks the next read of the scan asks for.
    pub closed spec fn next_read_count(&self, bs: nat) -> int {
        let per: int = if bs == 0 { 4096int } else { 4194304int / (bs as int) };
        let batch: int = if per < 64 { 64int } else if per > 4096 { 4096int } else { per };
        let remaining: int = self.end_block - self.current_block;
        if batch < remaining { batch } else { remaining }
    }

    /// The row passes the pushed predicates and the join filter, if one is published.
    fn keeps(&self, row: &Row, slots: &Vec<Option<JoinFilter>>) -> (r: bool)
        requires
            self.wf(),
            conforms(row@, self.out_types@),
            slots_wf(slots@),
        ensures
            r == (all_hold(self.scan_predicates@, row@) && match self.dynamic_filter {
                Some((col, slot)) => (slot < slots@.len() && slots@[slot as int] is Some) ==> slots@[slot as int]->0.admits(
                    spec_hash_value(row@[col as int]),
                ),
                None => true,
            }),
    {
        if !row_passes(&self.scan_predicates, row) {
            return false;
        }
        match self.dynamic_filter {
            Some((col, slot)) => {
                if slot < slots.len() {
                    match &slots[slot] {
                        Some(f) => {
                            assert(slots@[slot as int] matches Some(ff) ==> ff.wf());
                            f.might_contain_hash(hash_data(&row.values[col]))
                        },
                        None => true,
                    }
                } else {
                    true
                }
            },
            None => true,
        }
    }

    /// Every block of the file was read and every row handed out.
    pub closed spec fn finished(&self) -> bool {
        &&& self.phase == ScanPhase::Scan
        &&& self.batch_pos >= self.batch@.len()
        &&& self.current_block >= self.end_block
    }

    /// One step of the scan.
    pub fn step(&mut self, pool: &mut BufferPool, slots: &Vec<Option<JoinFilter>>) -> (r: Step)
        requires
            old(self).wf(),
            old(pool).wf(),
            slots_wf(slots@),
        ensures
            final(self).spec_out() == old(self).spec_out(),
            final(self).wf(),
            final(pool).wf(),
            final(pool).spec_block_size() == old(pool).spec_block_size(),
            final(pool).spec_num_frames() == old(pool).spec_num_frames(),
            final(self).out_types() == old(self).out_types(),
            final(self).spec_scan_predicates() == old(self).spec_scan_predicates(),
            r matches Step::Row(row) ==> conforms(row@, old(self).out_types()) && all_hold(old(self).spec_scan_predicates(), row@),
            old(self).finished() ==> r is Done && *final(self) == *old(self),
            r is Done ==> final(self).finished(),
            (r is Pending || r is Row) ==> final(self).closer_than(old(self)),
            r is Blocked ==> *final(self) == *old(self) && final(pool).request() is Some,
            final(self).spec_file_id() == old(self).spec_file_id(),
            old(self).phase_view() == ScanPhase::Locate ==> {
                let known = old(pool).file_start_known(old(self).spec_file_id());
                &&& (r is Pending <==> known is Some)
                &&& r is Pending ==> final(self).phase_view() == ScanPhase::Size && final(self).block_range().0 == known->0
            },
            old(self).phase_view() == ScanPhase::Size ==> {
                let known = old(pool).file_size_known(old(self).spec_file_id());
                &&& (r is Pending <==> known is Some)
                &&& r is Pending ==> final(self).phase_view() == ScanPhase::Prune && final(self).block_range() == (
                    old(self).block_range().0, old(self).block_range().0.saturating_add(known->0))
            },
            (old(self).scanning() && old(self).pending_rows().len() > 0) ==> (r matches Step::Row(row)
                && row@ == old(self).pending_rows()[0] && final(self).pending_rows() == old(self).pending_rows().drop_first()),
            r matches Step::Row(row) ==> row@ == old(self).pending_rows()[0],
            (old(self).scanning() && old(self).pending_rows().len() == 0 && !old(self).finished()) ==> {
                let bs = old(pool).spec_block_size() as nat;
                &&& (old(pool).answered() matches Some((s, c, _)) && s == old(self).read_position()
                    && c == old(self).next_read_count(bs)) ==> r is Pending
                &&& r is Pending ==> (old(pool).answered() matches Some((s, c, d)) && s == old(self).read_position()
                    && c == old(self).next_read_count(bs) && final(self).read_position() == old(self).read_position() + c
                    && final(self).pending_rows() == old(self).batch_rows(d, bs, c as nat, slots@))
            },
    {
        match self.phase {
            ScanPhase::Locate => {
                let start = match pool.get_file_start_block(&self.file_id) {
                    Some(s) => s,
                    None => return Step::Blocked,
                };
                self.start_block = start;
                self.phase = ScanPhase::Size;
                Step::Pending
            },
            ScanPhase::Size => {
                let num = match pool.get_file_num_blocks(&self.file_id) {
                    Some(n) => n,
                    None => return Step::Blocked,
                };
                self.end_block = self.start_block.saturating_add(num);
                self.phase = ScanPhase::Prune;
                Step::Pending
            },
            ScanPhase::Prune => self.prune_step(pool),
            ScanPhase::Scan => {
                if self.batch_pos < self.batch.len() {
                    let mut row = Row { values: Vec::new() };
                    let ghost bv = rows_view(self.batch@);
                    self.batch.set_and_swap(self.batch_pos, &mut row);
                    assert(row@ == bv[self.batch_pos as int]);
                    self.batch_pos += 1;
                    assert(self.pending_rows() =~= old(self).pending_rows().drop_first());
                    assert forall|i: int| self.batch_pos <= i < self.batch@.len() implies conforms(#[trigger] rows_view(self.batch@)[i], self.out_types@) by {
                        assert(rows_view(self.batch@)[i] == bv[i]);
                    }
                    assert forall|i: int| self.batch_pos <= i < self.batch@.len() implies all_hold(self.scan_predicates@, #[trigger] rows_view(self.batch@)[i]) by {
                        assert(rows_view(self.batch@)[i] == bv[i]);
                    }
                    return Step::Row(row);
                }
                if self.current_block >= self.end_block {
                    return Step::Done;
                }
                self.load_batch(pool, slots)
            },
        }
    }
}


/// `a` comes before `b` in lexicographic order.
pub open spec fn lex_less(a: (int, int, int, int), b: (int, int, int, int)) -> bool {
    ||| a.0 < b.0
    ||| (a.0 == b.0 && a.1 < b.1)
    ||| (a.0 == b.0 && a.1 == b.1 && a.2 < b.2)
    ||| (a.0 == b.0 && a.1 == b.1 && a.2 == b.2 && a.3 < b.3)
}

/// A strictly smaller progress measure: by phase, then lexicographically.
pub open spec fn progress_less(a: (int, (int, int, int, int)), b: (int, (int, int, int, int))) -> bool {
    a.0 < b.0 || (a.0 == b.0 && lex_less(a.1, b.1))
}

/// The pushed predicates resolved against a table's columns `cols` and
/// the kept columns `needed`: those to prune blocks by, and the literal
/// checks on the kept columns (see `scan_checks`).
fn compile_pushed(
    cols: &Vec<crate::catalog::ColumnSpec>,
    needed: &Vec<usize>,
    pushed: &Vec<Predicate>,
    width: usize,
) -> (r: (Vec<PrunePredicate>, Vec<CompiledPredicate>))
    requires
        width == needed@.len(),
    ensures
        forall|k: int| 0 <= k < r.0@.len() ==> #[trigger] r.0@[k].col < cols@.len(),
        all_fit(r.1@, width as nat),
        forall|k: int| 0 <= k < r.1@.len() ==> (#[trigger] r.1@[k]).right is Literal,
        r.1@.map_values(|c: CompiledPredicate| check_view(c)) == scan_checks(cols@, needed@, crate::query::preds_view(pushed@)),
{
    let mut prune: Vec<PrunePredicate> = Vec::new();
    let mut scan_predicates: Vec<CompiledPredicate> = Vec::new();
    let mut p: usize = 0;
    while p < pushed.len()
        invariant
            p <= pushed.len(),
            all_fit(scan_predicates@, width as nat),
            width == needed@.len(),
            forall|k: int| 0 <= k < prune@.len() ==> #[trigger] prune@[k].col < cols@.len(),
            forall|k: int| 0 <= k < scan_predicates@.len() ==> (#[trigger] scan_predicates@[k]).right is Literal,
            scan_predicates@.map_values(|c: CompiledPredicate| check_view(c)) == scan_checks(
                cols@, needed@, crate::query::preds_view(pushed@).subrange(0, p as int)),
        decreases pushed.len() - p,
    {
        let pred = &pushed[p];
        let ghost pv = crate::query::preds_view(pushed@);
        let ghost before = scan_predicates@;
        proof {
            assert(pv.subrange(0, p + 1).drop_last() =~= pv.subrange(0, p as int));
            assert(pv.subrange(0, p + 1).last() == pushed@[p as int]@);
        }
        match (column_position(cols, &pred.column_name), literal_to_data(&pred.value)) {
            (Some(idx), Some(lit)) => {
                let (impossible, ordered) = stats_facts(&cols[idx].stats, pred.operator, &lit);
                match index_of_usize(needed, idx) {
                    Some(projected) => {
                        scan_predicates.push(CompiledPredicate { left_idx: projected, operator: pred.operator, right: RightValue::Literal(lit.copy()) });
                        assert(scan_predicates@.map_values(|c: CompiledPredicate| check_view(c)) =~= before.map_values(
                            |c: CompiledPredicate| check_view(c)).push((projected, pred.operator, lit@)));
                    },
                    None => {},
                }
                prune.push(PrunePredicate { col: idx, operator: pred.operator, value: lit, impossible, ordered });
            },
            _ => {},
        }
        p += 1;
    }
    assert(crate::query::preds_view(pushed@).subrange(0, p as int) =~= crate::query::preds_view(pushed@));
    (prune, scan_predicates)
}

/// The position of the first column named `name`.
#[verifier::opaque]
pub open spec fn first_named(cols: Seq<crate::catalog::ColumnSpec>, name: Seq<char>) -> Option<int> {
    if exists|i: int| 0 <= i < cols.len() && #[trigger] cols[i].column_name@ == name {
        Some(choose|i: int| 0 <= i < cols.len() && cols[i].column_name@ == name
            && forall|j: int| 0 <= j < i ==> (#[trigger] cols[j]).column_name@ != name)
    } else {
        None
    }
}

/// The first position of `x` in `v`.
#[verifier::opaque]
pub open spec fn first_index(v: Seq<usize>, x: usize) -> Option<int> {
    if exists|i: int| 0 <= i < v.len() && #[trigger] v[i] == x {
        Some(choose|i: int| 0 <= i < v.len() && v[i] == x && forall|j: int| 0 <= j < i ==> #[trigger] v[j] != x)
    } else {
        None
    }
}

/// The literal checks a scan makes on its rows: each pushed predicate on
/// a column of the table that the scan keeps, with a literal value, as
/// (position among the kept columns, operator, value).
pub open spec fn scan_checks(
    cols: Seq<crate::catalog::ColumnSpec>,
    needed: Seq<usize>,
    pushed: Seq<crate::query::PredicateView>,
) -> Seq<(usize, ComparisionOperator, Value)>
    decreases pushed.len(),
{
    if pushed.len() == 0 {
        Seq::empty()
    } else {
        let rest = scan_checks(cols, needed, pushed.drop_last());
        let p = pushed.last();
        match (first_named(cols, p.column), literal_value(p.value)) {
            (Some(idx), Some(v)) => match first_index(needed, idx as usize) {
                Some(j) => rest.push((j as usize, p.operator, v)),
                None => rest,
            },
            _ => rest,
        }
    }
}

/// A compiled literal check as (position, operator, value).
pub open spec fn check_view(c: CompiledPredicate) -> (usize, ComparisionOperator, Value) {
    (c.left_idx, c.operator, c.right->Literal_0@)
}

/// The position of the first column named `name` (see `first_named`).
fn column_position(cols: &Vec<crate::catalog::ColumnSpec>, name: &String) -> (r: Option<usize>)
    ensures
        r matches Some(i) ==> first_named(cols@, name@) == Some(i as int),
        r is None ==> first_named(cols@, name@) is None,
        match r {
            Some(i) => i < cols@.len() && cols@[i as int].column_name@ == name@
                && forall|j: int| 0 <= j < i ==> (#[trigger] cols@[j]).column_name@ != name@,
            None => forall|j: int| 0 <= j < cols@.len() ==> (#[trigger] cols@[j]).column_name@ != name@,
        },
{
    let mut i: usize = 0;
    while i < cols.len()
        invariant
            i <= cols.len(),
            forall|j: int| 0 <= j < i ==> (#[trigger] cols@[j]).column_name@ != name@,
        decreases cols.len() - i,
    {
        if cols[i].column_name == *name {
            proof { reveal(first_named); }
            return Some(i);
        }
        i += 1;
    }
    proof { reveal(first_named); }
    None
}

/// The position of the first occurrence of `x`.
fn index_of_usize(v: &Vec<usize>, x: usize) -> (r: Option<usize>)
    ensures
        r matches Some(i) ==> first_index(v@, x) == Some(i as int),
        r is None ==> first_index(v@, x) is None,
        match r {
            Some(i) => i < v@.len() && v@[i as int] == x && forall|j: int| 0 <= j < i ==> #[trigger] v@[j] != x,
            None => forall|j: int| 0 <= j < v@.len() ==> #[trigger] v@[j] != x,
        },
{
    let mut i: usize = 0;
    while i < v.len()
        invariant
            i <= v.len(),
            forall|j: int| 0 <= j < i ==> #[trigger] v@[j] != x,
        decreases v.len() - i,
    {
        if v[i] == x {
            proof { reveal(first_index); }
            return Some(i);
        }
        i += 1;
    }
    proof { reveal(first_index); }
    None
}

impl TableScanner {
    /// How far the narrowing of the block range still has to go: whether
    /// it goes on, the predicates left, the stage of the current search
    /// (none started, lower bound, upper bound) and its width.
    /// How far the scan is from its end: the phase (locating, sizing, pruning,
    /// scanning), then within pruning the pruning measure, within scanning
    /// the blocks left to read and the rows of the batch left to hand out.
    pub closed spec fn progress(&self) -> (int, (int, int, int, int)) {
        match self.phase {
            ScanPhase::Locate => (3, (0, 0, 0, 0)),
            ScanPhase::Size => (2, (0, 0, 0, 0)),
            ScanPhase::Prune => (1, self.prune_measure()),
            ScanPhase::Scan => (0, (
                if self.current_block < self.end_block { self.end_block - self.current_block } else { 0 },
                self.batch@.len() - self.batch_pos,
                0,
                0,
            )),
        }
    }

    /// Whether `self` is strictly closer to the end of the scan than `other`.
    pub open spec fn closer_than(&self, other: &TableScanner) -> bool {
        let (a, am) = self.progress();
        let (b, bm) = other.progress();
        a < b || (a == b && lex_less(am, bm))
    }

    pub closed spec fn prune_measure(&self) -> (int, int, int, int) {
        (
            if self.phase == ScanPhase::Prune { 1 } else { 0 },
            if self.prune_idx <= self.prune@.len() { self.prune@.len() - self.prune_idx } else { 0 },
            match self.search { None => 2, Some(s) => if s.upper { 0 } else { 1 } },
            match self.search { None => 0, Some(s) => if s.low < s.high { s.high - s.low } else { 0 } },
        )
    }

    /// One step of narrowing the block range.
    fn prune_step(&mut self, pool: &mut BufferPool) -> (r: Step)
        requires
            old(self).wf(),
            old(pool).wf(),
            old(self).phase == ScanPhase::Prune,
        ensures
            final(self).out == old(self).out,
            final(self).file_id == old(self).file_id,
            final(self).wf(),
            final(pool).wf(),
            final(pool).spec_block_size() == old(pool).spec_block_size(),
            final(pool).spec_num_frames() == old(pool).spec_num_frames(),
            final(self).out_types() == old(self).out_types(),
            final(self).scan_predicates == old(self).scan_predicates,
            r is Pending || r is Blocked,
            r is Blocked ==> *final(self) == *old(self) && (final(pool).request() matches Some(
                DiskRequest::ReadBlocks { count, .. },
            ) && count == 1),
            r is Pending ==> lex_less(final(self).prune_measure(), old(self).prune_measure()),
            final(self).phase == ScanPhase::Prune || final(self).phase == ScanPhase::Scan,
            final(self).phase == ScanPhase::Scan ==> final(self).current_block == final(self).start_block,
    {
        match self.search {
            Some(s) => {
                let idx = self.prune_idx;
                let plen = self.prune.len();
                assert(idx < plen);
                let pp = &self.prune[idx];
                if s.low < s.high {
                    let mid = s.low + (s.high - s.low) / 2;
                    let raw = match pool.read_blocks_sequential(mid, 1) {
                        None => return Step::Blocked,
                        Some(raw) => raw,
                    };
                    let mut single: Vec<usize> = Vec::new();
                    single.push(pp.col);
                    let mask = build_needed_mask(self.all_types.len(), single.as_slice());
                    let rows = crate::row::decode_block_with_mask(raw.as_slice(), self.all_types.as_slice(), mask.as_slice());
                    let pick = if s.upper { 0 } else { if rows.len() > 0 { rows.len() - 1 } else { 0 } };
                    if rows.len() > 0 && rows[pick].values.len() > 0 {
                        let v = &rows[pick].values[0];
                        let c = data_key_compare(pp.value.data_type(), v, &pp.value);
                        self.probed = Ghost(self.probed@.insert(mid, v@));
                        let next = if s.upper {
                            if c == Comparison::Greater { BlockSearch { upper: true, low: s.low, high: mid } } else { BlockSearch { upper: true, low: mid + 1, high: s.high } }
                        } else {
                            if c == Comparison::Less { BlockSearch { upper: false, low: mid + 1, high: s.high } } else { BlockSearch { upper: false, low: s.low, high: mid } }
                        };
                        self.search = Some(next);
                        return Step::Pending;
                    }
                }
                // The search is over: narrow the range.
                if !s.upper {
                    if s.low > self.start_block {
                        self.start_block = s.low;
                    }
                    if pp.operator == ComparisionOperator::EQ {
                        self.search = Some(BlockSearch { upper: true, low: self.start_block, high: self.end_block });
                        self.probed = Ghost(Map::empty());
                        self.search_from = Ghost(self.start_block);
                        self.search_to = Ghost(self.end_block);
                    } else {
                        self.search = None;
                        self.prune_idx = idx + 1;
                    }
                } else {
                    if s.low < self.end_block {
                        self.end_block = s.low;
                    }
                    self.search = None;
                    self.prune_idx = idx + 1;
                }
                Step::Pending
            },
            None => {
                if self.prune_idx >= self.prune.len() {
                    self.phase = ScanPhase::Scan;
                    self.current_block = self.start_block;
                    return Step::Pending;
                }
                let pp = &self.prune[self.prune_idx];
                if pp.impossible {
                    self.end_block = self.start_block;
                    self.phase = ScanPhase::Scan;
                    self.current_block = self.start_block;
                    return Step::Pending;
                }
                let op = pp.operator;
                if pp.ordered && (op == ComparisionOperator::EQ || op == ComparisionOperator::GT || op == ComparisionOperator::GTE) {
                    self.search = Some(BlockSearch { upper: false, low: self.start_block, high: self.end_block });
                    self.probed = Ghost(Map::empty());
                    self.search_from = Ghost(self.start_block);
                    self.search_to = Ghost(self.end_block);
                } else if pp.ordered && (op == ComparisionOperator::LT || op == ComparisionOperator::LTE) {
                    self.search = Some(BlockSearch { upper: true, low: self.start_block, high: self.end_block });
                    self.probed = Ghost(Map::empty());
                    self.search_from = Ghost(self.start_block);
                    self.search_to = Ghost(self.end_block);
                } else {
                    self.prune_idx += 1;
                }
                Step::Pending
            },
        }
    }

    /// Reads the next batch of blocks and keeps their passing rows.
    fn load_batch(&mut self, pool: &mut BufferPool, slots: &Vec<Option<JoinFilter>>) -> (r: Step)
        requires
            old(self).wf(),
            old(pool).wf(),
            slots_wf(slots@),
            old(self).current_block < old(self).end_block,
        ensures
            final(self).out == old(self).out,
            final(self).file_id == old(self).file_id,
            final(self).wf(),
            final(pool).wf(),
            final(pool).spec_block_size() == old(pool).spec_block_size(),
            final(pool).spec_num_frames() == old(pool).spec_num_frames(),
            final(self).out_types() == old(self).out_types(),
            final(self).scan_predicates == old(self).scan_predicates,
            r is Pending || r is Blocked,
            final(self).phase == old(self).phase,
            final(self).end_block == old(self).end_block,
            r is Pending ==> old(self).current_block < final(self).current_block <= old(self).end_block
                && final(self).batch_pos == 0,
            r is Blocked ==> *final(self) == *old(self) && (final(pool).request() matches Some(
                DiskRequest::ReadBlocks { start, count },
            ) && start == old(self).current_block && count > 0),
            (old(pool).answered() matches Some((s, c, _)) && s == old(self).current_block
                && c == old(self).next_read_count(old(pool).spec_block_size() as nat)) ==> r is Pending,
            r is Pending ==> (old(pool).answered() matches Some((s, c, d)) && s == old(self).current_block
                && c == old(self).next_read_count(old(pool).spec_block_size() as nat)
                && final(self).current_block == old(self).current_block + c
                && final(self).pending_rows() == old(self).batch_rows(d, old(pool).spec_block_size() as nat, c as nat, slots@)),
    {
        let bs = pool.block_size();
        let bs64 = bs as u64;
        let per = if bs64 == 0 { 4096u64 } else { 4194304u64 / bs64 };
        let batch: u64 = if per < 64 { 64 } else if per > 4096 { 4096 } else { per };
        let remaining = self.end_block - self.current_block;
        let count: u64 = if batch < remaining { batch } else { remaining };
        let raw = match pool.read_blocks_sequential(self.current_block, count) {
            None => return Step::Blocked,
            Some(raw) => raw,
        };
        assert(count == old(self).next_read_count(bs as nat));
        let n = count as usize;
        let mut rows: Vec<Row> = Vec::new();
        let mut i: usize = 0;
        proof {
            assert(rows_view(rows@) =~= Seq::<Seq<Value>>::empty());
        }
        while i < n
            invariant
                i <= n,
                n == count,
                raw@.len() == count * bs,
                self.wf(),
                *self == *old(self),
                slots_wf(slots@),
                forall|k: int| 0 <= k < rows@.len() ==> conforms(#[trigger] rows_view(rows@)[k], self.out_types@),
                forall|k: int| 0 <= k < rows@.len() ==> all_hold(self.scan_predicates@, #[trigger] rows_view(rows@)[k]),
                rows_view(rows@) == self.batch_rows(raw@, bs as nat, i as nat, slots@),
            decreases n - i,
        {
            let rl = raw.len();
            assert((i + 1) * bs <= n * bs) by (nonlinear_arith) requires i < n;
            assert((i + 1) * bs == i * bs + bs) by (nonlinear_arith);
            let block = vstd::slice::slice_subrange(raw.as_slice(), i * bs, (i + 1) * bs);
            let mut decoded: Vec<Row> = Vec::new();
            decode_block_with_mask_into(block, self.all_types.as_slice(), self.needed_mask.as_slice(), &mut decoded);
            let ghost prev = rows_view(rows@);
            let ghost dv = rows_view(decoded@);
            let ghost pred = |row: Seq<Value>| self.kept(row, slots@);
            proof {
                assert(dv =~= decode_block_spec(raw@.subrange(i * bs, (i + 1) * bs), self.all_types@, self.needed_mask@,
                    count_true(self.needed_mask@) == self.all_types@.len()));
                assert(dv.subrange(0, 0) =~= Seq::<Seq<Value>>::empty());
                reveal(Seq::filter);
                assert(prev + dv.subrange(0, 0).filter(pred) =~= prev);
            }
            let mut k: usize = 0;
            while k < decoded.len()
                invariant
                    k <= decoded.len(),
                    self.wf(),
                    *self == *old(self),
                    slots_wf(slots@),
                    dv == rows_view(decoded@),
                    pred == (|row: Seq<Value>| self.kept(row, slots@)),
                    forall|j: int| 0 <= j < rows@.len() ==> conforms(#[trigger] rows_view(rows@)[j], self.out_types@),
                    forall|j: int| 0 <= j < rows@.len() ==> all_hold(self.scan_predicates@, #[trigger] rows_view(rows@)[j]),
                    rows_view(rows@) == prev + dv.subrange(0, k as int).filter(pred),
                decreases decoded.len() - k,
            {
                let ghost rb = rows_view(rows@);
                proof {
                    assert(dv.subrange(0, k + 1).drop_last() =~= dv.subrange(0, k as int));
                    assert(dv.subrange(0, k + 1).last() == decoded@[k as int]@);
                    reveal(Seq::filter);
                }
                let keep = row_conforms(&decoded[k], &self.out_types) && self.keeps(&decoded[k], slots);
                assert(keep == self.kept(decoded@[k as int]@, slots@));
                if keep {
                    let ghost before = rows@;
                    rows.push(decoded[k].copy());
                    assert forall|j: int| 0 <= j < rows@.len() implies conforms(#[trigger] rows_view(rows@)[j], self.out_types@) && all_hold(self.scan_predicates@, rows_view(rows@)[j]) by {
                        if j < before.len() {
                            assert(rows_view(rows@)[j] == rows_view(before)[j]);
                        } else {
                            assert(rows_view(rows@)[j] == decoded@[k as int]@);
                        }
                    }
                    assert forall|j: int| 0 <= j < rows@.len() implies all_hold(self.scan_predicates@, #[trigger] rows_view(rows@)[j]) by {
                        if j < before.len() {
                            assert(rows_view(rows@)[j] == rows_view(before)[j]);
                        } else {
                            assert(rows_view(rows@)[j] == decoded@[k as int]@);
                        }
                    }
                    assert(rows_view(rows@) =~= rb.push(decoded@[k as int]@));
                    assert(rows_view(rows@) =~= prev + dv.subrange(0, k + 1).filter(pred));
                } else {
                    assert(rows_view(rows@) =~= prev + dv.subrange(0, k + 1).filter(pred));
                }
                k += 1;
            }
            proof {
                assert(dv.subrange(0, k as int) =~= dv);
                assert(((i + 1) - 1) as nat == i as nat);
            }
            i += 1;
        }
        self.batch = rows;
        self.batch_pos = 0;
        self.current_block = self.current_block + count;
        proof {
            assert(self.pending_rows() =~= rows_view(self.batch@));
        }
        Step::Pending
    }
}


// ─── The operator tree ───────────────────────────────────────────────────

/// Keeps the rows of its input that satisfy every predicate.
pub struct FilterOp {
    /// The rows handed out so far, in order.
    out: Ghost<Seq<Seq<Value>>>,
    /// How many rows the input had handed out when the filter was made.
    start: Ghost<nat>,
    child: Box<Operator>,
    predicates: Vec<CompiledPredicate>,
}

/// Keeps the columns at the given positions, in that order.
pub struct ProjectOp {
    /// The rows handed out so far, in order.
    out: Ghost<Seq<Seq<Value>>>,
    /// How many rows the input had handed out when the projection was made.
    start: Ghost<nat>,
    child: Box<Operator>,
    indices: Vec<usize>,
    out_types: Vec<DataType>,
}

/// A running operator.
pub enum Operator {
    Scan(TableScanner),
    Filter(FilterOp),
    Project(ProjectOp),
    Cross(CrossOp),
    Join(JoinOp),
    HashJoin(HashJoinOp),
    Sort(SortOp),
    MergeJoin(SortMergeJoinOp),
}

impl Operator {
    /// The column types of the rows it produces.
    pub closed spec fn types(&self) -> Seq<DataType>
        decreases self,
    {
        match self {
            Operator::Scan(s) => s.out_types(),
            Operator::Filter(f) => f.child.types(),
            Operator::Project(p) => p.out_types@,
            Operator::Cross(c) => c.out_types@,
            Operator::Join(j) => j.out_types@,
            Operator::HashJoin(h) => h.out_types@,
            Operator::Sort(o) => o.out_types@,
            Operator::MergeJoin(m) => m.out_types@,
        }
    }

    /// Every operator of the tree is consistent with its inputs, for a pool
    /// of blocks of `bs` bytes.
    pub closed spec fn wf(&self, bs: nat) -> bool
        decreases self,
    {
        match self {
            Operator::Scan(s) => s.wf(),
            Operator::Filter(f) => {
                &&& f.child.wf(bs)
                &&& all_fit(f.predicates@, f.child.types().len())
                &&& f.start@ <= f.child.out().len()
                &&& f.out@ == passing(f.child.out().skip(f.start@ as int), f.predicates@)
            },
            Operator::Project(p) => {
                &&& p.child.wf(bs)
                &&& p.start@ <= p.child.out().len()
                &&& p.out@ == p.child.out().skip(p.start@ as int).map_values(|row: Seq<Value>| projected(row, p.indices@))
                &&& p.out_types@.len() == p.indices@.len()
                &&& forall|i: int| 0 <= i < p.indices@.len() ==> #[trigger] p.indices@[i] < p.child.types().len()
                &&& forall|i: int| 0 <= i < p.indices@.len() ==> #[trigger] p.out_types@[i] == p.child.types()[p.indices@[i] as int]
            },
            Operator::Cross(c) => {
                &&& c.left.wf(bs)
                &&& c.right.wf(bs)
                &&& c.right_types@ == c.right.types()
                &&& c.out_types@ == c.left.types() + c.right.types()
                &&& c.inner_wf(bs)
                &&& c.history_ok_for(c.out@)
            },
            Operator::Join(j) => {
                &&& j.left.wf(bs)
                &&& j.right.wf(bs)
                &&& j.right_types@ == j.right.types()
                &&& j.out_types@ == j.left.types() + j.right.types()
                &&& j.inner_wf(bs)
                &&& j.inputs_ok()
            },
            Operator::HashJoin(h) => {
                &&& h.inputs_ok()
                &&& h.left.wf(bs)
                &&& h.right.wf(bs)
                &&& h.left_types@ == h.left.types()
                &&& h.right_types@ == h.right.types()
                &&& h.inner_wf(bs)
            },
            Operator::Sort(o) => {
                &&& o.child.wf(bs)
                &&& o.out_types@ == o.child.types()
                &&& o.inner_wf(bs)
                &&& o.history_ok_for(o.out@)
            },
            Operator::MergeJoin(m) => {
                &&& m.history_ok_for(m.out@)
                &&& m.inputs_ok()
                &&& m.left.wf(bs)
                &&& m.right.wf(bs)
                &&& m.left_types@ == m.left.types()
                &&& m.right_types@ == m.right.types()
                &&& m.inner_wf()
            },
        }
    }

    /// What every row the operator hands out satisfies by the operator's
    /// own work: the predicates a scan or a filter applies, and the equal
    /// keys of a join.
    pub closed spec fn admits(&self, row: Seq<Value>) -> bool {
        match self {
            Operator::Scan(s) => all_hold(s.spec_scan_predicates(), row),
            Operator::Filter(f) => all_hold(f.predicates@, row),
            Operator::Project(_) => true,
            Operator::Cross(_) => true,
            Operator::Join(j) => keys_equal(row, j.left_col as int, j.out_types@.len() - j.right_types@.len() + j.right_col),
            Operator::HashJoin(h) => keys_equal(row, h.left_col as int, h.left_types@.len() + h.right_col),
            Operator::Sort(_) => true,
            Operator::MergeJoin(m) => m.left_types@.len() + m.right_col < row.len() && value_key_order(m.key_type,
                row[m.left_types@.len() + m.right_col], row[m.left_col as int]) == Comparison::Equal,
        }
    }

    /// For a filter, a projection or a sort: its input.
    pub closed spec fn input(&self) -> Option<Operator> {
        match self {
            Operator::Filter(f) => Some(*f.child),
            Operator::Project(p) => Some(*p.child),
            Operator::Sort(o) => Some(*o.child),
            _ => None,
        }
    }

    /// For a filter, a projection or a sort: how many rows its input had
    /// handed out when it was made.
    pub closed spec fn input_start(&self) -> nat {
        match self {
            Operator::Filter(f) => f.start@,
            Operator::Project(p) => p.start@,
            Operator::Sort(o) => o.start@,
            _ => 0,
        }
    }

    /// For a cross product or a join: its left and right inputs.
    pub closed spec fn inputs(&self) -> Option<(Operator, Operator)> {
        match self {
            Operator::Cross(c) => Some((*c.left, *c.right)),
            Operator::Join(j) => Some((*j.left, *j.right)),
            Operator::HashJoin(h) => Some((*h.left, *h.right)),
            Operator::MergeJoin(m) => Some((*m.left, *m.right)),
            _ => None,
        }
    }

    /// For a cross product: how many rows each input had handed out when
    /// it was made.
    pub closed spec fn input_starts(&self) -> (nat, nat) {
        match self {
            Operator::Cross(c) => (c.lstart@, c.rstart@),
            _ => (0, 0),
        }
    }

    /// For a cross product: the right rows did not fit in memory and went
    /// to a run on disk; for a sort: some rows went to a run on disk.
    pub closed spec fn spilled(&self) -> bool {
        match self {
            Operator::Cross(c) => c.spilled,
            Operator::Sort(o) => o.spill_used@,
            _ => false,
        }
    }

    /// For a cross product pairing a chunk of left rows with its run, between
    /// two right rows: the rows handed out before the pass, the right rows
    /// read back in the pass, and the chunk.
    pub closed spec fn disk_pass(&self) -> Option<(Seq<Seq<Value>>, Seq<Seq<Value>>, Seq<Seq<Value>>)> {
        match self {
            Operator::Cross(c) => if c.phase == CrossPhase::Disk && !c.filling && c.head is None {
                Some((c.pass_base@, c.pass_rows@, rows_view(c.left_chunk@)))
            } else {
                None
            },
            _ => None,
        }
    }

    /// A cross product whose right rows went to disk pairs each chunk of
    /// left rows with every right row it reads back: between two right rows
    /// it has handed out, since the pass began, exactly every row of the
    /// chunk paired with each right row read, right row by right row.
    pub proof fn lemma_cross_disk_pass(&self, bs: nat)
        requires
            self.wf(bs),
            self.disk_pass() is Some,
        ensures
            ({
                let (base, rs, chunk) = self.disk_pass()->0;
                self.out() == base + chunk_pairs(rs, chunk)
            }),
    {
    }

    /// A finished cross product has finished both inputs; where the right
    /// rows stayed in memory it has handed out exactly every left row read
    /// paired with every right row read, in order.
    pub proof fn lemma_cross_output(&self, bs: nat)
        requires
            self.wf(bs),
            *self is Cross,
            self.finished(),
        ensures
            self.inputs() matches Some((l, r)) && l.finished() && r.finished() && (!self.spilled() ==> self.out()
                == cross_rows(l.out().skip(self.input_starts().0 as int), r.out().skip(self.input_starts().1 as int))),
    {
    }

    /// A finished sort has finished its input; where every row stayed in
    /// memory it has handed out exactly the rows read, rearranged so that
    /// the keys never decrease.
    pub proof fn lemma_sort_output(&self, bs: nat)
        requires
            self.wf(bs),
            *self is Sort,
            self.finished(),
        ensures
            self.input() matches Some(c) && c.finished() && (!self.spilled() ==> sorted_rearrangement(
                self.sort_keys()->0, c.out().skip(self.input_start() as int), self.out())),
    {
    }

    /// For a merge join pairing a left row with the group of right rows of
    /// its key: the left row, the group, how many of the group it has been
    /// paired with, and the rows handed out before its pairing began.
    pub closed spec fn merge_pending(&self) -> Option<(Seq<Value>, Seq<Seq<Value>>, nat, Seq<Seq<Value>>)> {
        match self {
            Operator::MergeJoin(m) => match m.pending_left {
                Some(l) => Some((l@, rows_view(m.group@), m.group_idx as nat, m.pend_base@)),
                None => None,
            },
            _ => None,
        }
    }

    /// A merge join pairs each left row of a key with the whole group of
    /// right rows of that key, in order: since the left row began, it has
    /// handed out exactly that row with each of the group's first rows.
    pub proof fn lemma_merge_join_pairs_group(&self, bs: nat)
        requires
            self.wf(bs),
            self.merge_pending() is Some,
        ensures
            ({
                let (l, group, k, base) = self.merge_pending()->0;
                &&& k <= group.len()
                &&& self.out() == base + group.take(k as int).map_values(|r: Seq<Value>| l + r)
            }),
    {
    }

    /// A finished merge join has finished one of its inputs: no later row
    /// of the other can have a match.
    pub proof fn lemma_merge_join_input_finished(&self, bs: nat)
        requires
            self.wf(bs),
            *self is MergeJoin,
            self.finished(),
        ensures
            self.inputs() matches Some((l, r)) && (l.finished() || r.finished()),
    {
    }

    /// A finished join (nested-loop or hash) has finished both its inputs.
    pub proof fn lemma_join_inputs_finished(&self, bs: nat)
        requires
            self.wf(bs),
            *self is HashJoin || *self is Join,
            self.finished(),
        ensures
            self.inputs() matches Some((l, r)) && l.finished() && r.finished(),
    {
    }

    /// For a filter: its predicates.
    pub closed spec fn filter_predicates(&self) -> Seq<CompiledPredicate> {
        match self {
            Operator::Filter(f) => f.predicates@,
            _ => Seq::empty(),
        }
    }

    /// For a projection: the positions of the input columns it keeps.
    pub closed spec fn project_indices(&self) -> Seq<usize> {
        match self {
            Operator::Project(p) => p.indices@,
            _ => Seq::empty(),
        }
    }

    /// A filter has handed out exactly the rows of its input (since it was
    /// made) that pass every predicate, in order; it is finished only
    /// once its input is.
    pub proof fn lemma_filter_output(&self, bs: nat)
        requires
            self.wf(bs),
            *self is Filter,
        ensures
            self.input() matches Some(c) && self.out() == passing(c.out().skip(self.input_start() as int), self.filter_predicates())
                && (self.finished() ==> c.finished()),
    {
    }

    /// A projection has handed out exactly the rows of its input (since
    /// it was made), each cut to the kept columns, in order; it is
    /// finished only once its input is.
    pub proof fn lemma_project_output(&self, bs: nat)
        requires
            self.wf(bs),
            *self is Project,
        ensures
            self.input() matches Some(c) && self.out() == c.out().skip(self.input_start() as int).map_values(
                |row: Seq<Value>| projected(row, self.project_indices())) && (self.finished() ==> c.finished()),
    {
    }

    /// The rows it has handed out so far, in order.
    pub closed spec fn out(&self) -> Seq<Seq<Value>> {
        match self {
            Operator::Scan(s) => s.out@,
            Operator::Filter(f) => f.out@,
            Operator::Project(p) => p.out@,
            Operator::Cross(c) => c.out@,
            Operator::Join(j) => j.out@,
            Operator::HashJoin(h) => h.out@,
            Operator::Sort(o) => o.out@,
            Operator::MergeJoin(m) => m.out@,
        }
    }

    /// Nothing more comes out: each further step gives `Done`.
    pub closed spec fn finished(&self) -> bool
        decreases self,
    {
        match self {
            Operator::Scan(s) => s.finished(),
            Operator::Filter(f) => f.child.finished(),
            Operator::Project(p) => p.child.finished(),
            Operator::Cross(c) => c.finished(),
            Operator::Join(j) => j.finished(),
            Operator::HashJoin(h) => h.finished(),
            Operator::Sort(o) => o.finished(),
            Operator::MergeJoin(m) => m.finished(),
        }
    }

    /// The keys a sort orders its output by (`None` for another operator).
    pub closed spec fn sort_keys(&self) -> Option<Seq<crate::sort::SortKey>> {
        match self {
            Operator::Sort(o) => Some(o.keys@),
            _ => None,
        }
    }

    /// For a scan, and a filter or projection over one: how far the scan
    /// is from its end (see `TableScanner::progress`); `None` for another
    /// operator.
    pub closed spec fn scan_progress(&self) -> Option<(int, (int, int, int, int))>
        decreases self,
    {
        match self {
            Operator::Scan(s) => Some(s.progress()),
            Operator::Filter(f) => f.child.scan_progress(),
            Operator::Project(p) => p.child.scan_progress(),
            _ => None,
        }
    }

    /// A row is ready: the next step hands it out.
    pub closed spec fn ready_row(&self) -> bool
        decreases self,
    {
        match self {
            Operator::Scan(s) => s.scanning() && s.pending_rows().len() > 0,
            Operator::Filter(_) => false,
            Operator::Project(p) => p.child.ready_row(),
            Operator::Cross(c) => c.pending_pairs().len() > 0 || c.disk_pair() is Some,
            Operator::Join(_) => false,
            Operator::HashJoin(h) => h.pending_output().len() > 0,
            Operator::Sort(o) => o.sorted_ready(),
            Operator::MergeJoin(_) => false,
        }
    }

    /// For a sort: whether `x` waits to be handed out next (see
    /// `SortOp::waits`).
    pub closed spec fn sort_waits(&self, x: Seq<Value>) -> bool {
        match self {
            Operator::Sort(o) => o.waits(x),
            _ => false,
        }
    }

    /// Well formed for a pool of any block size of at least two bytes, as
    /// every freshly built operator tree is.
    pub open spec fn wf_all(&self) -> bool {
        forall|b: nat| 2 <= b ==> #[trigger] self.wf(b)
    }

    /// The column types of the rows it produces.
    pub fn types_exec(&self) -> (r: Vec<DataType>)
        ensures
            r@ == self.types(),
        decreases self,
    {
        match self {
            Operator::Scan(s) => s.out_types_exec(),
            Operator::Filter(f) => f.child.types_exec(),
            Operator::Project(p) => crate::plan::copy_types(&p.out_types),
            Operator::Cross(c) => crate::plan::copy_types(&c.out_types),
            Operator::Join(j) => crate::plan::copy_types(&j.out_types),
            Operator::HashJoin(h) => crate::plan::copy_types(&h.out_types),
            Operator::Sort(o) => crate::plan::copy_types(&o.out_types),
            Operator::MergeJoin(m) => crate::plan::copy_types(&m.out_types),
        }
    }

    /// A scan of a table.
    pub fn scan(s: TableScanner) -> (r: Operator)
        requires
            s.wf(),
        ensures
            r.wf_all(),
            r.types() == s.out_types(),
    {
        Operator::Scan(s)
    }

    /// A filter by compiled predicates.
    pub fn filter(child: Operator, predicates: Vec<CompiledPredicate>) -> (r: Operator)
        requires
            child.wf_all(),
            all_fit(predicates@, child.types().len()),
        ensures
            r.wf_all(),
            r.types() == child.types(),
            forall|row: Seq<Value>| #[trigger] r.admits(row) == all_hold(predicates@, row),
            r.input() == Some(child),
            r.input_start() == child.out().len(),
            r.filter_predicates() == predicates@,
            r.out() == Seq::<Seq<Value>>::empty(),
    {
        let ghost start = child.out().len();
        let ghost co = child.out();
        assert(co.skip(start as int) =~= Seq::<Seq<Value>>::empty());
        let r = Operator::Filter(FilterOp { out: Ghost(Seq::empty()), start: Ghost(start), child: Box::new(child), predicates });
        proof {
            assert forall|b: nat| 2 <= b implies #[trigger] r.wf(b) by {
                assert(child.wf(b));
            }
        }
        r
    }

    /// A projection to the columns at `indices`.
    pub fn project(child: Operator, indices: Vec<usize>, out_types: Vec<DataType>) -> (r: Operator)
        requires
            child.wf_all(),
            out_types@.len() == indices@.len(),
            forall|i: int| 0 <= i < indices@.len() ==> #[trigger] indices@[i] < child.types().len(),
            forall|i: int| 0 <= i < indices@.len() ==> #[trigger] out_types@[i] == child.types()[indices@[i] as int],
        ensures
            r.wf_all(),
            r.types() == out_types@,
            r.input() == Some(child),
            r.input_start() == child.out().len(),
            r.project_indices() == indices@,
            r.out() == Seq::<Seq<Value>>::empty(),
    {
        let ghost start = child.out().len();
        let ghost co = child.out();
        assert(co.skip(start as int) =~= Seq::<Seq<Value>>::empty());
        let ghost iv = indices@;
        assert(co.skip(start as int).map_values(|row: Seq<Value>| projected(row, iv)) =~= Seq::<Seq<Value>>::empty());
        let r = Operator::Project(ProjectOp { out: Ghost(Seq::empty()), start: Ghost(start), child: Box::new(child), indices, out_types });
        proof {
            assert forall|b: nat| 2 <= b implies #[trigger] r.wf(b) by {
                assert(child.wf(b));
            }
        }
        r
    }

    /// One step of the operator: a row of its output types, the end, a
    /// request for the disk, or progress.
    #[verifier::rlimit(60)]
    pub fn step(&mut self, pool: &mut BufferPool, slots: &mut Vec<Option<JoinFilter>>) -> (r: Step)
        requires
            old(self).wf(old(pool).spec_block_size() as nat),
            old(pool).wf(),
            slots_wf(old(slots)@),
        ensures
            final(self).out() == match r {
                Step::Row(row) => old(self).out().push(row@),
                _ => old(self).out(),
            },
            final(self).wf(old(pool).spec_block_size() as nat),
            final(self).types() == old(self).types(),
            final(pool).wf(),
            final(pool).spec_block_size() == old(pool).spec_block_size(),
            final(pool).spec_num_frames() == old(pool).spec_num_frames(),
            slots_wf(final(slots)@),
            final(slots)@.len() == old(slots)@.len(),
            r matches Step::Row(row) ==> conforms(row@, old(self).types()) && old(self).admits(row@),
            forall|row: Seq<Value>| #[trigger] final(self).admits(row) == old(self).admits(row),
            old(self).finished() ==> r is Done && *final(self) == *old(self),
            r is Done ==> final(self).finished(),
            r matches Step::Row(row) ==> (old(self).sort_keys() matches Some(keys) ==> old(self).sort_waits(row@)
                && forall|x: Seq<Value>| #[trigger] old(self).sort_waits(x) ==> crate::sort::rows_order(keys, row@, x)
                != Comparison::Greater),
            final(self).sort_keys() == old(self).sort_keys(),
            old(self).scan_progress() matches Some(p) ==> ((r is Pending || r is Row) ==> (final(self).scan_progress() matches Some(q)
                && progress_less(q, p))),
            old(self).scan_progress() is Some ==> final(self).scan_progress() is Some,
            old(self).ready_row() ==> r is Row,
        decreases *old(self), 2int,
    {
        let r = match self {
            Operator::Scan(s) => s.step(pool, slots),
            Operator::Filter(f) => {
                let ghost before = f.child.out();
                let st = f.child.step(pool, slots);
                proof {
                    if st is Row {
                        assert(f.child.out().skip(f.start@ as int) =~= before.skip(f.start@ as int).push(st->Row_0@));
                        assert(f.child.out().skip(f.start@ as int).drop_last() =~= before.skip(f.start@ as int));
                    }
                }
                match st {
                    Step::Row(row) => {
                        if row_passes(&f.predicates, &row) {
                            Step::Row(row)
                        } else {
                            Step::Pending
                        }
                    },
                    other => other,
                }
            },
            Operator::Project(p) => {
                let ghost before = p.child.out();
                let st = p.child.step(pool, slots);
                proof {
                    if st is Row {
                        assert(p.child.out().skip(p.start@ as int) =~= before.skip(p.start@ as int).push(st->Row_0@));
                        assert(p.child.out().skip(p.start@ as int).map_values(|row: Seq<Value>| projected(row, p.indices@))
                            =~= before.skip(p.start@ as int).map_values(|row: Seq<Value>| projected(row, p.indices@)).push(
                            projected(st->Row_0@, p.indices@)));
                    }
                }
                match st {
                    Step::Row(row) => {
                        let out = project_row(&row, &p.indices);
                        Step::Row(out)
                    },
                    other => other,
                }
            },
            Operator::Cross(c) => c.step(pool, slots),
            Operator::Join(j) => j.step(pool, slots),
            Operator::HashJoin(h) => h.step(pool, slots),
            Operator::Sort(o) => o.step(pool, slots),
            Operator::MergeJoin(m) => m.step(pool, slots),
        };
        if let Step::Row(row) = &r {
            let ghost rv = row@;
            match self {
                Operator::Scan(s) => { s.out = Ghost(s.out@.push(rv)); },
                Operator::Filter(f) => { f.out = Ghost(f.out@.push(rv)); },
                Operator::Project(p) => { p.out = Ghost(p.out@.push(rv)); },
                Operator::Cross(c) => { c.out = Ghost(c.out@.push(rv)); },
                Operator::Join(j) => { j.out = Ghost(j.out@.push(rv)); },
                Operator::HashJoin(h) => { h.out = Ghost(h.out@.push(rv)); },
                Operator::Sort(o) => { o.out = Ghost(o.out@.push(rv)); },
                Operator::MergeJoin(m) => { m.out = Ghost(m.out@.push(rv)); },
            }
        }
        r
    }
}


// ─── Cross product ───────────────────────────────────────────────────────

#[derive(Debug, Clone, Copy, PartialEq, Eq, Structural)]
pub enum CrossPhase {
    /// Reading the right input into memory.
    Materialize,
    /// The right input did not fit: writing what was read to a run.
    SpillPrefix,
    /// Writing the rest of the right input to the run, a chunk at a time.
    SpillStream,
    /// Reading the first left row.
    StartLeft,
    /// Pairing the current left row with each right row in memory.
    InMemory,
    /// Reading the next left row.
    NextLeft,
    /// Pairing chunks of left rows with each right row of the run.
    Disk,
    Finished,
}

/// The cross product of two inputs: each left row with each right row.
/// The right input is held in memory when it fits the budget, else
/// written to a run and read back once per chunk of left rows.
pub struct CrossOp {
    /// The rows handed out so far, in order.
    out: Ghost<Seq<Seq<Value>>>,
    /// How many rows each input had handed out when it was made.
    lstart: Ghost<nat>,
    rstart: Ghost<nat>,
    /// While pairing a chunk of left rows with the run: the rows handed
    /// out before the pass, and the right rows read back so far.
    pass_base: Ghost<Seq<Seq<Value>>>,
    pass_rows: Ghost<Seq<Seq<Value>>>,
    left: Box<Operator>,
    right: Box<Operator>,
    right_types: Vec<DataType>,
    out_types: Vec<DataType>,
    phase: CrossPhase,
    right_mem: Vec<Row>,
    bytes_used: usize,
    budget: usize,
    right_row_size: usize,
    run_ids: Vec<u64>,
    run_rows: usize,
    chunk: Vec<Row>,
    chunk_size: usize,
    right_done: bool,
    spilled: bool,
    current_left: Option<Row>,
    mem_idx: usize,
    left_chunk: Vec<Row>,
    chunk_left_idx: usize,
    left_done: bool,
    filling: bool,
    reader: Option<crate::runs::RunReader>,
    head: Option<Row>,
}

impl CrossOp {
    pub closed spec fn inner_wf(&self, bs: nat) -> bool {
        &&& self.bytes_used <= self.budget
        &&& all_conform(rows_view(self.right_mem@), self.right_types@)
        &&& all_conform(rows_view(self.chunk@), self.right_types@)
        &&& self.out_types@.len() >= self.right_types@.len()
        &&& (self.current_left matches Some(l) ==> conforms(l@, self.out_types@.take(self.out_types@.len() - self.right_types@.len())))
        &&& all_conform(rows_view(self.left_chunk@), self.out_types@.take(self.out_types@.len() - self.right_types@.len()))
        &&& (self.head is Some ==> self.chunk_left_idx < self.left_chunk@.len())
        &&& (self.head matches Some(h) ==> conforms(h@, self.right_types@))
        &&& (self.reader matches Some(rd) ==> rd.wf(bs) && rd.out_types() == self.right_types@)
        &&& self.chunk_size >= 1
    }

    /// The cross product; `memory` bounds the right rows held in memory
    /// (clamped to 4 to 16 MiB) and `block_size` sets the spill chunk.
    pub fn new(left: Operator, right: Operator, memory: usize, block_size: usize) -> (r: Operator)
        requires
            left.wf_all(),
            right.wf_all(),
        ensures
            r.wf_all(),
            r.types() == left.types() + right.types(),
            r.inputs() == Some((left, right)),
            r.input_starts() == (left.out().len(), right.out().len()),
            r.out() == Seq::<Seq<Value>>::empty(),
    {
        let lt = left.types_exec();
        let rt = right.types_exec();
        let mut out_types = crate::plan::copy_types(&lt);
        let mut i: usize = 0;
        while i < rt.len()
            invariant
                i <= rt.len(),
                out_types@ == lt@ + rt@.subrange(0, i as int),
            decreases rt.len() - i,
        {
            out_types.push(rt[i]);
            assert(rt@.subrange(0, i + 1) =~= rt@.subrange(0, i as int).push(rt@[i as int]));
            i += 1;
        }
        assert(rt@.subrange(0, i as int) =~= rt@);
        let budget = if memory < 4194304 { 4194304 } else if memory > 16777216 { 16777216 } else { memory };
        let right_row_size = estimate_row_size(&rt);
        let cs = block_size / 256 * 100;
        let chunk_size = if cs < 100 { 100 } else { cs };
        let ghost ls0 = left.out().len();
        let ghost rs0 = right.out().len();
        let ghost lo = left.out();
        let ghost ro = right.out();
        let c = CrossOp {
            out: Ghost(Seq::empty()),
            lstart: Ghost(ls0),
            rstart: Ghost(rs0),
            pass_base: Ghost(Seq::empty()),
            pass_rows: Ghost(Seq::empty()),
            left: Box::new(left),
            right: Box::new(right),
            right_types: rt,
            out_types,
            phase: CrossPhase::Materialize,
            right_mem: Vec::new(),
            bytes_used: 0,
            budget,
            right_row_size,
            run_ids: Vec::new(),
            run_rows: 0,
            chunk: Vec::new(),
            chunk_size,
            right_done: false,
            spilled: false,
            current_left: None,
            mem_idx: 0,
            left_chunk: Vec::new(),
            chunk_left_idx: 0,
            left_done: false,
            filling: true,
            reader: None,
            head: None,
        };
        proof {
            assert(c.out_types@.take(c.out_types@.len() - c.right_types@.len()) =~= lt@);
            assert(rows_view(c.right_mem@) =~= Seq::<Seq<Value>>::empty());
            assert(rows_view(c.chunk@) =~= Seq::<Seq<Value>>::empty());
            assert(rows_view(c.left_chunk@) =~= Seq::<Seq<Value>>::empty());
            assert(lo.skip(ls0 as int) =~= Seq::<Seq<Value>>::empty());
            assert(ro.skip(rs0 as int) =~= Seq::<Seq<Value>>::empty());
            assert(c.history_ok_for(c.out@));
        }
        let r = Operator::Cross(c);
        proof {
            assert forall|b: nat| 2 <= b implies #[trigger] r.wf(b) by {
                assert(left.wf(b));
                assert(right.wf(b));
            }
        }
        r
    }

    /// While pairing from disk: the next left row of the chunk with the
    /// right row last read from the run.
    pub closed spec fn disk_pair(&self) -> Option<Seq<Value>> {
        if self.phase == CrossPhase::Disk && !self.filling && self.left_chunk@.len() > 0 && self.reader is Some {
            match self.head {
                Some(h) => Some(self.left_chunk@[self.chunk_left_idx as int]@ + h@),
                None => None,
            }
        } else {
            None
        }
    }

    /// While pairing in memory: the current left row with each right row
    /// held in memory from the next one on, in order.
    pub closed spec fn pending_pairs(&self) -> Seq<Seq<Value>> {
        match self.current_left {
            Some(l) => if self.phase == CrossPhase::InMemory && self.mem_idx <= self.right_mem@.len() {
                Seq::new((self.right_mem@.len() - self.mem_idx) as nat, |k: int| l@ + self.right_mem@[self.mem_idx + k]@)
            } else {
                Seq::empty()
            },
            None => Seq::empty(),
        }
    }

    /// Every pair was handed out.
    pub closed spec fn finished(&self) -> bool {
        self.phase == CrossPhase::Finished || (self.phase == CrossPhase::InMemory && self.current_left is None)
    }

    /// The left rows read since it was made.
    pub closed spec fn left_rows(&self) -> Seq<Seq<Value>> {
        self.left.out().skip(self.lstart@ as int)
    }

    /// The right rows read since it was made.
    pub closed spec fn right_rows(&self) -> Seq<Seq<Value>> {
        self.right.out().skip(self.rstart@ as int)
    }

    /// What the rows read say of `out`, the rows handed out: while the
    /// right rows are held in memory, `out` is each left row read so far
    /// paired with every right row, the current left row with those it has
    /// been paired with; an input is finished once it has said so.
    pub closed spec fn history_ok_for(&self, out: Seq<Seq<Value>>) -> bool {
        let ls = self.left_rows();
        let rs = self.right_rows();
        &&& self.lstart@ <= self.left.out().len()
        &&& self.rstart@ <= self.right.out().len()
        &&& (self.right_done ==> self.right.finished())
        &&& (self.left_done ==> self.left.finished())
        &&& (self.spilled && (self.phase == CrossPhase::StartLeft || self.phase == CrossPhase::NextLeft
            || self.phase == CrossPhase::Disk || self.phase == CrossPhase::Finished) ==> self.right_done)
        &&& (self.phase == CrossPhase::Disk && !self.filling ==> self.left_chunk@.len() >= 5000 || self.left_done)
        &&& (self.phase == CrossPhase::Finished ==> self.left.finished() && self.right.finished())
        &&& (self.filling ==> self.head is None)
        &&& (self.head is Some ==> self.reader is Some)
        &&& (self.phase == CrossPhase::Disk && !self.filling ==> {
            let c = rows_view(self.left_chunk@);
            match self.head {
                Some(h) => self.pass_rows@.len() > 0 && self.pass_rows@.last() == h@ && out == self.pass_base@
                    + chunk_pairs(self.pass_rows@.drop_last(), c) + c.take(self.chunk_left_idx as int).map_values(
                    |l: Seq<Value>| l + h@),
                None => out == self.pass_base@ + chunk_pairs(self.pass_rows@, c),
            }
        })
        &&& (self.phase == CrossPhase::InMemory ==> !self.spilled)
        &&& (self.phase == CrossPhase::Materialize || self.phase == CrossPhase::SpillPrefix ==> !self.spilled)
        &&& (self.phase == CrossPhase::Disk || self.phase == CrossPhase::Finished || self.phase == CrossPhase::SpillStream
            ==> self.spilled)
        &&& (self.phase != CrossPhase::Disk && self.phase != CrossPhase::Finished ==> self.filling)
        &&& (!self.spilled ==> match self.phase {
            CrossPhase::Materialize => rs == rows_view(self.right_mem@) && ls.len() == 0 && out.len() == 0,
            CrossPhase::StartLeft | CrossPhase::NextLeft => rs == rows_view(self.right_mem@) && self.right.finished()
                && out == cross_rows(ls, rs),
            CrossPhase::InMemory => rs == rows_view(self.right_mem@) && self.right.finished() && match self.current_left {
                Some(l) => ls.len() > 0 && ls.last() == l@ && self.mem_idx <= rs.len() && out == cross_rows(ls.drop_last(), rs)
                    + rs.take(self.mem_idx as int).map_values(|r: Seq<Value>| l@ + r),
                None => self.left.finished() && out == cross_rows(ls, rs),
            },
            _ => true,
        })
    }

    spec fn left_types(&self) -> Seq<DataType> {
        self.out_types@.take(self.out_types@.len() - self.right_types@.len())
    }

    /// One step of the cross product.
    fn step(&mut self, pool: &mut BufferPool, slots: &mut Vec<Option<JoinFilter>>) -> (r: Step)
        requires
            old(self).left.wf(old(pool).spec_block_size() as nat),
            old(self).right.wf(old(pool).spec_block_size() as nat),
            old(self).right_types@ == old(self).right.types(),
            old(self).out_types@ == old(self).left.types() + old(self).right.types(),
            old(self).inner_wf(old(pool).spec_block_size() as nat),
            old(self).history_ok_for(old(self).out@),
            old(pool).wf(),
            slots_wf(old(slots)@),
        ensures
            final(self).out == old(self).out,
            final(self).left.wf(old(pool).spec_block_size() as nat),
            final(self).right.wf(old(pool).spec_block_size() as nat),
            final(self).right_types@ == final(self).right.types(),
            final(self).out_types@ == final(self).left.types() + final(self).right.types(),
            final(self).out_types == old(self).out_types,
            final(self).inner_wf(old(pool).spec_block_size() as nat),
            final(pool).wf(),
            final(pool).spec_block_size() == old(pool).spec_block_size(),
            final(pool).spec_num_frames() == old(pool).spec_num_frames(),
            slots_wf(final(slots)@),
            final(slots)@.len() == old(slots)@.len(),
            r matches Step::Row(row) ==> conforms(row@, old(self).out_types@),
            old(self).finished() ==> r is Done && *final(self) == *old(self),
            r is Done ==> final(self).finished(),
            old(self).pending_pairs().len() > 0 ==> (r matches Step::Row(row) && row@ == old(self).pending_pairs()[0]
                && final(self).pending_pairs() == old(self).pending_pairs().drop_first()),
            old(self).disk_pair() matches Some(x) ==> (r matches Step::Row(row) && row@ == x),
            final(self).history_ok_for(match r {
                Step::Row(row) => old(self).out@.push(row@),
                _ => old(self).out@,
            }),
            final(self).lstart == old(self).lstart,
            final(self).rstart == old(self).rstart,
        decreases *old(self), 0int,
    {
        proof {
            assert(self.left_types() =~= self.left.types());
        }
        let bs = pool.block_size();
        match self.phase {
            CrossPhase::Materialize => {
                let ghost ro = self.right.out();
                let st = self.right.step(pool, slots);
                proof {
                    if st is Row {
                        lemma_skip_push(ro, self.rstart@, st->Row_0@);
                    }
                    assert(self.left_rows() == old(self).left_rows());
                }
                match st {
                    Step::Row(row) => {
                        if self.right_row_size > self.budget - self.bytes_used {
                            // The row that does not fit starts the stream
                            // written after the rows held so far.
                            let ghost before = self.chunk@;
                            self.chunk.push(row);
                            assert(rows_view(self.chunk@) =~= rows_view(before).push(row@));
                            self.phase = CrossPhase::SpillPrefix;
                        } else {
                            self.bytes_used = self.bytes_used + self.right_row_size;
                            let ghost before = self.right_mem@;
                            self.right_mem.push(row);
                            assert(rows_view(self.right_mem@) =~= rows_view(before).push(row@));
                        }
                        Step::Pending
                    },
                    Step::Done => {
                        self.phase = CrossPhase::StartLeft;
                        assert(self.right_rows() == rows_view(self.right_mem@));
                        assert(self.left_rows().len() == 0);
                        assert(old(self).out@ =~= Seq::<Seq<Value>>::empty());
                        assert(cross_rows(self.left_rows(), self.right_rows()) =~= Seq::<Seq<Value>>::empty());
                        Step::Pending
                    },
                    other => other,
                }
            },
            CrossPhase::SpillPrefix => {
                if !crate::runs::check_packable(&self.right_mem, bs) {
                    return Step::Failed(EngineError::RowTooLarge);
                }
                match crate::runs::spill_rows(pool, &self.right_mem) {
                    None => Step::Blocked,
                    Some(run) => {
                        let mut ids = run.block_ids;
                        self.run_ids.append(&mut ids);
                        self.run_rows = self.run_rows.saturating_add(run.num_rows);
                        self.right_mem = Vec::new();
                        self.spilled = true;
                        self.phase = CrossPhase::SpillStream;
                        assert(rows_view(self.right_mem@) =~= Seq::<Seq<Value>>::empty());
                        Step::Pending
                    },
                }
            },
            CrossPhase::SpillStream => {
                if !self.right_done && self.chunk.len() < self.chunk_size {
                    match self.right.step(pool, slots) {
                        Step::Row(row) => {
                            let ghost before = self.chunk@;
                            self.chunk.push(row);
                            assert(rows_view(self.chunk@) =~= rows_view(before).push(row@));
                            Step::Pending
                        },
                        Step::Done => {
                            self.right_done = true;
                            Step::Pending
                        },
                        other => other,
                    }
                } else if self.chunk.len() > 0 {
                    if !crate::runs::check_packable(&self.chunk, bs) {
                        return Step::Failed(EngineError::RowTooLarge);
                    }
                    match crate::runs::spill_rows(pool, &self.chunk) {
                        None => Step::Blocked,
                        Some(run) => {
                            let mut ids = run.block_ids;
                            self.run_ids.append(&mut ids);
                            self.run_rows = self.run_rows.saturating_add(run.num_rows);
                            self.chunk = Vec::new();
                            assert(rows_view(self.chunk@) =~= Seq::<Seq<Value>>::empty());
                            Step::Pending
                        },
                    }
                } else {
                    self.phase = CrossPhase::StartLeft;
                    Step::Pending
                }
            },
            CrossPhase::StartLeft | CrossPhase::NextLeft => {
                if self.spilled {
                    // The left rows are read in chunks, each paired with
                    // the whole run.
                    self.phase = CrossPhase::Disk;
                    return Step::Pending;
                }
                let ghost lo = self.left.out();
                let st = self.left.step(pool, slots);
                proof {
                    if st is Row {
                        lemma_skip_push(lo, self.lstart@, st->Row_0@);
                        assert(self.left_rows().drop_last() =~= old(self).left_rows());
                        assert(self.right_rows().take(0).map_values(|r: Seq<Value>| st->Row_0@ + r) =~= Seq::<Seq<Value>>::empty());
                    }
                }
                match st {
                    Step::Row(row) => {
                        self.current_left = Some(row);
                        self.mem_idx = 0;
                        self.phase = CrossPhase::InMemory;
                        Step::Pending
                    },
                    Step::Done => {
                        self.current_left = None;
                        self.mem_idx = 0;
                        self.phase = CrossPhase::InMemory;
                        Step::Pending
                    },
                    other => other,
                }
            },
            CrossPhase::InMemory => {
                match &self.current_left {
                    None => Step::Done,
                    Some(l) => {
                        if self.mem_idx < self.right_mem.len() {
                            let rrow = &self.right_mem[self.mem_idx];
                            assert(conforms(rows_view(self.right_mem@)[self.mem_idx as int], self.right_types@));
                            let out = combine_rows(l, rrow);
                            proof { lemma_combine_conforms(l@, rrow@, self.left_types(), self.right_types@); }
                            proof {
                                lemma_pairs_take(l@, self.right_rows(), self.mem_idx as int);
                                assert(rows_view(self.right_mem@)[self.mem_idx as int] == rrow@);
                            }
                            self.mem_idx = self.mem_idx + 1;
                            assert(self.pending_pairs() =~= old(self).pending_pairs().drop_first());
                            Step::Row(out)
                        } else {
                            proof {
                                let ls = self.left_rows();
                                assert(self.right_rows().take(self.mem_idx as int) =~= self.right_rows());
                                assert(ls.drop_last().push(l@) =~= ls);
                                lemma_cross_push(ls.drop_last(), l@, self.right_rows());
                            }
                            self.phase = CrossPhase::NextLeft;
                            assert(self.right_rows() == rows_view(self.right_mem@));
                            assert(old(self).out@ == cross_rows(self.left_rows(), self.right_rows()));
                            Step::Pending
                        }
                    },
                }
            },
            CrossPhase::Disk => {
                if self.filling {
                    if self.left_chunk.len() < 5000 && !self.left_done {
                        match self.left.step(pool, slots) {
                            Step::Row(row) => {
                                let ghost before = self.left_chunk@;
                                self.left_chunk.push(row);
                                assert(rows_view(self.left_chunk@) =~= rows_view(before).push(row@));
                                Step::Pending
                            },
                            Step::Done => {
                                self.left_done = true;
                                Step::Pending
                            },
                            other => other,
                        }
                    } else {
                        self.filling = false;
                        self.pass_base = Ghost(old(self).out@);
                        self.pass_rows = Ghost(Seq::empty());
                        assert(self.pass_base@ + chunk_pairs(self.pass_rows@, rows_view(self.left_chunk@)) =~= old(self).out@);
                        Step::Pending
                    }
                } else if self.left_chunk.len() == 0 {
                    let run = crate::disk_run::Run { block_ids: crate::runs::copy_ids(&self.run_ids), num_rows: self.run_rows };
                    pool.free_run(&run);
                    self.run_ids = Vec::new();
                    self.phase = CrossPhase::Finished;
                    Step::Done
                } else {
                    if self.reader.is_none() {
                        let run = crate::disk_run::Run { block_ids: crate::runs::copy_ids(&self.run_ids), num_rows: self.run_rows };
                        let rd = crate::runs::RunReader::new(run, crate::plan::copy_types(&self.right_types));
                        self.reader = Some(rd);
                        self.head = None;
                    }
                    match &self.head {
                        Some(h) => {
                            let l = &self.left_chunk[self.chunk_left_idx];
                            assert(conforms(rows_view(self.left_chunk@)[self.chunk_left_idx as int], self.left_types()));
                            let out = combine_rows(l, h);
                            proof { lemma_combine_conforms(l@, h@, self.left_types(), self.right_types@); }
                            let ghost c = rows_view(self.left_chunk@);
                            let ghost hv = h@;
                            let ghost idx = self.chunk_left_idx as int;
                            proof {
                                assert(c.take(idx + 1).map_values(|l: Seq<Value>| l + hv) =~= c.take(idx).map_values(
                                    |l: Seq<Value>| l + hv).push(c[idx] + hv));
                                assert(c[idx] == l@);
                                let pr = self.pass_rows@;
                                assert(old(self).out@.push(c[idx] + hv) =~= self.pass_base@ + chunk_pairs(pr.drop_last(), c)
                                    + c.take(idx + 1).map_values(|l: Seq<Value>| l + hv));
                            }
                            self.chunk_left_idx = self.chunk_left_idx + 1;
                            if self.chunk_left_idx == self.left_chunk.len() {
                                self.chunk_left_idx = 0;
                                self.head = None;
                                proof {
                                    let pr = self.pass_rows@;
                                    assert(c.take(idx + 1) =~= c);
                                    assert(pr.drop_last().push(hv) =~= pr);
                                    assert(chunk_pairs(pr, c) == chunk_pairs(pr.drop_last(), c) + c.map_values(|l: Seq<Value>| l + hv));
                                    assert(old(self).out@.push(c[idx] + hv) =~= self.pass_base@ + chunk_pairs(pr, c));
                                }
                            }
                            Step::Row(out)
                        },
                        None => {
                            let mut rd = self.reader.take().unwrap();
                            match rd.next_owned(pool) {
                                crate::runs::Fetch::Row(row) => {
                                    self.reader = Some(rd);
                                    self.chunk_left_idx = 0;
                                    let ghost pr = self.pass_rows@;
                                    self.pass_rows = Ghost(pr.push(row@));
                                    proof {
                                        let c = rows_view(self.left_chunk@);
                                        assert(self.pass_rows@.drop_last() =~= pr);
                                        assert(c.take(0).map_values(|l: Seq<Value>| l + row@) =~= Seq::<Seq<Value>>::empty());
                                    }
                                    self.head = Some(row);
                                    Step::Pending
                                },
                                crate::runs::Fetch::End => {
                                    self.left_chunk = Vec::new();
                                    self.chunk_left_idx = 0;
                                    self.filling = true;
                                    assert(rows_view(self.left_chunk@) =~= Seq::<Seq<Value>>::empty());
                                    Step::Pending
                                },
                                crate::runs::Fetch::Blocked => {
                                    self.reader = Some(rd);
                                    Step::Blocked
                                },
                                crate::runs::Fetch::Pending => {
                                    self.reader = Some(rd);
                                    Step::Pending
                                },
                            }
                        },
                    }
                }
            },
            CrossPhase::Finished => Step::Done,
        }
    }
}



// ─── Nested-loop equi-join ──────────────────────────────────────────────

/// An equi-join by nested loops: each left row with each right row whose
/// key column holds an equal value.  The right input is held in memory
/// when it fits the budget, else written to a run and read back once per
/// chunk of left rows.
pub struct JoinOp {
    /// The rows handed out so far, in order.
    out: Ghost<Seq<Seq<Value>>>,
    left: Box<Operator>,
    right: Box<Operator>,
    right_types: Vec<DataType>,
    out_types: Vec<DataType>,
    phase: CrossPhase,
    right_mem: Vec<Row>,
    bytes_used: usize,
    budget: usize,
    right_row_size: usize,
    run_ids: Vec<u64>,
    run_rows: usize,
    chunk: Vec<Row>,
    chunk_size: usize,
    right_done: bool,
    spilled: bool,
    current_left: Option<Row>,
    mem_idx: usize,
    left_chunk: Vec<Row>,
    chunk_left_idx: usize,
    left_done: bool,
    filling: bool,
    reader: Option<crate::runs::RunReader>,
    head: Option<Row>,
    left_col: usize,
    right_col: usize,
}

impl JoinOp {
    pub closed spec fn inner_wf(&self, bs: nat) -> bool {
        &&& self.bytes_used <= self.budget
        &&& all_conform(rows_view(self.right_mem@), self.right_types@)
        &&& all_conform(rows_view(self.chunk@), self.right_types@)
        &&& self.out_types@.len() >= self.right_types@.len()
        &&& (self.current_left matches Some(l) ==> conforms(l@, self.out_types@.take(self.out_types@.len() - self.right_types@.len())))
        &&& all_conform(rows_view(self.left_chunk@), self.out_types@.take(self.out_types@.len() - self.right_types@.len()))
        &&& (self.head is Some ==> self.chunk_left_idx < self.left_chunk@.len())
        &&& (self.head matches Some(h) ==> conforms(h@, self.right_types@))
        &&& (self.reader matches Some(rd) ==> rd.wf(bs) && rd.out_types() == self.right_types@)
        &&& self.chunk_size >= 1
        &&& self.left_col < self.out_types@.len() - self.right_types@.len()
        &&& self.right_col < self.right_types@.len()
        &&& (self.spilled ==> self.phase == CrossPhase::SpillStream || self.phase == CrossPhase::Disk
            || self.phase == CrossPhase::Finished)
    }

    /// The join of `left` and `right` on `left_col == right_col`.  The
    /// right rows held in memory are bounded by the pool's size in bytes,
    /// clamped to 4 to 16 MiB; the block size sets the spill chunk.
    pub fn new(left: Operator, right: Operator, left_col: usize, right_col: usize, pool: &BufferPool) -> (r: Operator)
        requires
            left.wf_all(),
            right.wf_all(),
            left_col < left.types().len(),
            right_col < right.types().len(),
        ensures
            r.wf_all(),
            r.types() == left.types() + right.types(),
            forall|row: Seq<Value>| #[trigger] r.admits(row) == keys_equal(row, left_col as int, left.types().len() + right_col),
    {
        let lt = left.types_exec();
        let rt = right.types_exec();
        let mut out_types = crate::plan::copy_types(&lt);
        let mut i: usize = 0;
        while i < rt.len()
            invariant
                i <= rt.len(),
                out_types@ == lt@ + rt@.subrange(0, i as int),
            decreases rt.len() - i,
        {
            out_types.push(rt[i]);
            assert(rt@.subrange(0, i + 1) =~= rt@.subrange(0, i as int).push(rt@[i as int]));
            i += 1;
        }
        assert(rt@.subrange(0, i as int) =~= rt@);
        let block_size = pool.block_size();
        let memory = match pool.num_frames().checked_mul(block_size) {
            Some(m) => m,
            None => usize::MAX,
        };
        let budget = if memory < 4194304 { 4194304 } else if memory > 16777216 { 16777216 } else { memory };
        let right_row_size = estimate_row_size(&rt);
        let cs = block_size / 256 * 100;
        let chunk_size = if cs < 100 { 100 } else { cs };
        let c = JoinOp {
            out: Ghost(Seq::empty()),
            left: Box::new(left),
            right: Box::new(right),
            right_types: rt,
            out_types,
            phase: CrossPhase::Materialize,
            right_mem: Vec::new(),
            bytes_used: 0,
            budget,
            right_row_size,
            run_ids: Vec::new(),
            run_rows: 0,
            chunk: Vec::new(),
            chunk_size,
            right_done: false,
            spilled: false,
            current_left: None,
            mem_idx: 0,
            left_chunk: Vec::new(),
            chunk_left_idx: 0,
            left_done: false,
            filling: true,
            reader: None,
            head: None,
            left_col,
            right_col,
        };
        proof {
            assert(c.out_types@.take(c.out_types@.len() - c.right_types@.len()) =~= lt@);
            assert(rows_view(c.right_mem@) =~= Seq::<Seq<Value>>::empty());
            assert(rows_view(c.chunk@) =~= Seq::<Seq<Value>>::empty());
            assert(rows_view(c.left_chunk@) =~= Seq::<Seq<Value>>::empty());
        }
        let r = Operator::Join(c);
        proof {
            assert forall|b: nat| 2 <= b implies #[trigger] r.wf(b) by {
                assert(left.wf(b));
                assert(right.wf(b));
            }
        }
        r
    }

    /// Every pair was handed out.
    pub closed spec fn finished(&self) -> bool {
        self.phase == CrossPhase::Finished || (self.phase == CrossPhase::InMemory && self.current_left is None)
    }

    /// An input is finished once it has said so; pairing starts only after
    /// the right side is read, and the end comes only after both.
    pub closed spec fn inputs_ok(&self) -> bool {
        &&& (self.right_done ==> self.right.finished())
        &&& (self.left_done ==> self.left.finished())
        &&& (self.phase == CrossPhase::Materialize || self.phase == CrossPhase::SpillPrefix ==> !self.spilled)
        &&& (self.phase == CrossPhase::Disk || self.phase == CrossPhase::Finished || self.phase == CrossPhase::SpillStream
            ==> self.spilled)
        &&& (self.spilled && (self.phase == CrossPhase::Disk || self.phase == CrossPhase::Finished) ==> self.right_done)
        &&& (self.phase == CrossPhase::Disk && !self.filling ==> self.left_chunk@.len() >= 5000 || self.left_done)
        &&& (self.phase == CrossPhase::Finished ==> self.left.finished() && self.right.finished())
        &&& (!self.spilled && (self.phase == CrossPhase::StartLeft || self.phase == CrossPhase::NextLeft
            || self.phase == CrossPhase::InMemory) ==> self.right.finished())
        &&& (self.phase == CrossPhase::InMemory && self.current_left is None ==> self.left.finished())
        &&& (self.phase == CrossPhase::InMemory ==> !self.spilled)
        &&& (self.phase != CrossPhase::Disk && self.phase != CrossPhase::Finished ==> self.filling)
    }

    spec fn left_types(&self) -> Seq<DataType> {
        self.out_types@.take(self.out_types@.len() - self.right_types@.len())
    }

    /// One step of the join.
    fn step(&mut self, pool: &mut BufferPool, slots: &mut Vec<Option<JoinFilter>>) -> (r: Step)
        requires
            old(self).inputs_ok(),
            old(self).left.wf(old(pool).spec_block_size() as nat),
            old(self).right.wf(old(pool).spec_block_size() as nat),
            old(self).right_types@ == old(self).right.types(),
            old(self).out_types@ == old(self).left.types() + old(self).right.types(),
            old(self).inner_wf(old(pool).spec_block_size() as nat),
            old(pool).wf(),
            slots_wf(old(slots)@),
        ensures
            final(self).inputs_ok(),
            final(self).out == old(self).out,
            final(self).left.wf(old(pool).spec_block_size() as nat),
            final(self).right.wf(old(pool).spec_block_size() as nat),
            final(self).right_types@ == final(self).right.types(),
            final(self).out_types@ == final(self).left.types() + final(self).right.types(),
            final(self).out_types == old(self).out_types,
            final(self).inner_wf(old(pool).spec_block_size() as nat),
            final(pool).wf(),
            final(pool).spec_block_size() == old(pool).spec_block_size(),
            final(pool).spec_num_frames() == old(pool).spec_num_frames(),
            slots_wf(final(slots)@),
            final(slots)@.len() == old(slots)@.len(),
            r matches Step::Row(row) ==> conforms(row@, old(self).out_types@),
            old(self).finished() ==> r is Done && *final(self) == *old(self),
            r is Done ==> final(self).finished(),
            final(self).right_types == old(self).right_types,
            final(self).left_col == old(self).left_col,
            final(self).right_col == old(self).right_col,
            r matches Step::Row(row) ==> keys_equal(row@, old(self).left_col as int, old(self).left_types().len() + old(self).right_col),
        decreases *old(self), 0int,
    {
        proof {
            assert(self.left_types() =~= self.left.types());
        }
        let bs = pool.block_size();
        match self.phase {
            CrossPhase::Materialize => {
                match self.right.step(pool, slots) {
                    Step::Row(row) => {
                        if self.right_row_size > self.budget - self.bytes_used {
                            // The row that does not fit starts the stream
                            // written after the rows held so far.
                            let ghost before = self.chunk@;
                            self.chunk.push(row);
                            assert(rows_view(self.chunk@) =~= rows_view(before).push(row@));
                            self.phase = CrossPhase::SpillPrefix;
                        } else {
                            self.bytes_used = self.bytes_used + self.right_row_size;
                            let ghost before = self.right_mem@;
                            self.right_mem.push(row);
                            assert(rows_view(self.right_mem@) =~= rows_view(before).push(row@));
                        }
                        Step::Pending
                    },
                    Step::Done => {
                        self.phase = CrossPhase::StartLeft;
                        Step::Pending
                    },
                    other => other,
                }
            },
            CrossPhase::SpillPrefix => {
                if !crate::runs::check_packable(&self.right_mem, bs) {
                    return Step::Failed(EngineError::RowTooLarge);
                }
                match crate::runs::spill_rows(pool, &self.right_mem) {
                    None => Step::Blocked,
                    Some(run) => {
                        let mut ids = run.block_ids;
                        self.run_ids.append(&mut ids);
                        self.run_rows = self.run_rows.saturating_add(run.num_rows);
                        self.right_mem = Vec::new();
                        self.spilled = true;
                        self.phase = CrossPhase::SpillStream;
                        assert(rows_view(self.right_mem@) =~= Seq::<Seq<Value>>::empty());
                        Step::Pending
                    },
                }
            },
            CrossPhase::SpillStream => {
                if !self.right_done && self.chunk.len() < self.chunk_size {
                    match self.right.step(pool, slots) {
                        Step::Row(row) => {
                            let ghost before = self.chunk@;
                            self.chunk.push(row);
                            assert(rows_view(self.chunk@) =~= rows_view(before).push(row@));
                            Step::Pending
                        },
                        Step::Done => {
                            self.right_done = true;
                            Step::Pending
                        },
                        other => other,
                    }
                } else if self.chunk.len() > 0 {
                    if !crate::runs::check_packable(&self.chunk, bs) {
                        return Step::Failed(EngineError::RowTooLarge);
                    }
                    match crate::runs::spill_rows(pool, &self.chunk) {
                        None => Step::Blocked,
                        Some(run) => {
                            let mut ids = run.block_ids;
                            self.run_ids.append(&mut ids);
                            self.run_rows = self.run_rows.saturating_add(run.num_rows);
                            self.chunk = Vec::new();
                            assert(rows_view(self.chunk@) =~= Seq::<Seq<Value>>::empty());
                            Step::Pending
                        },
                    }
                } else {
                    self.phase = CrossPhase::Disk;
                    Step::Pending
                }
            },
            CrossPhase::StartLeft | CrossPhase::NextLeft => {
                match self.left.step(pool, slots) {
                    Step::Row(row) => {
                        self.current_left = Some(row);
                        self.mem_idx = 0;
                        self.phase = CrossPhase::InMemory;
                        Step::Pending
                    },
                    Step::Done => {
                        self.current_left = None;
                        self.mem_idx = 0;
                        self.phase = CrossPhase::InMemory;
                        Step::Pending
                    },
                    other => other,
                }
            },
            CrossPhase::InMemory => {
                match &self.current_left {
                    None => Step::Done,
                    Some(l) => {
                        if self.mem_idx < self.right_mem.len() {
                            let rrow = &self.right_mem[self.mem_idx];
                            assert(conforms(rows_view(self.right_mem@)[self.mem_idx as int], self.right_types@));
                            self.mem_idx = self.mem_idx + 1;
                            if crate::data::data_eq(&l.values[self.left_col], &rrow.values[self.right_col]) {
                                let out = combine_rows(l, rrow);
                                proof { lemma_combine_conforms(l@, rrow@, self.left_types(), self.right_types@); }
                                Step::Row(out)
                            } else {
                                Step::Pending
                            }
                        } else {
                            self.phase = CrossPhase::NextLeft;
                            Step::Pending
                        }
                    },
                }
            },
            CrossPhase::Disk => {
                if self.filling {
                    if self.left_chunk.len() < 5000 && !self.left_done {
                        match self.left.step(pool, slots) {
                            Step::Row(row) => {
                                let ghost before = self.left_chunk@;
                                self.left_chunk.push(row);
                                assert(rows_view(self.left_chunk@) =~= rows_view(before).push(row@));
                                Step::Pending
                            },
                            Step::Done => {
                                self.left_done = true;
                                Step::Pending
                            },
                            other => other,
                        }
                    } else {
                        self.filling = false;
                        Step::Pending
                    }
                } else if self.left_chunk.len() == 0 {
                    let run = crate::disk_run::Run { block_ids: crate::runs::copy_ids(&self.run_ids), num_rows: self.run_rows };
                    pool.free_run(&run);
                    self.run_ids = Vec::new();
                    self.phase = CrossPhase::Finished;
                    Step::Done
                } else {
                    if self.reader.is_none() {
                        let run = crate::disk_run::Run { block_ids: crate::runs::copy_ids(&self.run_ids), num_rows: self.run_rows };
                        let rd = crate::runs::RunReader::new(run, crate::plan::copy_types(&self.right_types));
                        self.reader = Some(rd);
                        self.head = None;
                    }
                    match &self.head {
                        Some(h) => {
                            let l = &self.left_chunk[self.chunk_left_idx];
                            assert(conforms(rows_view(self.left_chunk@)[self.chunk_left_idx as int], self.left_types()));
                            let matched = crate::data::data_eq(&l.values[self.left_col], &h.values[self.right_col]);
                            let out = if matched {
                                proof { lemma_combine_conforms(l@, h@, self.left_types(), self.right_types@); }
                                Some(combine_rows(l, h))
                            } else {
                                None
                            };
                            self.chunk_left_idx = self.chunk_left_idx + 1;
                            if self.chunk_left_idx == self.left_chunk.len() {
                                self.chunk_left_idx = 0;
                                self.head = None;
                            }
                            match out {
                                Some(o) => Step::Row(o),
                                None => Step::Pending,
                            }
                        },
                        None => {
                            let mut rd = self.reader.take().unwrap();
                            match rd.next_owned(pool) {
                                crate::runs::Fetch::Row(row) => {
                                    self.reader = Some(rd);
                                    self.chunk_left_idx = 0;
                                    self.head = Some(row);
                                    Step::Pending
                                },
                                crate::runs::Fetch::End => {
                                    self.left_chunk = Vec::new();
                                    self.chunk_left_idx = 0;
                                    self.filling = true;
                                    assert(rows_view(self.left_chunk@) =~= Seq::<Seq<Value>>::empty());
                                    Step::Pending
                                },
                                crate::runs::Fetch::Blocked => {
                                    self.reader = Some(rd);
                                    Step::Blocked
                                },
                                crate::runs::Fetch::Pending => {
                                    self.reader = Some(rd);
                                    Step::Pending
                                },
                            }
                        },
                    }
                }
            },
            CrossPhase::Finished => Step::Done,
        }
    }
}


// ─── Hash join ───────────────────────────────────────────────────────────

/// The rows of the build side of a hash join, chained by hash: `head`
/// gives the last row inserted with a hash, `next` the row inserted before
/// it with the same hash.
pub struct BuildSide {
    rows: Vec<Row>,
    next: Vec<Option<usize>>,
    head: std::collections::HashMap<u64, usize>,
    hashes: Ghost<Seq<u64>>,
}

impl BuildSide {
    pub closed spec fn wf(&self, types: Seq<DataType>) -> bool {
        &&& vstd::std_specs::hash::obeys_key_model::<u64>()
        &&& vstd::std_specs::hash::builds_valid_hashers::<std::hash::RandomState>()
        &&& self.rows@.len() == self.next@.len()
        &&& forall|i: int| 0 <= i < self.next@.len() ==> (#[trigger] self.next@[i] matches Some(j) ==> j < i)
        &&& forall|h: u64| #[trigger] self.head@.contains_key(h) ==> self.head@[h] < self.rows@.len()
        &&& all_conform(rows_view(self.rows@), types)
        &&& self.hashes@.len() == self.rows@.len()
        &&& forall|h: u64| #[trigger] self.head@.contains_key(h) ==> {
            &&& self.hashes@[self.head@[h] as int] == h
            &&& forall|k: int| self.head@[h] < k < self.rows@.len() ==> #[trigger] self.hashes@[k] != h
        }
        &&& forall|h: u64, k: int| !#[trigger] self.head@.contains_key(h) && 0 <= k < self.rows@.len()
            ==> #[trigger] self.hashes@[k] != h
        &&& forall|i: int| 0 <= i < self.next@.len() ==> (#[trigger] self.next@[i] matches Some(j) ==> {
            &&& self.hashes@[j as int] == self.hashes@[i]
            &&& forall|k: int| j < k < i ==> #[trigger] self.hashes@[k] != self.hashes@[i]
        })
        &&& forall|i: int, k: int| 0 <= k < i < self.next@.len() && #[trigger] self.next@[i] is None
            ==> #[trigger] self.hashes@[k] != self.hashes@[i]
    }

    /// The hash the row at `i` was inserted under.
    pub closed spec fn hash_at(&self, i: int) -> u64 {
        self.hashes@[i]
    }

    /// The positions below `hi` of the rows inserted under `hash` whose
    /// column `key_idx` equals `probe`, newest first.
    pub closed spec fn hits_below(&self, hash: u64, key_idx: int, probe: Value, hi: nat) -> Seq<usize>
        decreases hi,
    {
        if hi == 0 {
            Seq::empty()
        } else {
            let i = (hi - 1) as nat;
            let rest = self.hits_below(hash, key_idx, probe, i);
            if self.hashes@[i as int] == hash && crate::data::value_eq(self.row_at(i as int)[key_idx], probe) {
                seq![i as usize].add(rest)
            } else {
                rest
            }
        }
    }

    /// Rows in `lo..hi` of another hash add nothing.
    proof fn lemma_hits_skip(&self, hash: u64, key_idx: int, probe: Value, lo: nat, hi: nat)
        requires
            lo <= hi,
            forall|k: int| lo <= k < hi ==> #[trigger] self.hashes@[k] != hash,
        ensures
            self.hits_below(hash, key_idx, probe, hi) == self.hits_below(hash, key_idx, probe, lo),
        decreases hi,
    {
        if hi > lo {
            assert(self.hashes@[hi - 1] != hash);
            self.lemma_hits_skip(hash, key_idx, probe, lo, (hi - 1) as nat);
        }
    }

    pub closed spec fn len_spec(&self) -> nat {
        self.rows@.len()
    }

    pub closed spec fn row_at(&self, i: int) -> Seq<Value> {
        self.rows@[i]@
    }

    /// No rows.
    pub fn new() -> (r: BuildSide)
        ensures
            forall|t: Seq<DataType>| #[trigger] r.wf(t),
            r.len_spec() == 0,
    {
        let r = BuildSide {
            rows: Vec::new(),
            next: Vec::new(),
            head: std::collections::HashMap::new(),
            hashes: Ghost(Seq::empty()),
        };
        assert(rows_view(r.rows@) =~= Seq::<Seq<Value>>::empty());
        r
    }

    /// Adds a row under its hash.
    pub fn insert(&mut self, hash: u64, row: Row, Ghost(t): Ghost<Seq<DataType>>)
        requires
            old(self).wf(t),
            conforms(row@, t),
        ensures
            final(self).wf(t),
            final(self).len_spec() == old(self).len_spec() + 1,
            forall|i: int| 0 <= i < old(self).len_spec() ==> final(self).row_at(i) == old(self).row_at(i),
            final(self).row_at(old(self).len_spec() as int) == row@,
            forall|i: int| 0 <= i < old(self).len_spec() ==> final(self).hash_at(i) == old(self).hash_at(i),
            final(self).hash_at(old(self).len_spec() as int) == hash,
    {
        let idx = self.rows.len();
        let prev = self.head.insert(hash, idx);
        let ghost before = self.rows@;
        self.rows.push(row);
        self.next.push(prev);
        self.hashes = Ghost(self.hashes@.push(hash));
        proof {
            assert(rows_view(self.rows@) =~= rows_view(before).push(row@));
            assert forall|h: u64| #[trigger] self.head@.contains_key(h) implies self.head@[h] < self.rows@.len() by {
                if h != hash {
                    assert(old(self).head@.contains_key(h));
                }
            }
            assert forall|h: u64| #[trigger] self.head@.contains_key(h) implies {
                &&& self.hashes@[self.head@[h] as int] == h
                &&& forall|k: int| self.head@[h] < k < self.rows@.len() ==> #[trigger] self.hashes@[k] != h
            } by {
                if h != hash {
                    assert(old(self).head@.contains_key(h));
                }
            }
            assert forall|h: u64, k: int| !#[trigger] self.head@.contains_key(h) && 0 <= k < self.rows@.len()
                implies #[trigger] self.hashes@[k] != h by {
                assert(h != hash);
                assert(!old(self).head@.contains_key(h));
                if k < idx {
                    assert(old(self).hashes@[k] != h);
                }
            }
            assert forall|i: int| 0 <= i < self.next@.len() implies (#[trigger] self.next@[i] matches Some(j) ==> {
                &&& self.hashes@[j as int] == self.hashes@[i]
                &&& forall|k: int| j < k < i ==> #[trigger] self.hashes@[k] != self.hashes@[i]
            }) by {
                if i < idx {
                    assert(old(self).next@[i] == self.next@[i]);
                } else if prev is Some {
                    assert(old(self).head@.contains_key(hash));
                }
            }
            assert forall|i: int, k: int| 0 <= k < i < self.next@.len() && #[trigger] self.next@[i] is None
                implies #[trigger] self.hashes@[k] != self.hashes@[i] by {
                if i < idx {
                    assert(old(self).next@[i] == self.next@[i]);
                    assert(old(self).hashes@[k] != old(self).hashes@[i]);
                } else {
                    assert(!old(self).head@.contains_key(hash));
                    assert(old(self).hashes@[k] != hash);
                }
            }
        }
    }

    /// The positions of the rows chained under `hash` whose column
    /// `key_idx` equals `probe_val`, newest first.
    pub fn find_matches(&self, hash: u64, key_idx: usize, probe_val: &Data, Ghost(t): Ghost<Seq<DataType>>) -> (r: Vec<usize>)
        requires
            self.wf(t),
            key_idx < t.len(),
        ensures
            forall|i: int| 0 <= i < r@.len() ==> #[trigger] r@[i] < self.len_spec(),
            forall|i: int| 0 <= i < r@.len() ==> crate::data::value_eq(#[trigger] self.row_at(r@[i] as int)[key_idx as int], probe_val@),
            r@ == self.hits_below(hash, key_idx as int, probe_val@, self.len_spec()),
    {
        let mut out: Vec<usize> = Vec::new();
        let mut cur: Option<usize> = match self.head.get(&hash) {
            Some(i) => Some(*i),
            None => None,
        };
        let ghost n = self.rows@.len();
        proof {
            match cur {
                Some(c) => {
                    self.lemma_hits_skip(hash, key_idx as int, probe_val@, (c + 1) as nat, n);
                },
                None => {
                    assert forall|k: int| 0 <= k < n implies #[trigger] self.hashes@[k] != hash by {
                        assert(!self.head@.contains_key(hash));
                    }
                    self.lemma_hits_skip(hash, key_idx as int, probe_val@, 0, n);
                },
            }
            assert(out@ + self.hits_below(hash, key_idx as int, probe_val@, n) =~= self.hits_below(hash, key_idx as int, probe_val@, n));
        }
        while cur.is_some()
            invariant
                self.wf(t),
                key_idx < t.len(),
                n == self.rows@.len(),
                cur matches Some(c) ==> c < n && self.hashes@[c as int] == hash,
                forall|i: int| 0 <= i < out@.len() ==> #[trigger] out@[i] < n,
                forall|i: int| 0 <= i < out@.len() ==> crate::data::value_eq(#[trigger] self.rows@[out@[i] as int]@[key_idx as int], probe_val@),
                self.hits_below(hash, key_idx as int, probe_val@, n) == out@ + self.hits_below(
                    hash, key_idx as int, probe_val@, match cur { Some(c) => (c + 1) as nat, None => 0nat }),
            decreases match cur { Some(c) => c + 1, None => 0 },
        {
            let c = cur.unwrap();
            let row = &self.rows[c];
            assert(conforms(rows_view(self.rows@)[c as int], t));
            let ghost out_before = out@;
            let ghost here = self.hits_below(hash, key_idx as int, probe_val@, (c + 1) as nat);
            let ghost below = self.hits_below(hash, key_idx as int, probe_val@, c as nat);
            if crate::data::data_eq(&row.values[key_idx], probe_val) {
                out.push(c);
                proof {
                    assert(here == seq![c].add(below));
                    assert(out_before + here =~= out@ + below);
                }
            } else {
                assert(here == below);
            }
            cur = self.next[c];
            proof {
                match cur {
                    Some(j) => {
                        assert(j < c);
                        self.lemma_hits_skip(hash, key_idx as int, probe_val@, (j + 1) as nat, c as nat);
                    },
                    None => {
                        assert forall|k: int| 0 <= k < c implies #[trigger] self.hashes@[k] != hash by {
                            assert(self.next@[c as int] is None);
                            assert(self.hashes@[k] != self.hashes@[c as int]);
                        }
                        self.lemma_hits_skip(hash, key_idx as int, probe_val@, 0, c as nat);
                    },
                }
            }
        }
        proof {
            assert(out@ + self.hits_below(hash, key_idx as int, probe_val@, 0) =~= out@);
        }
        out
    }

    /// A copy of the row at `i`.
    pub fn row_copy(&self, i: usize) -> (r: Row)
        requires
            i < self.len_spec(),
        ensures
            r@ == self.row_at(i as int),
    {
        self.rows[i].copy()
    }

    proof fn lemma_row_conforms(&self, i: int, t: Seq<DataType>)
        requires
            self.wf(t),
            0 <= i < self.len_spec(),
        ensures
            conforms(self.row_at(i), t),
    {
        assert(conforms(rows_view(self.rows@)[i], t));
    }
}

/// What adding a row to a partition gave.
#[derive(Debug, Clone, Copy, PartialEq, Eq, Structural)]
pub enum AddRow {
    Added,
    /// A full stretch of blocks could not be written yet; add the row again.
    Blocked,
    TooLarge,
}

/// Packs one partition's rows into blocks, writing completed blocks in
/// stretches once they reach a size.
#[derive(Debug)]
pub struct PartitionWriter {
    current: Vec<u8>,
    count: usize,
    pending: Vec<u8>,
    pending_blocks: usize,
    block_ids: Vec<u64>,
    total_rows: usize,
}

impl PartitionWriter {
    pub closed spec fn wf(&self, bs: nat) -> bool {
        &&& bs >= 2
        &&& self.current@.len() <= bs - 2
        &&& self.count <= 0xffff
        &&& (self.count == 0 ==> self.current@.len() == 0)
        &&& self.pending@.len() == self.pending_blocks * bs
    }

    pub fn new() -> (r: PartitionWriter)
        ensures
            forall|bs: nat| bs >= 2 ==> #[trigger] r.wf(bs),
    {
        PartitionWriter { current: Vec::new(), count: 0, pending: Vec::new(), pending_blocks: 0, block_ids: Vec::new(), total_rows: 0 }
    }

    /// Closes the current block: zero padding and its row count.
    fn finalize_current_block(&mut self, bs: usize)
        requires
            old(self).wf(bs as nat),
        ensures
            final(self).wf(bs as nat),
            final(self).count == 0,
            final(self).current@.len() == 0,
            final(self).total_rows == old(self).total_rows,
    {
        let mut cur: Vec<u8> = Vec::new();
        std::mem::swap(&mut cur, &mut self.current);
        while cur.len() < bs - 2
            invariant
                bs >= 2,
                cur@.len() <= bs - 2,
            decreases bs - 2 - cur@.len(),
        {
            cur.push(0u8);
        }
        crate::bytes::push_le(&mut cur, self.count as u64, 2);
        proof { crate::bytes::lemma_le_bytes_len(self.count as nat, 2); }
        let ghost before = self.pending@;
        self.pending.extend_from_slice(cur.as_slice());
        assert(self.pending@.len() == before.len() + bs);
        assert(self.pending_blocks * bs + bs == (self.pending_blocks + 1) * bs) by (nonlinear_arith);
        let pl = self.pending.len();
        assert((self.pending_blocks + 1) * bs == pl);
        assert(self.pending_blocks + 1 <= pl) by (nonlinear_arith) requires (self.pending_blocks + 1) * bs == pl, bs >= 2;
        self.pending_blocks = self.pending_blocks + 1;
        self.count = 0;
    }

    /// Writes the completed blocks; false while the pool waits for the disk.
    fn flush_pending(&mut self, pool: &mut BufferPool) -> (r: bool)
        requires
            old(self).wf(old(pool).spec_block_size() as nat),
            old(pool).wf(),
        ensures
            final(self).wf(old(pool).spec_block_size() as nat),
            final(self).total_rows == old(self).total_rows,
            final(self).count == old(self).count,
            final(self).current == old(self).current,
            final(pool).wf(),
            final(pool).spec_block_size() == old(pool).spec_block_size(),
            final(pool).spec_num_frames() == old(pool).spec_num_frames(),
            old(self).pending_blocks == 0 ==> r && *final(self) == *old(self) && *final(pool) == *old(pool),
            old(self).pending_blocks > 0 && r ==> {
                &&& final(self).pending_blocks == 0
                &&& final(self).block_ids@.len() == old(self).block_ids@.len() + old(self).pending_blocks
                &&& final(self).block_ids@.subrange(0, old(self).block_ids@.len() as int) == old(self).block_ids@
                &&& final(pool).writes() == old(pool).writes().push(
                    (final(self).block_ids@[old(self).block_ids@.len() as int], old(self).pending@))
            },
            !r ==> *final(self) == *old(self) && final(pool).request() == Some(DiskRequest::AnonStartBlock),
    {
        if self.pending_blocks == 0 {
            return true;
        }
        match pool.write_raw_run_blocks(self.pending.as_slice(), self.pending_blocks) {
            None => false,
            Some(ids) => {
                let ghost ids0 = ids@;
                let ghost old_ids = self.block_ids@;
                let mut ids = ids;
                self.block_ids.append(&mut ids);
                assert(self.block_ids@ == old_ids + ids0);
                assert(self.block_ids@.subrange(0, old_ids.len() as int) =~= old_ids);
                assert(self.block_ids@[old_ids.len() as int] == ids0[0]);
                self.pending.clear();
                self.pending_blocks = 0;
                true
            },
        }
    }

    /// Adds a row, first closing the current block if the row does not fit
    /// and writing the completed blocks once they reach `flush_bytes`.
    fn add_row(&mut self, row: &Row, pool: &mut BufferPool, flush_bytes: usize) -> (r: AddRow)
        requires
            old(self).wf(old(pool).spec_block_size() as nat),
            old(pool).wf(),
        ensures
            final(self).wf(old(pool).spec_block_size() as nat),
            final(pool).wf(),
            final(pool).spec_block_size() == old(pool).spec_block_size(),
            final(pool).spec_num_frames() == old(pool).spec_num_frames(),
            (r is TooLarge) <==> crate::row::row_size(row@) > old(pool).spec_block_size() - 2,
            r is TooLarge ==> *final(self) == *old(self) && *final(pool) == *old(pool),
            r is Added ==> {
                &&& final(self).total_rows == if old(self).total_rows == usize::MAX { usize::MAX } else { (old(self).total_rows + 1) as usize }
                &&& final(self).current@ == (if crate::row::row_size(row@) <= old(pool).spec_block_size() - 2 - old(self).current@.len()
                    && old(self).count < 0xffff { old(self).current@ } else { Seq::empty() }) + crate::row::encode_values(row@)
            },
            r is Blocked ==> final(pool).request() == Some(DiskRequest::AnonStartBlock)
                && final(self).total_rows == old(self).total_rows,
    {
        let bs = pool.block_size();
        let usable = bs - 2;
        let size = match crate::runs::row_size_within(row, usable) {
            Some(sz) => sz,
            None => return AddRow::TooLarge,
        };
        if size > usable - self.current.len() || self.count >= 0xffff {
            self.finalize_current_block(bs);
        }
        if self.pending.len() >= flush_bytes {
            if !self.flush_pending(pool) {
                return AddRow::Blocked;
            }
        }
        let bytes = crate::row::encode_row(row);
        proof { crate::row::lemma_encode_values_len(row@); }
        self.current.extend_from_slice(bytes.as_slice());
        self.count = self.count + 1;
        self.total_rows = self.total_rows.saturating_add(1);
        AddRow::Added
    }

    /// Closes the last block and writes what is left; false while the pool
    /// waits for the disk.
    fn finish(&mut self, pool: &mut BufferPool) -> (r: bool)
        requires
            old(self).wf(old(pool).spec_block_size() as nat),
            old(pool).wf(),
        ensures
            final(self).wf(old(pool).spec_block_size() as nat),
            final(self).total_rows == old(self).total_rows,
            final(self).count == 0,
            final(self).current@.len() == 0,
            r ==> final(self).pending_blocks == 0,
            !r ==> final(pool).request() == Some(DiskRequest::AnonStartBlock),
            final(pool).wf(),
            final(pool).spec_block_size() == old(pool).spec_block_size(),
            final(pool).spec_num_frames() == old(pool).spec_num_frames(),
    {
        if self.count > 0 {
            let bs = pool.block_size();
            self.finalize_current_block(bs);
        }
        self.flush_pending(pool)
    }
}


#[derive(Debug, Clone, Copy, PartialEq, Eq, Structural)]
pub enum JoinPhase {
    /// Reading both inputs, a chunk from each in turn, while they fit.
    Read,
    /// Both fitted (or one ran out): probing the hashed smaller side.
    Probe,
    /// Too large: hashing the left input into partitions on disk.
    PartitionLeft,
    /// Hashing the right input into partitions on disk.
    PartitionRight,
    /// Joining partition pairs one at a time.
    Partitions,
    Finished,
}

#[derive(Debug, Clone, Copy, PartialEq, Eq, Structural)]
pub enum PartPhase {
    Next,
    Building,
    Probing,
}

/// An equi-join by hashing: a hybrid hash join that joins in memory when
/// the inputs fit the budget and otherwise partitions both inputs to disk
/// by the hash of the key and joins the partitions pairwise.
pub struct HashJoinOp {
    /// The rows handed out so far, in order.
    out: Ghost<Seq<Seq<Value>>>,
    left: Box<Operator>,
    right: Box<Operator>,
    left_types: Vec<DataType>,
    right_types: Vec<DataType>,
    out_types: Vec<DataType>,
    left_col: usize,
    right_col: usize,
    budget: usize,
    slot: Option<usize>,
    phase: JoinPhase,
    // Reading.
    left_buf: Vec<Row>,
    right_buf: Vec<Row>,
    total_size: usize,
    left_row_size: usize,
    right_row_size: usize,
    chunk_size: usize,
    reading_left: bool,
    taken: usize,
    left_exhausted: bool,
    right_exhausted: bool,
    // Probing.
    build_is_left: bool,
    build: BuildSide,
    probe_buf: Vec<Row>,
    probe_pos: usize,
    probe_filter: Option<JoinFilter>,
    current_probe: Option<Row>,
    matches: Vec<usize>,
    match_pos: usize,
    // Partitioning.
    writers: Vec<PartitionWriter>,
    num_partitions: usize,
    flush_bytes: usize,
    init_pos: usize,
    held: Option<Row>,
    input_done: bool,
    finishing: usize,
    spill_filter: Option<JoinFilter>,
    parts_left: Vec<Option<crate::disk_run::Run>>,
    parts_right: Vec<Option<crate::disk_run::Run>>,
    part_idx: usize,
    part_phase: PartPhase,
    build_run: Option<crate::disk_run::Run>,
    probe_run: Option<crate::disk_run::Run>,
    reader: Option<crate::runs::RunReader>,
}

/// The output row of a match: left columns then right columns.
fn join_output(build_row: &Row, probe_row: &Row, build_is_left: bool) -> (r: Row)
    ensures
        r@ == if build_is_left { build_row@ + probe_row@ } else { probe_row@ + build_row@ },
{
    if build_is_left {
        combine_rows(build_row, probe_row)
    } else {
        combine_rows(probe_row, build_row)
    }
}

impl HashJoinOp {
    pub closed spec fn build_types(&self) -> Seq<DataType> {
        if self.build_is_left { self.left_types@ } else { self.right_types@ }
    }

    pub closed spec fn probe_types(&self) -> Seq<DataType> {
        if self.build_is_left { self.right_types@ } else { self.left_types@ }
    }

    pub closed spec fn build_key(&self) -> usize {
        if self.build_is_left { self.left_col } else { self.right_col }
    }

    pub closed spec fn probe_key(&self) -> usize {
        if self.build_is_left { self.right_col } else { self.left_col }
    }

    pub closed spec fn inner_wf(&self, bs: nat) -> bool {
        &&& self.bufs_wf()
        &&& self.probe_wf()
        &&& self.part_wf(bs)
    }

    pub closed spec fn bufs_wf(&self) -> bool {
        &&& self.out_types@ == self.left_types@ + self.right_types@
        &&& self.left_col < self.left_types@.len()
        &&& self.right_col < self.right_types@.len()
        &&& self.chunk_size >= 1
        &&& all_conform(rows_view(self.left_buf@), self.left_types@)
        &&& all_conform(rows_view(self.right_buf@), self.right_types@)
        &&& (self.phase == JoinPhase::Read ==> self.taken < self.chunk_size)
    }

    pub closed spec fn probe_wf(&self) -> bool {
        &&& self.build.wf(self.build_types())
        &&& self.probe_pos <= self.probe_buf@.len()
        &&& forall|i: int| self.probe_pos <= i < self.probe_buf@.len() ==> conforms(#[trigger] rows_view(self.probe_buf@)[i], self.probe_types())
        &&& (self.probe_filter matches Some(f) ==> f.wf())
        &&& (self.current_probe matches Some(p) ==> conforms(p@, self.probe_types()))
        &&& (self.match_pos < self.matches@.len() ==> self.current_probe is Some)
        &&& forall|i: int| 0 <= i < self.matches@.len() ==> #[trigger] self.matches@[i] < self.build.len_spec()
        &&& forall|i: int| self.match_pos <= i < self.matches@.len() ==> (self.current_probe matches Some(p)
            && crate::data::value_eq(self.build.row_at(#[trigger] self.matches@[i] as int)[self.build_key() as int],
            p@[self.probe_key() as int]))
    }

    pub closed spec fn part_wf(&self, bs: nat) -> bool {
        &&& bs >= 2
        &&& (self.spill_filter matches Some(f) ==> f.wf())
        &&& self.writers@.len() == self.num_partitions
        &&& forall|i: int| 0 <= i < self.writers@.len() ==> (#[trigger] self.writers@[i]).wf(bs)
        &&& self.num_partitions >= 1
        &&& (self.held matches Some(h) ==> conforms(h@, if self.phase == JoinPhase::PartitionLeft { self.left_types@ } else { self.right_types@ }))
        &&& (self.part_phase != PartPhase::Next ==> self.part_idx < self.parts_left@.len())
        &&& (self.reader matches Some(rd) ==> rd.wf(bs) && rd.out_types() == if self.part_phase == PartPhase::Building { self.build_types() } else { self.probe_types() })
        &&& (self.part_phase != PartPhase::Next ==> self.reader is Some)
        &&& (self.part_phase == PartPhase::Next ==> self.reader is None)
        &&& (self.phase != JoinPhase::Partitions ==> self.part_phase == PartPhase::Next)
    }

    /// A hash join of the left column `left_col` with the right column
    /// `right_col`; `memory_budget` bounds the rows read into memory, and
    /// `slot`, if any, is where the filter of the join keys is published.
    pub fn new(left: Operator, right: Operator, left_col: usize, right_col: usize, memory_budget: usize, slot: Option<usize>) -> (r: Operator)
        requires
            left.wf_all(),
            right.wf_all(),
            left_col < left.types().len(),
            right_col < right.types().len(),
        ensures
            r.wf_all(),
            r.types() == left.types() + right.types(),
            forall|row: Seq<Value>| #[trigger] r.admits(row) == keys_equal(row, left_col as int, left.types().len() + right_col),
    {
        let lt = left.types_exec();
        let rt = right.types_exec();
        let out_types = concat_types_exec(&lt, &rt);
        let left_row_size = estimate_row_size(&lt);
        let right_row_size = estimate_row_size(&rt);
        let avg = (left_row_size / 2 + right_row_size / 2) as usize;
        let avg = if avg == 0 { 1 } else { avg };
        let denom = if avg > usize::MAX / 8 { usize::MAX } else { avg * 8 };
        let cs = memory_budget / denom;
        let chunk_size = if cs < 256 { 256 } else if cs > 4096 { 4096 } else { cs };
        let h = HashJoinOp {
            out: Ghost(Seq::empty()),
            left: Box::new(left),
            right: Box::new(right),
            left_types: lt,
            right_types: rt,
            out_types,
            left_col,
            right_col,
            budget: memory_budget,
            slot,
            phase: JoinPhase::Read,
            left_buf: Vec::new(),
            right_buf: Vec::new(),
            total_size: 0,
            left_row_size,
            right_row_size,
            chunk_size,
            reading_left: true,
            taken: 0,
            left_exhausted: false,
            right_exhausted: false,
            build_is_left: true,
            build: BuildSide::new(),
            probe_buf: Vec::new(),
            probe_pos: 0,
            probe_filter: None,
            current_probe: None,
            matches: Vec::new(),
            match_pos: 0,
            writers: Vec::new(),
            num_partitions: 1,
            flush_bytes: 0,
            init_pos: 0,
            held: None,
            input_done: false,
            finishing: 0,
            spill_filter: None,
            parts_left: Vec::new(),
            parts_right: Vec::new(),
            part_idx: 0,
            part_phase: PartPhase::Next,
            build_run: None,
            probe_run: None,
            reader: None,
        };
        let mut h = h;
        h.writers.push(PartitionWriter::new());
        proof {
            assert(rows_view(h.left_buf@) =~= Seq::<Seq<Value>>::empty());
            assert(rows_view(h.right_buf@) =~= Seq::<Seq<Value>>::empty());
            assert(h.build.wf(h.build_types()));
        }
        let r = Operator::HashJoin(h);
        proof {
            assert forall|b: nat| 2 <= b implies #[trigger] r.wf(b) by {
                assert(left.wf(b));
                assert(right.wf(b));
            }
        }
        r
    }
}

/// The concatenation of two type lists.
pub fn concat_types_exec(a: &Vec<DataType>, b: &Vec<DataType>) -> (r: Vec<DataType>)
    ensures
        r@ == a@ + b@,
{
    let mut r = crate::plan::copy_types(a);
    let mut i: usize = 0;
    while i < b.len()
        invariant
            i <= b.len(),
            r@ == a@ + b@.subrange(0, i as int),
        decreases b.len() - i,
    {
        r.push(b[i]);
        assert(b@.subrange(0, i + 1) =~= b@.subrange(0, i as int).push(b@[i as int]));
        i += 1;
    }
    assert(b@.subrange(0, i as int) =~= b@);
    r
}


impl HashJoinOp {
    /// One step of the hash join.
    /// The probe side ran out and every match was handed out.
    pub closed spec fn finished(&self) -> bool {
        self.phase == JoinPhase::Finished && self.match_pos >= self.matches@.len()
    }

    /// An input is finished once it has said so; probing comes only after
    /// the build side, partitioning the right side only after the left,
    /// and the end only after both.
    pub closed spec fn inputs_ok(&self) -> bool {
        &&& (self.left_exhausted ==> self.left.finished())
        &&& (self.right_exhausted ==> self.right.finished())
        &&& (self.phase == JoinPhase::Probe ==> if self.build_is_left { self.left.finished() } else { self.right.finished() })
        &&& (self.phase == JoinPhase::PartitionLeft && self.input_done ==> self.left.finished())
        &&& (self.phase == JoinPhase::PartitionRight ==> self.left.finished())
        &&& (self.phase == JoinPhase::PartitionRight && self.input_done ==> self.right.finished())
        &&& (self.phase == JoinPhase::Partitions || self.phase == JoinPhase::Finished ==> self.left.finished()
            && self.right.finished())
    }

    /// The output row of a build row and a probe row: the left input's
    /// columns first.
    pub closed spec fn joined(&self, b: Seq<Value>, p: Seq<Value>) -> Seq<Value> {
        if self.build_is_left { b + p } else { p + b }
    }

    /// The rows still to come from the current probe row: it joined with
    /// each of its remaining matches, in order.
    pub closed spec fn pending_output(&self) -> Seq<Seq<Value>> {
        match self.current_probe {
            Some(p) => if self.match_pos <= self.matches@.len() {
                Seq::new((self.matches@.len() - self.match_pos) as nat, |k: int| self.joined(
                    self.build.row_at(self.matches@[self.match_pos + k] as int), p@))
            } else {
                Seq::empty()
            },
            None => Seq::empty(),
        }
    }

    fn step(&mut self, pool: &mut BufferPool, slots: &mut Vec<Option<JoinFilter>>) -> (r: Step)
        requires
            old(self).inputs_ok(),
            old(self).left.wf(old(pool).spec_block_size() as nat),
            old(self).right.wf(old(pool).spec_block_size() as nat),
            old(self).left_types@ == old(self).left.types(),
            old(self).right_types@ == old(self).right.types(),
            old(self).inner_wf(old(pool).spec_block_size() as nat),
            old(pool).wf(),
            slots_wf(old(slots)@),
        ensures
            final(self).inputs_ok(),
            final(self).out == old(self).out,
            final(self).left.wf(old(pool).spec_block_size() as nat),
            final(self).right.wf(old(pool).spec_block_size() as nat),
            final(self).left_types == old(self).left_types,
            final(self).right_types == old(self).right_types,
            final(self).left_types@ == final(self).left.types(),
            final(self).right_types@ == final(self).right.types(),
            final(self).out_types == old(self).out_types,
            final(self).left_col == old(self).left_col,
            final(self).right_col == old(self).right_col,
            final(self).inner_wf(old(pool).spec_block_size() as nat),
            final(pool).wf(),
            final(pool).spec_block_size() == old(pool).spec_block_size(),
            final(pool).spec_num_frames() == old(pool).spec_num_frames(),
            slots_wf(final(slots)@),
            final(slots)@.len() == old(slots)@.len(),
            r matches Step::Row(row) ==> conforms(row@, old(self).out_types@),
            final(self).left_col == old(self).left_col,
            final(self).right_col == old(self).right_col,
            old(self).finished() ==> r is Done && *final(self) == *old(self),
            r is Done ==> final(self).finished(),
            r matches Step::Row(row) ==> keys_equal(row@, old(self).left_col as int, old(self).left_types@.len() + old(self).right_col),
            old(self).pending_output().len() > 0 ==> (r matches Step::Row(row) && row@ == old(self).pending_output()[0]
                && final(self).pending_output() == old(self).pending_output().drop_first()),
        decreases *old(self), 1int,
    {
        let ghost bs = pool.spec_block_size() as nat;
        // A pending match is emitted first.
        if self.match_pos < self.matches.len() {
            let bi = self.matches[self.match_pos];
            let b = self.build.row_copy(bi);
            proof { self.build.lemma_row_conforms(bi as int, self.build_types()); }
            let out = match &self.current_probe {
                Some(p) => {
                    let o = join_output(&b, p, self.build_is_left);
                    proof {
                        assert(crate::data::value_eq(b@[self.build_key() as int], p@[self.probe_key() as int]));
                        crate::data::lemma_value_eq_symmetric(b@[self.build_key() as int], p@[self.probe_key() as int]);
                        if self.build_is_left {
                            lemma_combine_conforms(b@, p@, self.left_types@, self.right_types@);
                            assert(o@[self.left_col as int] == b@[self.left_col as int]);
                            assert(o@[self.left_types@.len() + self.right_col] == p@[self.right_col as int]);
                        } else {
                            lemma_combine_conforms(p@, b@, self.left_types@, self.right_types@);
                            assert(o@[self.left_col as int] == p@[self.left_col as int]);
                            assert(o@[self.left_types@.len() + self.right_col] == b@[self.right_col as int]);
                        }
                    }
                    o
                },
                None => { return Step::Pending; },
            };
            self.match_pos = self.match_pos + 1;
            assert(self.pending_output() =~= old(self).pending_output().drop_first());
            return Step::Row(out);
        }
        match self.phase {
            JoinPhase::Read => self.read_step(pool, slots),
            JoinPhase::Probe => {
                let probe = if self.probe_pos < self.probe_buf.len() {
                    let mut row = Row { values: Vec::new() };
                    let ghost pv = rows_view(self.probe_buf@);
                    self.probe_buf.set_and_swap(self.probe_pos, &mut row);
                    assert(row@ == pv[self.probe_pos as int]);
                    self.probe_pos = self.probe_pos + 1;
                    assert forall|i: int| self.probe_pos <= i < self.probe_buf@.len() implies conforms(#[trigger] rows_view(self.probe_buf@)[i], self.probe_types()) by {
                        assert(rows_view(self.probe_buf@)[i] == pv[i]);
                    }
                    row
                } else {
                    let st = if self.build_is_left { self.right.step(pool, slots) } else { self.left.step(pool, slots) };
                    match st {
                        Step::Row(row) => row,
                        Step::Done => {
                            self.phase = JoinPhase::Finished;
                            return Step::Done;
                        },
                        other => return other,
                    }
                };
                self.probe_with(probe, Ghost(bs));
                Step::Pending
            },
            JoinPhase::PartitionLeft | JoinPhase::PartitionRight => self.partition_step(pool, slots),
            JoinPhase::Partitions => self.partitions_step(pool),
            JoinPhase::Finished => Step::Done,
        }
    }

    /// Looks up a probe row's matches; they are emitted by the next steps.
    fn probe_with(&mut self, probe: Row, Ghost(bs): Ghost<nat>)
        requires
            old(self).inputs_ok(),
            old(self).inner_wf(bs),
            conforms(probe@, old(self).probe_types()),
        ensures
            final(self).inputs_ok(),
            final(self).out == old(self).out,
            final(self).inner_wf(bs),
            final(self).left == old(self).left,
            final(self).right == old(self).right,
            final(self).left_types == old(self).left_types,
            final(self).right_types == old(self).right_types,
            final(self).out_types == old(self).out_types,
            final(self).left_col == old(self).left_col,
            final(self).right_col == old(self).right_col,
            final(self).phase == old(self).phase,
            final(self).current_probe matches Some(p) && p@ == probe@,
            final(self).match_pos == 0,
            final(self).build == old(self).build,
            final(self).build_is_left == old(self).build_is_left,
            ({
                let key = if old(self).build_is_left { old(self).right_col } else { old(self).left_col };
                let h = spec_hash_value(probe@[key as int]);
                final(self).matches@ == if old(self).probe_filter matches Some(f) && !f.admits(h) {
                    Seq::<usize>::empty()
                } else {
                    old(self).build.hits_below(h, old(self).build_key() as int, probe@[key as int], old(self).build.len_spec())
                }
            }),
    {
        let key = if self.build_is_left { self.right_col } else { self.left_col };
        let bkey = if self.build_is_left { self.left_col } else { self.right_col };
        let h = hash_data(&probe.values[key]);
        let admitted = match &self.probe_filter {
            Some(f) => f.might_contain_hash(h),
            None => true,
        };
        if !admitted {
            self.matches = Vec::new();
            assert(self.matches@ =~= Seq::<usize>::empty());
            self.match_pos = 0;
            self.current_probe = Some(probe);
            return;
        }
        let ms = self.build.find_matches(h, bkey, &probe.values[key], Ghost(self.build_types()));
        self.matches = ms;
        self.match_pos = 0;
        self.current_probe = Some(probe);
    }
}


/// The bit pattern sizes of the join filters.
pub const JOIN_FILTER_BITS: usize = 8388608;
pub const PROBE_FILTER_BITS: usize = 2097152;

fn join_filter_of(bits: usize) -> (r: JoinFilter)
    requires
        bits == JOIN_FILTER_BITS || bits == PROBE_FILTER_BITS,
    ensures
        r.wf(),
{
    assert(8388608usize & (8388608usize - 1) as usize == 0) by (bit_vector);
    assert(2097152usize & (2097152usize - 1) as usize == 0) by (bit_vector);
    JoinFilter::new(bits)
}

impl PartitionWriter {
    /// The run written so far (block IDs and rows); `None` when it holds no rows.
    fn run_of(&self) -> (r: Option<crate::disk_run::Run>)
        ensures
            r is None <==> self.total_rows == 0,
            r matches Some(run) ==> run.block_ids@ == self.block_ids@ && run.num_rows == self.total_rows,
    {
        if self.total_rows == 0 {
            None
        } else {
            Some(crate::disk_run::Run { block_ids: crate::runs::copy_ids(&self.block_ids), num_rows: self.total_rows })
        }
    }
}

fn new_writers(n: usize) -> (r: Vec<PartitionWriter>)
    ensures
        r@.len() == n,
        forall|i: int, bs: nat| 0 <= i < n && bs >= 2 ==> #[trigger] r@[i].wf(bs),
{
    let mut v: Vec<PartitionWriter> = Vec::with_capacity(n);
    let mut i: usize = 0;
    while i < n
        invariant
            i <= n,
            v@.len() == i,
            forall|k: int, bs: nat| 0 <= k < i && bs >= 2 ==> #[trigger] v@[k].wf(bs),
        decreases n - i,
    {
        v.push(PartitionWriter::new());
        i += 1;
    }
    v
}

impl HashJoinOp {
    /// Reads the next row of the side being read.
    fn read_step(&mut self, pool: &mut BufferPool, slots: &mut Vec<Option<JoinFilter>>) -> (r: Step)
        requires
            old(self).inputs_ok(),
            old(self).left.wf(old(pool).spec_block_size() as nat),
            old(self).right.wf(old(pool).spec_block_size() as nat),
            old(self).left_types@ == old(self).left.types(),
            old(self).right_types@ == old(self).right.types(),
            old(self).inner_wf(old(pool).spec_block_size() as nat),
            old(self).phase == JoinPhase::Read,
            old(self).match_pos >= old(self).matches@.len(),
            old(pool).wf(),
            slots_wf(old(slots)@),
        ensures
            final(self).inputs_ok(),
            final(self).out == old(self).out,
            final(self).left.wf(old(pool).spec_block_size() as nat),
            final(self).right.wf(old(pool).spec_block_size() as nat),
            final(self).left_types == old(self).left_types,
            final(self).right_types == old(self).right_types,
            final(self).left_types@ == final(self).left.types(),
            final(self).right_types@ == final(self).right.types(),
            final(self).out_types == old(self).out_types,
            final(self).left_col == old(self).left_col,
            final(self).right_col == old(self).right_col,
            final(self).inner_wf(old(pool).spec_block_size() as nat),
            final(pool).wf(),
            final(pool).spec_block_size() == old(pool).spec_block_size(),
            final(pool).spec_num_frames() == old(pool).spec_num_frames(),
            slots_wf(final(slots)@),
            final(slots)@.len() == old(slots)@.len(),
            !(r is Row),
            !(r is Done),
            (if old(self).reading_left { old(self).left.finished() } else { old(self).right.finished() }) ==> r is Pending
                && final(self).phase != JoinPhase::Read,
        decreases *old(self), 0int,
    {
        let ghost bs = pool.spec_block_size() as nat;
        if self.reading_left {
            match self.left.step(pool, slots) {
                Step::Row(row) => {
                    let ghost before = self.left_buf@;
                    self.left_buf.push(row);
                    assert(rows_view(self.left_buf@) =~= rows_view(before).push(row@));
                    self.total_size = self.total_size.saturating_add(self.left_row_size);
                    self.taken = self.taken + 1;
                    if self.taken >= self.chunk_size {
                        self.taken = 0;
                        if self.total_size > self.budget {
                            self.finish_read(true, slots, Ghost(bs));
                        } else {
                            self.reading_left = false;
                        }
                    }
                    Step::Pending
                },
                Step::Done => {
                    self.left_exhausted = true;
                    let exceeded = self.total_size > self.budget;
                    self.finish_read(exceeded, slots, Ghost(bs));
                    Step::Pending
                },
                Step::Blocked => Step::Blocked,
                Step::Pending => Step::Pending,
                Step::Failed(e) => Step::Failed(e),
            }
        } else {
            match self.right.step(pool, slots) {
                Step::Row(row) => {
                    let ghost before = self.right_buf@;
                    self.right_buf.push(row);
                    assert(rows_view(self.right_buf@) =~= rows_view(before).push(row@));
                    self.total_size = self.total_size.saturating_add(self.right_row_size);
                    self.taken = self.taken + 1;
                    if self.taken >= self.chunk_size {
                        self.taken = 0;
                        if self.total_size > self.budget {
                            self.finish_read(true, slots, Ghost(bs));
                        } else {
                            self.reading_left = true;
                        }
                    }
                    Step::Pending
                },
                Step::Done => {
                    self.right_exhausted = true;
                    let exceeded = self.total_size > self.budget;
                    self.finish_read(exceeded, slots, Ghost(bs));
                    Step::Pending
                },
                Step::Blocked => Step::Blocked,
                Step::Pending => Step::Pending,
                Step::Failed(e) => Step::Failed(e),
            }
        }
    }

    /// After reading: hash the smaller side in memory, or partition both.
    fn finish_read(&mut self, exceeded: bool, slots: &mut Vec<Option<JoinFilter>>, Ghost(bs): Ghost<nat>)
        requires
            old(self).inputs_ok(),
            !exceeded ==> old(self).left_exhausted || old(self).right_exhausted,
            old(self).inner_wf(bs),
            old(self).match_pos >= old(self).matches@.len(),
            slots_wf(old(slots)@),
            bs >= 2,
        ensures
            final(self).inputs_ok(),
            final(self).out == old(self).out,
            final(self).inner_wf(bs),
            final(self).left == old(self).left,
            final(self).right == old(self).right,
            final(self).left_types == old(self).left_types,
            final(self).right_types == old(self).right_types,
            final(self).out_types == old(self).out_types,
            final(self).left_col == old(self).left_col,
            final(self).right_col == old(self).right_col,
            slots_wf(final(slots)@),
            final(slots)@.len() == old(slots)@.len(),
            !exceeded ==> final(self).phase == JoinPhase::Probe && final(self).probe_pos == 0
                && final(self).matches@.len() == 0 && final(self).current_probe is None,
            exceeded ==> final(self).phase == JoinPhase::PartitionLeft && final(self).input_done == false
                && final(self).init_pos == 0 && final(self).finishing == 0,
            !exceeded ==> {
                let b = final(self).build;
                &&& forall|k: int| 0 <= k < b.len_spec() ==> #[trigger] b.hash_at(k) == spec_hash_value(
                    b.row_at(k)[final(self).build_key() as int])
                &&& final(self).probe_filter matches Some(f) && forall|k: int| 0 <= k < b.len_spec()
                    ==> f.admits(#[trigger] b.hash_at(k))
                &&& old(self).slot matches Some(s) ==> (s < old(slots)@.len() ==> (final(slots)@[s as int] matches Some(f)
                    && forall|k: int| 0 <= k < b.len_spec() ==> f.admits(#[trigger] b.hash_at(k))))
            },
    {
        if !exceeded {
            let build_is_left = if self.left_exhausted && self.right_exhausted {
                self.left_buf.len() <= self.right_buf.len()
            } else {
                self.left_exhausted
            };
            let mut build_buf: Vec<Row> = Vec::new();
            let mut probe_buf: Vec<Row> = Vec::new();
            if build_is_left {
                std::mem::swap(&mut build_buf, &mut self.left_buf);
                std::mem::swap(&mut probe_buf, &mut self.right_buf);
            } else {
                std::mem::swap(&mut build_buf, &mut self.right_buf);
                std::mem::swap(&mut probe_buf, &mut self.left_buf);
            }
            let ghost bt = if build_is_left { self.left_types@ } else { self.right_types@ };
            let bkey = if build_is_left { self.left_col } else { self.right_col };
            let mut build = BuildSide::new();
            let mut join_filter = join_filter_of(JOIN_FILTER_BITS);
            let mut skip = join_filter_of(PROBE_FILTER_BITS);
            let mut i: usize = 0;
            while i < build_buf.len()
                invariant
                    i <= build_buf.len(),
                    all_conform(rows_view(build_buf@), bt),
                    bkey < bt.len(),
                    build.wf(bt),
                    join_filter.wf(),
                    skip.wf(),
                    build.len_spec() == i,
                    forall|k: int| 0 <= k < i ==> #[trigger] build.hash_at(k) == spec_hash_value(build.row_at(k)[bkey as int]),
                    forall|k: int| 0 <= k < i ==> join_filter.admits(#[trigger] build.hash_at(k)) && skip.admits(build.hash_at(k)),
                decreases build_buf.len() - i,
            {
                assert(conforms(rows_view(build_buf@)[i as int], bt));
                let row = build_buf[i].copy();
                let h = hash_data(&row.values[bkey]);
                let ghost rv = row@;
                let ghost b0 = build;
                let ghost jf0 = join_filter;
                let ghost sk0 = skip;
                join_filter.insert_hash(h);
                skip.insert_hash(h);
                build.insert(h, row, Ghost(bt));
                proof {
                    assert forall|k: int| 0 <= k < i + 1 implies #[trigger] build.hash_at(k) == spec_hash_value(build.row_at(k)[bkey as int]) by {
                        if k < i {
                            assert(build.hash_at(k) == b0.hash_at(k));
                            assert(build.row_at(k) == b0.row_at(k));
                        }
                    }
                    assert forall|k: int| 0 <= k < i + 1 implies join_filter.admits(#[trigger] build.hash_at(k)) && skip.admits(build.hash_at(k)) by {
                        if k < i {
                            assert(build.hash_at(k) == b0.hash_at(k));
                            assert(jf0.admits(b0.hash_at(k)));
                            assert(sk0.admits(b0.hash_at(k)));
                        }
                    }
                }
                i += 1;
            }
            match self.slot {
                Some(slot) => {
                    if slot < slots.len() {
                        slots.set(slot, Some(join_filter));
                    }
                },
                None => {},
            }
            self.build_is_left = build_is_left;
            self.build = build;
            self.probe_buf = probe_buf;
            self.probe_pos = 0;
            self.probe_filter = Some(skip);
            self.current_probe = None;
            self.matches = Vec::new();
            self.match_pos = 0;
            self.left_buf = Vec::new();
            self.right_buf = Vec::new();
            self.phase = JoinPhase::Probe;
            proof {
                assert(rows_view(self.left_buf@) =~= Seq::<Seq<Value>>::empty());
                assert(rows_view(self.right_buf@) =~= Seq::<Seq<Value>>::empty());
            }
        } else {
            let p: usize = if self.budget <= 4194304 { 128 } else { 64 };
            let q = self.budget / (p + 4);
            self.flush_bytes = if q < 65536 { 65536 } else if q > 1048576 { 1048576 } else { q };
            self.writers = new_writers(p);
            self.num_partitions = p;
            self.spill_filter = match self.slot {
                Some(_) => Some(join_filter_of(JOIN_FILTER_BITS)),
                None => None,
            };
            self.init_pos = 0;
            self.held = None;
            self.input_done = false;
            self.finishing = 0;
            self.phase = JoinPhase::PartitionLeft;
        }
        self.held = None;
        self.reader = None;
        self.part_phase = PartPhase::Next;
    }
}


impl HashJoinOp {
    /// Hashes the next row of the side being partitioned into its partition,
    /// or finishes the partitions once the side is exhausted.
    fn partition_step(&mut self, pool: &mut BufferPool, slots: &mut Vec<Option<JoinFilter>>) -> (r: Step)
        requires
            old(self).inputs_ok(),
            old(self).left.wf(old(pool).spec_block_size() as nat),
            old(self).right.wf(old(pool).spec_block_size() as nat),
            old(self).left_types@ == old(self).left.types(),
            old(self).right_types@ == old(self).right.types(),
            old(self).inner_wf(old(pool).spec_block_size() as nat),
            old(self).phase == JoinPhase::PartitionLeft || old(self).phase == JoinPhase::PartitionRight,
            old(pool).wf(),
            slots_wf(old(slots)@),
        ensures
            final(self).inputs_ok(),
            final(self).out == old(self).out,
            final(self).left.wf(old(pool).spec_block_size() as nat),
            final(self).right.wf(old(pool).spec_block_size() as nat),
            final(self).left_types == old(self).left_types,
            final(self).right_types == old(self).right_types,
            final(self).left_types@ == final(self).left.types(),
            final(self).right_types@ == final(self).right.types(),
            final(self).out_types == old(self).out_types,
            final(self).left_col == old(self).left_col,
            final(self).right_col == old(self).right_col,
            final(self).inner_wf(old(pool).spec_block_size() as nat),
            final(pool).wf(),
            final(pool).spec_block_size() == old(pool).spec_block_size(),
            final(pool).spec_num_frames() == old(pool).spec_num_frames(),
            slots_wf(final(slots)@),
            final(slots)@.len() == old(slots)@.len(),
            !(r is Row),
            !(r is Done),
            old(self).input_done && old(self).finishing >= old(self).writers@.len() ==> r is Pending
                && final(self).phase != old(self).phase,
        decreases *old(self), 0int,
    {
        let ghost bs = pool.spec_block_size() as nat;
        if self.input_done {
            return self.finish_partitions(pool, slots);
        }
        let left_side = self.phase == JoinPhase::PartitionLeft;
        let row = match self.held.take() {
            Some(h) => h,
            None => {
                if left_side && self.init_pos < self.left_buf.len() {
                    assert(conforms(rows_view(self.left_buf@)[self.init_pos as int], self.left_types@));
                    let r = self.left_buf[self.init_pos].copy();
                    self.init_pos = self.init_pos + 1;
                    r
                } else if !left_side && self.init_pos < self.right_buf.len() {
                    assert(conforms(rows_view(self.right_buf@)[self.init_pos as int], self.right_types@));
                    let r = self.right_buf[self.init_pos].copy();
                    self.init_pos = self.init_pos + 1;
                    r
                } else {
                    let st = if left_side { self.left.step(pool, slots) } else { self.right.step(pool, slots) };
                    match st {
                        Step::Row(r) => r,
                        Step::Done => {
                            self.input_done = true;
                            self.finishing = 0;
                            return Step::Pending;
                        },
                        Step::Blocked => { return Step::Blocked; },
                        Step::Pending => { return Step::Pending; },
                        Step::Failed(e) => { return Step::Failed(e); },
                    }
                }
            },
        };
        self.add_partition_row(row, pool, Ghost(bs))
    }

    /// Adds a row of the side being partitioned to its partition.
    fn add_partition_row(&mut self, row: Row, pool: &mut BufferPool, Ghost(bs): Ghost<nat>) -> (r: Step)
        requires
            old(self).inputs_ok(),
            old(self).inner_wf(bs),
            bs == old(pool).spec_block_size(),
            old(self).phase == JoinPhase::PartitionLeft || old(self).phase == JoinPhase::PartitionRight,
            conforms(row@, if old(self).phase == JoinPhase::PartitionLeft { old(self).left_types@ } else { old(self).right_types@ }),
            old(pool).wf(),
        ensures
            final(self).inputs_ok(),
            final(self).out == old(self).out,
            final(self).left == old(self).left,
            final(self).right == old(self).right,
            final(self).left_types == old(self).left_types,
            final(self).right_types == old(self).right_types,
            final(self).out_types == old(self).out_types,
            final(self).left_col == old(self).left_col,
            final(self).right_col == old(self).right_col,
            final(self).inner_wf(bs),
            final(pool).wf(),
            final(pool).spec_block_size() == old(pool).spec_block_size(),
            final(pool).spec_num_frames() == old(pool).spec_num_frames(),
            r is Pending || r is Blocked || r == Step::Failed(EngineError::RowTooLarge),
            (r == Step::Failed(EngineError::RowTooLarge)) <==> crate::row::row_size(row@) > bs - 2,
            r is Blocked ==> (final(self).held matches Some(h) && h@ == row@),
            r is Pending ==> ({
                let b = (spec_hash_value(row@[(if old(self).phase == JoinPhase::PartitionLeft { old(self).left_col }
                    else { old(self).right_col }) as int]) % (old(self).writers@.len() as u64)) as int;
                &&& final(self).writers@.len() == old(self).writers@.len()
                &&& final(self).writers@[b].total_rows == if old(self).writers@[b].total_rows == usize::MAX {
                    usize::MAX
                } else {
                    (old(self).writers@[b].total_rows + 1) as usize
                }
            }),
    {
        let left_side = self.phase == JoinPhase::PartitionLeft;
        let col = if left_side { self.left_col } else { self.right_col };
        let h = hash_data(&row.values[col]);
        if left_side {
            match &mut self.spill_filter {
                Some(f) => f.insert_hash(h),
                None => {},
            }
        }
        let n = self.writers.len();
        let bucket = (h % (n as u64)) as usize;
        let mut w = PartitionWriter::new();
        self.writers.set_and_swap(bucket, &mut w);
        let res = w.add_row(&row, pool, self.flush_bytes);
        self.writers.set_and_swap(bucket, &mut w);
        match res {
            AddRow::Added => Step::Pending,
            AddRow::Blocked => {
                self.held = Some(row);
                Step::Blocked
            },
            AddRow::TooLarge => Step::Failed(EngineError::RowTooLarge),
        }
    }

    /// Closes and writes each partition, then records the partitions'
    /// runs; after the left side, publishes its join filter.
    fn finish_partitions(&mut self, pool: &mut BufferPool, slots: &mut Vec<Option<JoinFilter>>) -> (r: Step)
        requires
            old(self).inputs_ok(),
            old(self).input_done,
            old(self).inner_wf(old(pool).spec_block_size() as nat),
            old(self).phase == JoinPhase::PartitionLeft || old(self).phase == JoinPhase::PartitionRight,
            old(pool).wf(),
            slots_wf(old(slots)@),
        ensures
            final(self).inputs_ok(),
            final(self).out == old(self).out,
            final(self).left == old(self).left,
            final(self).right == old(self).right,
            final(self).left_types == old(self).left_types,
            final(self).right_types == old(self).right_types,
            final(self).out_types == old(self).out_types,
            final(self).left_col == old(self).left_col,
            final(self).right_col == old(self).right_col,
            final(self).inner_wf(old(pool).spec_block_size() as nat),
            final(pool).wf(),
            final(pool).spec_block_size() == old(pool).spec_block_size(),
            final(pool).spec_num_frames() == old(pool).spec_num_frames(),
            slots_wf(final(slots)@),
            final(slots)@.len() == old(slots)@.len(),
            r is Pending || r is Blocked,
            old(self).finishing < old(self).writers@.len() ==> final(self).phase == old(self).phase
                && final(self).writers@.len() == old(self).writers@.len() && (if r is Pending {
                    final(self).finishing == old(self).finishing + 1
                } else {
                    final(self).finishing == old(self).finishing && final(pool).request() == Some(DiskRequest::AnonStartBlock)
                }),
            old(self).finishing >= old(self).writers@.len() ==> r is Pending && final(self).phase == if old(self).phase
                == JoinPhase::PartitionLeft { JoinPhase::PartitionRight } else { JoinPhase::Partitions },
    {
        let ghost bs = pool.spec_block_size() as nat;
        let left_side = self.phase == JoinPhase::PartitionLeft;
        if self.finishing < self.writers.len() {
            let mut w = PartitionWriter::new();
            self.writers.set_and_swap(self.finishing, &mut w);
            let ok = w.finish(pool);
            self.writers.set_and_swap(self.finishing, &mut w);
            if !ok {
                return Step::Blocked;
            }
            self.finishing = self.finishing + 1;
            return Step::Pending;
        }
        let mut runs: Vec<Option<crate::disk_run::Run>> = Vec::with_capacity(self.writers.len());
        let mut i: usize = 0;
        while i < self.writers.len()
            invariant
                i <= self.writers@.len(),
                runs@.len() == i,
            decreases self.writers@.len() - i,
        {
            runs.push(self.writers[i].run_of());
            i += 1;
        }
        if left_side {
            self.parts_left = runs;
            let f = self.spill_filter.take();
            match (self.slot, f) {
                (Some(slot), Some(f)) => {
                    if slot < slots.len() {
                        slots.set(slot, Some(f));
                    }
                },
                _ => {},
            }
            self.writers = new_writers(self.num_partitions);
            self.init_pos = 0;
            self.held = None;
            self.input_done = false;
            self.finishing = 0;
            self.phase = JoinPhase::PartitionRight;
        } else {
            self.parts_right = runs;
            self.part_idx = 0;
            self.part_phase = PartPhase::Next;
            self.reader = None;
            self.held = None;
            self.phase = JoinPhase::Partitions;
        }
        Step::Pending
    }

    /// Joins the partition pairs one at a time: reads the smaller partition
    /// into a hash table, then probes it with the other.
    fn partitions_step(&mut self, pool: &mut BufferPool) -> (r: Step)
        requires
            old(self).inputs_ok(),
            old(self).inner_wf(old(pool).spec_block_size() as nat),
            old(self).phase == JoinPhase::Partitions,
            old(self).match_pos >= old(self).matches@.len(),
            old(pool).wf(),
        ensures
            final(self).inputs_ok(),
            final(self).out == old(self).out,
            final(self).left == old(self).left,
            final(self).right == old(self).right,
            final(self).left_types == old(self).left_types,
            final(self).right_types == old(self).right_types,
            final(self).out_types == old(self).out_types,
            final(self).left_col == old(self).left_col,
            final(self).right_col == old(self).right_col,
            final(self).inner_wf(old(pool).spec_block_size() as nat),
            final(pool).wf(),
            final(pool).spec_block_size() == old(pool).spec_block_size(),
            final(pool).spec_num_frames() == old(pool).spec_num_frames(),
            !(r is Row),
            r is Done ==> final(self).finished(),
            old(self).part_phase == PartPhase::Next && (old(self).part_idx >= old(self).parts_left@.len()
                || old(self).part_idx >= old(self).parts_right@.len()) ==> r is Done,
    {
        let ghost bs = pool.spec_block_size() as nat;
        match self.part_phase {
            PartPhase::Next => {
                if self.part_idx >= self.parts_left.len() || self.part_idx >= self.parts_right.len() {
                    self.phase = JoinPhase::Finished;
                    return Step::Done;
                }
                let i = self.part_idx;
                let l = match &self.parts_left[i] { Some(r) => Some(r.copy()), None => None };
                let r = match &self.parts_right[i] { Some(r) => Some(r.copy()), None => None };
                match (l, r) {
                    (Some(lr), Some(rr)) => {
                        let build_is_left = lr.num_rows <= rr.num_rows;
                        let (b, p) = if build_is_left { (lr, rr) } else { (rr, lr) };
                        self.build_is_left = build_is_left;
                        self.build = BuildSide::new();
                        self.probe_buf = Vec::new();
                        self.probe_pos = 0;
                        self.probe_filter = Some(join_filter_of(PROBE_FILTER_BITS));
                        self.current_probe = None;
                        self.matches = Vec::new();
                        self.match_pos = 0;
                        let bt = if build_is_left { crate::plan::copy_types(&self.left_types) } else { crate::plan::copy_types(&self.right_types) };
                        self.reader = Some(crate::runs::RunReader::new(b.copy(), bt));
                        self.build_run = Some(b);
                        self.probe_run = Some(p);
                        self.part_phase = PartPhase::Building;
                    },
                    (Some(x), None) => {
                        pool.free_run(&x);
                        self.part_idx = i + 1;
                    },
                    (None, Some(x)) => {
                        pool.free_run(&x);
                        self.part_idx = i + 1;
                    },
                    (None, None) => {
                        self.part_idx = i + 1;
                    },
                }
                Step::Pending
            },
            PartPhase::Building => {
                let mut rd = match self.reader.take() {
                    Some(rd) => rd,
                    None => return Step::Pending,
                };
                match rd.next_owned(pool) {
                    crate::runs::Fetch::Row(row) => {
                        let bkey = if self.build_is_left { self.left_col } else { self.right_col };
                        let h = hash_data(&row.values[bkey]);
                        match &mut self.probe_filter {
                            Some(f) => f.insert_hash(h),
                            None => {},
                        }
                        self.build.insert(h, row, Ghost(self.build_types()));
                        self.reader = Some(rd);
                        Step::Pending
                    },
                    crate::runs::Fetch::End => {
                        match self.build_run.take() {
                            Some(b) => pool.free_run(&b),
                            None => {},
                        }
                        let pt = if self.build_is_left { crate::plan::copy_types(&self.right_types) } else { crate::plan::copy_types(&self.left_types) };
                        let p = match &self.probe_run { Some(p) => p.copy(), None => crate::disk_run::Run { block_ids: Vec::new(), num_rows: 0 } };
                        self.part_phase = PartPhase::Probing;
                        self.reader = Some(crate::runs::RunReader::new(p, pt));
                        Step::Pending
                    },
                    crate::runs::Fetch::Blocked => {
                        self.reader = Some(rd);
                        Step::Blocked
                    },
                    crate::runs::Fetch::Pending => {
                        self.reader = Some(rd);
                        Step::Pending
                    },
                }
            },
            PartPhase::Probing => {
                let mut rd = match self.reader.take() {
                    Some(rd) => rd,
                    None => return Step::Pending,
                };
                match rd.next_owned(pool) {
                    crate::runs::Fetch::Row(row) => {
                        self.reader = Some(rd);
                        self.probe_with(row, Ghost(bs));
                        Step::Pending
                    },
                    crate::runs::Fetch::End => {
                        let pl = self.parts_left.len();
                        match self.probe_run.take() {
                            Some(p) => pool.free_run(&p),
                            None => {},
                        }
                        self.part_idx = self.part_idx + 1;
                        self.part_phase = PartPhase::Next;
                        Step::Pending
                    },
                    crate::runs::Fetch::Blocked => {
                        self.reader = Some(rd);
                        Step::Blocked
                    },
                    crate::runs::Fetch::Pending => {
                        self.reader = Some(rd);
                        Step::Pending
                    },
                }
            },
        }
    }
}


// ─── Sort ────────────────────────────────────────────────────────────────

#[derive(Debug, Clone, Copy, PartialEq, Eq, Structural)]
pub enum SortPhase {
    /// Reading the input while it fits the budget.
    Read,
    /// Sorting what was read and writing it to a run.
    Spill,
    /// Opening a reader on each run.
    StartMerge,
    /// Reading the first row of each run.
    Fill,
    /// Handing out the smallest row of the runs' heads.
    Merge,
    /// Handing out the rows sorted in memory.
    Output,
    Finished,
}

/// Sorts its input: in memory when it fits the budget, else by sorted
/// runs on disk merged as they are read back.
pub struct SortOp {
    /// The rows handed out so far, in order.
    out: Ghost<Seq<Seq<Value>>>,
    /// How many rows the input had handed out when the sort was made.
    start: Ghost<nat>,
    /// Some rows went to a run on disk.
    spill_used: Ghost<bool>,
    /// The rows read, as sorted in memory.
    sorted: Ghost<Seq<Seq<Value>>>,
    child: Box<Operator>,
    out_types: Vec<DataType>,
    keys: Vec<crate::sort::SortKey>,
    budget: usize,
    phase: SortPhase,
    rows: Vec<Row>,
    buffered: usize,
    overflow: Option<Row>,
    child_done: bool,
    runs: Vec<crate::disk_run::Run>,
    readers: Vec<crate::runs::RunReader>,
    heads: Vec<Option<Row>>,
    fill_idx: usize,
    refill: Option<usize>,
    out_pos: usize,
}

/// `output` is `input` rearranged so that the keys never decrease.
pub open spec fn sorted_rearrangement(keys: Seq<crate::sort::SortKey>, input: Seq<Seq<Value>>, output: Seq<Seq<Value>>) -> bool {
    &&& exists|p: Seq<usize>| crate::sort::is_rearrangement(input, output, p)
    &&& forall|a: int, b: int| 0 <= a < b < output.len() ==> crate::sort::rows_order(keys, #[trigger] output[a], #[trigger] output[b])
        != Comparison::Greater
}

/// Each key's column exists and has the key's type.
pub open spec fn keys_fit_types(keys: Seq<crate::sort::SortKey>, types: Seq<DataType>) -> bool {
    forall|i: int| 0 <= i < keys.len() ==> (#[trigger] keys[i]).col_idx < types.len() && types[keys[i].col_idx as int] == keys[i].data_type
}

proof fn lemma_fit_keys(keys: Seq<crate::sort::SortKey>, types: Seq<DataType>, rows: Seq<Seq<Value>>)
    requires
        keys_fit_types(keys, types),
        all_conform(rows, types),
    ensures
        crate::sort::rows_fit_keys(keys, rows),
{
    assert forall|r: int| 0 <= r < rows.len() implies crate::sort::row_fits_keys(keys, #[trigger] rows[r]) by {
        assert(conforms(rows[r], types));
        assert forall|i: int| 0 <= i < keys.len() implies {
            &&& (#[trigger] keys[i]).col_idx < rows[r].len()
            &&& rows[r][keys[i].col_idx as int].data_type() == keys[i].data_type
        } by {
            assert(keys[i].col_idx < types.len());
        }
    }
}

impl SortOp {
    pub closed spec fn inner_wf(&self, bs: nat) -> bool {
        &&& keys_fit_types(self.keys@, self.out_types@)
        &&& self.out_pos <= self.rows@.len()
        &&& forall|i: int| self.out_pos <= i < self.rows@.len() ==> conforms(#[trigger] rows_view(self.rows@)[i], self.out_types@)
        &&& (self.phase != SortPhase::Output ==> self.out_pos == 0)
        &&& (self.overflow matches Some(o) ==> conforms(o@, self.out_types@))
        &&& self.heads@.len() == self.readers@.len()
        &&& forall|i: int| 0 <= i < self.readers@.len() ==> (#[trigger] self.readers@[i]).wf(bs) && self.readers@[i].out_types() == self.out_types@
        &&& forall|i: int| 0 <= i < self.heads@.len() ==> (#[trigger] self.heads@[i] matches Some(h) ==> conforms(h@, self.out_types@))
        &&& (self.refill matches Some(i) ==> i < self.readers@.len())
        &&& (self.phase == SortPhase::Output ==> forall|a: int, b: int| self.out_pos <= a < b < self.rows@.len()
            ==> crate::sort::rows_order(self.keys@, #[trigger] self.rows@[a]@, #[trigger] self.rows@[b]@) != Comparison::Greater)
    }

    /// The keys it sorts by.
    pub closed spec fn spec_keys(&self) -> Seq<crate::sort::SortKey> {
        self.keys@
    }

    /// A row sorted in memory waits to be handed out.
    pub closed spec fn sorted_ready(&self) -> bool {
        self.phase == SortPhase::Output && self.out_pos < self.rows@.len()
    }

    /// Whether `x` waits to be handed out next: a row sorted in memory not
    /// yet handed out, or, while merging runs, the current row of a run.
    pub closed spec fn waits(&self, x: Seq<Value>) -> bool {
        match self.phase {
            SortPhase::Output => exists|i: int| self.out_pos <= i < self.rows@.len() && #[trigger] self.rows@[i]@ == x,
            SortPhase::Merge => self.refill is None && exists|i: int| 0 <= i < self.heads@.len()
                && (#[trigger] self.heads@[i] matches Some(h) && h@ == x),
            _ => false,
        }
    }

    /// A sort by the keys; `memory` is the budget for rows held in memory
    /// (at least 1 MiB).
    pub fn new(child: Operator, keys: Vec<crate::sort::SortKey>, memory: usize) -> (r: Operator)
        requires
            child.wf_all(),
            keys_fit_types(keys@, child.types()),
        ensures
            r.input() == Some(child),
            r.input_start() == child.out().len(),
            r.out() == Seq::<Seq<Value>>::empty(),
            r.wf_all(),
            r.types() == child.types(),
            r.sort_keys() == Some(keys@),
    {
        let out_types = child.types_exec();
        let budget = if memory < 1048576 { 1048576 } else { memory };
        let ghost co = child.out();
        let op = SortOp {
            out: Ghost(Seq::empty()),
            start: Ghost(co.len()),
            spill_used: Ghost(false),
            sorted: Ghost(Seq::empty()),
            child: Box::new(child),
            out_types,
            keys,
            budget,
            phase: SortPhase::Read,
            rows: Vec::new(),
            buffered: 0,
            overflow: None,
            child_done: false,
            runs: Vec::new(),
            readers: Vec::new(),
            heads: Vec::new(),
            fill_idx: 0,
            refill: None,
            out_pos: 0,
        };
        proof {
            assert(co.skip(co.len() as int) =~= Seq::<Seq<Value>>::empty());
            assert(rows_view(op.rows@) =~= Seq::<Seq<Value>>::empty());
        }
        let r = Operator::Sort(op);
        proof {
            assert forall|b: nat| 2 <= b implies #[trigger] r.wf(b) by {
                assert(child.wf(b));
            }
        }
        r
    }

    /// Every row was handed out.
    pub closed spec fn finished(&self) -> bool {
        self.phase == SortPhase::Finished
    }

    /// The rows read since it was made.
    pub closed spec fn input_rows(&self) -> Seq<Seq<Value>> {
        self.child.out().skip(self.start@ as int)
    }

    /// What the rows read say of `out`, the rows handed out: while every
    /// row read stays in memory, they are held in order of arrival until
    /// the input ends, then sorted, and `out` is a prefix of the sorted
    /// rows, the rest waiting; the input is finished once it has said so.
    pub closed spec fn history_ok_for(&self, out: Seq<Seq<Value>>) -> bool {
        let rs = self.input_rows();
        &&& self.start@ <= self.child.out().len()
        &&& (self.child_done ==> self.child.finished())
        &&& (self.phase == SortPhase::StartMerge || self.phase == SortPhase::Fill || self.phase == SortPhase::Merge
            || self.phase == SortPhase::Output || self.phase == SortPhase::Finished ==> self.child_done)
        &&& (self.phase == SortPhase::Spill || self.phase == SortPhase::StartMerge || self.phase == SortPhase::Fill
            || self.phase == SortPhase::Merge ==> self.spill_used@)
        &&& (!self.spill_used@ ==> self.runs@.len() == 0)
        &&& (!self.spill_used@ ==> match self.phase {
            SortPhase::Read => rows_view(self.rows@) == rs && out.len() == 0,
            SortPhase::Output => out + rows_view(self.rows@).skip(self.out_pos as int) == self.sorted@
                && sorted_rearrangement(self.keys@, rs, self.sorted@),
            SortPhase::Finished => out == self.sorted@ && sorted_rearrangement(self.keys@, rs, self.sorted@),
            _ => true,
        })
    }

    /// One step of the sort.
    fn step(&mut self, pool: &mut BufferPool, slots: &mut Vec<Option<JoinFilter>>) -> (r: Step)
        requires
            old(self).history_ok_for(old(self).out@),
            old(self).child.wf(old(pool).spec_block_size() as nat),
            old(self).out_types@ == old(self).child.types(),
            old(self).inner_wf(old(pool).spec_block_size() as nat),
            old(pool).wf(),
            slots_wf(old(slots)@),
        ensures
            final(self).history_ok_for(match r {
                Step::Row(row) => old(self).out@.push(row@),
                _ => old(self).out@,
            }),
            final(self).start == old(self).start,
            final(self).out == old(self).out,
            final(self).child.wf(old(pool).spec_block_size() as nat),
            final(self).out_types == old(self).out_types,
            final(self).out_types@ == final(self).child.types(),
            final(self).inner_wf(old(pool).spec_block_size() as nat),
            final(pool).wf(),
            final(pool).spec_block_size() == old(pool).spec_block_size(),
            final(pool).spec_num_frames() == old(pool).spec_num_frames(),
            slots_wf(final(slots)@),
            final(slots)@.len() == old(slots)@.len(),
            r matches Step::Row(row) ==> conforms(row@, old(self).out_types@),
            old(self).finished() ==> r is Done && *final(self) == *old(self),
            r is Done ==> final(self).finished(),
            r matches Step::Row(row) ==> old(self).waits(row@) && forall|x: Seq<Value>| #[trigger] old(self).waits(x)
                ==> crate::sort::rows_order(old(self).spec_keys(), row@, x) != Comparison::Greater,
            final(self).spec_keys() == old(self).spec_keys(),
            old(self).sorted_ready() ==> r is Row,
        decreases *old(self), 0int,
    {
        let ghost bs = pool.spec_block_size() as nat;
        match self.phase {
            SortPhase::Read => {
                let ghost co = self.child.out();
                let st = self.child.step(pool, slots);
                proof {
                    if st is Row {
                        lemma_skip_push(co, self.start@, st->Row_0@);
                    }
                }
                match st {
                    Step::Row(row) => {
                        let rb = estimate_row_memory_bytes(&row);
                        if self.rows.len() > 0 && (self.buffered > self.budget || rb > self.budget - self.buffered) {
                            self.overflow = Some(row);
                            self.phase = SortPhase::Spill;
                            self.spill_used = Ghost(true);
                        } else {
                            self.buffered = self.buffered.saturating_add(rb);
                            let ghost before = self.rows@;
                            self.rows.push(row);
                            assert(rows_view(self.rows@) =~= rows_view(before).push(row@));
                        }
                        Step::Pending
                    },
                    Step::Done => {
                        self.child_done = true;
                        if self.runs.len() == 0 {
                            proof { lemma_fit_keys(self.keys@, self.out_types@, rows_view(self.rows@)); }
                            let ghost before = rows_view(self.rows@);
                            crate::sort::sort_rows(&mut self.rows, &self.keys);
                            proof { lemma_rearranged_conform(before, rows_view(self.rows@), self.out_types@); }
                            self.out_pos = 0;
                            self.phase = SortPhase::Output;
                            self.sorted = Ghost(rows_view(self.rows@));
                            proof {
                                if !self.spill_used@ {
                                    assert(old(self).out@ =~= Seq::<Seq<Value>>::empty());
                                    assert(old(self).out@ + rows_view(self.rows@).skip(0) =~= rows_view(self.rows@));
                                }
                                assert forall|a: int, b: int| 0 <= a < b < self.sorted@.len() implies crate::sort::rows_order(
                                    self.keys@, #[trigger] self.sorted@[a], #[trigger] self.sorted@[b]) != Comparison::Greater by {
                                    assert(self.sorted@[a] == self.rows@[a]@);
                                    assert(self.sorted@[b] == self.rows@[b]@);
                                }
                            }
                        } else if self.rows.len() > 0 {
                            self.phase = SortPhase::Spill;
                            self.spill_used = Ghost(true);
                        } else {
                            self.phase = SortPhase::StartMerge;
                        }
                        Step::Pending
                    },
                    other => other,
                }
            },
            SortPhase::Spill => {
                proof { lemma_fit_keys(self.keys@, self.out_types@, rows_view(self.rows@)); }
                let ghost before = rows_view(self.rows@);
                crate::sort::sort_rows(&mut self.rows, &self.keys);
                proof { lemma_rearranged_conform(before, rows_view(self.rows@), self.out_types@); }
                let bsz = pool.block_size();
                if !crate::runs::check_packable(&self.rows, bsz) {
                    return Step::Failed(EngineError::RowTooLarge);
                }
                match crate::runs::spill_rows(pool, &self.rows) {
                    None => Step::Blocked,
                    Some(run) => {
                        self.runs.push(run);
                        self.rows = Vec::new();
                        self.buffered = 0;
                        match self.overflow.take() {
                            Some(o) => {
                                self.buffered = estimate_row_memory_bytes(&o);
                                self.rows.push(o);
                            },
                            None => {},
                        }
                        assert forall|i: int| 0 <= i < self.rows@.len() implies conforms(#[trigger] rows_view(self.rows@)[i], self.out_types@) by {}
                        self.phase = if !self.child_done {
                            SortPhase::Read
                        } else if self.rows.len() > 0 {
                            SortPhase::Spill
                        } else {
                            SortPhase::StartMerge
                        };
                        Step::Pending
                    },
                }
            },
            SortPhase::StartMerge => {
                let bsz = pool.block_size();
                let n = self.runs.len();
                let mb = self.budget / 4;
                let four = if bsz > usize::MAX / 4 { usize::MAX } else { bsz * 4 };
                let merge_budget = if mb > four { mb } else { four };
                let per = if n == 0 || bsz == 0 { 128 } else { merge_budget / n / bsz };
                let prefetch = if per < 8 { 8 } else if per > 128 { 128 } else { per };
                let mut readers: Vec<crate::runs::RunReader> = Vec::with_capacity(n);
                let mut heads: Vec<Option<Row>> = Vec::with_capacity(n);
                let mut i: usize = 0;
                while i < n
                    invariant
                        i <= n,
                        n == self.runs@.len(),
                        readers@.len() == i,
                        heads@.len() == i,
                        forall|k: int| 0 <= k < i ==> (#[trigger] readers@[k]).wf(bs) && readers@[k].out_types() == self.out_types@,
                        forall|k: int| 0 <= k < i ==> #[trigger] heads@[k] is None,
                    decreases n - i,
                {
                    let rd = crate::runs::RunReader::new_with_prefetch(self.runs[i].copy(), crate::plan::copy_types(&self.out_types), prefetch);
                    readers.push(rd);
                    heads.push(None);
                    i += 1;
                }
                self.readers = readers;
                self.heads = heads;
                self.fill_idx = 0;
                self.refill = None;
                self.phase = SortPhase::Fill;
                Step::Pending
            },
            SortPhase::Fill => {
                if self.fill_idx >= self.readers.len() {
                    self.phase = SortPhase::Merge;
                    return Step::Pending;
                }
                let i = self.fill_idx;
                self.advance_reader(i, pool, Ghost(bs))
            },
            SortPhase::Merge => {
                match self.refill {
                    Some(i) => {
                        self.advance_reader(i, pool, Ghost(bs))
                    },
                    None => {
                        match self.smallest_head() {
                            None => {
                                self.phase = SortPhase::Finished;
                                Step::Done
                            },
                            Some(i) => {
                                let mut h: Option<Row> = None;
                                let ghost hv = self.heads@;
                                self.heads.set_and_swap(i, &mut h);
                                assert(h == hv[i as int]);
                                self.refill = Some(i);
                                match h {
                                    Some(row) => Step::Row(row),
                                    None => Step::Pending,
                                }
                            },
                        }
                    },
                }
            },
            SortPhase::Output => self.output_step(Ghost(bs)),
            SortPhase::Finished => Step::Done,
        }
    }

    /// Hands out the next row sorted in memory, or ends.
    fn output_step(&mut self, Ghost(bs): Ghost<nat>) -> (r: Step)
        requires
            old(self).inner_wf(bs),
            old(self).phase == SortPhase::Output,
            old(self).history_ok_for(old(self).out@),
        ensures
            final(self).history_ok_for(match r {
                Step::Row(row) => old(self).out@.push(row@),
                _ => old(self).out@,
            }),
            final(self).start == old(self).start,
            final(self).out == old(self).out,
            final(self).inner_wf(bs),
            final(self).child == old(self).child,
            final(self).out_types == old(self).out_types,
            final(self).keys == old(self).keys,
            r is Row || r is Done,
            old(self).out_pos < old(self).rows@.len() ==> r is Row,
            r is Done ==> final(self).phase == SortPhase::Finished,
            r is Row ==> final(self).phase == SortPhase::Output,
            r matches Step::Row(row) ==> conforms(row@, old(self).out_types@),
            r matches Step::Row(row) ==> old(self).waits(row@) && forall|x: Seq<Value>| #[trigger] old(self).waits(x)
                ==> crate::sort::rows_order(old(self).spec_keys(), row@, x) != Comparison::Greater,
    {
        if self.out_pos < self.rows.len() {
            let mut row = Row { values: Vec::new() };
            let ghost rv = rows_view(self.rows@);
            let ghost old_rows = self.rows@;
            proof {
                assert(old_rows[self.out_pos as int]@ == rv[self.out_pos as int]);
                assert forall|x: Seq<Value>| #[trigger] old(self).waits(x) implies crate::sort::rows_order(
                    self.keys@, rv[self.out_pos as int], x) != Comparison::Greater by {
                    let i = choose|i: int| old(self).out_pos <= i < old_rows.len() && #[trigger] old_rows[i]@ == x;
                    if i == self.out_pos {
                        assert(conforms(rv[i], self.out_types@));
                        lemma_fit_keys(self.keys@, self.out_types@, seq![x]);
                        assert(crate::sort::row_fits_keys(self.keys@, seq![x][0]));
                        crate::sort::lemma_rows_order_laws(self.keys@, x, x, x);
                    } else {
                        assert(crate::sort::rows_order(self.keys@, old_rows[self.out_pos as int]@, old_rows[i]@) != Comparison::Greater);
                    }
                }
                assert(old(self).waits(rv[self.out_pos as int]));
            }
            self.rows.set_and_swap(self.out_pos, &mut row);
            assert(row@ == rv[self.out_pos as int]);
            self.out_pos = self.out_pos + 1;
            proof {
                assert forall|a: int, b: int| self.out_pos <= a < b < self.rows@.len() implies
                    crate::sort::rows_order(self.keys@, #[trigger] self.rows@[a]@, #[trigger] self.rows@[b]@) != Comparison::Greater by {
                    assert(self.rows@[a] == old_rows[a]);
                    assert(self.rows@[b] == old_rows[b]);
                }
            }
            assert forall|i: int| self.out_pos <= i < self.rows@.len() implies conforms(#[trigger] rows_view(self.rows@)[i], self.out_types@) by {
                assert(rows_view(self.rows@)[i] == rv[i]);
            }
            proof {
                if !self.spill_used@ {
                    assert(old(self).out@.push(row@) + rows_view(self.rows@).skip(self.out_pos as int) =~= old(self).out@
                        + rv.skip(old(self).out_pos as int));
                }
            }
            Step::Row(row)
        } else {
            proof {
                if !self.spill_used@ {
                    assert(rows_view(self.rows@).skip(self.out_pos as int) =~= Seq::<Seq<Value>>::empty());
                    assert(old(self).out@ + Seq::<Seq<Value>>::empty() =~= old(self).out@);
                }
            }
            self.phase = SortPhase::Finished;
            self.rows = Vec::new();
            self.out_pos = 0;
            Step::Done
        }
    }

    /// The position of the smallest head (the first of equal ones).
    fn smallest_head(&self) -> (r: Option<usize>)
        requires
            self.inner_wf_keys(),
        ensures
            match r {
                Some(i) => {
                    &&& i < self.heads@.len()
                    &&& self.heads@[i as int] is Some
                    &&& forall|j: int| 0 <= j < self.heads@.len() && (#[trigger] self.heads@[j]) is Some ==> crate::sort::rows_order(
                        self.keys@, self.heads@[i as int]->0@, self.heads@[j]->0@) != Comparison::Greater
                    &&& forall|j: int| 0 <= j < i && (#[trigger] self.heads@[j]) is Some ==> crate::sort::rows_order(
                        self.keys@, self.heads@[i as int]->0@, self.heads@[j]->0@) == Comparison::Less
                },
                None => forall|j: int| 0 <= j < self.heads@.len() ==> (#[trigger] self.heads@[j]) is None,
            },
    {
        let mut best: Option<usize> = None;
        let mut i: usize = 0;
        while i < self.heads.len()
            invariant
                i <= self.heads@.len(),
                self.inner_wf_keys(),
                best is None ==> forall|j: int| 0 <= j < i ==> (#[trigger] self.heads@[j]) is None,
                best matches Some(b) ==> {
                    &&& b < i
                    &&& self.heads@[b as int] is Some
                    &&& forall|j: int| 0 <= j < i && (#[trigger] self.heads@[j]) is Some ==> crate::sort::rows_order(
                        self.keys@, self.heads@[b as int]->0@, self.heads@[j]->0@) != Comparison::Greater
                    &&& forall|j: int| 0 <= j < b && (#[trigger] self.heads@[j]) is Some ==> crate::sort::rows_order(
                        self.keys@, self.heads@[b as int]->0@, self.heads@[j]->0@) == Comparison::Less
                },
            decreases self.heads@.len() - i,
        {
            match &self.heads[i] {
                Some(h) => {
                    proof { self.lemma_head_fits_keys(i as int); }
                    match best {
                        None => {
                            best = Some(i);
                            proof {
                                crate::sort::lemma_rows_order_laws(self.keys@, h@, h@, h@);
                            }
                        },
                        Some(b) => {
                            match &self.heads[b] {
                                Some(bh) => {
                                    proof { self.lemma_head_fits(i as int); self.lemma_head_fits(b as int); self.lemma_head_fits_keys(b as int); }
                                    let c = crate::sort::compare_rows(h, bh, &self.keys);
                                    proof {
                                        crate::sort::lemma_rows_order_laws(self.keys@, h@, bh@, h@);
                                        assert forall|j: int| 0 <= j < i + 1 && (#[trigger] self.heads@[j]) is Some implies ({
                                            let hj = self.heads@[j]->0@;
                                            &&& (c == Comparison::Less ==> crate::sort::rows_order(self.keys@, h@, hj) != Comparison::Greater)
                                            &&& (c == Comparison::Less && j < i ==> crate::sort::rows_order(self.keys@, h@, hj) == Comparison::Less)
                                            &&& (c != Comparison::Less ==> crate::sort::rows_order(self.keys@, bh@, hj) != Comparison::Greater)
                                        }) by {
                                            self.lemma_head_fits_keys(j);
                                            let hj = self.heads@[j]->0@;
                                            crate::sort::lemma_rows_order_laws(self.keys@, h@, bh@, hj);
                                            crate::sort::lemma_rows_order_laws(self.keys@, bh@, h@, hj);
                                            crate::sort::lemma_rows_order_laws(self.keys@, h@, hj, hj);
                                        }
                                    }
                                    if c == Comparison::Less {
                                        best = Some(i);
                                    }
                                },
                                None => { best = Some(i); },
                            }
                        },
                    }
                },
                None => {},
            }
            i += 1;
        }
        best
    }

    proof fn lemma_head_fits_keys(&self, i: int)
        requires
            self.inner_wf_keys(),
            0 <= i < self.heads@.len(),
            self.heads@[i] is Some,
        ensures
            crate::sort::row_fits_keys(self.keys@, self.heads@[i]->0@),
    {
        let h = self.heads@[i]->0@;
        assert(conforms(h, self.out_types@));
        assert forall|k: int| 0 <= k < self.keys@.len() implies {
            &&& (#[trigger] self.keys@[k]).col_idx < h.len()
            &&& h[self.keys@[k].col_idx as int].data_type() == self.keys@[k].data_type
        } by {
            assert(self.keys@[k].col_idx < self.out_types@.len());
        }
    }

    pub closed spec fn inner_wf_keys(&self) -> bool {
        &&& keys_fit_types(self.keys@, self.out_types@)
        &&& forall|i: int| 0 <= i < self.heads@.len() ==> (#[trigger] self.heads@[i] matches Some(h) ==> conforms(h@, self.out_types@))
    }

    proof fn lemma_head_fits(&self, i: int)
        requires
            self.inner_wf_keys(),
            0 <= i < self.heads@.len(),
            self.heads@[i] is Some,
        ensures
            forall|k: int| 0 <= k < self.keys@.len() ==> (#[trigger] self.keys@[k]).col_idx < self.heads@[i]->0@.len(),
    {
        assert(conforms(self.heads@[i]->0@, self.out_types@));
    }

    /// Reads the next row of run `i` into its head, freeing the run when it
    /// is exhausted.
    fn advance_reader(&mut self, i: usize, pool: &mut BufferPool, Ghost(bs): Ghost<nat>) -> (r: Step)
        requires
            old(self).inner_wf(bs),
            bs == old(pool).spec_block_size(),
            i < old(self).readers@.len(),
            old(self).phase == SortPhase::Fill || old(self).phase == SortPhase::Merge,
            old(self).phase == SortPhase::Fill ==> i == old(self).fill_idx,
            old(pool).wf(),
        ensures
            final(self).start == old(self).start,
            final(self).spill_used == old(self).spill_used,
            final(self).child_done == old(self).child_done,
            final(self).runs == old(self).runs,
            final(self).out == old(self).out,
            final(self).child == old(self).child,
            final(self).out_types == old(self).out_types,
            final(self).keys == old(self).keys,
            final(self).inner_wf(bs),
            final(pool).wf(),
            final(pool).spec_block_size() == old(pool).spec_block_size(),
            final(pool).spec_num_frames() == old(pool).spec_num_frames(),
            r is Pending || r is Blocked,
            final(self).phase == old(self).phase,
            old(self).readers@[i as int].buffered().len() > 0 ==> r is Pending && final(self).refill is None
                && (final(self).heads@[i as int] matches Some(h) && h@ == old(self).readers@[i as int].buffered()[0]),
    {
        let mut rd = crate::runs::RunReader::new(crate::disk_run::Run { block_ids: Vec::new(), num_rows: 0 }, Vec::new());
        self.readers.set_and_swap(i, &mut rd);
        let res = rd.next_owned(pool);
        let r = match res {
            crate::runs::Fetch::Row(row) => {
                self.heads.set(i, Some(row));
                self.finish_advance();
                Step::Pending
            },
            crate::runs::Fetch::End => {
                pool.free_run(rd.run());
                self.heads.set(i, None);
                self.finish_advance();
                Step::Pending
            },
            crate::runs::Fetch::Blocked => Step::Blocked,
            crate::runs::Fetch::Pending => Step::Pending,
        };
        self.readers.set_and_swap(i, &mut rd);
        r
    }

    /// A head was read: move on to the next run to fill, or back to merging.
    fn finish_advance(&mut self)
        ensures
            final(self).out == old(self).out,
            *final(self) == (SortOp { fill_idx: final(self).fill_idx, refill: None, ..*old(self) }),
            old(self).phase == SortPhase::Fill ==> final(self).fill_idx == old(self).fill_idx + 1 || old(self).fill_idx == usize::MAX,
            old(self).phase != SortPhase::Fill ==> final(self).fill_idx == old(self).fill_idx,
    {
        if self.phase == SortPhase::Fill {
            if self.fill_idx < usize::MAX {
                self.fill_idx = self.fill_idx + 1;
            }
        }
        self.refill = None;
    }
}


proof fn lemma_rearranged_conform(old_rows: Seq<Seq<Value>>, new_rows: Seq<Seq<Value>>, types: Seq<DataType>)
    requires
        all_conform(old_rows, types),
        exists|p: Seq<usize>| crate::sort::is_rearrangement(old_rows, new_rows, p) && crate::sort::indices_in_range(p, old_rows.len()),
    ensures
        all_conform(new_rows, types),
{
    let p = choose|p: Seq<usize>| crate::sort::is_rearrangement(old_rows, new_rows, p) && crate::sort::indices_in_range(p, old_rows.len());
    assert forall|k: int| 0 <= k < new_rows.len() implies conforms(#[trigger] new_rows[k], types) by {
        assert(new_rows[k] == old_rows[p[k] as int]);
        assert(p[k] < old_rows.len());
    }
}


// ─── Merge join ──────────────────────────────────────────────────────────

/// An equi-join of two inputs sorted by their keys: each left row is
/// paired with the group of right rows whose key equals it.
pub struct SortMergeJoinOp {
    /// The rows handed out so far, in order.
    out: Ghost<Seq<Seq<Value>>>,
    /// The rows handed out before the pending left row began its pairing.
    pend_base: Ghost<Seq<Seq<Value>>>,
    left: Box<Operator>,
    right: Box<Operator>,
    left_types: Vec<DataType>,
    right_types: Vec<DataType>,
    out_types: Vec<DataType>,
    left_col: usize,
    right_col: usize,
    key_type: DataType,
    left_row: Option<Row>,
    right_row: Option<Row>,
    need_left: bool,
    need_right: bool,
    active_key: Option<Data>,
    pending_left: Option<Row>,
    group: Vec<Row>,
    group_idx: usize,
    collecting: Option<Data>,
}

impl SortMergeJoinOp {
    pub closed spec fn inner_wf(&self) -> bool {
        &&& self.out_types@ == self.left_types@ + self.right_types@
        &&& self.left_col < self.left_types@.len()
        &&& self.right_col < self.right_types@.len()
        &&& (self.left_row matches Some(l) ==> conforms(l@, self.left_types@))
        &&& (self.pending_left matches Some(l) ==> conforms(l@, self.left_types@))
        &&& (self.right_row matches Some(r) ==> conforms(r@, self.right_types@))
        &&& all_conform(rows_view(self.group@), self.right_types@)
        &&& (self.pending_left is Some <==> self.active_key is Some)
        &&& (self.collecting is Some ==> self.active_key is None)
        &&& self.key_type == self.left_types@[self.left_col as int]
        &&& (self.active_key matches Some(k) ==> k@.data_type() == self.key_type)
        &&& (self.collecting matches Some(k) ==> !self.need_left && (self.left_row matches Some(l)
            && l@[self.left_col as int] == k@))
        &&& (self.collecting matches Some(k) ==> self.group_matches(k@))
        &&& (self.active_key matches Some(k) ==> self.group_matches(k@))
        &&& (self.pending_left matches Some(pl) ==> (self.active_key matches Some(k)
            && value_key_order(self.key_type, pl@[self.left_col as int], k@) == Comparison::Equal))
    }

    /// The right rows collected all have a key equal to `k` in the key order.
    pub closed spec fn group_matches(&self, k: Value) -> bool {
        forall|i: int| 0 <= i < self.group@.len() ==> value_key_order(self.key_type,
            (#[trigger] rows_view(self.group@)[i])[self.right_col as int], k) == Comparison::Equal
    }

    /// A merge join of the left column `left_col` with the right column
    /// `right_col`, comparing keys as values of the left key's type.
    pub fn new(left: Operator, right: Operator, left_col: usize, right_col: usize) -> (r: Operator)
        requires
            left.wf_all(),
            right.wf_all(),
            left_col < left.types().len(),
            right_col < right.types().len(),
        ensures
            r.wf_all(),
            r.types() == left.types() + right.types(),
            forall|row: Seq<Value>| #[trigger] r.admits(row) == (left.types().len() + right_col < row.len() && value_key_order(
                left.types()[left_col as int], row[left.types().len() + right_col], row[left_col as int]) == Comparison::Equal),
    {
        let lt = left.types_exec();
        let rt = right.types_exec();
        let out_types = concat_types_exec(&lt, &rt);
        let key_type = lt[left_col];
        let m = SortMergeJoinOp {
            out: Ghost(Seq::empty()),
            pend_base: Ghost(Seq::empty()),
            left: Box::new(left),
            right: Box::new(right),
            left_types: lt,
            right_types: rt,
            out_types,
            left_col,
            right_col,
            key_type,
            left_row: None,
            right_row: None,
            need_left: true,
            need_right: true,
            active_key: None,
            pending_left: None,
            group: Vec::new(),
            group_idx: 0,
            collecting: None,
        };
        assert(rows_view(m.group@) =~= Seq::<Seq<Value>>::empty());
        let r = Operator::MergeJoin(m);
        proof {
            assert forall|b: nat| 2 <= b implies #[trigger] r.wf(b) by {
                assert(left.wf(b));
                assert(right.wf(b));
            }
        }
        r
    }

    /// One of the inputs ran out with no group left to pair: nothing more
    /// comes out.
    pub closed spec fn finished(&self) -> bool {
        &&& !self.need_left
        &&& !self.need_right
        &&& self.collecting is None
        &&& self.pending_left is None
        &&& (self.left_row is None || self.right_row is None)
    }

    /// The pending left row is paired with the rows of the right group in
    /// order: the rows handed out since it began are exactly it with each
    /// of the first `group_idx` rows of the group.
    pub closed spec fn history_ok_for(&self, out: Seq<Seq<Value>>) -> bool {
        &&& self.group_idx <= self.group@.len()
        &&& (self.pending_left is None ==> self.group_idx == 0)
        &&& (self.pending_left matches Some(l) ==> out == self.pend_base@ + rows_view(self.group@).take(
            self.group_idx as int).map_values(|r: Seq<Value>| l@ + r))
    }

    /// An input with no current row and none asked for has ended.
    pub closed spec fn inputs_ok(&self) -> bool {
        &&& (!self.need_left && self.left_row is None ==> self.left.finished())
        &&& (!self.need_right && self.right_row is None ==> self.right.finished())
    }

    /// One step of the merge join.
    #[verifier::rlimit(40)]
    fn step(&mut self, pool: &mut BufferPool, slots: &mut Vec<Option<JoinFilter>>) -> (r: Step)
        requires
            old(self).history_ok_for(old(self).out@),
            old(self).inputs_ok(),
            old(self).left.wf(old(pool).spec_block_size() as nat),
            old(self).right.wf(old(pool).spec_block_size() as nat),
            old(self).left_types@ == old(self).left.types(),
            old(self).right_types@ == old(self).right.types(),
            old(self).inner_wf(),
            old(pool).wf(),
            slots_wf(old(slots)@),
        ensures
            final(self).history_ok_for(match r {
                Step::Row(row) => old(self).out@.push(row@),
                _ => old(self).out@,
            }),
            final(self).inputs_ok(),
            final(self).out == old(self).out,
            final(self).left.wf(old(pool).spec_block_size() as nat),
            final(self).right.wf(old(pool).spec_block_size() as nat),
            final(self).left_types == old(self).left_types,
            final(self).right_types == old(self).right_types,
            final(self).left_types@ == final(self).left.types(),
            final(self).right_types@ == final(self).right.types(),
            final(self).out_types == old(self).out_types,
            final(self).inner_wf(),
            final(pool).wf(),
            final(pool).spec_block_size() == old(pool).spec_block_size(),
            final(pool).spec_num_frames() == old(pool).spec_num_frames(),
            slots_wf(final(slots)@),
            final(slots)@.len() == old(slots)@.len(),
            r matches Step::Row(row) ==> conforms(row@, old(self).out_types@),
            old(self).finished() ==> r is Done && *final(self) == *old(self),
            r is Done ==> final(self).finished(),
            final(self).key_type == old(self).key_type,
            final(self).left_col == old(self).left_col,
            final(self).right_col == old(self).right_col,
            r matches Step::Row(row) ==> value_key_order(old(self).key_type, row@[old(self).left_types@.len()
                + old(self).right_col], row@[old(self).left_col as int]) == Comparison::Equal,
        decreases *old(self), 0int,
    {
        if self.need_left {
            match self.left.step(pool, slots) {
                Step::Row(row) => {
                    self.left_row = Some(row);
                    self.need_left = false;
                    return Step::Pending;
                },
                Step::Done => {
                    self.left_row = None;
                    self.need_left = false;
                    return Step::Pending;
                },
                other => return other,
            }
        }
        if self.need_right {
            match self.right.step(pool, slots) {
                Step::Row(row) => {
                    self.right_row = Some(row);
                    self.need_right = false;
                    return Step::Pending;
                },
                Step::Done => {
                    self.right_row = None;
                    self.need_right = false;
                    return Step::Pending;
                },
                other => return other,
            }
        }
        // Collecting the right rows equal to the key.
        if let Some(key) = &self.collecting {
            let same = match &self.right_row {
                Some(r) => {
                    assert(self.right_col < r@.len());
                    data_key_compare(self.key_type, &r.values[self.right_col], key) == Comparison::Equal
                },
                None => false,
            };
            if same {
                let r = self.right_row.take().unwrap();
                let ghost before = self.group@;
                let ghost k = self.collecting->0@;
                self.group.push(r);
                proof {
                    assert(rows_view(self.group@) =~= rows_view(before).push(r@));
                    assert forall|i: int| 0 <= i < self.group@.len() implies value_key_order(self.key_type,
                        (#[trigger] rows_view(self.group@)[i])[self.right_col as int], k) == Comparison::Equal by {
                        if i < before.len() {
                            assert(rows_view(self.group@)[i] == rows_view(before)[i]);
                        }
                    }
                }
                self.need_right = true;
                return Step::Pending;
            }
            let k = self.collecting.take().unwrap();
            proof {
                let l = self.left_row->0;
                assert(conforms(l@, self.left_types@));
                assert(l@[self.left_col as int].data_type() == self.key_type);
                crate::sort::lemma_value_order_laws(self.key_type, k@, k@, k@);
            }
            self.active_key = Some(k);
            self.pending_left = self.left_row.take();
            self.need_left = true;
            self.group_idx = 0;
            self.pend_base = Ghost(old(self).out@);
            proof {
                let g = rows_view(self.group@);
                assert(g.take(0).map_values(|r: Seq<Value>| self.pending_left->0@ + r) =~= Seq::<Seq<Value>>::empty());
                assert(old(self).out@ + Seq::<Seq<Value>>::empty() =~= old(self).out@);
            }
            return Step::Pending;
        }
        // Pairing the pending left row with the group.
        if let Some(l) = &self.pending_left {
            if self.group_idx < self.group.len() {
                let rr = &self.group[self.group_idx];
                assert(conforms(rows_view(self.group@)[self.group_idx as int], self.right_types@));
                let out = combine_rows(l, rr);
                proof {
                    lemma_combine_conforms(l@, rr@, self.left_types@, self.right_types@);
                    let k = self.active_key->0@;
                    let dt = self.key_type;
                    let a = rr@[self.right_col as int];
                    let c = l@[self.left_col as int];
                    assert(rows_view(self.group@)[self.group_idx as int] == rr@);
                    assert(value_key_order(dt, a, k) == Comparison::Equal);
                    if a.data_type() == dt {
                        crate::sort::lemma_value_order_laws(dt, c, k, a);
                        crate::sort::lemma_value_order_laws(dt, a, k, c);
                    }
                    assert(out@[self.left_types@.len() + self.right_col] == a);
                    assert(out@[self.left_col as int] == c);
                }
                proof {
                    let g = rows_view(self.group@);
                    let idx = self.group_idx as int;
                    assert(g.take(idx + 1).map_values(|r: Seq<Value>| l@ + r) =~= g.take(idx).map_values(
                        |r: Seq<Value>| l@ + r).push(l@ + g[idx]));
                    assert(old(self).out@.push(out@) =~= self.pend_base@ + g.take(idx + 1).map_values(|r: Seq<Value>| l@ + r));
                }
                self.group_idx = self.group_idx + 1;
                return Step::Row(out);
            }
            let same = match (&self.left_row, &self.active_key) {
                (Some(nl), Some(k)) => {
                    assert(self.left_col < nl@.len());
                    data_key_compare(self.key_type, &nl.values[self.left_col], k) == Comparison::Equal
                },
                _ => false,
            };
            if same {
                self.pending_left = self.left_row.take();
                self.need_left = true;
                self.group_idx = 0;
                self.pend_base = Ghost(old(self).out@);
                proof {
                    let g = rows_view(self.group@);
                    assert(g.take(0).map_values(|r: Seq<Value>| self.pending_left->0@ + r) =~= Seq::<Seq<Value>>::empty());
                    assert(old(self).out@ + Seq::<Seq<Value>>::empty() =~= old(self).out@);
                }
                assert(self.collecting is None);
            } else {
                self.pending_left = None;
                self.active_key = None;
                self.group = Vec::new();
                self.group_idx = 0;
                assert(rows_view(self.group@) =~= Seq::<Seq<Value>>::empty());
            }
            return Step::Pending;
        }
        let (lk, rk) = match (&self.left_row, &self.right_row) {
            (Some(l), Some(r)) => {
                assert(self.left_col < l@.len());
                assert(self.right_col < r@.len());
                (l.values[self.left_col].copy(), r.values[self.right_col].copy())
            },
            _ => return Step::Done,
        };
        match data_key_compare(self.key_type, &lk, &rk) {
            Comparison::Less => {
                self.need_left = true;
            },
            Comparison::Greater => {
                self.need_right = true;
            },
            Comparison::Equal => {
                self.group = Vec::new();
                assert(rows_view(self.group@) =~= Seq::<Seq<Value>>::empty());
                self.collecting = Some(lk);
                assert(self.collecting->0@ == self.left_row->0@[self.left_col as int]);
            },
        }
        Step::Pending
    }
}

} // verus!

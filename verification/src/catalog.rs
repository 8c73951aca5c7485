//! The catalog: tables, their columns, and the statistics the planner
//! reads about each column.
use vstd::prelude::*;
use crate::data::{Data, DataType};

verus! {

/// The smallest and largest value of a column.
#[derive(Debug)]
pub struct Range {
    pub lower_bound: Data,
    pub upper_bound: Data,
}

#[derive(Debug)]
pub struct Frequency(pub u64);

/// Distinct values over all values, as the bit pattern of an `f32`.
#[derive(Debug)]
pub struct Density(pub u32);

#[derive(Debug)]
pub struct HistogramData {
    pub frequency_points: Vec<(Range, Frequency)>,
}

#[derive(Debug)]
pub struct CardinalityData(pub u64);

/// One statistic about a column.
#[derive(Debug)]
pub enum ColumnStat {
    /// Values are in ascending order when rows are read sequentially from disk.
    IsPhysicallyOrdered,
    RangeStat(Range),
    HistogramStat(HistogramData),
    CardinalityStat(CardinalityData),
    /// Number of distinct values over the total number of values.
    DensityStat(Density),
}

#[derive(Debug)]
pub struct ColumnSpec {
    pub column_name: String,
    pub data_type: DataType,
    pub stats: Option<Vec<ColumnStat>>,
}

#[derive(Debug)]
pub struct TableSpec {
    pub name: String,
    pub file_id: String,
    pub column_specs: Vec<ColumnSpec>,
}

/// Why a catalog was refused.
#[derive(Debug)]
pub enum ContextError {
    Invalid,
}

/// All tables of the database.
#[derive(Debug)]
pub struct DbContext {
    table_specs: Vec<TableSpec>,
}

impl DbContext {
    pub closed spec fn tables(&self) -> Seq<TableSpec> {
        self.table_specs@
    }

    /// The catalog of the given tables.  Every list of tables is accepted.
    pub fn from(table_specs: Vec<TableSpec>) -> (r: Result<DbContext, ContextError>)
        ensures
            r matches Ok(c) && c.tables() == table_specs@,
    {
        Ok(DbContext { table_specs })
    }

    /// The tables, in catalog order.
    pub fn get_table_specs(&self) -> (r: &Vec<TableSpec>)
        ensures
            r@ == self.tables(),
    {
        &self.table_specs
    }
}

/// Which statistic a lookup asks for.
#[derive(Debug, Clone, Copy, PartialEq, Eq, Structural)]
pub enum StatKind {
    Cardinality,
    Density,
    Ordered,
}

/// The first statistic of the asked kind in a list (the density as its
/// bit pattern, `IsPhysicallyOrdered` as 1).
pub open spec fn first_stat(stats: Seq<ColumnStat>, kind: StatKind) -> Option<u64>
    decreases stats.len(),
{
    if stats.len() == 0 {
        None
    } else {
        match (kind, stats[0]) {
            (StatKind::Cardinality, ColumnStat::CardinalityStat(CardinalityData(c))) => Some(c),
            (StatKind::Density, ColumnStat::DensityStat(Density(d))) => Some(d as u64),
            (StatKind::Ordered, ColumnStat::IsPhysicallyOrdered) => Some(1),
            _ => first_stat(stats.drop_first(), kind),
        }
    }
}

pub open spec fn column_stat(c: ColumnSpec, kind: StatKind) -> Option<u64> {
    match c.stats {
        Some(v) => first_stat(v@, kind),
        None => None,
    }
}

/// The UTF-8 bytes of a name.
pub open spec fn name_bytes(s: String) -> Seq<u8> {
    vstd::utf8::encode_utf8(s@)
}

/// The first column, in table then column order, named `name` (as UTF-8
/// bytes) that carries the statistic.
pub open spec fn stat_in_columns(cols: Seq<ColumnSpec>, name: Seq<u8>, kind: StatKind) -> Option<u64>
    decreases cols.len(),
{
    if cols.len() == 0 {
        None
    } else if name_bytes(cols[0].column_name) == name && column_stat(cols[0], kind) is Some {
        column_stat(cols[0], kind)
    } else {
        stat_in_columns(cols.drop_first(), name, kind)
    }
}

pub open spec fn stat_in_tables(tables: Seq<TableSpec>, name: Seq<u8>, kind: StatKind) -> Option<
    u64,
>
    decreases tables.len(),
{
    if tables.len() == 0 {
        None
    } else {
        match stat_in_columns(tables[0].column_specs@, name, kind) {
            Some(v) => Some(v),
            None => stat_in_tables(tables.drop_first(), name, kind),
        }
    }
}

/// The index of the first `.` in a byte string.
pub open spec fn first_dot(s: Seq<u8>) -> Option<int> {
    if exists|i: int| 0 <= i < s.len() && s[i] == 46u8 {
        Some(choose|i: int| 0 <= i < s.len() && s[i] == 46u8 && forall|j: int| 0 <= j < i ==> s[j] != 46u8)
    } else {
        None
    }
}

/// A column name is looked up as written and then, if it carries an alias
/// (`alias.column`), by the part after the first dot.
pub open spec fn stat_lookup(tables: Seq<TableSpec>, col: Seq<u8>, kind: StatKind) -> Option<u64> {
    match stat_in_tables(tables, col, kind) {
        Some(v) => Some(v),
        None => match first_dot(col) {
            Some(d) => stat_in_tables(tables, col.subrange(d + 1, col.len() as int), kind),
            None => None,
        },
    }
}

/// `a == b` on two byte slices.
pub fn bytes_equal(a: &[u8], b: &[u8]) -> (r: bool)
    ensures
        r == (a@ == b@),
{
    if a.len() != b.len() {
        return false;
    }
    let mut i: usize = 0;
    while i < a.len()
        invariant
            i <= a.len(),
            a.len() == b.len(),
            a@.subrange(0, i as int) == b@.subrange(0, i as int),
        decreases a.len() - i,
    {
        if a[i] != b[i] {
            assert(a@[i as int] != b@[i as int]);
            return false;
        }
        assert(a@.subrange(0, i + 1) =~= a@.subrange(0, i as int).push(a@[i as int]));
        assert(b@.subrange(0, i + 1) =~= b@.subrange(0, i as int).push(b@[i as int]));
        i += 1;
    }
    assert(a@ =~= a@.subrange(0, i as int));
    assert(b@ =~= b@.subrange(0, i as int));
    true
}

/// The UTF-8 bytes of a name, as a vector.
pub fn name_to_bytes(s: &String) -> (r: Vec<u8>)
    ensures
        r@ == name_bytes(*s),
{
    let b = s.as_str().as_bytes();
    let mut r: Vec<u8> = Vec::with_capacity(b.len());
    let mut i: usize = 0;
    while i < b.len()
        invariant
            i <= b.len(),
            r@ == b@.subrange(0, i as int),
        decreases b.len() - i,
    {
        r.push(b[i]);
        i += 1;
    }
    assert(r@ =~= b@);
    r
}

/// The position of the first `.` in `s`, if any.
pub fn find_dot(s: &[u8]) -> (r: Option<usize>)
    ensures
        match r {
            Some(d) => first_dot(s@) == Some(d as int) && d < s@.len(),
            None => first_dot(s@) is None,
        },
{
    let mut i: usize = 0;
    while i < s.len()
        invariant
            i <= s.len(),
            forall|j: int| 0 <= j < i ==> s@[j] != 46u8,
        decreases s.len() - i,
    {
        if s[i] == 46u8 {
            let ghost w = choose|k: int| 0 <= k < s@.len() && s@[k] == 46u8 && forall|j: int|
                0 <= j < k ==> s@[j] != 46u8;
            assert(0 <= i < s@.len() && s@[i as int] == 46u8 && forall|j: int|
                0 <= j < i ==> s@[j] != 46u8);
            proof {
                // the first dot is unique
                if w < i {
                } else if w > i {
                    assert(s@[i as int] != 46u8);
                }
            }
            return Some(i);
        }
        i += 1;
    }
    None
}

/// The first statistic of the asked kind in a list.
fn find_stat(stats: &Vec<ColumnStat>, kind: StatKind) -> (r: Option<u64>)
    ensures
        r == first_stat(stats@, kind),
{
    let mut i: usize = 0;
    assert(stats@.subrange(0, stats@.len() as int) =~= stats@);
    while i < stats.len()
        invariant
            i <= stats.len(),
            first_stat(stats@.subrange(i as int, stats@.len() as int), kind) == first_stat(
                stats@,
                kind,
            ),
        decreases stats.len() - i,
    {
        let ghost rest = stats@.subrange(i as int, stats@.len() as int);
        assert(rest.drop_first() =~= stats@.subrange(i + 1, stats@.len() as int));
        match (kind, &stats[i]) {
            (StatKind::Cardinality, ColumnStat::CardinalityStat(CardinalityData(c))) => {
                return Some(*c);
            },
            (StatKind::Density, ColumnStat::DensityStat(Density(d))) => {
                return Some(*d as u64);
            },
            (StatKind::Ordered, ColumnStat::IsPhysicallyOrdered) => {
                return Some(1);
            },
            _ => {},
        }
        i += 1;
    }
    None
}

/// The statistic of the first column of the catalog named `name`.
fn stat_for_name(tables: &Vec<TableSpec>, name: &[u8], kind: StatKind) -> (r: Option<u64>)
    ensures
        r == stat_in_tables(tables@, name@, kind),
{
    let mut t: usize = 0;
    assert(tables@.subrange(0, tables@.len() as int) =~= tables@);
    while t < tables.len()
        invariant
            t <= tables.len(),
            stat_in_tables(tables@.subrange(t as int, tables@.len() as int), name@, kind)
                == stat_in_tables(tables@, name@, kind),
        decreases tables.len() - t,
    {
        let ghost trest = tables@.subrange(t as int, tables@.len() as int);
        assert(trest.drop_first() =~= tables@.subrange(t + 1, tables@.len() as int));
        let cols = &tables[t].column_specs;
        let mut c: usize = 0;
        assert(cols@.subrange(0, cols@.len() as int) =~= cols@);
        while c < cols.len()
            invariant
                c <= cols.len(),
                t < tables.len(),
                cols == tables@[t as int].column_specs,
                trest == tables@.subrange(t as int, tables@.len() as int),
                stat_in_tables(trest, name@, kind) == stat_in_tables(tables@, name@, kind),
                stat_in_columns(cols@.subrange(c as int, cols@.len() as int), name@, kind)
                    == stat_in_columns(cols@, name@, kind),
            decreases cols.len() - c,
        {
            let ghost crest = cols@.subrange(c as int, cols@.len() as int);
            assert(crest.drop_first() =~= cols@.subrange(c + 1, cols@.len() as int));
            let cname = cols[c].column_name.as_str().as_bytes();
            if bytes_equal(cname, name) {
                let s = match &cols[c].stats {
                    Some(v) => find_stat(v, kind),
                    None => None,
                };
                if s.is_some() {
                    assert(crest[0] == cols@[c as int]);
                    assert(trest[0] == tables@[t as int]);
                    return s;
                }
            }
            c += 1;
        }
        t += 1;
    }
    None
}

/// The statistic of a (possibly aliased) column name.
pub fn lookup_stat(col_name: &String, ctx: &DbContext, kind: StatKind) -> (r: Option<u64>)
    ensures
        r == stat_lookup(ctx.tables(), name_bytes(*col_name), kind),
{
    let bytes = col_name.as_str().as_bytes();
    let tables = ctx.get_table_specs();
    let first = stat_for_name(tables, bytes, kind);
    if first.is_some() {
        return first;
    }
    match find_dot(bytes) {
        Some(d) => {
            let n = bytes.len();
            assert(d < n);
            let mut base: Vec<u8> = Vec::new();
            let mut i: usize = d + 1;
            while i < bytes.len()
                invariant
                    d < bytes.len(),
                    d + 1 <= i <= bytes.len(),
                    base@ == bytes@.subrange(d + 1, i as int),
                decreases bytes.len() - i,
            {
                base.push(bytes[i]);
                i += 1;
            }
            stat_for_name(tables, base.as_slice(), kind)
        },
        None => None,
    }
}

/// The number of distinct values of a column, from its statistics.
pub fn get_column_distinct_count(col_name: &String, ctx: &DbContext) -> (r: Option<u64>)
    ensures
        r == stat_lookup(ctx.tables(), name_bytes(*col_name), StatKind::Cardinality),
{
    lookup_stat(col_name, ctx, StatKind::Cardinality)
}

/// The density of a column, from its statistics, as the bit pattern of an `f32`.
pub fn get_column_density(col_name: &String, ctx: &DbContext) -> (r: Option<u32>)
    ensures
        r == match stat_lookup(ctx.tables(), name_bytes(*col_name), StatKind::Density) {
            Some(d) => Some(d as u32),
            None => None,
        },
{
    match lookup_stat(col_name, ctx, StatKind::Density) {
        Some(d) => {
            proof { lemma_density_fits(ctx.tables(), name_bytes(*col_name)); }
            Some(d as u32)
        },
        None => None,
    }
}

proof fn lemma_first_density_fits(stats: Seq<ColumnStat>)
    ensures
        first_stat(stats, StatKind::Density) matches Some(d) ==> d <= u32::MAX,
    decreases stats.len(),
{
    if stats.len() > 0 {
        lemma_first_density_fits(stats.drop_first());
    }
}

proof fn lemma_columns_density_fits(cols: Seq<ColumnSpec>, name: Seq<u8>)
    ensures
        stat_in_columns(cols, name, StatKind::Density) matches Some(d) ==> d <= u32::MAX,
    decreases cols.len(),
{
    if cols.len() > 0 {
        if let Some(v) = cols[0].stats {
            lemma_first_density_fits(v@);
        }
        lemma_columns_density_fits(cols.drop_first(), name);
    }
}

proof fn lemma_tables_density_fits(tables: Seq<TableSpec>, name: Seq<u8>)
    ensures
        stat_in_tables(tables, name, StatKind::Density) matches Some(d) ==> d <= u32::MAX,
    decreases tables.len(),
{
    if tables.len() > 0 {
        lemma_columns_density_fits(tables[0].column_specs@, name);
        lemma_tables_density_fits(tables.drop_first(), name);
    }
}

proof fn lemma_density_fits(tables: Seq<TableSpec>, col: Seq<u8>)
    ensures
        stat_lookup(tables, col, StatKind::Density) matches Some(d) ==> d <= u32::MAX,
{
    lemma_tables_density_fits(tables, col);
    if let Some(d) = first_dot(col) {
        lemma_tables_density_fits(tables, col.subrange(d + 1, col.len() as int));
    }
}

/// Whether a column's statistics say its values are stored in ascending order.
pub fn is_physically_ordered_column(col_name: &String, ctx: &DbContext) -> (r: bool)
    ensures
        r == stat_lookup(ctx.tables(), name_bytes(*col_name), StatKind::Ordered) is Some,
{
    lookup_stat(col_name, ctx, StatKind::Ordered).is_some()
}

/// The bit pattern of the `f32` 0.10.
pub const DENSITY_THRESHOLD_BITS: u32 = 0x3dcc_cccd;

/// The bit pattern of the `f32` 1.0, the density assumed without statistics.
pub const DEFAULT_DENSITY_BITS: u32 = 0x3f80_0000;

/// `f32` `a >= b` on two bit patterns.
pub open spec fn f32_at_least(a: u32, b: u32) -> bool {
    crate::data::f32_partial_order(a, b) matches Some(c) && c != crate::data::Comparison::Less
}

/// The density a merge join uses for a column (1.0 without statistics).
pub open spec fn density_or_default(tables: Seq<TableSpec>, col: Seq<u8>) -> u32 {
    match stat_lookup(tables, col, StatKind::Density) {
        Some(d) => d as u32,
        None => DEFAULT_DENSITY_BITS,
    }
}

/// Both join columns are stored in ascending order and neither is sparse
/// (density at least 0.10): the inputs can be merged as they come.
pub fn can_use_ordered_merge_join(left_col: &String, right_col: &String, ctx: &DbContext) -> (r: bool)
    ensures
        r == (stat_lookup(ctx.tables(), name_bytes(*left_col), StatKind::Ordered) is Some
            && stat_lookup(ctx.tables(), name_bytes(*right_col), StatKind::Ordered) is Some
            && f32_at_least(density_or_default(ctx.tables(), name_bytes(*left_col)), DENSITY_THRESHOLD_BITS)
            && f32_at_least(density_or_default(ctx.tables(), name_bytes(*right_col)), DENSITY_THRESHOLD_BITS)),
{
    if !is_physically_ordered_column(left_col, ctx) || !is_physically_ordered_column(right_col, ctx) {
        return false;
    }
    let left_density = match get_column_density(left_col, ctx) {
        Some(d) => d,
        None => DEFAULT_DENSITY_BITS,
    };
    let right_density = match get_column_density(right_col, ctx) {
        Some(d) => d,
        None => DEFAULT_DENSITY_BITS,
    };
    f32_at_least_exec(left_density, DENSITY_THRESHOLD_BITS) && f32_at_least_exec(
        right_density,
        DENSITY_THRESHOLD_BITS,
    )
}

/// `f32` `a >= b` on two bit patterns.
pub fn f32_at_least_exec(a: u32, b: u32) -> (r: bool)
    ensures
        r == f32_at_least(a, b),
{
    match crate::data::data_partial_compare(&Data::Float32(a), &Data::Float32(b)) {
        Some(c) => c != crate::data::Comparison::Less,
        None => false,
    }
}

/// The first distinct count found for any column of a schema.
pub open spec fn cardinality_of(tables: Seq<TableSpec>, schema: Seq<String>) -> Option<u64>
    decreases schema.len(),
{
    if schema.len() == 0 {
        None
    } else {
        match stat_lookup(tables, name_bytes(schema[0]), StatKind::Cardinality) {
            Some(c) => Some(c),
            None => cardinality_of(tables, schema.drop_first()),
        }
    }
}

/// An estimate of a relation's size: the distinct count of the first of
/// its columns that has one.
pub fn estimate_cardinality(schema: &Vec<String>, ctx: &DbContext) -> (r: Option<u64>)
    ensures
        r == cardinality_of(ctx.tables(), schema@),
{
    let mut i: usize = 0;
    assert(schema@.subrange(0, schema@.len() as int) =~= schema@);
    while i < schema.len()
        invariant
            i <= schema.len(),
            cardinality_of(ctx.tables(), schema@.subrange(i as int, schema@.len() as int))
                == cardinality_of(ctx.tables(), schema@),
        decreases schema.len() - i,
    {
        let ghost rest = schema@.subrange(i as int, schema@.len() as int);
        assert(rest.drop_first() =~= schema@.subrange(i + 1, schema@.len() as int));
        let c = get_column_distinct_count(&schema[i], ctx);
        if c.is_some() {
            return c;
        }
        i += 1;
    }
    None
}

/// Hash join when either side may hold more than a thousand rows, or when
/// the statistics do not say.
pub fn should_use_hash_join(left_schema: &Vec<String>, right_schema: &Vec<String>, ctx: &DbContext) -> (r:
    bool)
    ensures
        r == match (cardinality_of(ctx.tables(), left_schema@), cardinality_of(ctx.tables(), right_schema@)) {
            (Some(l), Some(rr)) => l > 1000 || rr > 1000,
            _ => true,
        },
{
    let threshold: u64 = 1000;
    let left_card = estimate_cardinality(left_schema, ctx);
    let right_card = estimate_cardinality(right_schema, ctx);
    match (left_card, right_card) {
        (Some(l), Some(r)) => l > threshold || r > threshold,
        _ => true,
    }
}

} // verus!

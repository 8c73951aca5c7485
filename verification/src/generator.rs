//! Building the data set from text tables: what each generation command
//! does, reading schema and table lines, packing rows into the blocks of
//! a table file, and the SQL text that loads the tables into SQLite.
use vstd::prelude::*;
use crate::data::{Data, DataType, Value};
use crate::disk_run::{block_image, blocks_image, finish_block, lemma_rows_encoding_len, pack_rows, rows_bytes, rows_encoding, run_image, encoded_row_size};
use crate::row::{Row, push_value, encode_values, values_view, row_size, lemma_encode_values_len};
use crate::catalog::name_bytes;
use vstd::string::StringSliceAdditionalSpecFns;
use crate::text::{fields_of, parse_i64_within, parse_signed, split_fields, str_eq, to_uppercase, trimmed, uppercase, chars_of, signed_decimal, i64_to_str_with_pipe};

verus! {

// ─── Commands ────────────────────────────────────────────────────────────

/// The block size of the table files when none is given.
pub const DEFAULT_BLOCK_SIZE: u64 = 4096;

/// Generates the table files and the disk simulator's configuration.
#[derive(Debug, Clone)]
pub struct DiskGenerationConfig {
    pub dataset_folder: String,
    pub compiled_dataset_folder: String,
    pub runtime_folder: String,
    pub block_size: u64,
}

/// Generates the SQLite database of the tables.
#[derive(Debug, Clone)]
pub struct SqliteGenerationConfig {
    pub dataset_folder: String,
    pub compiled_dataset_folder: String,
}

/// Generates the engine's catalog with column statistics.
#[derive(Debug, Clone)]
pub struct DatabaseGenerationConfig {
    pub dataset_folder: String,
    pub runtime_folder: String,
}

/// Generates the monitor's configuration.
#[derive(Debug, Clone)]
pub struct MonitorGenerationConfig {
    pub runtime_folder: String,
    pub build_path: String,
}

/// Generates everything.
#[derive(Debug, Clone)]
pub struct AllGenerationConfig {
    pub dataset_folder: String,
    pub compiled_dataset_folder: String,
    pub runtime_folder: String,
    pub build_path: String,
    pub block_size: u64,
}

/// A generation command.
#[derive(Debug)]
pub enum CliOptions {
    Disk(DiskGenerationConfig),
    Database(DatabaseGenerationConfig),
    Monitor(MonitorGenerationConfig),
    Sqlite(SqliteGenerationConfig),
    All(AllGenerationConfig),
}

/// One generation to perform.
#[derive(Debug)]
pub enum GenerationStep {
    Disk(DiskGenerationConfig),
    Database(DatabaseGenerationConfig),
    Monitor(MonitorGenerationConfig),
    Sqlite(SqliteGenerationConfig),
}

fn copy_string(s: &String) -> (r: String)
    ensures
        r@ == s@,
{
    s.clone()
}

/// The generations that make everything, in order: the disk files, the
/// catalog, the monitor configuration, and the SQLite database, each with
/// the folders (and block size) of `cfg`.
pub fn generate_all(cfg: &AllGenerationConfig) -> (r: Vec<GenerationStep>)
    ensures
        r@.len() == 4,
        r@[0] matches GenerationStep::Disk(d) && d.dataset_folder@ == cfg.dataset_folder@
            && d.compiled_dataset_folder@ == cfg.compiled_dataset_folder@ && d.runtime_folder@ == cfg.runtime_folder@
            && d.block_size == cfg.block_size,
        r@[1] matches GenerationStep::Database(d) && d.dataset_folder@ == cfg.dataset_folder@
            && d.runtime_folder@ == cfg.runtime_folder@,
        r@[2] matches GenerationStep::Monitor(m) && m.runtime_folder@ == cfg.runtime_folder@
            && m.build_path@ == cfg.build_path@,
        r@[3] matches GenerationStep::Sqlite(q) && q.dataset_folder@ == cfg.dataset_folder@
            && q.compiled_dataset_folder@ == cfg.compiled_dataset_folder@,
{
    let mut steps: Vec<GenerationStep> = Vec::new();
    steps.push(GenerationStep::Disk(DiskGenerationConfig {
        dataset_folder: copy_string(&cfg.dataset_folder),
        compiled_dataset_folder: copy_string(&cfg.compiled_dataset_folder),
        runtime_folder: copy_string(&cfg.runtime_folder),
        block_size: cfg.block_size,
    }));
    steps.push(GenerationStep::Database(DatabaseGenerationConfig {
        dataset_folder: copy_string(&cfg.dataset_folder),
        runtime_folder: copy_string(&cfg.runtime_folder),
    }));
    steps.push(GenerationStep::Monitor(MonitorGenerationConfig {
        runtime_folder: copy_string(&cfg.runtime_folder),
        build_path: copy_string(&cfg.build_path),
    }));
    steps.push(GenerationStep::Sqlite(SqliteGenerationConfig {
        dataset_folder: copy_string(&cfg.dataset_folder),
        compiled_dataset_folder: copy_string(&cfg.compiled_dataset_folder),
    }));
    steps
}

/// The generations a command asks for: the one it names, or all four
/// for `All`.
pub fn generator_main(options: CliOptions) -> (r: Vec<GenerationStep>)
    ensures
        !(options is All) ==> r@.len() == 1,
        options matches CliOptions::Disk(c) ==> (r@[0] matches GenerationStep::Disk(d) && d.dataset_folder@
            == c.dataset_folder@ && d.compiled_dataset_folder@ == c.compiled_dataset_folder@
            && d.runtime_folder@ == c.runtime_folder@ && d.block_size == c.block_size),
        options matches CliOptions::Database(c) ==> (r@[0] matches GenerationStep::Database(d)
            && d.dataset_folder@ == c.dataset_folder@ && d.runtime_folder@ == c.runtime_folder@),
        options matches CliOptions::Monitor(c) ==> (r@[0] matches GenerationStep::Monitor(m)
            && m.runtime_folder@ == c.runtime_folder@ && m.build_path@ == c.build_path@),
        options matches CliOptions::Sqlite(c) ==> (r@[0] matches GenerationStep::Sqlite(q)
            && q.dataset_folder@ == c.dataset_folder@ && q.compiled_dataset_folder@ == c.compiled_dataset_folder@),
        options matches CliOptions::All(c) ==> r@.len() == 4 && r@[0] is Disk && r@[1] is Database && r@[2] is Monitor
            && r@[3] is Sqlite,
{
    match options {
        CliOptions::Disk(c) => vec![GenerationStep::Disk(c)],
        CliOptions::Database(c) => vec![GenerationStep::Database(c)],
        CliOptions::Monitor(c) => vec![GenerationStep::Monitor(c)],
        CliOptions::Sqlite(c) => vec![GenerationStep::Sqlite(c)],
        CliOptions::All(c) => generate_all(&c),
    }
}

// ─── Schema and table lines ──────────────────────────────────────────────

/// Why a schema is refused.
#[derive(Debug, Clone, Copy, PartialEq, Eq, Structural)]
pub enum SchemaError {
    /// The column at this position has no type.
    MissingType(usize),
    /// The type of the column at this position is not one of `I32`,
    /// `I64`, `FLOAT32`, `FLOAT64`, `STRING` (in any case).
    UnknownType(usize),
}

/// The type a schema names (compared in uppercase).
pub open spec fn type_named(t: Seq<char>) -> Option<DataType> {
    type_of_upper(uppercase(t))
}

/// The column type a type name in uppercase stands for.
pub open spec fn type_of_upper(u: Seq<char>) -> Option<DataType> {
    if u == "I32"@ {
        Some(DataType::Int32)
    } else if u == "I64"@ {
        Some(DataType::Int64)
    } else if u == "FLOAT32"@ {
        Some(DataType::Float32)
    } else if u == "FLOAT64"@ {
        Some(DataType::Float64)
    } else if u == "STRING"@ {
        Some(DataType::String)
    } else {
        None
    }
}

/// The columns a schema's two lines declare: one per field of the names
/// line, each with the type in the same position of the types line.
pub open spec fn schema_of(names: Seq<Seq<char>>, types: Seq<Seq<char>>) -> Result<Seq<(Seq<char>, DataType)>, SchemaError>
    decreases names.len(),
{
    if names.len() == 0 {
        Ok(Seq::empty())
    } else {
        match schema_of(names.drop_last(), types) {
            Err(e) => Err(e),
            Ok(cols) => {
                let k = names.len() - 1;
                if k >= types.len() {
                    Err(SchemaError::MissingType(k as usize))
                } else {
                    match type_named(types[k]) {
                        Some(t) => Ok(cols.push((names[k], t))),
                        None => Err(SchemaError::UnknownType(k as usize)),
                    }
                }
            },
        }
    }
}

fn type_of_name(t: &String) -> (r: Option<DataType>)
    ensures
        r == type_named(t@),
{
    let u = to_uppercase(t.as_str());
    type_of_uppercase(u.as_str())
}

/// The column type of a type name given in uppercase: `I32`, `I64`,
/// `FLOAT32`, `FLOAT64` or `STRING`.
pub fn type_of_uppercase(u: &str) -> (r: Option<DataType>)
    ensures
        r == type_of_upper(u@),
{
    if str_eq(u, "I32") {
        Some(DataType::Int32)
    } else if str_eq(u, "I64") {
        Some(DataType::Int64)
    } else if str_eq(u, "FLOAT32") {
        Some(DataType::Float32)
    } else if str_eq(u, "FLOAT64") {
        Some(DataType::Float64)
    } else if str_eq(u, "STRING") {
        Some(DataType::String)
    } else {
        None
    }
}

/// Reads a schema: its line of column names and its line of types, each
/// a list of fields separated by `|`.
pub fn load_schema(names_line: &str, types_line: &str) -> (r: Result<Vec<(String, DataType)>, SchemaError>)
    ensures
        match r {
            Ok(cols) => schema_of(fields_of(names_line@), fields_of(types_line@)) == Ok::<Seq<(Seq<char>, DataType)>, SchemaError>(
                cols@.map_values(|c: (String, DataType)| (c.0@, c.1))),
            Err(e) => schema_of(fields_of(names_line@), fields_of(types_line@)) == Err::<Seq<(Seq<char>, DataType)>, SchemaError>(e),
        },
{
    let names = split_fields(names_line);
    let types = split_fields(types_line);
    let ghost nv = names@.map_values(|w: String| w@);
    let ghost tv = types@.map_values(|w: String| w@);
    let mut cols: Vec<(String, DataType)> = Vec::new();
    let mut k: usize = 0;
    assert(nv.subrange(0, 0) =~= Seq::<Seq<char>>::empty());
    assert(cols@.map_values(|c: (String, DataType)| (c.0@, c.1)) =~= Seq::<(Seq<char>, DataType)>::empty());
    while k < names.len()
        invariant
            k <= names@.len(),
            nv == names@.map_values(|w: String| w@),
            tv == types@.map_values(|w: String| w@),
            nv == fields_of(names_line@),
            tv == fields_of(types_line@),
            schema_of(nv.subrange(0, k as int), tv) == Ok::<Seq<(Seq<char>, DataType)>, SchemaError>(
                cols@.map_values(|c: (String, DataType)| (c.0@, c.1))),
        decreases names.len() - k,
    {
        let ghost pre = nv.subrange(0, k as int);
        let ghost next = nv.subrange(0, k + 1);
        assert(next.drop_last() =~= pre);
        if k >= types.len() {
            assert(schema_of(next, tv) == Err::<Seq<(Seq<char>, DataType)>, SchemaError>(SchemaError::MissingType(k)));
            proof { lemma_schema_err_stays(nv, tv, (k + 1) as int); }
            return Err(SchemaError::MissingType(k));
        }
        match type_of_name(&types[k]) {
            Some(t) => {
                let ghost before = cols@.map_values(|c: (String, DataType)| (c.0@, c.1));
                cols.push((names[k].clone(), t));
                assert(cols@.map_values(|c: (String, DataType)| (c.0@, c.1)) =~= before.push((nv[k as int], t)));
            },
            None => {
                assert(schema_of(next, tv) == Err::<Seq<(Seq<char>, DataType)>, SchemaError>(SchemaError::UnknownType(k)));
                proof { lemma_schema_err_stays(nv, tv, (k + 1) as int); }
                return Err(SchemaError::UnknownType(k));
            },
        }
        k += 1;
    }
    assert(nv.subrange(0, k as int) =~= nv);
    Ok(cols)
}

/// An error on a prefix of the names is the error of the whole schema.
proof fn lemma_schema_err_stays(names: Seq<Seq<char>>, types: Seq<Seq<char>>, k: int)
    requires
        0 <= k <= names.len(),
        schema_of(names.subrange(0, k), types) is Err,
    ensures
        schema_of(names, types) == schema_of(names.subrange(0, k), types),
    decreases names.len() - k,
{
    if k < names.len() {
        assert(names.subrange(0, k + 1).drop_last() =~= names.subrange(0, k));
        lemma_schema_err_stays(names, types, k + 1);
    } else {
        assert(names.subrange(0, k) =~= names);
    }
}

/// The fields of a line of a table file; `None` for a blank line, which
/// ends the table.
pub fn table_line_fields(line: &str) -> (r: Option<Vec<String>>)
    ensures
        trimmed(line@).len() == 0 <==> r is None,
        r matches Some(f) ==> f@.map_values(|w: String| w@) == fields_of(line@),
{
    let cs = chars_of(line);
    let (a, b) = crate::text::trim_bounds(&cs);
    if a == b {
        return None;
    }
    Some(split_fields(line))
}

/// The value of a field of an integer or string column, as
/// `field.parse::<i32>()` (or `i64`) reads it; `None` where it does not
/// parse.
pub fn integer_or_string_value(field: &String, dt: DataType) -> (r: Option<Data>)
    requires
        dt == DataType::Int32 || dt == DataType::Int64 || dt == DataType::String,
    ensures
        dt == DataType::Int32 ==> match parse_signed(field@, i32::MIN as int, i32::MAX as int) {
            Some(v) => r == Some(Data::Int32(v as i32)),
            None => r is None,
        },
        dt == DataType::Int64 ==> match parse_signed(field@, i64::MIN as int, i64::MAX as int) {
            Some(v) => r == Some(Data::Int64(v as i64)),
            None => r is None,
        },
        dt == DataType::String ==> (r matches Some(Data::String(s)) && s@ == name_bytes(*field)),
{
    match dt {
        DataType::Int32 => match parse_i64_within(field.as_str(), -2147483648, 2147483647) {
            Some(v) => Some(Data::Int32(v as i32)),
            None => None,
        },
        DataType::Int64 => match parse_i64_within(field.as_str(), i64::MIN, i64::MAX) {
            Some(v) => Some(Data::Int64(v)),
            None => None,
        },
        _ => Some(Data::String(crate::catalog::name_to_bytes(field))),
    }
}

// ─── Table files ─────────────────────────────────────────────────────────

/// Packs rows, in order, into the blocks of a table file: a block is
/// written out when the next row does not fit in what is left of it.
pub struct BlockPacker {
    block_size: usize,
    payload: Vec<u8>,
    count: u64,
    pending: Ghost<Seq<Seq<Value>>>,
}

impl BlockPacker {
    pub closed spec fn wf(&self) -> bool {
        &&& self.block_size >= 2
        &&& self.payload@ == rows_encoding(self.pending@)
        &&& self.count == self.pending@.len()
        &&& self.count <= 0xffff
        &&& self.payload@.len() <= self.block_size - 2
    }

    /// The rows of the block being filled.
    pub closed spec fn pending(&self) -> Seq<Seq<Value>> {
        self.pending@
    }

    pub closed spec fn spec_block_size(&self) -> nat {
        self.block_size as nat
    }

    /// A packer for blocks of `block_size` bytes.
    pub fn new(block_size: usize) -> (r: BlockPacker)
        requires
            block_size >= 2,
        ensures
            r.wf(),
            r.spec_block_size() == block_size,
            r.pending() == Seq::<Seq<Value>>::empty(),
    {
        let r = BlockPacker { block_size, payload: Vec::new(), count: 0, pending: Ghost(Seq::empty()) };
        assert(rows_encoding(Seq::<Seq<Value>>::empty()) =~= Seq::<u8>::empty());
        r
    }

    /// The number of rows of the block being filled.
    pub fn pending_count(&self) -> (r: u64)
        requires
            self.wf(),
        ensures
            r == self.pending().len(),
    {
        self.count
    }

    /// The bytes the rows of the block being filled take.
    pub fn pending_bytes(&self) -> (r: usize)
        requires
            self.wf(),
        ensures
            r == rows_bytes(self.pending()),
    {
        proof {
            lemma_rows_encoding_len(self.pending@);
        }
        self.payload.len()
    }

    /// The size of a block.
    pub fn block_size(&self) -> (r: usize)
        ensures
            r == self.spec_block_size(),
    {
        self.block_size
    }

    /// Adds a row (which fits in a block); returns the finished block when
    /// the row starts a new one.
    pub fn add_row(&mut self, row: &Row) -> (r: Option<Vec<u8>>)
        requires
            old(self).wf(),
            row_size(row@) <= old(self).spec_block_size() - 2,
            rows_bytes(old(self).pending()) + row_size(row@) <= old(self).spec_block_size() - 2
                ==> old(self).pending().len() < 0xffff,
        ensures
            final(self).wf(),
            final(self).spec_block_size() == old(self).spec_block_size(),
            rows_bytes(old(self).pending()) + row_size(row@) > old(self).spec_block_size() - 2 ==> {
                &&& r matches Some(b) && b@ == block_image(old(self).pending(), old(self).spec_block_size())
                &&& final(self).pending() == seq![row@]
            },
            rows_bytes(old(self).pending()) + row_size(row@) <= old(self).spec_block_size() - 2 ==> {
                &&& r is None
                &&& final(self).pending() == old(self).pending().push(row@)
            },
    {
        proof {
            lemma_rows_encoding_len(self.pending@);
        }
        let size = encoded_row_size(row);
        let usable = self.block_size - 2;
        let mut out: Option<Vec<u8>> = None;
        if size > usable - self.payload.len() {
            let mut block: Vec<u8> = Vec::new();
            finish_block(&mut block, &self.payload, self.count, self.block_size);
            assert(block@ =~= block_image(self.pending@, self.block_size as nat));
            out = Some(block);
            self.payload = Vec::new();
            self.count = 0;
            self.pending = Ghost(Seq::empty());
            assert(rows_encoding(Seq::<Seq<Value>>::empty()) =~= Seq::<u8>::empty());
        }
        let mut payload: Vec<u8> = Vec::new();
        std::mem::swap(&mut payload, &mut self.payload);
        let ghost before = payload@;
        let ghost pend = self.pending@;
        let mut k: usize = 0;
        while k < row.values.len()
            invariant
                k <= row.values.len(),
                payload@ == before + encode_values(values_view(row.values@.subrange(0, k as int))),
            decreases row.values.len() - k,
        {
            let ghost pre = values_view(row.values@.subrange(0, k as int));
            push_value(&mut payload, &row.values[k]);
            k += 1;
            assert(values_view(row.values@.subrange(0, k as int)).drop_last() =~= pre);
            assert(payload@ =~= before + encode_values(values_view(row.values@.subrange(0, k as int))));
        }
        assert(row.values@.subrange(0, k as int) =~= row.values@);
        self.payload = payload;
        self.pending = Ghost(pend.push(row@));
        assert(self.pending@.drop_last() =~= pend);
        self.count = self.count + 1;
        proof {
            lemma_rows_encoding_len(self.pending@);
            lemma_encode_values_len(row@);
        }
        out
    }

    /// The last block, if it holds any row.
    pub fn finish(self) -> (r: Option<Vec<u8>>)
        requires
            self.wf(),
        ensures
            self.pending().len() == 0 ==> r is None,
            self.pending().len() > 0 ==> (r matches Some(b) && b@ == block_image(self.pending(), self.spec_block_size())),
    {
        if self.count == 0 {
            return None;
        }
        let mut block: Vec<u8> = Vec::new();
        finish_block(&mut block, &self.payload, self.count, self.block_size);
        assert(block@ =~= block_image(self.pending@, self.block_size as nat));
        Some(block)
    }
}

/// Packing one more row follows the layout of a run: the row starts a
/// new block exactly when it does not fit in what is left of the block
/// being filled, which is what [`BlockPacker::add_row`] does.  So after
/// rows `rows` the packer has written the blocks of the run of `rows` but
/// the last, and holds the last one's rows.
pub proof fn lemma_packer_follows_run(rows: Seq<Seq<Value>>, r: Seq<Value>, usable: nat)
    ensures
        ({
            let p = pack_rows(rows, usable);
            let np = pack_rows(rows.push(r), usable);
            if rows_bytes(p.last()) + row_size(r) > usable {
                np.drop_last() == p && np.last() == seq![r]
            } else {
                np.drop_last() == p.drop_last() && np.last() == p.last().push(r)
            }
        }),
{
    let p = pack_rows(rows, usable);
    let np = pack_rows(rows.push(r), usable);
    assert(rows.push(r).drop_last() =~= rows);
    assert(rows.push(r).last() == r);
    crate::disk_run::lemma_pack_len(rows, usable);
    if rows_bytes(p.last()) + row_size(r) > usable {
        assert(np.drop_last() =~= p);
    } else {
        assert(np.drop_last() =~= p.drop_last());
    }
}

/// The blocks the packer writes for `rows` (those it returned, then the
/// one `finish` returns) are the run of `rows`: a table file reads back
/// like a run.
pub proof fn lemma_table_file_is_run(rows: Seq<Seq<Value>>, block_size: nat)
    requires
        rows.len() > 0,
        block_size >= 2,
    ensures
        ({
            let p = pack_rows(rows, (block_size - 2) as nat);
            blocks_image(p.drop_last(), block_size) + block_image(p.last(), block_size) == run_image(rows, block_size)
        }),
{
    let p = pack_rows(rows, (block_size - 2) as nat);
    crate::disk_run::lemma_pack_len(rows, (block_size - 2) as nat);
    assert(p =~= p.drop_last().push(p.last()));
}

// ─── SQL text ────────────────────────────────────────────────────────────

/// Parts joined by a separator.
pub open spec fn join_bytes(parts: Seq<Seq<u8>>, sep: Seq<u8>) -> Seq<u8>
    decreases parts.len(),
{
    if parts.len() == 0 {
        Seq::empty()
    } else if parts.len() == 1 {
        parts[0]
    } else {
        join_bytes(parts.drop_last(), sep) + sep + parts.last()
    }
}

/// The SQL type of a column type.
pub open spec fn sql_type(t: DataType) -> Seq<u8> {
    match t {
        DataType::Int32 => "INTEGER".spec_bytes(),
        DataType::Int64 => "INTEGER".spec_bytes(),
        DataType::Float32 => "REAL".spec_bytes(),
        DataType::Float64 => "REAL".spec_bytes(),
        DataType::String => "TEXT".spec_bytes(),
    }
}

/// `CREATE TABLE <name> (<column> <type>,...);`
pub open spec fn create_table_text(name: Seq<u8>, cols: Seq<(Seq<u8>, DataType)>) -> Seq<u8> {
    "CREATE TABLE ".spec_bytes() + name + " (".spec_bytes() + join_bytes(
        cols.map_values(|c: (Seq<u8>, DataType)| c.0 + " ".spec_bytes() + sql_type(c.1)),
        ",".spec_bytes(),
    ) + ");".spec_bytes()
}

fn push_all(out: &mut Vec<u8>, s: &Vec<u8>)
    ensures
        final(out)@ == old(out)@ + s@,
{
    let ghost start = out@;
    let mut i: usize = 0;
    while i < s.len()
        invariant
            i <= s@.len(),
            out@ == start + s@.subrange(0, i as int),
        decreases s.len() - i,
    {
        out.push(s[i]);
        i += 1;
        assert(out@ =~= start + s@.subrange(0, i as int));
    }
    assert(s@.subrange(0, i as int) =~= s@);
}

fn push_text(out: &mut Vec<u8>, s: &str)
    ensures
        final(out)@ == old(out)@ + s.spec_bytes(),
{
    let b = s.as_bytes();
    let ghost start = out@;
    let mut i: usize = 0;
    while i < b.len()
        invariant
            i <= b@.len(),
            b@ == s.spec_bytes(),
            out@ == start + b@.subrange(0, i as int),
        decreases b.len() - i,
    {
        out.push(b[i]);
        i += 1;
        assert(out@ =~= start + b@.subrange(0, i as int));
    }
    assert(b@.subrange(0, i as int) =~= b@);
}

/// The statement that creates a table with the given columns.
#[verifier::rlimit(30)]
pub fn create_table_sql(table_name: &String, columns: &Vec<(String, DataType)>) -> (r: Vec<u8>)
    ensures
        r@ == create_table_text(name_bytes(*table_name), columns@.map_values(|c: (String, DataType)| (name_bytes(c.0), c.1))),
{
    let ghost cols = columns@.map_values(|c: (String, DataType)| (name_bytes(c.0), c.1));
    let ghost decls = cols.map_values(|c: (Seq<u8>, DataType)| c.0 + " ".spec_bytes() + sql_type(c.1));
    let mut out: Vec<u8> = Vec::new();
    push_text(&mut out, "CREATE TABLE ");
    push_all(&mut out, &crate::catalog::name_to_bytes(table_name));
    push_text(&mut out, " (");
    let ghost head = out@;
    let mut i: usize = 0;
    while i < columns.len()
        invariant
            i <= columns@.len(),
            cols == columns@.map_values(|c: (String, DataType)| (name_bytes(c.0), c.1)),
            decls == cols.map_values(|c: (Seq<u8>, DataType)| c.0 + " ".spec_bytes() + sql_type(c.1)),
            out@ == head + join_bytes(decls.subrange(0, i as int), ",".spec_bytes()),
        decreases columns.len() - i,
    {
        let ghost pre = out@;
        if i > 0 {
            push_text(&mut out, ",");
        }
        push_all(&mut out, &crate::catalog::name_to_bytes(&columns[i].0));
        push_text(&mut out, " ");
        match columns[i].1 {
            DataType::Int32 => push_text(&mut out, "INTEGER"),
            DataType::Int64 => push_text(&mut out, "INTEGER"),
            DataType::Float32 => push_text(&mut out, "REAL"),
            DataType::Float64 => push_text(&mut out, "REAL"),
            DataType::String => push_text(&mut out, "TEXT"),
        }
        proof {
            let d = decls.subrange(0, i + 1);
            assert(d.drop_last() =~= decls.subrange(0, i as int));
            assert(decls[i as int] == cols[i as int].0 + " ".spec_bytes() + sql_type(cols[i as int].1));
            if i == 0 {
                assert(join_bytes(d, ",".spec_bytes()) == d[0]);
                assert(out@ =~= head + join_bytes(d, ",".spec_bytes()));
            } else {
                assert(out@ =~= head + join_bytes(d, ",".spec_bytes()));
            }
        }
        i += 1;
    }
    assert(decls.subrange(0, i as int) =~= decls);
    push_text(&mut out, ");");
    out
}

/// The SQL text of an integer or string value: its decimal digits, or
/// the string in double quotes.
pub open spec fn sql_value_text(d: Value) -> Seq<u8> {
    match d {
        Value::Int32(v) => signed_decimal(v as int),
        Value::Int64(v) => signed_decimal(v as int),
        Value::Str(s) => "\"".spec_bytes() + s + "\"".spec_bytes(),
        _ => Seq::empty(),
    }
}

/// The SQL text of an integer or string value.
pub fn sql_value(d: &Data) -> (r: Vec<u8>)
    requires
        !(d is Float32) && !(d is Float64),
    ensures
        r@ == sql_value_text(d@),
{
    match d {
        Data::Int32(v) => {
            let mut t = i64_to_str_with_pipe(*v as i64);
            t.pop();
            assert(t@ =~= signed_decimal(*v as int));
            t
        },
        Data::Int64(v) => {
            let mut t = i64_to_str_with_pipe(*v);
            t.pop();
            assert(t@ =~= signed_decimal(*v as int));
            t
        },
        Data::String(s) => {
            let mut out: Vec<u8> = Vec::new();
            push_text(&mut out, "\"");
            push_all(&mut out, s);
            push_text(&mut out, "\"");
            out
        },
        _ => Vec::new(),
    }
}

/// The rows inserted by one statement.
pub const ROWS_PER_BATCH: usize = 1024;

/// `INSERT into <table> (<columns>) values <tuples>;`
pub open spec fn insert_text(table: Seq<u8>, columns: Seq<u8>, tuples: Seq<Seq<u8>>) -> Seq<u8> {
    "INSERT into ".spec_bytes() + table + " (".spec_bytes() + columns + ") values ".spec_bytes()
        + join_bytes(tuples.map_values(|t: Seq<u8>| "(".spec_bytes() + t + ")".spec_bytes()), ",".spec_bytes())
        + ";".spec_bytes()
}

/// Collects rows into `INSERT` statements of at most 1024 rows each.
pub struct InsertBatcher {
    table: Vec<u8>,
    columns: Vec<u8>,
    batch: Vec<u8>,
    count: usize,
    tuples: Ghost<Seq<Seq<u8>>>,
}

impl InsertBatcher {
    pub closed spec fn wf(&self) -> bool {
        &&& self.count == self.tuples@.len()
        &&& self.count < ROWS_PER_BATCH
        &&& self.batch@ == join_bytes(self.tuples@.map_values(|t: Seq<u8>| "(".spec_bytes() + t + ")".spec_bytes()), ",".spec_bytes())
    }

    /// The rows (the text between the parentheses) not yet in a statement.
    pub closed spec fn pending(&self) -> Seq<Seq<u8>> {
        self.tuples@
    }

    pub closed spec fn table_text(&self) -> Seq<u8> {
        self.table@
    }

    pub closed spec fn columns_text(&self) -> Seq<u8> {
        self.columns@
    }

    /// A batcher for a table and its column list (`a,b,c`).
    pub fn new(table: Vec<u8>, columns: Vec<u8>) -> (r: InsertBatcher)
        ensures
            r.wf(),
            r.pending() == Seq::<Seq<u8>>::empty(),
            r.table_text() == table@,
            r.columns_text() == columns@,
    {
        let r = InsertBatcher { table, columns, batch: Vec::new(), count: 0, tuples: Ghost(Seq::empty()) };
        assert(r.tuples@.map_values(|t: Seq<u8>| "(".spec_bytes() + t + ")".spec_bytes()) =~= Seq::<Seq<u8>>::empty());
        r
    }

    fn statement(&self) -> (r: Vec<u8>)
        requires
            self.batch@ == join_bytes(self.tuples@.map_values(|t: Seq<u8>| "(".spec_bytes() + t + ")".spec_bytes()), ",".spec_bytes()),
        ensures
            r@ == insert_text(self.table@, self.columns@, self.tuples@),
    {
        let mut out: Vec<u8> = Vec::new();
        push_text(&mut out, "INSERT into ");
        push_all(&mut out, &self.table);
        push_text(&mut out, " (");
        push_all(&mut out, &self.columns);
        push_text(&mut out, ") values ");
        push_all(&mut out, &self.batch);
        push_text(&mut out, ";");
        out
    }

    /// Adds a row given as the text of its values joined by commas;
    /// returns the statement that inserts the batch when it reaches 1024
    /// rows.
    pub fn add_row(&mut self, values: &Vec<u8>) -> (r: Option<Vec<u8>>)
        requires
            old(self).wf(),
        ensures
            final(self).wf(),
            final(self).table_text() == old(self).table_text(),
            final(self).columns_text() == old(self).columns_text(),
            old(self).pending().len() + 1 == ROWS_PER_BATCH ==> {
                &&& r matches Some(s) && s@ == insert_text(old(self).table_text(), old(self).columns_text(), old(self).pending().push(values@))
                &&& final(self).pending() == Seq::<Seq<u8>>::empty()
            },
            old(self).pending().len() + 1 < ROWS_PER_BATCH ==> {
                &&& r is None
                &&& final(self).pending() == old(self).pending().push(values@)
            },
    {
        let ghost ts = self.tuples@;
        let ghost f = |t: Seq<u8>| "(".spec_bytes() + t + ")".spec_bytes();
        let ghost before = self.batch@;
        if self.count > 0 {
            push_text(&mut self.batch, ",");
        }
        push_text(&mut self.batch, "(");
        push_all(&mut self.batch, values);
        push_text(&mut self.batch, ")");
        self.tuples = Ghost(ts.push(values@));
        proof {
            let m = self.tuples@.map_values(f);
            assert(m.drop_last() =~= ts.map_values(f));
            assert(m.last() == "(".spec_bytes() + values@ + ")".spec_bytes());
            if ts.len() == 0 {
                assert(m.len() == 1);
                assert(self.batch@ =~= join_bytes(m, ",".spec_bytes()));
            } else {
                assert(self.batch@ =~= join_bytes(m, ",".spec_bytes()));
            }
        }
        self.count = self.count + 1;
        if self.count >= ROWS_PER_BATCH {
            let s = self.statement();
            self.batch = Vec::new();
            self.count = 0;
            self.tuples = Ghost(Seq::empty());
            assert(self.tuples@.map_values(|t: Seq<u8>| "(".spec_bytes() + t + ")".spec_bytes()) =~= Seq::<Seq<u8>>::empty());
            return Some(s);
        }
        None
    }

    /// The statement for the rows left, if any.
    pub fn finish(&self) -> (r: Option<Vec<u8>>)
        requires
            self.wf(),
        ensures
            self.pending().len() == 0 ==> r is None,
            self.pending().len() > 0 ==> (r matches Some(s) && s@ == insert_text(self.table_text(), self.columns_text(), self.pending())),
    {
        if self.count == 0 {
            return None;
        }
        Some(self.statement())
    }
}

} // verus!

//! The monitor: the configuration of a test run, the commands the engine
//! sends it, checking the engine's result rows against the expected
//! output, and the plan for handing the engine its pipes.
use vstd::prelude::*;
use crate::query::Query;
use crate::text::{decimal_digits, lowercase, split_whitespace, str_eq, to_lowercase, trim_bounds, chars_of, trimmed, u64_to_decimal, words};
use crate::predicate::names_view;

verus! {

/// The programs of the disk simulator and its configuration file.
#[derive(Debug, Clone)]
pub struct DiskConfig {
    pub disk_prog: String,
    pub disk_prog_config: String,
}

/// The programs of the engine and its configuration file.
#[derive(Debug, Clone)]
pub struct DatabaseConfig {
    pub database_prog: String,
    pub database_prog_config: String,
}

/// One query to run and check.
#[derive(Debug)]
pub struct QueryConfig {
    pub execution_name: String,
    pub disabled: bool,
    pub sort_before_check: bool,
    pub query: Query,
    pub expected_output_file: String,
    pub memory_limit_mb: u64,
}

/// The least memory a query may be given, in MiB.
pub const MIN_MEMORY_LIMIT_MB: u64 = 64;

/// What the monitor refuses in a configuration.
#[derive(Debug, Clone, Copy, PartialEq, Eq, Structural)]
pub enum MonitorError {
    /// A query is given less than 64 MiB.
    MemoryLimitTooLow,
}

/// A query may run with a memory limit of at least 64 MiB.
pub fn check_memory_limit_mb(memory_limit_mb: u64) -> (r: Result<(), MonitorError>)
    ensures
        r is Ok <==> memory_limit_mb >= MIN_MEMORY_LIMIT_MB,
        r matches Err(e) ==> e == MonitorError::MemoryLimitTooLow,
{
    if memory_limit_mb < MIN_MEMORY_LIMIT_MB {
        Err(MonitorError::MemoryLimitTooLow)
    } else {
        Ok(())
    }
}

impl QueryConfig {
    /// The query may run with its memory limit: at least 64 MiB.
    pub fn check_memory_limit(&self) -> (r: Result<(), MonitorError>)
        ensures
            r is Ok <==> self.memory_limit_mb >= MIN_MEMORY_LIMIT_MB,
            r matches Err(e) ==> e == MonitorError::MemoryLimitTooLow,
    {
        check_memory_limit_mb(self.memory_limit_mb)
    }

    /// The address-space limit of the engine, in bytes.
    pub fn memory_limit_bytes(&self) -> (r: u64)
        requires
            self.memory_limit_mb * 1048576 <= u64::MAX,
        ensures
            r == self.memory_limit_mb * 1048576,
    {
        self.memory_limit_mb * 1024 * 1024
    }
}

/// The configuration of a test run.
#[derive(Debug)]
pub struct MonitorConfig {
    pub disk_config: DiskConfig,
    pub database_config: DatabaseConfig,
    pub query_configs: Vec<QueryConfig>,
}

impl MonitorConfig {
    pub fn get_disk_config(&self) -> (r: &DiskConfig)
        ensures
            r == &self.disk_config,
    {
        &self.disk_config
    }

    pub fn get_database_config(&self) -> (r: &DatabaseConfig)
        ensures
            r == &self.database_config,
    {
        &self.database_config
    }

    pub fn get_query_configs(&self) -> (r: &Vec<QueryConfig>)
        ensures
            r == &self.query_configs,
    {
        &self.query_configs
    }
}

// ─── The engine's commands ───────────────────────────────────────────────

/// A line the engine sends the monitor.
#[derive(Debug, Clone, Copy, PartialEq, Eq, Structural)]
pub enum MonitorCommand {
    /// Asks for the memory limit of the query.
    GetMemoryLimit,
    /// Announces the result rows.
    Validate,
    /// Anything else.
    Unknown,
}

/// The words of a command line; `None` asks for another line (this one
/// was blank and the input has not ended).
pub fn read_command(line: &str, at_end: bool) -> (r: Option<Vec<String>>)
    ensures
        words(line@).len() == 0 && !at_end <==> r is None,
        r matches Some(ws) ==> ws@.map_values(|w: String| w@) == words(line@),
{
    let ws = split_whitespace(line);
    if ws.len() == 0 && !at_end {
        return None;
    }
    Some(ws)
}

/// What a command's first word asks for, given that word in lowercase.
pub fn command_of_lowercase(l: &str) -> (r: MonitorCommand)
    ensures
        l@ == "get_memory_limit"@ ==> r == MonitorCommand::GetMemoryLimit,
        l@ != "get_memory_limit"@ && l@ == "validate"@ ==> r == MonitorCommand::Validate,
        l@ != "get_memory_limit"@ && l@ != "validate"@ ==> r == MonitorCommand::Unknown,
{
    if str_eq(l, "get_memory_limit") {
        MonitorCommand::GetMemoryLimit
    } else if str_eq(l, "validate") {
        MonitorCommand::Validate
    } else {
        MonitorCommand::Unknown
    }
}

/// What the first word of a command asks for (compared in lowercase).
pub fn command_of_word(word: &String) -> (r: MonitorCommand)
    ensures
        lowercase(word@) == "get_memory_limit"@ ==> r == MonitorCommand::GetMemoryLimit,
        lowercase(word@) != "get_memory_limit"@ && lowercase(word@) == "validate"@ ==> r == MonitorCommand::Validate,
        lowercase(word@) != "get_memory_limit"@ && lowercase(word@) != "validate"@ ==> r == MonitorCommand::Unknown,
{
    let l = to_lowercase(word.as_str());
    command_of_lowercase(l.as_str())
}

/// The answer to `get_memory_limit`: the limit in MiB on a line.
pub fn memory_limit_reply(memory_limit_mb: u64) -> (r: Vec<u8>)
    ensures
        r@ == decimal_digits(memory_limit_mb as nat).push(10u8),
{
    let mut out = u64_to_decimal(memory_limit_mb);
    out.push(10u8);
    out
}

// ─── Checking the result rows ────────────────────────────────────────────

/// The outcome of comparing one line of expected output with one line of
/// the engine's output.
#[derive(Debug, Clone, Copy, PartialEq, Eq, Structural)]
pub enum LineCheck {
    /// The lines agree; compare the next ones.
    Matches,
    /// The expected output ended and the engine ended its rows with `!`.
    Finished,
    /// The expected output ended but the engine sent something else.
    MissingEnd,
    /// The lines differ.
    Mismatch,
}

/// The verdict on a pair of lines: an expected line that is blank after
/// trimming ends the rows, and the engine must then send `!`; otherwise
/// the two lines must agree once trimmed.
pub open spec fn line_verdict(expected: Seq<char>, actual: Seq<char>) -> LineCheck {
    if trimmed(expected).len() == 0 {
        if trimmed(actual) == "!"@ { LineCheck::Finished } else { LineCheck::MissingEnd }
    } else if trimmed(expected) == trimmed(actual) {
        LineCheck::Matches
    } else {
        LineCheck::Mismatch
    }
}

/// The trimmed characters of a line.
fn trimmed_chars(line: &str) -> (r: Vec<char>)
    ensures
        r@ == trimmed(line@),
{
    let cs = chars_of(line);
    let (a, b) = trim_bounds(&cs);
    let mut out: Vec<char> = Vec::new();
    let mut i = a;
    while i < b
        invariant
            a <= i <= b <= cs@.len(),
            out@ == cs@.subrange(a as int, i as int),
        decreases b - i,
    {
        out.push(cs[i]);
        i += 1;
        assert(out@ =~= cs@.subrange(a as int, i as int));
    }
    out
}

fn same_chars(x: &Vec<char>, y: &Vec<char>) -> (r: bool)
    ensures
        r == (x@ == y@),
{
    if x.len() != y.len() {
        return false;
    }
    let mut i: usize = 0;
    while i < x.len()
        invariant
            x@.len() == y@.len(),
            i <= x@.len(),
            forall|k: int| 0 <= k < i ==> x@[k] == y@[k],
        decreases x.len() - i,
    {
        if x[i] != y[i] {
            assert(x@[i as int] != y@[i as int]);
            return false;
        }
        i += 1;
    }
    assert(x@ =~= y@);
    true
}

/// Compares a line of the expected output with a line of the engine's.
pub fn check_output_line(expected: &str, actual: &str) -> (r: LineCheck)
    ensures
        r == line_verdict(expected@, actual@),
{
    let e = trimmed_chars(expected);
    let a = trimmed_chars(actual);
    if e.len() == 0 {
        let bang = chars_of("!");
        if same_chars(&a, &bang) { LineCheck::Finished } else { LineCheck::MissingEnd }
    } else if same_chars(&e, &a) {
        LineCheck::Matches
    } else {
        LineCheck::Mismatch
    }
}

// ─── Handing the engine its pipes ────────────────────────────────────────

/// A pipe end to place at a fixed descriptor in the engine's process.
#[derive(Debug, Clone, Copy, PartialEq, Eq, Structural)]
pub struct FdMapping {
    pub source: i32,
    pub target: i32,
    pub close_on_exec: bool,
}

impl FdMapping {
    pub fn new(source: i32, target: i32, close_on_exec: bool) -> (r: FdMapping)
        ensures
            r == (FdMapping { source, target, close_on_exec }),
    {
        FdMapping { source, target, close_on_exec }
    }
}

/// One system call of the remapping.
#[derive(Debug, Clone, Copy, PartialEq, Eq, Structural)]
pub enum FdOp {
    /// `dup2(from, to)`.
    Dup2 { from: i32, to: i32 },
    /// `close(fd)`.
    Close(i32),
    /// Sets or clears the close-on-exec flag of `fd`.
    SetCloseOnExec { fd: i32, on: bool },
}

/// The largest descriptor the mappings name.
pub open spec fn max_fd(m: Seq<FdMapping>) -> int
    decreases m.len(),
{
    if m.len() == 0 {
        -1
    } else {
        let rest = max_fd(m.drop_last());
        let s = m.last().source as int;
        let t = m.last().target as int;
        let here = if s >= t { s } else { t };
        if here >= rest { here } else { rest }
    }
}

/// The first descriptor past every mapping's: the scratch range used
/// while moving descriptors.
pub open spec fn remap_base_of(m: Seq<FdMapping>) -> int {
    if m.len() == 0 { 1 } else { max_fd(m) + 1 }
}

/// The calls that move every source descriptor to its target: first
/// each source is moved to the scratch descriptor `base + index`, then
/// each scratch descriptor to its target, whose close-on-exec flag is
/// then set as asked.  Moving through scratch descriptors lets a source
/// be another mapping's target.
pub open spec fn remap_ops(m: Seq<FdMapping>, base: int) -> Seq<FdOp> {
    Seq::new(m.len() * 2, |k: int| if k % 2 == 0 {
        FdOp::Dup2 { from: m[k / 2].source, to: (base + k / 2) as i32 }
    } else {
        FdOp::Close(m[k / 2].source)
    }) + Seq::new(m.len() * 3, |k: int| if k % 3 == 0 {
        FdOp::Dup2 { from: (base + k / 3) as i32, to: m[k / 3].target }
    } else if k % 3 == 1 {
        FdOp::Close((base + k / 3) as i32)
    } else {
        FdOp::SetCloseOnExec { fd: m[k / 3].target, on: m[k / 3].close_on_exec }
    })
}

/// The calls that place each mapping's source at its target.
pub fn remap_fds(mappings: &Vec<FdMapping>) -> (r: Vec<FdOp>)
    requires
        remap_base_of(mappings@) + mappings@.len() <= i32::MAX,
    ensures
        r@ == remap_ops(mappings@, remap_base_of(mappings@)),
{
    let n = mappings.len();
    let mut top: i64 = -1;
    let mut i: usize = 0;
    while i < n
        invariant
            i <= n,
            n == mappings@.len(),
            top == max_fd(mappings@.subrange(0, i as int)),
        decreases n - i,
    {
        let m = mappings[i];
        let here: i64 = if m.source >= m.target { m.source as i64 } else { m.target as i64 };
        assert(mappings@.subrange(0, i + 1).drop_last() =~= mappings@.subrange(0, i as int));
        if here >= top {
            top = here;
        }
        i += 1;
    }
    assert(mappings@.subrange(0, n as int) =~= mappings@);
    let base: i64 = if n == 0 { 1 } else { top + 1 };
    let ghost ops = remap_ops(mappings@, base as int);
    let mut out: Vec<FdOp> = Vec::new();
    let mut j: usize = 0;
    while j < n
        invariant
            j <= n,
            n == mappings@.len(),
            base == remap_base_of(mappings@),
            base + n <= i32::MAX,
            ops == remap_ops(mappings@, base as int),
            out@ == ops.subrange(0, 2 * j as int),
        decreases n - j,
    {
        let m = mappings[j];
        out.push(FdOp::Dup2 { from: m.source, to: (base + j as i64) as i32 });
        out.push(FdOp::Close(m.source));
        proof {
            assert((2 * j) % 2 == 0 && (2 * j) / 2 == j) by (nonlinear_arith);
            assert((2 * j + 1) % 2 == 1 && (2 * j + 1) / 2 == j) by (nonlinear_arith);
        }
        j += 1;
        assert(out@ =~= ops.subrange(0, 2 * j as int));
    }
    let mut k: usize = 0;
    while k < n
        invariant
            k <= n,
            n == mappings@.len(),
            base == remap_base_of(mappings@),
            base + n <= i32::MAX,
            ops == remap_ops(mappings@, base as int),
            out@ == ops.subrange(0, 2 * n + 3 * k),
        decreases n - k,
    {
        let m = mappings[k];
        out.push(FdOp::Dup2 { from: (base + k as i64) as i32, to: m.target });
        out.push(FdOp::Close((base + k as i64) as i32));
        out.push(FdOp::SetCloseOnExec { fd: m.target, on: m.close_on_exec });
        proof {
            assert((3 * k) % 3 == 0 && (3 * k) / 3 == k) by (nonlinear_arith);
            assert((3 * k + 1) % 3 == 1 && (3 * k + 1) / 3 == k) by (nonlinear_arith);
            assert((3 * k + 2) % 3 == 2 && (3 * k + 2) / 3 == k) by (nonlinear_arith);
        }
        k += 1;
        assert(out@ =~= ops.subrange(0, 2 * n + 3 * k));
    }
    assert(ops.len() == 2 * n + 3 * n);
    assert(out@ =~= ops);
    out
}

} // verus!

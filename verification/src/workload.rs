//! The test workload: which queries are checked against SQLite's answers,
//! and how each becomes an entry of the monitor's configuration.
use vstd::prelude::*;
use crate::monitor::QueryConfig;
use crate::query::Query;
use crate::text::{decimal_digits, u64_to_decimal};
use vstd::string::StringSliceAdditionalSpecFns;

verus! {

/// The options of the workload generator: where the SQLite database is,
/// and where the monitor's configuration and expected outputs go.
#[derive(Debug, Clone)]
pub struct CliOptions {
    pub compiled_dataset_folder: String,
    pub runtime_folder: String,
}

/// The memory every workload query runs with, in MiB.
pub const WORKLOAD_MEMORY_LIMIT_MB: u64 = 64;

/// The file name of the expected output of the `n`-th query:
/// `expected_output_<n>.csv`.
pub fn expected_output_name(n: u64) -> (r: Vec<u8>)
    ensures
        r@ == "expected_output_".spec_bytes() + decimal_digits(n as nat) + ".csv".spec_bytes(),
{
    let mut out: Vec<u8> = Vec::new();
    let a = "expected_output_".as_bytes();
    let mut i: usize = 0;
    while i < a.len()
        invariant
            i <= a@.len(),
            a@ == "expected_output_".spec_bytes(),
            out@ == a@.subrange(0, i as int),
        decreases a.len() - i,
    {
        out.push(a[i]);
        i += 1;
        assert(out@ =~= a@.subrange(0, i as int));
    }
    assert(a@.subrange(0, i as int) =~= a@);
    let d = u64_to_decimal(n);
    let ghost mid = out@;
    let mut j: usize = 0;
    while j < d.len()
        invariant
            j <= d@.len(),
            out@ == mid + d@.subrange(0, j as int),
        decreases d.len() - j,
    {
        out.push(d[j]);
        j += 1;
        assert(out@ =~= mid + d@.subrange(0, j as int));
    }
    assert(d@.subrange(0, j as int) =~= d@);
    let c = ".csv".as_bytes();
    let ghost mid2 = out@;
    let mut k: usize = 0;
    while k < c.len()
        invariant
            k <= c@.len(),
            c@ == ".csv".spec_bytes(),
            out@ == mid2 + c@.subrange(0, k as int),
        decreases c.len() - k,
    {
        out.push(c[k]);
        k += 1;
        assert(out@ =~= mid2 + c@.subrange(0, k as int));
    }
    assert(c@.subrange(0, k as int) =~= c@);
    out
}

/// The monitor's entry for a workload query: named by its SQL text,
/// enabled, sorted before the check unless the query's own output is
/// sorted, run with 64 MiB.
pub fn query_config_for(query: Query, sql: String, is_output_sorted: bool, expected_output_file: String) -> (r: QueryConfig)
    ensures
        r.execution_name@ == sql@,
        !r.disabled,
        r.sort_before_check == !is_output_sorted,
        r.query == query,
        r.expected_output_file@ == expected_output_file@,
        r.memory_limit_mb == WORKLOAD_MEMORY_LIMIT_MB,
{
    QueryConfig {
        execution_name: sql,
        disabled: false,
        sort_before_check: !is_output_sorted,
        query,
        expected_output_file,
        memory_limit_mb: WORKLOAD_MEMORY_LIMIT_MB,
    }
}

} // verus!

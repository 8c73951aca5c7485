use std::collections::HashMap;

use tpch_engine::buffer_pool::{BufferPool, DiskRequest};
use tpch_engine::catalog::{CardinalityData, ColumnSpec, ColumnStat, DbContext, TableSpec};
use tpch_engine::data::{Data, DataType};
use tpch_engine::disk_run::rows_to_run_buffer;
use tpch_engine::engine::{CrossOp, EngineConfig, JoinOp, Operator, Step, TableScanner};
use tpch_engine::hash_join::JoinFilter;
use tpch_engine::executor::{budgets_for_query, memory_budgets, start_query};
use tpch_engine::planner::QueryProfile;
use tpch_engine::query::{ComparisionOperator, ComparisionValue, MultiPredicateBuilder, MultiProjectBuilder, MultiSortBuilder, QueryOp};
use tpch_engine::row::Row;

const BLOCK: usize = 128;

/// A disk held in memory: the table files from block 0 and a scratch
/// region further on.
struct MemDisk {
    blocks: HashMap<u64, Vec<u8>>,
    files: Vec<(String, u64, u64)>,
    anon_start: u64,
}

impl MemDisk {
    fn new() -> MemDisk {
        MemDisk { blocks: HashMap::new(), files: Vec::new(), anon_start: 1_000_000 }
    }

    fn add_file(&mut self, id: &str, bytes: &[u8]) {
        let start = self.files.iter().map(|f| f.1 + f.2 + 100).max().unwrap_or(0);
        let n = (bytes.len() / BLOCK) as u64;
        for k in 0..n {
            let s = (k as usize) * BLOCK;
            self.blocks.insert(start + k, bytes[s..s + BLOCK].to_vec());
        }
        self.files.push((id.to_string(), start, n));
    }

    fn serve(&mut self, pool: &mut BufferPool) {
        for (start, bytes) in pool.take_writes() {
            for (k, chunk) in bytes.chunks(BLOCK).enumerate() {
                self.blocks.insert(start + k as u64, chunk.to_vec());
            }
        }
        match pool.take_request() {
            Some(DiskRequest::AnonStartBlock) => pool.provide_anon_start(self.anon_start),
            Some(DiskRequest::FileStartBlock(id)) => {
                let f = self.files.iter().find(|f| f.0 == id).expect("unknown file");
                let s = f.1;
                pool.provide_file_start(id, s);
            }
            Some(DiskRequest::FileNumBlocks(id)) => {
                let f = self.files.iter().find(|f| f.0 == id).expect("unknown file");
                let n = f.2;
                pool.provide_file_num_blocks(id, n);
            }
            Some(DiskRequest::ReadBlocks { start, count }) => {
                let mut data = Vec::new();
                for k in 0..count {
                    match self.blocks.get(&(start + k)) {
                        Some(b) => data.extend_from_slice(b),
                        None => data.extend(std::iter::repeat(0u8).take(BLOCK)),
                    }
                }
                pool.provide_blocks(start, count, data);
            }
            None => {}
        }
    }
}

fn int_row(vals: &[i32]) -> Row {
    Row { values: vals.iter().map(|v| Data::Int32(*v)).collect() }
}

fn col(name: &str, t: DataType, stats: Option<Vec<ColumnStat>>) -> ColumnSpec {
    ColumnSpec { column_name: name.to_string(), data_type: t, stats }
}

fn as_ints(row: &Row) -> Vec<i64> {
    row.values
        .iter()
        .map(|d| match d {
            Data::Int32(v) => *v as i64,
            Data::Int64(v) => *v,
            other => panic!("not an integer: {:?}", other),
        })
        .collect()
}

/// Table `t` (a, b): a = 0..n, b = (a * 7) % 10.  Table `u` (k, w): k =
/// 0..m step 2, w = k * 100.
fn setup(n: i32, m: i32) -> (MemDisk, DbContext) {
    let mut disk = MemDisk::new();
    let t_rows: Vec<Row> = (0..n).map(|a| int_row(&[a, (a * 7) % 10])).collect();
    let u_rows: Vec<Row> = (0..m).filter(|k| k % 2 == 0).map(|k| int_row(&[k, k * 100])).collect();
    disk.add_file("t", &rows_to_run_buffer(&t_rows, BLOCK));
    disk.add_file("u", &rows_to_run_buffer(&u_rows, BLOCK));
    let t = TableSpec {
        name: "t".to_string(),
        file_id: "t".to_string(),
        column_specs: vec![
            col("a", DataType::Int32, Some(vec![ColumnStat::CardinalityStat(CardinalityData(n as u64))])),
            col("b", DataType::Int32, Some(vec![ColumnStat::CardinalityStat(CardinalityData(10))])),
        ],
    };
    let u = TableSpec {
        name: "u".to_string(),
        file_id: "u".to_string(),
        column_specs: vec![
            col("k", DataType::Int32, Some(vec![ColumnStat::CardinalityStat(CardinalityData((m / 2) as u64))])),
            col("w", DataType::Int32, None),
        ],
    };
    (disk, DbContext::from(vec![t, u]).unwrap())
}

fn run(query: &QueryOp, ctx: &DbContext, disk: &mut MemDisk, cfg: EngineConfig) -> Vec<Vec<i64>> {
    let mut pool = BufferPool::new(cfg.num_frames, cfg.block_size);
    let mut run = start_query(query, ctx, &cfg).expect("plan");
    let mut out = Vec::new();
    let mut guard = 0u64;
    loop {
        guard += 1;
        assert!(guard < 5_000_000, "query does not finish");
        match run.step(&mut pool) {
            Step::Row(r) => out.push(as_ints(&r)),
            Step::Done => break,
            Step::Blocked => disk.serve(&mut pool),
            Step::Pending => {}
            Step::Failed(e) => panic!("query failed: {:?}", e),
        }
        disk.serve(&mut pool);
    }
    out
}

/// Columns that only a projection keeps: the planner reads just the
/// columns a query names.
fn ab() -> MultiProjectBuilder {
    MultiProjectBuilder::new("a", "a").add("b", "b")
}

fn abkw() -> MultiProjectBuilder {
    MultiProjectBuilder::new("a", "a").add("b", "b").add("k", "k").add("w", "w")
}

fn roomy() -> EngineConfig {
    EngineConfig { sort_memory_bytes: 1 << 20, hash_join_budget: 1 << 20, num_frames: 64, block_size: BLOCK }
}

fn tight() -> EngineConfig {
    EngineConfig { sort_memory_bytes: 200, hash_join_budget: 200, num_frames: 8, block_size: BLOCK }
}

#[test]
fn scan_returns_every_row_in_file_order() {
    let (mut disk, ctx) = setup(50, 10);
    let rows = run(&QueryOp::scan("t"), &ctx, &mut disk, roomy());
    let expected: Vec<Vec<i64>> = (0..50).map(|a| vec![a as i64, ((a * 7) % 10) as i64]).collect();
    assert_eq!(rows, expected);
}

#[test]
fn filter_keeps_matching_rows() {
    let (mut disk, ctx) = setup(50, 10);
    let q = QueryOp::scan("t").filter("b", ComparisionOperator::EQ, ComparisionValue::I32(3)).project_multiple(ab());
    let rows = run(&q, &ctx, &mut disk, roomy());
    let expected: Vec<Vec<i64>> = (0..50).filter(|a| (a * 7) % 10 == 3).map(|a| vec![a as i64, 3]).collect();
    assert_eq!(rows, expected);
}

#[test]
fn range_filter_on_two_bounds() {
    let (mut disk, ctx) = setup(50, 10);
    let q = QueryOp::scan("t").filter_multiple(
        MultiPredicateBuilder::new("a", ComparisionOperator::GTE, ComparisionValue::I32(10))
            .add("a", ComparisionOperator::LT, ComparisionValue::I32(13)),
    ).project_multiple(ab());
    let rows = run(&q, &ctx, &mut disk, roomy());
    assert_eq!(rows, vec![vec![10, 0], vec![11, 7], vec![12, 4]]);
}

#[test]
fn project_renames_and_reorders() {
    let (mut disk, ctx) = setup(5, 10);
    let q = QueryOp::scan("t").project_multiple(MultiProjectBuilder::new("b", "x").add("a", "y"));
    let rows = run(&q, &ctx, &mut disk, roomy());
    assert_eq!(rows, vec![vec![0, 0], vec![7, 1], vec![4, 2], vec![1, 3], vec![8, 4]]);
}

fn sorted_expected(n: i32) -> Vec<Vec<i64>> {
    let mut v: Vec<Vec<i64>> = (0..n).map(|a| vec![a as i64, ((a * 7) % 10) as i64]).collect();
    // by b descending, then a ascending
    v.sort_by(|x, y| y[1].cmp(&x[1]).then(x[0].cmp(&y[0])));
    v
}

#[test]
fn sort_in_memory_orders_by_keys() {
    let (mut disk, ctx) = setup(60, 10);
    let q = QueryOp::scan("t").sort_multiple(MultiSortBuilder::new("b", false).add("a", true)).project_multiple(ab());
    assert_eq!(run(&q, &ctx, &mut disk, roomy()), sorted_expected(60));
}

#[test]
fn sort_spilling_to_disk_gives_the_same_order() {
    let (mut disk, ctx) = setup(300, 10);
    let q = QueryOp::scan("t").sort_multiple(MultiSortBuilder::new("b", false).add("a", true)).project_multiple(ab());
    assert_eq!(run(&q, &ctx, &mut disk, tight()), sorted_expected(300));
}

#[test]
fn sort_is_stable_for_equal_keys() {
    let (mut disk, ctx) = setup(40, 10);
    let q = QueryOp::scan("t").sort("b", true).project_multiple(ab());
    let rows = run(&q, &ctx, &mut disk, roomy());
    for w in rows.windows(2) {
        assert!(w[0][1] < w[1][1] || (w[0][1] == w[1][1] && w[0][0] < w[1][0]));
    }
    assert_eq!(rows.len(), 40);
}

fn join_expected(n: i32, m: i32) -> Vec<Vec<i64>> {
    let mut v = Vec::new();
    for a in 0..n {
        for k in (0..m).filter(|k| k % 2 == 0) {
            if a == k {
                v.push(vec![a as i64, ((a * 7) % 10) as i64, k as i64, (k * 100) as i64]);
            }
        }
    }
    v
}

fn sorted(mut v: Vec<Vec<i64>>) -> Vec<Vec<i64>> {
    v.sort();
    v
}

#[test]
fn equi_join_matches_equal_keys() {
    let (mut disk, ctx) = setup(30, 40);
    let q = QueryOp::scan("t")
        .cross(QueryOp::scan("u"))
        .filter("a", ComparisionOperator::EQ, ComparisionValue::Column("k".to_string()))
        .project_multiple(abkw());
    let rows = run(&q, &ctx, &mut disk, roomy());
    assert_eq!(sorted(rows), join_expected(30, 40));
}

#[test]
fn equi_join_with_little_memory_partitions_and_still_matches() {
    let (mut disk, ctx) = setup(120, 200);
    let q = QueryOp::scan("t")
        .cross(QueryOp::scan("u"))
        .filter("a", ComparisionOperator::EQ, ComparisionValue::Column("k".to_string()))
        .project_multiple(abkw());
    let rows = run(&q, &ctx, &mut disk, tight());
    assert_eq!(sorted(rows), join_expected(120, 200));
}

#[test]
fn cross_product_pairs_every_row() {
    let (mut disk, ctx) = setup(4, 6);
    let q = QueryOp::scan("t").cross(QueryOp::scan("u"));
    let rows = run(&q, &ctx, &mut disk, roomy());
    let mut expected = Vec::new();
    for a in 0..4 {
        for k in [0, 2, 4] {
            expected.push(vec![a as i64, ((a * 7) % 10) as i64, k as i64, (k * 100) as i64]);
        }
    }
    assert_eq!(sorted(rows), sorted(expected));
}

#[test]
fn cross_product_keeps_the_right_row_that_overflows_memory() {
    // 44000 right rows of about 96 estimated bytes pass the 4 MiB budget:
    // the rows held so far and every later row, the first among them,
    // go to disk
    let (mut disk, ctx) = setup(1, 88000);
    let q = QueryOp::scan("t").cross(QueryOp::scan("u"));
    let rows = run(&q, &ctx, &mut disk, roomy());
    assert_eq!(rows.len(), 44000);
    let keys: Vec<i64> = sorted(rows).into_iter().map(|r| r[2]).collect();
    let expected: Vec<i64> = (0..44000).map(|i| (2 * i) as i64).collect();
    assert_eq!(keys, expected);
}

#[test]
fn unprojected_filter_keeps_only_named_columns() {
    let (mut disk, ctx) = setup(20, 10);
    let q = QueryOp::scan("t").filter("b", ComparisionOperator::EQ, ComparisionValue::I32(3));
    assert_eq!(run(&q, &ctx, &mut disk, roomy()), vec![vec![3], vec![3]]);
}

#[test]
fn unknown_table_is_refused() {
    let (_disk, ctx) = setup(4, 6);
    let r = start_query(&QueryOp::scan("nope"), &ctx, &roomy());
    assert!(matches!(r, Err(tpch_engine::plan::PlanError::TableNotFound)));
}

#[test]
fn unknown_column_is_refused() {
    let (_disk, ctx) = setup(4, 6);
    let q = QueryOp::scan("t").filter("zz", ComparisionOperator::EQ, ComparisionValue::I32(1));
    let r = start_query(&q, &ctx, &roomy());
    assert!(matches!(r, Err(tpch_engine::plan::PlanError::ColumnNotFound)));
}

#[test]
fn budgets_follow_the_shares_of_a_small_limit() {
    let b = memory_budgets(64, 4096, QueryProfile { has_cross: false, has_sort: false });
    // pool: 16% of 64 MiB is 10737418 bytes, 2621 blocks of 4096 bytes.
    assert_eq!(b.num_frames, 2621);
    // sort: 12% of 64 MiB.
    assert_eq!(b.sort_memory_bytes, 64 * 1048576 * 12 / 100);
    // hash joins: what is left after 14 MiB overhead, capped at 18 MiB.
    assert_eq!(b.hash_join_budget, 18 * 1048576);
}

#[test]
fn budgets_for_a_sorting_query_with_a_large_limit() {
    let q = QueryOp::scan("t").sort("a", true);
    let b = budgets_for_query(&q, 1024, 4096);
    assert_eq!(b.num_frames, 4096);
    assert_eq!(b.sort_memory_bytes, 1024 * 1048576 * 46 / 100);
    assert_eq!(b.hash_join_budget, 20 * 1048576);
}

#[test]
fn budgets_never_drop_below_the_floors() {
    let b = memory_budgets(1, 4096, QueryProfile { has_cross: true, has_sort: true });
    assert_eq!(b.num_frames, 64);
    assert_eq!(b.sort_memory_bytes, 1048576 * 32 / 100);
    assert_eq!(b.hash_join_budget, 4 * 1048576);
}

// ─── Operators built by hand ─────────────────────────────────────────────

fn scan_all(ctx: &DbContext, table: usize) -> Operator {
    let t = &ctx.get_table_specs()[table];
    let needed: Vec<usize> = (0..t.column_specs.len()).collect();
    Operator::scan(TableScanner::new(t, &needed, &Vec::new(), &None))
}

fn drain(mut op: Operator, pool: &mut BufferPool, disk: &mut MemDisk) -> Vec<Vec<i64>> {
    let mut slots: Vec<Option<JoinFilter>> = Vec::new();
    let mut out = Vec::new();
    let mut guard = 0u64;
    loop {
        guard += 1;
        assert!(guard < 5_000_000, "operator does not finish");
        match op.step(pool, &mut slots) {
            Step::Row(r) => out.push(as_ints(&r)),
            Step::Done => break,
            Step::Failed(e) => panic!("operator failed: {:?}", e),
            _ => {}
        }
        disk.serve(pool);
    }
    out
}

#[test]
fn nested_loop_join_pairs_rows_with_equal_keys_in_left_order() {
    let (mut disk, ctx) = setup(30, 20);
    let mut pool = BufferPool::new(64, BLOCK);
    let op = JoinOp::new(scan_all(&ctx, 0), scan_all(&ctx, 1), 0, 0, &pool);
    let got = drain(op, &mut pool, &mut disk);
    let expected: Vec<Vec<i64>> = (0..20)
        .filter(|a| a % 2 == 0)
        .map(|a| vec![a as i64, ((a * 7) % 10) as i64, a as i64, (a * 100) as i64])
        .collect();
    assert_eq!(got, expected);
}

#[test]
fn nested_loop_join_on_a_column_with_repeated_values() {
    // t.b = (a * 7) % 10 takes each value 0..10 three times for 30 rows
    let (mut disk, ctx) = setup(30, 20);
    let mut pool = BufferPool::new(64, BLOCK);
    let op = JoinOp::new(scan_all(&ctx, 0), scan_all(&ctx, 1), 1, 0, &pool);
    let got = drain(op, &mut pool, &mut disk);
    let mut expected = Vec::new();
    for a in 0..30i64 {
        let b = (a * 7) % 10;
        if b % 2 == 0 {
            expected.push(vec![a, b, b, b * 100]);
        }
    }
    assert_eq!(got, expected);
}

#[test]
fn nested_loop_join_of_nothing_is_empty() {
    let (mut disk, ctx) = setup(0, 20);
    let mut pool = BufferPool::new(64, BLOCK);
    let op = JoinOp::new(scan_all(&ctx, 0), scan_all(&ctx, 1), 0, 0, &pool);
    assert!(drain(op, &mut pool, &mut disk).is_empty());
}

#[test]
fn cross_product_built_by_hand_pairs_every_row() {
    let (mut disk, ctx) = setup(3, 4);
    let mut pool = BufferPool::new(64, BLOCK);
    let op = CrossOp::new(scan_all(&ctx, 0), scan_all(&ctx, 1), 1 << 20, BLOCK);
    let got = drain(op, &mut pool, &mut disk);
    let mut expected = Vec::new();
    for a in 0..3i64 {
        for k in [0i64, 2] {
            expected.push(vec![a, (a * 7) % 10, k, k * 100]);
        }
    }
    assert_eq!(got, expected);
}

#[test]
fn nested_loop_join_spills_a_large_right_input_and_still_matches() {
    // 50 000 right rows exceed the 4 MiB floor of the right side's budget
    let (mut disk, ctx) = setup(40, 100_000);
    let mut pool = BufferPool::new(64, BLOCK);
    let op = JoinOp::new(scan_all(&ctx, 0), scan_all(&ctx, 1), 0, 0, &pool);
    let got = drain(op, &mut pool, &mut disk);
    let expected: Vec<Vec<i64>> = (0..40)
        .filter(|a| a % 2 == 0)
        .map(|a| vec![a as i64, ((a * 7) % 10) as i64, a as i64, (a * 100) as i64])
        .collect();
    assert_eq!(got, expected);
}

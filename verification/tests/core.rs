use tpch_engine::buffer_pool::{BufferPool, DiskRequest, EvictionPolicy};
use tpch_engine::bytes::{push_le, read_le};
use tpch_engine::catalog::{
    can_use_ordered_merge_join, get_column_density, get_column_distinct_count, is_physically_ordered_column,
    CardinalityData, ColumnSpec, ColumnStat, DbContext, Density, TableSpec,
};
use tpch_engine::data::{
    compare_bytes, compare_i64, data_eq, data_key_compare, data_partial_compare, f32_total_order, f64_total_order,
    Comparison, Data, DataType,
};
use tpch_engine::disk_run::{encoded_row_size, rows_to_blocks, rows_to_run_buffer, Run};
use tpch_engine::engine::estimate_row_size;
use tpch_engine::hash_join::{fnv1a64, hash_data, mix64, JoinFilter};
use tpch_engine::plan::{ordering_satisfies, remap_ordering_for_project, sort_specs_to_ordering};
use tpch_engine::planner::{get_all_used_columns, profile_query};
use tpch_engine::predicate::{compare_op, compile_predicate, evaluate_predicate, row_passes};
use tpch_engine::query::{
    ComparisionOperator, ComparisionValue, MultiPredicateBuilder, MultiProjectBuilder, MultiSortBuilder, Predicate,
    QueryOp, SortSpec,
};
use tpch_engine::runs::{spill_rows, Fetch, RunReader};
use tpch_engine::row::{build_needed_mask, count_needed_columns, decode_block, decode_row, encode_row, Row};
use tpch_engine::sort::{compare_rows, sort_rows, SortKey};
use tpch_engine::stats::{data_hash, HyperLogLog, StatsConfig, StatsGenerator};

fn ints(v: &[i32]) -> Row {
    Row { values: v.iter().map(|x| Data::Int32(*x)).collect() }
}

fn show(d: &Data) -> String {
    format!("{:?}", d)
}

fn show_row(r: &Row) -> String {
    r.values.iter().map(show).collect::<Vec<_>>().join(",")
}

// ─── Values ──────────────────────────────────────────────────────────────

#[test]
fn integers_and_bytes_compare_naturally() {
    assert_eq!(compare_i64(-3, 2), Comparison::Less);
    assert_eq!(compare_i64(5, 5), Comparison::Equal);
    assert_eq!(compare_bytes(&b"abc".to_vec(), &b"abd".to_vec()), Comparison::Less);
    assert_eq!(compare_bytes(&b"ab".to_vec(), &b"abc".to_vec()), Comparison::Less);
    assert_eq!(compare_bytes(&b"b".to_vec(), &b"abc".to_vec()), Comparison::Greater);
}

#[test]
fn floats_order_like_total_cmp() {
    let vals = [-1.5f64, -0.0, 0.0, 1e-300, 2.5, f64::INFINITY, f64::NAN, -f64::NAN];
    for a in vals {
        for b in vals {
            let expected = match a.total_cmp(&b) {
                std::cmp::Ordering::Less => Comparison::Less,
                std::cmp::Ordering::Equal => Comparison::Equal,
                std::cmp::Ordering::Greater => Comparison::Greater,
            };
            assert_eq!(f64_total_order(a.to_bits(), b.to_bits()), expected, "{} {}", a, b);
            let (x, y) = (a as f32, b as f32);
            let e32 = match x.total_cmp(&y) {
                std::cmp::Ordering::Less => Comparison::Less,
                std::cmp::Ordering::Equal => Comparison::Equal,
                std::cmp::Ordering::Greater => Comparison::Greater,
            };
            assert_eq!(f32_total_order(x.to_bits(), y.to_bits()), e32);
        }
    }
}

#[test]
fn partial_comparison_of_values() {
    let f = |x: f64| Data::Float64(x.to_bits());
    assert_eq!(data_partial_compare(&f(1.0), &f(2.0)), Some(Comparison::Less));
    assert_eq!(data_partial_compare(&f(-0.0), &f(0.0)), Some(Comparison::Equal));
    assert_eq!(data_partial_compare(&f(f64::NAN), &f(0.0)), None);
    assert_eq!(data_partial_compare(&Data::Int32(1), &Data::Int64(1)), None);
    assert!(data_eq(&f(-0.0), &f(0.0)));
    assert!(!data_eq(&f(f64::NAN), &f(f64::NAN)));
    assert_eq!(data_key_compare(DataType::Float64, &f(-0.0), &f(0.0)), Comparison::Less);
}

#[test]
fn little_endian_numbers_round_trip() {
    let mut out = Vec::new();
    push_le(&mut out, 0x0102_0304, 4);
    push_le(&mut out, u64::MAX, 8);
    assert_eq!(&out[..4], &[4, 3, 2, 1]);
    assert_eq!(read_le(&out, 0, 4), 0x0102_0304);
    assert_eq!(read_le(&out, 4, 8), u64::MAX);
}

// ─── Rows and blocks ─────────────────────────────────────────────────────

fn mixed_row() -> Row {
    Row {
        values: vec![
            Data::Int32(-7),
            Data::Int64(1 << 40),
            Data::Float32(1.5f32.to_bits()),
            Data::Float64((-2.25f64).to_bits()),
            Data::String(b"hello".to_vec()),
        ],
    }
}

fn mixed_types() -> Vec<DataType> {
    vec![DataType::Int32, DataType::Int64, DataType::Float32, DataType::Float64, DataType::String]
}

#[test]
fn a_row_decodes_to_what_was_encoded() {
    let row = mixed_row();
    let bytes = encode_row(&row);
    assert_eq!(bytes.len(), 4 + 8 + 4 + 8 + 6);
    assert_eq!(encoded_row_size(&row), bytes.len());
    let (back, used) = decode_row(&bytes, &mixed_types(), &[0, 1, 2, 3, 4]);
    assert_eq!(used, bytes.len());
    assert_eq!(show_row(&back), show_row(&row));
}

#[test]
fn decoding_keeps_only_needed_columns() {
    let bytes = encode_row(&mixed_row());
    let (back, used) = decode_row(&bytes, &mixed_types(), &[1, 4]);
    assert_eq!(used, bytes.len());
    assert_eq!(show_row(&back), "Int64(1099511627776),String([104, 101, 108, 108, 111])");
}

#[test]
fn needed_masks() {
    let mask = build_needed_mask(5, &[4, 1, 9]);
    assert_eq!(mask, vec![false, true, false, false, true]);
    assert_eq!(count_needed_columns(&mask), 2);
}

#[test]
fn blocks_hold_rows_and_their_count() {
    let rows: Vec<Row> = (0..10).map(|i| ints(&[i, i + 1])).collect();
    let blocks = rows_to_blocks(&rows, 32);
    // 8-byte rows, 30 usable bytes: three rows a block
    assert_eq!(blocks.len(), 4);
    let mut all = Vec::new();
    for b in &blocks {
        assert_eq!(b.len(), 32);
        all.extend(decode_block(b, &[DataType::Int32, DataType::Int32], &[0, 1]));
    }
    let joined: Vec<u8> = blocks.concat();
    assert_eq!(joined, rows_to_run_buffer(&rows, 32));
    assert_eq!(all.iter().map(show_row).collect::<Vec<_>>(), rows.iter().map(show_row).collect::<Vec<_>>());
    assert_eq!(&blocks[3][30..32], &[1, 0]);
}

// ─── Hashing and the join filter ─────────────────────────────────────────

fn splitmix(mut z: u64) -> u64 {
    z = (z ^ (z >> 30)).wrapping_mul(0xbf58476d1ce4e5b9);
    z = (z ^ (z >> 27)).wrapping_mul(0x94d049bb133111eb);
    z ^ (z >> 31)
}

#[test]
fn hashes_have_their_exact_values() {
    assert_eq!(mix64(0), 0);
    assert_eq!(mix64(1), splitmix(1));
    assert_eq!(fnv1a64(&Vec::new()), 0xcbf29ce484222325);
    assert_eq!(fnv1a64(&b"a".to_vec()), 0xaf63dc4c8601ec8c);
    assert_eq!(hash_data(&Data::Int32(5)), splitmix(5 ^ 0x1111_1111_1111_1111));
    assert_eq!(hash_data(&Data::Int32(-1)), splitmix(0xffff_ffff ^ 0x1111_1111_1111_1111));
    assert_eq!(hash_data(&Data::String(b"a".to_vec())), splitmix(0xaf63dc4c8601ec8c ^ 0x5555_5555_5555_5555));
}

#[test]
fn the_join_filter_has_no_false_negatives() {
    let mut f = JoinFilter::new(1024);
    for k in 0..200u64 {
        f.insert_hash(splitmix(k));
    }
    for k in 0..200u64 {
        assert!(f.might_contain_hash(splitmix(k)));
    }
    let misses = (1000..3000u64).filter(|k| !f.might_contain_hash(splitmix(*k))).count();
    assert!(misses > 0);
    assert!(!JoinFilter::new(64).might_contain_hash(12345));
}

// ─── Sorting ─────────────────────────────────────────────────────────────

#[test]
fn rows_sort_stably_by_keys() {
    let mut rows: Vec<Row> = vec![ints(&[3, 1]), ints(&[1, 2]), ints(&[3, 3]), ints(&[2, 4]), ints(&[1, 5])];
    let keys = vec![SortKey { col_idx: 0, ascending: false, data_type: DataType::Int32 }];
    sort_rows(&mut rows, &keys);
    assert_eq!(
        rows.iter().map(show_row).collect::<Vec<_>>(),
        vec!["Int32(3),Int32(1)", "Int32(3),Int32(3)", "Int32(2),Int32(4)", "Int32(1),Int32(2)", "Int32(1),Int32(5)"]
    );
    assert_eq!(compare_rows(&ints(&[1, 9]), &ints(&[2, 0]), &keys), Comparison::Greater);
}

// ─── Predicates ──────────────────────────────────────────────────────────

#[test]
fn predicates_compare_columns_and_literals() {
    assert!(compare_op(ComparisionOperator::GTE, &Data::Int32(3), &Data::Int32(3)));
    assert!(compare_op(ComparisionOperator::NE, &Data::Int32(3), &Data::Int32(4)));
    assert!(!compare_op(ComparisionOperator::LT, &Data::Int32(3), &Data::Int64(4)));
    let schema = vec!["a".to_string(), "b".to_string()];
    let p = Predicate {
        column_name: "a".to_string(),
        operator: ComparisionOperator::LT,
        value: ComparisionValue::Column("b".to_string()),
    };
    let c = compile_predicate(&p, &schema).unwrap();
    assert!(evaluate_predicate(&c, &ints(&[1, 2])));
    assert!(!evaluate_predicate(&c, &ints(&[2, 2])));
    let q = Predicate {
        column_name: "b".to_string(),
        operator: ComparisionOperator::EQ,
        value: ComparisionValue::I32(2),
    };
    let both = vec![c, compile_predicate(&q, &schema).unwrap()];
    assert!(row_passes(&both, &ints(&[1, 2])));
    assert!(!row_passes(&both, &ints(&[1, 3])));
    let missing = Predicate { column_name: "z".to_string(), operator: ComparisionOperator::EQ, value: ComparisionValue::I32(1) };
    assert!(compile_predicate(&missing, &schema).is_none());
}

// ─── Catalog and planning helpers ────────────────────────────────────────

fn catalog() -> DbContext {
    DbContext::from(vec![TableSpec {
        name: "t".to_string(),
        file_id: "t".to_string(),
        column_specs: vec![
            ColumnSpec {
                column_name: "a".to_string(),
                data_type: DataType::Int32,
                stats: Some(vec![
                    ColumnStat::IsPhysicallyOrdered,
                    ColumnStat::CardinalityStat(CardinalityData(100)),
                    ColumnStat::DensityStat(Density(0.5f32.to_bits())),
                ]),
            },
            ColumnSpec { column_name: "b".to_string(), data_type: DataType::Int32, stats: None },
        ],
    }])
    .unwrap()
}

#[test]
fn column_statistics_are_found_by_name() {
    let ctx = catalog();
    assert_eq!(get_column_distinct_count(&"a".to_string(), &ctx), Some(100));
    assert_eq!(get_column_distinct_count(&"t.a".to_string(), &ctx), Some(100));
    assert_eq!(get_column_distinct_count(&"b".to_string(), &ctx), None);
    assert_eq!(get_column_density(&"a".to_string(), &ctx), Some(0.5f32.to_bits()));
    assert!(is_physically_ordered_column(&"a".to_string(), &ctx));
    assert!(!is_physically_ordered_column(&"b".to_string(), &ctx));
    assert!(!can_use_ordered_merge_join(&"a".to_string(), &"b".to_string(), &ctx));
}

#[test]
fn orderings_and_projections() {
    let specs = vec![
        SortSpec { column_name: "a".to_string(), ascending: true },
        SortSpec { column_name: "b".to_string(), ascending: false },
    ];
    let ord = sort_specs_to_ordering(&specs);
    assert_eq!(ord, vec![("a".to_string(), true), ("b".to_string(), false)]);
    assert!(ordering_satisfies(Some(&ord), &specs[..1].iter().map(|s| SortSpec { column_name: s.column_name.clone(), ascending: s.ascending }).collect()));
    assert!(!ordering_satisfies(None, &specs));
    let map = vec![("a".to_string(), "x".to_string())];
    assert_eq!(remap_ordering_for_project(Some(&ord), &map), Some(vec![("x".to_string(), true)]));
}

#[test]
fn used_columns_and_profiles() {
    let q = QueryOp::scan("t")
        .filter_multiple(MultiPredicateBuilder::new("a", ComparisionOperator::EQ, ComparisionValue::Column("c".to_string())))
        .sort_multiple(MultiSortBuilder::new("d", true))
        .project_multiple(MultiProjectBuilder::new("e", "f"));
    let mut used = get_all_used_columns(&q);
    used.sort();
    assert_eq!(used, vec!["a", "c", "d", "e"]);
    let p = profile_query(&q);
    assert!(p.has_sort && !p.has_cross);
    assert!(profile_query(&QueryOp::scan("a").cross(QueryOp::scan("b"))).has_cross);
}

#[test]
fn row_memory_estimate() {
    assert_eq!(estimate_row_size(&vec![DataType::Int32, DataType::String]), 24 + 36 + 106);
}

// ─── The buffer pool ─────────────────────────────────────────────────────

#[test]
fn the_pool_asks_the_disk_then_caches() {
    let mut pool = BufferPool::new(2, 4);
    assert!(pool.fetch_block(7).is_none());
    assert!(matches!(pool.take_request(), Some(DiskRequest::ReadBlocks { start: 7, count: 1 })));
    pool.provide_blocks(7, 1, vec![1, 2, 3, 4]);
    assert_eq!(pool.fetch_block(7), Some(vec![1, 2, 3, 4]));
    pool.unpin(7);
    // a second fetch is served from the cache
    assert_eq!(pool.fetch_block(7), Some(vec![1, 2, 3, 4]));
    assert!(pool.take_request().is_none());
    assert_eq!(pool.get_eviction_policy(), EvictionPolicy::LRU);
    assert_eq!(pool.num_frames(), 2);
    assert_eq!(pool.block_size(), 4);
}

#[test]
fn scratch_blocks_are_handed_out_in_order_and_recycled() {
    let mut pool = BufferPool::new(2, 4);
    assert!(pool.allocate_anon_blocks(3).is_none());
    assert!(matches!(pool.take_request(), Some(DiskRequest::AnonStartBlock)));
    pool.provide_anon_start(100);
    assert_eq!(pool.allocate_anon_blocks(3), Some(100));
    assert_eq!(pool.allocate_anon_blocks(1), Some(103));
    let ids = pool.write_run_blocks(&[vec![0u8; 4], vec![1u8; 4]]).unwrap();
    assert_eq!(ids, vec![104, 105]);
    let writes = pool.take_writes();
    assert_eq!(writes.len(), 1);
    assert_eq!(writes[0], (104, vec![0, 0, 0, 0, 1, 1, 1, 1]));
}

#[test]
fn single_block_writes_are_queued() {
    let mut pool = BufferPool::new(1, 2);
    pool.write_block(9, &[5, 6]);
    assert_eq!(pool.take_writes(), vec![(9, vec![5, 6])]);
}

fn load(pool: &mut BufferPool, id: u64, byte: u8) {
    assert!(pool.fetch_block(id).is_none());
    assert!(matches!(pool.take_request(), Some(DiskRequest::ReadBlocks { start, count: 1 }) if start == id));
    pool.provide_blocks(id, 1, vec![byte; 4]);
    assert_eq!(pool.fetch_block(id), Some(vec![byte; 4]));
    pool.unpin(id);
}

fn is_cached(pool: &mut BufferPool, id: u64) -> bool {
    match pool.fetch_block(id) {
        Some(_) => {
            pool.unpin(id);
            true
        }
        None => {
            pool.take_request();
            false
        }
    }
}

#[test]
fn lru_evicts_the_least_recently_loaded_block() {
    let mut pool = BufferPool::new(2, 4);
    load(&mut pool, 1, 1);
    load(&mut pool, 2, 2);
    load(&mut pool, 3, 3);
    assert!(is_cached(&mut pool, 2));
    assert!(is_cached(&mut pool, 3));
    assert!(!is_cached(&mut pool, 1));
}

#[test]
fn lru_skips_the_stale_entry_of_a_block_used_again() {
    // a hit puts the frame at the front and leaves its older entry behind;
    // eviction skips that stale entry, so the block used again stays
    let mut pool = BufferPool::new(2, 4);
    load(&mut pool, 1, 1);
    load(&mut pool, 2, 2);
    assert!(is_cached(&mut pool, 1));
    load(&mut pool, 3, 3);
    assert!(is_cached(&mut pool, 1));
    assert!(is_cached(&mut pool, 3));
    assert!(!is_cached(&mut pool, 2));
}

#[test]
fn a_free_frame_is_used_before_any_eviction() {
    let mut pool = BufferPool::new(3, 4);
    load(&mut pool, 1, 1);
    load(&mut pool, 2, 2);
    assert!(pool.take_writes().is_empty());
    load(&mut pool, 3, 3);
    assert!(is_cached(&mut pool, 1));
    assert!(is_cached(&mut pool, 2));
    assert!(is_cached(&mut pool, 3));
}

#[test]
fn write_run_blocks_reuses_freed_ids_before_fresh_ones() {
    let mut pool = BufferPool::new(2, 2);
    pool.provide_anon_start(100);
    assert_eq!(pool.allocate_anon_blocks(3), Some(100));
    pool.free_run(&Run { block_ids: vec![7, 8], num_rows: 2 });
    let ids = pool.write_run_blocks(&[vec![1, 1], vec![2, 2], vec![3, 3]]).unwrap();
    assert_eq!(ids, vec![8, 7, 103]);
    assert_eq!(pool.take_writes(), vec![(8, vec![1, 1]), (7, vec![2, 2]), (103, vec![3, 3])]);
    // with enough freed ids no fresh range is touched
    pool.free_run(&Run { block_ids: vec![5, 6, 9], num_rows: 3 });
    let ids = pool.write_run_blocks(&[vec![4, 4], vec![5, 5]]).unwrap();
    assert_eq!(ids, vec![9, 6]);
    assert_eq!(pool.allocate_anon_blocks(1), Some(5));
    assert_eq!(pool.allocate_anon_blocks(1), Some(104));
}

#[test]
fn write_run_blocks_waits_for_the_scratch_start_without_taking_freed_ids() {
    let mut pool = BufferPool::new(2, 2);
    pool.free_run(&Run { block_ids: vec![7], num_rows: 1 });
    assert!(pool.write_run_blocks(&[vec![1, 1], vec![2, 2]]).is_none());
    assert!(matches!(pool.take_request(), Some(DiskRequest::AnonStartBlock)));
    assert!(pool.take_writes().is_empty());
    pool.provide_anon_start(50);
    assert_eq!(pool.write_run_blocks(&[vec![1, 1], vec![2, 2]]), Some(vec![7, 50]));
}

#[test]
fn write_block_takes_several_whole_blocks() {
    let mut pool = BufferPool::new(1, 2);
    pool.write_block(4, &[1, 2, 3, 4]);
    assert_eq!(pool.take_writes(), vec![(4, vec![1, 2, 3, 4])]);
}

#[test]
fn mru_evicts_the_most_recently_used_block() {
    let mut pool = BufferPool::new(2, 4);
    pool.set_eviction_policy(EvictionPolicy::MRU);
    load(&mut pool, 1, 1);
    load(&mut pool, 2, 2);
    load(&mut pool, 3, 3);
    assert!(is_cached(&mut pool, 1));
    assert!(!is_cached(&mut pool, 2));
}

#[test]
fn clock_clears_reference_bits_before_evicting() {
    let mut pool = BufferPool::new(2, 4);
    pool.set_eviction_policy(EvictionPolicy::CLOCK);
    load(&mut pool, 1, 1);
    load(&mut pool, 2, 2);
    load(&mut pool, 3, 3);
    // both frames were referenced: one sweep clears them, the hand then
    // stops at the first frame
    assert!(is_cached(&mut pool, 2));
    assert!(is_cached(&mut pool, 3));
    assert!(!is_cached(&mut pool, 1));
}

#[test]
fn pinned_blocks_are_not_evicted() {
    let mut pool = BufferPool::new(2, 4);
    load(&mut pool, 1, 1);
    assert!(is_cached(&mut pool, 1));
    assert_eq!(pool.fetch_block(1), Some(vec![1; 4]));
    load(&mut pool, 2, 2);
    load(&mut pool, 3, 3);
    assert!(is_cached(&mut pool, 1));
    assert!(!is_cached(&mut pool, 2));
}

#[test]
fn a_dirty_victim_is_written_back() {
    let mut pool = BufferPool::new(1, 4);
    load(&mut pool, 1, 7);
    pool.mark_dirty(1);
    assert!(pool.take_writes().is_empty());
    load(&mut pool, 2, 8);
    assert_eq!(pool.take_writes(), vec![(1, vec![7; 4])]);
    load(&mut pool, 3, 9);
    assert!(pool.take_writes().is_empty());
}

#[test]
fn the_first_report_of_a_file_wins() {
    let mut pool = BufferPool::new(2, 4);
    assert!(pool.get_file_start_block(&"t".to_string()).is_none());
    pool.provide_file_start("t".to_string(), 5);
    pool.provide_file_start("t".to_string(), 9);
    pool.provide_file_num_blocks("t".to_string(), 3);
    assert_eq!(pool.get_file_start_block(&"t".to_string()), Some(5));
    assert_eq!(pool.get_file_num_blocks(&"t".to_string()), Some(3));
    assert!(pool.get_file_num_blocks(&"u".to_string()).is_none());
    assert!(matches!(pool.take_request(), Some(DiskRequest::FileNumBlocks(id)) if id == "u"));
}

#[test]
fn a_file_answer_is_used_once() {
    let mut pool = BufferPool::new(2, 4);
    pool.provide_file_start("t".to_string(), 5);
    assert_eq!(pool.get_file_start_block(&"t".to_string()), Some(5));
    // the next call asks the disk again
    assert!(pool.get_file_start_block(&"t".to_string()).is_none());
    assert!(matches!(pool.take_request(), Some(DiskRequest::FileStartBlock(id)) if id == "t"));
    pool.provide_file_start("t".to_string(), 6);
    assert_eq!(pool.get_file_start_block(&"t".to_string()), Some(6));
}

#[test]
fn a_sequential_read_hands_back_the_disk_answer() {
    let mut pool = BufferPool::new(2, 4);
    assert!(pool.read_blocks_sequential(10, 2).is_none());
    pool.provide_blocks(10, 2, vec![1, 2, 3, 4, 5, 6, 7, 8]);
    // an answer for another read is not taken
    assert!(pool.read_blocks_sequential(11, 1).is_none());
    pool.provide_blocks(10, 2, vec![1, 2, 3, 4, 5, 6, 7, 8]);
    assert_eq!(pool.read_blocks_sequential(10, 2), Some(vec![1, 2, 3, 4, 5, 6, 7, 8]));
}

#[test]
fn spilled_rows_are_written_as_a_run_image() {
    let mut pool = BufferPool::new(2, 32);
    let rows: Vec<Row> = (0..10).map(|i| Row { values: vec![Data::Int32(i), Data::Int64(i as i64 * 3)] }).collect();
    assert!(spill_rows(&mut pool, &rows).is_none());
    assert!(matches!(pool.take_request(), Some(DiskRequest::AnonStartBlock)));
    pool.provide_anon_start(500);
    let run = spill_rows(&mut pool, &rows).expect("scratch blocks");
    assert_eq!(run.num_rows, 10);
    let image = rows_to_run_buffer(&rows, 32);
    assert_eq!(run.block_ids.len() * 32, image.len());
    let expected_ids: Vec<u64> = (0..run.block_ids.len() as u64).map(|k| 500 + k).collect();
    assert_eq!(run.block_ids, expected_ids);
    assert_eq!(pool.take_writes(), vec![(500, image)]);
}

// ─── Statistics ──────────────────────────────────────────────────────────

#[test]
fn default_statistics_configuration() {
    let c = StatsConfig::default();
    assert_eq!(c.reservoir_capacity, 10_000);
    assert_eq!(c.exact_limit, 10_000);
    assert_eq!(c.hll_p, 12);
    assert_eq!(c.max_histogram_buckets, 10);
    assert_eq!(c.max_string_unique_for_histogram, 50);
}

#[test]
fn gathering_tracks_bounds_order_and_distinct_values() {
    let mut g = StatsGenerator::new();
    for v in [5, 3, 9, 3, 7] {
        g.update(Data::Int32(v));
    }
    let p = g.into_parts();
    assert_eq!(p.total_count, 5);
    assert!(!p.is_physically_ordered);
    assert_eq!(show(p.lower_bound.as_ref().unwrap()), "Int32(3)");
    assert_eq!(show(p.upper_bound.as_ref().unwrap()), "Int32(9)");
    assert_eq!(p.reservoir.len(), 5);
    assert_eq!(p.exact_distinct.unwrap().len(), 4);
    assert!(p.approx_registers.is_none());
}

#[test]
fn many_distinct_values_switch_to_registers() {
    let config = StatsConfig { exact_limit: 3, reservoir_capacity: 2, ..StatsConfig::default() };
    let mut g = StatsGenerator::with_config(config);
    for v in 0..10 {
        g.update(Data::Int64(v));
    }
    let p = g.into_parts();
    assert!(p.exact_distinct.is_none());
    let regs = p.approx_registers.unwrap();
    assert_eq!(regs.len(), 4096);
    assert!(regs.iter().filter(|r| **r > 0).count() >= 1);
    assert_eq!(p.reservoir.len(), 2);
    assert!(p.is_physically_ordered);
}

#[test]
fn register_updates_keep_the_largest_rank() {
    let mut h = HyperLogLog::new(4);
    // top 4 bits 0b0011 pick register 3; the rest starts with two zeros
    let hash: u64 = (0b0011u64 << 60) | (1u64 << 57);
    h.add_hash(hash);
    assert_eq!(h.registers()[3], 3);
    h.add_hash(0b0011u64 << 60 | (1u64 << 59));
    assert_eq!(h.registers()[3], 3);
    assert_eq!(h.registers().iter().filter(|r| **r > 0).count(), 1);
    assert_eq!(data_hash(&Data::Int32(1)), data_hash(&Data::Int32(1)));
    assert_ne!(data_hash(&Data::Int32(1)), data_hash(&Data::Int64(1)));
}

#[test]
fn a_full_reservoir_takes_a_value_where_the_draw_falls() {
    let cfg = StatsConfig {
        reservoir_capacity: 2,
        exact_limit: 100,
        hll_p: 4,
        max_histogram_buckets: 10,
        max_string_unique_for_histogram: 50,
    };
    let mut g = StatsGenerator::with_config(cfg);
    g.update_with_draw(Data::Int32(1), 7);
    g.update_with_draw(Data::Int32(2), 7);
    g.update_with_draw(Data::Int32(3), 1);
    g.update_with_draw(Data::Int32(4), 2);
    // the sample is now [1, 3]; a random draw below 5 puts 5 in one of
    // the two places, or leaves the sample as it is
    g.update(Data::Int32(5));
    let p = g.into_parts();
    assert_eq!(p.total_count, 5);
    let sample: Vec<String> = p.reservoir.iter().map(show).collect();
    let allowed = [
        vec!["Int32(1)".to_string(), "Int32(3)".to_string()],
        vec!["Int32(5)".to_string(), "Int32(3)".to_string()],
        vec!["Int32(1)".to_string(), "Int32(5)".to_string()],
    ];
    assert!(allowed.contains(&sample), "{:?}", sample);
}

#[test]
fn a_run_reader_hands_back_the_rows_of_its_blocks_then_ends() {
    let rows: Vec<Row> = (0..7).map(|i| Row { values: vec![Data::Int32(i)] }).collect();
    let bs = 16;
    let raw = rows_to_run_buffer(&rows, bs);
    let n = raw.len() / bs;
    assert!(n > 1);
    let run = Run { block_ids: (10..10 + n as u64).collect(), num_rows: 7 };
    let mut pool = BufferPool::new(2, bs);
    let mut rd = RunReader::new(run, vec![DataType::Int32]);
    let mut out = Vec::new();
    let mut reads = 0;
    let mut guard = 0;
    loop {
        guard += 1;
        assert!(guard < 1000);
        match rd.next_owned(&mut pool) {
            Fetch::Row(r) => out.push(r),
            Fetch::End => break,
            Fetch::Pending => {}
            Fetch::Blocked => match pool.take_request() {
                Some(DiskRequest::ReadBlocks { start, count }) => {
                    reads += 1;
                    let s = ((start - 10) as usize) * bs;
                    pool.provide_blocks(start, count, raw[s..s + count as usize * bs].to_vec());
                }
                _ => panic!("unexpected request"),
            },
        }
    }
    // the consecutive IDs are read in one stretch
    assert_eq!(reads, 1);
    let got: Vec<i32> = out
        .iter()
        .map(|r| match r.values[0] {
            Data::Int32(v) => v,
            _ => panic!("not an i32"),
        })
        .collect();
    assert_eq!(got, vec![0, 1, 2, 3, 4, 5, 6]);
    // the end stays the end
    assert!(matches!(rd.next_owned(&mut pool), Fetch::End));
}

#[test]
fn can_fetch_says_whether_a_block_can_be_loaded() {
    let mut pool = BufferPool::new(1, 4);
    assert!(pool.can_fetch(5));
    assert!(pool.fetch_block(1).is_none());
    assert!(pool.take_request().is_some());
    pool.provide_blocks(1, 1, vec![1; 4]);
    assert_eq!(pool.fetch_block(1), Some(vec![1; 4]));
    // the only frame holds a pinned block
    assert!(pool.can_fetch(1));
    assert!(!pool.can_fetch(2));
    pool.unpin(1);
    assert!(pool.can_fetch(2));
}

#[test]
fn an_empty_raw_run_write_ignores_its_bytes() {
    let mut pool = BufferPool::new(1, 4);
    assert_eq!(pool.write_raw_run_blocks(&[1, 2, 3], 0), Some(vec![]));
    assert!(pool.take_writes().is_empty());
    assert!(pool.take_request().is_none());
}

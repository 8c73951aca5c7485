//! Running a query: the memory budgets, building the operators of a
//! plan, and stepping the root operator.
use vstd::prelude::*;
use crate::buffer_pool::BufferPool;
use crate::catalog::{DbContext, TableSpec};
use crate::data::{DataType, Value};
use crate::engine::{CrossOp, EngineConfig, HashJoinOp, SortMergeJoinOp, Operator, TableScanner, SortOp, Step, slots_wf, keys_fit_types};
use crate::hash_join::JoinFilter;
use crate::plan::{PlanNode, PlanError, scan_schema};
use crate::planner::{build_operator, profile_query, spec_profile, tables_known, filtered_table, filters_within, projection_within, sort_within, simply_plannable, table_columns, QueryProfile};
use crate::predicate::{compile_predicates, last_index_of, last_position_of, names_view, resolvable};
use crate::query::QueryOp;
use crate::runs::conforms;

verus! {

/// Builds the running operators of a well-formed plan; also returns the
/// names of its output columns.
pub fn instantiate(node: &PlanNode, ctx: &DbContext, cfg: &EngineConfig) -> (r: (Operator, Vec<String>))
    requires
        node.wf(ctx.tables()),
    ensures
        r.0.wf_all(),
        r.0.types() == node.types(ctx.tables()),
        names_view(r.1@) == node.schema(ctx.tables()),
    decreases node,
{
    let tables = ctx.get_table_specs();
    proof { node.lemma_types_len(ctx.tables()); }
    match node {
        PlanNode::Scan { table, needed, pushed, dynamic_filter } => {
            let t = &tables[*table];
            let op = TableScanner::new(t, needed, pushed, dynamic_filter);
            let mut schema: Vec<String> = Vec::with_capacity(needed.len());
            let mut i: usize = 0;
            while i < needed.len()
                invariant
                    i <= needed.len(),
                    forall|k: int| 0 <= k < needed@.len() ==> #[trigger] needed@[k] < t.column_specs@.len(),
                    schema@.len() == i,
                    forall|k: int| 0 <= k < i ==> (#[trigger] schema@[k])@ == t.column_specs@[needed@[k] as int].column_name@,
                decreases needed.len() - i,
            {
                schema.push(t.column_specs[needed[i]].column_name.clone());
                i += 1;
            }
            let op = Operator::scan(op);
            proof {
                assert(names_view(schema@) =~= scan_schema(t.column_specs@, needed@));
                assert(op.types() =~= node.types(ctx.tables()));
                assert(op.wf_all());
            }
            (op, schema)
        },
        PlanNode::Filter { child, predicates } => {
            let (c, schema) = instantiate(child, ctx, cfg);
            proof { child.lemma_types_len(ctx.tables()); }
            match compile_predicates(predicates, &schema) {
                Some(compiled) => (Operator::filter(c, compiled), schema),
                None => {
                    proof {
                        let k = choose|k: int| 0 <= k < predicates@.len() && !resolvable(#[trigger] predicates@[k]@, names_view(schema@));
                        assert(resolvable(predicates@[k]@, child.schema(ctx.tables())));
                    }
                    (Operator::filter(c, Vec::new()), schema)
                },
            }
        },
        PlanNode::Project { child, column_name_map } => {
            let (c, cs) = instantiate(child, ctx, cfg);
            proof { child.lemma_types_len(ctx.tables()); }
            let ct = c.types_exec();
            let mut indices: Vec<usize> = Vec::with_capacity(column_name_map.len());
            let mut out_types: Vec<DataType> = Vec::with_capacity(column_name_map.len());
            let mut schema: Vec<String> = Vec::with_capacity(column_name_map.len());
            let mut i: usize = 0;
            while i < column_name_map.len()
                invariant
                    i <= column_name_map@.len(),
                    names_view(cs@) == child.schema(ctx.tables()),
                    ct@ == c.types(),
                    ct@.len() == cs@.len(),
                    forall|k: int| 0 <= k < column_name_map@.len() ==> last_index_of(child.schema(ctx.tables()), (#[trigger] column_name_map@[k]).0@) is Some,
                    indices@.len() == i,
                    out_types@.len() == i,
                    schema@.len() == i,
                    forall|k: int| 0 <= k < i ==> #[trigger] indices@[k] < ct@.len(),
                    forall|k: int| 0 <= k < i ==> #[trigger] indices@[k] == last_index_of(child.schema(ctx.tables()), column_name_map@[k].0@)->0,
                    forall|k: int| 0 <= k < i ==> #[trigger] out_types@[k] == ct@[indices@[k] as int],
                    forall|k: int| 0 <= k < i ==> (#[trigger] schema@[k])@ == column_name_map@[k].1@,
                decreases column_name_map@.len() - i,
            {
                let idx = match last_position_of(&cs, &column_name_map[i].0) {
                    Some(x) => x,
                    None => 0,
                };
                assert(last_index_of(child.schema(ctx.tables()), column_name_map@[i as int].0@) is Some);
                indices.push(idx);
                out_types.push(ct[idx]);
                schema.push(column_name_map[i].1.clone());
                i += 1;
            }
            let op = Operator::project(c, indices, out_types);
            proof {
                assert(names_view(schema@) =~= node.schema(ctx.tables()));
                assert(op.types() =~= node.types(ctx.tables()));
            }
            (op, schema)
        },
        PlanNode::Cross { left, right } => {
            let (l, ls) = instantiate(left, ctx, cfg);
            let (r, rs) = instantiate(right, ctx, cfg);
            let memory = match cfg.num_frames.checked_mul(cfg.block_size) {
                Some(m) => m,
                None => usize::MAX,
            };
            let op = CrossOp::new(l, r, memory, cfg.block_size);
            (op, concat_names(&ls, &rs))
        },
        PlanNode::HashJoin { left, right, left_idx, right_idx, filter_slot } => {
            let (l, ls) = instantiate(left, ctx, cfg);
            let (r, rs) = instantiate(right, ctx, cfg);
            proof {
                left.lemma_types_len(ctx.tables());
                right.lemma_types_len(ctx.tables());
            }
            let op = HashJoinOp::new(l, r, *left_idx, *right_idx, cfg.hash_join_budget, Some(*filter_slot));
            (op, concat_names(&ls, &rs))
        },
        PlanNode::MergeJoin { left, right, left_idx, right_idx } => {
            let (l, ls) = instantiate(left, ctx, cfg);
            let (r, rs) = instantiate(right, ctx, cfg);
            proof {
                left.lemma_types_len(ctx.tables());
                right.lemma_types_len(ctx.tables());
            }
            let op = SortMergeJoinOp::new(l, r, *left_idx, *right_idx);
            (op, concat_names(&ls, &rs))
        },
        PlanNode::Sort { child, sort_specs } => {
            let (c, cs) = instantiate(child, ctx, cfg);
            proof { child.lemma_types_len(ctx.tables()); }
            let ct = c.types_exec();
            let mut keys: Vec<crate::sort::SortKey> = Vec::with_capacity(sort_specs.len());
            let mut i: usize = 0;
            while i < sort_specs.len()
                invariant
                    i <= sort_specs@.len(),
                    names_view(cs@) == child.schema(ctx.tables()),
                    ct@ == c.types(),
                    ct@.len() == cs@.len(),
                    keys@.len() == i,
                    keys_fit_types(keys@, ct@),
                    forall|k: int| 0 <= k < sort_specs@.len() ==> last_index_of(child.schema(ctx.tables()), (#[trigger] sort_specs@[k]).column_name@) is Some,
                decreases sort_specs@.len() - i,
            {
                match last_position_of(&cs, &sort_specs[i].column_name) {
                    Some(idx) => {
                        keys.push(crate::sort::SortKey { col_idx: idx, ascending: sort_specs[i].ascending, data_type: ct[idx] });
                    },
                    None => {
                        keys.push(crate::sort::SortKey { col_idx: 0, ascending: sort_specs[i].ascending, data_type: if ct.len() > 0 { ct[0] } else { DataType::Int32 } });
                        proof {
                            assert(last_index_of(child.schema(ctx.tables()), sort_specs@[i as int].column_name@) is Some);
                        }
                    },
                }
                i += 1;
            }
            let op = SortOp::new(c, keys, cfg.sort_memory_bytes);
            (op, cs)
        },
    }
}

/// The concatenation of two name lists.
fn concat_names(a: &Vec<String>, b: &Vec<String>) -> (r: Vec<String>)
    ensures
        names_view(r@) == names_view(a@) + names_view(b@),
{
    let mut r = crate::plan::copy_names(a);
    let mut i: usize = 0;
    let ghost ra = names_view(a@);
    while i < b.len()
        invariant
            i <= b.len(),
            names_view(r@) == ra + names_view(b@).subrange(0, i as int),
            ra == names_view(a@),
        decreases b.len() - i,
    {
        let ghost before = r@;
        r.push(b[i].clone());
        assert(names_view(r@) =~= names_view(before).push(b@[i as int]@));
        assert(names_view(b@).subrange(0, i + 1) =~= names_view(b@).subrange(0, i as int).push(b@[i as int]@));
        i += 1;
    }
    assert(names_view(b@).subrange(0, i as int) =~= names_view(b@));
    r
}

/// A query being run: its root operator and the join filter slots.
pub struct QueryRun {
    root: Operator,
    slots: Vec<Option<JoinFilter>>,
    /// The names of the output columns.
    pub schema: Vec<String>,
    /// A hash join was planned: the pool should evict by LRU.
    pub uses_hash_join: bool,
}

impl QueryRun {
    pub closed spec fn wf(&self, bs: nat) -> bool {
        &&& self.root.wf(bs)
        &&& slots_wf(self.slots@)
    }

    /// The column types of the result rows.
    pub closed spec fn types(&self) -> Seq<DataType> {
        self.root.types()
    }

    /// What every result row satisfies by the work of the plan's last
    /// operator (see `Operator::admits`).
    pub closed spec fn admits(&self, row: Seq<Value>) -> bool {
        self.root.admits(row)
    }

    /// Nothing more comes out: each further step gives `Done`.
    pub closed spec fn finished(&self) -> bool {
        self.root.finished()
    }

    /// The result rows handed out so far, in order.
    pub closed spec fn results(&self) -> Seq<Seq<Value>> {
        self.root.out()
    }

    /// The plan's root operator.
    pub closed spec fn root_op(&self) -> Operator {
        self.root
    }

    /// A result row is ready: the next step hands it out.
    pub closed spec fn ready_row(&self) -> bool {
        self.root.ready_row()
    }

    /// Where the plan is a scan, possibly filtered or projected: how far
    /// the scan is from its end (see `Operator::scan_progress`).
    pub closed spec fn scan_progress(&self) -> Option<(int, (int, int, int, int))> {
        self.root.scan_progress()
    }

    /// One step of the query: a result row, the end, a request the pool
    /// recorded for the disk, progress, or a failure.
    pub fn step(&mut self, pool: &mut BufferPool) -> (r: Step)
        requires
            old(self).wf(old(pool).spec_block_size() as nat),
            old(pool).wf(),
        ensures
            final(self).wf(old(pool).spec_block_size() as nat),
            final(self).types() == old(self).types(),
            final(pool).wf(),
            final(pool).spec_block_size() == old(pool).spec_block_size(),
            r matches Step::Row(row) ==> conforms(row@, old(self).types()) && old(self).admits(row@),
            forall|row: Seq<Value>| #[trigger] final(self).admits(row) == old(self).admits(row),
            old(self).finished() ==> r is Done && final(self).finished(),
            r is Done ==> final(self).finished(),
            old(self).scan_progress() matches Some(p) ==> ((r is Pending || r is Row) ==> (final(self).scan_progress() matches Some(q)
                && crate::engine::progress_less(q, p))),
            old(self).ready_row() ==> r is Row,
            final(self).results() == match r {
                Step::Row(row) => old(self).results().push(row@),
                _ => old(self).results(),
            },
            final(self).results() == final(self).root_op().out(),
    {
        self.root.step(pool, &mut self.slots)
    }
}

/// Plans a query and builds its operators for a pool of `block_size`-byte
/// blocks.  Fails where the query names a table or column the catalog
/// lacks.
pub fn start_query(query: &QueryOp, ctx: &DbContext, cfg: &EngineConfig) -> (r: Result<QueryRun, PlanError>)
    requires
        cfg.block_size >= 2,
    ensures
        r matches Ok(run) ==> run.wf(cfg.block_size as nat),
        r is Ok ==> tables_known(*query, ctx.tables()),
        (*query is Scan && tables_known(*query, ctx.tables())) ==> r is Ok,
        filtered_table(*query, ctx.tables()) matches Some(t) ==> (filters_within(*query, table_columns(ctx.tables(), t))
            ==> r is Ok),
        projection_within(*query, ctx.tables()) ==> r is Ok,
        sort_within(*query, ctx.tables()) ==> r is Ok,
        simply_plannable(*query, ctx.tables()) ==> r is Ok,
        r matches Err(e) ==> (e == PlanError::ColumnNotFound || (e == PlanError::TableNotFound && !tables_known(
            *query,
            ctx.tables(),
        ))),
{
    let (plan, state) = build_operator(query, ctx)?;
    let (root, schema) = instantiate(&plan.node, ctx, cfg);
    let mut slots: Vec<Option<JoinFilter>> = Vec::new();
    let mut i: usize = 0;
    while i < state.next_slot
        invariant
            i <= state.next_slot,
            slots@.len() == i,
            forall|k: int| 0 <= k < i ==> #[trigger] slots@[k] is None,
        decreases state.next_slot - i,
    {
        slots.push(None);
        i += 1;
    }
    Ok(QueryRun { root, slots, schema, uses_hash_join: state.uses_hash_join })
}

// ─── Memory budgets ──────────────────────────────────────────────────────

/// How a query's memory is divided.
#[derive(Debug, Clone, Copy, PartialEq, Eq, Structural)]
pub struct Budgets {
    pub num_frames: usize,
    pub sort_memory_bytes: usize,
    pub hash_join_budget: usize,
}

/// The percentages and reserves for a memory limit and a kind of query:
/// (pool %, sort %, overhead MiB, hash join cap MiB, hash join floor MiB).
pub open spec fn budget_shares(memory_limit_mb: nat, p: QueryProfile) -> (nat, nat, nat, nat, nat) {
    if memory_limit_mb <= 64 {
        if p.has_cross && p.has_sort { (14, 32, 14, 16, 4) }
        else if p.has_cross { (14, 12, 14, 24, 5) }
        else if p.has_sort { (14, 42, 14, 10, 3) }
        else { (16, 12, 14, 18, 4) }
    } else if p.has_cross && p.has_sort { (18, 36, 12, 40, 6) }
    else if p.has_cross { (20, 16, 12, 56, 8) }
    else if p.has_sort { (18, 46, 12, 20, 4) }
    else { (22, 14, 12, 40, 6) }
}

pub open spec fn clamp(x: int, lo: int, hi: int) -> int {
    if x < lo { lo } else if x > hi { hi } else { x }
}

pub open spec fn max_int(a: int, b: int) -> int {
    if a < b { b } else { a }
}

pub open spec fn min_int(a: int, b: int) -> int {
    if a < b { a } else { b }
}

/// The budgets for a memory limit: the pool gets its share (64 to 4096
/// frames), the sort its share (at least 64 blocks), and hash joins what
/// is left after a fixed overhead, within a floor and a cap.
pub open spec fn spec_budgets(memory_limit_mb: nat, block_size: nat, p: QueryProfile) -> Budgets {
    let sh = budget_shares(memory_limit_mb, p);
    let pool_pct = sh.0;
    let sort_pct = sh.1;
    let overhead_mb = sh.2;
    let cap_mb = sh.3;
    let min_mb = sh.4;
    let limit = (memory_limit_mb * 1048576) as int;
    let bs = block_size as int;
    let target_pool = max_int(limit * pool_pct / 100, bs * 64);
    let num_frames = clamp(target_pool / bs, 64, 4096);
    let pool_bytes = num_frames * bs;
    let sort_bytes = max_int(limit * sort_pct / 100, bs * 64);
    let remaining = max_int(limit - pool_bytes - sort_bytes - overhead_mb * 1048576, 0);
    let hash = max_int(min_int(remaining, (cap_mb * 1048576) as int), (min_mb * 1048576) as int);
    Budgets { num_frames: num_frames as usize, sort_memory_bytes: sort_bytes as usize, hash_join_budget: hash as usize }
}

/// The share of `limit` given by a percentage, without overflow.
fn percent_of(limit: usize, pct: usize) -> (r: usize)
    requires
        pct <= 46,
        limit * 46 <= usize::MAX,
    ensures
        r == limit * pct / 100,
{
    assert(limit * pct <= limit * 46) by (nonlinear_arith)
        requires pct <= 46;
    limit * pct / 100
}

/// Divides a memory limit (in MiB) among the pool, sorts and hash joins.
/// The byte counts must fit in a `usize`.
#[verifier::rlimit(40)]
pub fn memory_budgets(memory_limit_mb: usize, block_size: usize, profile: QueryProfile) -> (r: Budgets)
    requires
        block_size >= 1,
        memory_limit_mb * 1048576 * 46 <= usize::MAX,
        block_size * 4096 <= usize::MAX,
    ensures
        r == spec_budgets(memory_limit_mb as nat, block_size as nat, profile),
{
    let (pool_pct, sort_pct, overhead_mb, cap_mb, min_mb): (usize, usize, usize, usize, usize) = if memory_limit_mb <= 64 {
        if profile.has_cross && profile.has_sort { (14, 32, 14, 16, 4) }
        else if profile.has_cross { (14, 12, 14, 24, 5) }
        else if profile.has_sort { (14, 42, 14, 10, 3) }
        else { (16, 12, 14, 18, 4) }
    } else if profile.has_cross && profile.has_sort { (18, 36, 12, 40, 6) }
    else if profile.has_cross { (20, 16, 12, 56, 8) }
    else if profile.has_sort { (18, 46, 12, 20, 4) }
    else { (22, 14, 12, 40, 6) };
    assert(budget_shares(memory_limit_mb as nat, profile) == (pool_pct as nat, sort_pct as nat, overhead_mb as nat, cap_mb as nat, min_mb as nat));
    let limit: usize = memory_limit_mb * 1048576;
    let min_pool: usize = block_size * 64;
    let a = percent_of(limit, pool_pct);
    let target_pool = if a < min_pool { min_pool } else { a };
    let q = target_pool / block_size;
    let num_frames: usize = if q < 64 { 64 } else if q > 4096 { 4096 } else { q };
    assert(num_frames * block_size <= block_size * 4096) by (nonlinear_arith)
        requires num_frames <= 4096;
    let pool_bytes = num_frames * block_size;
    let b = percent_of(limit, sort_pct);
    let sort_bytes = if b < min_pool { min_pool } else { b };
    let overhead: usize = overhead_mb * 1048576;
    let r1 = if limit > pool_bytes { limit - pool_bytes } else { 0 };
    let r2 = if r1 > sort_bytes { r1 - sort_bytes } else { 0 };
    let remaining = if r2 > overhead { r2 - overhead } else { 0 };
    let cap: usize = cap_mb * 1048576;
    let floor: usize = min_mb * 1048576;
    let m = if remaining < cap { remaining } else { cap };
    let hash = if m < floor { floor } else { m };
    assert(target_pool == max_int(limit * pool_pct / 100, block_size * 64));
    assert(num_frames == clamp((target_pool as int) / (block_size as int), 64, 4096));
    assert(sort_bytes == max_int(limit * sort_pct / 100, block_size * 64));
    assert(remaining == max_int(limit - pool_bytes - sort_bytes - overhead_mb * 1048576, 0));
    Budgets { num_frames, sort_memory_bytes: sort_bytes, hash_join_budget: hash }
}

/// The memory budgets for a query.
pub fn budgets_for_query(query: &QueryOp, memory_limit_mb: usize, block_size: usize) -> (r: Budgets)
    requires
        block_size >= 1,
        memory_limit_mb * 1048576 * 46 <= usize::MAX,
        block_size * 4096 <= usize::MAX,
    ensures
        r == spec_budgets(memory_limit_mb as nat, block_size as nat, spec_profile(*query)),
{
    memory_budgets(memory_limit_mb, block_size, profile_query(query))
}

} // verus!

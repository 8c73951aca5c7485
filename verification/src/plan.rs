//! Physical plans: the operator tree the engine runs, with the schema,
//! column types and row order of each node, and the helpers the planner
//! uses to track row order.
use vstd::prelude::*;
use crate::catalog::{ColumnSpec, TableSpec, StatKind, column_stat};
use crate::data::DataType;
use crate::predicate::{last_index_of, names_view, resolvable, compile_predicate, last_position_of};
use crate::query::{Predicate, SortSpec, preds_view, specs_view, name_map_view};

verus! {

/// A node of a physical plan.
#[derive(Debug)]
pub enum PlanNode {
    /// Read the table `table` of the catalog, keeping the columns at the
    /// positions `needed`; `pushed` are literal predicates the scan may use
    /// to skip blocks and rows; `dynamic_filter` names a column and the
    /// join filter slot whose filter the scan may apply to it.
    Scan {
        table: usize,
        needed: Vec<usize>,
        pushed: Vec<Predicate>,
        dynamic_filter: Option<(String, usize)>,
    },
    Filter { child: Box<PlanNode>, predicates: Vec<Predicate> },
    Project { child: Box<PlanNode>, column_name_map: Vec<(String, String)> },
    Cross { left: Box<PlanNode>, right: Box<PlanNode> },
    /// Equi-join by hashing; the filter of the build side's keys is
    /// published in slot `filter_slot`.
    HashJoin {
        left: Box<PlanNode>,
        right: Box<PlanNode>,
        left_idx: usize,
        right_idx: usize,
        filter_slot: usize,
    },
    /// Equi-join of two inputs that arrive sorted by their keys.
    MergeJoin { left: Box<PlanNode>, right: Box<PlanNode>, left_idx: usize, right_idx: usize },
    Sort { child: Box<PlanNode>, sort_specs: Vec<SortSpec> },
}

/// The names of a table's columns at the given positions.
pub open spec fn scan_schema(cols: Seq<ColumnSpec>, needed: Seq<usize>) -> Seq<Seq<char>> {
    Seq::new(needed.len(), |i: int| cols[needed[i] as int].column_name@)
}

pub open spec fn scan_types(cols: Seq<ColumnSpec>, needed: Seq<usize>) -> Seq<DataType> {
    Seq::new(needed.len(), |i: int| cols[needed[i] as int].data_type)
}

impl PlanNode {
    /// The output column names.
    pub open spec fn schema(self, tables: Seq<TableSpec>) -> Seq<Seq<char>>
        decreases self,
    {
        match self {
            PlanNode::Scan { table, needed, .. } => scan_schema(tables[table as int].column_specs@, needed@),
            PlanNode::Filter { child, .. } => child.schema(tables),
            PlanNode::Project { column_name_map, .. } => Seq::new(
                column_name_map@.len(),
                |i: int| column_name_map@[i].1@,
            ),
            PlanNode::Cross { left, right } => left.schema(tables) + right.schema(tables),
            PlanNode::HashJoin { left, right, .. } => left.schema(tables) + right.schema(tables),
            PlanNode::MergeJoin { left, right, .. } => left.schema(tables) + right.schema(tables),
            PlanNode::Sort { child, .. } => child.schema(tables),
        }
    }

    /// The output column types.
    pub open spec fn types(self, tables: Seq<TableSpec>) -> Seq<DataType>
        decreases self,
    {
        match self {
            PlanNode::Scan { table, needed, .. } => scan_types(tables[table as int].column_specs@, needed@),
            PlanNode::Filter { child, .. } => child.types(tables),
            PlanNode::Project { child, column_name_map } => Seq::new(
                column_name_map@.len(),
                |i: int|
                    child.types(tables)[last_index_of(child.schema(tables), column_name_map@[i].0@)->0],
            ),
            PlanNode::Cross { left, right } => left.types(tables) + right.types(tables),
            PlanNode::HashJoin { left, right, .. } => left.types(tables) + right.types(tables),
            PlanNode::MergeJoin { left, right, .. } => left.types(tables) + right.types(tables),
            PlanNode::Sort { child, .. } => child.types(tables),
        }
    }

    /// Every column the plan refers to exists where it is read, so the
    /// engine can build every operator of the plan.
    pub open spec fn wf(self, tables: Seq<TableSpec>) -> bool
        decreases self,
    {
        match self {
            PlanNode::Scan { table, needed, .. } => {
                &&& table < tables.len()
                &&& forall|i: int| 0 <= i < needed@.len() ==> #[trigger] needed@[i] < tables[table as int].column_specs@.len()
            },
            PlanNode::Filter { child, predicates } => {
                &&& child.wf(tables)
                &&& forall|i: int| 0 <= i < predicates@.len() ==> resolvable(#[trigger] predicates@[i]@, child.schema(tables))
            },
            PlanNode::Project { child, column_name_map } => {
                &&& child.wf(tables)
                &&& forall|i: int| 0 <= i < column_name_map@.len() ==> last_index_of(child.schema(tables), (#[trigger] column_name_map@[i]).0@) is Some
            },
            PlanNode::Cross { left, right } => left.wf(tables) && right.wf(tables),
            PlanNode::HashJoin { left, right, left_idx, right_idx, .. } => {
                &&& left.wf(tables)
                &&& right.wf(tables)
                &&& left_idx < left.schema(tables).len()
                &&& right_idx < right.schema(tables).len()
            },
            PlanNode::MergeJoin { left, right, left_idx, right_idx } => {
                &&& left.wf(tables)
                &&& right.wf(tables)
                &&& left_idx < left.schema(tables).len()
                &&& right_idx < right.schema(tables).len()
            },
            PlanNode::Sort { child, sort_specs } => {
                &&& child.wf(tables)
                &&& forall|i: int| 0 <= i < sort_specs@.len() ==> last_index_of(child.schema(tables), (#[trigger] sort_specs@[i]).column_name@) is Some
            },
        }
    }

    /// The schema and the types have one entry per column.
    pub proof fn lemma_types_len(self, tables: Seq<TableSpec>)
        ensures
            self.types(tables).len() == self.schema(tables).len(),
        decreases self,
    {
        match self {
            PlanNode::Scan { .. } => {},
            PlanNode::Filter { child, .. } => child.lemma_types_len(tables),
            PlanNode::Project { .. } => {},
            PlanNode::Cross { left, right } => {
                left.lemma_types_len(tables);
                right.lemma_types_len(tables);
            },
            PlanNode::HashJoin { left, right, .. } => {
                left.lemma_types_len(tables);
                right.lemma_types_len(tables);
            },
            PlanNode::MergeJoin { left, right, .. } => {
                left.lemma_types_len(tables);
                right.lemma_types_len(tables);
            },
            PlanNode::Sort { child, .. } => child.lemma_types_len(tables),
        }
    }
}

/// A column order: names with their directions.
pub open spec fn ordering_view(o: Seq<(String, bool)>) -> Seq<(Seq<char>, bool)> {
    Seq::new(o.len(), |i: int| (o[i].0@, o[i].1))
}

/// A plan node with its output schema, column types, and the row order it
/// guarantees, if any.
#[derive(Debug)]
pub struct PhysicalPlan {
    pub node: PlanNode,
    pub ordering: Option<Vec<(String, bool)>>,
    pub schema: Vec<String>,
    pub types: Vec<DataType>,
}

impl PhysicalPlan {
    pub open spec fn wf(self, tables: Seq<TableSpec>) -> bool {
        &&& self.node.wf(tables)
        &&& names_view(self.schema@) == self.node.schema(tables)
        &&& self.types@ == self.node.types(tables)
    }
}

/// Why a query cannot be planned.
#[derive(Debug, Clone, Copy, PartialEq, Eq, Structural)]
pub enum PlanError {
    /// A scan names a table the catalog lacks.
    TableNotFound,
    /// An operator names a column its input lacks.
    ColumnNotFound,
}

/// A copy of a list of names.
pub fn copy_names(v: &Vec<String>) -> (r: Vec<String>)
    ensures
        names_view(r@) == names_view(v@),
{
    let mut r: Vec<String> = Vec::with_capacity(v.len());
    let mut i: usize = 0;
    while i < v.len()
        invariant
            i <= v.len(),
            r@.len() == i,
            forall|k: int| 0 <= k < i ==> (#[trigger] r@[k])@ == v@[k]@,
        decreases v.len() - i,
    {
        r.push(v[i].clone());
        i += 1;
    }
    assert(names_view(r@) =~= names_view(v@));
    r
}

/// A copy of a list of types.
pub fn copy_types(v: &Vec<DataType>) -> (r: Vec<DataType>)
    ensures
        r@ == v@,
{
    let mut r: Vec<DataType> = Vec::with_capacity(v.len());
    let mut i: usize = 0;
    while i < v.len()
        invariant
            i <= v.len(),
            r@ == v@.subrange(0, i as int),
        decreases v.len() - i,
    {
        r.push(v[i]);
        i += 1;
    }
    assert(v@.subrange(0, i as int) =~= v@);
    r
}


/// A copy of a name map.
pub fn copy_name_map(m: &Vec<(String, String)>) -> (r: Vec<(String, String)>)
    ensures
        name_map_view(r@) == name_map_view(m@),
{
    let mut r: Vec<(String, String)> = Vec::with_capacity(m.len());
    let mut i: usize = 0;
    while i < m.len()
        invariant
            i <= m.len(),
            r@.len() == i,
            forall|k: int| 0 <= k < i ==> (#[trigger] r@[k]).0@ == m@[k].0@ && r@[k].1@ == m@[k].1@,
        decreases m.len() - i,
    {
        r.push((m[i].0.clone(), m[i].1.clone()));
        i += 1;
    }
    assert(name_map_view(r@) =~= name_map_view(m@));
    r
}

/// A copy of a list of sort keys.
pub fn copy_sort_specs(s: &Vec<SortSpec>) -> (r: Vec<SortSpec>)
    ensures
        specs_view(r@) == specs_view(s@),
{
    let mut r: Vec<SortSpec> = Vec::with_capacity(s.len());
    let mut i: usize = 0;
    while i < s.len()
        invariant
            i <= s.len(),
            r@.len() == i,
            forall|k: int| 0 <= k < i ==> (#[trigger] r@[k])@ == s@[k]@,
        decreases s.len() - i,
    {
        r.push(SortSpec { column_name: s[i].column_name.clone(), ascending: s[i].ascending });
        i += 1;
    }
    assert(specs_view(r@) =~= specs_view(s@));
    r
}

// ─── Row order ───────────────────────────────────────────────────────────

/// The order a sort by these keys produces.
pub fn sort_specs_to_ordering(sort_specs: &Vec<SortSpec>) -> (r: Vec<(String, bool)>)
    ensures
        ordering_view(r@) == specs_view(sort_specs@),
{
    let mut r: Vec<(String, bool)> = Vec::with_capacity(sort_specs.len());
    let mut i: usize = 0;
    while i < sort_specs.len()
        invariant
            i <= sort_specs.len(),
            r@.len() == i,
            forall|k: int| 0 <= k < i ==> (#[trigger] r@[k]).0@ == sort_specs@[k].column_name@ && r@[k].1 == sort_specs@[k].ascending,
        decreases sort_specs.len() - i,
    {
        r.push((sort_specs[i].column_name.clone(), sort_specs[i].ascending));
        i += 1;
    }
    assert(ordering_view(r@) =~= specs_view(sort_specs@));
    r
}

/// Rows in the order `actual` are also in the order `required`: the
/// required keys are a prefix of the actual ones.
pub open spec fn order_satisfies(actual: Option<Seq<(Seq<char>, bool)>>, required: Seq<(Seq<char>, bool)>) -> bool {
    match actual {
        Some(a) => required.len() <= a.len() && forall|i: int| 0 <= i < required.len() ==> #[trigger] required[i] == a[i],
        None => false,
    }
}

pub open spec fn opt_ordering_view(o: Option<Vec<(String, bool)>>) -> Option<Seq<(Seq<char>, bool)>> {
    match o {
        Some(v) => Some(ordering_view(v@)),
        None => None,
    }
}

/// Whether rows in the order `ordering` are already sorted by `required_specs`.
pub fn ordering_satisfies(ordering: Option<&Vec<(String, bool)>>, required_specs: &Vec<SortSpec>) -> (r: bool)
    ensures
        r == order_satisfies(
            match ordering { Some(v) => Some(ordering_view(v@)), None => None },
            specs_view(required_specs@),
        ),
{
    match ordering {
        None => false,
        Some(actual) => {
            if required_specs.len() > actual.len() {
                return false;
            }
            let mut i: usize = 0;
            while i < required_specs.len()
                invariant
                    i <= required_specs.len(),
                    required_specs.len() <= actual.len(),
                    match ordering { Some(v) => ordering_view(v@) == ordering_view(actual@), None => false },
                    forall|k: int| 0 <= k < i ==> #[trigger] specs_view(required_specs@)[k] == ordering_view(actual@)[k],
                decreases required_specs.len() - i,
            {
                if !(required_specs[i].column_name == actual[i].0 && required_specs[i].ascending == actual[i].1) {
                    assert(specs_view(required_specs@)[i as int] != ordering_view(actual@)[i as int]);
                    let ghost req = specs_view(required_specs@);
                    let ghost act = ordering_view(actual@);
                    assert(!(forall|k: int| 0 <= k < req.len() ==> #[trigger] req[k] == act[k]));
                    assert(!order_satisfies(Some(act), req));
                    return false;
                }
                i += 1;
            }
            true
        },
    }
}

/// The first output name the map gives `name`.
pub open spec fn map_first(m: Seq<(Seq<char>, Seq<char>)>, name: Seq<char>) -> Option<Seq<char>>
    decreases m.len(),
{
    if m.len() == 0 {
        None
    } else if m[0].0 == name {
        Some(m[0].1)
    } else {
        map_first(m.drop_first(), name)
    }
}

/// The order after renaming: the longest prefix of the order whose
/// columns the map keeps, renamed.
pub open spec fn remap_prefix(o: Seq<(Seq<char>, bool)>, m: Seq<(Seq<char>, Seq<char>)>) -> Seq<(Seq<char>, bool)>
    decreases o.len(),
{
    if o.len() == 0 {
        seq![]
    } else {
        match map_first(m, o[0].0) {
            Some(out) => seq![(out, o[0].1)] + remap_prefix(o.drop_first(), m),
            None => seq![],
        }
    }
}

pub open spec fn remap_ordering(o: Option<Seq<(Seq<char>, bool)>>, m: Seq<(Seq<char>, Seq<char>)>) -> Option<Seq<(Seq<char>, bool)>> {
    match o {
        Some(s) => if remap_prefix(s, m).len() == 0 { None } else { Some(remap_prefix(s, m)) },
        None => None,
    }
}

/// The output name the map gives `name` first, if any.
fn find_mapped(m: &Vec<(String, String)>, name: &String) -> (r: Option<String>)
    ensures
        match r {
            Some(s) => map_first(name_map_view(m@), name@) == Some(s@),
            None => map_first(name_map_view(m@), name@) is None,
        },
{
    let ghost mv = name_map_view(m@);
    let mut i: usize = 0;
    assert(mv.skip(0) =~= mv);
    while i < m.len()
        invariant
            i <= m.len(),
            mv == name_map_view(m@),
            map_first(mv, name@) == map_first(mv.skip(i as int), name@),
        decreases m.len() - i,
    {
        assert(mv.skip(i as int).drop_first() =~= mv.skip(i + 1));
        assert(mv.skip(i as int)[0] == (m@[i as int].0@, m@[i as int].1@));
        if m[i].0 == *name {
            return Some(m[i].1.clone());
        }
        i += 1;
    }
    None
}

/// The order of a projection's output, given its input's order.
pub fn remap_ordering_for_project(ordering: Option<&Vec<(String, bool)>>, column_name_map: &Vec<(String, String)>) -> (r: Option<Vec<(String, bool)>>)
    ensures
        opt_ordering_view(r) == remap_ordering(
            match ordering { Some(v) => Some(ordering_view(v@)), None => None },
            name_map_view(column_name_map@),
        ),
{
    match ordering {
        None => None,
        Some(ordering) => {
            let ghost ov = ordering_view(ordering@);
            let ghost mv = name_map_view(column_name_map@);
            let mut remapped: Vec<(String, bool)> = Vec::new();
            let mut i: usize = 0;
            let mut stopped = false;
            assert(ov.skip(0) =~= ov);
            while i < ordering.len() && !stopped
                invariant
                    i <= ordering.len(),
                    ov == ordering_view(ordering@),
                    mv == name_map_view(column_name_map@),
                    stopped ==> remap_prefix(ov.skip(i as int), mv) == Seq::<(Seq<char>, bool)>::empty(),
                    remap_prefix(ov, mv) == ordering_view(remapped@) + remap_prefix(ov.skip(i as int), mv),
                decreases ordering.len() - i, if stopped { 0int } else { 1int },
            {
                assert(ov.skip(i as int)[0] == (ordering@[i as int].0@, ordering@[i as int].1));
                assert(ov.skip(i as int).drop_first() =~= ov.skip(i + 1));
                match find_mapped(column_name_map, &ordering[i].0) {
                    Some(out) => {
                        let ghost before = remapped@;
                        remapped.push((out, ordering[i].1));
                        assert(ordering_view(remapped@) =~= ordering_view(before) + seq![(out@, ordering@[i as int].1)]);
                        i += 1;
                    },
                    None => {
                        assert(remap_prefix(ov.skip(i as int), mv) =~= seq![]);
                        stopped = true;
                    },
                }
            }
            assert(remap_prefix(ov, mv) =~= ordering_view(remapped@)) by {
                if !stopped {
                    assert(ov.skip(i as int) =~= Seq::<(Seq<char>, bool)>::empty());
                }
            }
            if remapped.len() == 0 {
                None
            } else {
                Some(remapped)
            }
        },
    }
}

/// The order of a scan: ascending by the first kept column that is stored
/// in order.
pub open spec fn scan_order(cols: Seq<ColumnSpec>, needed: Seq<usize>) -> Option<Seq<(Seq<char>, bool)>>
    decreases needed.len(),
{
    if needed.len() == 0 {
        None
    } else if column_stat(cols[needed[0] as int], StatKind::Ordered) is Some {
        Some(seq![(cols[needed[0] as int].column_name@, true)])
    } else {
        scan_order(cols, needed.drop_first())
    }
}

/// Whether a column's own statistics say it is stored in order.
fn column_is_ordered(c: &ColumnSpec) -> (r: bool)
    ensures
        r == (column_stat(*c, StatKind::Ordered) is Some),
{
    match &c.stats {
        Some(stats) => {
            let mut i: usize = 0;
            assert(stats@.skip(0) =~= stats@);
            assert(c.stats == Some(*stats));
            while i < stats.len()
                invariant
                    i <= stats.len(),
                    c.stats == Some(*stats),
                    crate::catalog::first_stat(stats@, StatKind::Ordered) == crate::catalog::first_stat(stats@.skip(i as int), StatKind::Ordered),
                decreases stats.len() - i,
            {
                assert(stats@.skip(i as int)[0] == stats@[i as int]);
                assert(stats@.skip(i as int).drop_first() =~= stats@.skip(i + 1));
                if let crate::catalog::ColumnStat::IsPhysicallyOrdered = &stats[i] {
                    assert(crate::catalog::first_stat(stats@.skip(i as int), StatKind::Ordered) == Some(1u64));
                    return true;
                }
                i += 1;
            }
            false
        },
        None => false,
    }
}

/// The order of a scan that keeps the columns at `needed_indices`.
pub fn scan_ordering(column_specs: &Vec<ColumnSpec>, needed_indices: &Vec<usize>) -> (r: Option<Vec<(String, bool)>>)
    requires
        forall|i: int| 0 <= i < needed_indices@.len() ==> #[trigger] needed_indices@[i] < column_specs@.len(),
    ensures
        opt_ordering_view(r) == scan_order(column_specs@, needed_indices@),
{
    let mut i: usize = 0;
    assert(needed_indices@.skip(0) =~= needed_indices@);
    while i < needed_indices.len()
        invariant
            i <= needed_indices.len(),
            forall|k: int| 0 <= k < needed_indices@.len() ==> #[trigger] needed_indices@[k] < column_specs@.len(),
            scan_order(column_specs@, needed_indices@) == scan_order(column_specs@, needed_indices@.skip(i as int)),
        decreases needed_indices.len() - i,
    {
        assert(needed_indices@.skip(i as int)[0] == needed_indices@[i as int]);
        assert(needed_indices@.skip(i as int).drop_first() =~= needed_indices@.skip(i + 1));
        let idx = needed_indices[i];
        if column_is_ordered(&column_specs[idx]) {
            let mut v: Vec<(String, bool)> = Vec::new();
            v.push((column_specs[idx].column_name.clone(), true));
            assert(ordering_view(v@) =~= seq![(column_specs@[idx as int].column_name@, true)]);
            return Some(v);
        }
        i += 1;
    }
    None
}

// ─── Building plan nodes ─────────────────────────────────────────────────

/// A scan of a table.
pub fn make_scan(
    tables: &Vec<TableSpec>,
    table: usize,
    needed: Vec<usize>,
    pushed: Vec<Predicate>,
    dynamic_filter: Option<(String, usize)>,
) -> (r: PhysicalPlan)
    requires
        table < tables@.len(),
        forall|i: int| 0 <= i < needed@.len() ==> #[trigger] needed@[i] < tables@[table as int].column_specs@.len(),
    ensures
        r.wf(tables@),
        r.node == (PlanNode::Scan { table, needed, pushed, dynamic_filter }),
        opt_ordering_view(r.ordering) == scan_order(tables@[table as int].column_specs@, needed@),
{
    let cols = &tables[table].column_specs;
    let mut schema: Vec<String> = Vec::with_capacity(needed.len());
    let mut types: Vec<DataType> = Vec::with_capacity(needed.len());
    let mut i: usize = 0;
    while i < needed.len()
        invariant
            i <= needed@.len(),
            cols == tables@[table as int].column_specs,
            forall|k: int| 0 <= k < needed@.len() ==> #[trigger] needed@[k] < cols@.len(),
            schema@.len() == i,
            types@.len() == i,
            forall|k: int| 0 <= k < i ==> (#[trigger] schema@[k])@ == cols@[needed@[k] as int].column_name@,
            forall|k: int| 0 <= k < i ==> #[trigger] types@[k] == cols@[needed@[k] as int].data_type,
        decreases needed@.len() - i,
    {
        schema.push(cols[needed[i]].column_name.clone());
        types.push(cols[needed[i]].data_type);
        i += 1;
    }
    let ordering = scan_ordering(cols, &needed);
    let r = PhysicalPlan { node: PlanNode::Scan { table, needed, pushed, dynamic_filter }, ordering, schema, types };
    assert(names_view(r.schema@) =~= r.node.schema(tables@));
    assert(r.types@ =~= r.node.types(tables@));
    r
}

/// The plan under a filter; `ColumnNotFound` when a predicate names a
/// column the plan does not produce.
pub fn make_filter(tables: &Vec<TableSpec>, child: PhysicalPlan, predicates: Vec<Predicate>) -> (r: Result<PhysicalPlan, PlanError>)
    requires
        child.wf(tables@),
    ensures
        match r {
            Ok(p) => p.wf(tables@) && p.node == (PlanNode::Filter { child: Box::new(child.node), predicates })
                && opt_ordering_view(p.ordering) == opt_ordering_view(child.ordering),
            Err(e) => e == PlanError::ColumnNotFound && exists|i: int| 0 <= i < predicates@.len()
                && !resolvable(#[trigger] predicates@[i]@, child.node.schema(tables@)),
        },
{
    let mut i: usize = 0;
    while i < predicates.len()
        invariant
            i <= predicates.len(),
            child.wf(tables@),
            forall|k: int| 0 <= k < i ==> resolvable(#[trigger] predicates@[k]@, child.node.schema(tables@)),
        decreases predicates.len() - i,
    {
        if compile_predicate(&predicates[i], &child.schema).is_none() {
            return Err(PlanError::ColumnNotFound);
        }
        i += 1;
    }
    let PhysicalPlan { node, ordering, schema, types } = child;
    Ok(PhysicalPlan { node: PlanNode::Filter { child: Box::new(node), predicates }, ordering, schema, types })
}

/// The plan projected by a name map; `ColumnNotFound` when the map reads a
/// column the plan does not produce.
pub fn make_project(tables: &Vec<TableSpec>, child: PhysicalPlan, column_name_map: Vec<(String, String)>) -> (r: Result<PhysicalPlan, PlanError>)
    requires
        child.wf(tables@),
    ensures
        match r {
            Ok(p) => p.wf(tables@) && p.node == (PlanNode::Project { child: Box::new(child.node), column_name_map })
                && opt_ordering_view(p.ordering) == remap_ordering(opt_ordering_view(child.ordering), name_map_view(column_name_map@)),
            Err(e) => e == PlanError::ColumnNotFound && exists|i: int| 0 <= i < column_name_map@.len()
                && last_index_of(child.node.schema(tables@), (#[trigger] column_name_map@[i]).0@) is None,
        },
{
    proof { child.node.lemma_types_len(tables@); }
    let mut schema: Vec<String> = Vec::with_capacity(column_name_map.len());
    let mut types: Vec<DataType> = Vec::with_capacity(column_name_map.len());
    let mut i: usize = 0;
    while i < column_name_map.len()
        invariant
            i <= column_name_map@.len(),
            child.wf(tables@),
            child.types@.len() == child.schema@.len(),
            schema@.len() == i,
            types@.len() == i,
            forall|k: int| 0 <= k < i ==> last_index_of(child.node.schema(tables@), (#[trigger] column_name_map@[k]).0@) is Some,
            forall|k: int| 0 <= k < i ==> (#[trigger] schema@[k])@ == column_name_map@[k].1@,
            forall|k: int| 0 <= k < i ==> #[trigger] types@[k] == child.node.types(tables@)[last_index_of(child.node.schema(tables@), column_name_map@[k].0@)->0],
        decreases column_name_map@.len() - i,
    {
        match last_position_of(&child.schema, &column_name_map[i].0) {
            Some(idx) => {
                schema.push(column_name_map[i].1.clone());
                types.push(child.types[idx]);
            },
            None => return Err(PlanError::ColumnNotFound),
        }
        i += 1;
    }
    let ordering = remap_ordering_for_project(
        match &child.ordering { Some(o) => Some(o), None => None },
        &column_name_map,
    );
    let r = PhysicalPlan {
        node: PlanNode::Project { child: Box::new(child.node), column_name_map },
        ordering,
        schema,
        types,
    };
    assert(names_view(r.schema@) =~= r.node.schema(tables@));
    assert(r.types@ =~= r.node.types(tables@));
    Ok(r)
}

/// The concatenation of two schemas.
fn concat_schemas(a: &Vec<String>, b: &Vec<String>) -> (r: Vec<String>)
    ensures
        names_view(r@) == names_view(a@) + names_view(b@),
{
    let mut r = copy_names(a);
    let mut i: usize = 0;
    let ghost ra = names_view(r@);
    while i < b.len()
        invariant
            i <= b.len(),
            ra == names_view(a@),
            names_view(r@) == ra + names_view(b@).subrange(0, i as int),
        decreases b.len() - i,
    {
        let ghost before = r@;
        r.push(b[i].clone());
        assert(names_view(r@) =~= names_view(before).push(b@[i as int]@));
        assert(names_view(b@).subrange(0, i + 1) =~= names_view(b@).subrange(0, i as int).push(b@[i as int]@));
        i += 1;
    }
    assert(names_view(b@).subrange(0, i as int) =~= names_view(b@));
    r
}

fn concat_types(a: &Vec<DataType>, b: &Vec<DataType>) -> (r: Vec<DataType>)
    ensures
        r@ == a@ + b@,
{
    let mut r = copy_types(a);
    let mut i: usize = 0;
    while i < b.len()
        invariant
            i <= b.len(),
            r@ == a@ + b@.subrange(0, i as int),
        decreases b.len() - i,
    {
        r.push(b[i]);
        assert(b@.subrange(0, i + 1) =~= b@.subrange(0, i as int).push(b@[i as int]));
        i += 1;
    }
    assert(b@.subrange(0, i as int) =~= b@);
    r
}

/// The cross product of two plans.
pub fn make_cross(tables: &Vec<TableSpec>, left: PhysicalPlan, right: PhysicalPlan) -> (r: PhysicalPlan)
    requires
        left.wf(tables@),
        right.wf(tables@),
    ensures
        r.wf(tables@),
        r.node == (PlanNode::Cross { left: Box::new(left.node), right: Box::new(right.node) }),
        r.ordering is None,
{
    let schema = concat_schemas(&left.schema, &right.schema);
    let types = concat_types(&left.types, &right.types);
    PhysicalPlan { node: PlanNode::Cross { left: Box::new(left.node), right: Box::new(right.node) }, ordering: None, schema, types }
}

/// A hash join of two plans on the columns at `left_idx` and `right_idx`.
pub fn make_hash_join(tables: &Vec<TableSpec>, left: PhysicalPlan, right: PhysicalPlan, left_idx: usize, right_idx: usize, filter_slot: usize) -> (r: PhysicalPlan)
    requires
        left.wf(tables@),
        right.wf(tables@),
        left_idx < left.schema@.len(),
        right_idx < right.schema@.len(),
    ensures
        r.wf(tables@),
        r.node == (PlanNode::HashJoin { left: Box::new(left.node), right: Box::new(right.node), left_idx, right_idx, filter_slot }),
        r.ordering is None,
{
    let schema = concat_schemas(&left.schema, &right.schema);
    let types = concat_types(&left.types, &right.types);
    PhysicalPlan {
        node: PlanNode::HashJoin { left: Box::new(left.node), right: Box::new(right.node), left_idx, right_idx, filter_slot },
        ordering: None,
        schema,
        types,
    }
}

/// A merge join of two sorted plans; its output is ordered by the left key.
pub fn make_merge_join(tables: &Vec<TableSpec>, left: PhysicalPlan, right: PhysicalPlan, left_idx: usize, right_idx: usize) -> (r: PhysicalPlan)
    requires
        left.wf(tables@),
        right.wf(tables@),
        left_idx < left.schema@.len(),
        right_idx < right.schema@.len(),
    ensures
        r.wf(tables@),
        r.node == (PlanNode::MergeJoin { left: Box::new(left.node), right: Box::new(right.node), left_idx, right_idx }),
        opt_ordering_view(r.ordering) == Some(seq![(names_view(left.schema@)[left_idx as int], true)]),
{
    let schema = concat_schemas(&left.schema, &right.schema);
    let types = concat_types(&left.types, &right.types);
    let mut ord: Vec<(String, bool)> = Vec::new();
    ord.push((left.schema[left_idx].clone(), true));
    assert(ordering_view(ord@) =~= seq![(names_view(left.schema@)[left_idx as int], true)]);
    PhysicalPlan {
        node: PlanNode::MergeJoin { left: Box::new(left.node), right: Box::new(right.node), left_idx, right_idx },
        ordering: Some(ord),
        schema,
        types,
    }
}

/// The plan sorted by the keys; `ColumnNotFound` when a key is not a
/// column of the plan.
pub fn make_sort(tables: &Vec<TableSpec>, child: PhysicalPlan, sort_specs: Vec<SortSpec>) -> (r: Result<PhysicalPlan, PlanError>)
    requires
        child.wf(tables@),
    ensures
        match r {
            Ok(p) => p.wf(tables@) && p.node == (PlanNode::Sort { child: Box::new(child.node), sort_specs })
                && opt_ordering_view(p.ordering) == Some(specs_view(sort_specs@)),
            Err(e) => e == PlanError::ColumnNotFound && exists|i: int| 0 <= i < sort_specs@.len()
                && last_index_of(child.node.schema(tables@), (#[trigger] sort_specs@[i]).column_name@) is None,
        },
{
    let mut i: usize = 0;
    while i < sort_specs.len()
        invariant
            i <= sort_specs@.len(),
            child.wf(tables@),
            forall|k: int| 0 <= k < i ==> last_index_of(child.node.schema(tables@), (#[trigger] sort_specs@[k]).column_name@) is Some,
        decreases sort_specs@.len() - i,
    {
        if last_position_of(&child.schema, &sort_specs[i].column_name).is_none() {
            return Err(PlanError::ColumnNotFound);
        }
        i += 1;
    }
    let ordering = sort_specs_to_ordering(&sort_specs);
    let PhysicalPlan { node, ordering: _, schema, types } = child;
    Ok(PhysicalPlan { node: PlanNode::Sort { child: Box::new(node), sort_specs }, ordering: Some(ordering), schema, types })
}

} // verus!

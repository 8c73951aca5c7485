//! The planner: from a logical query tree and the catalog to a physical
//! plan.  A filter over a tree of cross products is planned as a chain of
//! joins: single-table predicates are pushed down to their table, and the
//! tables are joined left to right, each with the first equality predicate
//! that links it to what is joined so far.
use vstd::prelude::*;
use crate::catalog::{DbContext, TableSpec, can_use_ordered_merge_join};
use crate::plan::{PhysicalPlan, PlanError, PlanNode, make_cross, make_filter, make_hash_join, make_merge_join, make_project, make_scan, make_sort, copy_names, copy_name_map, copy_sort_specs, ordering_satisfies, order_satisfies, opt_ordering_view};
use crate::predicate::{last_index_of, names_view, position_of};
use crate::row::count_true;
use crate::query::{CmpValueView, ComparisionOperator, ComparisionValue, Predicate, QueryOp, preds_view, specs_view, copy_predicates, name_map_view};

verus! {

/// The number of nodes of a query tree.
pub open spec fn query_size(q: QueryOp) -> nat
    decreases q,
{
    match q {
        QueryOp::Scan(_) => 1,
        QueryOp::Filter(f) => 1 + query_size(*f.underlying),
        QueryOp::Project(p) => 1 + query_size(*p.underlying),
        QueryOp::Cross(c) => 1 + query_size(*c.left) + query_size(*c.right),
        QueryOp::Sort(s) => 1 + query_size(*s.underlying),
    }
}

/// The names of the columns a predicate reads.
pub open spec fn pred_columns(p: crate::query::PredicateView) -> Seq<Seq<char>> {
    match p.value {
        CmpValueView::Column(c) => seq![p.column, c],
        _ => seq![p.column],
    }
}

/// The columns a list of predicates reads, in order.
pub open spec fn preds_columns(ps: Seq<crate::query::PredicateView>) -> Seq<Seq<char>>
    decreases ps.len(),
{
    if ps.len() == 0 {
        seq![]
    } else {
        preds_columns(ps.drop_last()) + pred_columns(ps.last())
    }
}

/// Every column name the query reads (predicate columns, projected columns
/// and sort keys, anywhere in the tree), in tree order with repetitions.
pub open spec fn used_columns(q: QueryOp) -> Seq<Seq<char>>
    decreases q,
{
    match q {
        QueryOp::Scan(_) => seq![],
        QueryOp::Filter(f) => used_columns(*f.underlying) + preds_columns(preds_view(f.predicates@)),
        QueryOp::Project(p) => used_columns(*p.underlying) + Seq::new(p.column_name_map@.len(), |i: int| p.column_name_map@[i].0@),
        QueryOp::Cross(c) => used_columns(*c.left) + used_columns(*c.right),
        QueryOp::Sort(s) => used_columns(*s.underlying) + Seq::new(s.sort_specs@.len(), |i: int| s.sort_specs@[i].column_name@),
    }
}

/// Whether a list of names holds `n`.
pub fn contains_name(v: &Vec<String>, n: &String) -> (r: bool)
    ensures
        r == names_view(v@).contains(n@),
{
    let mut i: usize = 0;
    while i < v.len()
        invariant
            i <= v.len(),
            forall|k: int| 0 <= k < i ==> v@[k]@ != n@,
        decreases v.len() - i,
    {
        if v[i] == *n {
            assert(names_view(v@)[i as int] == n@);
            return true;
        }
        i += 1;
    }
    assert(!names_view(v@).contains(n@)) by {
        if names_view(v@).contains(n@) {
            let k = choose|k: int| 0 <= k < names_view(v@).len() && names_view(v@)[k] == n@;
            assert(v@[k]@ == n@);
        }
    }
    false
}

/// `v` with `n` appended.
fn push_name(v: &mut Vec<String>, n: &String)
    ensures
        names_view(final(v)@) == names_view(old(v)@).push(n@),
{
    v.push(n.clone());
    assert(names_view(v@) =~= names_view(old(v)@).push(n@));
}

/// Every column name the query reads (with repetitions).
pub fn get_all_used_columns(query: &QueryOp) -> (r: Vec<String>)
    ensures
        names_view(r@) == used_columns(*query),
    decreases query,
{
    match query {
        QueryOp::Scan(_) => {
            let r: Vec<String> = Vec::new();
            assert(names_view(r@) =~= used_columns(*query));
            r
        },
        QueryOp::Filter(f) => {
            let mut cols = get_all_used_columns(&f.underlying);
            let ghost base = names_view(cols@);
            let ghost pv = preds_view(f.predicates@);
            let mut i: usize = 0;
            while i < f.predicates.len()
                invariant
                    i <= f.predicates.len(),
                    pv == preds_view(f.predicates@),
                    names_view(cols@) == base + preds_columns(pv.subrange(0, i as int)),
                decreases f.predicates.len() - i,
            {
                let p = &f.predicates[i];
                push_name(&mut cols, &p.column_name);
                if let ComparisionValue::Column(c) = &p.value {
                    push_name(&mut cols, c);
                }
                assert(pv.subrange(0, i + 1).drop_last() =~= pv.subrange(0, i as int));
                assert(pv.subrange(0, i + 1).last() == p@);
                assert(names_view(cols@) =~= base + preds_columns(pv.subrange(0, i + 1)));
                i += 1;
            }
            assert(pv.subrange(0, i as int) =~= pv);
            cols
        },
        QueryOp::Project(p) => {
            let mut cols = get_all_used_columns(&p.underlying);
            let ghost base = names_view(cols@);
            let ghost froms = Seq::new(p.column_name_map@.len(), |k: int| p.column_name_map@[k].0@);
            let mut i: usize = 0;
            while i < p.column_name_map.len()
                invariant
                    i <= p.column_name_map.len(),
                    froms == Seq::new(p.column_name_map@.len(), |k: int| p.column_name_map@[k].0@),
                    names_view(cols@) == base + froms.subrange(0, i as int),
                decreases p.column_name_map.len() - i,
            {
                push_name(&mut cols, &p.column_name_map[i].0);
                assert(names_view(cols@) =~= base + froms.subrange(0, i + 1));
                i += 1;
            }
            assert(froms.subrange(0, i as int) =~= froms);
            cols
        },
        QueryOp::Cross(c) => {
            let mut cols = get_all_used_columns(&c.left);
            let right = get_all_used_columns(&c.right);
            let ghost a = names_view(cols@);
            let mut i: usize = 0;
            while i < right.len()
                invariant
                    i <= right.len(),
                    names_view(cols@) == a + names_view(right@).subrange(0, i as int),
                decreases right.len() - i,
            {
                push_name(&mut cols, &right[i]);
                assert(names_view(right@).subrange(0, i + 1) =~= names_view(right@).subrange(0, i as int).push(right@[i as int]@));
                i += 1;
            }
            assert(names_view(right@).subrange(0, i as int) =~= names_view(right@));
            cols
        },
        QueryOp::Sort(s) => {
            let mut cols = get_all_used_columns(&s.underlying);
            let ghost base = names_view(cols@);
            let ghost keys = Seq::new(s.sort_specs@.len(), |k: int| s.sort_specs@[k].column_name@);
            let mut i: usize = 0;
            while i < s.sort_specs.len()
                invariant
                    i <= s.sort_specs.len(),
                    keys == Seq::new(s.sort_specs@.len(), |k: int| s.sort_specs@[k].column_name@),
                    names_view(cols@) == base + keys.subrange(0, i as int),
                decreases s.sort_specs.len() - i,
            {
                push_name(&mut cols, &s.sort_specs[i].column_name);
                assert(names_view(cols@) =~= base + keys.subrange(0, i + 1));
                i += 1;
            }
            assert(keys.subrange(0, i as int) =~= keys);
            cols
        },
    }
}

/// The leaves of a tree of cross products, left to right.
pub open spec fn cross_leaves(q: QueryOp) -> Seq<QueryOp>
    decreases q,
{
    match q {
        QueryOp::Cross(c) => cross_leaves(*c.left) + cross_leaves(*c.right),
        _ => seq![q],
    }
}

/// Each leaf is no larger than the tree, and smaller if the tree is a
/// cross product.
pub proof fn lemma_cross_leaves_size(q: QueryOp)
    ensures
        forall|i: int| 0 <= i < cross_leaves(q).len() ==> query_size(#[trigger] cross_leaves(q)[i]) <= query_size(q),
        q is Cross ==> forall|i: int| 0 <= i < cross_leaves(q).len() ==> query_size(#[trigger] cross_leaves(q)[i]) < query_size(q),
    decreases q,
{
    if let QueryOp::Cross(c) = q {
        lemma_cross_leaves_size(*c.left);
        lemma_cross_leaves_size(*c.right);
        let l = cross_leaves(*c.left);
        let r = cross_leaves(*c.right);
        assert forall|i: int| 0 <= i < cross_leaves(q).len() implies query_size(#[trigger] cross_leaves(q)[i]) < query_size(q) by {
            if i < l.len() {
                assert(cross_leaves(q)[i] == l[i]);
            } else {
                assert(cross_leaves(q)[i] == r[i - l.len()]);
            }
        }
    }
}

/// Every table the query scans is in the catalog.
pub open spec fn tables_known(q: QueryOp, tables: Seq<TableSpec>) -> bool
    decreases q,
{
    match q {
        QueryOp::Scan(s) => table_named(tables, s.table_id@) is Some,
        QueryOp::Filter(f) => tables_known(*f.underlying, tables),
        QueryOp::Project(p) => tables_known(*p.underlying, tables),
        QueryOp::Cross(c) => tables_known(*c.left, tables) && tables_known(*c.right, tables),
        QueryOp::Sort(s) => tables_known(*s.underlying, tables),
    }
}

/// A tree of cross products has a leaf, and its tables are known exactly
/// when those of every leaf are.
proof fn lemma_cross_leaves_known(q: QueryOp, tables: Seq<TableSpec>)
    ensures
        cross_leaves(q).len() >= 1,
        tables_known(q, tables) <==> forall|i: int| 0 <= i < cross_leaves(q).len() ==> tables_known(
            #[trigger] cross_leaves(q)[i],
            tables,
        ),
    decreases q,
{
    if let QueryOp::Cross(c) = q {
        lemma_cross_leaves_known(*c.left, tables);
        lemma_cross_leaves_known(*c.right, tables);
        let l = cross_leaves(*c.left);
        let r = cross_leaves(*c.right);
        assert forall|i: int| 0 <= i < r.len() implies cross_leaves(q)[l.len() + i] == #[trigger] r[i] by {}
        assert forall|i: int| 0 <= i < l.len() implies cross_leaves(q)[i] == #[trigger] l[i] by {}
        if forall|i: int| 0 <= i < cross_leaves(q).len() ==> tables_known(#[trigger] cross_leaves(q)[i], tables) {
            assert forall|i: int| 0 <= i < r.len() implies tables_known(#[trigger] r[i], tables) by {
                assert(tables_known(cross_leaves(q)[l.len() + i], tables));
            }
            assert forall|i: int| 0 <= i < l.len() implies tables_known(#[trigger] l[i], tables) by {
                assert(tables_known(cross_leaves(q)[i], tables));
            }
        }
        if tables_known(q, tables) {
            assert forall|i: int| 0 <= i < cross_leaves(q).len() implies tables_known(#[trigger] cross_leaves(q)[i], tables) by {
                if i < l.len() {
                    assert(cross_leaves(q)[i] == l[i]);
                } else {
                    assert(cross_leaves(q)[i] == r[i - l.len()]);
                }
            }
        }
    } else {
        assert(cross_leaves(q)[0] == q);
    }
}

/// The number of `true`s is at most the length, and equals it exactly
/// when every entry is `true`.
proof fn lemma_count_true_full(s: Seq<bool>)
    ensures
        count_true(s) <= s.len(),
        count_true(s) == s.len() <==> forall|i: int| 0 <= i < s.len() ==> #[trigger] s[i],
    decreases s.len(),
{
    if s.len() > 0 {
        lemma_count_true_full(s.drop_last());
        if forall|i: int| 0 <= i < s.len() ==> #[trigger] s[i] {
            assert forall|i: int| 0 <= i < s.drop_last().len() implies #[trigger] s.drop_last()[i] by {
                assert(s[i]);
            }
            assert(s[s.len() - 1]);
        }
        if count_true(s) == s.len() {
            assert forall|i: int| 0 <= i < s.len() implies #[trigger] s[i] by {
                if i < s.len() - 1 {
                    assert(s.drop_last()[i] == s[i]);
                }
            }
        }
    }
}

/// Setting a `false` entry to `true` adds one `true`.
proof fn lemma_count_true_set(s: Seq<bool>, i: int)
    requires
        0 <= i < s.len(),
        !s[i],
    ensures
        count_true(s.update(i, true)) == count_true(s) + 1,
    decreases s.len(),
{
    let t = s.update(i, true);
    if i == s.len() - 1 {
        assert(t.drop_last() =~= s.drop_last());
    } else {
        assert(t.drop_last() =~= s.drop_last().update(i, true));
        lemma_count_true_set(s.drop_last(), i);
    }
}

/// The leaves of a tree of cross products, left to right.
pub fn flatten_cross_ops(op: &QueryOp) -> (r: Vec<&QueryOp>)
    ensures
        r@.len() == cross_leaves(*op).len(),
        forall|i: int| 0 <= i < r@.len() ==> *(#[trigger] r@[i]) == cross_leaves(*op)[i],
    decreases op,
{
    match op {
        QueryOp::Cross(c) => {
            let mut v = flatten_cross_ops(&c.left);
            let mut w = flatten_cross_ops(&c.right);
            let ghost lv = v@;
            let ghost wv = w@;
            v.append(&mut w);
            assert forall|i: int| 0 <= i < v@.len() implies *(#[trigger] v@[i]) == cross_leaves(*op)[i] by {
                if i < lv.len() {
                    assert(v@[i] == lv[i]);
                } else {
                    assert(v@[i] == wv[i - lv.len()]);
                }
            }
            v
        },
        _ => {
            let mut v: Vec<&QueryOp> = Vec::new();
            v.push(op);
            v
        },
    }
}

/// The first table of the catalog with the given name.
pub open spec fn table_named(tables: Seq<TableSpec>, name: Seq<char>) -> Option<int> {
    if exists|i: int| 0 <= i < tables.len() && tables[i].name@ == name {
        Some(choose|i: int| 0 <= i < tables.len() && tables[i].name@ == name && forall|j: int| 0 <= j < i ==> tables[j].name@ != name)
    } else {
        None
    }
}

/// The column names of table `t`.
pub open spec fn table_columns(tables: Seq<TableSpec>, t: int) -> Seq<Seq<char>> {
    Seq::new(tables[t].column_specs@.len(), |i: int| tables[t].column_specs@[i].column_name@)
}

/// For a scan under a chain of filters (none, one or more): the table it
/// reads, where the catalog has it.
pub open spec fn filtered_table(q: QueryOp, tables: Seq<TableSpec>) -> Option<int>
    decreases q,
{
    match q {
        QueryOp::Scan(s) => table_named(tables, s.table_id@),
        QueryOp::Filter(f) => filtered_table(*f.underlying, tables),
        _ => None,
    }
}

/// Every predicate of the chain of filters names only columns in `cols`.
pub open spec fn filters_within(q: QueryOp, cols: Seq<Seq<char>>) -> bool
    decreases q,
{
    match q {
        QueryOp::Scan(_) => true,
        QueryOp::Filter(f) => filters_within(*f.underlying, cols) && forall|i: int, k: int|
            0 <= i < f.predicates@.len() && 0 <= k < pred_columns(preds_view(f.predicates@)[i]).len()
            ==> cols.contains(#[trigger] pred_columns(preds_view(f.predicates@)[i])[k]),
        _ => false,
    }
}

/// A projection of a chain of filters over a scan, where the filters and
/// the projection name only columns of the scanned table.
pub open spec fn projection_within(q: QueryOp, tables: Seq<TableSpec>) -> bool {
    match q {
        QueryOp::Project(p) => match filtered_table(*p.underlying, tables) {
            Some(t) => filters_within(*p.underlying, table_columns(tables, t)) && forall|i: int|
                0 <= i < p.column_name_map@.len() ==> table_columns(tables, t).contains(#[trigger] p.column_name_map@[i].0@),
            None => false,
        },
        _ => false,
    }
}

/// A sort of a chain of filters over a scan, where the filters and the
/// sort keys name only columns of the scanned table.
pub open spec fn sort_within(q: QueryOp, tables: Seq<TableSpec>) -> bool {
    match q {
        QueryOp::Sort(s) => match filtered_table(*s.underlying, tables) {
            Some(t) => filters_within(*s.underlying, table_columns(tables, t)) && forall|i: int|
                0 <= i < s.sort_specs@.len() ==> table_columns(tables, t).contains(#[trigger] s.sort_specs@[i].column_name@),
            None => false,
        },
        _ => false,
    }
}

/// Queries the planner always plans when every table and column they name
/// exists: a scan under filters, a projection or sort of one, and cross
/// products of such queries.
pub open spec fn simply_plannable(q: QueryOp, tables: Seq<TableSpec>) -> bool
    decreases q,
{
    match q {
        QueryOp::Cross(c) => simply_plannable(*c.left, tables) && simply_plannable(*c.right, tables),
        QueryOp::Project(_) => projection_within(q, tables),
        QueryOp::Sort(_) => sort_within(q, tables),
        _ => match filtered_table(q, tables) {
            Some(t) => filters_within(q, table_columns(tables, t)),
            None => false,
        },
    }
}

/// A name of the schema that `keep` holds is kept.
proof fn lemma_kept_names_contains(schema: Seq<Seq<char>>, keep: Seq<Seq<char>>, n: Seq<char>)
    requires
        schema.contains(n),
        keep.contains(n),
    ensures
        kept_names(schema, keep).contains(n),
    decreases schema.len(),
{
    let k = kept_names(schema.drop_last(), keep);
    if schema.last() == n {
        assert(kept_names(schema, keep) == k.push(n));
        assert(k.push(n)[k.len() as int] == n);
    } else {
        let j = choose|j: int| 0 <= j < schema.len() && schema[j] == n;
        assert(schema.drop_last()[j] == n);
        lemma_kept_names_contains(schema.drop_last(), keep, n);
        let q = choose|q: int| 0 <= q < k.len() && k[q] == n;
        if keep.contains(schema.last()) {
            assert(k.push(schema.last())[q] == n);
        }
    }
}

/// The columns of each predicate are among those of the list.
proof fn lemma_preds_columns_contain(ps: Seq<crate::query::PredicateView>, i: int, k: int)
    requires
        0 <= i < ps.len(),
        0 <= k < pred_columns(ps[i]).len(),
    ensures
        preds_columns(ps).contains(pred_columns(ps[i])[k]),
    decreases ps.len(),
{
    let a = preds_columns(ps.drop_last());
    let b = pred_columns(ps.last());
    assert(preds_columns(ps) == a + b);
    if i == ps.len() - 1 {
        assert((a + b)[a.len() + k] == b[k]);
    } else {
        assert(ps.drop_last()[i] == ps[i]);
        lemma_preds_columns_contain(ps.drop_last(), i, k);
        let j = choose|j: int| 0 <= j < a.len() && a[j] == pred_columns(ps[i])[k];
        assert((a + b)[j] == a[j]);
    }
}

/// The position of the first table named `name`.
pub fn find_table(tables: &Vec<TableSpec>, name: &String) -> (r: Option<usize>)
    ensures
        match r {
            Some(t) => table_named(tables@, name@) == Some(t as int) && t < tables@.len(),
            None => table_named(tables@, name@) is None,
        },
{
    let mut i: usize = 0;
    while i < tables.len()
        invariant
            i <= tables.len(),
            forall|j: int| 0 <= j < i ==> tables@[j].name@ != name@,
        decreases tables.len() - i,
    {
        if tables[i].name == *name {
            proof {
                assert(0 <= i < tables@.len() && tables@[i as int].name@ == name@ && forall|j: int| 0 <= j < i ==> tables@[j].name@ != name@);
                let w = choose|k: int| 0 <= k < tables@.len() && tables@[k].name@ == name@ && forall|j: int| 0 <= j < k ==> tables@[j].name@ != name@;
                if w < i { assert(tables@[w].name@ != name@); } else if w > i { assert(tables@[i as int].name@ != name@); }
            }
            return Some(i);
        }
        i += 1;
    }
    None
}

/// The column names of a query's output, computed from the catalog
/// without planning (a scan of an unknown table has no columns).
pub open spec fn logical_schema(q: QueryOp, tables: Seq<TableSpec>) -> Seq<Seq<char>>
    decreases q,
{
    match q {
        QueryOp::Scan(s) => match table_named(tables, s.table_id@) {
            Some(t) => Seq::new(tables[t].column_specs@.len(), |i: int| tables[t].column_specs@[i].column_name@),
            None => seq![],
        },
        QueryOp::Filter(f) => logical_schema(*f.underlying, tables),
        QueryOp::Project(p) => Seq::new(p.column_name_map@.len(), |i: int| p.column_name_map@[i].1@),
        QueryOp::Cross(c) => logical_schema(*c.left, tables) + logical_schema(*c.right, tables),
        QueryOp::Sort(s) => logical_schema(*s.underlying, tables),
    }
}

/// The column names of a query's output, without planning.
pub fn schema_of(op: &QueryOp, ctx: &DbContext) -> (r: Vec<String>)
    ensures
        names_view(r@) == logical_schema(*op, ctx.tables()),
    decreases op,
{
    match op {
        QueryOp::Scan(scan) => {
            let tables = ctx.get_table_specs();
            match find_table(tables, &scan.table_id) {
                Some(t) => {
                    let cols = &tables[t].column_specs;
                    let mut r: Vec<String> = Vec::with_capacity(cols.len());
                    let mut i: usize = 0;
                    while i < cols.len()
                        invariant
                            i <= cols.len(),
                            r@.len() == i,
                            forall|k: int| 0 <= k < i ==> (#[trigger] r@[k])@ == cols@[k].column_name@,
                        decreases cols.len() - i,
                    {
                        r.push(cols[i].column_name.clone());
                        i += 1;
                    }
                    assert(names_view(r@) =~= logical_schema(*op, ctx.tables()));
                    r
                },
                None => {
                    let r: Vec<String> = Vec::new();
                    assert(names_view(r@) =~= logical_schema(*op, ctx.tables()));
                    r
                },
            }
        },
        QueryOp::Filter(f) => schema_of(&f.underlying, ctx),
        QueryOp::Project(p) => {
            let mut r: Vec<String> = Vec::with_capacity(p.column_name_map.len());
            let mut i: usize = 0;
            while i < p.column_name_map.len()
                invariant
                    i <= p.column_name_map.len(),
                    r@.len() == i,
                    forall|k: int| 0 <= k < i ==> (#[trigger] r@[k])@ == p.column_name_map@[k].1@,
                decreases p.column_name_map.len() - i,
            {
                r.push(p.column_name_map[i].1.clone());
                i += 1;
            }
            assert(names_view(r@) =~= logical_schema(*op, ctx.tables()));
            r
        },
        QueryOp::Cross(c) => {
            let mut s = schema_of(&c.left, ctx);
            let t = schema_of(&c.right, ctx);
            let ghost a = names_view(s@);
            let mut i: usize = 0;
            while i < t.len()
                invariant
                    i <= t.len(),
                    names_view(s@) == a + names_view(t@).subrange(0, i as int),
                decreases t.len() - i,
            {
                push_name(&mut s, &t[i]);
                assert(names_view(t@).subrange(0, i + 1) =~= names_view(t@).subrange(0, i as int).push(t@[i as int]@));
                i += 1;
            }
            assert(names_view(t@).subrange(0, i as int) =~= names_view(t@));
            s
        },
        QueryOp::Sort(s) => schema_of(&s.underlying, ctx),
    }
}

/// What planning a query produces beside the plan.
pub struct PlanState {
    /// The next free join filter slot.
    pub next_slot: usize,
    /// A hash join was planned (the pool then evicts by LRU).
    pub uses_hash_join: bool,
}

/// The names of `schema` that `keep` holds, in schema order.
pub open spec fn kept_names(schema: Seq<Seq<char>>, keep: Seq<Seq<char>>) -> Seq<Seq<char>>
    decreases schema.len(),
{
    if schema.len() == 0 {
        Seq::empty()
    } else {
        let k = kept_names(schema.drop_last(), keep);
        if keep.contains(schema.last()) { k.push(schema.last()) } else { k }
    }
}

proof fn lemma_kept_names(schema: Seq<Seq<char>>, keep: Seq<Seq<char>>)
    ensures
        kept_names(schema, keep).len() <= schema.len(),
        forall|i: int| 0 <= i < kept_names(schema, keep).len() ==> schema.contains(#[trigger] kept_names(schema, keep)[i])
            && keep.contains(kept_names(schema, keep)[i]),
    decreases schema.len(),
{
    if schema.len() > 0 {
        lemma_kept_names(schema.drop_last(), keep);
        let k = kept_names(schema.drop_last(), keep);
        assert forall|i: int| 0 <= i < kept_names(schema, keep).len() implies schema.contains(#[trigger] kept_names(schema, keep)[i])
            && keep.contains(kept_names(schema, keep)[i]) by {
            if i < k.len() {
                let j = choose|j: int| 0 <= j < schema.drop_last().len() && schema.drop_last()[j] == k[i];
                assert(schema[j] == k[i]);
            } else {
                assert(schema[schema.len() - 1] == schema.last());
            }
        }
    }
}

/// A name a schema holds has a last position in it.
proof fn lemma_contains_last_index(s: Seq<Seq<char>>, n: Seq<char>)
    requires
        s.contains(n),
    ensures
        last_index_of(s, n) is Some,
{
    reveal(last_index_of);
    let j = choose|j: int| 0 <= j < s.len() && s[j] == n;
    assert(0 <= j < s.len() && s[j] == n);
}

/// The names of `schema` that `keep` holds, in schema order, each kept
/// under its own name.
fn identity_map_of(schema: &Vec<String>, keep: &Vec<String>) -> (r: Vec<(String, String)>)
    ensures
        name_map_view(r@) == kept_names(names_view(schema@), names_view(keep@)).map_values(|n: Seq<char>| (n, n)),
{
    let mut r: Vec<(String, String)> = Vec::new();
    let mut i: usize = 0;
    let ghost sv = names_view(schema@);
    let ghost kv = names_view(keep@);
    while i < schema.len()
        invariant
            i <= schema.len(),
            sv == names_view(schema@),
            kv == names_view(keep@),
            name_map_view(r@) == kept_names(sv.subrange(0, i as int), kv).map_values(|n: Seq<char>| (n, n)),
        decreases schema.len() - i,
    {
        let ghost before = r@;
        assert(sv.subrange(0, i + 1).drop_last() =~= sv.subrange(0, i as int));
        assert(sv.subrange(0, i + 1).last() == schema@[i as int]@);
        if contains_name(keep, &schema[i]) {
            r.push((schema[i].clone(), schema[i].clone()));
            assert(name_map_view(r@) =~= name_map_view(before).push((schema@[i as int]@, schema@[i as int]@)));
        }
        proof {
            let k0 = kept_names(sv.subrange(0, i as int), kv);
            let k1 = kept_names(sv.subrange(0, i + 1), kv);
            assert(k1.map_values(|n: Seq<char>| (n, n)) =~= if kv.contains(schema@[i as int]@) {
                k0.map_values(|n: Seq<char>| (n, n)).push((schema@[i as int]@, schema@[i as int]@))
            } else {
                k0.map_values(|n: Seq<char>| (n, n))
            });
            if !kv.contains(schema@[i as int]@) {
                assert(name_map_view(r@) =~= name_map_view(before));
            }
        }
        i += 1;
    }
    assert(sv.subrange(0, i as int) =~= sv);
    r
}

/// Projects the plan to the columns `keep` names when that drops some
/// but not all of them; else leaves the plan as it is.
fn prune_columns(tables: &Vec<TableSpec>, plan: PhysicalPlan, keep: &Vec<String>) -> (r: Result<PhysicalPlan, PlanError>)
    requires
        plan.wf(tables@),
    ensures
        r matches Ok(p) && p.wf(tables@) && ({
            let kept = kept_names(names_view(plan.schema@), names_view(keep@));
            if 0 < kept.len() < plan.schema@.len() {
                p.node matches PlanNode::Project { child, column_name_map } && *child == plan.node
                    && name_map_view(column_name_map@) == kept.map_values(|n: Seq<char>| (n, n))
            } else {
                p == plan
            }
        }),
{
    let map = identity_map_of(&plan.schema, keep);
    proof {
        let kept = kept_names(names_view(plan.schema@), names_view(keep@));
        lemma_kept_names(names_view(plan.schema@), names_view(keep@));
        assert(name_map_view(map@).len() == map@.len());
        assert(kept.map_values(|n: Seq<char>| (n, n)).len() == kept.len());
        assert forall|i: int| 0 <= i < map@.len() implies last_index_of(plan.node.schema(tables@), (#[trigger] map@[i]).0@) is Some by {
            assert(name_map_view(map@)[i] == kept.map_values(|n: Seq<char>| (n, n))[i]);
            assert(kept[i] == map@[i].0@);
            lemma_contains_last_index(plan.node.schema(tables@), kept[i]);
        }
    }
    if map.len() > 0 && map.len() < plan.schema.len() {
        make_project(tables, plan, map)
    } else {
        Ok(plan)
    }
}

/// The predicates a plan checks in its filter nodes, anywhere in the tree.
pub open spec fn plan_checks(n: PlanNode, p: crate::query::PredicateView) -> bool
    decreases n,
{
    match n {
        PlanNode::Scan { .. } => false,
        PlanNode::Filter { child, predicates } => preds_view(predicates@).contains(p) || plan_checks(*child, p),
        PlanNode::Project { child, .. } => plan_checks(*child, p),
        PlanNode::Sort { child, .. } => plan_checks(*child, p),
        PlanNode::Cross { left, right } => plan_checks(*left, p) || plan_checks(*right, p),
        PlanNode::HashJoin { left, right, .. } => plan_checks(*left, p) || plan_checks(*right, p),
        PlanNode::MergeJoin { left, right, .. } => plan_checks(*left, p) || plan_checks(*right, p),
    }
}

/// A predicate a plan accounts for: it checks it in a filter node, or the
/// predicate equates two columns (a join key).
pub open spec fn plan_covers(n: PlanNode, p: crate::query::PredicateView) -> bool {
    plan_checks(n, p) || (p.operator == ComparisionOperator::EQ && p.value is Column)
}

/// The predicates of a chain of filters, outermost first.
pub open spec fn chain_preds(q: QueryOp) -> Seq<crate::query::PredicateView>
    decreases q,
{
    match q {
        QueryOp::Filter(f) => preds_view(f.predicates@) + chain_preds(*f.underlying),
        _ => Seq::empty(),
    }
}

/// What a chain of filters stands on.
pub open spec fn chain_base(q: QueryOp) -> QueryOp
    decreases q,
{
    match q {
        QueryOp::Filter(f) => chain_base(*f.underlying),
        _ => q,
    }
}

/// While splitting a join query's predicates: the predicate went to the
/// bucket of some leaf, or waits to be checked above the joins.
pub open spec fn split_placed(pv: crate::query::PredicateView, buckets: Seq<Vec<Predicate>>, remaining: Seq<Predicate>) -> bool {
    (exists|o: int| 0 <= o < buckets.len() && #[trigger] preds_view(buckets[o]@).contains(pv))
        || preds_view(remaining).contains(pv)
}

/// While joining the leaves: the plan so far accounts for the predicate,
/// or it waits in the bucket of a leaf not yet joined, or above the joins.
pub open spec fn join_placed(
    pv: crate::query::PredicateView,
    plan: PlanNode,
    buckets: Seq<Vec<Predicate>>,
    joined: Seq<bool>,
    remaining: Seq<Predicate>,
) -> bool {
    ||| plan_covers(plan, pv)
    ||| (exists|o: int| 0 <= o < buckets.len() && o < joined.len() && !joined[o] && #[trigger] preds_view(buckets[o]@).contains(pv))
    ||| preds_view(remaining).contains(pv)
}

/// Joining a leaf keeps every predicate accounted for: the new plan holds
/// the old one and the leaf's plan, the leaf's bucket is checked in the
/// leaf's plan, and the predicate dropped from those waiting above is a
/// join key.
proof fn lemma_join_placed_step(
    pv: crate::query::PredicateView,
    old_plan: PlanNode,
    new_plan: PlanNode,
    leaf_plan: PlanNode,
    buckets: Seq<Vec<Predicate>>,
    joined: Seq<bool>,
    leaf: int,
    old_rem: Seq<Predicate>,
    new_rem: Seq<Predicate>,
    removed: Option<int>,
)
    requires
        join_placed(pv, old_plan, buckets, joined, old_rem),
        0 <= leaf < joined.len(),
        joined.len() == buckets.len(),
        forall|x: crate::query::PredicateView| plan_checks(old_plan, x) ==> #[trigger] plan_checks(new_plan, x),
        forall|x: crate::query::PredicateView| plan_checks(leaf_plan, x) ==> #[trigger] plan_checks(new_plan, x),
        forall|i: int| 0 <= i < buckets[leaf]@.len() ==> plan_checks(leaf_plan, #[trigger] buckets[leaf]@[i]@),
        match removed {
            Some(w) => 0 <= w < old_rem.len() && new_rem == old_rem.remove(w) && old_rem[w]@.operator
                == ComparisionOperator::EQ && old_rem[w]@.value is Column,
            None => new_rem == old_rem,
        },
    ensures
        join_placed(pv, new_plan, buckets, joined.update(leaf, true), new_rem),
{
    let nj = joined.update(leaf, true);
    if plan_covers(old_plan, pv) {
    } else if exists|o: int| 0 <= o < buckets.len() && o < joined.len() && !joined[o] && #[trigger] preds_view(buckets[o]@).contains(pv) {
        let o = choose|o: int| 0 <= o < buckets.len() && o < joined.len() && !joined[o] && #[trigger] preds_view(buckets[o]@).contains(pv);
        if o == leaf {
            let w = choose|w: int| 0 <= w < preds_view(buckets[o]@).len() && preds_view(buckets[o]@)[w] == pv;
            assert(buckets[leaf]@[w]@ == pv);
            assert(plan_checks(leaf_plan, pv));
        } else {
            assert(!nj[o]);
            assert(preds_view(buckets[o]@).contains(pv));
        }
    } else {
        let w = choose|w: int| 0 <= w < preds_view(old_rem).len() && preds_view(old_rem)[w] == pv;
        match removed {
            Some(x) => {
                if w == x {
                    assert(old_rem[w]@ == pv);
                } else if w < x {
                    assert(preds_view(new_rem)[w] == pv);
                } else {
                    assert(preds_view(new_rem)[w - 1] == pv);
                }
            },
            None => {
                assert(preds_view(new_rem)[w] == pv);
            },
        }
    }
}

/// Plans one leaf of a join: a scan (or subquery) with its pushed-down
/// predicates, filtered by them, and projected to the columns the query
/// uses.
fn build_leaf_with_filter(
    leaf: &QueryOp,
    scalar_preds: &Vec<Predicate>,
    global_needed: &Vec<String>,
    ctx: &DbContext,
    dynamic_filter: Option<(String, usize)>,
    state: &mut PlanState,
) -> (r: Result<PhysicalPlan, PlanError>)
    ensures
        r matches Ok(p) ==> p.wf(ctx.tables()),
        r matches Ok(p) ==> forall|i: int| 0 <= i < scalar_preds@.len() ==> plan_checks(p.node, #[trigger] scalar_preds@[i]@),
        r is Ok ==> tables_known(*leaf, ctx.tables()),
        r matches Err(e) ==> (e == PlanError::ColumnNotFound || (e == PlanError::TableNotFound && !tables_known(
            *leaf,
            ctx.tables(),
        ))),
    decreases query_size(*leaf), 2int,
{
    let mut pushed: Vec<Predicate> = Vec::new();
    let mut i: usize = 0;
    while i < scalar_preds.len()
        invariant
            i <= scalar_preds.len(),
        decreases scalar_preds.len() - i,
    {
        let p = &scalar_preds[i];
        let literal = match &p.value {
            ComparisionValue::Column(_) => false,
            _ => true,
        };
        if literal && p.operator != ComparisionOperator::NE {
            pushed.push(p.copy());
        }
        i += 1;
    }
    let empty_needed: Vec<String> = Vec::new();
    let mut plan = build_operator_internal(leaf, ctx, global_needed, &empty_needed, pushed, dynamic_filter, state)?;
    let tables = ctx.get_table_specs();
    if scalar_preds.len() > 0 {
        let cp = copy_predicates(scalar_preds);
        let ghost cv = cp@;
        plan = make_filter(tables, plan, cp)?;
        proof {
            assert forall|i: int| 0 <= i < scalar_preds@.len() implies plan_checks(plan.node, #[trigger] scalar_preds@[i]@) by {
                assert(preds_view(cv).len() == cv.len());
                assert(preds_view(scalar_preds@).len() == scalar_preds@.len());
                assert(preds_view(cv)[i] == preds_view(scalar_preds@)[i]);
                assert(preds_view(scalar_preds@)[i] == scalar_preds@[i]@);
                assert(preds_view(cv).contains(scalar_preds@[i]@));
            }
        }
    }
    let ghost pn = plan.node;
    let r = prune_columns(tables, plan, global_needed);
    proof {
        if r is Ok {
            assert forall|i: int| 0 <= i < scalar_preds@.len() && plan_checks(pn, #[trigger] scalar_preds@[i]@)
                implies plan_checks(r->Ok_0.node, scalar_preds@[i]@) by {}
        }
    }
    r
}

/// Whether the query reads a table directly, in its file's order.
fn is_table_scan(q: &QueryOp) -> (r: bool)
    ensures
        r == (*q is Scan),
{
    match q {
        QueryOp::Scan(_) => true,
        _ => false,
    }
}

/// The position of the first leaf whose columns include `name`.
fn owner_leaf(leaf_schemas: &Vec<Vec<String>>, name: &String) -> (r: Option<usize>)
    ensures
        match r {
            Some(i) => i < leaf_schemas@.len() && names_view(leaf_schemas@[i as int]@).contains(name@)
                && forall|j: int| 0 <= j < i ==> !names_view((#[trigger] leaf_schemas@[j])@).contains(name@),
            None => forall|j: int| 0 <= j < leaf_schemas@.len() ==> !names_view((#[trigger] leaf_schemas@[j])@).contains(name@),
        },
{
    let mut i: usize = 0;
    while i < leaf_schemas.len()
        invariant
            i <= leaf_schemas.len(),
            forall|j: int| 0 <= j < i ==> !names_view((#[trigger] leaf_schemas@[j])@).contains(name@),
        decreases leaf_schemas.len() - i,
    {
        if contains_name(&leaf_schemas[i], name) {
            return Some(i);
        }
        i += 1;
    }
    None
}

/// Whether the column at `j` is one `global_needed` names (every column is,
/// when it is empty).
pub open spec fn wanted(cols: Seq<crate::catalog::ColumnSpec>, global_needed: Seq<String>, j: int) -> bool {
    global_needed.len() == 0 || names_view(global_needed).contains(cols[j].column_name@)
}

/// Whether `s` holds the position `j`.
pub open spec fn holds_index(s: Seq<usize>, j: int) -> bool {
    exists|q: int| 0 <= q < s.len() && s[q] as int == j
}

/// The positions of the columns a scan keeps: those `global_needed` names
/// (all of them when it is empty), and the first column where that keeps
/// none.
fn scan_columns(cols: &Vec<crate::catalog::ColumnSpec>, global_needed: &Vec<String>) -> (r: Vec<usize>)
    ensures
        forall|k: int| 0 <= k < r@.len() ==> #[trigger] r@[k] < cols@.len(),
        forall|j: int| 0 <= j < cols@.len() && #[trigger] wanted(cols@, global_needed@, j) ==> holds_index(r@, j),
{
    let mut needed_indices: Vec<usize> = Vec::new();
    let mut i: usize = 0;
    while i < cols.len()
        invariant
            i <= cols.len(),
            forall|k: int| 0 <= k < needed_indices@.len() ==> #[trigger] needed_indices@[k] < cols@.len(),
            forall|j: int| 0 <= j < i && #[trigger] wanted(cols@, global_needed@, j) ==> holds_index(needed_indices@, j),
        decreases cols.len() - i,
    {
        let ghost before = needed_indices@;
        if global_needed.len() == 0 || contains_name(global_needed, &cols[i].column_name) {
            needed_indices.push(i);
            proof {
                assert(needed_indices@[before.len() as int] == i);
                assert forall|j: int| 0 <= j < i + 1 && #[trigger] wanted(cols@, global_needed@, j) implies holds_index(needed_indices@, j) by {
                    if j < i {
                        let q = choose|q: int| 0 <= q < before.len() && before[q] as int == j;
                        assert(needed_indices@[q] == before[q]);
                    } else {
                        assert(needed_indices@[before.len() as int] as int == j);
                    }
                }
            }
        } else {
            assert(!wanted(cols@, global_needed@, i as int));
        }
        i += 1;
    }
    let ghost kept = needed_indices@;
    if needed_indices.len() == 0 && cols.len() > 0 {
        needed_indices.push(0);
    }
    proof {
        assert forall|j: int| 0 <= j < cols@.len() && #[trigger] wanted(cols@, global_needed@, j) implies holds_index(needed_indices@, j) by {
            assert(holds_index(kept, j));
            let q = choose|q: int| 0 <= q < kept.len() && kept[q] as int == j;
            assert(needed_indices@[q] == kept[q]);
        }
    }
    needed_indices
}

/// Plans a query tree.  `global_needed` are the columns the whole query
/// reads (a scan keeps those), `needed_above` the columns the nodes above
/// still read (joins and sorts drop the others), `pushed_predicates` are
/// literal predicates a scan may use, and `dynamic_filter` a column and
/// join filter slot a scan may filter by.
pub fn build_operator_internal(
    query_op: &QueryOp,
    ctx: &DbContext,
    global_needed: &Vec<String>,
    needed_above: &Vec<String>,
    pushed_predicates: Vec<Predicate>,
    dynamic_filter: Option<(String, usize)>,
    state: &mut PlanState,
) -> (r: Result<PhysicalPlan, PlanError>)
    ensures
        r matches Ok(p) ==> p.wf(ctx.tables()),
        r matches Ok(p) ==> (query_op matches QueryOp::Sort(s) ==> order_satisfies(
            opt_ordering_view(p.ordering),
            specs_view(s.sort_specs@),
        )),
        r is Ok ==> tables_known(*query_op, ctx.tables()),
        (*query_op is Scan && tables_known(*query_op, ctx.tables())) ==> r is Ok,
        r matches Err(e) ==> (e == PlanError::ColumnNotFound || (e == PlanError::TableNotFound && !tables_known(
            *query_op,
            ctx.tables(),
        ))),
        filtered_table(*query_op, ctx.tables()) matches Some(t) ==> (r matches Ok(p) ==> forall|n: Seq<char>|
            table_columns(ctx.tables(), t).contains(n) && (global_needed@.len() == 0 || names_view(global_needed@).contains(n))
            ==> #[trigger] p.node.schema(ctx.tables()).contains(n)),
        filtered_table(*query_op, ctx.tables()) matches Some(t) ==> ((filters_within(*query_op, table_columns(ctx.tables(), t))
            && forall|k: int| 0 <= k < used_columns(*query_op).len() ==> names_view(global_needed@).contains(
            #[trigger] used_columns(*query_op)[k])) ==> r is Ok),
        (projection_within(*query_op, ctx.tables()) && forall|k: int| 0 <= k < used_columns(*query_op).len()
            ==> names_view(global_needed@).contains(#[trigger] used_columns(*query_op)[k])) ==> r is Ok,
        (sort_within(*query_op, ctx.tables()) && forall|k: int| 0 <= k < used_columns(*query_op).len()
            ==> names_view(global_needed@).contains(#[trigger] used_columns(*query_op)[k])) ==> r is Ok,
        (simply_plannable(*query_op, ctx.tables()) && forall|k: int| 0 <= k < used_columns(*query_op).len()
            ==> names_view(global_needed@).contains(#[trigger] used_columns(*query_op)[k])) ==> r is Ok,
        (*query_op is Filter && chain_base(*query_op) is Cross) ==> (r matches Ok(p) ==> forall|i: int|
            0 <= i < chain_preds(*query_op).len() ==> plan_covers(p.node, #[trigger] chain_preds(*query_op)[i])),
    decreases query_size(*query_op), 1int,
{
    let tables = ctx.get_table_specs();
    match query_op {
        QueryOp::Scan(scan_data) => {
            let t = match find_table(tables, &scan_data.table_id) {
                Some(t) => t,
                None => return Err(PlanError::TableNotFound),
            };
            let cols = &tables[t].column_specs;
            let ghost tv = ctx.tables();
            let needed_indices = scan_columns(cols, global_needed);
            let ghost nv = needed_indices@;
            let plan = make_scan(tables, t, needed_indices, pushed_predicates, dynamic_filter);
            proof {
                assert(tables@ == tv);
                assert forall|n: Seq<char>| table_columns(tv, t as int).contains(n) && (global_needed@.len() == 0
                    || names_view(global_needed@).contains(n)) implies #[trigger] plan.node.schema(tv).contains(n) by {
                    let j = choose|j: int| 0 <= j < table_columns(tv, t as int).len() && table_columns(tv, t as int)[j] == n;
                    assert(cols@[j].column_name@ == n);
                    assert(wanted(cols@, global_needed@, j));
                    assert(holds_index(nv, j));
                    let q = choose|q: int| 0 <= q < nv.len() && nv[q] as int == j;
                    assert(plan.node.schema(tv)[q] == n);
                }
            }
            Ok(plan)
        },
        QueryOp::Filter(filter_data) => {
            // Collect the predicates of the whole stack of filters.
            let mut all_filter_predicates = copy_predicates(&filter_data.predicates);
            let mut innermost: &QueryOp = &filter_data.underlying;
            loop
                invariant
                    preds_view(all_filter_predicates@) + chain_preds(*innermost) == chain_preds(*query_op),
                    chain_base(*innermost) == chain_base(*query_op),
                    query_size(*innermost) < query_size(*query_op),
                    tables_known(*query_op, ctx.tables()) == tables_known(*innermost, ctx.tables()),
                    filtered_table(*query_op, ctx.tables()) == filtered_table(*innermost, ctx.tables()),
                ensures
                    !(*innermost is Filter),
                decreases query_size(*innermost),
            {
                match innermost {
                    QueryOp::Filter(inner_f) => {
                        let mut more = copy_predicates(&inner_f.predicates);
                        let ghost a0 = all_filter_predicates@;
                        let ghost m0 = more@;
                        all_filter_predicates.append(&mut more);
                        proof {
                            assert(preds_view(all_filter_predicates@) =~= preds_view(a0) + preds_view(m0));
                            assert(preds_view(a0) + preds_view(m0) + chain_preds(*inner_f.underlying) =~= preds_view(a0)
                                + (preds_view(m0) + chain_preds(*inner_f.underlying)));
                        }
                        innermost = &inner_f.underlying;
                    },
                    _ => break,
                }
            }
            if let QueryOp::Cross(_) = innermost {
                assert(filtered_table(*query_op, ctx.tables()) is None);
                let ghost pvs = preds_view(all_filter_predicates@);
                proof {
                    assert(chain_preds(*innermost) =~= Seq::<crate::query::PredicateView>::empty());
                    assert(pvs =~= chain_preds(*query_op));
                }
                let leaves = flatten_cross_ops(innermost);
                proof {
                    lemma_cross_leaves_size(*innermost);
                    lemma_cross_leaves_known(*innermost, ctx.tables());
                }
                let n = leaves.len();
                let mut leaf_schemas: Vec<Vec<String>> = Vec::with_capacity(n);
                let mut scalar_preds: Vec<Vec<Predicate>> = Vec::with_capacity(n);
                let mut i: usize = 0;
                while i < n
                    invariant
                        i <= n,
                        n == leaves@.len(),
                        leaf_schemas@.len() == i,
                        scalar_preds@.len() == i,
                    decreases n - i,
                {
                    leaf_schemas.push(schema_of(leaves[i], ctx));
                    scalar_preds.push(Vec::new());
                    i += 1;
                }
                // Split the predicates: those on one leaf go down to it.
                let mut remaining_preds: Vec<Predicate> = Vec::new();
                let mut k: usize = 0;
                while k < all_filter_predicates.len()
                    invariant
                        k <= all_filter_predicates.len(),
                        leaf_schemas@.len() == n,
                        scalar_preds@.len() == n,
                        pvs == preds_view(all_filter_predicates@),
                        forall|j: int| 0 <= j < k ==> #[trigger] split_placed(pvs[j], scalar_preds@, remaining_preds@),
                    decreases all_filter_predicates.len() - k,
                {
                    let p = &all_filter_predicates[k];
                    let ghost b0 = scalar_preds@;
                    let ghost r0 = remaining_preds@;
                    assert(pvs[k as int] == p@);
                    let owner_a = owner_leaf(&leaf_schemas, &p.column_name);
                    let owner = match &p.value {
                        ComparisionValue::Column(col_b) => match (owner_a, owner_leaf(&leaf_schemas, col_b)) {
                            (Some(a), Some(b)) => if a == b { Some(a) } else { None },
                            _ => None,
                        },
                        _ => owner_a,
                    };
                    match owner {
                        Some(o) => {
                            let mut bucket: Vec<Predicate> = Vec::new();
                            scalar_preds.set_and_swap(o, &mut bucket);
                            bucket.push(p.copy());
                            scalar_preds.set_and_swap(o, &mut bucket);
                            proof {
                                assert(scalar_preds@[o as int]@ == b0[o as int]@.push(scalar_preds@[o as int]@.last()));
                                assert(preds_view(scalar_preds@[o as int]@) =~= preds_view(b0[o as int]@).push(p@));
                                assert forall|j: int| 0 <= j <= k implies #[trigger] split_placed(pvs[j], scalar_preds@, remaining_preds@) by {
                                    if j < k {
                                        assert(split_placed(pvs[j], b0, r0));
                                        if exists|o2: int| 0 <= o2 < b0.len() && #[trigger] preds_view(b0[o2]@).contains(pvs[j]) {
                                            let o2 = choose|o2: int| 0 <= o2 < b0.len() && #[trigger] preds_view(b0[o2]@).contains(pvs[j]);
                                            let w = choose|w: int| 0 <= w < preds_view(b0[o2]@).len() && preds_view(b0[o2]@)[w] == pvs[j];
                                            if o2 == o {
                                                assert(preds_view(scalar_preds@[o2]@)[w] == pvs[j]);
                                            } else {
                                                assert(scalar_preds@[o2] == b0[o2]);
                                            }
                                            assert(preds_view(scalar_preds@[o2]@).contains(pvs[j]));
                                        }
                                    } else {
                                        let w = preds_view(b0[o as int]@).len() as int;
                                        assert(preds_view(scalar_preds@[o as int]@)[w] == p@);
                                        assert(preds_view(scalar_preds@[o as int]@).contains(pvs[j]));
                                    }
                                }
                            }
                        },
                        None => {
                            remaining_preds.push(p.copy());
                            proof {
                                assert(preds_view(remaining_preds@) =~= preds_view(r0).push(p@));
                                assert forall|j: int| 0 <= j <= k implies #[trigger] split_placed(pvs[j], scalar_preds@, remaining_preds@) by {
                                    if j < k {
                                        assert(split_placed(pvs[j], b0, r0));
                                        if preds_view(r0).contains(pvs[j]) {
                                            let w = choose|w: int| 0 <= w < preds_view(r0).len() && preds_view(r0)[w] == pvs[j];
                                            assert(preds_view(remaining_preds@)[w] == pvs[j]);
                                        }
                                    } else {
                                        assert(preds_view(remaining_preds@)[r0.len() as int] == p@);
                                    }
                                }
                            }
                        },
                    }
                    k += 1;
                }
                if n == 0 {
                    return Err(PlanError::TableNotFound);
                }
                let mut joined: Vec<bool> = Vec::with_capacity(n);
                let mut j: usize = 0;
                while j < n
                    invariant
                        j <= n,
                        joined@.len() == j,
                        forall|k: int| 0 <= k < j ==> (#[trigger] joined@[k] <==> k == 0),
                        count_true(joined@) == if j == 0 { 0nat } else { 1nat },
                    decreases n - j,
                {
                    let ghost before = joined@;
                    joined.push(j == 0);
                    assert(joined@.drop_last() =~= before);
                    j += 1;
                }
                proof {
                    let tables_s = ctx.tables();
                    let cl = cross_leaves(*innermost);
                    assert forall|i: int| 0 <= i < n implies *(#[trigger] leaves@[i]) == cl[i] by {}
                    if tables_known(*query_op, tables_s) {
                        assert forall|i: int| 0 <= i < n implies tables_known(*(#[trigger] leaves@[i]), tables_s) by {
                            assert(tables_known(cl[i], tables_s));
                        }
                    }
                    if forall|i: int| 0 <= i < n ==> tables_known(*(#[trigger] leaves@[i]), tables_s) {
                        assert forall|i: int| 0 <= i < cl.len() implies tables_known(#[trigger] cl[i], tables_s) by {
                            assert(*leaves@[i] == cl[i]);
                        }
                    }
                }
                let mut num_joined: usize = 1;
                let mut current_plan = build_leaf_with_filter(leaves[0], &scalar_preds[0], global_needed, ctx, None, state)?;
                proof {
                    assert forall|j: int| 0 <= j < pvs.len() implies #[trigger] join_placed(pvs[j], current_plan.node,
                        scalar_preds@, joined@, remaining_preds@) by {
                        assert(split_placed(pvs[j], scalar_preds@, remaining_preds@));
                        if exists|o: int| 0 <= o < scalar_preds@.len() && #[trigger] preds_view(scalar_preds@[o]@).contains(pvs[j]) {
                            let o = choose|o: int| 0 <= o < scalar_preds@.len() && #[trigger] preds_view(scalar_preds@[o]@).contains(pvs[j]);
                            if o == 0 {
                                let w = choose|w: int| 0 <= w < preds_view(scalar_preds@[0]@).len() && preds_view(scalar_preds@[0]@)[w] == pvs[j];
                                assert(scalar_preds@[0]@[w]@ == pvs[j]);
                            } else {
                                assert(!joined@[o]);
                            }
                        }
                    }
                }
                while num_joined < n
                    invariant
                        pvs.len() == chain_preds(*query_op).len(),
                        pvs == chain_preds(*query_op),
                        forall|j: int| 0 <= j < pvs.len() ==> #[trigger] join_placed(pvs[j], current_plan.node,
                            scalar_preds@, joined@, remaining_preds@),
                        n == leaves@.len(),
                        leaf_schemas@.len() == n,
                        scalar_preds@.len() == n,
                        joined@.len() == n,
                        num_joined <= n,
                        current_plan.wf(ctx.tables()),
                        tables@ == ctx.tables(),
                        forall|i: int| 0 <= i < leaves@.len() ==> query_size(*(#[trigger] leaves@[i])) < query_size(*query_op),
                        num_joined == count_true(joined@),
                        filtered_table(*query_op, ctx.tables()) is None,
                        !projection_within(*query_op, ctx.tables()),
                        !sort_within(*query_op, ctx.tables()),
                        !simply_plannable(*query_op, ctx.tables()),
                        forall|i: int| 0 <= i < n && #[trigger] joined@[i] ==> tables_known(*leaves@[i], ctx.tables()),
                        tables_known(*query_op, ctx.tables()) <==> forall|i: int| 0 <= i < n ==> tables_known(
                            *(#[trigger] leaves@[i]),
                            ctx.tables(),
                        ),
                    decreases n - num_joined,
                {
                    // The first unjoined leaf linked to the joined ones by an equality.
                    let mut found: Option<(usize, usize)> = None;
                    let mut leaf_idx: usize = 0;
                    while leaf_idx < n && found.is_none()
                        invariant
                            leaf_idx <= n,
                            joined@.len() == n,
                            leaf_schemas@.len() == n,
                            found matches Some((l, p)) ==> l < n && p < remaining_preds@.len() && !joined@[l as int],
                            found matches Some((l, p)) ==> remaining_preds@[p as int]@.operator == ComparisionOperator::EQ
                                && remaining_preds@[p as int]@.value is Column,
                        decreases n - leaf_idx, if found.is_none() { 1int } else { 0int },
                    {
                        if !joined[leaf_idx] {
                            let mut pred_idx: usize = 0;
                            while pred_idx < remaining_preds.len() && found.is_none()
                                invariant
                                    pred_idx <= remaining_preds.len(),
                                    leaf_idx < n,
                                    leaf_schemas@.len() == n,
                                    joined@.len() == n,
                                    !joined@[leaf_idx as int],
                                    found matches Some((l, p)) ==> l < n && p < remaining_preds@.len() && !joined@[l as int],
                                    found matches Some((l, p)) ==> remaining_preds@[p as int]@.operator == ComparisionOperator::EQ
                                        && remaining_preds@[p as int]@.value is Column,
                                decreases remaining_preds.len() - pred_idx, if found.is_none() { 1int } else { 0int },
                            {
                                let p = &remaining_preds[pred_idx];
                                if p.operator == ComparisionOperator::EQ {
                                    if let ComparisionValue::Column(col_b) = &p.value {
                                        let a_cur = contains_name(&current_plan.schema, &p.column_name);
                                        let b_new = contains_name(&leaf_schemas[leaf_idx], col_b);
                                        let b_cur = contains_name(&current_plan.schema, col_b);
                                        let a_new = contains_name(&leaf_schemas[leaf_idx], &p.column_name);
                                        if (a_cur && b_new) || (b_cur && a_new) {
                                            found = Some((leaf_idx, pred_idx));
                                        }
                                    }
                                }
                                if found.is_none() {
                                    pred_idx += 1;
                                }
                            }
                        }
                        if found.is_none() {
                            leaf_idx += 1;
                        }
                    }
                    match found {
                        Some((leaf_idx, pred_idx)) => {
                            let col_a = remaining_preds[pred_idx].column_name.clone();
                            let col_b = match &remaining_preds[pred_idx].value {
                                ComparisionValue::Column(c) => c.clone(),
                                _ => col_a.clone(),
                            };
                            let a_cur = contains_name(&current_plan.schema, &col_a);
                            let b_new = contains_name(&leaf_schemas[leaf_idx], &col_b);
                            let forward = a_cur && b_new;
                            // File order holds only where both inputs are
                            // scans of the tables themselves.
                            let use_ordered_merge = num_joined == 1 && is_table_scan(leaves[0])
                                && is_table_scan(leaves[leaf_idx]) && (if forward {
                                can_use_ordered_merge_join(&col_a, &col_b, ctx)
                            } else {
                                can_use_ordered_merge_join(&col_b, &col_a, ctx)
                            });
                            let slot = state.next_slot;
                            let right_filter_col = if forward { col_b.clone() } else { col_a.clone() };
                            let right_op = build_leaf_with_filter(
                                leaves[leaf_idx],
                                &scalar_preds[leaf_idx],
                                global_needed,
                                ctx,
                                if use_ordered_merge { None } else { Some((right_filter_col, slot)) },
                                state,
                            )?;
                            let (l_name, r_name) = if forward { (&col_a, &col_b) } else { (&col_b, &col_a) };
                            let l_idx = match position_of(&current_plan.schema, l_name) {
                                Some(i) => i,
                                None => return Err(PlanError::ColumnNotFound),
                            };
                            let r_idx = match position_of(&right_op.schema, r_name) {
                                Some(i) => i,
                                None => return Err(PlanError::ColumnNotFound),
                            };
                            let ghost old_plan = current_plan.node;
                            let ghost leaf_plan = right_op.node;
                            let ghost old_joined = joined@;
                            let ghost old_rem = remaining_preds@;
                            current_plan = if use_ordered_merge {
                                make_merge_join(tables, current_plan, right_op, l_idx, r_idx)
                            } else {
                                state.uses_hash_join = true;
                                state.next_slot = slot.wrapping_add(1);
                                make_hash_join(tables, current_plan, right_op, l_idx, r_idx, slot)
                            };
                            proof { lemma_count_true_set(joined@, leaf_idx as int); }
                            joined.set(leaf_idx, true);
                            num_joined += 1;
                            remaining_preds.remove(pred_idx);
                            proof {
                                assert forall|j: int| 0 <= j < pvs.len() implies #[trigger] join_placed(pvs[j], current_plan.node,
                                    scalar_preds@, joined@, remaining_preds@) by {
                                    lemma_join_placed_step(pvs[j], old_plan, current_plan.node, leaf_plan, scalar_preds@, old_joined,
                                        leaf_idx as int, old_rem, remaining_preds@, Some(pred_idx as int));
                                }
                            }
                            // Drop the columns nothing above or ahead still reads.
                            if needed_above.len() > 0 {
                                let mut still_needed = copy_names(needed_above);
                                let mut q: usize = 0;
                                while q < remaining_preds.len()
                                    invariant
                                        q <= remaining_preds.len(),
                                    decreases remaining_preds.len() - q,
                                {
                                    still_needed.push(remaining_preds[q].column_name.clone());
                                    if let ComparisionValue::Column(c) = &remaining_preds[q].value {
                                        still_needed.push(c.clone());
                                    }
                                    q += 1;
                                }
                                let mut li: usize = 0;
                                while li < n
                                    invariant
                                        li <= n,
                                        joined@.len() == n,
                                        scalar_preds@.len() == n,
                                    decreases n - li,
                                {
                                    if !joined[li] {
                                        let sp = &scalar_preds[li];
                                        let mut q2: usize = 0;
                                        while q2 < sp.len()
                                            invariant
                                                q2 <= sp.len(),
                                            decreases sp.len() - q2,
                                        {
                                            still_needed.push(sp[q2].column_name.clone());
                                            if let ComparisionValue::Column(c) = &sp[q2].value {
                                                still_needed.push(c.clone());
                                            }
                                            q2 += 1;
                                        }
                                    }
                                    li += 1;
                                }
                                let ghost before_prune = current_plan.node;
                                current_plan = prune_columns(tables, current_plan, &still_needed)?;
                                proof {
                                    assert forall|j: int| 0 <= j < pvs.len() implies #[trigger] join_placed(pvs[j], current_plan.node,
                                        scalar_preds@, joined@, remaining_preds@) by {
                                        assert(join_placed(pvs[j], before_prune, scalar_preds@, joined@, remaining_preds@));
                                        if plan_checks(before_prune, pvs[j]) {
                                            assert(plan_checks(current_plan.node, pvs[j]));
                                        }
                                    }
                                }
                            }
                        },
                        None => {
                            // No linking predicate: cross product with the next unjoined leaf.
                            let mut leaf_idx: usize = 0;
                            while leaf_idx < n && joined[leaf_idx]
                                invariant
                                    leaf_idx <= n,
                                    joined@.len() == n,
                                    forall|k: int| 0 <= k < leaf_idx ==> #[trigger] joined@[k],
                                decreases n - leaf_idx,
                            {
                                leaf_idx += 1;
                            }
                            if leaf_idx < n {
                                let right_op = build_leaf_with_filter(leaves[leaf_idx], &scalar_preds[leaf_idx], global_needed, ctx, None, state)?;
                                let ghost old_plan = current_plan.node;
                                let ghost leaf_plan = right_op.node;
                                let ghost old_joined = joined@;
                                current_plan = make_cross(tables, current_plan, right_op);
                                proof { lemma_count_true_set(joined@, leaf_idx as int); }
                                joined.set(leaf_idx, true);
                                num_joined += 1;
                                proof {
                                    assert forall|j: int| 0 <= j < pvs.len() implies #[trigger] join_placed(pvs[j], current_plan.node,
                                        scalar_preds@, joined@, remaining_preds@) by {
                                        lemma_join_placed_step(pvs[j], old_plan, current_plan.node, leaf_plan, scalar_preds@, old_joined,
                                            leaf_idx as int, remaining_preds@, remaining_preds@, None);
                                    }
                                }
                            } else {
                                proof { lemma_count_true_full(joined@); }
                                num_joined = n;
                            }
                        },
                    }
                }
                proof {
                    lemma_count_true_full(joined@);
                    assert forall|i: int| 0 <= i < n implies tables_known(*(#[trigger] leaves@[i]), ctx.tables()) by {
                        assert(joined@[i]);
                    }
                }
                proof {
                    assert forall|j: int| 0 <= j < pvs.len() implies plan_covers(current_plan.node, #[trigger] pvs[j])
                        || preds_view(remaining_preds@).contains(pvs[j]) by {
                        assert(join_placed(pvs[j], current_plan.node, scalar_preds@, joined@, remaining_preds@));
                    }
                }
                if remaining_preds.len() == 0 {
                    return Ok(current_plan);
                }
                let ghost rem = remaining_preds@;
                let ghost cur = current_plan.node;
                let res = make_filter(tables, current_plan, remaining_preds);
                proof {
                    if res is Ok {
                        assert forall|j: int| 0 <= j < pvs.len() implies plan_covers(res->Ok_0.node, #[trigger] pvs[j]) by {
                            if plan_checks(cur, pvs[j]) {
                                assert(plan_checks(res->Ok_0.node, pvs[j]));
                            }
                        }
                    }
                }
                return res;
            }
            // A plain filter.
            proof {
                assert(chain_base(*innermost) == *innermost);
                let u = used_columns(*filter_data.underlying);
                assert(used_columns(*query_op) == u + preds_columns(preds_view(filter_data.predicates@)));
                if forall|k: int| 0 <= k < used_columns(*query_op).len() ==> names_view(global_needed@).contains(
                    #[trigger] used_columns(*query_op)[k]) {
                    assert forall|k: int| 0 <= k < u.len() implies names_view(global_needed@).contains(#[trigger] u[k]) by {
                        assert(used_columns(*query_op)[k] == u[k]);
                    }
                }
            }
            let und = build_operator_internal(&filter_data.underlying, ctx, global_needed, needed_above, Vec::new(), dynamic_filter, state)?;
            let preds = copy_predicates(&filter_data.predicates);
            let ghost und_schema = und.node.schema(ctx.tables());
            let r = make_filter(tables, und, preds);
            proof {
                if filtered_table(*query_op, ctx.tables()) is Some && r is Err {
                    let t = filtered_table(*query_op, ctx.tables())->0;
                    if filters_within(*query_op, table_columns(ctx.tables(), t)) && forall|k: int| 0 <= k < used_columns(*query_op).len()
                        ==> names_view(global_needed@).contains(#[trigger] used_columns(*query_op)[k]) {
                        let i = choose|i: int| 0 <= i < preds@.len() && !crate::predicate::resolvable(#[trigger] preds@[i]@, und_schema);
                        let pv = preds_view(filter_data.predicates@)[i];
                        assert(preds@[i]@ == pv);
                        assert forall|k: int| 0 <= k < pred_columns(pv).len() implies und_schema.contains(#[trigger] pred_columns(pv)[k]) by {
                            lemma_preds_columns_contain(preds_view(filter_data.predicates@), i, k);
                            let u = used_columns(*filter_data.underlying);
                            let pc = preds_columns(preds_view(filter_data.predicates@));
                            let j = choose|j: int| 0 <= j < pc.len() && pc[j] == pred_columns(pv)[k];
                            assert(used_columns(*query_op)[u.len() + j] == pc[j]);
                            assert(table_columns(ctx.tables(), t).contains(pred_columns(pv)[k]));
                        }
                        assert(und_schema.contains(pred_columns(pv)[0]));
                        lemma_contains_last_index(und_schema, pv.column);
                        if let CmpValueView::Column(c) = pv.value {
                            assert(pred_columns(pv)[1] == c);
                            lemma_contains_last_index(und_schema, c);
                        }
                        assert(false);
                    }
                }
            }
            r
        },
        QueryOp::Project(project_data) => {
            let mut child_needed: Vec<String> = Vec::new();
            let mut i: usize = 0;
            while i < project_data.column_name_map.len()
                invariant
                    i <= project_data.column_name_map.len(),
                decreases project_data.column_name_map.len() - i,
            {
                child_needed.push(project_data.column_name_map[i].0.clone());
                i += 1;
            }
            let ghost u = used_columns(*project_data.underlying);
            let ghost all_needed = forall|k: int| 0 <= k < used_columns(*query_op).len() ==> names_view(global_needed@).contains(
                #[trigger] used_columns(*query_op)[k]);
            proof {
                assert(used_columns(*query_op) == u + Seq::new(project_data.column_name_map@.len(),
                    |i: int| project_data.column_name_map@[i].0@));
                if all_needed {
                    assert forall|k: int| 0 <= k < u.len() implies names_view(global_needed@).contains(#[trigger] u[k]) by {
                        assert(used_columns(*query_op)[k] == u[k]);
                    }
                }
            }
            let child = build_operator_internal(&project_data.underlying, ctx, global_needed, &child_needed, Vec::new(), dynamic_filter, state)?;
            let map = copy_name_map(&project_data.column_name_map);
            let ghost child_schema = child.node.schema(ctx.tables());
            let r = make_project(tables, child, map);
            proof {
                if projection_within(*query_op, ctx.tables()) && all_needed && r is Err {
                    let t = filtered_table(*project_data.underlying, ctx.tables())->0;
                    let i = choose|i: int| 0 <= i < map@.len() && last_index_of(child_schema, (#[trigger] map@[i]).0@) is None;
                    assert(name_map_view(map@).len() == map@.len());
                    assert(name_map_view(project_data.column_name_map@).len() == project_data.column_name_map@.len());
                    assert(name_map_view(map@)[i] == name_map_view(project_data.column_name_map@)[i]);
                    assert(name_map_view(map@)[i] == (map@[i].0@, map@[i].1@));
                    let n = project_data.column_name_map@[i].0@;
                    assert(name_map_view(project_data.column_name_map@)[i] == (n, project_data.column_name_map@[i].1@));
                    assert(map@[i].0@ == n);
                    let tail = Seq::new(project_data.column_name_map@.len(), |j: int| project_data.column_name_map@[j].0@);
                    assert(tail[i] == n);
                    assert((u + tail)[u.len() + i] == tail[i]);
                    assert(used_columns(*query_op)[u.len() + i] == n);
                    assert(names_view(global_needed@).contains(n));
                    assert(table_columns(ctx.tables(), t).contains(n));
                    assert(child_schema.contains(n));
                    lemma_contains_last_index(child_schema, n);
                    assert(false);
                }
            }
            r
        },
        QueryOp::Cross(cross_data) => {
            proof {
                let ul = used_columns(*cross_data.left);
                let ur = used_columns(*cross_data.right);
                assert(used_columns(*query_op) == ul + ur);
                if forall|k: int| 0 <= k < used_columns(*query_op).len() ==> names_view(global_needed@).contains(
                    #[trigger] used_columns(*query_op)[k]) {
                    assert forall|k: int| 0 <= k < ul.len() implies names_view(global_needed@).contains(#[trigger] ul[k]) by {
                        assert(used_columns(*query_op)[k] == ul[k]);
                    }
                    assert forall|k: int| 0 <= k < ur.len() implies names_view(global_needed@).contains(#[trigger] ur[k]) by {
                        assert(used_columns(*query_op)[ul.len() + k] == ur[k]);
                    }
                }
            }
            let left = build_operator_internal(&cross_data.left, ctx, global_needed, needed_above, Vec::new(), None, state)?;
            let right = build_operator_internal(&cross_data.right, ctx, global_needed, needed_above, Vec::new(), None, state)?;
            Ok(make_cross(tables, left, right))
        },
        QueryOp::Sort(sort_data) => {
            let mut sort_needs = copy_names(needed_above);
            let ghost specs = sort_data.sort_specs@;
            let ghost above = names_view(needed_above@);
            let mut i: usize = 0;
            while i < sort_data.sort_specs.len()
                invariant
                    i <= sort_data.sort_specs.len(),
                    specs == sort_data.sort_specs@,
                    names_view(sort_needs@) == above + Seq::new(i as nat, |j: int| specs[j].column_name@),
                decreases sort_data.sort_specs.len() - i,
            {
                let ghost before = names_view(sort_needs@);
                sort_needs.push(sort_data.sort_specs[i].column_name.clone());
                proof {
                    assert(names_view(sort_needs@) =~= before.push(specs[i as int].column_name@));
                    assert(names_view(sort_needs@) =~= above + Seq::new((i + 1) as nat, |j: int| specs[j].column_name@));
                }
                i += 1;
            }
            let ghost u = used_columns(*sort_data.underlying);
            let ghost all_needed = forall|k: int| 0 <= k < used_columns(*query_op).len() ==> names_view(global_needed@).contains(
                #[trigger] used_columns(*query_op)[k]);
            let ghost tail = Seq::new(specs.len(), |j: int| specs[j].column_name@);
            proof {
                assert(used_columns(*query_op) == u + tail);
                if all_needed {
                    assert forall|k: int| 0 <= k < u.len() implies names_view(global_needed@).contains(#[trigger] u[k]) by {
                        assert(used_columns(*query_op)[k] == u[k]);
                    }
                }
            }
            let mut child = build_operator_internal(&sort_data.underlying, ctx, global_needed, &sort_needs, Vec::new(), dynamic_filter, state)?;
            let ghost ok_case = sort_within(*query_op, ctx.tables()) && all_needed;
            proof {
                if ok_case {
                    let t = filtered_table(*sort_data.underlying, ctx.tables())->0;
                    assert forall|i: int| 0 <= i < specs.len() implies child.node.schema(ctx.tables()).contains(
                        #[trigger] specs[i].column_name@) by {
                        assert(tail[i] == specs[i].column_name@);
                        assert(used_columns(*query_op)[u.len() + i] == tail[i]);
                        assert(table_columns(ctx.tables(), t).contains(specs[i].column_name@));
                    }
                }
            }
            assert(ok_case ==> forall|i: int| 0 <= i < specs.len() ==> child.node.schema(ctx.tables()).contains(
                #[trigger] specs[i].column_name@));
            if needed_above.len() > 0 {
                let ghost before = child;
                child = prune_columns(tables, child, &sort_needs)?;
                proof {
                    if ok_case {
                        let sch = names_view(before.schema@);
                        let kept = kept_names(sch, names_view(sort_needs@));
                        assert forall|i: int| 0 <= i < specs.len() implies child.node.schema(ctx.tables()).contains(
                            #[trigger] specs[i].column_name@) by {
                            let n = specs[i].column_name@;
                            assert(before.node.schema(ctx.tables()).contains(n));
                            assert(names_view(sort_needs@)[above.len() + i] == n);
                            lemma_kept_names_contains(sch, names_view(sort_needs@), n);
                            if 0 < kept.len() < before.schema@.len() {
                                let q = choose|q: int| 0 <= q < kept.len() && kept[q] == n;
                                match child.node {
                                    PlanNode::Project { child: c, column_name_map } => {
                                        assert(name_map_view(column_name_map@).len() == column_name_map@.len());
                                        assert(kept.map_values(|m: Seq<char>| (m, m))[q] == (n, n));
                                        assert(name_map_view(column_name_map@)[q] == (column_name_map@[q].0@, column_name_map@[q].1@));
                                        assert(column_name_map@[q].1@ == n);
                                        assert(child.node.schema(ctx.tables())[q] == n);
                                    },
                                    _ => {},
                                }
                            }
                        }
                    }
                }
            }
            assert(ok_case ==> forall|i: int| 0 <= i < specs.len() ==> child.node.schema(ctx.tables()).contains(
                #[trigger] specs[i].column_name@));
            if ordering_satisfies(match &child.ordering { Some(o) => Some(o), None => None }, &sort_data.sort_specs) {
                return Ok(child);
            }
            let ghost child_schema = child.node.schema(ctx.tables());
            let copied = copy_sort_specs(&sort_data.sort_specs);
            proof {
                if ok_case {
                    lemma_sort_keys_found(child_schema, specs, copied@);
                }
            }
            let r = make_sort(tables, child, copied);
            r
        },
    }
}

/// Sort keys that name columns of a schema are found in it, also in a
/// copy of the keys.
proof fn lemma_sort_keys_found(schema: Seq<Seq<char>>, specs: Seq<crate::query::SortSpec>, copied: Seq<crate::query::SortSpec>)
    requires
        specs_view(copied) == specs_view(specs),
        forall|i: int| 0 <= i < specs.len() ==> schema.contains(#[trigger] specs[i].column_name@),
    ensures
        forall|i: int| 0 <= i < copied.len() ==> last_index_of(schema, (#[trigger] copied[i]).column_name@) is Some,
{
    assert forall|i: int| 0 <= i < copied.len() implies last_index_of(schema, (#[trigger] copied[i]).column_name@) is Some by {
        assert(specs_view(copied).len() == copied.len());
        assert(specs_view(copied)[i] == copied[i]@);
        assert(specs_view(specs)[i] == specs[i]@);
        assert(copied[i].column_name@ == specs[i].column_name@);
        lemma_contains_last_index(schema, specs[i].column_name@);
    }
}

/// Plans a query: every scan keeps the columns the query reads.
pub fn build_operator(query_op: &QueryOp, ctx: &DbContext) -> (r: Result<(PhysicalPlan, PlanState), PlanError>)
    ensures
        r matches Ok((p, _)) ==> p.wf(ctx.tables()),
        r matches Ok((p, _)) ==> (query_op matches QueryOp::Sort(s) ==> order_satisfies(
            opt_ordering_view(p.ordering),
            specs_view(s.sort_specs@),
        )),
        r is Ok ==> tables_known(*query_op, ctx.tables()),
        (*query_op is Scan && tables_known(*query_op, ctx.tables())) ==> r is Ok,
        r matches Err(e) ==> (e == PlanError::ColumnNotFound || (e == PlanError::TableNotFound && !tables_known(
            *query_op,
            ctx.tables(),
        ))),
        filtered_table(*query_op, ctx.tables()) matches Some(t) ==> (filters_within(*query_op, table_columns(ctx.tables(), t))
            ==> r is Ok),
        projection_within(*query_op, ctx.tables()) ==> r is Ok,
        sort_within(*query_op, ctx.tables()) ==> r is Ok,
        simply_plannable(*query_op, ctx.tables()) ==> r is Ok,
        (*query_op is Filter && chain_base(*query_op) is Cross) ==> (r matches Ok((p, _)) ==> forall|i: int|
            0 <= i < chain_preds(*query_op).len() ==> plan_covers(p.node, #[trigger] chain_preds(*query_op)[i])),
{
    let global_needed = get_all_used_columns(query_op);
    proof {
        assert forall|k: int| 0 <= k < used_columns(*query_op).len() implies names_view(global_needed@).contains(
            #[trigger] used_columns(*query_op)[k]) by {
            assert(names_view(global_needed@)[k] == used_columns(*query_op)[k]);
        }
    }
    let needed_above: Vec<String> = Vec::new();
    let mut state = PlanState { next_slot: 0, uses_hash_join: false };
    let plan = build_operator_internal(query_op, ctx, &global_needed, &needed_above, Vec::new(), None, &mut state)?;
    Ok((plan, state))
}

// ─── Memory budgets ──────────────────────────────────────────────────────

/// Which kinds of operator a query has.
#[derive(Debug, Clone, Copy, PartialEq, Eq, Structural)]
pub struct QueryProfile {
    pub has_sort: bool,
    pub has_cross: bool,
}

pub open spec fn spec_profile(q: QueryOp) -> QueryProfile
    decreases q,
{
    match q {
        QueryOp::Sort(s) => QueryProfile { has_sort: true, has_cross: spec_profile(*s.underlying).has_cross },
        QueryOp::Cross(c) => QueryProfile {
            has_sort: spec_profile(*c.left).has_sort || spec_profile(*c.right).has_sort,
            has_cross: true,
        },
        QueryOp::Filter(f) => spec_profile(*f.underlying),
        QueryOp::Project(p) => spec_profile(*p.underlying),
        QueryOp::Scan(_) => QueryProfile { has_sort: false, has_cross: false },
    }
}

/// Whether the query sorts and whether it takes a cross product.
pub fn profile_query(op: &QueryOp) -> (r: QueryProfile)
    ensures
        r == spec_profile(*op),
    decreases op,
{
    match op {
        QueryOp::Sort(data) => {
            let p = profile_query(&data.underlying);
            QueryProfile { has_sort: true, has_cross: p.has_cross }
        },
        QueryOp::Cross(data) => {
            let left = profile_query(&data.left);
            let right = profile_query(&data.right);
            QueryProfile { has_sort: left.has_sort || right.has_sort, has_cross: true }
        },
        QueryOp::Filter(data) => profile_query(&data.underlying),
        QueryOp::Project(data) => profile_query(&data.underlying),
        QueryOp::Scan(_) => QueryProfile { has_sort: false, has_cross: false },
    }
}

} // verus!

//! Predicates: what a comparison means on two values, predicates compiled
//! against a schema, and their evaluation on rows.
use vstd::prelude::*;
use crate::data::{Comparison, Data, Value, data_eq, data_partial_compare, value_eq, value_partial_order};
use crate::query::{CmpValueView, ComparisionOperator, ComparisionValue, Predicate};
use crate::row::Row;

verus! {

/// `a <op> b` on two values, with `==` and `partial_cmp` of the values:
/// values of different types, and NaN, satisfy only `NE`.
pub open spec fn op_holds(op: ComparisionOperator, a: Value, b: Value) -> bool {
    match op {
        ComparisionOperator::EQ => value_eq(a, b),
        ComparisionOperator::NE => !value_eq(a, b),
        ComparisionOperator::GT => value_partial_order(a, b) == Some(Comparison::Greater),
        ComparisionOperator::GTE => value_partial_order(a, b) matches Some(c) && c
            != Comparison::Less,
        ComparisionOperator::LT => value_partial_order(a, b) == Some(Comparison::Less),
        ComparisionOperator::LTE => value_partial_order(a, b) matches Some(c) && c
            != Comparison::Greater,
    }
}

/// `a <op> b` on two column values.
pub fn compare_op(op: ComparisionOperator, a: &Data, b: &Data) -> (r: bool)
    ensures
        r == op_holds(op, a@, b@),
{
    match op {
        ComparisionOperator::EQ => data_eq(a, b),
        ComparisionOperator::NE => !data_eq(a, b),
        ComparisionOperator::GT => data_partial_compare(a, b) == Some(Comparison::Greater),
        ComparisionOperator::GTE => match data_partial_compare(a, b) {
            Some(c) => c != Comparison::Less,
            None => false,
        },
        ComparisionOperator::LT => data_partial_compare(a, b) == Some(Comparison::Less),
        ComparisionOperator::LTE => match data_partial_compare(a, b) {
            Some(c) => c != Comparison::Greater,
            None => false,
        },
    }
}

/// The value a literal denotes (`None` for a column reference); a string
/// literal denotes its UTF-8 bytes.
pub open spec fn literal_value(v: CmpValueView) -> Option<Value> {
    match v {
        CmpValueView::Column(_) => None,
        CmpValueView::I32(x) => Some(Value::Int32(x)),
        CmpValueView::I64(x) => Some(Value::Int64(x)),
        CmpValueView::F32(x) => Some(Value::Float32(x)),
        CmpValueView::F64(x) => Some(Value::Float64(x)),
        CmpValueView::Str(s) => Some(Value::Str(vstd::utf8::encode_utf8(s))),
    }
}

/// The column value a literal denotes.
pub fn literal_to_data(v: &ComparisionValue) -> (r: Option<Data>)
    ensures
        match r {
            Some(d) => literal_value(v@) == Some(d@),
            None => literal_value(v@) is None,
        },
{
    match v {
        ComparisionValue::Column(_) => None,
        ComparisionValue::I32(x) => Some(Data::Int32(*x)),
        ComparisionValue::I64(x) => Some(Data::Int64(*x)),
        ComparisionValue::F32(x) => Some(Data::Float32(*x)),
        ComparisionValue::F64(x) => Some(Data::Float64(*x)),
        ComparisionValue::String(s) => Some(Data::String(crate::catalog::name_to_bytes(s))),
    }
}

// ─── Name lookup in a schema ─────────────────────────────────────────────

/// The first position of `name` in `schema`.
#[verifier::opaque]
pub open spec fn first_index_of(schema: Seq<Seq<char>>, name: Seq<char>) -> Option<int> {
    if exists|i: int| 0 <= i < schema.len() && schema[i] == name {
        Some(choose|i: int| 0 <= i < schema.len() && schema[i] == name && forall|j: int| 0 <= j < i ==> schema[j] != name)
    } else {
        None
    }
}

/// The last position of `name` in `schema` (a name map built from a schema
/// keeps the last column of a repeated name).
#[verifier::opaque]
pub open spec fn last_index_of(schema: Seq<Seq<char>>, name: Seq<char>) -> Option<int> {
    if exists|i: int| 0 <= i < schema.len() && schema[i] == name {
        Some(choose|i: int| 0 <= i < schema.len() && schema[i] == name && forall|j: int| i < j < schema.len() ==> schema[j] != name)
    } else {
        None
    }
}

/// The names of a schema.
pub open spec fn names_view(s: Seq<String>) -> Seq<Seq<char>> {
    Seq::new(s.len(), |i: int| s[i]@)
}

/// The first position of `name` in `schema`.
pub fn position_of(schema: &Vec<String>, name: &String) -> (r: Option<usize>)
    ensures
        match r {
            Some(i) => first_index_of(names_view(schema@), name@) == Some(i as int) && i < schema@.len(),
            None => first_index_of(names_view(schema@), name@) is None,
        },
{
    reveal(first_index_of);
    let ghost ns = names_view(schema@);
    let mut i: usize = 0;
    while i < schema.len()
        invariant
            i <= schema.len(),
            ns == names_view(schema@),
            forall|j: int| 0 <= j < i ==> ns[j] != name@,
        decreases schema.len() - i,
    {
        if schema[i] == *name {
            proof {
                reveal(first_index_of);
                assert(ns[i as int] == name@);
                assert(0 <= i < ns.len() && ns[i as int] == name@ && forall|j: int| 0 <= j < i ==> ns[j] != name@);
                let w = choose|k: int| 0 <= k < ns.len() && ns[k] == name@ && forall|j: int| 0 <= j < k ==> ns[j] != name@;
                assert(0 <= w < ns.len() && ns[w] == name@ && forall|j: int| 0 <= j < w ==> ns[j] != name@);
                if w < i { assert(ns[w] != name@); } else if w > i { assert(ns[i as int] != name@); }
                assert(w == i);
                assert(exists|k: int| 0 <= k < ns.len() && ns[k] == name@);
                assert(first_index_of(ns, name@) == Some(w));
            }
            return Some(i);
        }
        i += 1;
    }
    None
}

/// The last position of `name` in `schema`.
pub fn last_position_of(schema: &Vec<String>, name: &String) -> (r: Option<usize>)
    ensures
        match r {
            Some(i) => last_index_of(names_view(schema@), name@) == Some(i as int) && i < schema@.len(),
            None => last_index_of(names_view(schema@), name@) is None,
        },
{
    reveal(last_index_of);
    let ghost ns = names_view(schema@);
    let mut i: usize = schema.len();
    while i > 0
        invariant
            i <= schema.len(),
            ns == names_view(schema@),
            forall|j: int| i <= j < schema.len() ==> ns[j] != name@,
        decreases i,
    {
        i -= 1;
        if schema[i] == *name {
            proof {
                reveal(last_index_of);
                assert(ns[i as int] == name@);
                assert(0 <= i < ns.len() && ns[i as int] == name@ && forall|j: int| i < j < ns.len() ==> ns[j] != name@);
                let w = choose|k: int| 0 <= k < ns.len() && ns[k] == name@ && forall|j: int| k < j < ns.len() ==> ns[j] != name@;
                assert(0 <= w < ns.len() && ns[w] == name@ && forall|j: int| w < j < ns.len() ==> ns[j] != name@);
                if w < i { assert(ns[i as int] != name@); } else if w > i { assert(ns[w] != name@); }
                assert(w == i);
                assert(exists|k: int| 0 <= k < ns.len() && ns[k] == name@);
                assert(last_index_of(ns, name@) == Some(w));
            }
            return Some(i);
        }
    }
    None
}

// ─── Compiled predicates ─────────────────────────────────────────────────

/// The right-hand side of a compiled predicate.
#[derive(Debug)]
pub enum RightValue {
    Column(usize),
    Literal(Data),
}

/// A predicate with its columns resolved to positions in a row.
#[derive(Debug)]
pub struct CompiledPredicate {
    pub left_idx: usize,
    pub operator: ComparisionOperator,
    pub right: RightValue,
}

impl CompiledPredicate {
    /// The positions it reads are within a row of `width` values.
    pub open spec fn fits(&self, width: nat) -> bool {
        &&& self.left_idx < width
        &&& (self.right matches RightValue::Column(j) ==> j < width)
    }

    /// The predicate holds of a row.
    pub open spec fn holds(&self, row: Seq<Value>) -> bool {
        let right = match self.right {
            RightValue::Column(j) => row[j as int],
            RightValue::Literal(d) => d@,
        };
        op_holds(self.operator, row[self.left_idx as int], right)
    }
}

/// Every predicate of the list holds of the row.
pub open spec fn all_hold(preds: Seq<CompiledPredicate>, row: Seq<Value>) -> bool {
    forall|k: int| 0 <= k < preds.len() ==> (#[trigger] preds[k]).holds(row)
}

pub open spec fn all_fit(preds: Seq<CompiledPredicate>, width: nat) -> bool {
    forall|k: int| 0 <= k < preds.len() ==> (#[trigger] preds[k]).fits(width)
}

/// The predicate compiled against a schema: each column is the last of
/// its name in the schema.
pub open spec fn compiles_to(p: PredicateViewAlias, schema: Seq<Seq<char>>, c: CompiledPredicate) -> bool {
    &&& last_index_of(schema, p.column) == Some(c.left_idx as int)
    &&& c.operator == p.operator
    &&& match p.value {
        CmpValueView::Column(n) => c.right matches RightValue::Column(j) && last_index_of(schema, n)
            == Some(j as int),
        _ => c.right matches RightValue::Literal(d) && literal_value(p.value) == Some(d@),
    }
}

pub type PredicateViewAlias = crate::query::PredicateView;

/// Every column a predicate names is in the schema.
pub open spec fn resolvable(p: PredicateViewAlias, schema: Seq<Seq<char>>) -> bool {
    &&& last_index_of(schema, p.column) is Some
    &&& (p.value matches CmpValueView::Column(n) ==> last_index_of(schema, n) is Some)
}

/// Compiles one predicate; `None` when a column it names is missing.
pub fn compile_predicate(p: &Predicate, schema: &Vec<String>) -> (r: Option<CompiledPredicate>)
    ensures
        match r {
            Some(c) => compiles_to(p@, names_view(schema@), c) && c.fits(schema@.len()),
            None => !resolvable(p@, names_view(schema@)),
        },
{
    let left_idx = match last_position_of(schema, &p.column_name) {
        Some(i) => i,
        None => return None,
    };
    let right = match &p.value {
        ComparisionValue::Column(n) => match last_position_of(schema, n) {
            Some(j) => RightValue::Column(j),
            None => return None,
        },
        other => match literal_to_data(other) {
            Some(d) => RightValue::Literal(d),
            None => return None,
        },
    };
    Some(CompiledPredicate { left_idx, operator: p.operator, right })
}

/// Compiles every predicate against the schema, in order; `None` when a
/// predicate names a column the schema lacks.
pub fn compile_predicates(preds: &Vec<Predicate>, schema: &Vec<String>) -> (r: Option<
    Vec<CompiledPredicate>,
>)
    ensures
        match r {
            Some(cs) => cs@.len() == preds@.len() && all_fit(cs@, schema@.len()) && forall|k: int|
                0 <= k < preds@.len() ==> compiles_to(preds@[k]@, names_view(schema@), #[trigger] cs@[k]),
            None => exists|k: int| 0 <= k < preds@.len() && !resolvable(#[trigger] preds@[k]@, names_view(schema@)),
        },
{
    let mut out: Vec<CompiledPredicate> = Vec::new();
    let mut i: usize = 0;
    while i < preds.len()
        invariant
            i <= preds.len(),
            out@.len() == i,
            all_fit(out@, schema@.len()),
            forall|k: int| 0 <= k < i ==> compiles_to(preds@[k]@, names_view(schema@), #[trigger] out@[k]),
        decreases preds.len() - i,
    {
        match compile_predicate(&preds[i], schema) {
            Some(c) => out.push(c),
            None => {
                assert(!resolvable(preds@[i as int]@, names_view(schema@)));
                return None;
            },
        }
        i += 1;
    }
    Some(out)
}

/// Whether one compiled predicate holds of a row.
pub fn evaluate_predicate(predicate: &CompiledPredicate, row: &Row) -> (r: bool)
    requires
        predicate.fits(row@.len()),
    ensures
        r == predicate.holds(row@),
{
    let left = &row.values[predicate.left_idx];
    match &predicate.right {
        RightValue::Column(idx) => compare_op(predicate.operator, left, &row.values[*idx]),
        RightValue::Literal(v) => compare_op(predicate.operator, left, v),
    }
}

/// Whether every predicate holds of a row (their conjunction).
pub fn row_passes(predicates: &Vec<CompiledPredicate>, row: &Row) -> (r: bool)
    requires
        all_fit(predicates@, row@.len()),
    ensures
        r == all_hold(predicates@, row@),
{
    let mut i: usize = 0;
    while i < predicates.len()
        invariant
            i <= predicates.len(),
            all_fit(predicates@, row@.len()),
            forall|k: int| 0 <= k < i ==> (#[trigger] predicates@[k]).holds(row@),
        decreases predicates.len() - i,
    {
        assert(predicates@[i as int].fits(row@.len()));
        if !evaluate_predicate(&predicates[i], row) {
            return false;
        }
        i += 1;
    }
    true
}

} // verus!

//! The logical query tree handed to the engine, and its builders.
//!
//! Floating-point literals are held as their IEEE-754 bit patterns.
use vstd::prelude::*;

verus! {

/// A comparison between a column and a value.
#[derive(Debug, Clone, Copy, PartialEq, Eq, Structural)]
pub enum ComparisionOperator {
    EQ,
    NE,
    GT,
    GTE,
    LT,
    LTE,
}

/// The right-hand side of a predicate: another column or a literal.
#[derive(Debug)]
pub enum ComparisionValue {
    Column(String),
    I32(i32),
    I64(i64),
    F32(u32),
    F64(u64),
    String(String),
}

/// The mathematical value of a [`ComparisionValue`].
pub enum CmpValueView {
    Column(Seq<char>),
    I32(i32),
    I64(i64),
    F32(u32),
    F64(u64),
    Str(Seq<char>),
}

impl View for ComparisionValue {
    type V = CmpValueView;

    open spec fn view(&self) -> CmpValueView {
        match self {
            ComparisionValue::Column(s) => CmpValueView::Column(s@),
            ComparisionValue::I32(v) => CmpValueView::I32(*v),
            ComparisionValue::I64(v) => CmpValueView::I64(*v),
            ComparisionValue::F32(v) => CmpValueView::F32(*v),
            ComparisionValue::F64(v) => CmpValueView::F64(*v),
            ComparisionValue::String(s) => CmpValueView::Str(s@),
        }
    }
}

impl ComparisionValue {
    /// A copy of this value.
    pub fn copy(&self) -> (r: ComparisionValue)
        ensures
            r@ == self@,
    {
        match self {
            ComparisionValue::Column(s) => ComparisionValue::Column(s.clone()),
            ComparisionValue::I32(v) => ComparisionValue::I32(*v),
            ComparisionValue::I64(v) => ComparisionValue::I64(*v),
            ComparisionValue::F32(v) => ComparisionValue::F32(*v),
            ComparisionValue::F64(v) => ComparisionValue::F64(*v),
            ComparisionValue::String(s) => ComparisionValue::String(s.clone()),
        }
    }
}

/// `column_name <operator> value`.
#[derive(Debug)]
pub struct Predicate {
    pub column_name: String,
    pub operator: ComparisionOperator,
    pub value: ComparisionValue,
}

pub struct PredicateView {
    pub column: Seq<char>,
    pub operator: ComparisionOperator,
    pub value: CmpValueView,
}

impl View for Predicate {
    type V = PredicateView;

    open spec fn view(&self) -> PredicateView {
        PredicateView { column: self.column_name@, operator: self.operator, value: self.value@ }
    }
}

impl Predicate {
    /// A copy of this predicate.
    pub fn copy(&self) -> (r: Predicate)
        ensures
            r@ == self@,
    {
        Predicate {
            column_name: self.column_name.clone(),
            operator: self.operator,
            value: self.value.copy(),
        }
    }
}

/// The views of a sequence of predicates.
pub open spec fn preds_view(ps: Seq<Predicate>) -> Seq<PredicateView> {
    Seq::new(ps.len(), |i: int| ps[i]@)
}

/// A copy of a list of predicates.
pub fn copy_predicates(ps: &Vec<Predicate>) -> (r: Vec<Predicate>)
    ensures
        preds_view(r@) == preds_view(ps@),
{
    let mut r: Vec<Predicate> = Vec::new();
    let mut i: usize = 0;
    while i < ps.len()
        invariant
            i <= ps.len(),
            r@.len() == i,
            forall|k: int| 0 <= k < i ==> (#[trigger] r@[k])@ == ps@[k]@,
        decreases ps.len() - i,
    {
        r.push(ps[i].copy());
        i += 1;
    }
    assert(preds_view(r@) =~= preds_view(ps@));
    r
}

#[derive(Debug)]
pub struct FilterData {
    pub predicates: Vec<Predicate>,
    pub underlying: Box<QueryOp>,
}

#[derive(Debug)]
pub struct ProjectData {
    pub column_name_map: Vec<(String, String)>,
    pub underlying: Box<QueryOp>,
}

#[derive(Debug)]
pub struct CrossData {
    pub left: Box<QueryOp>,
    pub right: Box<QueryOp>,
}

/// One key of a sort: a column and its direction.
#[derive(Debug)]
pub struct SortSpec {
    pub column_name: String,
    pub ascending: bool,
}

impl View for SortSpec {
    type V = (Seq<char>, bool);

    open spec fn view(&self) -> (Seq<char>, bool) {
        (self.column_name@, self.ascending)
    }
}

#[derive(Debug)]
pub struct SortData {
    pub sort_specs: Vec<SortSpec>,
    pub underlying: Box<QueryOp>,
}

#[derive(Debug)]
pub struct ScanData {
    pub table_id: String,
}

/// A node of the logical query tree.
#[derive(Debug)]
pub enum QueryOp {
    Filter(FilterData),
    Project(ProjectData),
    Cross(CrossData),
    Sort(SortData),
    Scan(ScanData),
}

/// A whole query.
#[derive(Debug)]
pub struct Query {
    pub root: QueryOp,
}

/// The views of a column-name map.
pub open spec fn name_map_view(m: Seq<(String, String)>) -> Seq<(Seq<char>, Seq<char>)> {
    Seq::new(m.len(), |i: int| (m[i].0@, m[i].1@))
}

/// The views of a list of sort keys.
pub open spec fn specs_view(s: Seq<SortSpec>) -> Seq<(Seq<char>, bool)> {
    Seq::new(s.len(), |i: int| s[i]@)
}

/// Builds a projection list one `(from, to)` pair at a time.
pub struct MultiProjectBuilder {
    column_name_map: Vec<(String, String)>,
}

impl View for MultiProjectBuilder {
    type V = Seq<(Seq<char>, Seq<char>)>;

    closed spec fn view(&self) -> Seq<(Seq<char>, Seq<char>)> {
        name_map_view(self.column_name_map@)
    }
}

impl MultiProjectBuilder {
    /// A list holding the one pair `(from, to)`.
    pub fn new(from: &str, to: &str) -> (r: MultiProjectBuilder)
        ensures
            r@ == seq![(from@, to@)],
    {
        let mut column_name_map: Vec<(String, String)> = Vec::new();
        column_name_map.push((from.to_owned(), to.to_owned()));
        let r = MultiProjectBuilder { column_name_map };
        assert(r@ =~= seq![(from@, to@)]);
        r
    }

    /// The list with `(from, to)` appended.
    pub fn add(self, from: &str, to: &str) -> (r: MultiProjectBuilder)
        ensures
            r@ == self@.push((from@, to@)),
    {
        let mut column_name_map = self.column_name_map;
        column_name_map.push((from.to_owned(), to.to_owned()));
        let r = MultiProjectBuilder { column_name_map };
        assert(r@ =~= self@.push((from@, to@)));
        r
    }

    /// The pairs, in the order they were added.
    pub fn build(self) -> (r: Vec<(String, String)>)
        ensures
            name_map_view(r@) == self@,
    {
        self.column_name_map
    }
}

/// Builds a list of sort keys one key at a time.
pub struct MultiSortBuilder {
    sort_specs: Vec<SortSpec>,
}

impl View for MultiSortBuilder {
    type V = Seq<(Seq<char>, bool)>;

    closed spec fn view(&self) -> Seq<(Seq<char>, bool)> {
        specs_view(self.sort_specs@)
    }
}

impl MultiSortBuilder {
    /// A list holding the one key.
    pub fn new(column_name: &str, ascending: bool) -> (r: MultiSortBuilder)
        ensures
            r@ == seq![(column_name@, ascending)],
    {
        let mut sort_specs: Vec<SortSpec> = Vec::new();
        sort_specs.push(SortSpec { column_name: column_name.to_owned(), ascending });
        let r = MultiSortBuilder { sort_specs };
        assert(r@ =~= seq![(column_name@, ascending)]);
        r
    }

    /// The list with the key appended.
    pub fn add(self, column_name: &str, ascending: bool) -> (r: MultiSortBuilder)
        ensures
            r@ == self@.push((column_name@, ascending)),
    {
        let mut sort_specs = self.sort_specs;
        sort_specs.push(SortSpec { column_name: column_name.to_owned(), ascending });
        let r = MultiSortBuilder { sort_specs };
        assert(r@ =~= self@.push((column_name@, ascending)));
        r
    }

    /// The keys, in the order they were added.
    pub fn build(self) -> (r: Vec<SortSpec>)
        ensures
            specs_view(r@) == self@,
    {
        self.sort_specs
    }
}

/// Builds a conjunction of predicates one predicate at a time.
pub struct MultiPredicateBuilder {
    predicates: Vec<Predicate>,
}

impl View for MultiPredicateBuilder {
    type V = Seq<PredicateView>;

    closed spec fn view(&self) -> Seq<PredicateView> {
        preds_view(self.predicates@)
    }
}

impl MultiPredicateBuilder {
    /// A list holding the one predicate.
    pub fn new(column_name: &str, operator: ComparisionOperator, value: ComparisionValue) -> (r:
        MultiPredicateBuilder)
        ensures
            r@ == seq![PredicateView { column: column_name@, operator, value: value@ }],
    {
        let mut predicates: Vec<Predicate> = Vec::new();
        predicates.push(Predicate { column_name: column_name.to_owned(), operator, value });
        let r = MultiPredicateBuilder { predicates };
        assert(r@ =~= seq![PredicateView { column: column_name@, operator, value: value@ }]);
        r
    }

    /// The list with the predicate appended.
    pub fn add(self, column_name: &str, operator: ComparisionOperator, value: ComparisionValue) -> (r:
        MultiPredicateBuilder)
        ensures
            r@ == self@.push(PredicateView { column: column_name@, operator, value: value@ }),
    {
        let ghost v = value@;
        let mut predicates = self.predicates;
        predicates.push(Predicate { column_name: column_name.to_owned(), operator, value });
        let r = MultiPredicateBuilder { predicates };
        assert(r@ =~= self@.push(PredicateView { column: column_name@, operator, value: v }));
        r
    }

    /// The predicates, in the order they were added.
    pub fn build(self) -> (r: Vec<Predicate>)
        ensures
            preds_view(r@) == self@,
    {
        self.predicates
    }
}

impl QueryOp {
    /// A scan of the table named `table_id`.
    pub fn scan(table_id: &str) -> (r: QueryOp)
        ensures
            r matches QueryOp::Scan(s) && s.table_id@ == table_id@,
    {
        QueryOp::Scan(ScanData { table_id: table_id.to_owned() })
    }

    /// This tree under a filter by all the builder's predicates.
    pub fn filter_multiple(self, multi_predicate_builder: MultiPredicateBuilder) -> (r: QueryOp)
        ensures
            r matches QueryOp::Filter(f) && *f.underlying == self && preds_view(f.predicates@)
                == multi_predicate_builder@,
    {
        QueryOp::Filter(
            FilterData {
                underlying: Box::new(self),
                predicates: multi_predicate_builder.build(),
            },
        )
    }

    /// This tree under a filter by one predicate.
    pub fn filter(self, column_name: &str, operator: ComparisionOperator, value: ComparisionValue) -> (r:
        QueryOp)
        ensures
            r matches QueryOp::Filter(f) && *f.underlying == self && preds_view(f.predicates@)
                == seq![PredicateView { column: column_name@, operator, value: value@ }],
    {
        Self::filter_multiple(self, MultiPredicateBuilder::new(column_name, operator, value))
    }

    /// The cross product of this tree and `right`.
    pub fn cross(self, right: QueryOp) -> (r: QueryOp)
        ensures
            r matches QueryOp::Cross(c) && *c.left == self && *c.right == right,
    {
        QueryOp::Cross(CrossData { left: Box::new(self), right: Box::new(right) })
    }

    /// This tree sorted by the builder's keys.
    pub fn sort_multiple(self, multi_sort_builder: MultiSortBuilder) -> (r: QueryOp)
        ensures
            r matches QueryOp::Sort(s) && *s.underlying == self && specs_view(s.sort_specs@)
                == multi_sort_builder@,
    {
        QueryOp::Sort(
            SortData { underlying: Box::new(self), sort_specs: multi_sort_builder.build() },
        )
    }

    /// This tree sorted by one column.
    pub fn sort(self, column_name: &str, ascending: bool) -> (r: QueryOp)
        ensures
            r matches QueryOp::Sort(s) && *s.underlying == self && specs_view(s.sort_specs@)
                == seq![(column_name@, ascending)],
    {
        Self::sort_multiple(self, MultiSortBuilder::new(column_name, ascending))
    }

    /// This tree projected to the one column `from`, renamed `to`.
    pub fn project(self, from: &str, to: &str) -> (r: QueryOp)
        ensures
            r matches QueryOp::Project(p) && *p.underlying == self && name_map_view(
                p.column_name_map@,
            ) == seq![(from@, to@)],
    {
        QueryOp::Project(
            ProjectData {
                underlying: Box::new(self),
                column_name_map: MultiProjectBuilder::new(from, to).build(),
            },
        )
    }

    /// This tree projected by the builder's `(from, to)` pairs.
    pub fn project_multiple(self, multi_project_builder: MultiProjectBuilder) -> (r: QueryOp)
        ensures
            r matches QueryOp::Project(p) && *p.underlying == self && name_map_view(
                p.column_name_map@,
            ) == multi_project_builder@,
    {
        QueryOp::Project(
            ProjectData {
                underlying: Box::new(self),
                column_name_map: multi_project_builder.build(),
            },
        )
    }

    /// The query whose root is this tree.
    pub fn build(self) -> (r: Query)
        ensures
            r.root == self,
    {
        Query { root: self }
    }
}

} // verus!

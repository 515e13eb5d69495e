//! Queries: trees of relational operators.

use vstd::prelude::*;

use crate::data::{Data, DataValue};

verus! {

/// How a predicate compares its two sides.
#[derive(Debug, Clone, Copy, PartialEq, Eq, Structural)]
pub enum ComparisionOperator {
    EQ,
    NE,
    GT,
    GTE,
    LT,
    LTE,
}

/// The right side of a predicate: a column or a literal. A floating-point
/// literal is held as its IEEE 754 bit pattern, beside the text that stands for
/// it where a predicate is known by its text.
#[derive(Debug, PartialEq, Eq)]
pub enum ComparisionValue {
    Column(String),
    I32(i32),
    I64(i64),
    F32(u32, String),
    F64(u64, String),
    String(String),
}

/// A condition on a row.
#[derive(Debug, PartialEq, Eq)]
pub struct Predicate {
    pub column_name: String,
    pub operator: ComparisionOperator,
    pub value: ComparisionValue,
}

/// A column to sort by, and the direction.
#[derive(Debug, PartialEq, Eq)]
pub struct SortSpec {
    pub column_name: String,
    pub ascending: bool,
}

/// All rows of a table.
#[derive(Debug, PartialEq, Eq)]
pub struct ScanData {
    pub table_id: String,
}

/// The rows that meet every predicate.
#[derive(Debug, PartialEq, Eq)]
pub struct FilterData {
    pub predicates: Vec<Predicate>,
    pub underlying: Box<QueryOp>,
}

/// The rows with columns picked and renamed, each pair from the old name to
/// the new one.
#[derive(Debug, PartialEq, Eq)]
pub struct ProjectData {
    pub column_name_map: Vec<(String, String)>,
    pub underlying: Box<QueryOp>,
}

/// Every row of the left side joined with every row of the right side.
#[derive(Debug, PartialEq, Eq)]
pub struct CrossData {
    pub left: Box<QueryOp>,
    pub right: Box<QueryOp>,
}

/// The rows in the order of the sort columns.
#[derive(Debug, PartialEq, Eq)]
pub struct SortData {
    pub sort_specs: Vec<SortSpec>,
    pub underlying: Box<QueryOp>,
}

/// A relational operator with its inputs.
#[derive(Debug, PartialEq, Eq)]
pub enum QueryOp {
    Scan(ScanData),
    Filter(FilterData),
    Project(ProjectData),
    Cross(CrossData),
    Sort(SortData),
}

/// A query.
#[derive(Debug, PartialEq, Eq)]
pub struct Query {
    pub root: QueryOp,
}

/// The content of a [`ComparisionValue`].
pub enum OperandView {
    Column(Seq<char>),
    Literal(DataValue),
}

/// The content of a [`Predicate`].
pub struct PredicateView {
    pub column: Seq<char>,
    pub operator: ComparisionOperator,
    pub value: OperandView,
    /// The text of a floating-point literal.
    pub float_text: Seq<char>,
}

/// The content of a [`SortSpec`].
pub struct SortSpecView {
    pub column: Seq<char>,
    pub ascending: bool,
}

/// The content of a [`QueryOp`].
pub enum OpView {
    Scan(Seq<char>),
    Filter(Seq<PredicateView>, Box<OpView>),
    Project(Seq<(Seq<char>, Seq<char>)>, Box<OpView>),
    Cross(Box<OpView>, Box<OpView>),
    Sort(Seq<SortSpecView>, Box<OpView>),
}

impl View for ComparisionValue {
    type V = OperandView;

    open spec fn view(&self) -> OperandView {
        match self {
            ComparisionValue::Column(c) => OperandView::Column(c@),
            ComparisionValue::I32(v) => OperandView::Literal(DataValue::Int32(*v)),
            ComparisionValue::I64(v) => OperandView::Literal(DataValue::Int64(*v)),
            ComparisionValue::F32(v, _) => OperandView::Literal(DataValue::Float32(*v)),
            ComparisionValue::F64(v, _) => OperandView::Literal(DataValue::Float64(*v)),
            ComparisionValue::String(v) => OperandView::Literal(DataValue::Text(v@)),
        }
    }
}

impl View for Predicate {
    type V = PredicateView;

    open spec fn view(&self) -> PredicateView {
        PredicateView {
            column: self.column_name@,
            operator: self.operator,
            value: self.value@,
            float_text: self.value.float_text(),
        }
    }
}

impl View for SortSpec {
    type V = SortSpecView;

    open spec fn view(&self) -> SortSpecView {
        SortSpecView { column: self.column_name@, ascending: self.ascending }
    }
}

/// The contents of predicates.
pub open spec fn predicate_views(predicates: Seq<Predicate>) -> Seq<PredicateView> {
    Seq::new(predicates.len(), |i: int| predicates[i]@)
}

/// The contents of sort columns.
pub open spec fn sort_views(specs: Seq<SortSpec>) -> Seq<SortSpecView> {
    Seq::new(specs.len(), |i: int| specs[i]@)
}

/// The contents of a column map.
pub open spec fn map_views(map: Seq<(String, String)>) -> Seq<(Seq<char>, Seq<char>)> {
    Seq::new(map.len(), |i: int| (map[i].0@, map[i].1@))
}

/// The content of an operator tree.
pub open spec fn op_view(op: QueryOp) -> OpView
    decreases op,
{
    match op {
        QueryOp::Scan(s) => OpView::Scan(s.table_id@),
        QueryOp::Filter(f) => OpView::Filter(
            predicate_views(f.predicates@),
            Box::new(op_view(*f.underlying)),
        ),
        QueryOp::Project(p) => OpView::Project(
            map_views(p.column_name_map@),
            Box::new(op_view(*p.underlying)),
        ),
        QueryOp::Cross(c) => OpView::Cross(
            Box::new(op_view(*c.left)),
            Box::new(op_view(*c.right)),
        ),
        QueryOp::Sort(s) => OpView::Sort(
            sort_views(s.sort_specs@),
            Box::new(op_view(*s.underlying)),
        ),
    }
}

impl View for QueryOp {
    type V = OpView;

    open spec fn view(&self) -> OpView {
        op_view(*self)
    }
}

impl OpView {
    /// The number of operators in the tree.
    pub open spec fn size(self) -> nat
        decreases self,
    {
        match self {
            OpView::Scan(_) => 1,
            OpView::Filter(_, u) => 1 + u.size(),
            OpView::Project(_, u) => 1 + u.size(),
            OpView::Cross(l, r) => 1 + l.size() + r.size(),
            OpView::Sort(_, u) => 1 + u.size(),
        }
    }
}

impl Clone for ComparisionValue {
    fn clone(&self) -> (r: Self)
        ensures
            r@ == self@,
            r.float_text() == self.float_text(),
    {
        match self {
            ComparisionValue::Column(c) => ComparisionValue::Column(c.clone()),
            ComparisionValue::I32(v) => ComparisionValue::I32(*v),
            ComparisionValue::I64(v) => ComparisionValue::I64(*v),
            ComparisionValue::F32(v, t) => ComparisionValue::F32(*v, t.clone()),
            ComparisionValue::F64(v, t) => ComparisionValue::F64(*v, t.clone()),
            ComparisionValue::String(v) => ComparisionValue::String(v.clone()),
        }
    }
}

impl ComparisionValue {
    /// The text of a floating-point literal; nothing for anything else.
    pub open spec fn float_text(self) -> Seq<char> {
        match self {
            ComparisionValue::F32(_, text) => text@,
            ComparisionValue::F64(_, text) => text@,
            _ => Seq::empty(),
        }
    }

    /// The literal as a column value; a column has none.
    pub fn literal(&self) -> (r: Option<Data>)
        ensures
            match self@ {
                OperandView::Column(_) => r is None,
                OperandView::Literal(v) => r matches Some(d) && d@ == v,
            },
    {
        match self {
            ComparisionValue::Column(_) => None,
            ComparisionValue::I32(v) => Some(Data::Int32(*v)),
            ComparisionValue::I64(v) => Some(Data::Int64(*v)),
            ComparisionValue::F32(v, _) => Some(Data::Float32(*v)),
            ComparisionValue::F64(v, _) => Some(Data::Float64(*v)),
            ComparisionValue::String(v) => Some(Data::String(v.clone())),
        }
    }
}

impl Clone for Predicate {
    fn clone(&self) -> (r: Self)
        ensures
            r@ == self@,
    {
        Predicate {
            column_name: self.column_name.clone(),
            operator: self.operator,
            value: self.value.clone(),
        }
    }
}

impl Clone for SortSpec {
    fn clone(&self) -> (r: Self)
        ensures
            r@ == self@,
    {
        SortSpec { column_name: self.column_name.clone(), ascending: self.ascending }
    }
}

/// The predicates of both lists, those of the first before those of the second.
pub fn joined_predicates(first: &Vec<Predicate>, second: &Vec<Predicate>) -> (r: Vec<Predicate>)
    ensures
        predicate_views(r@) == predicate_views(first@) + predicate_views(second@),
{
    let mut out = clone_predicates(first);
    let mut more = clone_predicates(second);
    let ghost (a, b) = (out@, more@);
    out.append(&mut more);
    assert(predicate_views(out@) =~= predicate_views(a) + predicate_views(b));
    out
}

/// A copy of `predicates`.
pub fn clone_predicates(predicates: &Vec<Predicate>) -> (r: Vec<Predicate>)
    ensures
        predicate_views(r@) == predicate_views(predicates@),
{
    let mut out: Vec<Predicate> = Vec::new();
    let mut i: usize = 0;
    while i < predicates.len()
        invariant
            i <= predicates@.len(),
            out@.len() == i,
            forall|k: int| 0 <= k < i ==> #[trigger] out@[k]@ == predicates@[k]@,
        decreases predicates@.len() - i,
    {
        out.push(predicates[i].clone());
        i = i + 1;
    }
    assert(predicate_views(out@) == predicate_views(predicates@));
    out
}

/// A copy of `specs`.
pub fn clone_sort_specs(specs: &Vec<SortSpec>) -> (r: Vec<SortSpec>)
    ensures
        sort_views(r@) == sort_views(specs@),
{
    let mut out: Vec<SortSpec> = Vec::new();
    let mut i: usize = 0;
    while i < specs.len()
        invariant
            i <= specs@.len(),
            out@.len() == i,
            forall|k: int| 0 <= k < i ==> #[trigger] out@[k]@ == specs@[k]@,
        decreases specs@.len() - i,
    {
        out.push(specs[i].clone());
        i = i + 1;
    }
    assert(sort_views(out@) == sort_views(specs@));
    out
}

/// A copy of `map`.
pub fn clone_map(map: &Vec<(String, String)>) -> (r: Vec<(String, String)>)
    ensures
        map_views(r@) == map_views(map@),
{
    let mut out: Vec<(String, String)> = Vec::new();
    let mut i: usize = 0;
    while i < map.len()
        invariant
            i <= map@.len(),
            out@.len() == i,
            forall|k: int| 0 <= k < i ==> (#[trigger] out@[k]).0@ == map@[k].0@ && out@[k].1@ == map@[k].1@,
        decreases map@.len() - i,
    {
        out.push((map[i].0.clone(), map[i].1.clone()));
        i = i + 1;
    }
    assert(map_views(out@) == map_views(map@));
    out
}

impl Clone for QueryOp {
    fn clone(&self) -> (r: Self)
        ensures
            r@ == self@,
        decreases *self,
    {
        match self {
            QueryOp::Scan(s) => QueryOp::Scan(ScanData { table_id: s.table_id.clone() }),
            QueryOp::Filter(f) => QueryOp::Filter(
                FilterData {
                    predicates: clone_predicates(&f.predicates),
                    underlying: Box::new((&*f.underlying).clone()),
                },
            ),
            QueryOp::Project(p) => QueryOp::Project(
                ProjectData {
                    column_name_map: clone_map(&p.column_name_map),
                    underlying: Box::new((&*p.underlying).clone()),
                },
            ),
            QueryOp::Cross(c) => QueryOp::Cross(
                CrossData {
                    left: Box::new((&*c.left).clone()),
                    right: Box::new((&*c.right).clone()),
                },
            ),
            QueryOp::Sort(s) => QueryOp::Sort(
                SortData {
                    sort_specs: clone_sort_specs(&s.sort_specs),
                    underlying: Box::new((&*s.underlying).clone()),
                },
            ),
        }
    }
}

impl ScanData {
    /// The content of the operator with this data.
    pub open spec fn op(self) -> OpView {
        OpView::Scan(self.table_id@)
    }
}

impl FilterData {
    /// The content of the operator with this data.
    pub open spec fn op(self) -> OpView {
        OpView::Filter(predicate_views(self.predicates@), Box::new(self.underlying@))
    }
}

impl ProjectData {
    /// The content of the operator with this data.
    pub open spec fn op(self) -> OpView {
        OpView::Project(map_views(self.column_name_map@), Box::new(self.underlying@))
    }
}

impl CrossData {
    /// The content of the operator with this data.
    pub open spec fn op(self) -> OpView {
        OpView::Cross(Box::new(self.left@), Box::new(self.right@))
    }
}

impl SortData {
    /// The content of the operator with this data.
    pub open spec fn op(self) -> OpView {
        OpView::Sort(sort_views(self.sort_specs@), Box::new(self.underlying@))
    }
}

} // verus!

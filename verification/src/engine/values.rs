//! Cells, output values, accumulators and the partial state of a task.
use crate::format::meta::{ColumnData, ColumnView};
use crate::plan::ast::AggFn;
use crate::text::{dec_int, i64_text, str_eq, strs};
use vstd::prelude::*;

verus! {

/// A value that keys joins and groups.
#[derive(Clone, Debug, PartialEq, Eq, Hash)]
pub enum Cell {
    I(i64),
    S(String),
}

pub enum CellView {
    I(i64),
    S(Seq<char>),
}

impl View for Cell {
    type V = CellView;

    open spec fn view(&self) -> CellView {
        match self {
            Cell::I(v) => CellView::I(*v),
            Cell::S(s) => CellView::S(s@),
        }
    }
}

pub open spec fn cells(v: Seq<Cell>) -> Seq<CellView> {
    Seq::new(v.len(), |i: int| v[i]@)
}

pub open spec fn cell_rows(v: Seq<Vec<Cell>>) -> Seq<Seq<CellView>> {
    Seq::new(v.len(), |i: int| cells(v[i]@))
}

impl Cell {
    pub fn copy(&self) -> (r: Cell)
        ensures
            r == *self,
    {
        match self {
            Cell::I(v) => Cell::I(*v),
            Cell::S(s) => Cell::S(s.clone()),
        }
    }
}

fn cell_eq(a: &Cell, b: &Cell) -> (r: bool)
    ensures
        r == (a@ == b@),
{
    match (a, b) {
        (Cell::I(x), Cell::I(y)) => *x == *y,
        (Cell::S(x), Cell::S(y)) => str_eq(x.as_str(), y.as_str()),
        _ => false,
    }
}

pub fn cells_eq(a: &Vec<Cell>, b: &Vec<Cell>) -> (r: bool)
    ensures
        r == (cells(a@) == cells(b@)),
{
    if a.len() != b.len() {
        assert(cells(a@).len() != cells(b@).len());
        return false;
    }
    let mut k: usize = 0;
    while k < a.len()
        invariant
            k <= a@.len(),
            a@.len() == b@.len(),
            forall|i: int| 0 <= i < k ==> cells(a@)[i] == cells(b@)[i],
        decreases a@.len() - k,
    {
        if !cell_eq(&a[k], &b[k]) {
            assert(cells(a@)[k as int] != cells(b@)[k as int]);
            return false;
        }
        k += 1;
    }
    assert(cells(a@) =~= cells(b@));
    true
}

pub fn copy_cells(v: &Vec<Cell>) -> (r: Vec<Cell>)
    ensures
        r@ == v@,
{
    let mut out: Vec<Cell> = Vec::new();
    let mut k: usize = 0;
    while k < v.len()
        invariant
            k <= v@.len(),
            out@ == v@.take(k as int),
        decreases v@.len() - k,
    {
        out.push(v[k].copy());
        k += 1;
        assert(out@ =~= v@.take(k as int));
    }
    assert(v@.take(k as int) =~= v@);
    out
}

/// An output value. An average is kept as the sum and the count it divides.
#[derive(Clone, Debug)]
pub enum Val {
    I(i64),
    S(String),
    F(i64, i64),
}

pub enum ValView {
    I(i64),
    S(Seq<char>),
    F(i64, i64),
}

impl View for Val {
    type V = ValView;

    open spec fn view(&self) -> ValView {
        match self {
            Val::I(v) => ValView::I(*v),
            Val::S(s) => ValView::S(s@),
            Val::F(s, c) => ValView::F(*s, *c),
        }
    }
}

pub open spec fn vals(v: Seq<Val>) -> Seq<ValView> {
    Seq::new(v.len(), |i: int| v[i]@)
}

pub open spec fn val_rows(v: Seq<Vec<Val>>) -> Seq<Seq<ValView>> {
    Seq::new(v.len(), |i: int| vals(v[i]@))
}

pub open spec fn as_val(c: CellView) -> ValView {
    match c {
        CellView::I(v) => ValView::I(v),
        CellView::S(s) => ValView::S(s),
    }
}

pub fn cell_val(c: &Cell) -> (r: Val)
    ensures
        r@ == as_val(c@),
{
    match c {
        Cell::I(v) => Val::I(*v),
        Cell::S(s) => Val::S(s.clone()),
    }
}

impl Val {
    /// The value in words; an average in the words given for it.
    pub fn text(&self, average: &str) -> (r: String)
        ensures
            r@ == (match self@ {
                ValView::I(v) => dec_int(v as int),
                ValView::S(s) => s,
                ValView::F(_, _) => average@,
            }),
    {
        match self {
            Val::I(v) => i64_text(*v),
            Val::S(s) => s.clone(),
            Val::F(_, _) => average.to_owned(),
        }
    }
}

// ---------------------------------------------------------------------------
// Accumulators
// ---------------------------------------------------------------------------

/// Sum and count, modulo `2^64`, and range of some values.
#[derive(Clone, Copy, Debug, PartialEq, Eq, Structural)]
pub struct Acc {
    pub sum: i64,
    pub count: i64,
    pub min: i64,
    pub max: i64,
}

impl Acc {
    pub open spec fn empty() -> Acc {
        Acc { sum: 0, count: 0, min: i64::MAX, max: i64::MIN }
    }

    pub open spec fn added(self, v: i64) -> Acc {
        Acc {
            sum: self.sum.wrapping_add(v),
            count: self.count.wrapping_add(1),
            min: if v < self.min { v } else { self.min },
            max: if v > self.max { v } else { self.max },
        }
    }

    pub open spec fn counted(self) -> Acc {
        Acc { count: self.count.wrapping_add(1), ..self }
    }

    pub open spec fn merged(self, o: Acc) -> Acc {
        Acc {
            sum: self.sum.wrapping_add(o.sum),
            count: self.count.wrapping_add(o.count),
            min: if o.min < self.min { o.min } else { self.min },
            max: if o.max > self.max { o.max } else { self.max },
        }
    }

    pub open spec fn yields(self, f: AggFn) -> ValView {
        match f {
            AggFn::Sum => ValView::I(self.sum),
            AggFn::Count => ValView::I(self.count),
            AggFn::Min => ValView::I(self.min),
            AggFn::Max => ValView::I(self.max),
            AggFn::Avg => ValView::F(self.sum, self.count),
        }
    }

    pub fn new() -> (a: Acc)
        ensures
            a == Acc::empty(),
    {
        Acc { sum: 0, count: 0, min: i64::MAX, max: i64::MIN }
    }

    pub fn add_value(&mut self, v: i64)
        ensures
            *final(self) == old(self).added(v),
    {
        self.sum = self.sum.wrapping_add(v);
        self.count = self.count.wrapping_add(1);
        if v < self.min {
            self.min = v;
        }
        if v > self.max {
            self.max = v;
        }
    }

    pub fn add_count_only(&mut self)
        ensures
            *final(self) == old(self).counted(),
    {
        self.count = self.count.wrapping_add(1);
    }

    pub fn merge(&mut self, o: &Acc)
        ensures
            *final(self) == old(self).merged(*o),
    {
        self.sum = self.sum.wrapping_add(o.sum);
        self.count = self.count.wrapping_add(o.count);
        if o.min < self.min {
            self.min = o.min;
        }
        if o.max > self.max {
            self.max = o.max;
        }
    }

    pub fn result(&self, f: AggFn) -> (r: Val)
        ensures
            r@ == self.yields(f),
    {
        match f {
            AggFn::Sum => Val::I(self.sum),
            AggFn::Count => Val::I(self.count),
            AggFn::Min => Val::I(self.min),
            AggFn::Max => Val::I(self.max),
            AggFn::Avg => Val::F(self.sum, self.count),
        }
    }
}

/// Accumulators merge in any order and grouping, and values may be added on
/// either side of a merge.
pub proof fn acc_merge_laws(a: Acc, b: Acc, c: Acc, v: i64)
    ensures
        a.merged(b) == b.merged(a),
        a.merged(b).merged(c) == a.merged(b.merged(c)),
        a.merged(Acc::empty()) == a,
        a.merged(b.added(v)) == a.merged(b).added(v),
        a.merged(b.counted()) == a.merged(b).counted(),
{
}

// ---------------------------------------------------------------------------
// Groups
// ---------------------------------------------------------------------------

/// A group's key and its accumulators, one per aggregate.
#[derive(Clone, Debug)]
pub struct Group {
    pub key: Vec<Cell>,
    pub accs: Vec<Acc>,
}

#[verifier::ext_equal]
pub struct GroupView {
    pub key: Seq<CellView>,
    pub accs: Seq<Acc>,
}

impl View for Group {
    type V = GroupView;

    open spec fn view(&self) -> GroupView {
        GroupView { key: cells(self.key@), accs: self.accs@ }
    }
}

pub open spec fn groups(v: Seq<Group>) -> Seq<GroupView> {
    Seq::new(v.len(), |i: int| v[i]@)
}

/// The position of the group with a key; the number of groups if there is
/// none.
pub open spec fn group_at(g: Seq<GroupView>, key: Seq<CellView>) -> nat
    decreases g.len(),
{
    if g.len() == 0 || g[0].key == key { 0 } else { 1 + group_at(g.skip(1), key) }
}

/// The accumulators of a key.
pub open spec fn accs_of(g: Seq<GroupView>, key: Seq<CellView>) -> Option<Seq<Acc>> {
    let i = group_at(g, key) as int;
    if i < g.len() { Some(g[i].accs) } else { None }
}

/// The state of a task: groups, or rows where nothing is aggregated.
pub struct Partial {
    pub groups: Vec<Group>,
    pub rows: Vec<Vec<Val>>,
    pub joined_rows: u64,
    pub scanned_rows: u64,
}

#[verifier::ext_equal]
pub struct PartialView {
    pub groups: Seq<GroupView>,
    pub rows: Seq<Seq<ValView>>,
    pub joined_rows: u64,
    pub scanned_rows: u64,
}

impl View for Partial {
    type V = PartialView;

    open spec fn view(&self) -> PartialView {
        PartialView {
            groups: groups(self.groups@),
            rows: val_rows(self.rows@),
            joined_rows: self.joined_rows,
            scanned_rows: self.scanned_rows,
        }
    }
}

impl Partial {
    pub fn new() -> (p: Partial)
        ensures
            p@ == (PartialView {
                groups: Seq::empty(),
                rows: Seq::empty(),
                joined_rows: 0,
                scanned_rows: 0,
            }),
    {
        let p: Partial = Partial {
            groups: Vec::new(),
            rows: Vec::new(),
            joined_rows: 0,
            scanned_rows: 0,
        };
        assert(groups(p.groups@) =~= Seq::<GroupView>::empty());
        assert(val_rows(p.rows@) =~= Seq::<Seq<ValView>>::empty());
        p
    }
}

/// Finds the group with a key.
pub fn find_group(g: &Vec<Group>, key: &Vec<Cell>) -> (i: usize)
    ensures
        i == group_at(groups(g@), cells(key@)),
        i <= g@.len(),
{
    let ghost gv = groups(g@);
    let mut i: usize = 0;
    assert(gv.skip(0) =~= gv);
    while i < g.len()
        invariant
            i <= g@.len(),
            gv == groups(g@),
            group_at(gv, cells(key@)) == i + group_at(gv.skip(i as int), cells(key@)),
        decreases g@.len() - i,
    {
        assert(gv.skip(i as int)[0] == g@[i as int]@);
        assert(gv.skip(i as int).skip(1) =~= gv.skip(i + 1));
        if cells_eq(&g[i].key, key) {
            return i;
        }
        i += 1;
    }
    i
}

// ---------------------------------------------------------------------------
// Columns as cells
// ---------------------------------------------------------------------------

pub open spec fn cell_of(c: ColumnView, i: int) -> CellView {
    match c {
        ColumnView::Int64(v) => CellView::I(v[i]),
        ColumnView::Utf8(v) => CellView::S(v[i]),
    }
}

pub fn cell_at(col: &ColumnData, i: usize) -> (r: Cell)
    requires
        i < col@.len(),
    ensures
        r@ == cell_of(col@, i as int),
{
    match col {
        ColumnData::Int64(v) => Cell::I(v[i]),
        ColumnData::Utf8(v) => {
            assert(strs(v@)[i as int] == v@[i as int]@);
            Cell::S(v[i].clone())
        },
    }
}

pub fn i64_at(col: &ColumnData, i: usize) -> (r: i64)
    requires
        col is Int64,
        i < col@.len(),
    ensures
        cell_of(col@, i as int) == CellView::I(r),
{
    match col {
        ColumnData::Int64(v) => v[i],
        ColumnData::Utf8(_) => 0,
    }
}

} // verus!

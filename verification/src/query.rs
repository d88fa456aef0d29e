//! The predicate/projection query engine: resolves column names to
//! positions, evaluates composable predicates over gathered cells,
//! and projects matching rows into a fresh in-memory result.

use crate::cell::is_present;
use crate::table::row_matches;
use crate::cell::CellV;
use crate::cell::TableCell;
use crate::error::TableLikeError;
use crate::table::ColumnEntry;
use crate::table::ColV;
use crate::table::Table;
use crate::table::TableEntry;
use crate::table::TableV;
use vstd::prelude::*;

verus! {

/// How a numeric cell is compared to a bound.
#[derive(Clone, Copy, Debug, PartialEq, Eq, Structural)]
pub enum CmpOp {
    Lt,
    Le,
    Eq,
    Ne,
    Ge,
    Gt,
}

pub open spec fn eval_cmp(op: CmpOp, a: i64, b: i64) -> bool {
    match op {
        CmpOp::Lt => a < b,
        CmpOp::Le => a <= b,
        CmpOp::Eq => a == b,
        CmpOp::Ne => a != b,
        CmpOp::Ge => a >= b,
        CmpOp::Gt => a > b,
    }
}

/// An atomic test over the cells a predicate leaf receives; each
/// index addresses a position in the leaf's own gathered cells.  A
/// test on a missing position or a mismatched variant is false.
#[derive(Debug)]
pub enum CellTest {
    /// Always true.
    True,
    /// Always false.
    False,
    /// The cell at the position holds no payload.
    IsNull(usize),
    /// The cell at the position is numeric and relates to the bound.
    NumCmp(usize, CmpOp, i64),
    /// The cell at the position is a string equal to the text.
    StrEq(usize, String),
}

pub open spec fn eval_test(t: CellTest, cells: Seq<CellV>) -> bool {
    match t {
        CellTest::True => true,
        CellTest::False => false,
        CellTest::IsNull(i) => i < cells.len() && !is_present(cells[i as int]),
        CellTest::NumCmp(i, op, k) => i < cells.len() && match cells[i as int] {
            CellV::Num(Some(v)) => eval_cmp(op, v, k),
            _ => false,
        },
        CellTest::StrEq(i, s) => i < cells.len() && match cells[i as int] {
            CellV::Str(Some(x)) => x == s@,
            _ => false,
        },
    }
}

/// A predicate as a small expression tree evaluated against a row's
/// gathered cells.
#[derive(Debug)]
pub enum Pred {
    /// A leaf: an atomic test that consumes the given number of cells.
    Leaf(usize, CellTest),
    /// Both sides hold; the left side sees exactly the first
    /// `arity(left)` cells, the right side exactly the rest.
    And(Box<Pred>, Box<Pred>),
    /// At least one side holds, over the same contiguous split.
    Or(Box<Pred>, Box<Pred>),
}

/// How many cells a predicate consumes.
pub open spec fn arity(p: Pred) -> nat
    decreases p,
{
    match p {
        Pred::Leaf(n, _) => n as nat,
        Pred::And(a, b) => arity(*a) + arity(*b),
        Pred::Or(a, b) => arity(*a) + arity(*b),
    }
}

/// Evaluates a predicate tree over the gathered cells: a conjunction
/// or disjunction hands its left side the first `arity(left)` cells
/// and its right side the remaining cells, contiguous and
/// non-overlapping.
pub open spec fn eval_pred(p: Pred, cells: Seq<CellV>) -> bool
    decreases p,
{
    match p {
        Pred::Leaf(_, t) => eval_test(t, cells),
        Pred::And(a, b) => eval_pred(*a, cells.take(arity(*a) as int)) && eval_pred(
            *b,
            cells.skip(arity(*a) as int),
        ),
        Pred::Or(a, b) => eval_pred(*a, cells.take(arity(*a) as int)) || eval_pred(
            *b,
            cells.skip(arity(*a) as int),
        ),
    }
}

/// AND combinator slicing: on combined cells of the right length, the
/// conjunction invokes its left side on exactly the first
/// `arity(left)` cells and its right side on exactly and only the
/// rest, contiguous and non-overlapping; the two parts give back the
/// whole.
pub proof fn lemma_and_slicing(p: Pred, cells: Seq<CellV>)
    requires
        p is And,
        cells.len() == arity(p),
    ensures
        eval_pred(p, cells) == (eval_pred(*p->And_0, cells.take(arity(*p->And_0) as int))
            && eval_pred(*p->And_1, cells.skip(arity(*p->And_0) as int))),
        cells.take(arity(*p->And_0) as int).len() == arity(*p->And_0),
        cells.skip(arity(*p->And_0) as int).len() == arity(*p->And_1),
        cells.take(arity(*p->And_0) as int) + cells.skip(arity(*p->And_0) as int) == cells,
{
    assert(cells.take(arity(*p->And_0) as int) + cells.skip(arity(*p->And_0) as int) =~= cells);
}

/// OR combinator slicing: the same contiguous, non-overlapping split.
pub proof fn lemma_or_slicing(p: Pred, cells: Seq<CellV>)
    requires
        p is Or,
        cells.len() == arity(p),
    ensures
        eval_pred(p, cells) == (eval_pred(*p->Or_0, cells.take(arity(*p->Or_0) as int))
            || eval_pred(*p->Or_1, cells.skip(arity(*p->Or_0) as int))),
        cells.take(arity(*p->Or_0) as int).len() == arity(*p->Or_0),
        cells.skip(arity(*p->Or_0) as int).len() == arity(*p->Or_1),
        cells.take(arity(*p->Or_0) as int) + cells.skip(arity(*p->Or_0) as int) == cells,
{
    assert(cells.take(arity(*p->Or_0) as int) + cells.skip(arity(*p->Or_0) as int) =~= cells);
}

/// The number of cells a predicate consumes.
fn arity_of(p: &Pred) -> (n: usize)
    requires
        arity(*p) <= usize::MAX,
    ensures
        n == arity(*p),
    decreases *p,
{
    match p {
        Pred::Leaf(n, _) => *n,
        Pred::And(a, b) => {
            let na = arity_of(a);
            let nb = arity_of(b);
            na + nb
        },
        Pred::Or(a, b) => {
            let na = arity_of(a);
            let nb = arity_of(b);
            na + nb
        },
    }
}

/// Evaluates an atomic test against a contiguous range of the cells.
fn eval_test_exec(t: &CellTest, cells: &Vec<TableCell>, start: usize, end: usize) -> (r: bool)
    requires
        start <= end <= cells.len(),
    ensures
        r == eval_test(*t, cells.deep_view().subrange(start as int, end as int)),
{
    let ghost sub = cells.deep_view().subrange(start as int, end as int);
    match t {
        CellTest::True => true,
        CellTest::False => false,
        CellTest::IsNull(i) => {
            if *i < end - start {
                proof {
                    assert(sub[*i as int] == cells.deep_view()[start + *i]);
                }
                match &cells[start + *i] {
                    TableCell::Num(p) => p.is_none(),
                    TableCell::Str(p) => p.is_none(),
                }
            } else {
                false
            }
        },
        CellTest::NumCmp(i, op, k) => {
            if *i < end - start {
                proof {
                    assert(sub[*i as int] == cells.deep_view()[start + *i]);
                }
                match &cells[start + *i] {
                    TableCell::Num(Some(v)) => match op {
                        CmpOp::Lt => *v < *k,
                        CmpOp::Le => *v <= *k,
                        CmpOp::Eq => *v == *k,
                        CmpOp::Ne => *v != *k,
                        CmpOp::Ge => *v >= *k,
                        CmpOp::Gt => *v > *k,
                    },
                    _ => false,
                }
            } else {
                false
            }
        },
        CellTest::StrEq(i, s) => {
            if *i < end - start {
                proof {
                    assert(sub[*i as int] == cells.deep_view()[start + *i]);
                }
                match &cells[start + *i] {
                    TableCell::Str(Some(x)) => crate::parse::str_eq_str(x.as_str(), s.as_str()),
                    _ => false,
                }
            } else {
                false
            }
        },
    }
}

/// Evaluates a predicate tree against a contiguous range of the cells.
fn eval_range(p: &Pred, cells: &Vec<TableCell>, start: usize, end: usize) -> (r: bool)
    requires
        start <= end <= cells.len(),
        end - start == arity(*p),
    ensures
        r == eval_pred(*p, cells.deep_view().subrange(start as int, end as int)),
    decreases *p,
{
    let ghost sub = cells.deep_view().subrange(start as int, end as int);
    match p {
        Pred::Leaf(_, t) => eval_test_exec(t, cells, start, end),
        Pred::And(a, b) => {
            let k = arity_of(a);
            let mid = start + k;
            proof {
                assert(sub.take(k as int) =~= cells.deep_view().subrange(
                    start as int,
                    mid as int,
                ));
                assert(sub.skip(k as int) =~= cells.deep_view().subrange(mid as int, end as int));
            }
            eval_range(a, cells, start, mid) && eval_range(b, cells, mid, end)
        },
        Pred::Or(a, b) => {
            let k = arity_of(a);
            let mid = start + k;
            proof {
                assert(sub.take(k as int) =~= cells.deep_view().subrange(
                    start as int,
                    mid as int,
                ));
                assert(sub.skip(k as int) =~= cells.deep_view().subrange(mid as int, end as int));
            }
            eval_range(a, cells, start, mid) || eval_range(b, cells, mid, end)
        },
    }
}

/// A predicate over a fixed, ordered subset of a row's cells: the
/// input column names define the positional argument order in which
/// the predicate tree receives the gathered cells.
#[derive(Debug)]
pub struct Closure {
    pub col_name: Vec<String>,
    pub pred: Pred,
}

impl Closure {
    /// Consistent: the tree consumes exactly one cell per input column.
    pub open spec fn wf(&self) -> bool {
        arity(self.pred) == self.col_name.len()
    }

    /// A leaf predicate over the given input columns.
    pub fn leaf(col_name: Vec<String>, test: CellTest) -> (c: Closure)
        ensures
            c.col_name == col_name,
            c.pred == Pred::Leaf(col_name.len() as usize, test),
            c.wf(),
    {
        let n = col_name.len();
        Closure { col_name, pred: Pred::Leaf(n, test) }
    }

    /// AND combinator: the combined input columns are `a`'s list
    /// followed by `b`'s list, and evaluation hands `a` exactly the
    /// first cells and `b` exactly the rest.
    pub fn and(a: Closure, b: Closure) -> (c: Closure)
        ensures
            c.col_name.deep_view() == a.col_name.deep_view() + b.col_name.deep_view(),
            c.pred is And && *c.pred->And_0 == a.pred && *c.pred->And_1 == b.pred,
            a.wf() && b.wf() ==> c.wf(),
    {
        let Closure { col_name: mut names, pred: pa } = a;
        let Closure { col_name: mut bn, pred: pb } = b;
        names.append(&mut bn);
        let c = Closure { col_name: names, pred: Pred::And(Box::new(pa), Box::new(pb)) };
        proof {
            assert(c.col_name.deep_view() =~= a.col_name.deep_view() + b.col_name.deep_view());
        }
        c
    }

    /// OR combinator: the same column concatenation and cell split.
    pub fn or(a: Closure, b: Closure) -> (c: Closure)
        ensures
            c.col_name.deep_view() == a.col_name.deep_view() + b.col_name.deep_view(),
            c.pred is Or && *c.pred->Or_0 == a.pred && *c.pred->Or_1 == b.pred,
            a.wf() && b.wf() ==> c.wf(),
    {
        let Closure { col_name: mut names, pred: pa } = a;
        let Closure { col_name: mut bn, pred: pb } = b;
        names.append(&mut bn);
        let c = Closure { col_name: names, pred: Pred::Or(Box::new(pa), Box::new(pb)) };
        proof {
            assert(c.col_name.deep_view() =~= a.col_name.deep_view() + b.col_name.deep_view());
        }
        c
    }
}

/// A query: one predicate and the output projection, an ordered list
/// of column names, duplicates allowed, each of which must exist in
/// the source schema.
#[derive(Debug)]
pub struct Criteria {
    pub cls: Closure,
    pub re: Vec<String>,
}

/// The position of the first column of that name, if any.
pub open spec fn first_index(cols: Seq<ColV>, name: Seq<char>) -> Option<int>
    decreases cols.len(),
{
    if cols.len() == 0 {
        None
    } else if cols[0].name == name {
        Some(0)
    } else {
        match first_index(cols.skip(1), name) {
            Some(i) => Some(i + 1),
            None => None,
        }
    }
}

/// Resolves every name to its first position; fails if any is absent.
pub open spec fn resolve_all(cols: Seq<ColV>, names: Seq<Seq<char>>) -> Option<Seq<int>> {
    if forall|i: int| 0 <= i < names.len() ==> first_index(cols, #[trigger] names[i]) is Some {
        Some(Seq::new(names.len(), |i: int| first_index(cols, names[i])->Some_0))
    } else {
        None
    }
}

/// Gathers the cells at the given positions, in that order.
pub open spec fn gather(r: Seq<CellV>, idxs: Seq<int>) -> Seq<CellV> {
    Seq::new(idxs.len(), |k: int| r[idxs[k]])
}

/// The rows a query emits, in source order: each source row whose
/// gathered predicate inputs satisfy the predicate, projected to the
/// gathered projection cells.
pub open spec fn query_rows(
    rows: Seq<Seq<CellV>>,
    pred: Pred,
    pidx: Seq<int>,
    ridx: Seq<int>,
) -> Seq<Seq<CellV>>
    decreases rows.len(),
{
    if rows.len() == 0 {
        Seq::empty()
    } else {
        let rest = query_rows(rows.drop_last(), pred, pidx, ridx);
        if eval_pred(pred, gather(rows.last(), pidx)) {
            rest.push(gather(rows.last(), ridx))
        } else {
            rest
        }
    }
}

/// The whole outcome of a query against a table.
pub open spec fn query_spec(t: TableV, cls_names: Seq<Seq<char>>, pred: Pred, re: Seq<Seq<char>>) -> Result<
    TableV,
    TableLikeError,
> {
    match (resolve_all(t.cols, cls_names), resolve_all(t.cols, re)) {
        (Some(pidx), Some(ridx)) => Ok(
            TableV {
                name: None,
                cols: Seq::new(re.len(), |k: int| t.cols[ridx[k]]),
                rows: query_rows(t.rows, pred, pidx, ridx),
            },
        ),
        _ => Err(TableLikeError::UnknownColumn),
    }
}

/// Projected query output conforms to the projected schema.
proof fn lemma_query_rows_conform(
    rows: Seq<Seq<CellV>>,
    cols: Seq<ColV>,
    pred: Pred,
    pidx: Seq<int>,
    ridx: Seq<int>,
    pcols: Seq<ColV>,
)
    requires
        crate::table::rows_conform(cols, rows),
        pcols.len() == ridx.len(),
        forall|k: int|
            0 <= k < ridx.len() ==> 0 <= #[trigger] ridx[k] < cols.len() && pcols[k]
                == cols[ridx[k]],
    ensures
        crate::table::rows_conform(pcols, query_rows(rows, pred, pidx, ridx)),
    decreases rows.len(),
{
    if rows.len() > 0 {
        assert(crate::table::rows_conform(cols, rows.drop_last()));
        lemma_query_rows_conform(rows.drop_last(), cols, pred, pidx, ridx, pcols);
        let out = query_rows(rows, pred, pidx, ridx);
        let prev = query_rows(rows.drop_last(), pred, pidx, ridx);
        if eval_pred(pred, gather(rows.last(), pidx)) {
            let g = gather(rows.last(), ridx);
            assert(row_matches(cols, rows.last()));
            assert(row_matches(pcols, g));
            assert(forall|i: int|
                0 <= i < out.len() ==> row_matches(pcols, #[trigger] out[i]));
        }
    }
}

proof fn lemma_first_index_skip(cols: Seq<ColV>, name: Seq<char>, k: int)
    requires
        0 <= k <= cols.len(),
        forall|j: int| 0 <= j < k ==> cols[j].name != name,
    ensures
        first_index(cols, name) == (match first_index(cols.skip(k), name) {
            Some(i) => Some(i + k),
            None => None::<int>,
        }),
    decreases k,
{
    if k == 0 {
        assert(cols.skip(0) =~= cols);
        match first_index(cols, name) {
            Some(i) => {
                assert(first_index(cols.skip(0), name) == Some(i));
            },
            None => {},
        }
    } else {
        lemma_first_index_skip(cols, name, k - 1);
        let s1 = cols.skip(k - 1);
        assert(s1[0] == cols[k - 1]);
        assert(s1[0].name != name);
        assert(s1.skip(1) =~= cols.skip(k));
    }
}

/// The first position a name resolves to, scanning forward.
fn find_col(cols: &Vec<ColumnEntry>, name: &String) -> (r: Option<usize>)
    ensures
        match r {
            Some(i) => first_index(cols.deep_view(), name@) == Some(i as int) && i < cols.len(),
            None => first_index(cols.deep_view(), name@) is None,
        },
{
    let n = cols.len();
    let mut i: usize = 0;
    while i < n
        invariant
            i <= n,
            n == cols.len(),
            forall|j: int| 0 <= j < i ==> cols.deep_view()[j].name != name@,
        decreases n - i,
    {
        if crate::parse::str_eq_str(cols[i].col_name.as_str(), name.as_str()) {
            proof {
                lemma_first_index_skip(cols.deep_view(), name@, i as int);
                assert(cols.deep_view().skip(i as int)[0] == cols.deep_view()[i as int]);
            }
            return Some(i);
        }
        i = i + 1;
    }
    proof {
        lemma_first_index_skip(cols.deep_view(), name@, n as int);
        assert(cols.deep_view().skip(n as int).len() == 0);
    }
    None
}

/// Resolves a name list against the schema, first match per name;
/// any unresolvable name fails the whole query.
fn resolve(names: &Vec<String>, cols: &Vec<ColumnEntry>) -> (r: Result<Vec<usize>, TableLikeError>)
    ensures
        match r {
            Ok(v) => {
                &&& resolve_all(cols.deep_view(), names.deep_view()) == Some(
                    v@.map_values(|u: usize| u as int),
                )
                &&& v.len() == names.len()
                &&& forall|k: int| 0 <= k < v.len() ==> #[trigger] v@[k] < cols.len()
            },
            Err(e) => {
                &&& e == TableLikeError::UnknownColumn
                &&& resolve_all(cols.deep_view(), names.deep_view()) is None
            },
        },
{
    let n = names.len();
    let mut v: Vec<usize> = Vec::new();
    let mut i: usize = 0;
    while i < n
        invariant
            i <= n,
            n == names.len(),
            v.len() == i,
            forall|k: int|
                0 <= k < i ==> first_index(cols.deep_view(), #[trigger] names.deep_view()[k])
                    == Some(v@[k] as int),
            forall|k: int| 0 <= k < i ==> #[trigger] v@[k] < cols.len(),
        decreases n - i,
    {
        match find_col(cols, &names[i]) {
            Some(p) => {
                v.push(p);
            },
            None => {
                proof {
                    assert(first_index(cols.deep_view(), names.deep_view()[i as int]) is None);
                    assert(resolve_all(cols.deep_view(), names.deep_view()) is None);
                }
                return Err(TableLikeError::UnknownColumn);
            },
        }
        i = i + 1;
    }
    proof {
        assert forall|k: int| 0 <= k < names.deep_view().len() implies first_index(
            cols.deep_view(),
            #[trigger] names.deep_view()[k],
        ) is Some by {
            assert(first_index(cols.deep_view(), names.deep_view()[k]) == Some(v@[k] as int));
        }
        let idx = Seq::new(
            names.deep_view().len(),
            |k: int| first_index(cols.deep_view(), names.deep_view()[k])->Some_0,
        );
        assert(idx =~= v@.map_values(|u: usize| u as int));
    }
    Ok(v)
}

/// Gathers the cells of a row at the given positions, in that order.
fn gather_cells(row: &TableEntry, idxs: &Vec<usize>) -> (r: Vec<TableCell>)
    requires
        forall|k: int| 0 <= k < idxs.len() ==> #[trigger] idxs@[k] < row.col_data.len(),
    ensures
        r.deep_view() == gather(row@, idxs@.map_values(|u: usize| u as int)),
{
    let n = idxs.len();
    let mut r: Vec<TableCell> = Vec::new();
    let mut k: usize = 0;
    while k < n
        invariant
            k <= n,
            n == idxs.len(),
            r.len() == k,
            forall|j: int| 0 <= j < idxs.len() ==> #[trigger] idxs@[j] < row.col_data.len(),
            forall|j: int| 0 <= j < k ==> #[trigger] r.deep_view()[j] == row@[idxs@[j] as int],
        decreases n - k,
    {
        let ghost prev = r.deep_view();
        let cell = row.col_data[idxs[k]].clone();
        r.push(cell);
        proof {
            assert forall|j: int|
                0 <= j < k + 1 implies #[trigger] r.deep_view()[j] == row@[idxs@[j] as int] by {
                if j < k {
                    assert(r.deep_view()[j] == prev[j]);
                } else {
                    assert(r.deep_view()[j] == cell@);
                }
            }
        }
        k = k + 1;
    }
    proof {
        assert(r.deep_view() =~= gather(row@, idxs@.map_values(|u: usize| u as int)));
    }
    r
}

/// Runs a query against a materialized table: resolves every
/// projection and predicate column name to its position, keeps each
/// row the predicate accepts, and projects it; the result is a fresh
/// unnamed in-memory table whose schema is the subsequence of the
/// source schema matching the projection, in projection order.  Any
/// unresolvable name fails with an unknown-column error.
pub fn select(table: &Table, criteria: &Criteria) -> (r: Result<Table, TableLikeError>)
    requires
        table.wf(),
        criteria.cls.wf(),
    ensures
        match query_spec(
            table@,
            criteria.cls.col_name.deep_view(),
            criteria.cls.pred,
            criteria.re.deep_view(),
        ) {
            Ok(tv) => r matches Ok(out) && out@ == tv && out.wf(),
            Err(e) => r == Err::<Table, TableLikeError>(e),
        },
{
    let pidx = match resolve(&criteria.cls.col_name, &table.col_names) {
        Ok(v) => v,
        Err(e) => {
            return Err(e);
        },
    };
    let ridx = match resolve(&criteria.re, &table.col_names) {
        Ok(v) => v,
        Err(e) => {
            return Err(e);
        },
    };
    let ghost pidxv = pidx@.map_values(|u: usize| u as int);
    let ghost ridxv = ridx@.map_values(|u: usize| u as int);
    let mut rcols: Vec<ColumnEntry> = Vec::new();
    let m = ridx.len();
    let mut k: usize = 0;
    while k < m
        invariant
            k <= m,
            m == ridx.len(),
            rcols.len() == k,
            forall|j: int| 0 <= j < ridx.len() ==> #[trigger] ridx@[j] < table.col_names.len(),
            forall|j: int|
                0 <= j < k ==> #[trigger] rcols.deep_view()[j] == table@.cols[ridx@[j] as int],
        decreases m - k,
    {
        let ghost prev = rcols.deep_view();
        let c = table.col_names[ridx[k]].clone();
        rcols.push(c);
        proof {
            assert forall|j: int|
                0 <= j < k + 1 implies #[trigger] rcols.deep_view()[j]
                    == table@.cols[ridx@[j] as int] by {
                if j < k {
                    assert(rcols.deep_view()[j] == prev[j]);
                } else {
                    assert(rcols.deep_view()[j] == c@);
                }
            }
        }
        k = k + 1;
    }
    let n = table.all.len();
    let mut picked: Vec<TableEntry> = Vec::new();
    let mut i: usize = 0;
    proof {
        assert(query_rows(table@.rows.take(0), criteria.cls.pred, pidxv, ridxv)
            =~= Seq::<Seq<CellV>>::empty());
    }
    while i < n
        invariant
            i <= n,
            n == table.all.len(),
            table.wf(),
            criteria.cls.wf(),
            forall|j: int| 0 <= j < pidx.len() ==> #[trigger] pidx@[j] < table.col_names.len(),
            forall|j: int| 0 <= j < ridx.len() ==> #[trigger] ridx@[j] < table.col_names.len(),
            pidx.len() == criteria.cls.col_name.len(),
            pidxv == pidx@.map_values(|u: usize| u as int),
            ridxv == ridx@.map_values(|u: usize| u as int),
            picked.deep_view() == query_rows(
                table@.rows.take(i as int),
                criteria.cls.pred,
                pidxv,
                ridxv,
            ),
        decreases n - i,
    {
        let row = &table.all[i];
        proof {
            assert(row_matches(table@.cols, table@.rows[i as int]));
            assert(row@ == table@.rows[i as int]);
        }
        let args = gather_cells(row, &pidx);
        proof {
            assert(args.deep_view().len() == pidx.len());
            assert(args.deep_view().subrange(0, args.deep_view().len() as int)
                =~= args.deep_view());
        }
        let keep = eval_range(&criteria.cls.pred, &args, 0, args.len());
        let ghost prev = picked.deep_view();
        if keep {
            let proj = gather_cells(row, &ridx);
            picked.push(TableEntry { col_data: proj });
            proof {
                assert(picked.deep_view() =~= prev.push(gather(row@, ridxv)));
            }
        }
        proof {
            assert(table@.rows.take(i + 1).drop_last() =~= table@.rows.take(i as int));
            assert(table@.rows.take(i + 1).last() == table@.rows[i as int]);
            assert(picked.deep_view() == query_rows(
                table@.rows.take(i + 1),
                criteria.cls.pred,
                pidxv,
                ridxv,
            ));
        }
        i = i + 1;
    }
    let out = Table { name: None, col_names: rcols, all: picked };
    proof {
        assert(table@.rows.take(n as int) =~= table@.rows);
        match query_spec(
            table@,
            criteria.cls.col_name.deep_view(),
            criteria.cls.pred,
            criteria.re.deep_view(),
        ) {
            Ok(tv) => {
                assert(out@.cols =~= tv.cols);
                assert(out@.rows =~= tv.rows);
            },
            Err(_) => {
                assert(false);
            },
        }
        assert(crate::table::schema_bare(out@.cols));
        lemma_query_rows_conform(
            table@.rows,
            table@.cols,
            criteria.cls.pred,
            pidxv,
            ridxv,
            out@.cols,
        );
        assert(out.wf());
    }
    Ok(out)
}

} // verus!

//! The map-filter-project operator: add computed columns to a row, keep the
//! row if it passes every predicate, and emit a selection of its columns.

use crate::scalar::{exprs_view, Expr, ScalarExpr};
use crate::value::Value;
use vstd::prelude::*;

verus! {

/// The mathematical form of a map-filter-project operator.
pub ghost struct Mfp {
    /// The expressions of the computed columns, in column order.
    pub expressions: Seq<Expr>,
    /// The predicates, over the input columns and the computed columns.
    pub predicates: Seq<Expr>,
    /// The columns that are emitted, in output order.
    pub projection: Seq<nat>,
    /// The number of columns of an input row.
    pub input_arity: nat,
}

/// A map-filter-project operator.
///
/// Column `input_arity + i` is the value of `expressions[i]`, which may read
/// the input columns and the computed columns before it.
#[derive(Debug, PartialEq, Eq)]
pub struct MapFilterProject {
    pub expressions: Vec<ScalarExpr>,
    pub predicates: Vec<ScalarExpr>,
    pub projection: Vec<usize>,
    pub input_arity: usize,
}

/// The column indices as natural numbers.
pub open spec fn columns_view(columns: Seq<usize>) -> Seq<nat> {
    Seq::new(columns.len(), |i: int| columns[i] as nat)
}

impl View for MapFilterProject {
    type V = Mfp;

    open spec fn view(&self) -> Mfp {
        Mfp {
            expressions: exprs_view(self.expressions@),
            predicates: exprs_view(self.predicates@),
            projection: columns_view(self.projection@),
            input_arity: self.input_arity as nat,
        }
    }
}

/// The row with one more column for each expression, each computed on the
/// row as extended so far.
pub open spec fn extend_by(expressions: Seq<Expr>, row: Seq<Value>) -> Seq<Value>
    decreases expressions.len(),
{
    if expressions.len() == 0 {
        row
    } else {
        let before = extend_by(expressions.drop_last(), row);
        before.push(expressions.last().eval(before))
    }
}

/// Whether every predicate holds on the row.
pub open spec fn all_hold(predicates: Seq<Expr>, row: Seq<Value>) -> bool {
    forall|i: int| 0 <= i < predicates.len() ==> (#[trigger] predicates[i]).holds(row)
}

/// The selected columns of the row, in the order of the selection. A column
/// that the row does not have is null.
pub open spec fn project_row(projection: Seq<nat>, row: Seq<Value>) -> Seq<Value> {
    Seq::new(
        projection.len(),
        |i: int|
            if projection[i] < row.len() {
                row[projection[i] as int]
            } else {
                Value::Null
            },
    )
}

impl Mfp {
    /// No expression reads a column that is not yet defined, and no
    /// predicate or output reads a column that is never defined.
    pub open spec fn wf(self) -> bool {
        &&& forall|i: int|
            0 <= i < self.expressions.len() ==> (#[trigger] self.expressions[i]).reads_below(
                self.input_arity + i as nat,
            )
        &&& forall|i: int|
            0 <= i < self.predicates.len() ==> (#[trigger] self.predicates[i]).reads_below(
                self.input_arity + self.expressions.len(),
            )
        &&& forall|i: int|
            0 <= i < self.projection.len() ==> #[trigger] self.projection[i] < self.input_arity
                + self.expressions.len()
    }

    /// The input row with the computed columns added.
    pub open spec fn extend(self, row: Seq<Value>) -> Seq<Value> {
        extend_by(self.expressions, row)
    }

    /// Whether the operator keeps the input row.
    pub open spec fn accepts(self, row: Seq<Value>) -> bool {
        all_hold(self.predicates, self.extend(row))
    }

    /// What the operator emits for an input row that it keeps.
    pub open spec fn output(self, row: Seq<Value>) -> Seq<Value> {
        project_row(self.projection, self.extend(row))
    }
}

/// The value of an expression depends only on the columns it reads.
pub proof fn lemma_eval_reads_below(e: Expr, n: nat, a: Seq<Value>, b: Seq<Value>)
    requires
        e.reads_below(n),
        n <= a.len(),
        n <= b.len(),
        forall|i: int| 0 <= i < n ==> a[i] == b[i],
    ensures
        e.eval(a) == e.eval(b),
    decreases e,
{
    match e {
        Expr::Column(_) => {},
        Expr::Literal(_) => {},
        Expr::CallUnary(_, x) => {
            lemma_eval_reads_below(*x, n, a, b);
        },
        Expr::CallBinary(_, x, y) => {
            lemma_eval_reads_below(*x, n, a, b);
            lemma_eval_reads_below(*y, n, a, b);
        },
        Expr::CallVariadic(_, args) => {
            assert forall|i: int| 0 <= i < args.len() implies args[i].eval(a) == args[i].eval(
                b,
            ) by {
                lemma_eval_reads_below(args[i], n, a, b);
            }
            assert(crate::scalar::eval_all(args, a) =~= crate::scalar::eval_all(args, b));
        },
    }
}

/// An expression that reads only columns below `n` reads only columns below
/// any larger bound.
pub proof fn lemma_reads_below_weaken(e: Expr, n: nat, m: nat)
    requires
        e.reads_below(n),
        n <= m,
    ensures
        e.reads_below(m),
    decreases e,
{
    match e {
        Expr::Column(_) => {},
        Expr::Literal(_) => {},
        Expr::CallUnary(_, x) => {
            lemma_reads_below_weaken(*x, n, m);
        },
        Expr::CallBinary(_, x, y) => {
            lemma_reads_below_weaken(*x, n, m);
            lemma_reads_below_weaken(*y, n, m);
        },
        Expr::CallVariadic(_, args) => {
            assert forall|i: int| 0 <= i < args.len() implies (#[trigger] args[i]).reads_below(
                m,
            ) by {
                lemma_reads_below_weaken(args[i], n, m);
            }
        },
    }
}

/// The extended row starts with the input row and has one more column for
/// each expression; adding further expressions does not change the columns
/// that are there.
pub proof fn lemma_extend_by(expressions: Seq<Expr>, row: Seq<Value>)
    ensures
        extend_by(expressions, row).len() == row.len() + expressions.len(),
        forall|i: int| 0 <= i < row.len() ==> extend_by(expressions, row)[i] == row[i],
        forall|k: int, i: int|
            0 <= k <= expressions.len() && 0 <= i < row.len() + k ==> #[trigger] extend_by(
                expressions.take(k),
                row,
            )[i] == extend_by(expressions, row)[i],
        forall|k: int|
            0 <= k < expressions.len() ==> extend_by(expressions, row)[row.len() + k]
                == (#[trigger] expressions[k]).eval(extend_by(expressions.take(k), row)),
    decreases expressions.len(),
{
    if expressions.len() == 0 {
        assert(expressions.take(0) =~= expressions);
    } else {
        let rest = expressions.drop_last();
        lemma_extend_by(rest, row);
        let n = expressions.len() as int;
        assert(expressions.take(n) =~= expressions);
        assert(expressions.take(n - 1) =~= rest);
        assert forall|k: int, i: int|
            0 <= k <= expressions.len() && 0 <= i < row.len() + k implies #[trigger] extend_by(
            expressions.take(k),
            row,
        )[i] == extend_by(expressions, row)[i] by {
            if k < n {
                assert(expressions.take(k) =~= rest.take(k));
            }
        }
        assert forall|k: int| 0 <= k < expressions.len() implies extend_by(expressions, row)[row.len()
            + k] == (#[trigger] expressions[k]).eval(extend_by(expressions.take(k), row)) by {
            if k < n - 1 {
                assert(expressions.take(k) =~= rest.take(k));
                assert(rest[k] == expressions[k]);
            }
        }
    }
}

/// In a well-formed operator, each computed column of the extended row is
/// the value of its expression on the extended row itself.
pub proof fn lemma_extend_defines(mfp: Mfp, row: Seq<Value>, k: int)
    requires
        mfp.wf(),
        row.len() == mfp.input_arity,
        0 <= k < mfp.expressions.len(),
    ensures
        mfp.extend(row).len() == mfp.input_arity + mfp.expressions.len(),
        mfp.extend(row)[mfp.input_arity + k] == mfp.expressions[k].eval(mfp.extend(row)),
{
    lemma_extend_by(mfp.expressions, row);
    lemma_extend_by(mfp.expressions.take(k), row);
    let full = mfp.extend(row);
    let part = extend_by(mfp.expressions.take(k), row);
    lemma_eval_reads_below(mfp.expressions[k], mfp.input_arity + k as nat, part, full);
}

impl MapFilterProject {
    /// The operator on rows of `input_arity` columns that adds no column,
    /// keeps every row and emits it unchanged.
    pub fn new(input_arity: usize) -> (r: MapFilterProject)
        ensures
            r@.input_arity == input_arity,
            r@.expressions.len() == 0,
            r@.predicates.len() == 0,
            r@.projection == Seq::new(input_arity as nat, |i: int| i as nat),
            r@.wf(),
    {
        let mut projection: Vec<usize> = Vec::new();
        let mut i: usize = 0;
        while i < input_arity
            invariant
                i <= input_arity,
                projection.len() == i,
                forall|j: int| 0 <= j < i ==> projection@[j] == j,
            decreases input_arity - i,
        {
            projection.push(i);
            i += 1;
        }
        let r = MapFilterProject {
            expressions: Vec::new(),
            predicates: Vec::new(),
            projection,
            input_arity,
        };
        assert(r@.projection =~= Seq::new(input_arity as nat, |i: int| i as nat));
        r
    }
}

/// A copy of the column indices.
pub fn clone_columns(columns: &Vec<usize>) -> (r: Vec<usize>)
    ensures
        r@ == columns@,
{
    let mut out: Vec<usize> = Vec::new();
    let mut i: usize = 0;
    while i < columns.len()
        invariant
            i <= columns.len(),
            out@ == columns@.take(i as int),
        decreases columns.len() - i,
    {
        out.push(columns[i]);
        assert(columns@.take(i as int + 1) =~= columns@.take(i as int).push(columns@[i as int]));
        i += 1;
    }
    assert(columns@.take(columns.len() as int) =~= columns@);
    out
}

impl Clone for MapFilterProject {
    fn clone(&self) -> (r: Self)
        ensures
            r@ == self@,
    {
        MapFilterProject {
            expressions: crate::scalar::clone_exprs(&self.expressions),
            predicates: crate::scalar::clone_exprs(&self.predicates),
            projection: clone_columns(&self.projection),
            input_arity: self.input_arity,
        }
    }
}

} // verus!

//! Evaluation of scalar expressions and of map-filter-project operators on
//! rows.

use crate::mfp::{all_hold, extend_by, project_row, MapFilterProject};
use crate::scalar::{
    eval_all, exprs_view, first_non_null, lemma_view_variadic, BinaryFunc, Expr, ScalarExpr,
    VariadicFunc,
};
use crate::value::Value;
use vstd::prelude::*;

verus! {

impl BinaryFunc {
    /// Applies the function to two values.
    pub fn eval(&self, a: Value, b: Value) -> (r: Value)
        ensures
            r == self.apply(a, b),
    {
        if a.is_null() || b.is_null() {
            return Value::Null;
        }
        match self {
            BinaryFunc::Eq => Value::Bool(a == b),
            BinaryFunc::NotEq => Value::Bool(a != b),
            BinaryFunc::Lt => if a.same_type(&b) {
                Value::Bool(a.less_than(&b))
            } else {
                Value::Null
            },
            BinaryFunc::Lte => if a.same_type(&b) {
                Value::Bool(!b.less_than(&a))
            } else {
                Value::Null
            },
            BinaryFunc::Gt => if a.same_type(&b) {
                Value::Bool(b.less_than(&a))
            } else {
                Value::Null
            },
            BinaryFunc::Gte => if a.same_type(&b) {
                Value::Bool(!a.less_than(&b))
            } else {
                Value::Null
            },
        }
    }
}

/// Whether one of the values is `wanted`.
fn any_value_is(vals: &Vec<Value>, wanted: Value) -> (r: bool)
    ensures
        r == exists|i: int| 0 <= i < vals.len() && vals@[i] == wanted,
{
    let mut i: usize = 0;
    while i < vals.len()
        invariant
            i <= vals.len(),
            forall|j: int| 0 <= j < i ==> vals@[j] != wanted,
        decreases vals.len() - i,
    {
        if vals[i] == wanted {
            return true;
        }
        i += 1;
    }
    false
}

/// Whether each of the values is `wanted`.
fn all_values_are(vals: &Vec<Value>, wanted: Value) -> (r: bool)
    ensures
        r == forall|i: int| 0 <= i < vals.len() ==> vals@[i] == wanted,
{
    let mut i: usize = 0;
    while i < vals.len()
        invariant
            i <= vals.len(),
            forall|j: int| 0 <= j < i ==> vals@[j] == wanted,
        decreases vals.len() - i,
    {
        if vals[i] != wanted {
            return false;
        }
        i += 1;
    }
    true
}

impl VariadicFunc {
    /// Applies the function to a sequence of values.
    #[verifier::loop_isolation(false)]
    pub fn eval(&self, vals: &Vec<Value>) -> (r: Value)
        ensures
            r == self.apply(vals@),
    {
        match self {
            VariadicFunc::And => {
                if any_value_is(vals, Value::Bool(false)) {
                    Value::Bool(false)
                } else if all_values_are(vals, Value::Bool(true)) {
                    Value::Bool(true)
                } else {
                    Value::Null
                }
            },
            VariadicFunc::Or => {
                if any_value_is(vals, Value::Bool(true)) {
                    Value::Bool(true)
                } else if all_values_are(vals, Value::Bool(false)) {
                    Value::Bool(false)
                } else {
                    Value::Null
                }
            },
            VariadicFunc::Coalesce => {
                let mut i: usize = 0;
                assert(vals@.skip(0) =~= vals@);
                while i < vals.len()
                    invariant
                        i <= vals.len(),
                        first_non_null(vals@) == first_non_null(vals@.skip(i as int)),
                    decreases vals.len() - i,
                {
                    assert(vals@.skip(i as int)[0] == vals@[i as int]);
                    if !vals[i].is_null() {
                        return vals[i];
                    }
                    assert(vals@.skip(i as int).skip(1) =~= vals@.skip(i as int + 1));
                    i += 1;
                }
                Value::Null
            },
        }
    }
}

impl ScalarExpr {
    /// The value of the expression on the row. A column that the row does
    /// not have is null.
    #[verifier::loop_isolation(false)]
    pub fn eval(&self, row: &Vec<Value>) -> (r: Value)
        ensures
            r == self@.eval(row@),
        decreases self,
    {
        match self {
            ScalarExpr::Column(c) => if *c < row.len() {
                row[*c]
            } else {
                Value::Null
            },
            ScalarExpr::Literal(v) => *v,
            ScalarExpr::CallUnary { func, expr } => func.eval(expr.eval(row)),
            ScalarExpr::CallBinary { func, expr1, expr2 } => func.eval(
                expr1.eval(row),
                expr2.eval(row),
            ),
            ScalarExpr::CallVariadic { func, exprs } => {
                proof {
                    lemma_view_variadic(*func, *exprs);
                }
                let mut vals: Vec<Value> = Vec::new();
                let mut i: usize = 0;
                while i < exprs.len()
                    invariant
                        i <= exprs.len(),
                        vals.len() == i,
                        forall|j: int| 0 <= j < i ==> vals@[j] == exprs@[j]@.eval(row@),
                    decreases exprs.len() - i,
                {
                    vals.push(exprs[i].eval(row));
                    i += 1;
                }
                assert(vals@ =~= eval_all(exprs_view(exprs@), row@));
                func.eval(&vals)
            },
        }
    }
}

/// The row with one more column for each expression, each computed on the
/// row as extended so far.
pub fn extend_row(expressions: &Vec<ScalarExpr>, row: &Vec<Value>) -> (r: Vec<Value>)
    ensures
        r@ == extend_by(exprs_view(expressions@), row@),
{
    let ghost all = exprs_view(expressions@);
    let mut out = crate::value::copy_row(row);
    let mut i: usize = 0;
    assert(all.take(0) =~= Seq::<Expr>::empty());
    while i < expressions.len()
        invariant
            i <= expressions.len(),
            all == exprs_view(expressions@),
            out@ == extend_by(all.take(i as int), row@),
        decreases expressions.len() - i,
    {
        proof {
            assert(all.take(i as int + 1).drop_last() =~= all.take(i as int));
            assert(all.take(i as int + 1).last() == all[i as int]);
        }
        let v = expressions[i].eval(&out);
        out.push(v);
        i += 1;
    }
    assert(all.take(expressions.len() as int) =~= all);
    out
}

/// Whether every predicate holds on the row.
pub fn predicates_hold(predicates: &Vec<ScalarExpr>, row: &Vec<Value>) -> (r: bool)
    ensures
        r == all_hold(exprs_view(predicates@), row@),
{
    let ghost all = exprs_view(predicates@);
    let mut i: usize = 0;
    while i < predicates.len()
        invariant
            i <= predicates.len(),
            all == exprs_view(predicates@),
            forall|j: int| 0 <= j < i ==> (#[trigger] all[j]).holds(row@),
        decreases predicates.len() - i,
    {
        if predicates[i].eval(row) != Value::Bool(true) {
            assert(!all[i as int].holds(row@));
            return false;
        }
        i += 1;
    }
    true
}

/// The selected columns of the row. A column that the row does not have is
/// null.
pub fn select_columns(projection: &Vec<usize>, row: &Vec<Value>) -> (r: Vec<Value>)
    ensures
        r@ == project_row(crate::mfp::columns_view(projection@), row@),
{
    let mut out: Vec<Value> = Vec::new();
    let mut i: usize = 0;
    while i < projection.len()
        invariant
            i <= projection.len(),
            out.len() == i,
            forall|j: int|
                0 <= j < i ==> out@[j] == if projection@[j] < row.len() {
                    row@[projection@[j] as int]
                } else {
                    Value::Null
                },
        decreases projection.len() - i,
    {
        let c = projection[i];
        out.push(
            if c < row.len() {
                row[c]
            } else {
                Value::Null
            },
        );
        i += 1;
    }
    assert(out@ =~= project_row(crate::mfp::columns_view(projection@), row@));
    out
}

impl MapFilterProject {
    /// What the operator emits for the row, if it keeps the row.
    pub fn evaluate(&self, row: &Vec<Value>) -> (r: Option<Vec<Value>>)
        ensures
            match r {
                Some(out) => self@.accepts(row@) && out@ == self@.output(row@),
                None => !self@.accepts(row@),
            },
    {
        let extended = extend_row(&self.expressions, row);
        if predicates_hold(&self.predicates, &extended) {
            Some(select_columns(&self.projection, &extended))
        } else {
            None
        }
    }
}

} // verus!

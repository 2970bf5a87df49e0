//! Scalar expressions: their shape, what they evaluate to on a row, and
//! their structural measures.

use crate::value::{int_fits, int_value, IntType, Value};
use vstd::prelude::*;

verus! {

/// Functions of one argument.
#[derive(Clone, Copy, PartialEq, Eq, Structural, Debug)]
pub enum UnaryFunc {
    /// Logical negation.
    Not,
    /// Whether the argument is null.
    IsNull,
    /// Conversion of an integer of type `from` to type `to`. Yields null on
    /// an argument that is not of type `from` or does not fit in `to`.
    Cast { from: IntType, to: IntType },
}

/// Functions of two arguments.
#[derive(Clone, Copy, PartialEq, Eq, Structural, Debug)]
pub enum BinaryFunc {
    Eq,
    NotEq,
    Lt,
    Lte,
    Gt,
    Gte,
}

/// Functions of any number of arguments.
#[derive(Clone, Copy, PartialEq, Eq, Structural, Debug)]
pub enum VariadicFunc {
    And,
    Or,
    /// The first argument that is not null.
    Coalesce,
}

/// The mathematical form of a scalar expression.
pub ghost enum Expr {
    Column(nat),
    Literal(Value),
    CallUnary(UnaryFunc, Box<Expr>),
    CallBinary(BinaryFunc, Box<Expr>, Box<Expr>),
    CallVariadic(VariadicFunc, Seq<Expr>),
}

/// A scalar expression over the columns of a row.
#[derive(Debug, PartialEq, Eq)]
#[allow(inconsistent_fields)]
pub enum ScalarExpr {
    /// The value of the column with this index.
    Column(usize),
    /// A constant.
    Literal(Value),
    CallUnary { func: UnaryFunc, expr: Box<ScalarExpr> },
    CallBinary { func: BinaryFunc, expr1: Box<ScalarExpr>, expr2: Box<ScalarExpr> },
    CallVariadic { func: VariadicFunc, exprs: Vec<ScalarExpr> },
}

/// Raised when an expression is nested more deeply than the traversal allows.
#[derive(Clone, Copy, PartialEq, Eq, Structural, Debug)]
pub struct RecursionLimitError {
    pub limit: usize,
}

/// The deepest nesting that a guarded traversal follows.
pub const RECURSION_LIMIT: usize = 2048;

impl ScalarExpr {
    /// The expression as a mathematical value.
    pub open spec fn model(self) -> Expr
        decreases self,
    {
        match self {
            ScalarExpr::Column(c) => Expr::Column(c as nat),
            ScalarExpr::Literal(v) => Expr::Literal(v),
            ScalarExpr::CallUnary { func, expr } => Expr::CallUnary(func, Box::new(expr.model())),
            ScalarExpr::CallBinary { func, expr1, expr2 } => Expr::CallBinary(
                func,
                Box::new(expr1.model()),
                Box::new(expr2.model()),
            ),
            ScalarExpr::CallVariadic { func, exprs } => Expr::CallVariadic(
                func,
                Seq::new(
                    exprs@.len(),
                    |i: int|
                        if 0 <= i < exprs@.len() {
                            exprs@[i].model()
                        } else {
                            Expr::Literal(Value::Null)
                        },
                ),
            ),
        }
    }
}

impl View for ScalarExpr {
    type V = Expr;

    open spec fn view(&self) -> Expr {
        self.model()
    }
}

/// The mathematical forms of a sequence of expressions.
pub open spec fn exprs_view(exprs: Seq<ScalarExpr>) -> Seq<Expr> {
    Seq::new(exprs.len(), |i: int| exprs[i]@)
}

/// The mathematical forms of a sequence of lists of expressions.
pub open spec fn lists_view(lists: Seq<Vec<ScalarExpr>>) -> Seq<Seq<Expr>> {
    Seq::new(lists.len(), |i: int| exprs_view(lists[i]@))
}

/// The views of a sequence with one more expression at its end.
pub proof fn lemma_exprs_view_push(exprs: Seq<ScalarExpr>, e: ScalarExpr)
    ensures
        exprs_view(exprs.push(e)) == exprs_view(exprs).push(e@),
{
    assert(exprs_view(exprs.push(e)) =~= exprs_view(exprs).push(e@));
}

/// The view of a variadic call is the call on the views of its arguments.
pub proof fn lemma_view_variadic(func: VariadicFunc, exprs: Vec<ScalarExpr>)
    ensures
        (ScalarExpr::CallVariadic { func, exprs })@ == Expr::CallVariadic(func, exprs_view(exprs@)),
{
    let e = ScalarExpr::CallVariadic { func, exprs };
    assert(e@->CallVariadic_1 =~= exprs_view(exprs@));
}

// ---------------------------------------------------------------------------
// Evaluation
// ---------------------------------------------------------------------------
impl UnaryFunc {
    /// The function that undoes this one wherever this one yields a value.
    pub open spec fn inverse(self) -> Option<UnaryFunc> {
        match self {
            UnaryFunc::Cast { from, to } => Some(UnaryFunc::Cast { from: to, to: from }),
            _ => None,
        }
    }

    /// The result of the function on a value.
    pub open spec fn apply(self, v: Value) -> Value {
        match self {
            UnaryFunc::Not => match v {
                Value::Bool(b) => Value::Bool(!b),
                _ => Value::Null,
            },
            UnaryFunc::IsNull => Value::Bool(v == Value::Null),
            UnaryFunc::Cast { from, to } => if v.int_type() == Some(from) && int_fits(
                to,
                v.payload(),
            ) {
                int_value(to, v.payload())
            } else {
                Value::Null
            },
        }
    }
}

impl BinaryFunc {
    /// The result of the function on two values. A comparison with null, or
    /// an order comparison between values of different types, is null.
    pub open spec fn apply(self, a: Value, b: Value) -> Value {
        if a == Value::Null || b == Value::Null {
            Value::Null
        } else {
            match self {
                BinaryFunc::Eq => Value::Bool(a == b),
                BinaryFunc::NotEq => Value::Bool(a != b),
                _ => if a.rank() != b.rank() {
                    Value::Null
                } else {
                    match self {
                        BinaryFunc::Lt => Value::Bool(a.lt(b)),
                        BinaryFunc::Lte => Value::Bool(!b.lt(a)),
                        BinaryFunc::Gt => Value::Bool(b.lt(a)),
                        _ => Value::Bool(!a.lt(b)),
                    }
                },
            }
        }
    }
}

/// The first value of the sequence that is not null, or null if there is none.
pub open spec fn first_non_null(vals: Seq<Value>) -> Value
    decreases vals.len(),
{
    if vals.len() == 0 {
        Value::Null
    } else if vals[0] != Value::Null {
        vals[0]
    } else {
        first_non_null(vals.skip(1))
    }
}

impl VariadicFunc {
    /// The result of the function on a sequence of values. `And` and `Or`
    /// follow three-valued logic, in which every value but `true` and `false`
    /// counts as unknown.
    pub open spec fn apply(self, vals: Seq<Value>) -> Value {
        match self {
            VariadicFunc::And => if exists|i: int|
                0 <= i < vals.len() && vals[i] == Value::Bool(false) {
                Value::Bool(false)
            } else if forall|i: int| 0 <= i < vals.len() ==> vals[i] == Value::Bool(true) {
                Value::Bool(true)
            } else {
                Value::Null
            },
            VariadicFunc::Or => if exists|i: int|
                0 <= i < vals.len() && vals[i] == Value::Bool(true) {
                Value::Bool(true)
            } else if forall|i: int| 0 <= i < vals.len() ==> vals[i] == Value::Bool(false) {
                Value::Bool(false)
            } else {
                Value::Null
            },
            VariadicFunc::Coalesce => first_non_null(vals),
        }
    }
}

impl Expr {
    /// The value of the expression on a row. A column that the row does not
    /// have is null.
    pub open spec fn eval(self, row: Seq<Value>) -> Value
        decreases self,
    {
        match self {
            Expr::Column(c) => if c < row.len() {
                row[c as int]
            } else {
                Value::Null
            },
            Expr::Literal(v) => v,
            Expr::CallUnary(func, a) => func.apply(a.eval(row)),
            Expr::CallBinary(func, a, b) => func.apply(a.eval(row), b.eval(row)),
            Expr::CallVariadic(func, args) => func.apply(eval_all(args, row)),
        }
    }

    /// Whether the expression, read as a predicate, accepts the row.
    pub open spec fn holds(self, row: Seq<Value>) -> bool {
        self.eval(row) == Value::Bool(true)
    }

    /// The number of nodes of the expression.
    pub open spec fn size(self) -> nat
        decreases self,
    {
        match self {
            Expr::Column(_) => 1,
            Expr::Literal(_) => 1,
            Expr::CallUnary(_, a) => 1 + a.size(),
            Expr::CallBinary(_, a, b) => 1 + a.size() + b.size(),
            Expr::CallVariadic(_, args) => 1 + sum(sizes(args)),
        }
    }

    /// The number of nodes on the longest path from the root to a leaf.
    pub open spec fn depth(self) -> nat
        decreases self,
    {
        match self {
            Expr::Column(_) => 1,
            Expr::Literal(_) => 1,
            Expr::CallUnary(_, a) => 1 + a.depth(),
            Expr::CallBinary(_, a, b) => 1 + if a.depth() >= b.depth() {
                a.depth()
            } else {
                b.depth()
            },
            Expr::CallVariadic(_, args) => 1 + max_of(depths(args)),
        }
    }

    /// Whether every column that the expression reads has an index below `n`.
    pub open spec fn reads_below(self, n: nat) -> bool
        decreases self,
    {
        match self {
            Expr::Column(c) => c < n,
            Expr::Literal(_) => true,
            Expr::CallUnary(_, a) => a.reads_below(n),
            Expr::CallBinary(_, a, b) => a.reads_below(n) && b.reads_below(n),
            Expr::CallVariadic(_, args) => forall|i: int|
                0 <= i < args.len() ==> (#[trigger] args[i]).reads_below(n),
        }
    }
}

/// The values of a sequence of expressions on a row.
pub open spec fn eval_all(args: Seq<Expr>, row: Seq<Value>) -> Seq<Value>
    decreases args,
{
    Seq::new(
        args.len(),
        |i: int|
            if 0 <= i < args.len() {
                args[i].eval(row)
            } else {
                Value::Null
            },
    )
}

/// The sizes of a sequence of expressions.
pub open spec fn sizes(args: Seq<Expr>) -> Seq<nat>
    decreases args,
{
    Seq::new(
        args.len(),
        |i: int|
            if 0 <= i < args.len() {
                args[i].size()
            } else {
                0
            },
    )
}

/// The depths of a sequence of expressions.
pub open spec fn depths(args: Seq<Expr>) -> Seq<nat>
    decreases args,
{
    Seq::new(
        args.len(),
        |i: int|
            if 0 <= i < args.len() {
                args[i].depth()
            } else {
                0
            },
    )
}

/// The sum of a sequence of numbers.
pub open spec fn sum(s: Seq<nat>) -> nat
    decreases s.len(),
{
    if s.len() == 0 {
        0
    } else {
        sum(s.drop_last()) + s.last()
    }
}

/// The largest number of a sequence, or 0 if it is empty.
pub open spec fn max_of(s: Seq<nat>) -> nat
    decreases s.len(),
{
    if s.len() == 0 {
        0
    } else if max_of(s.drop_last()) >= s.last() {
        max_of(s.drop_last())
    } else {
        s.last()
    }
}

/// The total number of nodes of a sequence of expressions.
pub open spec fn total_size(args: Seq<Expr>) -> nat {
    sum(sizes(args))
}

/// The largest number of a sequence bounds each of its numbers, and is one
/// of them unless the sequence is empty.
pub proof fn lemma_max_of(s: Seq<nat>)
    ensures
        forall|i: int| 0 <= i < s.len() ==> s[i] <= max_of(s),
        s.len() > 0 ==> exists|i: int| 0 <= i < s.len() && s[i] == max_of(s),
        s.len() == 0 ==> max_of(s) == 0,
    decreases s.len(),
{
    if s.len() > 0 {
        lemma_max_of(s.drop_last());
        let t = s.drop_last();
        assert forall|i: int| 0 <= i < s.len() implies s[i] <= max_of(s) by {
            if i < t.len() {
                assert(t[i] == s[i]);
            }
        }
        if t.len() > 0 && max_of(t) >= s.last() {
            let i = choose|i: int| 0 <= i < t.len() && t[i] == max_of(t);
            assert(s[i] == max_of(s));
        } else {
            assert(s[s.len() - 1] == max_of(s));
        }
    }
}

/// The sum of a sequence that ends in `x` is the sum of the rest plus `x`.
pub proof fn lemma_sum_push(s: Seq<nat>, x: nat)
    ensures
        sum(s.push(x)) == sum(s) + x,
{
    assert(s.push(x).drop_last() =~= s);
}

/// A number of nodes as a machine integer: exact as long as it fits.
pub open spec fn clamp(n: nat) -> usize {
    if n <= usize::MAX {
        n as usize
    } else {
        usize::MAX
    }
}

/// The sum of two clamped numbers, clamped.
pub fn clamped_add(a: usize, b: usize) -> (r: usize)
    ensures
        r == clamp((a + b) as nat),
{
    if a > usize::MAX - b {
        usize::MAX
    } else {
        a + b
    }
}

/// Copies of the expressions, in the same order.
pub fn clone_exprs(exprs: &Vec<ScalarExpr>) -> (r: Vec<ScalarExpr>)
    ensures
        exprs_view(r@) == exprs_view(exprs@),
    decreases exprs,
{
    let mut out: Vec<ScalarExpr> = Vec::new();
    let mut i: usize = 0;
    while i < exprs.len()
        invariant
            i <= exprs.len(),
            out.len() == i,
            forall|j: int| 0 <= j < i ==> out@[j]@ == exprs@[j]@,
        decreases exprs.len() - i,
    {
        out.push(exprs[i].clone());
        i += 1;
    }
    assert(exprs_view(out@) =~= exprs_view(exprs@));
    out
}

impl Clone for ScalarExpr {
    fn clone(&self) -> (r: Self)
        ensures
            r@ == self@,
        decreases self,
    {
        match self {
            ScalarExpr::Column(c) => ScalarExpr::Column(*c),
            ScalarExpr::Literal(v) => ScalarExpr::Literal(*v),
            ScalarExpr::CallUnary { func, expr } => ScalarExpr::CallUnary {
                func: *func,
                expr: Box::new((**expr).clone()),
            },
            ScalarExpr::CallBinary { func, expr1, expr2 } => ScalarExpr::CallBinary {
                func: *func,
                expr1: Box::new((**expr1).clone()),
                expr2: Box::new((**expr2).clone()),
            },
            ScalarExpr::CallVariadic { func, exprs } => {
                let copies = clone_exprs(exprs);
                proof {
                    lemma_view_variadic(*func, *exprs);
                    lemma_view_variadic(*func, copies);
                }
                ScalarExpr::CallVariadic { func: *func, exprs: copies }
            },
        }
    }
}

/// Whether the two sequences hold the same expressions in the same order.
pub fn exprs_equal(a: &Vec<ScalarExpr>, b: &Vec<ScalarExpr>) -> (r: bool)
    ensures
        r == (exprs_view(a@) == exprs_view(b@)),
    decreases a,
{
    if a.len() != b.len() {
        assert(exprs_view(a@).len() != exprs_view(b@).len());
        return false;
    }
    let mut i: usize = 0;
    while i < a.len()
        invariant
            i <= a.len(),
            a.len() == b.len(),
            forall|j: int| 0 <= j < i ==> a@[j]@ == b@[j]@,
        decreases a.len() - i,
    {
        if !a[i].equals(&b[i]) {
            assert(exprs_view(a@)[i as int] != exprs_view(b@)[i as int]);
            return false;
        }
        i += 1;
    }
    assert(exprs_view(a@) =~= exprs_view(b@));
    true
}

impl ScalarExpr {
    /// The expression that reads column `index`.
    pub fn column(index: usize) -> (r: ScalarExpr)
        ensures
            r@ == Expr::Column(index as nat),
    {
        ScalarExpr::Column(index)
    }

    /// The constant `value`.
    pub fn literal(value: Value) -> (r: ScalarExpr)
        ensures
            r@ == Expr::Literal(value),
    {
        ScalarExpr::Literal(value)
    }

    /// The call of `func` on `self`.
    pub fn call_unary(self, func: UnaryFunc) -> (r: ScalarExpr)
        ensures
            r@ == Expr::CallUnary(func, Box::new(self@)),
    {
        ScalarExpr::CallUnary { func, expr: Box::new(self) }
    }

    /// The call of `func` on `self` and `other`.
    pub fn call_binary(self, other: ScalarExpr, func: BinaryFunc) -> (r: ScalarExpr)
        ensures
            r@ == Expr::CallBinary(func, Box::new(self@), Box::new(other@)),
    {
        ScalarExpr::CallBinary { func, expr1: Box::new(self), expr2: Box::new(other) }
    }

    /// The call of `func` on `exprs`.
    pub fn call_variadic(func: VariadicFunc, exprs: Vec<ScalarExpr>) -> (r: ScalarExpr)
        ensures
            r@ == Expr::CallVariadic(func, exprs_view(exprs@)),
    {
        proof {
            lemma_view_variadic(func, exprs);
        }
        ScalarExpr::CallVariadic { func, exprs }
    }

    /// The conjunction of `self` and `other`.
    pub fn and(self, other: ScalarExpr) -> (r: ScalarExpr)
        ensures
            r@ == Expr::CallVariadic(VariadicFunc::And, seq![self@, other@]),
    {
        let mut exprs: Vec<ScalarExpr> = Vec::new();
        exprs.push(self);
        exprs.push(other);
        proof {
            lemma_view_variadic(VariadicFunc::And, exprs);
            assert(exprs_view(exprs@) =~= seq![self@, other@]);
        }
        ScalarExpr::CallVariadic { func: VariadicFunc::And, exprs }
    }

    /// Whether the two expressions have the same shape and contents.
    pub fn equals(&self, other: &ScalarExpr) -> (r: bool)
        ensures
            r == (self@ == other@),
        decreases self,
    {
        match (self, other) {
            (ScalarExpr::Column(a), ScalarExpr::Column(b)) => *a == *b,
            (ScalarExpr::Literal(a), ScalarExpr::Literal(b)) => *a == *b,
            (
                ScalarExpr::CallUnary { func: f1, expr: a1 },
                ScalarExpr::CallUnary { func: f2, expr: a2 },
            ) => *f1 == *f2 && a1.equals(a2),
            (
                ScalarExpr::CallBinary { func: f1, expr1: a1, expr2: b1 },
                ScalarExpr::CallBinary { func: f2, expr1: a2, expr2: b2 },
            ) => *f1 == *f2 && a1.equals(a2) && b1.equals(b2),
            (
                ScalarExpr::CallVariadic { func: f1, exprs: a1 },
                ScalarExpr::CallVariadic { func: f2, exprs: a2 },
            ) => {
                proof {
                    lemma_view_variadic(*f1, *a1);
                    lemma_view_variadic(*f2, *a2);
                }
                *f1 == *f2 && exprs_equal(a1, a2)
            },
            _ => false,
        }
    }

    /// The number of nodes of the expression, or `None` if the expression is
    /// nested more deeply than `budget` levels.
    #[verifier::loop_isolation(false)]
    pub fn size_within(&self, budget: usize) -> (r: Option<usize>)
        ensures
            match r {
                Some(n) => self@.depth() <= budget && n == clamp(self@.size()),
                None => self@.depth() > budget,
            },
        decreases self,
    {
        if budget == 0 {
            return None;
        }
        match self {
            ScalarExpr::Column(_) => Some(1),
            ScalarExpr::Literal(_) => Some(1),
            ScalarExpr::CallUnary { func: _, expr } => {
                match expr.size_within(budget - 1) {
                    Some(n) => Some(clamped_add(1, n)),
                    None => None,
                }
            },
            ScalarExpr::CallBinary { func: _, expr1, expr2 } => {
                match expr1.size_within(budget - 1) {
                    Some(n1) => match expr2.size_within(budget - 1) {
                        Some(n2) => Some(clamped_add(clamped_add(1, n1), n2)),
                        None => None,
                    },
                    None => None,
                }
            },
            ScalarExpr::CallVariadic { func, exprs } => {
                proof {
                    lemma_view_variadic(*func, *exprs);
                }
                let ghost args = exprs_view(exprs@);
                let mut total: usize = 1;
                let mut i: usize = 0;
                while i < exprs.len()
                    invariant
                        i <= exprs.len(),
                        budget > 0,
                        args == exprs_view(exprs@),
                        total == clamp(1 + sum(sizes(args).take(i as int))),
                        forall|j: int| 0 <= j < i ==> depths(args)[j] <= budget - 1,
                    decreases exprs.len() - i,
                {
                    match exprs[i].size_within(budget - 1) {
                        Some(n) => {
                            proof {
                                assert(sizes(args).take(i as int + 1) =~= sizes(args).take(
                                    i as int,
                                ).push(args[i as int].size()));
                                lemma_sum_push(sizes(args).take(i as int), args[i as int].size());
                            }
                            total = clamped_add(total, n);
                        },
                        None => {
                            proof {
                                lemma_max_of(depths(args));
                                assert(depths(args)[i as int] > budget - 1);
                            }
                            return None;
                        },
                    }
                    i += 1;
                }
                proof {
                    assert(sizes(args).take(exprs.len() as int) =~= sizes(args));
                    lemma_max_of(depths(args));
                }
                Some(total)
            },
        }
    }

    /// The number of nodes of the expression; an error if the expression is
    /// nested more deeply than `RECURSION_LIMIT` levels.
    pub fn size(&self) -> (r: Result<usize, RecursionLimitError>)
        ensures
            match r {
                Ok(n) => self@.depth() <= RECURSION_LIMIT && n == clamp(self@.size()),
                Err(e) => self@.depth() > RECURSION_LIMIT && e.limit == RECURSION_LIMIT,
            },
    {
        match self.size_within(RECURSION_LIMIT) {
            Some(n) => Ok(n),
            None => Err(RecursionLimitError { limit: RECURSION_LIMIT }),
        }
    }
}

/// Whether one of `exprs` equals `e`.
pub fn contains_expr(exprs: &Vec<ScalarExpr>, e: &ScalarExpr) -> (r: bool)
    ensures
        r == exprs_view(exprs@).contains(e@),
{
    let mut i: usize = 0;
    while i < exprs.len()
        invariant
            i <= exprs.len(),
            forall|j: int| 0 <= j < i ==> exprs_view(exprs@)[j] != e@,
        decreases exprs.len() - i,
    {
        if exprs[i].equals(e) {
            assert(exprs_view(exprs@)[i as int] == e@);
            return true;
        }
        i += 1;
    }
    false
}

/// Whether no two of `exprs` are equal.
pub fn all_unique(exprs: &Vec<ScalarExpr>) -> (r: bool)
    ensures
        r == exprs_view(exprs@).no_duplicates(),
{
    let ghost all = exprs_view(exprs@);
    let mut i: usize = 0;
    while i < exprs.len()
        invariant
            i <= exprs.len(),
            all == exprs_view(exprs@),
            forall|a: int, b: int| 0 <= a < b < all.len() && b < i ==> all[a] != all[b],
        decreases exprs.len() - i,
    {
        let mut j: usize = 0;
        while j < i
            invariant
                j <= i,
                i < exprs.len(),
                all == exprs_view(exprs@),
                forall|a: int| 0 <= a < j ==> all[a] != all[i as int],
            decreases i - j,
        {
            if exprs[j].equals(&exprs[i]) {
                assert(all[j as int] == all[i as int]);
                return false;
            }
            j += 1;
        }
        i += 1;
    }
    true
}

} // verus!

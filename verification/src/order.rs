//! The total order on scalar expressions: by kind first, then by function,
//! then by arguments from left to right.

use crate::scalar::{
    exprs_view, lemma_view_variadic, BinaryFunc, Expr, ScalarExpr, UnaryFunc, VariadicFunc,
};
use crate::value::{lemma_value_order_total, lemma_value_order_transitive, IntType, Value};
use vstd::prelude::*;

verus! {

impl IntType {
    /// The position of the type in the order of types.
    pub open spec fn rank(self) -> int {
        match self {
            IntType::Int16 => 0,
            IntType::Int32 => 1,
            IntType::Int64 => 2,
        }
    }

    fn rank_of(&self) -> (r: u8)
        ensures
            r == self.rank(),
    {
        match self {
            IntType::Int16 => 0,
            IntType::Int32 => 1,
            IntType::Int64 => 2,
        }
    }
}

impl UnaryFunc {
    /// The position of the function in the order of functions.
    pub open spec fn rank(self) -> int {
        match self {
            UnaryFunc::Not => 0,
            UnaryFunc::IsNull => 1,
            UnaryFunc::Cast { from, to } => 2 + 3 * from.rank() + to.rank(),
        }
    }

    fn rank_of(&self) -> (r: u8)
        ensures
            r == self.rank(),
    {
        match self {
            UnaryFunc::Not => 0,
            UnaryFunc::IsNull => 1,
            UnaryFunc::Cast { from, to } => 2 + 3 * from.rank_of() + to.rank_of(),
        }
    }
}

impl BinaryFunc {
    /// The position of the function in the order of functions.
    pub open spec fn rank(self) -> int {
        match self {
            BinaryFunc::Eq => 0,
            BinaryFunc::NotEq => 1,
            BinaryFunc::Lt => 2,
            BinaryFunc::Lte => 3,
            BinaryFunc::Gt => 4,
            BinaryFunc::Gte => 5,
        }
    }

    fn rank_of(&self) -> (r: u8)
        ensures
            r == self.rank(),
    {
        match self {
            BinaryFunc::Eq => 0,
            BinaryFunc::NotEq => 1,
            BinaryFunc::Lt => 2,
            BinaryFunc::Lte => 3,
            BinaryFunc::Gt => 4,
            BinaryFunc::Gte => 5,
        }
    }
}

impl VariadicFunc {
    /// The position of the function in the order of functions.
    pub open spec fn rank(self) -> int {
        match self {
            VariadicFunc::And => 0,
            VariadicFunc::Or => 1,
            VariadicFunc::Coalesce => 2,
        }
    }

    fn rank_of(&self) -> (r: u8)
        ensures
            r == self.rank(),
    {
        match self {
            VariadicFunc::And => 0,
            VariadicFunc::Or => 1,
            VariadicFunc::Coalesce => 2,
        }
    }
}

impl Expr {
    /// The position of the kind of the expression in the order of kinds.
    pub open spec fn kind(self) -> int {
        match self {
            Expr::Column(_) => 0,
            Expr::Literal(_) => 1,
            Expr::CallUnary(_, _) => 2,
            Expr::CallBinary(_, _, _) => 3,
            Expr::CallVariadic(_, _) => 4,
        }
    }

    /// Whether the expression comes strictly before `other`: expressions of
    /// different kinds by kind; columns by index; literals by value; calls
    /// by function, then by their arguments from left to right, a list of
    /// arguments that is a proper prefix of another coming first.
    pub open spec fn lt(self, other: Expr) -> bool
        decreases self, 0nat,
    {
        if self.kind() != other.kind() {
            self.kind() < other.kind()
        } else {
            match (self, other) {
                (Expr::Column(a), Expr::Column(b)) => a < b,
                (Expr::Literal(a), Expr::Literal(b)) => a.lt(b),
                (Expr::CallUnary(f, a), Expr::CallUnary(g, b)) => f.rank() < g.rank() || (f.rank()
                    == g.rank() && a.lt(*b)),
                (Expr::CallBinary(f, a1, a2), Expr::CallBinary(g, b1, b2)) => f.rank() < g.rank()
                    || (f.rank() == g.rank() && (a1.lt(*b1) || (*a1 == *b1 && a2.lt(*b2)))),
                (Expr::CallVariadic(f, xs), Expr::CallVariadic(g, ys)) => f.rank() < g.rank() || (
                f.rank() == g.rank() && list_lt(xs, ys, 0)),
                _ => false,
            }
        }
    }
}

/// Whether the list `xs` comes strictly before the list `ys`, given that
/// they agree before position `from`.
pub open spec fn list_lt(xs: Seq<Expr>, ys: Seq<Expr>, from: int) -> bool
    decreases xs, xs.len() - from,
{
    if from < 0 || from >= ys.len() {
        false
    } else if from >= xs.len() {
        true
    } else if xs[from] == ys[from] {
        list_lt(xs, ys, from + 1)
    } else {
        xs[from].lt(ys[from])
    }
}

/// Functions at the same position in their order are the same function.
pub proof fn lemma_ranks_injective()
    ensures
        forall|f: UnaryFunc, g: UnaryFunc| f.rank() == g.rank() ==> f == g,
        forall|f: BinaryFunc, g: BinaryFunc| f.rank() == g.rank() ==> f == g,
        forall|f: VariadicFunc, g: VariadicFunc| f.rank() == g.rank() ==> f == g,
{
    assert forall|f: UnaryFunc, g: UnaryFunc| f.rank() == g.rank() implies f == g by {
        match (f, g) {
            (UnaryFunc::Cast { from: a, to: b }, UnaryFunc::Cast { from: c, to: d }) => {
                assert(a.rank() == c.rank() && b.rank() == d.rank());
            },
            _ => {},
        }
    }
}

/// No expression comes before itself, and of two expressions at most one
/// comes before the other.
pub proof fn lemma_order_asymmetric(a: Expr, b: Expr)
    ensures
        !(a.lt(b) && b.lt(a)),
        !a.lt(a),
    decreases a, 0nat,
{
    match (a, b) {
        (Expr::Literal(x), Expr::Literal(y)) => {
            lemma_value_order_total(x, y);
        },
        (Expr::CallUnary(f, x), Expr::CallUnary(g, y)) => {
            lemma_order_asymmetric(*x, *y);
        },
        (Expr::CallBinary(f, x1, x2), Expr::CallBinary(g, y1, y2)) => {
            lemma_order_asymmetric(*x1, *y1);
            lemma_order_asymmetric(*x2, *y2);
        },
        (Expr::CallVariadic(f, xs), Expr::CallVariadic(g, ys)) => {
            lemma_list_order_asymmetric(xs, ys, 0);
        },
        _ => {},
    }
    match a {
        Expr::Literal(x) => {
            lemma_value_order_total(x, x);
        },
        Expr::CallUnary(f, x) => {
            lemma_order_asymmetric(*x, *x);
        },
        Expr::CallBinary(f, x1, x2) => {
            lemma_order_asymmetric(*x1, *x1);
            lemma_order_asymmetric(*x2, *x2);
        },
        Expr::CallVariadic(f, xs) => {
            lemma_list_order_asymmetric(xs, xs, 0);
        },
        _ => {},
    }
}

/// No list comes before itself, and of two lists at most one comes before
/// the other.
pub proof fn lemma_list_order_asymmetric(xs: Seq<Expr>, ys: Seq<Expr>, from: int)
    requires
        0 <= from,
    ensures
        !(list_lt(xs, ys, from) && list_lt(ys, xs, from)),
        !list_lt(xs, xs, from),
    decreases xs, xs.len() - from,
{
    if from < xs.len() {
        lemma_list_order_asymmetric(xs, xs, from + 1);
        if from < ys.len() {
            if xs[from] == ys[from] {
                lemma_list_order_asymmetric(xs, ys, from + 1);
            } else {
                lemma_order_asymmetric(xs[from], ys[from]);
            }
        }
    }
}

/// Of two different expressions one comes before the other.
pub proof fn lemma_order_total(a: Expr, b: Expr)
    ensures
        a == b || a.lt(b) || b.lt(a),
    decreases a, 0nat,
{
    lemma_ranks_injective();
    match (a, b) {
        (Expr::Literal(x), Expr::Literal(y)) => {
            lemma_value_order_total(x, y);
        },
        (Expr::CallUnary(f, x), Expr::CallUnary(g, y)) => {
            lemma_order_total(*x, *y);
        },
        (Expr::CallBinary(f, x1, x2), Expr::CallBinary(g, y1, y2)) => {
            lemma_order_total(*x1, *y1);
            lemma_order_total(*x2, *y2);
        },
        (Expr::CallVariadic(f, xs), Expr::CallVariadic(g, ys)) => {
            lemma_list_order_total(xs, ys, 0);
            if f.rank() == g.rank() && !list_lt(xs, ys, 0) && !list_lt(ys, xs, 0) {
                assert(xs =~= ys);
            }
        },
        _ => {},
    }
}

/// Of two lists that agree before `from` and are different, one comes
/// before the other.
pub proof fn lemma_list_order_total(xs: Seq<Expr>, ys: Seq<Expr>, from: int)
    requires
        0 <= from <= xs.len(),
        from <= ys.len(),
        forall|i: int| 0 <= i < from ==> xs[i] == ys[i],
    ensures
        list_lt(xs, ys, from) || list_lt(ys, xs, from) || (xs.len() == ys.len() && forall|i: int|
            0 <= i < xs.len() ==> xs[i] == ys[i]),
    decreases xs, xs.len() - from,
{
    if from < xs.len() && from < ys.len() {
        if xs[from] == ys[from] {
            lemma_list_order_total(xs, ys, from + 1);
        } else {
            lemma_order_total(xs[from], ys[from]);
        }
    }
}

/// The order on expressions is transitive.
pub proof fn lemma_order_transitive(a: Expr, b: Expr, c: Expr)
    requires
        a.lt(b),
        b.lt(c),
    ensures
        a.lt(c),
    decreases a, 0nat,
{
    lemma_ranks_injective();
    match (a, b, c) {
        (Expr::Literal(x), Expr::Literal(y), Expr::Literal(z)) => {
            lemma_value_order_transitive(x, y, z);
        },
        (Expr::CallUnary(f, x), Expr::CallUnary(g, y), Expr::CallUnary(h, z)) => {
            if f.rank() == g.rank() && g.rank() == h.rank() {
                lemma_order_transitive(*x, *y, *z);
            }
        },
        (
            Expr::CallBinary(f, x1, x2),
            Expr::CallBinary(g, y1, y2),
            Expr::CallBinary(h, z1, z2),
        ) => {
            if f.rank() == g.rank() && g.rank() == h.rank() {
                if x1.lt(*y1) && y1.lt(*z1) {
                    lemma_order_transitive(*x1, *y1, *z1);
                } else if *x1 == *y1 && *y1 == *z1 {
                    lemma_order_transitive(*x2, *y2, *z2);
                }
            }
        },
        (Expr::CallVariadic(f, xs), Expr::CallVariadic(g, ys), Expr::CallVariadic(h, zs)) => {
            if f.rank() == g.rank() && g.rank() == h.rank() {
                lemma_list_order_transitive(xs, ys, zs, 0);
            }
        },
        _ => {},
    }
}

/// The order on lists of expressions is transitive.
pub proof fn lemma_list_order_transitive(xs: Seq<Expr>, ys: Seq<Expr>, zs: Seq<Expr>, from: int)
    requires
        0 <= from,
        list_lt(xs, ys, from),
        list_lt(ys, zs, from),
    ensures
        list_lt(xs, zs, from),
    decreases xs, xs.len() - from,
{
    if from < xs.len() {
        if xs[from] == ys[from] && ys[from] == zs[from] {
            lemma_list_order_transitive(xs, ys, zs, from + 1);
        } else if xs[from] != ys[from] && ys[from] != zs[from] {
            lemma_order_transitive(xs[from], ys[from], zs[from]);
            lemma_order_asymmetric(xs[from], ys[from]);
        }
    }
}

/// Whether the list `xs` comes strictly before the list `ys`.
fn list_less_than(xs: &Vec<ScalarExpr>, ys: &Vec<ScalarExpr>) -> (r: bool)
    ensures
        r == list_lt(exprs_view(xs@), exprs_view(ys@), 0),
    decreases xs,
{
    let ghost a = exprs_view(xs@);
    let ghost b = exprs_view(ys@);
    let mut i: usize = 0;
    while i < xs.len() && i < ys.len()
        invariant
            i <= xs.len(),
            i <= ys.len(),
            a == exprs_view(xs@),
            b == exprs_view(ys@),
            list_lt(a, b, 0) == list_lt(a, b, i as int),
        decreases xs.len() - i,
    {
        if !xs[i].equals(&ys[i]) {
            return xs[i].less_than(&ys[i]);
        }
        i += 1;
    }
    i < ys.len()
}

impl ScalarExpr {
    /// Whether the expression comes strictly before `other` in the order on
    /// expressions.
    pub fn less_than(&self, other: &ScalarExpr) -> (r: bool)
        ensures
            r == self@.lt(other@),
        decreases self,
    {
        match (self, other) {
            (ScalarExpr::Column(a), ScalarExpr::Column(b)) => *a < *b,
            (ScalarExpr::Column(_), _) => true,
            (ScalarExpr::Literal(_), ScalarExpr::Column(_)) => false,
            (ScalarExpr::Literal(a), ScalarExpr::Literal(b)) => a.less_than(b),
            (ScalarExpr::Literal(_), _) => true,
            (ScalarExpr::CallUnary { .. }, ScalarExpr::Column(_)) => false,
            (ScalarExpr::CallUnary { .. }, ScalarExpr::Literal(_)) => false,
            (
                ScalarExpr::CallUnary { func: f, expr: a },
                ScalarExpr::CallUnary { func: g, expr: b },
            ) => {
                let (p, q): (u8, u8) = (f.rank_of(), g.rank_of());
                p < q || (p == q && a.less_than(b))
            },
            (ScalarExpr::CallUnary { .. }, _) => true,
            (
                ScalarExpr::CallBinary { func: f, expr1: a1, expr2: a2 },
                ScalarExpr::CallBinary { func: g, expr1: b1, expr2: b2 },
            ) => {
                let (p, q): (u8, u8) = (f.rank_of(), g.rank_of());
                p < q || (p == q && (a1.less_than(b1) || (a1.equals(b1) && a2.less_than(b2))))
            },
            (ScalarExpr::CallBinary { .. }, ScalarExpr::CallVariadic { .. }) => true,
            (ScalarExpr::CallBinary { .. }, _) => false,
            (
                ScalarExpr::CallVariadic { func: f, exprs: xs },
                ScalarExpr::CallVariadic { func: g, exprs: ys },
            ) => {
                proof {
                    lemma_view_variadic(*f, *xs);
                    lemma_view_variadic(*g, *ys);
                }
                let (p, q): (u8, u8) = (f.rank_of(), g.rank_of());
                p < q || (p == q && list_less_than(xs, ys))
            },
            (ScalarExpr::CallVariadic { .. }, _) => false,
        }
    }
}

} // verus!

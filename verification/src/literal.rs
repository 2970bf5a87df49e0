//! Equalities between an expression and a literal: how to recognise them,
//! how to undo a cast around the expression, and when they cannot hold.

use crate::scalar::{BinaryFunc, Expr, ScalarExpr, UnaryFunc};
use crate::value::Value;
use vstd::prelude::*;

verus! {

impl UnaryFunc {
    /// Whether this function has an inverse that yields no value on the
    /// literal `lit`: then no argument is mapped to `lit`.
    pub open spec fn inverse_fails(self, lit: Value) -> bool {
        match self.inverse() {
            Some(inv) => lit != Value::Null && inv.apply(lit) == Value::Null,
            None => false,
        }
    }

    /// The inverse function, where there is one.
    pub fn inverse_of(&self) -> (r: Option<UnaryFunc>)
        ensures
            r == self.inverse(),
    {
        match self {
            UnaryFunc::Cast { from, to } => Some(UnaryFunc::Cast { from: *to, to: *from }),
            _ => None,
        }
    }

    /// Applies the function to a value.
    pub fn eval(&self, v: Value) -> (r: Value)
        ensures
            r == self.apply(v),
    {
        match self {
            UnaryFunc::Not => match v {
                Value::Bool(b) => Value::Bool(!b),
                _ => Value::Null,
            },
            UnaryFunc::IsNull => Value::Bool(v.is_null()),
            UnaryFunc::Cast { from, to } => match v.as_int() {
                Some((ty, x)) => if ty == *from {
                    match Value::from_int(*to, x) {
                        Some(w) => w,
                        None => Value::Null,
                    }
                } else {
                    Value::Null
                },
                None => Value::Null,
            },
        }
    }
}

/// A function with an inverse maps a value to the literal `lit` exactly when
/// the inverse maps `lit` back to that value.
pub proof fn lemma_inverse(func: UnaryFunc, lit: Value, v: Value)
    requires
        func.inverse().is_some(),
        lit != Value::Null,
    ensures
        func.inverse_fails(lit) ==> func.apply(v) != lit,
        !func.inverse_fails(lit) ==> (func.apply(v) == lit <==> v == func.inverse().unwrap().apply(
            lit,
        )),
        !func.inverse_fails(lit) ==> func.inverse().unwrap().apply(lit) != Value::Null,
{
}

/// The expression and the literal of an equality after a cast around the
/// expression has been undone on both sides, where that is possible.
pub open spec fn inverted(expr: Expr, lit: Value) -> (Expr, Value) {
    match expr {
        Expr::CallUnary(func, inner) => match func.inverse() {
            Some(inv) => if func.inverse_fails(lit) {
                (expr, lit)
            } else {
                (*inner, inv.apply(lit))
            },
            None => (expr, lit),
        },
        _ => (expr, lit),
    }
}

/// What `expr_eq_literal` yields for the literal `lit` and the other side
/// `other` of an equality.
pub open spec fn matched_literal(key: Expr, lit: Value, other: Expr) -> Option<(Value, bool)> {
    if other == key {
        Some((lit, false))
    } else if inverted(other, lit).0 == key {
        Some((inverted(other, lit).1, true))
    } else {
        None
    }
}

impl Expr {
    /// An equality with a literal on one side, with the literal in front and
    /// a cast around the other side undone; any other expression unchanged.
    pub open spec fn invert_casts_on_expr_eq_literal(self) -> Expr {
        match self {
            Expr::CallBinary(BinaryFunc::Eq, a, b) => match (*a, *b) {
                (Expr::Literal(v), _) => Expr::CallBinary(
                    BinaryFunc::Eq,
                    Box::new(Expr::Literal(inverted(*b, v).1)),
                    Box::new(inverted(*b, v).0),
                ),
                (_, Expr::Literal(v)) => Expr::CallBinary(
                    BinaryFunc::Eq,
                    Box::new(Expr::Literal(inverted(*a, v).1)),
                    Box::new(inverted(*a, v).0),
                ),
                _ => self,
            },
            _ => self,
        }
    }

    /// The expression that an equality with a literal constrains, with a cast
    /// around it undone; `None` for any other expression.
    pub open spec fn any_expr_eq_literal(self) -> Option<Expr> {
        match self {
            Expr::CallBinary(BinaryFunc::Eq, a, b) => match (*a, *b) {
                (Expr::Literal(v), _) => Some(inverted(*b, v).0),
                (_, Expr::Literal(v)) => Some(inverted(*a, v).0),
                _ => None,
            },
            _ => None,
        }
    }

    /// Whether this is an equality between a cast and a literal that the
    /// cast can never yield.
    pub open spec fn impossible_literal_equality_because_types(self) -> bool {
        match self {
            Expr::CallBinary(BinaryFunc::Eq, a, b) => match (*a, *b) {
                (Expr::Literal(v), Expr::CallUnary(func, _)) => func.inverse_fails(v),
                (Expr::Literal(_), _) => false,
                (Expr::CallUnary(func, _), Expr::Literal(v)) => func.inverse_fails(v),
                _ => false,
            },
            _ => false,
        }
    }

    /// If this is an equality between `key` and a literal that is not null,
    /// directly or through one cast that can be undone: the literal that
    /// `key` itself must equal, and whether a cast was undone.
    pub open spec fn expr_eq_literal(self, key: Expr) -> Option<(Value, bool)> {
        match self {
            Expr::CallBinary(BinaryFunc::Eq, a, b) => match (*a, *b) {
                (Expr::Literal(Value::Null), _) => None,
                (_, Expr::Literal(Value::Null)) => None,
                (Expr::Literal(v), _) => matched_literal(key, v, *b),
                (_, Expr::Literal(v)) => matched_literal(key, v, *a),
                _ => None,
            },
            _ => None,
        }
    }
}

/// Undoing a cast in an equality with a literal does not change the rows on
/// which the equality holds.
pub proof fn lemma_invert_casts_equivalent(e: Expr, row: Seq<Value>)
    ensures
        e.invert_casts_on_expr_eq_literal().holds(row) == e.holds(row),
{
    reveal_with_fuel(Expr::eval, 3);
    match e {
        Expr::CallBinary(BinaryFunc::Eq, a, b) => {
            match (*a, *b) {
                (Expr::Literal(v), _) => {
                    lemma_inverted_equivalent(*b, v, row);
                },
                (_, Expr::Literal(v)) => {
                    lemma_inverted_equivalent(*a, v, row);
                },
                _ => {},
            }
        },
        _ => {},
    }
}

/// An expression equals a literal on a row exactly when the expression with
/// its cast undone equals the literal with the cast undone.
pub proof fn lemma_inverted_equivalent(expr: Expr, lit: Value, row: Seq<Value>)
    ensures
        (lit != Value::Null && expr.eval(row) == lit) <==> (inverted(expr, lit).1 != Value::Null
            && inverted(expr, lit).0.eval(row) == inverted(expr, lit).1),
{
    match expr {
        Expr::CallUnary(func, inner) => {
            if func.inverse().is_some() && lit != Value::Null {
                lemma_inverse(func, lit, inner.eval(row));
            }
        },
        _ => {},
    }
}

/// An equality that is impossible by its types holds on no row.
pub proof fn lemma_impossible_never_holds(e: Expr, row: Seq<Value>)
    requires
        e.impossible_literal_equality_because_types(),
    ensures
        !e.holds(row),
{
    reveal_with_fuel(Expr::eval, 3);
    match e {
        Expr::CallBinary(BinaryFunc::Eq, a, b) => {
            match (*a, *b) {
                (Expr::Literal(v), Expr::CallUnary(func, inner)) => {
                    lemma_inverse(func, v, inner.eval(row));
                },
                (Expr::CallUnary(func, inner), Expr::Literal(v)) => {
                    lemma_inverse(func, v, inner.eval(row));
                },
                _ => {},
            }
        },
        _ => {},
    }
}

/// Where an expression is an equality between `key` and a literal, it holds
/// on exactly the rows on which `key` has the value that is reported, and
/// that value is not null.
pub proof fn lemma_expr_eq_literal_sound(e: Expr, key: Expr, row: Seq<Value>)
    requires
        e.expr_eq_literal(key).is_some(),
    ensures
        e.expr_eq_literal(key).unwrap().0 != Value::Null,
        e.holds(row) <==> key.eval(row) == e.expr_eq_literal(key).unwrap().0,
{
    reveal_with_fuel(Expr::eval, 3);
    match e {
        Expr::CallBinary(BinaryFunc::Eq, a, b) => {
            match (*a, *b) {
                (Expr::Literal(v), _) => {
                    lemma_inverted_equivalent(*b, v, row);
                },
                (_, Expr::Literal(v)) => {
                    lemma_inverted_equivalent(*a, v, row);
                },
                _ => {},
            }
        },
        _ => {},
    }
}

/// Two equalities that constrain the same expression, and differ after their
/// casts are undone, never hold on the same row.
pub proof fn lemma_distinct_constraints_contradict(e1: Expr, e2: Expr, row: Seq<Value>)
    requires
        e1.any_expr_eq_literal().is_some(),
        e1.any_expr_eq_literal() == e2.any_expr_eq_literal(),
        e1.invert_casts_on_expr_eq_literal() != e2.invert_casts_on_expr_eq_literal(),
    ensures
        !(e1.holds(row) && e2.holds(row)),
{
    reveal_with_fuel(Expr::eval, 3);
    lemma_invert_casts_equivalent(e1, row);
    lemma_invert_casts_equivalent(e2, row);
}

impl ScalarExpr {
    pub fn is_literal(&self) -> (r: bool)
        ensures
            r == (self@ is Literal),
    {
        match self {
            ScalarExpr::Literal(_) => true,
            _ => false,
        }
    }

    pub fn is_literal_null(&self) -> (r: bool)
        ensures
            r == (self@ == Expr::Literal(Value::Null)),
    {
        match self {
            ScalarExpr::Literal(v) => v.is_null(),
            _ => false,
        }
    }

    /// The value of a literal.
    pub fn as_literal(&self) -> (r: Option<Value>)
        ensures
            r == match self@ {
                Expr::Literal(v) => Some(v),
                _ => None,
            },
    {
        match self {
            ScalarExpr::Literal(v) => Some(*v),
            _ => None,
        }
    }

    /// The two sides of an equality.
    pub fn as_equality(&self) -> (r: Option<(&ScalarExpr, &ScalarExpr)>)
        ensures
            match r {
                Some((a, b)) => self@ == Expr::CallBinary(
                    BinaryFunc::Eq,
                    Box::new(a@),
                    Box::new(b@),
                ),
                None => !(self@ matches Expr::CallBinary(BinaryFunc::Eq, _, _)),
            },
    {
        match self {
            ScalarExpr::CallBinary { func: BinaryFunc::Eq, expr1, expr2 } => Some(
                (&**expr1, &**expr2),
            ),
            _ => None,
        }
    }

    /// Undoes a cast around `self` on both sides of an equality with the
    /// literal `lit`, where the cast has an inverse that yields a value on
    /// `lit`; hands back `self` and `lit` unchanged otherwise.
    pub fn invert_casts_on_expr_eq_literal_inner(&self, lit: Value) -> (r: (ScalarExpr, Value))
        ensures
            (r.0@, r.1) == inverted(self@, lit),
    {
        match self {
            ScalarExpr::CallUnary { func, expr } => {
                match func.inverse_of() {
                    Some(inv) => {
                        let back = inv.eval(lit);
                        if !lit.is_null() && back.is_null() {
                            (self.clone(), lit)
                        } else {
                            ((**expr).clone(), back)
                        }
                    },
                    None => (self.clone(), lit),
                }
            },
            _ => (self.clone(), lit),
        }
    }

    /// An equality with a literal on one side, rewritten with the literal in
    /// front and a cast around the other side undone; a copy of any other
    /// expression.
    pub fn invert_casts_on_expr_eq_literal(&self) -> (r: ScalarExpr)
        ensures
            r@ == self@.invert_casts_on_expr_eq_literal(),
    {
        match self.as_equality() {
            Some((a, b)) => {
                match a.as_literal() {
                    Some(v) => {
                        let (e, l) = b.invert_casts_on_expr_eq_literal_inner(v);
                        return ScalarExpr::literal(l).call_binary(e, BinaryFunc::Eq);
                    },
                    None => {},
                }
                match b.as_literal() {
                    Some(v) => {
                        let (e, l) = a.invert_casts_on_expr_eq_literal_inner(v);
                        return ScalarExpr::literal(l).call_binary(e, BinaryFunc::Eq);
                    },
                    None => {},
                }
                self.clone()
            },
            None => self.clone(),
        }
    }

    /// The expression that an equality with a literal constrains, with a cast
    /// around it undone.
    pub fn any_expr_eq_literal(&self) -> (r: Option<ScalarExpr>)
        ensures
            match r {
                Some(e) => self@.any_expr_eq_literal() == Some(e@),
                None => self@.any_expr_eq_literal().is_none(),
            },
    {
        match self.as_equality() {
            Some((a, b)) => {
                match a.as_literal() {
                    Some(v) => {
                        let (e, _l) = b.invert_casts_on_expr_eq_literal_inner(v);
                        return Some(e);
                    },
                    None => {},
                }
                match b.as_literal() {
                    Some(v) => {
                        let (e, _l) = a.invert_casts_on_expr_eq_literal_inner(v);
                        return Some(e);
                    },
                    None => {},
                }
                None
            },
            None => None,
        }
    }

    fn impossible_literal_equality_because_types_inner(&self, lit: Value) -> (r: bool)
        ensures
            r == match self@ {
                Expr::CallUnary(func, _) => func.inverse_fails(lit),
                _ => false,
            },
    {
        match self {
            ScalarExpr::CallUnary { func, expr: _ } => {
                match func.inverse_of() {
                    Some(inv) => !lit.is_null() && inv.eval(lit).is_null(),
                    None => false,
                }
            },
            _ => false,
        }
    }

    /// Whether this is an equality between a cast and a literal that the
    /// cast can never yield, such as a 16-bit column, widened, against
    /// 100000.
    pub fn impossible_literal_equality_because_types(&self) -> (r: bool)
        ensures
            r == self@.impossible_literal_equality_because_types(),
    {
        match self.as_equality() {
            Some((a, b)) => {
                match a.as_literal() {
                    Some(v) => {
                        return b.impossible_literal_equality_because_types_inner(v);
                    },
                    None => {},
                }
                match b.as_literal() {
                    Some(v) => {
                        return a.impossible_literal_equality_because_types_inner(v);
                    },
                    None => {},
                }
                false
            },
            None => false,
        }
    }

    fn expr_eq_literal_inner(key: &ScalarExpr, lit: Value, other: &ScalarExpr) -> (r: Option<
        (Value, bool),
    >)
        ensures
            r == matched_literal(key@, lit, other@),
    {
        if other.equals(key) {
            Some((lit, false))
        } else {
            let (e, l) = other.invert_casts_on_expr_eq_literal_inner(lit);
            if e.equals(key) {
                Some((l, true))
            } else {
                None
            }
        }
    }

    /// If `self` is an equality between `key` and a literal that is not
    /// null, directly or through one cast that can be undone: the literal
    /// that `key` itself must equal, and whether a cast was undone.
    pub fn expr_eq_literal(&self, key: &ScalarExpr) -> (r: Option<(Value, bool)>)
        ensures
            r == self@.expr_eq_literal(key@),
    {
        match self.as_equality() {
            Some((a, b)) => {
                if a.is_literal_null() || b.is_literal_null() {
                    return None;
                }
                match a.as_literal() {
                    Some(v) => {
                        return Self::expr_eq_literal_inner(key, v, b);
                    },
                    None => {},
                }
                match b.as_literal() {
                    Some(v) => {
                        return Self::expr_eq_literal_inner(key, v, a);
                    },
                    None => {},
                }
                None
            },
            None => None,
        }
    }
}

} // verus!

//! Boolean restructuring of predicates: merging nested calls of one
//! associative function, and distributing `And` over `Or`.

use crate::scalar::{
    clone_exprs, exprs_view, lemma_exprs_view_push, lemma_view_variadic, Expr, ScalarExpr,
    VariadicFunc,
};
use crate::value::Value;
use vstd::prelude::*;

verus! {

impl VariadicFunc {
    /// Whether nested calls of this function may be merged into one call.
    pub open spec fn is_associative(self) -> bool {
        self == VariadicFunc::And || self == VariadicFunc::Or
    }

    /// Whether nested calls of this function may be merged into one call.
    pub fn associative(&self) -> (r: bool)
        ensures
            r == self.is_associative(),
    {
        match self {
            VariadicFunc::And => true,
            VariadicFunc::Or => true,
            VariadicFunc::Coalesce => false,
        }
    }
}

/// What an argument of a call of `func` contributes once nested calls are
/// merged: its own arguments if it is a call of `func` itself, else itself.
pub open spec fn merged_part(func: VariadicFunc, arg: Expr) -> Seq<Expr> {
    match arg {
        Expr::CallVariadic(f, inner) => if f == func {
            inner
        } else {
            seq![arg]
        },
        _ => seq![arg],
    }
}

/// The arguments of a call of `func` after the arguments of each nested call
/// of `func` have taken the place of that call.
pub open spec fn flatten_args(func: VariadicFunc, args: Seq<Expr>) -> Seq<Expr>
    decreases args.len(),
{
    if args.len() == 0 {
        Seq::empty()
    } else {
        flatten_args(func, args.drop_last()) + merged_part(func, args.last())
    }
}

/// The index of the first argument that is a call of `Or`, or the number of
/// arguments if there is none.
pub open spec fn first_or(args: Seq<Expr>) -> int
    decreases args.len(),
{
    if args.len() == 0 {
        0
    } else if args[0] matches Expr::CallVariadic(VariadicFunc::Or, _) {
        0
    } else {
        1 + first_or(args.skip(1))
    }
}

/// The sequence without its element at `i`, whose place the last element
/// takes.
pub open spec fn swap_remove(args: Seq<Expr>, i: int) -> Seq<Expr>
    recommends
        0 <= i < args.len(),
{
    args.update(i, args.last()).drop_last()
}

/// The binary conjunction of each of `or_args` with `rest`.
pub open spec fn distributed(or_args: Seq<Expr>, rest: Expr) -> Seq<Expr> {
    Seq::new(or_args.len(), |j: int| Expr::CallVariadic(VariadicFunc::And, seq![or_args[j], rest]))
}

impl Expr {
    /// The arguments of the expression if it is a call of `func`; else the
    /// expression alone, read as a call with one argument.
    pub open spec fn and_or_args(self, func: VariadicFunc) -> Seq<Expr> {
        merged_part(func, self)
    }

    /// A call of an associative function with each argument that is a call
    /// of the same function replaced by the arguments of that call.
    pub open spec fn flatten_associative(self) -> Expr {
        match self {
            Expr::CallVariadic(func, args) => if func.is_associative() {
                Expr::CallVariadic(func, flatten_args(func, args))
            } else {
                self
            },
            _ => self,
        }
    }

    /// The expression with `flatten_associative` applied at every node, the
    /// arguments of a node before the node itself.
    pub open spec fn flatten(self) -> Expr
        decreases self,
    {
        match self {
            Expr::Column(_) => self,
            Expr::Literal(_) => self,
            Expr::CallUnary(func, a) => Expr::CallUnary(func, Box::new(a.flatten())),
            Expr::CallBinary(func, a, b) => Expr::CallBinary(
                func,
                Box::new(a.flatten()),
                Box::new(b.flatten()),
            ),
            Expr::CallVariadic(func, args) => Expr::CallVariadic(
                func,
                flatten_all(args),
            ).flatten_associative(),
        }
    }

    /// A conjunction with an `Or` among its arguments, turned into the `Or`
    /// of the conjunctions of each argument of that `Or` with the other
    /// arguments; any other expression unchanged.
    pub open spec fn distribute_step(self) -> Expr {
        match self {
            Expr::CallVariadic(VariadicFunc::And, args) => {
                let i = first_or(args);
                if i < args.len() {
                    Expr::CallVariadic(
                        VariadicFunc::Or,
                        distributed(
                            args[i]->CallVariadic_1,
                            Expr::CallVariadic(VariadicFunc::And, swap_remove(args, i)),
                        ),
                    )
                } else {
                    self
                }
            },
            _ => self,
        }
    }

    /// The expression with `distribute_step` applied at every node, the
    /// arguments of a node before the node itself.
    pub open spec fn distribute(self) -> Expr
        decreases self,
    {
        match self {
            Expr::Column(_) => self,
            Expr::Literal(_) => self,
            Expr::CallUnary(func, a) => Expr::CallUnary(func, Box::new(a.distribute())),
            Expr::CallBinary(func, a, b) => Expr::CallBinary(
                func,
                Box::new(a.distribute()),
                Box::new(b.distribute()),
            ),
            Expr::CallVariadic(func, args) => Expr::CallVariadic(
                func,
                distribute_all(args),
            ).distribute_step(),
        }
    }
}

/// Each expression of the sequence, flattened.
pub open spec fn flatten_all(args: Seq<Expr>) -> Seq<Expr>
    decreases args,
{
    Seq::new(
        args.len(),
        |i: int|
            if 0 <= i < args.len() {
                args[i].flatten()
            } else {
                Expr::Literal(Value::Null)
            },
    )
}

/// Each expression of the sequence, with `And` distributed over `Or`.
pub open spec fn distribute_all(args: Seq<Expr>) -> Seq<Expr>
    decreases args,
{
    Seq::new(
        args.len(),
        |i: int|
            if 0 <= i < args.len() {
                args[i].distribute()
            } else {
                Expr::Literal(Value::Null)
            },
    )
}

/// Before the first `Or` there is no `Or`, and at it there is one.
pub proof fn lemma_first_or(args: Seq<Expr>)
    ensures
        0 <= first_or(args) <= args.len(),
        forall|j: int|
            0 <= j < first_or(args) ==> !(#[trigger] args[j] matches Expr::CallVariadic(
                VariadicFunc::Or,
                _,
            )),
        first_or(args) < args.len() ==> (args[first_or(args)] matches Expr::CallVariadic(
            VariadicFunc::Or,
            _,
        )),
    decreases args.len(),
{
    if args.len() > 0 && !(args[0] matches Expr::CallVariadic(VariadicFunc::Or, _)) {
        let rest = args.skip(1);
        lemma_first_or(rest);
        assert forall|j: int| 0 <= j < first_or(args) implies !(#[trigger] args[j] matches Expr::CallVariadic(
            VariadicFunc::Or,
            _,
        )) by {
            if j > 0 {
                assert(args[j] == rest[j - 1]);
            }
        }
        if first_or(args) < args.len() {
            assert(args[first_or(args)] == rest[first_or(rest)]);
        }
    }
}

/// The arguments `args` of a call of `func`, with each that is itself a call
/// of `func` replaced by its arguments.
pub fn flatten_arguments(func: VariadicFunc, args: &Vec<ScalarExpr>) -> (r: Vec<ScalarExpr>)
    ensures
        exprs_view(r@) == flatten_args(func, exprs_view(args@)),
{
    let ghost all = exprs_view(args@);
    let mut out: Vec<ScalarExpr> = Vec::new();
    let mut i: usize = 0;
    assert(all.take(0) =~= Seq::<Expr>::empty());
    assert(exprs_view(out@) =~= Seq::<Expr>::empty());
    while i < args.len()
        invariant
            i <= args.len(),
            all == exprs_view(args@),
            exprs_view(out@) == flatten_args(func, all.take(i as int)),
        decreases args.len() - i,
    {
        let ghost before = exprs_view(out@);
        let part = args[i].and_or_args(func);
        let mut j: usize = 0;
        assert(exprs_view(out@) =~= before + exprs_view(part@).take(0));
        while j < part.len()
            invariant
                j <= part.len(),
                exprs_view(out@) == before + exprs_view(part@).take(j as int),
            decreases part.len() - j,
        {
            let ghost prev = out@;
            let copy = part[j].clone();
            out.push(copy);
            proof {
                lemma_exprs_view_push(prev, copy);
                assert(exprs_view(part@).take(j as int + 1) =~= exprs_view(part@).take(
                    j as int,
                ).push(part@[j as int]@));
                assert(exprs_view(out@) =~= before + exprs_view(part@).take(j as int + 1));
            }
            j += 1;
        }
        proof {
            assert(exprs_view(part@).take(part.len() as int) =~= exprs_view(part@));
            assert(all.take(i as int + 1).drop_last() =~= all.take(i as int));
            assert(all.take(i as int + 1).last() == all[i as int]);
        }
        i += 1;
    }
    assert(all.take(args.len() as int) =~= all);
    out
}

impl ScalarExpr {
    /// The arguments of the expression if it is a call of `func`; else the
    /// expression alone.
    pub fn and_or_args(&self, func: VariadicFunc) -> (r: Vec<ScalarExpr>)
        ensures
            exprs_view(r@) == self@.and_or_args(func),
    {
        match self {
            ScalarExpr::CallVariadic { func: f, exprs } => {
                proof {
                    lemma_view_variadic(*f, *exprs);
                }
                if *f == func {
                    return clone_exprs(exprs);
                }
            },
            _ => {},
        }
        let mut out: Vec<ScalarExpr> = Vec::new();
        out.push(self.clone());
        assert(exprs_view(out@) =~= seq![self@]);
        out
    }

    /// Whether the expression is a call of `func`.
    pub fn is_call_of(&self, func: VariadicFunc) -> (r: bool)
        ensures
            r == (self@ matches Expr::CallVariadic(f, _) && f == func),
    {
        match self {
            ScalarExpr::CallVariadic { func: f, exprs: _ } => *f == func,
            _ => false,
        }
    }

    /// The call of `func` on `args`, with each argument that is itself a
    /// call of `func` replaced by its arguments if `func` is associative.
    fn flattened_call(func: VariadicFunc, args: Vec<ScalarExpr>) -> (r: ScalarExpr)
        ensures
            r@ == Expr::CallVariadic(func, exprs_view(args@)).flatten_associative(),
    {
        if !func.associative() {
            return ScalarExpr::call_variadic(func, args);
        }
        ScalarExpr::call_variadic(func, flatten_arguments(func, &args))
    }

    /// The expression with nested calls of one associative function merged
    /// at every node.
    #[verifier::loop_isolation(false)]
    pub fn flatten(&self) -> (r: ScalarExpr)
        ensures
            r@ == self@.flatten(),
        decreases self,
    {
        match self {
            ScalarExpr::Column(c) => ScalarExpr::Column(*c),
            ScalarExpr::Literal(v) => ScalarExpr::Literal(*v),
            ScalarExpr::CallUnary { func, expr } => expr.flatten().call_unary(*func),
            ScalarExpr::CallBinary { func, expr1, expr2 } => expr1.flatten().call_binary(
                expr2.flatten(),
                *func,
            ),
            ScalarExpr::CallVariadic { func, exprs } => {
                proof {
                    lemma_view_variadic(*func, *exprs);
                }
                let mut args: Vec<ScalarExpr> = Vec::new();
                let mut i: usize = 0;
                while i < exprs.len()
                    invariant
                        i <= exprs.len(),
                        args.len() == i,
                        forall|j: int| 0 <= j < i ==> args@[j]@ == exprs@[j]@.flatten(),
                    decreases exprs.len() - i,
                {
                    args.push(exprs[i].flatten());
                    i += 1;
                }
                assert(exprs_view(args@) =~= flatten_all(exprs_view(exprs@)));
                Self::flattened_call(*func, args)
            },
        }
    }

    /// The call of `And` on `args`, or, if one of `args` is a call of `Or`,
    /// the `Or` of the conjunctions of each of its arguments with the rest.
    fn distributed_call(func: VariadicFunc, args: Vec<ScalarExpr>) -> (r: ScalarExpr)
        ensures
            r@ == Expr::CallVariadic(func, exprs_view(args@)).distribute_step(),
    {
        let ghost all = exprs_view(args@);
        if func != VariadicFunc::And {
            return ScalarExpr::call_variadic(func, args);
        }
        // Find the first argument that is a call of `Or`.
        let mut i: usize = 0;
        proof {
            assert(all.skip(0) =~= all);
        }
        while i < args.len() && !args[i].is_call_of(VariadicFunc::Or)
            invariant
                i <= args.len(),
                all == exprs_view(args@),
                first_or(all) == i + first_or(all.skip(i as int)),
            decreases args.len() - i,
        {
            assert(all.skip(i as int).skip(1) =~= all.skip(i as int + 1));
            i += 1;
        }
        if i == args.len() {
            assert(first_or(all.skip(i as int)) == 0);
            return ScalarExpr::call_variadic(func, args);
        }
        assert(first_or(all) == i);
        let mut args = args;
        let or = args.swap_remove(i);
        assert(exprs_view(args@) =~= swap_remove(all, i as int));
        let or_args = or.and_or_args(VariadicFunc::Or);
        let to_distribute = ScalarExpr::call_variadic(VariadicFunc::And, args);
        let mut out: Vec<ScalarExpr> = Vec::new();
        let mut j: usize = 0;
        while j < or_args.len()
            invariant
                j <= or_args.len(),
                out.len() == j,
                forall|k: int|
                    0 <= k < j ==> out@[k]@ == Expr::CallVariadic(
                        VariadicFunc::And,
                        seq![or_args@[k]@, to_distribute@],
                    ),
            decreases or_args.len() - j,
        {
            out.push(or_args[j].clone().and(to_distribute.clone()));
            j += 1;
        }
        assert(exprs_view(out@) =~= distributed(exprs_view(or_args@), to_distribute@));
        ScalarExpr::call_variadic(VariadicFunc::Or, out)
    }

    /// The expression with `And` distributed over `Or` once at every node.
    #[verifier::loop_isolation(false)]
    pub fn distribute(&self) -> (r: ScalarExpr)
        ensures
            r@ == self@.distribute(),
        decreases self,
    {
        match self {
            ScalarExpr::Column(c) => ScalarExpr::Column(*c),
            ScalarExpr::Literal(v) => ScalarExpr::Literal(*v),
            ScalarExpr::CallUnary { func, expr } => expr.distribute().call_unary(*func),
            ScalarExpr::CallBinary { func, expr1, expr2 } => expr1.distribute().call_binary(
                expr2.distribute(),
                *func,
            ),
            ScalarExpr::CallVariadic { func, exprs } => {
                proof {
                    lemma_view_variadic(*func, *exprs);
                }
                let mut args: Vec<ScalarExpr> = Vec::new();
                let mut i: usize = 0;
                while i < exprs.len()
                    invariant
                        i <= exprs.len(),
                        args.len() == i,
                        forall|j: int| 0 <= j < i ==> args@[j]@ == exprs@[j]@.distribute(),
                    decreases exprs.len() - i,
                {
                    args.push(exprs[i].distribute());
                    i += 1;
                }
                assert(exprs_view(args@) =~= distribute_all(exprs_view(exprs@)));
                Self::distributed_call(*func, args)
            },
        }
    }
}

} // verus!

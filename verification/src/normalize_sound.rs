//! Proofs that the boolean restructuring of predicates keeps the value of
//! every expression on every row, and reads no new column.

use crate::normalize::{
    distribute_all, distributed, first_or, flatten_all, flatten_args, lemma_first_or, merged_part,
    swap_remove,
};
use crate::scalar::{eval_all, Expr, VariadicFunc};
use crate::value::Value;
use vstd::prelude::*;

verus! {

/// Some expression of the sequence has the value `v` on the row.
pub open spec fn any_is(args: Seq<Expr>, row: Seq<Value>, v: Value) -> bool {
    exists|i: int| 0 <= i < args.len() && #[trigger] args[i].eval(row) == v
}

/// Every expression of the sequence has the value `v` on the row.
pub open spec fn all_are(args: Seq<Expr>, row: Seq<Value>, v: Value) -> bool {
    forall|i: int| 0 <= i < args.len() ==> #[trigger] args[i].eval(row) == v
}

/// A conjunction is false if an argument is false, true if all are true, and
/// null otherwise.
pub proof fn lemma_eval_and(args: Seq<Expr>, row: Seq<Value>)
    ensures
        Expr::CallVariadic(VariadicFunc::And, args).eval(row) == if any_is(
            args,
            row,
            Value::Bool(false),
        ) {
            Value::Bool(false)
        } else if all_are(args, row, Value::Bool(true)) {
            Value::Bool(true)
        } else {
            Value::Null
        },
{
    let vals = eval_all(args, row);
    if any_is(args, row, Value::Bool(false)) {
        let i = choose|i: int| 0 <= i < args.len() && #[trigger] args[i].eval(row) == Value::Bool(false);
        assert(vals[i] == Value::Bool(false));
    } else {
        assert forall|i: int| 0 <= i < vals.len() implies vals[i] != Value::Bool(false) by {
            assert(args[i].eval(row) == vals[i]);
        }
        if all_are(args, row, Value::Bool(true)) {
            assert forall|i: int| 0 <= i < vals.len() implies vals[i] == Value::Bool(true) by {
                assert(args[i].eval(row) == vals[i]);
            }
        } else {
            let i = choose|i: int| 0 <= i < args.len() && #[trigger] args[i].eval(row) != Value::Bool(true);
            assert(vals[i] != Value::Bool(true));
        }
    }
}

/// A disjunction is true if an argument is true, false if all are false, and
/// null otherwise.
pub proof fn lemma_eval_or(args: Seq<Expr>, row: Seq<Value>)
    ensures
        Expr::CallVariadic(VariadicFunc::Or, args).eval(row) == if any_is(
            args,
            row,
            Value::Bool(true),
        ) {
            Value::Bool(true)
        } else if all_are(args, row, Value::Bool(false)) {
            Value::Bool(false)
        } else {
            Value::Null
        },
{
    let vals = eval_all(args, row);
    if any_is(args, row, Value::Bool(true)) {
        let i = choose|i: int| 0 <= i < args.len() && #[trigger] args[i].eval(row) == Value::Bool(true);
        assert(vals[i] == Value::Bool(true));
    } else {
        assert forall|i: int| 0 <= i < vals.len() implies vals[i] != Value::Bool(true) by {
            assert(args[i].eval(row) == vals[i]);
        }
        if all_are(args, row, Value::Bool(false)) {
            assert forall|i: int| 0 <= i < vals.len() implies vals[i] == Value::Bool(false) by {
                assert(args[i].eval(row) == vals[i]);
            }
        } else {
            let i = choose|i: int| 0 <= i < args.len() && #[trigger] args[i].eval(row) != Value::Bool(false);
            assert(vals[i] != Value::Bool(false));
        }
    }
}

/// A conjunction holds on a row exactly when each of its arguments does.
pub proof fn lemma_and_holds(args: Seq<Expr>, row: Seq<Value>)
    ensures
        Expr::CallVariadic(VariadicFunc::And, args).holds(row) <==> forall|i: int|
            0 <= i < args.len() ==> (#[trigger] args[i]).holds(row),
{
    lemma_eval_and(args, row);
    if all_are(args, row, Value::Bool(true)) {
        assert forall|i: int| 0 <= i < args.len() implies (#[trigger] args[i]).holds(row) by {
            assert(args[i].eval(row) == Value::Bool(true));
        }
    }
    if forall|i: int| 0 <= i < args.len() ==> (#[trigger] args[i]).holds(row) {
        assert forall|i: int| 0 <= i < args.len() implies #[trigger] args[i].eval(row)
            == Value::Bool(true) by {
            assert(args[i].holds(row));
        }
    }
}

/// A disjunction holds on a row exactly when one of its arguments does.
pub proof fn lemma_or_holds(args: Seq<Expr>, row: Seq<Value>)
    ensures
        Expr::CallVariadic(VariadicFunc::Or, args).holds(row) <==> exists|i: int|
            0 <= i < args.len() && (#[trigger] args[i]).holds(row),
{
    lemma_eval_or(args, row);
    if any_is(args, row, Value::Bool(true)) {
        let i = choose|i: int| 0 <= i < args.len() && #[trigger] args[i].eval(row) == Value::Bool(true);
        assert(args[i].holds(row));
    }
    if exists|i: int| 0 <= i < args.len() && (#[trigger] args[i]).holds(row) {
        let i = choose|i: int| 0 <= i < args.len() && (#[trigger] args[i]).holds(row);
        assert(args[i].eval(row) == Value::Bool(true));
    }
}

/// Two calls of one function whose arguments have the same values have the
/// same value.
pub proof fn lemma_eval_congruent(func: VariadicFunc, a: Seq<Expr>, b: Seq<Expr>, row: Seq<Value>)
    requires
        a.len() == b.len(),
        forall|i: int| 0 <= i < a.len() ==> a[i].eval(row) == b[i].eval(row),
    ensures
        Expr::CallVariadic(func, a).eval(row) == Expr::CallVariadic(func, b).eval(row),
{
    assert(eval_all(a, row) =~= eval_all(b, row));
}

/// What `any_is` and `all_are` say of two sequences put together.
pub proof fn lemma_quantify_concat(a: Seq<Expr>, b: Seq<Expr>, row: Seq<Value>, v: Value)
    ensures
        any_is(a + b, row, v) <==> any_is(a, row, v) || any_is(b, row, v),
        all_are(a + b, row, v) <==> all_are(a, row, v) && all_are(b, row, v),
{
    let c = a + b;
    if any_is(c, row, v) {
        let i = choose|i: int| 0 <= i < c.len() && #[trigger] c[i].eval(row) == v;
        if i < a.len() {
            assert(a[i].eval(row) == v);
        } else {
            assert(b[i - a.len()].eval(row) == v);
        }
    }
    if any_is(a, row, v) {
        let i = choose|i: int| 0 <= i < a.len() && #[trigger] a[i].eval(row) == v;
        assert(c[i].eval(row) == v);
    }
    if any_is(b, row, v) {
        let i = choose|i: int| 0 <= i < b.len() && #[trigger] b[i].eval(row) == v;
        assert(c[i + a.len()].eval(row) == v);
    }
    if all_are(c, row, v) {
        assert forall|i: int| 0 <= i < a.len() implies #[trigger] a[i].eval(row) == v by {
            assert(c[i].eval(row) == v);
        }
        assert forall|i: int| 0 <= i < b.len() implies #[trigger] b[i].eval(row) == v by {
            assert(c[i + a.len()].eval(row) == v);
        }
    }
    if all_are(a, row, v) && all_are(b, row, v) {
        assert forall|i: int| 0 <= i < c.len() implies #[trigger] c[i].eval(row) == v by {
            if i < a.len() {
                assert(a[i].eval(row) == v);
            } else {
                assert(b[i - a.len()].eval(row) == v);
            }
        }
    }
}

/// What `any_is` and `all_are` say of a sequence in terms of its last
/// element and the rest.
pub proof fn lemma_quantify_last(args: Seq<Expr>, row: Seq<Value>, v: Value)
    requires
        args.len() > 0,
    ensures
        any_is(args, row, v) <==> any_is(args.drop_last(), row, v) || args.last().eval(row) == v,
        all_are(args, row, v) <==> all_are(args.drop_last(), row, v) && args.last().eval(row) == v,
{
    let one = seq![args.last()];
    assert(args =~= args.drop_last() + one);
    lemma_quantify_concat(args.drop_last(), one, row, v);
    if any_is(one, row, v) {
        let i = choose|i: int| 0 <= i < one.len() && #[trigger] one[i].eval(row) == v;
    }
    if args.last().eval(row) == v {
        assert(one[0].eval(row) == v);
    }
    if all_are(one, row, v) {
        assert(one[0].eval(row) == v);
    }
}

/// What `any_is` and `all_are` say of a sequence in terms of its element at
/// `i` and the others.
pub proof fn lemma_quantify_swap_remove(args: Seq<Expr>, i: int, row: Seq<Value>, v: Value)
    requires
        0 <= i < args.len(),
    ensures
        any_is(args, row, v) <==> any_is(swap_remove(args, i), row, v) || args[i].eval(row) == v,
        all_are(args, row, v) <==> all_are(swap_remove(args, i), row, v) && args[i].eval(row) == v,
{
    let rest = swap_remove(args, i);
    let n = args.len() - 1;
    if any_is(args, row, v) {
        let k = choose|k: int| 0 <= k < args.len() && #[trigger] args[k].eval(row) == v;
        if k != i {
            if k == n {
                assert(rest[i].eval(row) == v);
            } else {
                assert(rest[k].eval(row) == v);
            }
        }
    }
    if any_is(rest, row, v) {
        let k = choose|k: int| 0 <= k < rest.len() && #[trigger] rest[k].eval(row) == v;
        if k == i {
            assert(args[n].eval(row) == v);
        } else {
            assert(args[k].eval(row) == v);
        }
    }
    if all_are(args, row, v) {
        assert forall|k: int| 0 <= k < rest.len() implies #[trigger] rest[k].eval(row) == v by {
            if k == i {
                assert(args[n].eval(row) == v);
            } else {
                assert(args[k].eval(row) == v);
            }
        }
    }
    if all_are(rest, row, v) && args[i].eval(row) == v {
        assert forall|k: int| 0 <= k < args.len() implies #[trigger] args[k].eval(row) == v by {
            if k == i {
            } else if k == n {
                assert(rest[i].eval(row) == v);
            } else {
                assert(rest[k].eval(row) == v);
            }
        }
    }
}

/// Whether `arg`, as an argument of a call of `func`, has value `v`: `v` is
/// the value that decides a call of `func`.
proof fn lemma_merged_part(func: VariadicFunc, arg: Expr, row: Seq<Value>)
    requires
        func.is_associative(),
    ensures
        func == VariadicFunc::And ==> {
            &&& any_is(merged_part(func, arg), row, Value::Bool(false)) <==> arg.eval(row)
                == Value::Bool(false)
            &&& all_are(merged_part(func, arg), row, Value::Bool(true)) <==> arg.eval(row)
                == Value::Bool(true)
        },
        func == VariadicFunc::Or ==> {
            &&& any_is(merged_part(func, arg), row, Value::Bool(true)) <==> arg.eval(row)
                == Value::Bool(true)
            &&& all_are(merged_part(func, arg), row, Value::Bool(false)) <==> arg.eval(row)
                == Value::Bool(false)
        },
{
    let part = merged_part(func, arg);
    let merged = arg matches Expr::CallVariadic(f, _) && f == func;
    if merged {
        let inner = arg->CallVariadic_1;
        lemma_eval_and(inner, row);
        lemma_eval_or(inner, row);
        if all_are(inner, row, Value::Bool(true)) && any_is(inner, row, Value::Bool(false)) {
            let i = choose|i: int| 0 <= i < inner.len() && #[trigger] inner[i].eval(row) == Value::Bool(false);
        }
        if all_are(inner, row, Value::Bool(false)) && any_is(inner, row, Value::Bool(true)) {
            let i = choose|i: int| 0 <= i < inner.len() && #[trigger] inner[i].eval(row) == Value::Bool(true);
        }
    } else {
        assert(part =~= seq![arg]);
        assert(part[0].eval(row) == arg.eval(row));
        let t = Value::Bool(true);
        let f = Value::Bool(false);
        if any_is(part, row, t) {
            let i = choose|i: int| 0 <= i < part.len() && #[trigger] part[i].eval(row) == t;
        }
        if any_is(part, row, f) {
            let i = choose|i: int| 0 <= i < part.len() && #[trigger] part[i].eval(row) == f;
        }
    }
}

/// Merging nested calls keeps what decides the value of a call.
pub proof fn lemma_flatten_args(func: VariadicFunc, args: Seq<Expr>, row: Seq<Value>)
    requires
        func.is_associative(),
    ensures
        func == VariadicFunc::And ==> {
            &&& any_is(flatten_args(func, args), row, Value::Bool(false)) <==> any_is(
                args,
                row,
                Value::Bool(false),
            )
            &&& all_are(flatten_args(func, args), row, Value::Bool(true)) <==> all_are(
                args,
                row,
                Value::Bool(true),
            )
        },
        func == VariadicFunc::Or ==> {
            &&& any_is(flatten_args(func, args), row, Value::Bool(true)) <==> any_is(
                args,
                row,
                Value::Bool(true),
            )
            &&& all_are(flatten_args(func, args), row, Value::Bool(false)) <==> all_are(
                args,
                row,
                Value::Bool(false),
            )
        },
    decreases args.len(),
{
    let t = Value::Bool(true);
    let f = Value::Bool(false);
    if args.len() == 0 {
        let flat = flatten_args(func, args);
        assert(flat.len() == 0);
    } else {
        let head = flatten_args(func, args.drop_last());
        let part = merged_part(func, args.last());
        lemma_flatten_args(func, args.drop_last(), row);
        lemma_merged_part(func, args.last(), row);
        lemma_quantify_concat(head, part, row, t);
        lemma_quantify_concat(head, part, row, f);
        lemma_quantify_last(args, row, t);
        lemma_quantify_last(args, row, f);
    }
}

/// Merging the nested calls of a call keeps the value of the call.
pub proof fn lemma_flatten_associative_eval(e: Expr, row: Seq<Value>)
    ensures
        e.flatten_associative().eval(row) == e.eval(row),
{
    match e {
        Expr::CallVariadic(func, args) => {
            if func.is_associative() {
                lemma_flatten_args(func, args, row);
                lemma_eval_and(args, row);
                lemma_eval_and(flatten_args(func, args), row);
                lemma_eval_or(args, row);
                lemma_eval_or(flatten_args(func, args), row);
            }
        },
        _ => {},
    }
}

/// Merging nested calls throughout an expression keeps its value.
pub proof fn lemma_flatten_eval(e: Expr, row: Seq<Value>)
    ensures
        e.flatten().eval(row) == e.eval(row),
    decreases e,
{
    match e {
        Expr::Column(_) => {},
        Expr::Literal(_) => {},
        Expr::CallUnary(_, a) => {
            lemma_flatten_eval(*a, row);
        },
        Expr::CallBinary(_, a, b) => {
            lemma_flatten_eval(*a, row);
            lemma_flatten_eval(*b, row);
        },
        Expr::CallVariadic(func, args) => {
            let mid = flatten_all(args);
            assert forall|i: int| 0 <= i < args.len() implies mid[i].eval(row) == args[i].eval(
                row,
            ) by {
                lemma_flatten_eval(args[i], row);
            }
            lemma_eval_congruent(func, mid, args, row);
            lemma_flatten_associative_eval(Expr::CallVariadic(func, mid), row);
        },
    }
}

/// Distributing a conjunction over one of its disjunctions keeps its value.
pub proof fn lemma_distribute_step_eval(e: Expr, row: Seq<Value>)
    ensures
        e.distribute_step().eval(row) == e.eval(row),
{
    let t = Value::Bool(true);
    let f = Value::Bool(false);
    match e {
        Expr::CallVariadic(VariadicFunc::And, args) => {
            lemma_first_or(args);
            let i = first_or(args);
            if i < args.len() {
                let or_args = args[i]->CallVariadic_1;
                let rest = Expr::CallVariadic(VariadicFunc::And, swap_remove(args, i));
                let branches = distributed(or_args, rest);
                assert(args[i] == Expr::CallVariadic(VariadicFunc::Or, or_args));
                lemma_eval_and(args, row);
                lemma_eval_and(swap_remove(args, i), row);
                lemma_eval_or(or_args, row);
                lemma_eval_or(branches, row);
                lemma_quantify_swap_remove(args, i, row, t);
                lemma_quantify_swap_remove(args, i, row, f);
                assert forall|j: int| 0 <= j < or_args.len() implies {
                    &&& #[trigger] branches[j].eval(row) == t <==> (or_args[j].eval(row) == t
                        && rest.eval(row) == t)
                    &&& branches[j].eval(row) == f <==> (or_args[j].eval(row) == f || rest.eval(
                        row,
                    ) == f)
                } by {
                    let pair = seq![or_args[j], rest];
                    lemma_eval_and(pair, row);
                    assert(pair[0].eval(row) == or_args[j].eval(row));
                    assert(pair[1].eval(row) == rest.eval(row));
                    if any_is(pair, row, f) {
                        let k = choose|k: int| 0 <= k < pair.len() && #[trigger] pair[k].eval(row) == f;
                    }
                }
                // the value is true exactly when the conjunction's is
                if any_is(branches, row, t) {
                    let j = choose|j: int| 0 <= j < branches.len() && #[trigger] branches[j].eval(row) == t;
                    assert(or_args[j].eval(row) == t);
                }
                if any_is(or_args, row, t) && rest.eval(row) == t {
                    let j = choose|j: int| 0 <= j < or_args.len() && #[trigger] or_args[j].eval(row) == t;
                    assert(branches[j].eval(row) == t);
                }
                // the value is false exactly when the conjunction's is
                if all_are(branches, row, f) && rest.eval(row) != f {
                    assert forall|j: int| 0 <= j < or_args.len() implies #[trigger] or_args[j].eval(
                        row,
                    ) == f by {
                        assert(branches[j].eval(row) == f);
                    }
                }
                if all_are(or_args, row, f) || rest.eval(row) == f {
                    assert forall|j: int| 0 <= j < branches.len() implies #[trigger] branches[j].eval(
                        row,
                    ) == f by {
                        if rest.eval(row) != f {
                            assert(or_args[j].eval(row) == f);
                        }
                    }
                }
                if all_are(branches, row, f) && any_is(branches, row, t) {
                    let j = choose|j: int| 0 <= j < branches.len() && #[trigger] branches[j].eval(row) == t;
                }
                if all_are(or_args, row, f) && any_is(or_args, row, t) {
                    let j = choose|j: int| 0 <= j < or_args.len() && #[trigger] or_args[j].eval(row) == t;
                }
            }
        },
        _ => {},
    }
}

/// Distributing `And` over `Or` throughout an expression keeps its value.
pub proof fn lemma_distribute_eval(e: Expr, row: Seq<Value>)
    ensures
        e.distribute().eval(row) == e.eval(row),
    decreases e,
{
    match e {
        Expr::Column(_) => {},
        Expr::Literal(_) => {},
        Expr::CallUnary(_, a) => {
            lemma_distribute_eval(*a, row);
        },
        Expr::CallBinary(_, a, b) => {
            lemma_distribute_eval(*a, row);
            lemma_distribute_eval(*b, row);
        },
        Expr::CallVariadic(func, args) => {
            let mid = distribute_all(args);
            assert forall|i: int| 0 <= i < args.len() implies mid[i].eval(row) == args[i].eval(
                row,
            ) by {
                lemma_distribute_eval(args[i], row);
            }
            lemma_eval_congruent(func, mid, args, row);
            lemma_distribute_step_eval(Expr::CallVariadic(func, mid), row);
        },
    }
}

/// Whether every expression of the sequence reads only columns below `n`.
pub open spec fn all_read_below(args: Seq<Expr>, n: nat) -> bool {
    forall|i: int| 0 <= i < args.len() ==> (#[trigger] args[i]).reads_below(n)
}

/// Merging nested calls of a call reads no new column.
pub proof fn lemma_flatten_args_read(func: VariadicFunc, args: Seq<Expr>, n: nat)
    requires
        all_read_below(args, n),
    ensures
        all_read_below(flatten_args(func, args), n),
    decreases args.len(),
{
    if args.len() > 0 {
        let rest = args.drop_last();
        let head = flatten_args(func, rest);
        let part = merged_part(func, args.last());
        let out = flatten_args(func, args);
        assert forall|i: int| 0 <= i < rest.len() implies (#[trigger] rest[i]).reads_below(n) by {
            assert(args[i].reads_below(n));
        }
        lemma_flatten_args_read(func, rest, n);
        assert(args[args.len() - 1].reads_below(n));
        assert forall|i: int| 0 <= i < out.len() implies (#[trigger] out[i]).reads_below(n) by {
            if i < head.len() {
                assert(head[i].reads_below(n));
            } else {
                assert(part[i - head.len()].reads_below(n));
            }
        }
    }
}

/// Merging nested calls throughout an expression reads no new column.
pub proof fn lemma_flatten_reads(e: Expr, n: nat)
    requires
        e.reads_below(n),
    ensures
        e.flatten().reads_below(n),
    decreases e,
{
    match e {
        Expr::Column(_) => {},
        Expr::Literal(_) => {},
        Expr::CallUnary(_, a) => {
            lemma_flatten_reads(*a, n);
        },
        Expr::CallBinary(_, a, b) => {
            lemma_flatten_reads(*a, n);
            lemma_flatten_reads(*b, n);
        },
        Expr::CallVariadic(func, args) => {
            let mid = flatten_all(args);
            assert forall|i: int| 0 <= i < mid.len() implies (#[trigger] mid[i]).reads_below(n) by {
                assert(args[i].reads_below(n));
                lemma_flatten_reads(args[i], n);
            }
            if func.is_associative() {
                lemma_flatten_args_read(func, mid, n);
            }
        },
    }
}

/// Distributing a conjunction over one of its disjunctions reads no new
/// column.
pub proof fn lemma_distribute_step_reads(e: Expr, n: nat)
    requires
        e.reads_below(n),
    ensures
        e.distribute_step().reads_below(n),
{
    match e {
        Expr::CallVariadic(VariadicFunc::And, args) => {
            lemma_first_or(args);
            let i = first_or(args);
            if i < args.len() {
                let or_args = args[i]->CallVariadic_1;
                let others = swap_remove(args, i);
                let rest = Expr::CallVariadic(VariadicFunc::And, others);
                let branches = distributed(or_args, rest);
                assert(args[i].reads_below(n));
                assert forall|k: int| 0 <= k < others.len() implies (
                #[trigger] others[k]).reads_below(n) by {
                    if k == i {
                        assert(args[args.len() - 1].reads_below(n));
                    } else {
                        assert(args[k].reads_below(n));
                    }
                }
                assert(rest.reads_below(n));
                assert forall|j: int| 0 <= j < branches.len() implies (
                #[trigger] branches[j]).reads_below(n) by {
                    let pair = seq![or_args[j], rest];
                    assert(or_args[j].reads_below(n));
                    assert forall|k: int| 0 <= k < pair.len() implies (
                    #[trigger] pair[k]).reads_below(n) by {}
                }
            }
        },
        _ => {},
    }
}

/// Distributing `And` over `Or` throughout an expression reads no new
/// column.
pub proof fn lemma_distribute_reads(e: Expr, n: nat)
    requires
        e.reads_below(n),
    ensures
        e.distribute().reads_below(n),
    decreases e,
{
    match e {
        Expr::Column(_) => {},
        Expr::Literal(_) => {},
        Expr::CallUnary(_, a) => {
            lemma_distribute_reads(*a, n);
        },
        Expr::CallBinary(_, a, b) => {
            lemma_distribute_reads(*a, n);
            lemma_distribute_reads(*b, n);
        },
        Expr::CallVariadic(func, args) => {
            let mid = distribute_all(args);
            assert forall|i: int| 0 <= i < mid.len() implies (#[trigger] mid[i]).reads_below(n) by {
                assert(args[i].reads_below(n));
                lemma_distribute_reads(args[i], n);
            }
            lemma_distribute_step_reads(Expr::CallVariadic(func, mid), n);
        },
    }
}

} // verus!

//! Bringing predicates back from the form that the search for literal
//! constraints needs into a plain list of conjuncts.

use crate::contradiction_sound::{lemma_conjuncts_hold, lemma_parts_read};
use crate::literal_constraints::LiteralConstraints;
use crate::mfp::{all_hold, MapFilterProject, Mfp};
use crate::normalize::{flatten_args, flatten_arguments};
use crate::normalize_sound::{
    all_are, all_read_below, any_is, lemma_and_holds, lemma_eval_and, lemma_eval_or,
    lemma_flatten_args, lemma_flatten_args_read, lemma_or_holds,
};
use crate::scalar::{
    clamp, clamped_add, exprs_view, lemma_exprs_view_push, lemma_sum_push, lemma_view_variadic,
    sizes, sum, total_size, Expr, RecursionLimitError, ScalarExpr, VariadicFunc, RECURSION_LIMIT,
};
use crate::value::Value;
use vstd::prelude::*;

verus! {

impl Expr {
    /// The expression with, along its top-level calls of `And` and `Or`,
    /// nested calls of the same function merged and each call with one
    /// argument replaced by that argument.
    pub open spec fn simplified(self) -> Expr
        decreases self,
    {
        match self {
            Expr::CallVariadic(func, args) => if func.is_associative() {
                let flat = flatten_args(func, simplified_all(args));
                if flat.len() == 1 {
                    flat[0]
                } else {
                    Expr::CallVariadic(func, flat)
                }
            } else {
                self
            },
            _ => self,
        }
    }
}

/// Each expression of the sequence, simplified.
pub open spec fn simplified_all(args: Seq<Expr>) -> Seq<Expr>
    decreases args,
{
    Seq::new(
        args.len(),
        |i: int|
            if 0 <= i < args.len() {
                args[i].simplified()
            } else {
                Expr::Literal(Value::Null)
            },
    )
}

/// The conjuncts of the simplified predicates, one list after the other.
pub open spec fn canonical_predicates(predicates: Seq<Expr>) -> Seq<Expr>
    decreases predicates.len(),
{
    if predicates.len() == 0 {
        Seq::empty()
    } else {
        canonical_predicates(predicates.drop_last()) + predicates.last().simplified().and_or_args(
            VariadicFunc::And,
        )
    }
}

/// Whether one of the expressions is nested more deeply than
/// `RECURSION_LIMIT` levels.
pub open spec fn some_too_deep(exprs: Seq<Expr>) -> bool {
    exists|i: int| 0 <= i < exprs.len() && (#[trigger] exprs[i]).depth() > RECURSION_LIMIT
}

impl Mfp {
    /// The operator with its predicates as a plain list of conjuncts.
    pub open spec fn with_canonical_predicates(self) -> Mfp {
        Mfp { predicates: canonical_predicates(self.predicates), ..self }
    }
}

impl ScalarExpr {
    /// The expression with, along its top-level calls of `And` and `Or`,
    /// nested calls of the same function merged and each call with one
    /// argument replaced by that argument.
    #[verifier::loop_isolation(false)]
    pub fn simplified(&self) -> (r: ScalarExpr)
        ensures
            r@ == self@.simplified(),
        decreases self,
    {
        match self {
            ScalarExpr::CallVariadic { func, exprs } => {
                proof {
                    lemma_view_variadic(*func, *exprs);
                }
                if !func.associative() {
                    return self.clone();
                }
                let mut args: Vec<ScalarExpr> = Vec::new();
                let mut i: usize = 0;
                while i < exprs.len()
                    invariant
                        i <= exprs.len(),
                        args.len() == i,
                        forall|j: int| 0 <= j < i ==> args@[j]@ == exprs@[j]@.simplified(),
                    decreases exprs.len() - i,
                {
                    args.push(exprs[i].simplified());
                    i += 1;
                }
                assert(exprs_view(args@) =~= simplified_all(exprs_view(exprs@)));
                let flat = flatten_arguments(*func, &args);
                if flat.len() == 1 {
                    flat[0].clone()
                } else {
                    ScalarExpr::call_variadic(*func, flat)
                }
            },
            _ => self.clone(),
        }
    }
}

impl LiteralConstraints {
    /// Replaces the predicates by the conjuncts of their simplified forms:
    /// this undoes the wrapping of the predicates in one `And`, and of each
    /// branch in an `And` of its own.
    pub fn canonicalize_predicates(mfp: &mut MapFilterProject)
        ensures
            final(mfp)@ == old(mfp)@.with_canonical_predicates(),
            forall|row: Seq<Value>|
                #[trigger] all_hold(final(mfp)@.predicates, row) == all_hold(
                    old(mfp)@.predicates,
                    row,
                ),
    {
        proof {
            assert forall|row: Seq<Value>|
                #[trigger] all_hold(canonical_predicates(mfp@.predicates), row) == all_hold(
                    mfp@.predicates,
                    row,
                ) by {
                lemma_canonical_predicates(mfp@.predicates, row, 0);
            }
        }
        let ghost before = mfp@.predicates;
        let mut predicates: Vec<ScalarExpr> = Vec::new();
        let mut i: usize = 0;
        assert(before.take(0) =~= Seq::<Expr>::empty());
        assert(exprs_view(predicates@) =~= Seq::<Expr>::empty());
        while i < mfp.predicates.len()
            invariant
                i <= mfp.predicates.len(),
                *mfp == *old(mfp),
                before == mfp@.predicates,
                exprs_view(predicates@) == canonical_predicates(before.take(i as int)),
            decreases mfp.predicates.len() - i,
        {
            let ghost head = exprs_view(predicates@);
            let conjuncts = mfp.predicates[i].simplified().and_or_args(VariadicFunc::And);
            let mut j: usize = 0;
            assert(exprs_view(predicates@) =~= head + exprs_view(conjuncts@).take(0));
            while j < conjuncts.len()
                invariant
                    j <= conjuncts.len(),
                    exprs_view(predicates@) == head + exprs_view(conjuncts@).take(j as int),
                decreases conjuncts.len() - j,
            {
                let ghost prev = predicates@;
                let copy = conjuncts[j].clone();
                predicates.push(copy);
                proof {
                    lemma_exprs_view_push(prev, copy);
                    assert(exprs_view(conjuncts@).take(j as int + 1) =~= exprs_view(
                        conjuncts@,
                    ).take(j as int).push(conjuncts@[j as int]@));
                    assert(exprs_view(predicates@) =~= head + exprs_view(conjuncts@).take(
                        j as int + 1,
                    ));
                }
                j += 1;
            }
            proof {
                assert(exprs_view(conjuncts@).take(conjuncts.len() as int) =~= exprs_view(
                    conjuncts@,
                ));
                assert(before.take(i as int + 1).drop_last() =~= before.take(i as int));
                assert(before.take(i as int + 1).last() == before[i as int]);
            }
            i += 1;
        }
        assert(before.take(mfp.predicates.len() as int) =~= before);
        mfp.predicates = predicates;
    }

    /// The number of nodes of all predicates together, as far as a machine
    /// integer can count; an error if a predicate is nested too deeply.
    pub fn predicates_size(mfp: &MapFilterProject) -> (r: Result<usize, RecursionLimitError>)
        ensures
            match r {
                Ok(n) => !some_too_deep(mfp@.predicates) && n == clamp(
                    total_size(mfp@.predicates),
                ),
                Err(e) => some_too_deep(mfp@.predicates) && e.limit == RECURSION_LIMIT,
            },
    {
        let ghost all = mfp@.predicates;
        let mut total: usize = 0;
        let mut i: usize = 0;
        while i < mfp.predicates.len()
            invariant
                i <= mfp.predicates.len(),
                all == mfp@.predicates,
                total == clamp(sum(sizes(all).take(i as int))),
                forall|j: int| 0 <= j < i ==> (#[trigger] all[j]).depth() <= RECURSION_LIMIT,
            decreases mfp.predicates.len() - i,
        {
            match mfp.predicates[i].size() {
                Ok(n) => {
                    proof {
                        assert(sizes(all).take(i as int + 1) =~= sizes(all).take(i as int).push(
                            all[i as int].size(),
                        ));
                        lemma_sum_push(sizes(all).take(i as int), all[i as int].size());
                    }
                    total = clamped_add(total, n);
                },
                Err(e) => {
                    assert(all[i as int].depth() > RECURSION_LIMIT);
                    return Err(e);
                },
            }
            i += 1;
        }
        assert(sizes(all).take(mfp.predicates.len() as int) =~= sizes(all));
        Ok(total)
    }
}

// ---------------------------------------------------------------------------
// What the simplification keeps
// ---------------------------------------------------------------------------
/// A simplified expression holds on the rows on which the expression holds.
pub proof fn lemma_simplified_holds(e: Expr, row: Seq<Value>)
    ensures
        e.simplified().holds(row) == e.holds(row),
    decreases e,
{
    let t = Value::Bool(true);
    match e {
        Expr::CallVariadic(func, args) => {
            if func.is_associative() {
                let mid = simplified_all(args);
                let flat = flatten_args(func, mid);
                assert forall|i: int| 0 <= i < args.len() implies mid[i].holds(row)
                    == args[i].holds(row) by {
                    lemma_simplified_holds(args[i], row);
                }
                lemma_flatten_args(func, mid, row);
                lemma_and_holds(args, row);
                lemma_or_holds(args, row);
                lemma_eval_and(flat, row);
                lemma_eval_or(flat, row);
                lemma_eval_and(mid, row);
                lemma_eval_or(mid, row);
                // what decides the call is the same before and after
                if all_are(mid, row, t) {
                    assert forall|i: int| 0 <= i < args.len() implies (#[trigger] args[i]).holds(
                        row,
                    ) by {
                        assert(mid[i].eval(row) == t);
                    }
                }
                if forall|i: int| 0 <= i < args.len() ==> (#[trigger] args[i]).holds(row) {
                    assert forall|i: int| 0 <= i < mid.len() implies #[trigger] mid[i].eval(row)
                        == t by {
                        assert(args[i].holds(row));
                    }
                }
                if any_is(mid, row, t) {
                    let i = choose|i: int| 0 <= i < mid.len() && #[trigger] mid[i].eval(row) == t;
                    assert(args[i].holds(row));
                }
                if exists|i: int| 0 <= i < args.len() && (#[trigger] args[i]).holds(row) {
                    let i = choose|i: int| 0 <= i < args.len() && (#[trigger] args[i]).holds(row);
                    assert(mid[i].eval(row) == t);
                }
                if flat.len() == 1 {
                    if any_is(flat, row, t) {
                        let i = choose|i: int| 0 <= i < flat.len() && #[trigger] flat[i].eval(row) == t;
                    }
                    if flat[0].eval(row) == t {
                        assert(flat[0].eval(row) == t);
                        assert(any_is(flat, row, t));
                        assert forall|i: int| 0 <= i < flat.len() implies #[trigger] flat[i].eval(
                            row,
                        ) == t by {}
                    }
                    if all_are(flat, row, t) {
                        assert(flat[0].eval(row) == t);
                    }
                }
            }
        },
        _ => {},
    }
}

/// A simplified expression reads no column that the expression does not
/// read.
pub proof fn lemma_simplified_reads(e: Expr, n: nat)
    requires
        e.reads_below(n),
    ensures
        e.simplified().reads_below(n),
    decreases e,
{
    match e {
        Expr::CallVariadic(func, args) => {
            if func.is_associative() {
                let mid = simplified_all(args);
                let flat = flatten_args(func, mid);
                assert forall|i: int| 0 <= i < mid.len() implies (#[trigger] mid[i]).reads_below(
                    n,
                ) by {
                    assert(args[i].reads_below(n));
                    lemma_simplified_reads(args[i], n);
                }
                lemma_flatten_args_read(func, mid, n);
                if flat.len() == 1 {
                    assert(flat[0].reads_below(n));
                }
            }
        },
        _ => {},
    }
}

/// The canonical predicates hold on the rows on which the predicates hold,
/// and read no column that the predicates do not read.
pub proof fn lemma_canonical_predicates(predicates: Seq<Expr>, row: Seq<Value>, n: nat)
    ensures
        all_hold(canonical_predicates(predicates), row) == all_hold(predicates, row),
        all_read_below(predicates, n) ==> all_read_below(canonical_predicates(predicates), n),
    decreases predicates.len(),
{
    if predicates.len() > 0 {
        let rest = predicates.drop_last();
        let last = predicates.last();
        let head = canonical_predicates(rest);
        let part = last.simplified().and_or_args(VariadicFunc::And);
        let out = canonical_predicates(predicates);
        let m = predicates.len() - 1;
        lemma_canonical_predicates(rest, row, n);
        lemma_simplified_holds(last, row);
        lemma_conjuncts_hold(last.simplified(), row);
        if all_hold(out, row) {
            assert forall|i: int| 0 <= i < head.len() implies (#[trigger] head[i]).holds(row) by {
                assert(out[i].holds(row));
            }
            assert forall|i: int| 0 <= i < part.len() implies (#[trigger] part[i]).holds(row) by {
                assert(out[head.len() + i].holds(row));
            }
            assert forall|i: int| 0 <= i < predicates.len() implies (
            #[trigger] predicates[i]).holds(row) by {
                if i < m {
                    assert(rest[i].holds(row));
                }
            }
        }
        if all_hold(predicates, row) {
            assert forall|i: int| 0 <= i < rest.len() implies (#[trigger] rest[i]).holds(row) by {
                assert(predicates[i].holds(row));
            }
            assert(predicates[m].holds(row));
            assert forall|i: int| 0 <= i < out.len() implies (#[trigger] out[i]).holds(row) by {
                if i < head.len() {
                    assert(head[i].holds(row));
                } else {
                    assert(part[i - head.len()].holds(row));
                }
            }
        }
        if all_read_below(predicates, n) {
            assert forall|i: int| 0 <= i < rest.len() implies (#[trigger] rest[i]).reads_below(
                n,
            ) by {
                assert(predicates[i].reads_below(n));
            }
            assert(predicates[m].reads_below(n));
            lemma_simplified_reads(last, n);
            lemma_parts_read(VariadicFunc::And, last.simplified(), n);
            assert forall|i: int| 0 <= i < out.len() implies (#[trigger] out[i]).reads_below(n) by {
                if i < head.len() {
                    assert(head[i].reads_below(n));
                } else {
                    assert(part[i - head.len()].reads_below(n));
                }
            }
        }
    }
}

} // verus!

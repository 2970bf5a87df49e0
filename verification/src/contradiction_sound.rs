//! Proofs that removing impossible branches and duplicate conjuncts keeps
//! the rows that a predicate accepts.

use crate::contradiction::{
    cleaned_branches, conjuncts_survive, constrained_exprs, dedup_by_key, dedup_key, dedup_keys,
    has_impossible,
};
use crate::literal::{
    lemma_distinct_constraints_contradict, lemma_impossible_never_holds,
    lemma_invert_casts_equivalent,
};
use crate::mfp::{all_hold, Mfp};
use crate::normalize_sound::{lemma_and_holds, lemma_or_holds};
use crate::scalar::{Expr, VariadicFunc};
use crate::value::Value;
use vstd::prelude::*;

verus! {

/// Whether one of the expressions holds on the row.
pub open spec fn some_holds(branches: Seq<Expr>, row: Seq<Value>) -> bool {
    exists|i: int| 0 <= i < branches.len() && (#[trigger] branches[i]).holds(row)
}

/// An expression holds exactly when all its conjuncts hold.
pub proof fn lemma_conjuncts_hold(e: Expr, row: Seq<Value>)
    ensures
        e.holds(row) <==> all_hold(e.and_or_args(VariadicFunc::And), row),
{
    let conjuncts = e.and_or_args(VariadicFunc::And);
    if e matches Expr::CallVariadic(VariadicFunc::And, _) {
        lemma_and_holds(e->CallVariadic_1, row);
    } else {
        assert(conjuncts =~= seq![e]);
        assert(conjuncts[0] == e);
    }
}

/// An expression holds exactly when one of its disjuncts holds.
pub proof fn lemma_disjuncts_hold(e: Expr, row: Seq<Value>)
    ensures
        e.holds(row) <==> some_holds(e.and_or_args(VariadicFunc::Or), row),
{
    let branches = e.and_or_args(VariadicFunc::Or);
    if e matches Expr::CallVariadic(VariadicFunc::Or, _) {
        lemma_or_holds(e->CallVariadic_1, row);
    } else {
        assert(branches =~= seq![e]);
        assert(branches[0] == e);
        if some_holds(branches, row) {
            let i = choose|i: int| 0 <= i < branches.len() && (#[trigger] branches[i]).holds(row);
        }
    }
}

/// Every conjunct that is kept is one of the conjuncts; every conjunct
/// counts as the same as one that is kept; and no two that are kept count as
/// the same.
pub proof fn lemma_dedup_by_key(conjuncts: Seq<Expr>)
    ensures
        forall|k: int|
            0 <= k < dedup_by_key(conjuncts).len() ==> conjuncts.contains(
                #[trigger] dedup_by_key(conjuncts)[k],
            ),
        forall|i: int|
            0 <= i < conjuncts.len() ==> dedup_keys(dedup_by_key(conjuncts)).contains(
                dedup_key(#[trigger] conjuncts[i]),
            ),
        forall|a: int, b: int|
            0 <= a < b < dedup_by_key(conjuncts).len() ==> dedup_key(
                #[trigger] dedup_by_key(conjuncts)[a],
            ) != dedup_key(#[trigger] dedup_by_key(conjuncts)[b]),
    decreases conjuncts.len(),
{
    if conjuncts.len() > 0 {
        let rest = conjuncts.drop_last();
        let last = conjuncts.last();
        let kept = dedup_by_key(rest);
        let out = dedup_by_key(conjuncts);
        lemma_dedup_by_key(rest);
        assert forall|k: int| 0 <= k < out.len() implies conjuncts.contains(#[trigger] out[k]) by {
            if k < kept.len() {
                let i = choose|i: int| 0 <= i < rest.len() && rest[i] == kept[k];
                assert(conjuncts[i] == out[k]);
            } else {
                assert(conjuncts[conjuncts.len() - 1] == out[k]);
            }
        }
        assert forall|i: int| 0 <= i < conjuncts.len() implies dedup_keys(out).contains(
            dedup_key(#[trigger] conjuncts[i]),
        ) by {
            let key = dedup_key(conjuncts[i]);
            if i < rest.len() {
                assert(rest[i] == conjuncts[i]);
                let k = choose|k: int| 0 <= k < dedup_keys(kept).len() && dedup_keys(kept)[k] == key;
                assert(dedup_keys(out)[k] == key);
            } else if dedup_keys(kept).contains(key) {
                let k = choose|k: int| 0 <= k < dedup_keys(kept).len() && dedup_keys(kept)[k] == key;
                assert(dedup_keys(out)[k] == key);
            } else {
                assert(dedup_keys(out)[kept.len() as int] == key);
            }
        }
        assert forall|a: int, b: int| 0 <= a < b < out.len() implies dedup_key(#[trigger] out[a])
            != dedup_key(#[trigger] out[b]) by {
            if b == kept.len() {
                assert(dedup_keys(kept)[a] == dedup_key(kept[a]));
            }
        }
    }
}

/// Dropping the duplicate conjuncts keeps the rows on which all conjuncts
/// hold.
pub proof fn lemma_dedup_equivalent(conjuncts: Seq<Expr>, row: Seq<Value>)
    ensures
        all_hold(dedup_by_key(conjuncts), row) == all_hold(conjuncts, row),
{
    let kept = dedup_by_key(conjuncts);
    lemma_dedup_by_key(conjuncts);
    if all_hold(conjuncts, row) {
        assert forall|k: int| 0 <= k < kept.len() implies (#[trigger] kept[k]).holds(row) by {
            let i = choose|i: int| 0 <= i < conjuncts.len() && conjuncts[i] == kept[k];
            assert(conjuncts[i].holds(row));
        }
    }
    if all_hold(kept, row) {
        assert forall|i: int| 0 <= i < conjuncts.len() implies (#[trigger] conjuncts[i]).holds(
            row,
        ) by {
            let key = dedup_key(conjuncts[i]);
            let k = choose|k: int| 0 <= k < dedup_keys(kept).len() && dedup_keys(kept)[k] == key;
            assert(kept[k].holds(row));
            lemma_invert_casts_equivalent(kept[k], row);
            lemma_invert_casts_equivalent(conjuncts[i], row);
        }
    }
}

/// Whether one of the conjuncts equates `e` with a literal.
pub open spec fn constrains(conjuncts: Seq<Expr>, e: Expr) -> bool {
    exists|i: int|
        0 <= i < conjuncts.len() && (#[trigger] conjuncts[i]).any_expr_eq_literal() == Some(e)
}

/// Each constrained expression comes from a conjunct; and if one occurs
/// twice, two different conjuncts constrain the same expression.
pub proof fn lemma_constrained_exprs(conjuncts: Seq<Expr>)
    ensures
        forall|k: int|
            0 <= k < constrained_exprs(conjuncts).len() ==> constrains(
                conjuncts,
                #[trigger] constrained_exprs(conjuncts)[k],
            ),
        !constrained_exprs(conjuncts).no_duplicates() ==> exists|i: int, j: int|
            0 <= i < j < conjuncts.len() && (#[trigger] conjuncts[i]).any_expr_eq_literal().is_some()
                && conjuncts[i].any_expr_eq_literal() == (
            #[trigger] conjuncts[j]).any_expr_eq_literal(),
    decreases conjuncts.len(),
{
    if conjuncts.len() > 0 {
        let rest = conjuncts.drop_last();
        let last = conjuncts.last();
        let head = constrained_exprs(rest);
        let out = constrained_exprs(conjuncts);
        let n = conjuncts.len() - 1;
        lemma_constrained_exprs(rest);
        assert forall|k: int| 0 <= k < out.len() implies constrains(
            conjuncts,
            #[trigger] out[k],
        ) by {
            if k < head.len() {
                assert(constrains(rest, head[k]));
                let i = choose|i: int|
                    0 <= i < rest.len() && (#[trigger] rest[i]).any_expr_eq_literal() == Some(
                        head[k],
                    );
                assert(conjuncts[i].any_expr_eq_literal() == Some(out[k]));
            } else {
                assert(conjuncts[n].any_expr_eq_literal() == Some(out[k]));
            }
        }
        if !out.no_duplicates() {
            let (a, b) = choose|a: int, b: int|
                0 <= a < out.len() && 0 <= b < out.len() && a != b && out[a] == out[b];
            let lo = if a < b {
                a
            } else {
                b
            };
            let hi = if a < b {
                b
            } else {
                a
            };
            if hi < head.len() {
                assert(head[lo] == head[hi]);
                assert(!head.no_duplicates());
                let (i, j) = choose|i: int, j: int|
                    0 <= i < j < rest.len() && (#[trigger] rest[i]).any_expr_eq_literal().is_some()
                        && rest[i].any_expr_eq_literal() == (
                    #[trigger] rest[j]).any_expr_eq_literal();
                assert(conjuncts[i].any_expr_eq_literal() == conjuncts[j].any_expr_eq_literal());
            } else {
                assert(constrains(rest, head[lo]));
                let i = choose|i: int|
                    0 <= i < rest.len() && (#[trigger] rest[i]).any_expr_eq_literal() == Some(
                        head[lo],
                    );
                assert(conjuncts[i].any_expr_eq_literal() == conjuncts[n].any_expr_eq_literal());
            }
        }
    }
}

/// The conjuncts of a branch that does not survive never hold together.
pub proof fn lemma_doomed_conjuncts(conjuncts: Seq<Expr>, row: Seq<Value>)
    requires
        !conjuncts_survive(conjuncts),
    ensures
        !all_hold(conjuncts, row),
{
    if has_impossible(conjuncts) {
        let i = choose|i: int|
            0 <= i < conjuncts.len() && (
            #[trigger] conjuncts[i]).impossible_literal_equality_because_types();
        lemma_impossible_never_holds(conjuncts[i], row);
    } else {
        let kept = dedup_by_key(conjuncts);
        lemma_dedup_by_key(conjuncts);
        lemma_dedup_equivalent(conjuncts, row);
        lemma_constrained_exprs(kept);
        let (i, j) = choose|i: int, j: int|
            0 <= i < j < kept.len() && (#[trigger] kept[i]).any_expr_eq_literal().is_some()
                && kept[i].any_expr_eq_literal() == (#[trigger] kept[j]).any_expr_eq_literal();
        lemma_distinct_constraints_contradict(kept[i], kept[j], row);
    }
}

/// One of the branches that stay holds on a row exactly when one of the
/// given branches does.
pub proof fn lemma_cleaned_branches_equivalent(or_args: Seq<Expr>, row: Seq<Value>)
    ensures
        some_holds(cleaned_branches(or_args), row) == some_holds(or_args, row),
    decreases or_args.len(),
{
    let out = cleaned_branches(or_args);
    if or_args.len() == 0 {
    } else {
        let rest = or_args.drop_last();
        let last = or_args.last();
        let head = cleaned_branches(rest);
        let conjuncts = last.and_or_args(VariadicFunc::And);
        let n = or_args.len() - 1;
        lemma_cleaned_branches_equivalent(rest, row);
        lemma_conjuncts_hold(last, row);
        let branch = Expr::CallVariadic(VariadicFunc::And, dedup_by_key(conjuncts));
        lemma_and_holds(dedup_by_key(conjuncts), row);
        lemma_dedup_equivalent(conjuncts, row);
        if !conjuncts_survive(conjuncts) {
            lemma_doomed_conjuncts(conjuncts, row);
        }
        if some_holds(out, row) {
            let k = choose|k: int| 0 <= k < out.len() && (#[trigger] out[k]).holds(row);
            if k < head.len() {
                assert(head[k].holds(row));
                let i = choose|i: int| 0 <= i < rest.len() && (#[trigger] rest[i]).holds(row);
                assert(or_args[i].holds(row));
            } else {
                assert(or_args[n].holds(row));
            }
        }
        if some_holds(or_args, row) {
            let i = choose|i: int| 0 <= i < or_args.len() && (#[trigger] or_args[i]).holds(row);
            if i < n {
                assert(rest[i].holds(row));
                let k = choose|k: int| 0 <= k < head.len() && (#[trigger] head[k]).holds(row);
                assert(out[k].holds(row));
            } else {
                assert(out[head.len() as int].holds(row));
            }
        }
    }
}

/// The branches that stay read no column that the given branches did not
/// read.
pub proof fn lemma_cleaned_branches_read(or_args: Seq<Expr>, n: nat)
    requires
        forall|i: int| 0 <= i < or_args.len() ==> (#[trigger] or_args[i]).reads_below(n),
    ensures
        forall|k: int|
            0 <= k < cleaned_branches(or_args).len() ==> (#[trigger] cleaned_branches(
                or_args,
            )[k]).reads_below(n),
    decreases or_args.len(),
{
    if or_args.len() > 0 {
        let rest = or_args.drop_last();
        let last = or_args.last();
        let head = cleaned_branches(rest);
        let out = cleaned_branches(or_args);
        let conjuncts = last.and_or_args(VariadicFunc::And);
        assert forall|i: int| 0 <= i < rest.len() implies (#[trigger] rest[i]).reads_below(n) by {
            assert(or_args[i].reads_below(n));
        }
        lemma_cleaned_branches_read(rest, n);
        lemma_dedup_by_key(conjuncts);
        lemma_parts_read(VariadicFunc::And, last, n);
        let kept = dedup_by_key(conjuncts);
        assert forall|k: int| 0 <= k < kept.len() implies (#[trigger] kept[k]).reads_below(n) by {
            let i = choose|i: int| 0 <= i < conjuncts.len() && conjuncts[i] == kept[k];
            assert(conjuncts[i].reads_below(n));
        }
        assert forall|k: int| 0 <= k < out.len() implies (#[trigger] out[k]).reads_below(n) by {
            if k < head.len() {
                assert(head[k].reads_below(n));
            }
        }
    }
}

/// The arguments of an expression, read as a call of `func`, read no column
/// that the expression does not read.
pub proof fn lemma_parts_read(func: VariadicFunc, e: Expr, n: nat)
    requires
        e.reads_below(n),
    ensures
        forall|i: int|
            0 <= i < e.and_or_args(func).len() ==> (#[trigger] e.and_or_args(func)[i]).reads_below(
                n,
            ),
{
}

/// Removing the impossible branches of the predicate of a well-formed
/// operator gives a well-formed operator that keeps the same rows and emits
/// the same for each.
pub proof fn lemma_without_impossible_or_args(mfp: Mfp)
    requires
        mfp.predicates.len() == 1,
    ensures
        mfp.wf() ==> mfp.without_impossible_or_args().wf(),
        mfp.without_impossible_or_args().predicates.len() == 1,
        mfp.without_impossible_or_args().expressions == mfp.expressions,
        mfp.without_impossible_or_args().projection == mfp.projection,
        mfp.without_impossible_or_args().input_arity == mfp.input_arity,
        forall|row: Seq<Value>|
            all_hold(mfp.without_impossible_or_args().predicates, row) == all_hold(
                mfp.predicates,
                row,
            ),
{
    let out = mfp.without_impossible_or_args();
    let branches = mfp.or_args();
    let cleaned = cleaned_branches(branches);
    let predicate = Expr::CallVariadic(VariadicFunc::Or, cleaned);
    let n = mfp.input_arity + mfp.expressions.len();
    if mfp.wf() && cleaned != branches {
        assert(mfp.predicates[0].reads_below(n));
        lemma_parts_read(VariadicFunc::Or, mfp.predicates[0], n);
        lemma_cleaned_branches_read(branches, n);
        assert(predicate.reads_below(n));
        assert forall|i: int| 0 <= i < out.predicates.len() implies (
        #[trigger] out.predicates[i]).reads_below(n) by {}
    }
    assert forall|row: Seq<Value>| all_hold(out.predicates, row) == all_hold(
        mfp.predicates,
        row,
    ) by {
        if cleaned != branches {
            lemma_disjuncts_hold(mfp.predicates[0], row);
            lemma_cleaned_branches_equivalent(branches, row);
            lemma_or_holds(cleaned, row);
            assert(out.predicates[0] == predicate);
            assert(mfp.predicates[0].holds(row) == predicate.holds(row));
            if all_hold(out.predicates, row) {
                assert(out.predicates[0].holds(row));
            }
            if all_hold(mfp.predicates, row) {
                assert(mfp.predicates[0].holds(row));
            }
        }
    }
}

} // verus!

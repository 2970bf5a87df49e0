//! Removal of the branches of a disjunction that can never hold, and of
//! conjuncts that say the same thing twice.

use crate::literal_constraints::LiteralConstraints;
use crate::contradiction_sound::lemma_without_impossible_or_args;
use crate::mfp::{all_hold, MapFilterProject, Mfp};
use crate::scalar::{
    all_unique, contains_expr, exprs_view, lemma_exprs_view_push, Expr, ScalarExpr, VariadicFunc,
};
use crate::value::Value;
use vstd::prelude::*;

verus! {

/// The form of a conjunct under which two conjuncts count as the same.
pub open spec fn dedup_key(e: Expr) -> Expr {
    e.invert_casts_on_expr_eq_literal()
}

/// The forms, under which conjuncts are compared, of a sequence of conjuncts.
pub open spec fn dedup_keys(conjuncts: Seq<Expr>) -> Seq<Expr> {
    Seq::new(conjuncts.len(), |i: int| dedup_key(conjuncts[i]))
}

/// The conjuncts without those that count as the same as an earlier one.
pub open spec fn dedup_by_key(conjuncts: Seq<Expr>) -> Seq<Expr>
    decreases conjuncts.len(),
{
    if conjuncts.len() == 0 {
        Seq::empty()
    } else {
        let kept = dedup_by_key(conjuncts.drop_last());
        if dedup_keys(kept).contains(dedup_key(conjuncts.last())) {
            kept
        } else {
            kept.push(conjuncts.last())
        }
    }
}

/// Whether a conjunct is an equality that its types make impossible.
pub open spec fn has_impossible(conjuncts: Seq<Expr>) -> bool {
    exists|i: int|
        0 <= i < conjuncts.len() && (
        #[trigger] conjuncts[i]).impossible_literal_equality_because_types()
}

/// The expressions that the conjuncts equate with a literal, one for each
/// such conjunct, in order.
pub open spec fn constrained_exprs(conjuncts: Seq<Expr>) -> Seq<Expr>
    decreases conjuncts.len(),
{
    if conjuncts.len() == 0 {
        Seq::empty()
    } else {
        let head = constrained_exprs(conjuncts.drop_last());
        match conjuncts.last().any_expr_eq_literal() {
            Some(e) => head.push(e),
            None => head,
        }
    }
}

/// Whether a conjunction of these conjuncts stays in the disjunction: no
/// conjunct is impossible by its types, and once duplicates are gone no
/// expression is equated with two literals.
pub open spec fn conjuncts_survive(conjuncts: Seq<Expr>) -> bool {
    !has_impossible(conjuncts) && constrained_exprs(dedup_by_key(conjuncts)).no_duplicates()
}

/// The branches that stay, each without its duplicate conjuncts. Each branch
/// is read as a conjunction; one that is not a call of `And` counts as a
/// conjunction of itself alone.
pub open spec fn cleaned_branches(or_args: Seq<Expr>) -> Seq<Expr>
    decreases or_args.len(),
{
    if or_args.len() == 0 {
        Seq::empty()
    } else {
        let head = cleaned_branches(or_args.drop_last());
        let conjuncts = or_args.last().and_or_args(VariadicFunc::And);
        if conjuncts_survive(conjuncts) {
            head.push(Expr::CallVariadic(VariadicFunc::And, dedup_by_key(conjuncts)))
        } else {
            head
        }
    }
}

impl Mfp {
    /// The branches of the only predicate, read as a disjunction.
    pub open spec fn or_args(self) -> Seq<Expr>
        recommends
            self.predicates.len() == 1,
    {
        self.predicates[0].and_or_args(VariadicFunc::Or)
    }

    /// The operator with the given expression as its only predicate.
    pub open spec fn with_predicate(self, predicate: Expr) -> Mfp {
        Mfp { predicates: seq![predicate], ..self }
    }

    /// The operator after `remove_impossible_or_args`.
    pub open spec fn without_impossible_or_args(self) -> Mfp {
        if cleaned_branches(self.or_args()) == self.or_args() {
            self
        } else {
            self.with_predicate(
                Expr::CallVariadic(VariadicFunc::Or, cleaned_branches(self.or_args())),
            )
        }
    }
}

/// The conjuncts of `conjuncts` without those that count as the same as an
/// earlier one.
fn dedup_conjuncts(conjuncts: &Vec<ScalarExpr>) -> (r: Vec<ScalarExpr>)
    ensures
        exprs_view(r@) == dedup_by_key(exprs_view(conjuncts@)),
{
    let ghost all = exprs_view(conjuncts@);
    let mut kept: Vec<ScalarExpr> = Vec::new();
    let mut keys: Vec<ScalarExpr> = Vec::new();
    let mut i: usize = 0;
    assert(all.take(0) =~= Seq::<Expr>::empty());
    assert(exprs_view(keys@) =~= dedup_keys(exprs_view(kept@)));
    while i < conjuncts.len()
        invariant
            i <= conjuncts.len(),
            all == exprs_view(conjuncts@),
            exprs_view(kept@) == dedup_by_key(all.take(i as int)),
            exprs_view(keys@) == dedup_keys(exprs_view(kept@)),
        decreases conjuncts.len() - i,
    {
        let key = conjuncts[i].invert_casts_on_expr_eq_literal();
        proof {
            assert(all.take(i as int + 1).drop_last() =~= all.take(i as int));
            assert(all.take(i as int + 1).last() == all[i as int]);
        }
        if !contains_expr(&keys, &key) {
            let ghost old_kept = kept@;
            let ghost old_keys = keys@;
            let copy = conjuncts[i].clone();
            kept.push(copy);
            keys.push(key);
            proof {
                lemma_exprs_view_push(old_kept, copy);
                lemma_exprs_view_push(old_keys, key);
                assert(exprs_view(keys@) =~= dedup_keys(exprs_view(kept@)));
            }
        }
        i += 1;
    }
    assert(all.take(conjuncts.len() as int) =~= all);
    kept
}

/// Whether one of `conjuncts` is an equality that its types make impossible.
fn any_impossible(conjuncts: &Vec<ScalarExpr>) -> (r: bool)
    ensures
        r == has_impossible(exprs_view(conjuncts@)),
{
    let ghost all = exprs_view(conjuncts@);
    let mut i: usize = 0;
    while i < conjuncts.len()
        invariant
            i <= conjuncts.len(),
            all == exprs_view(conjuncts@),
            forall|j: int|
                0 <= j < i ==> !(#[trigger] all[j]).impossible_literal_equality_because_types(),
        decreases conjuncts.len() - i,
    {
        if conjuncts[i].impossible_literal_equality_because_types() {
            assert(all[i as int].impossible_literal_equality_because_types());
            return true;
        }
        i += 1;
    }
    false
}

/// The expressions that `conjuncts` equate with a literal.
fn literal_constrained_exprs(conjuncts: &Vec<ScalarExpr>) -> (r: Vec<ScalarExpr>)
    ensures
        exprs_view(r@) == constrained_exprs(exprs_view(conjuncts@)),
{
    let ghost all = exprs_view(conjuncts@);
    let mut out: Vec<ScalarExpr> = Vec::new();
    let mut i: usize = 0;
    assert(all.take(0) =~= Seq::<Expr>::empty());
    assert(exprs_view(out@) =~= Seq::<Expr>::empty());
    while i < conjuncts.len()
        invariant
            i <= conjuncts.len(),
            all == exprs_view(conjuncts@),
            exprs_view(out@) == constrained_exprs(all.take(i as int)),
        decreases conjuncts.len() - i,
    {
        proof {
            assert(all.take(i as int + 1).drop_last() =~= all.take(i as int));
            assert(all.take(i as int + 1).last() == all[i as int]);
        }
        match conjuncts[i].any_expr_eq_literal() {
            Some(e) => {
                let ghost old_out = out@;
                out.push(e);
                proof {
                    lemma_exprs_view_push(old_out, e);
                }
            },
            None => {},
        }
        i += 1;
    }
    assert(all.take(conjuncts.len() as int) =~= all);
    out
}

impl LiteralConstraints {
    /// The arguments of the predicate's top-level `Or`, or the predicate
    /// alone if it is no `Or`.
    pub fn get_or_args(mfp: &MapFilterProject) -> (r: Vec<ScalarExpr>)
        requires
            mfp@.predicates.len() == 1,
        ensures
            exprs_view(r@) == mfp@.or_args(),
    {
        mfp.predicates[0].and_or_args(VariadicFunc::Or)
    }

    /// Removes each branch of the top-level `Or` that holds a conjunct made
    /// impossible by its types, or that equates one expression with two
    /// different literals; in the branches that stay, removes each conjunct
    /// that repeats an earlier one. Returns whether it removed anything.
    pub fn remove_impossible_or_args(mfp: &mut MapFilterProject) -> (changed: bool)
        requires
            old(mfp)@.predicates.len() == 1,
        ensures
            final(mfp)@ == old(mfp)@.without_impossible_or_args(),
            changed == (cleaned_branches(old(mfp)@.or_args()) != old(mfp)@.or_args()),
            forall|row: Seq<Value>|
                #[trigger] all_hold(final(mfp)@.predicates, row) == all_hold(
                    old(mfp)@.predicates,
                    row,
                ),
    {
        proof {
            lemma_without_impossible_or_args(mfp@);
        }
        let or_args = Self::get_or_args(mfp);
        let ghost branches = exprs_view(or_args@);
        let mut cleaned: Vec<ScalarExpr> = Vec::new();
        let mut i: usize = 0;
        assert(branches.take(0) =~= Seq::<Expr>::empty());
        assert(exprs_view(cleaned@) =~= Seq::<Expr>::empty());
        while i < or_args.len()
            invariant
                i <= or_args.len(),
                branches == exprs_view(or_args@),
                exprs_view(cleaned@) == cleaned_branches(branches.take(i as int)),
            decreases or_args.len() - i,
        {
            proof {
                assert(branches.take(i as int + 1).drop_last() =~= branches.take(i as int));
                assert(branches.take(i as int + 1).last() == branches[i as int]);
            }
            let conjuncts = or_args[i].and_or_args(VariadicFunc::And);
            if !any_impossible(&conjuncts) {
                let kept = dedup_conjuncts(&conjuncts);
                let constrained = literal_constrained_exprs(&kept);
                if all_unique(&constrained) {
                    let ghost old_cleaned = cleaned@;
                    let branch = ScalarExpr::call_variadic(VariadicFunc::And, kept);
                    cleaned.push(branch);
                    proof {
                        lemma_exprs_view_push(old_cleaned, branch);
                    }
                }
            }
            i += 1;
        }
        assert(branches.take(or_args.len() as int) =~= branches);
        let changed = !crate::scalar::exprs_equal(&cleaned, &or_args);
        if changed {
            let predicate = ScalarExpr::call_variadic(VariadicFunc::Or, cleaned);
            let mut predicates: Vec<ScalarExpr> = Vec::new();
            predicates.push(predicate);
            assert(exprs_view(predicates@) =~= seq![predicate@]);
            mfp.predicates = predicates;
        }
        changed
    }
}

} // verus!

//! Taking the literal constraints that an index lookup answers out of a
//! predicate, where what is left of the branches allows it.

use crate::literal_constraints::LiteralConstraints;
use crate::detect::rows_for_key;
use crate::detect_sound::key_values;
use crate::mfp::{all_hold, MapFilterProject, Mfp};
use crate::strip_sound::lemma_without_literal_constraints;
use crate::value::Value;
use crate::scalar::{
    contains_expr, exprs_view, lemma_exprs_view_push, lists_view, Expr, ScalarExpr, VariadicFunc,
};
use vstd::prelude::*;

verus! {

/// Whether the conjunct equates a field of the key with a literal.
pub open spec fn is_constraint(conjunct: Expr, key: Seq<Expr>) -> bool {
    exists|i: int| 0 <= i < key.len() && conjunct.expr_eq_literal(#[trigger] key[i]).is_some()
}

/// Those of the conjuncts that equate a field of the key with a literal.
pub open spec fn constraints_of(conjuncts: Seq<Expr>, key: Seq<Expr>) -> Seq<Expr>
    decreases conjuncts.len(),
{
    if conjuncts.len() == 0 {
        Seq::empty()
    } else {
        let head = constraints_of(conjuncts.drop_last(), key);
        if is_constraint(conjuncts.last(), key) {
            head.push(conjuncts.last())
        } else {
            head
        }
    }
}

/// Those of the conjuncts that do not equate a field of the key with a
/// literal.
pub open spec fn residual_of(conjuncts: Seq<Expr>, key: Seq<Expr>) -> Seq<Expr>
    decreases conjuncts.len(),
{
    if conjuncts.len() == 0 {
        Seq::empty()
    } else {
        let head = residual_of(conjuncts.drop_last(), key);
        if is_constraint(conjuncts.last(), key) {
            head
        } else {
            head.push(conjuncts.last())
        }
    }
}

/// Whether the two sequences hold the same expressions, whatever their
/// order and number.
#[verifier::opaque]
pub open spec fn same_exprs(a: Seq<Expr>, b: Seq<Expr>) -> bool {
    forall|e: Expr| a.contains(e) <==> b.contains(e)
}

/// The constraints of each branch.
pub open spec fn branch_constraints(or_args: Seq<Expr>, key: Seq<Expr>) -> Seq<Seq<Expr>> {
    Seq::new(
        or_args.len(),
        |i: int| constraints_of(or_args[i].and_or_args(VariadicFunc::And), key),
    )
}

/// What is left of each branch without its constraints.
pub open spec fn branch_residuals(or_args: Seq<Expr>, key: Seq<Expr>) -> Seq<Seq<Expr>> {
    Seq::new(or_args.len(), |i: int| residual_of(or_args[i].and_or_args(VariadicFunc::And), key))
}

/// Whether some branch has the given constraints and the given residual.
#[verifier::opaque]
pub open spec fn pairing_exists(
    constraints: Seq<Seq<Expr>>,
    residuals: Seq<Seq<Expr>>,
    c: Seq<Expr>,
    r: Seq<Expr>,
) -> bool {
    exists|k: int|
        0 <= k < constraints.len() && k < residuals.len() && same_exprs(
            #[trigger] constraints[k],
            c,
        ) && same_exprs(residuals[k], r)
}

/// Whether the constraints `c` come with every residual that a branch has.
pub open spec fn paired_with_all(
    constraints: Seq<Seq<Expr>>,
    residuals: Seq<Seq<Expr>>,
    c: Seq<Expr>,
) -> bool {
    forall|j: int|
        0 <= j < residuals.len() ==> pairing_exists(
            constraints,
            residuals,
            c,
            #[trigger] residuals[j],
        )
}

/// Whether every set of constraints that a branch has comes with every
/// residual that a branch has: then the branches with one set of
/// constraints have the same residuals as those with any other.
pub open spec fn all_paired(constraints: Seq<Seq<Expr>>, residuals: Seq<Seq<Expr>>) -> bool {
    forall|i: int|
        0 <= i < constraints.len() ==> paired_with_all(
            constraints,
            residuals,
            #[trigger] constraints[i],
        )
}

/// Whether the constraints on the key can be taken out of the branches.
pub open spec fn removable(or_args: Seq<Expr>, key: Seq<Expr>) -> bool {
    or_args.len() > 0 && all_paired(branch_constraints(or_args, key), branch_residuals(or_args, key))
}

/// Whether one of the sequences holds the same expressions as `r`.
pub open spec fn has_same(residuals: Seq<Seq<Expr>>, r: Seq<Expr>) -> bool {
    exists|k: int| 0 <= k < residuals.len() && same_exprs(#[trigger] residuals[k], r)
}

/// The residuals without those that hold the same expressions as an earlier
/// one.
pub open spec fn distinct_residuals(residuals: Seq<Seq<Expr>>) -> Seq<Seq<Expr>>
    decreases residuals.len(),
{
    if residuals.len() == 0 {
        Seq::empty()
    } else {
        let head = distinct_residuals(residuals.drop_last());
        if has_same(head, residuals.last()) {
            head
        } else {
            head.push(residuals.last())
        }
    }
}

/// The conjunction of each of the lists of conjuncts.
pub open spec fn conjunctions_of(lists: Seq<Seq<Expr>>) -> Seq<Expr> {
    Seq::new(lists.len(), |i: int| Expr::CallVariadic(VariadicFunc::And, lists[i]))
}

/// The disjunction of what is left of the branches without their
/// constraints on the key.
pub open spec fn residual_predicate(or_args: Seq<Expr>, key: Seq<Expr>) -> Expr {
    Expr::CallVariadic(
        VariadicFunc::Or,
        conjunctions_of(distinct_residuals(branch_residuals(or_args, key))),
    )
}

impl Mfp {
    /// The operator after `remove_literal_constraints`.
    pub open spec fn without_literal_constraints(self, key: Seq<Expr>) -> Mfp
        recommends
            self.predicates.len() == 1,
    {
        if removable(self.or_args(), key) {
            self.with_predicate(residual_predicate(self.or_args(), key))
        } else {
            self
        }
    }
}

/// Whether each of `a` is one of `b`.
fn all_contained(a: &Vec<ScalarExpr>, b: &Vec<ScalarExpr>) -> (r: bool)
    ensures
        r == forall|e: Expr| exprs_view(a@).contains(e) ==> exprs_view(b@).contains(e),
{
    let ghost xs = exprs_view(a@);
    let ghost ys = exprs_view(b@);
    let mut i: usize = 0;
    while i < a.len()
        invariant
            i <= a.len(),
            xs == exprs_view(a@),
            ys == exprs_view(b@),
            forall|j: int| 0 <= j < i ==> ys.contains(#[trigger] xs[j]),
        decreases a.len() - i,
    {
        if !contains_expr(b, &a[i]) {
            assert(xs.contains(xs[i as int]));
            return false;
        }
        i += 1;
    }
    true
}

/// Whether the two lists hold the same expressions, whatever their order
/// and number.
pub fn same_conjuncts(a: &Vec<ScalarExpr>, b: &Vec<ScalarExpr>) -> (r: bool)
    ensures
        r == same_exprs(exprs_view(a@), exprs_view(b@)),
{
    reveal(same_exprs);
    all_contained(a, b) && all_contained(b, a)
}

/// Whether the conjunct equates a field of the key with a literal.
fn constrains_key(conjunct: &ScalarExpr, key: &Vec<ScalarExpr>) -> (r: bool)
    ensures
        r == is_constraint(conjunct@, exprs_view(key@)),
{
    let ghost fields = exprs_view(key@);
    let mut i: usize = 0;
    while i < key.len()
        invariant
            i <= key.len(),
            fields == exprs_view(key@),
            forall|j: int| 0 <= j < i ==> conjunct@.expr_eq_literal(#[trigger] fields[j]) is None,
        decreases key.len() - i,
    {
        if conjunct.expr_eq_literal(&key[i]).is_some() {
            assert(conjunct@.expr_eq_literal(fields[i as int]).is_some());
            return true;
        }
        i += 1;
    }
    false
}

/// The conjuncts that equate a field of the key with a literal, and the
/// others.
fn partition(conjuncts: &Vec<ScalarExpr>, key: &Vec<ScalarExpr>) -> (r: (
    Vec<ScalarExpr>,
    Vec<ScalarExpr>,
))
    ensures
        exprs_view(r.0@) == constraints_of(exprs_view(conjuncts@), exprs_view(key@)),
        exprs_view(r.1@) == residual_of(exprs_view(conjuncts@), exprs_view(key@)),
{
    let ghost all = exprs_view(conjuncts@);
    let ghost fields = exprs_view(key@);
    let mut constraints: Vec<ScalarExpr> = Vec::new();
    let mut residual: Vec<ScalarExpr> = Vec::new();
    let mut i: usize = 0;
    assert(all.take(0) =~= Seq::<Expr>::empty());
    assert(exprs_view(constraints@) =~= Seq::<Expr>::empty());
    assert(exprs_view(residual@) =~= Seq::<Expr>::empty());
    while i < conjuncts.len()
        invariant
            i <= conjuncts.len(),
            all == exprs_view(conjuncts@),
            fields == exprs_view(key@),
            exprs_view(constraints@) == constraints_of(all.take(i as int), fields),
            exprs_view(residual@) == residual_of(all.take(i as int), fields),
        decreases conjuncts.len() - i,
    {
        proof {
            assert(all.take(i as int + 1).drop_last() =~= all.take(i as int));
            assert(all.take(i as int + 1).last() == all[i as int]);
        }
        let copy = conjuncts[i].clone();
        if constrains_key(&conjuncts[i], key) {
            let ghost before = constraints@;
            constraints.push(copy);
            proof {
                lemma_exprs_view_push(before, copy);
            }
        } else {
            let ghost before = residual@;
            residual.push(copy);
            proof {
                lemma_exprs_view_push(before, copy);
            }
        }
        i += 1;
    }
    assert(all.take(conjuncts.len() as int) =~= all);
    (constraints, residual)
}

/// Whether some branch has the same constraints as `c` and the same
/// residual as `r`.
#[verifier::loop_isolation(false)]
fn find_pairing(
    constraints: &Vec<Vec<ScalarExpr>>,
    residuals: &Vec<Vec<ScalarExpr>>,
    c: &Vec<ScalarExpr>,
    r: &Vec<ScalarExpr>,
) -> (found: bool)
    requires
        constraints.len() == residuals.len(),
    ensures
        found == pairing_exists(
            lists_view(constraints@),
            lists_view(residuals@),
            exprs_view(c@),
            exprs_view(r@),
        ),
{
    let ghost cs = lists_view(constraints@);
    let ghost rs = lists_view(residuals@);
    reveal(pairing_exists);
    let mut k: usize = 0;
    while k < constraints.len()
        invariant
            k <= constraints.len(),
            constraints.len() == residuals.len(),
            cs == lists_view(constraints@),
            rs == lists_view(residuals@),
            forall|m: int|
                0 <= m < k ==> !(same_exprs(#[trigger] cs[m], exprs_view(c@)) && same_exprs(
                    rs[m],
                    exprs_view(r@),
                )),
        decreases constraints.len() - k,
    {
        if same_conjuncts(&constraints[k], c) && same_conjuncts(&residuals[k], r) {
            assert(same_exprs(cs[k as int], exprs_view(c@)) && same_exprs(
                rs[k as int],
                exprs_view(r@),
            ));
            return true;
        }
        k += 1;
    }
    false
}

/// Whether the constraints `c` come with every residual.
fn check_paired_with_all(
    constraints: &Vec<Vec<ScalarExpr>>,
    residuals: &Vec<Vec<ScalarExpr>>,
    c: &Vec<ScalarExpr>,
) -> (r: bool)
    requires
        constraints.len() == residuals.len(),
    ensures
        r == paired_with_all(lists_view(constraints@), lists_view(residuals@), exprs_view(c@)),
{
    let ghost cs = lists_view(constraints@);
    let ghost rs = lists_view(residuals@);
    let mut j: usize = 0;
    while j < residuals.len()
        invariant
            j <= residuals.len(),
            constraints.len() == residuals.len(),
            cs == lists_view(constraints@),
            rs == lists_view(residuals@),
            forall|b: int| 0 <= b < j ==> pairing_exists(cs, rs, exprs_view(c@), #[trigger] rs[b]),
        decreases residuals.len() - j,
    {
        if !find_pairing(constraints, residuals, c, &residuals[j]) {
            assert(!pairing_exists(cs, rs, exprs_view(c@), rs[j as int]));
            return false;
        }
        j += 1;
    }
    true
}

/// Whether every set of constraints comes with every residual.
fn check_all_paired(constraints: &Vec<Vec<ScalarExpr>>, residuals: &Vec<Vec<ScalarExpr>>) -> (r:
    bool)
    requires
        constraints.len() == residuals.len(),
    ensures
        r == all_paired(lists_view(constraints@), lists_view(residuals@)),
{
    let ghost cs = lists_view(constraints@);
    let ghost rs = lists_view(residuals@);
    let mut i: usize = 0;
    while i < constraints.len()
        invariant
            i <= constraints.len(),
            constraints.len() == residuals.len(),
            cs == lists_view(constraints@),
            rs == lists_view(residuals@),
            forall|a: int| 0 <= a < i ==> paired_with_all(cs, rs, #[trigger] cs[a]),
        decreases constraints.len() - i,
    {
        if !check_paired_with_all(constraints, residuals, &constraints[i]) {
            assert(!paired_with_all(cs, rs, cs[i as int]));
            return false;
        }
        i += 1;
    }
    true
}

/// Whether one of `lists` holds the same expressions as `r`.
fn contains_same(lists: &Vec<Vec<ScalarExpr>>, r: &Vec<ScalarExpr>) -> (found: bool)
    ensures
        found == has_same(lists_view(lists@), exprs_view(r@)),
{
    let ghost all = lists_view(lists@);
    let mut k: usize = 0;
    while k < lists.len()
        invariant
            k <= lists.len(),
            all == lists_view(lists@),
            forall|m: int| 0 <= m < k ==> !same_exprs(#[trigger] all[m], exprs_view(r@)),
        decreases lists.len() - k,
    {
        if same_conjuncts(&lists[k], r) {
            assert(same_exprs(all[k as int], exprs_view(r@)));
            return true;
        }
        k += 1;
    }
    false
}

impl LiteralConstraints {
    /// Takes the constraints on the fields of `key` out of the branches of
    /// the predicate, if it can. Returns whether it did.
    ///
    /// With the key `[f1]`, `(f1 = 3 AND f2 = 5) OR (f1 = 7 AND f2 = 5)`
    /// becomes `f2 = 5`. But `(f1 = 3 AND f2 = 5) OR (f1 = 7 AND f2 = 555)`
    /// stays: without the constraints on `f1` the filter could not tell
    /// which of `f2 = 5` and `f2 = 555` to test. The constraints go only if
    /// the branches with one set of constraints are left with the same
    /// residuals as the branches with any other.
    pub fn remove_literal_constraints(mfp: &mut MapFilterProject, key: &Vec<ScalarExpr>) -> (removed:
        bool)
        requires
            old(mfp)@.predicates.len() == 1,
        ensures
            removed == removable(old(mfp)@.or_args(), exprs_view(key@)),
            final(mfp)@ == old(mfp)@.without_literal_constraints(exprs_view(key@)),
            rows_for_key(old(mfp)@.or_args(), exprs_view(key@)) is Some ==> forall|row: Seq<Value>|
                #[trigger] all_hold(old(mfp)@.predicates, row) <==> rows_for_key(
                    old(mfp)@.or_args(),
                    exprs_view(key@),
                ).unwrap().0.contains(key_values(exprs_view(key@), row)) && all_hold(
                    final(mfp)@.predicates,
                    row,
                ),
    {
        proof {
            if rows_for_key(mfp@.or_args(), exprs_view(key@)) is Some {
                lemma_without_literal_constraints(mfp@, exprs_view(key@));
            }
        }
        let or_args = Self::get_or_args(mfp);
        if or_args.len() == 0 {
            return false;
        }
        let ghost branches = exprs_view(or_args@);
        let ghost fields = exprs_view(key@);
        let mut constraints: Vec<Vec<ScalarExpr>> = Vec::new();
        let mut residuals: Vec<Vec<ScalarExpr>> = Vec::new();
        let mut i: usize = 0;
        while i < or_args.len()
            invariant
                i <= or_args.len(),
                branches == exprs_view(or_args@),
                fields == exprs_view(key@),
                lists_view(constraints@) == branch_constraints(branches, fields).take(i as int),
                lists_view(residuals@) == branch_residuals(branches, fields).take(i as int),
            decreases or_args.len() - i,
        {
            let conjuncts = or_args[i].and_or_args(VariadicFunc::And);
            let (c, r) = partition(&conjuncts, key);
            let ghost before_c = lists_view(constraints@);
            let ghost before_r = lists_view(residuals@);
            constraints.push(c);
            residuals.push(r);
            proof {
                assert(lists_view(constraints@) =~= before_c.push(exprs_view(c@)));
                assert(lists_view(residuals@) =~= before_r.push(exprs_view(r@)));
                assert(branch_constraints(branches, fields)[i as int] == exprs_view(c@));
                assert(branch_residuals(branches, fields)[i as int] == exprs_view(r@));
                assert(branch_constraints(branches, fields).take(i as int + 1)
                    =~= branch_constraints(branches, fields).take(i as int).push(exprs_view(c@)));
                assert(branch_residuals(branches, fields).take(i as int + 1) =~= branch_residuals(
                    branches,
                    fields,
                ).take(i as int).push(exprs_view(r@)));
            }
            i += 1;
        }
        assert(lists_view(constraints@) =~= branch_constraints(branches, fields));
        assert(lists_view(residuals@) =~= branch_residuals(branches, fields));
        if !check_all_paired(&constraints, &residuals) {
            return false;
        }
        // Keep one of each of the residuals, and make their disjunction the predicate.
        let ghost all = lists_view(residuals@);
        let mut distinct: Vec<Vec<ScalarExpr>> = Vec::new();
        let mut new_branches: Vec<ScalarExpr> = Vec::new();
        let mut j: usize = 0;
        assert(lists_view(distinct@) =~= distinct_residuals(all.take(0)));
        assert(exprs_view(new_branches@) =~= conjunctions_of(lists_view(distinct@)));
        while j < residuals.len()
            invariant
                j <= residuals.len(),
                all == lists_view(residuals@),
                lists_view(distinct@) == distinct_residuals(all.take(j as int)),
                exprs_view(new_branches@) == conjunctions_of(lists_view(distinct@)),
            decreases residuals.len() - j,
        {
            proof {
                assert(all.take(j as int + 1).drop_last() =~= all.take(j as int));
                assert(all.take(j as int + 1).last() == all[j as int]);
            }
            if !contains_same(&distinct, &residuals[j]) {
                let ghost before = lists_view(distinct@);
                let ghost before_branches = new_branches@;
                let copy = crate::scalar::clone_exprs(&residuals[j]);
                let branch = ScalarExpr::call_variadic(
                    VariadicFunc::And,
                    crate::scalar::clone_exprs(&residuals[j]),
                );
                distinct.push(copy);
                new_branches.push(branch);
                proof {
                    assert(lists_view(distinct@) =~= before.push(all[j as int]));
                    lemma_exprs_view_push(before_branches, branch);
                    assert(exprs_view(new_branches@) =~= conjunctions_of(lists_view(distinct@)));
                }
            }
            j += 1;
        }
        assert(all.take(residuals.len() as int) =~= all);
        let predicate = ScalarExpr::call_variadic(VariadicFunc::Or, new_branches);
        let mut predicates: Vec<ScalarExpr> = Vec::new();
        predicates.push(predicate);
        assert(exprs_view(predicates@) =~= seq![predicate@]);
        mfp.predicates = predicates;
        true
    }
}

} // verus!

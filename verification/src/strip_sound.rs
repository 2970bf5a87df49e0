//! Proofs that a predicate without its constraints on a key, together with
//! the test that the key has one of the literal rows, accepts the rows that
//! the predicate accepts.

use crate::contradiction_sound::{
    lemma_conjuncts_hold, lemma_disjuncts_hold, lemma_parts_read, some_holds,
};
use crate::detect::{literal_for, row_for_branch, rows_for_key};
use crate::detect_sound::{
    key_values, lemma_branch_fixes_key, lemma_literal_for, lemma_row_for_branch,
    lemma_rows_for_key, only_match,
};
use crate::literal::lemma_expr_eq_literal_sound;
use crate::mfp::{all_hold, Mfp};
use crate::normalize_sound::{lemma_and_holds, lemma_or_holds};
use crate::scalar::{Expr, VariadicFunc};
use crate::strip::{
    branch_constraints, branch_residuals, conjunctions_of, constraints_of, distinct_residuals,
    has_same, is_constraint, paired_with_all, pairing_exists, removable, residual_of,
    residual_predicate, same_exprs,
};
use crate::value::Value;
use vstd::prelude::*;

verus! {

/// The constraints and the residual of a list of conjuncts are conjuncts of
/// the list, the ones that are constraints and the ones that are not; and
/// each conjunct of the list is in one of the two.
pub proof fn lemma_partition(conjuncts: Seq<Expr>, key: Seq<Expr>)
    ensures
        forall|k: int|
            0 <= k < constraints_of(conjuncts, key).len() ==> conjuncts.contains(
                #[trigger] constraints_of(conjuncts, key)[k],
            ) && is_constraint(constraints_of(conjuncts, key)[k], key),
        forall|k: int|
            0 <= k < residual_of(conjuncts, key).len() ==> conjuncts.contains(
                #[trigger] residual_of(conjuncts, key)[k],
            ),
        forall|i: int|
            0 <= i < conjuncts.len() ==> constraints_of(conjuncts, key).contains(
                #[trigger] conjuncts[i],
            ) || residual_of(conjuncts, key).contains(conjuncts[i]),
    decreases conjuncts.len(),
{
    if conjuncts.len() > 0 {
        let rest = conjuncts.drop_last();
        let last = conjuncts.last();
        let n = conjuncts.len() - 1;
        let cs = constraints_of(conjuncts, key);
        let rs = residual_of(conjuncts, key);
        let cs0 = constraints_of(rest, key);
        let rs0 = residual_of(rest, key);
        lemma_partition(rest, key);
        assert forall|k: int| 0 <= k < cs.len() implies conjuncts.contains(#[trigger] cs[k])
            && is_constraint(cs[k], key) by {
            if k < cs0.len() {
                let i = choose|i: int| 0 <= i < rest.len() && rest[i] == cs0[k];
                assert(conjuncts[i] == cs[k]);
            } else {
                assert(conjuncts[n] == cs[k]);
            }
        }
        assert forall|k: int| 0 <= k < rs.len() implies conjuncts.contains(#[trigger] rs[k]) by {
            if k < rs0.len() {
                let i = choose|i: int| 0 <= i < rest.len() && rest[i] == rs0[k];
                assert(conjuncts[i] == rs[k]);
            } else {
                assert(conjuncts[n] == rs[k]);
            }
        }
        assert forall|i: int| 0 <= i < conjuncts.len() implies cs.contains(#[trigger] conjuncts[i])
            || rs.contains(conjuncts[i]) by {
            if i < n {
                assert(rest[i] == conjuncts[i]);
                if cs0.contains(rest[i]) {
                    let k = choose|k: int| 0 <= k < cs0.len() && cs0[k] == rest[i];
                    assert(cs[k] == conjuncts[i]);
                } else {
                    let k = choose|k: int| 0 <= k < rs0.len() && rs0[k] == rest[i];
                    assert(rs[k] == conjuncts[i]);
                }
            } else if is_constraint(last, key) {
                assert(cs[cs.len() - 1] == conjuncts[i]);
            } else {
                assert(rs[rs.len() - 1] == conjuncts[i]);
            }
        }
    }
}

/// The conjuncts hold on a row exactly when the constraints and the
/// residual do.
pub proof fn lemma_partition_holds(conjuncts: Seq<Expr>, key: Seq<Expr>, row: Seq<Value>)
    ensures
        all_hold(conjuncts, row) <==> all_hold(constraints_of(conjuncts, key), row) && all_hold(
            residual_of(conjuncts, key),
            row,
        ),
{
    let cs = constraints_of(conjuncts, key);
    let rs = residual_of(conjuncts, key);
    lemma_partition(conjuncts, key);
    if all_hold(conjuncts, row) {
        assert forall|k: int| 0 <= k < cs.len() implies (#[trigger] cs[k]).holds(row) by {
            let i = choose|i: int| 0 <= i < conjuncts.len() && conjuncts[i] == cs[k];
            assert(conjuncts[i].holds(row));
        }
        assert forall|k: int| 0 <= k < rs.len() implies (#[trigger] rs[k]).holds(row) by {
            let i = choose|i: int| 0 <= i < conjuncts.len() && conjuncts[i] == rs[k];
            assert(conjuncts[i].holds(row));
        }
    }
    if all_hold(cs, row) && all_hold(rs, row) {
        assert forall|i: int| 0 <= i < conjuncts.len() implies (#[trigger] conjuncts[i]).holds(
            row,
        ) by {
            if cs.contains(conjuncts[i]) {
                let k = choose|k: int| 0 <= k < cs.len() && cs[k] == conjuncts[i];
                assert(cs[k].holds(row));
            } else {
                let k = choose|k: int| 0 <= k < rs.len() && rs[k] == conjuncts[i];
                assert(rs[k].holds(row));
            }
        }
    }
}

/// Two lists of the same expressions hold on the same rows.
pub proof fn lemma_same_exprs_hold(a: Seq<Expr>, b: Seq<Expr>, row: Seq<Value>)
    requires
        same_exprs(a, b),
    ensures
        all_hold(a, row) == all_hold(b, row),
{
    reveal(same_exprs);
    if all_hold(a, row) {
        assert forall|i: int| 0 <= i < b.len() implies (#[trigger] b[i]).holds(row) by {
            assert(b.contains(b[i]));
            assert(a.contains(b[i]));
            let k = choose|k: int| 0 <= k < a.len() && a[k] == b[i];
            assert(a[k].holds(row));
        }
    }
    if all_hold(b, row) {
        assert forall|i: int| 0 <= i < a.len() implies (#[trigger] a[i]).holds(row) by {
            assert(a.contains(a[i]));
            assert(b.contains(a[i]));
            let k = choose|k: int| 0 <= k < b.len() && b[k] == a[i];
            assert(b[k].holds(row));
        }
    }
}

/// Where the conjuncts fix a key, their constraints hold on every row on
/// which the fields of the key have the values of the literals.
pub proof fn lemma_constraints_hold(conjuncts: Seq<Expr>, key: Seq<Expr>, row: Seq<Value>)
    requires
        row_for_branch(conjuncts, key) is Some,
        key_values(key, row) == row_for_branch(conjuncts, key).unwrap().0,
    ensures
        all_hold(constraints_of(conjuncts, key), row),
{
    let cs = constraints_of(conjuncts, key);
    let t = row_for_branch(conjuncts, key).unwrap().0;
    lemma_partition(conjuncts, key);
    lemma_row_for_branch(conjuncts, key);
    assert forall|k: int| 0 <= k < cs.len() implies (#[trigger] cs[k]).holds(row) by {
        let x = cs[k];
        let i = choose|i: int| 0 <= i < key.len() && x.expr_eq_literal(#[trigger] key[i]).is_some();
        let at = choose|at: int| 0 <= at < conjuncts.len() && conjuncts[at] == x;
        lemma_literal_for(conjuncts, key[i]);
        let m = literal_for(conjuncts, key[i]).unwrap();
        let j = choose|j: int| only_match(conjuncts, key[i], j, m);
        assert(at == j) by {
            if at != j {
                assert(conjuncts[at].expr_eq_literal(key[i]) is None);
            }
        }
        lemma_expr_eq_literal_sound(x, key[i], row);
        assert(key_values(key, row)[i] == key[i].eval(row));
    }
}

/// Each residual that is kept is one of the residuals, and each of the
/// residuals holds the same expressions as one that is kept.
pub proof fn lemma_distinct_residuals(residuals: Seq<Seq<Expr>>)
    ensures
        forall|k: int|
            0 <= k < distinct_residuals(residuals).len() ==> residuals.contains(
                #[trigger] distinct_residuals(residuals)[k],
            ),
        forall|j: int|
            0 <= j < residuals.len() ==> has_same(
                distinct_residuals(residuals),
                #[trigger] residuals[j],
            ),
    decreases residuals.len(),
{
    if residuals.len() > 0 {
        let rest = residuals.drop_last();
        let last = residuals.last();
        let n = residuals.len() - 1;
        let d = distinct_residuals(residuals);
        let d0 = distinct_residuals(rest);
        lemma_distinct_residuals(rest);
        assert forall|k: int| 0 <= k < d.len() implies residuals.contains(#[trigger] d[k]) by {
            if k < d0.len() {
                let j = choose|j: int| 0 <= j < rest.len() && rest[j] == d0[k];
                assert(residuals[j] == d[k]);
            } else {
                assert(residuals[n] == d[k]);
            }
        }
        assert forall|j: int| 0 <= j < residuals.len() implies has_same(
            d,
            #[trigger] residuals[j],
        ) by {
            if j < n {
                assert(rest[j] == residuals[j]);
                let k = choose|k: int| 0 <= k < d0.len() && same_exprs(#[trigger] d0[k], rest[j]);
                assert(same_exprs(d[k], residuals[j]));
            } else if has_same(d0, last) {
                let k = choose|k: int| 0 <= k < d0.len() && same_exprs(#[trigger] d0[k], last);
                assert(same_exprs(d[k], residuals[j]));
            } else {
                assert(same_exprs(d[d.len() - 1], residuals[j])) by {
                    reveal(same_exprs);
                }
            }
        }
    }
}

/// Where the branches fix a key: on a row on which a branch holds, the key
/// has the literal row of that branch, and what is left of the branches
/// holds.
pub proof fn lemma_strip_forward(or_args: Seq<Expr>, key: Seq<Expr>, row: Seq<Value>, b: int)
    requires
        rows_for_key(or_args, key) is Some,
        0 <= b < or_args.len(),
        or_args[b].holds(row),
    ensures
        rows_for_key(or_args, key).unwrap().0[b] == key_values(key, row),
        residual_predicate(or_args, key).holds(row),
{
    let rows = rows_for_key(or_args, key).unwrap().0;
    let rs = branch_residuals(or_args, key);
    let d = distinct_residuals(rs);
    let new_branches = conjunctions_of(d);
    lemma_rows_for_key(or_args, key);
    lemma_distinct_residuals(rs);
    lemma_or_holds(new_branches, row);
    let conjuncts = or_args[b].and_or_args(VariadicFunc::And);
    lemma_conjuncts_hold(or_args[b], row);
    lemma_branch_fixes_key(conjuncts, key, row);
    // the residual of the branch holds, so one of the kept residuals does
    lemma_partition_holds(conjuncts, key, row);
    assert(rs[b] == residual_of(conjuncts, key));
    assert(has_same(d, rs[b]));
    let k = choose|k: int| 0 <= k < d.len() && same_exprs(#[trigger] d[k], rs[b]);
    lemma_same_exprs_hold(d[k], rs[b], row);
    lemma_and_holds(d[k], row);
    assert(new_branches[k].holds(row));
}

/// What it means that some branch has the given constraints and the given
/// residual.
pub proof fn lemma_pairing(
    constraints: Seq<Seq<Expr>>,
    residuals: Seq<Seq<Expr>>,
    c: Seq<Expr>,
    r: Seq<Expr>,
)
    requires
        pairing_exists(constraints, residuals, c, r),
    ensures
        exists|m: int|
            0 <= m < constraints.len() && m < residuals.len() && same_exprs(
                #[trigger] constraints[m],
                c,
            ) && same_exprs(residuals[m], r),
{
    reveal(pairing_exists);
}

/// Where the branches fix a key and the constraints can be taken out: on a
/// row on which the key has the literal row of a branch and what is left of
/// the branches holds, a branch holds.
pub proof fn lemma_strip_backward(or_args: Seq<Expr>, key: Seq<Expr>, row: Seq<Value>, b: int)
    requires
        rows_for_key(or_args, key) is Some,
        removable(or_args, key),
        0 <= b < or_args.len(),
        rows_for_key(or_args, key).unwrap().0[b] == key_values(key, row),
        residual_predicate(or_args, key).holds(row),
    ensures
        some_holds(or_args, row),
{
    let cs = branch_constraints(or_args, key);
    let rs = branch_residuals(or_args, key);
    let d = distinct_residuals(rs);
    let new_branches = conjunctions_of(d);
    lemma_rows_for_key(or_args, key);
    lemma_distinct_residuals(rs);
    lemma_or_holds(new_branches, row);
    let k = choose|k: int| 0 <= k < new_branches.len() && (#[trigger] new_branches[k]).holds(row);
    lemma_and_holds(d[k], row);
    // the residual that holds is the residual of some branch
    assert(rs.contains(d[k]));
    let j = choose|j: int| 0 <= j < rs.len() && rs[j] == d[k];
    // and some branch has the constraints of `b` with that residual
    assert(paired_with_all(cs, rs, cs[b]));
    assert(pairing_exists(cs, rs, cs[b], rs[j]));
    lemma_pairing(cs, rs, cs[b], rs[j]);
    let m = choose|m: int|
        0 <= m < cs.len() && m < rs.len() && same_exprs(#[trigger] cs[m], cs[b]) && same_exprs(
            rs[m],
            rs[j],
        );
    let conjuncts_b = or_args[b].and_or_args(VariadicFunc::And);
    let conjuncts_m = or_args[m].and_or_args(VariadicFunc::And);
    lemma_constraints_hold(conjuncts_b, key, row);
    lemma_same_exprs_hold(cs[m], cs[b], row);
    lemma_same_exprs_hold(rs[m], rs[j], row);
    lemma_partition_holds(conjuncts_m, key, row);
    lemma_conjuncts_hold(or_args[m], row);
    assert(or_args[m].holds(row));
}

/// Where the branches fix a key: on a row on which a branch holds, the key
/// has the literal row of that branch; and if the constraints can be taken
/// out, a branch holds on a row exactly when the key has the literal row of
/// a branch and one of the residuals holds.
pub proof fn lemma_strip(or_args: Seq<Expr>, key: Seq<Expr>, row: Seq<Value>)
    requires
        rows_for_key(or_args, key) is Some,
    ensures
        some_holds(or_args, row) ==> rows_for_key(or_args, key).unwrap().0.contains(
            key_values(key, row),
        ),
        removable(or_args, key) ==> (some_holds(or_args, row) <==> rows_for_key(
            or_args,
            key,
        ).unwrap().0.contains(key_values(key, row)) && residual_predicate(or_args, key).holds(row)),
{
    let rows = rows_for_key(or_args, key).unwrap().0;
    let kv = key_values(key, row);
    lemma_rows_for_key(or_args, key);
    if some_holds(or_args, row) {
        let b = choose|b: int| 0 <= b < or_args.len() && (#[trigger] or_args[b]).holds(row);
        lemma_strip_forward(or_args, key, row, b);
        assert(rows[b] == kv);
    }
    if removable(or_args, key) && rows.contains(kv) && residual_predicate(or_args, key).holds(row) {
        let b = choose|b: int| 0 <= b < rows.len() && rows[b] == kv;
        lemma_strip_backward(or_args, key, row, b);
    }
}

/// What is left of the branches reads no column that the branches did not
/// read.
pub proof fn lemma_residual_predicate_reads(or_args: Seq<Expr>, key: Seq<Expr>, n: nat)
    requires
        forall|i: int| 0 <= i < or_args.len() ==> (#[trigger] or_args[i]).reads_below(n),
    ensures
        residual_predicate(or_args, key).reads_below(n),
{
    let rs = branch_residuals(or_args, key);
    let d = distinct_residuals(rs);
    let new_branches = conjunctions_of(d);
    lemma_distinct_residuals(rs);
    assert forall|k: int| 0 <= k < new_branches.len() implies (
    #[trigger] new_branches[k]).reads_below(n) by {
        let j = choose|j: int| 0 <= j < rs.len() && rs[j] == d[k];
        let conjuncts = or_args[j].and_or_args(VariadicFunc::And);
        lemma_partition(conjuncts, key);
        lemma_parts_read(VariadicFunc::And, or_args[j], n);
        assert forall|i: int| 0 <= i < d[k].len() implies (#[trigger] d[k][i]).reads_below(n) by {
            let at = choose|at: int| 0 <= at < conjuncts.len() && conjuncts[at] == d[k][i];
            assert(conjuncts[at].reads_below(n));
        }
    }
}

/// Where the branches of the predicate of an operator fix a key: the
/// operator without the constraints on the key is well-formed if the
/// operator is, and the predicate holds on a row exactly when the key has
/// the literal row of a branch and the predicate without the constraints
/// holds.
pub proof fn lemma_without_literal_constraints(mfp: Mfp, key: Seq<Expr>)
    requires
        mfp.predicates.len() == 1,
        rows_for_key(mfp.or_args(), key) is Some,
    ensures
        mfp.wf() ==> mfp.without_literal_constraints(key).wf(),
        mfp.without_literal_constraints(key).expressions == mfp.expressions,
        forall|row: Seq<Value>|
            #[trigger] all_hold(mfp.predicates, row) <==> rows_for_key(
                mfp.or_args(),
                key,
            ).unwrap().0.contains(key_values(key, row)) && all_hold(
                mfp.without_literal_constraints(key).predicates,
                row,
            ),
{
    let out = mfp.without_literal_constraints(key);
    let or_args = mfp.or_args();
    let n = mfp.input_arity + mfp.expressions.len();
    let rows = rows_for_key(or_args, key).unwrap().0;
    if mfp.wf() && removable(or_args, key) {
        assert(mfp.predicates[0].reads_below(n));
        lemma_parts_read(VariadicFunc::Or, mfp.predicates[0], n);
        lemma_residual_predicate_reads(or_args, key, n);
        assert forall|i: int| 0 <= i < out.predicates.len() implies (
        #[trigger] out.predicates[i]).reads_below(n) by {}
    }
    assert forall|row: Seq<Value>| #[trigger]
        all_hold(mfp.predicates, row) <==> rows.contains(key_values(key, row)) && all_hold(
            out.predicates,
            row,
        ) by {
        lemma_disjuncts_hold(mfp.predicates[0], row);
        lemma_strip(or_args, key, row);
        if all_hold(mfp.predicates, row) {
            assert(mfp.predicates[0].holds(row));
        }
        if removable(or_args, key) {
            assert(out.predicates[0] == residual_predicate(or_args, key));
            if all_hold(out.predicates, row) {
                assert(out.predicates[0].holds(row));
            }
        }
    }
}

} // verus!

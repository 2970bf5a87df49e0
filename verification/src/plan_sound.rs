//! Proofs about what is decided for a scan: the operator that is put on top
//! accepts, together with the lookup, the rows that the given operator
//! accepts, and its predicates are no larger.

use crate::canonicalize::lemma_canonical_predicates;
use crate::contradiction::cleaned_branches;
use crate::contradiction_sound::lemma_without_impossible_or_args;
use crate::detect::{best_key, rows_for_key};
use crate::detect_sound::{
    key_values, lemma_best_key, lemma_branch_fixes_key, lemma_row_for_branch, lemma_rows_for_key,
};
use crate::inline::lemma_with_literal_constraints_inlined;
use crate::literal_constraints::ScanPlan;
use crate::mfp::{all_hold, lemma_eval_reads_below, lemma_extend_by, Mfp};
use crate::normalize_sound::all_read_below;
use crate::prepare::{lemma_and_of_predicates, lemma_normalized, lemma_unary_and};
use crate::scalar::{total_size, Expr, VariadicFunc};
use crate::strip_sound::lemma_without_literal_constraints;
use crate::value::{lemma_sorted_rows, same_rows, sorted_rows, strictly_sorted, Value};
use vstd::prelude::*;

verus! {

/// Whether each field of each key reads only columns below `arity`.
pub open spec fn keys_read_below(keys: Seq<Seq<Expr>>, arity: nat) -> bool {
    forall|k: int| 0 <= k < keys.len() ==> all_read_below(#[trigger] keys[k], arity)
}

/// Whether each row has `n` values, none of them null.
pub open spec fn rows_are_keys(rows: Seq<Seq<Value>>, n: nat) -> bool {
    forall|i: int|
        0 <= i < rows.len() ==> (#[trigger] rows[i]).len() == n && forall|j: int|
            0 <= j < n ==> #[trigger] rows[i][j] != Value::Null
}

/// Whether, of two operators on rows of the same arity, the second extends
/// each row as the first does and keeps the same rows.
pub open spec fn same_filter(a: Mfp, b: Mfp) -> bool {
    &&& a.input_arity == b.input_arity
    &&& a.projection == b.projection
    &&& forall|row: Seq<Value>|
        row.len() == a.input_arity ==> #[trigger] b.extend(row) == a.extend(row)
    &&& forall|row: Seq<Value>|
        row.len() == a.input_arity ==> #[trigger] b.accepts(row) == a.accepts(row)
}

/// A well-formed operator, prepared and without its impossible branches, is
/// well-formed, has one predicate, extends each row in the same way and
/// keeps the same rows.
pub proof fn lemma_prepared(mfp: Mfp)
    requires
        mfp.wf(),
    ensures
        mfp.prepared().without_impossible_or_args().wf(),
        mfp.prepared().predicates.len() == 1,
        mfp.prepared().without_impossible_or_args().predicates.len() == 1,
        same_filter(mfp, mfp.prepared().without_impossible_or_args()),
{
    let inl = mfp.with_literal_constraints_inlined();
    let a = inl.and_of_predicates();
    let n = a.normalized();
    let u = n.unary_and();
    let c = u.without_impossible_or_args();
    lemma_with_literal_constraints_inlined(mfp);
    lemma_and_of_predicates(inl);
    lemma_normalized(a);
    lemma_unary_and(n);
    lemma_without_impossible_or_args(u);
    assert(c.expressions == inl.expressions);
    assert forall|row: Seq<Value>| row.len() == mfp.input_arity implies #[trigger] c.extend(row)
        == mfp.extend(row) by {
        assert(inl.extend(row) == mfp.extend(row));
    }
    assert forall|row: Seq<Value>| row.len() == mfp.input_arity implies #[trigger] c.accepts(row)
        == mfp.accepts(row) by {
        assert(inl.extend(row) == mfp.extend(row));
        assert(inl.accepts(row) == mfp.accepts(row));
        let ext = inl.extend(row);
        assert(all_hold(a.predicates, ext) == all_hold(inl.predicates, ext));
        assert(all_hold(n.predicates, ext) == all_hold(a.predicates, ext));
        assert(all_hold(u.predicates, ext) == all_hold(n.predicates, ext));
        assert(all_hold(c.predicates, ext) == all_hold(u.predicates, ext));
    }
}

/// The choice between a well-formed operator and the well-formed given
/// one is well-formed, no larger than the given one and, where the two keep the
/// same rows, keeps those rows too.
pub proof fn lemma_or_given(new: Mfp, given: Mfp)
    requires
        new.wf(),
        given.wf(),
        new.input_arity == given.input_arity,
        new.projection == given.projection,
        new.or_given(given) is Some,
    ensures
        ({
            let (mfp, kept_given) = new.or_given(given).unwrap();
            &&& mfp.wf()
            &&& mfp.input_arity == given.input_arity
            &&& mfp.projection == given.projection
            &&& kept_given ==> mfp == given
            &&& !kept_given ==> mfp.expressions == new.expressions
            &&& total_size(mfp.predicates) <= total_size(given.predicates)
            &&& !kept_given ==> forall|row: Seq<Value>|
                #[trigger] all_hold(mfp.predicates, row) == all_hold(new.predicates, row)
        }),
{
    let (mfp, kept_given) = new.or_given(given).unwrap();
    let n = new.input_arity + new.expressions.len();
    if !kept_given {
        lemma_canonical_predicates(new.predicates, Seq::empty(), n);
        assert(all_read_below(new.predicates, n));
        assert forall|row: Seq<Value>| #[trigger]
            all_hold(mfp.predicates, row) == all_hold(new.predicates, row) by {
            lemma_canonical_predicates(new.predicates, row, n);
        }
    }
}

/// What the detector finds, for an operator with one predicate: one of the
/// keys, which is not empty, and for which the branches of the predicate
/// fix literal rows; the rows that are reported are those, sorted.
pub proof fn lemma_detect(mfp: Mfp, keys: Seq<Seq<Expr>>)
    requires
        mfp.predicates.len() == 1,
        mfp.detect(keys) is Some,
    ensures
        ({
            let (key, rows) = mfp.detect(keys).unwrap();
            &&& keys.contains(key)
            &&& key.len() > 0
            &&& rows_for_key(mfp.or_args(), key) is Some
            &&& rows == sorted_rows(rows_for_key(mfp.or_args(), key).unwrap().0)
            &&& strictly_sorted(rows)
            &&& same_rows(rows, rows_for_key(mfp.or_args(), key).unwrap().0)
            &&& rows_are_keys(rows, key.len())
        }),
{
    let (key, rows) = mfp.detect(keys).unwrap();
    let or_args = mfp.or_args();
    lemma_best_key(or_args, keys);
    let b = best_key(or_args, keys).unwrap();
    assert(keys[b] == key);
    let raw = rows_for_key(or_args, key).unwrap().0;
    lemma_sorted_rows(raw);
    lemma_rows_for_key(or_args, key);
    assert forall|i: int| 0 <= i < rows.len() implies (#[trigger] rows[i]).len() == key.len()
        && forall|j: int| 0 <= j < key.len() ==> #[trigger] rows[i][j] != Value::Null by {
        assert(rows.contains(rows[i]));
        assert(raw.contains(rows[i]));
        let at = choose|at: int| 0 <= at < raw.len() && raw[at] == rows[i];
        let conjuncts = or_args[at].and_or_args(VariadicFunc::And);
        lemma_row_for_branch(conjuncts, key);
        lemma_branch_fixes_key(conjuncts, key, Seq::empty());
    }
}

/// What the detector finds is one of the keys, which is not empty, with
/// literal rows in increasing order; and on every row on which the
/// predicate holds, the key has one of these literal rows.
pub proof fn lemma_detected(mfp: Mfp, keys: Seq<Seq<Expr>>)
    requires
        mfp.predicates.len() == 1,
        mfp.detect(keys) is Some,
    ensures
        keys.contains(mfp.detect(keys).unwrap().0),
        mfp.detect(keys).unwrap().0.len() > 0,
        strictly_sorted(mfp.detect(keys).unwrap().1),
        forall|row: Seq<Value>|
            #[trigger] all_hold(mfp.predicates, row) ==> mfp.detect(keys).unwrap().1.contains(
                key_values(mfp.detect(keys).unwrap().0, row),
            ),
{
    let (key, rows) = mfp.detect(keys).unwrap();
    lemma_detect(mfp, keys);
    lemma_without_literal_constraints(mfp, key);
}

/// The values of a key that reads only the input columns are the same on a
/// row and on the row with its computed columns.
pub proof fn lemma_key_values_extended(key: Seq<Expr>, mfp: Mfp, row: Seq<Value>)
    requires
        all_read_below(key, mfp.input_arity),
        row.len() == mfp.input_arity,
    ensures
        key_values(key, mfp.extend(row)) == key_values(key, row),
{
    lemma_extend_by(mfp.expressions, row);
    let ext = mfp.extend(row);
    assert forall|i: int| 0 <= i < key.len() implies key[i].eval(ext) == key[i].eval(row) by {
        assert(key[i].reads_below(mfp.input_arity));
        lemma_eval_reads_below(key[i], mfp.input_arity, ext, row);
    }
    assert(key_values(key, ext) =~= key_values(key, row));
}

/// Whether the plan is a sound answer for the operator: the operator of
/// the plan is well-formed and no larger, it extends each row as the
/// given one does, and it keeps a row exactly when the given one does,
/// provided that the lookup, if there is one, finds the row.
pub open spec fn plan_answers(plan: ScanPlan, mfp: Mfp, keys: Seq<Seq<Expr>>) -> bool {
    &&& plan.mfp.wf()
    &&& plan.mfp.input_arity == mfp.input_arity
    &&& plan.mfp.projection == mfp.projection
    &&& plan.kept_given ==> plan.mfp == mfp
    &&& total_size(plan.mfp.predicates) <= total_size(mfp.predicates)
    &&& match plan.lookup {
        Some((key, rows)) => {
            &&& keys.contains(key)
            &&& key.len() > 0
            &&& strictly_sorted(rows)
            &&& rows_are_keys(rows, key.len())
        },
        None => true,
    }
    &&& forall|row: Seq<Value>|
        row.len() == mfp.input_arity ==> #[trigger] plan.mfp.extend(row) == mfp.extend(row)
    &&& forall|row: Seq<Value>|
        row.len() == mfp.input_arity ==> (#[trigger] mfp.accepts(row) <==> plan.mfp.accepts(row)
            && match plan.lookup {
            Some((key, rows)) => rows.contains(key_values(key, row)),
            None => true,
        })
}

/// What is decided for a scan under a well-formed operator is a sound
/// answer for that operator.
pub proof fn lemma_scan_plan(mfp: Mfp, keys: Seq<Seq<Expr>>)
    requires
        mfp.wf(),
        keys_read_below(keys, mfp.input_arity),
        mfp.scan_plan(keys) is Some,
    ensures
        plan_answers(mfp.scan_plan(keys).unwrap(), mfp, keys),
{
    let plan = mfp.scan_plan(keys).unwrap();
    let prepared = mfp.prepared();
    let cleaned = prepared.without_impossible_or_args();
    lemma_prepared(mfp);
    match plan.lookup {
        None => {
            if !plan.kept_given {
                lemma_or_given(cleaned, mfp);
                lemma_plan_without_lookup(plan, cleaned, mfp);
            }
        },
        Some((key, rows)) => {
            lemma_detect(cleaned, keys);
            let at = choose|at: int| 0 <= at < keys.len() && keys[at] == key;
            assert(all_read_below(keys[at], mfp.input_arity));
            let stripped = cleaned.without_literal_constraints(key);
            lemma_without_literal_constraints(cleaned, key);
            if !plan.kept_given {
                lemma_or_given(stripped, mfp);
            }
            lemma_plan_with_lookup(plan, cleaned, mfp, key, rows);
        },
    }
}

/// The case of `lemma_scan_plan` in which no index was found and the
/// cleaned operator was chosen.
proof fn lemma_plan_without_lookup(plan: ScanPlan, cleaned: Mfp, mfp: Mfp)
    requires
        mfp.wf(),
        same_filter(mfp, cleaned),
        plan.mfp.expressions == cleaned.expressions,
        plan.mfp.input_arity == mfp.input_arity,
        forall|row: Seq<Value>|
            #[trigger] all_hold(plan.mfp.predicates, row) == all_hold(cleaned.predicates, row),
    ensures
        forall|row: Seq<Value>|
            row.len() == mfp.input_arity ==> #[trigger] plan.mfp.extend(row) == mfp.extend(row),
        forall|row: Seq<Value>|
            row.len() == mfp.input_arity ==> #[trigger] mfp.accepts(row) == plan.mfp.accepts(row),
{
    assert forall|row: Seq<Value>| row.len() == mfp.input_arity implies #[trigger] plan.mfp.extend(
        row,
    ) == mfp.extend(row) && mfp.accepts(row) == plan.mfp.accepts(row) by {
        assert(cleaned.extend(row) == mfp.extend(row));
        assert(cleaned.accepts(row) == mfp.accepts(row));
        assert(all_hold(plan.mfp.predicates, cleaned.extend(row)) == all_hold(
            cleaned.predicates,
            cleaned.extend(row),
        ));
    }
}

/// The case of `lemma_scan_plan` in which an index was found.
proof fn lemma_plan_with_lookup(
    plan: ScanPlan,
    cleaned: Mfp,
    mfp: Mfp,
    key: Seq<Expr>,
    rows: Seq<Seq<Value>>,
)
    requires
        mfp.wf(),
        same_filter(mfp, cleaned),
        all_read_below(key, mfp.input_arity),
        plan.mfp.input_arity == mfp.input_arity,
        rows_for_key(cleaned.or_args(), key) is Some,
        same_rows(rows, rows_for_key(cleaned.or_args(), key).unwrap().0),
        plan.kept_given ==> plan.mfp == mfp,
        !plan.kept_given ==> plan.mfp.expressions == cleaned.expressions && forall|
            row: Seq<Value>,
        |
            #[trigger] all_hold(plan.mfp.predicates, row) == all_hold(
                cleaned.without_literal_constraints(key).predicates,
                row,
            ),
        forall|row: Seq<Value>|
            #[trigger] all_hold(cleaned.predicates, row) <==> rows_for_key(
                cleaned.or_args(),
                key,
            ).unwrap().0.contains(key_values(key, row)) && all_hold(
                cleaned.without_literal_constraints(key).predicates,
                row,
            ),
    ensures
        forall|row: Seq<Value>|
            row.len() == mfp.input_arity ==> #[trigger] plan.mfp.extend(row) == mfp.extend(row),
        forall|row: Seq<Value>|
            row.len() == mfp.input_arity ==> (#[trigger] mfp.accepts(row) <==> plan.mfp.accepts(row)
                && rows.contains(key_values(key, row))),
{
    let raw = rows_for_key(cleaned.or_args(), key).unwrap().0;
    let stripped = cleaned.without_literal_constraints(key);
    assert forall|row: Seq<Value>| row.len() == mfp.input_arity implies #[trigger] plan.mfp.extend(
        row,
    ) == mfp.extend(row) && (mfp.accepts(row) <==> plan.mfp.accepts(row) && rows.contains(
        key_values(key, row),
    )) by {
        let ext = mfp.extend(row);
        assert(cleaned.extend(row) == ext);
        assert(cleaned.accepts(row) == mfp.accepts(row));
        lemma_key_values_extended(key, mfp, row);
        let kv = key_values(key, row);
        assert(rows.contains(kv) == raw.contains(kv));
        assert(all_hold(cleaned.predicates, ext) <==> raw.contains(key_values(key, ext))
            && all_hold(stripped.predicates, ext));
        if !plan.kept_given {
            assert(all_hold(plan.mfp.predicates, ext) == all_hold(stripped.predicates, ext));
        }
    }
}

/// The filter that is kept for a scan is never larger than the one that
/// was there: the predicates of the plan have, together, at most as many
/// nodes as the given predicates.
pub proof fn lemma_retained_filter_no_larger(mfp: Mfp, keys: Seq<Seq<Expr>>)
    requires
        mfp.scan_plan(keys) is Some,
    ensures
        total_size(mfp.scan_plan(keys).unwrap().mfp.predicates) <= total_size(mfp.predicates),
{
}

/// Whether removing impossible branches and duplicate conjuncts made the
/// predicates of the operator smaller than they were.
pub open spec fn cleaning_shrinks(mfp: Mfp) -> bool {
    let prepared = mfp.prepared();
    let cleaned = prepared.without_impossible_or_args();
    cleaned_branches(prepared.or_args()) != prepared.or_args() && cleaned.or_given(mfp) != Some(
        (mfp, true),
    )
}

/// Where the expansion of the predicates is cut short, no index is looked
/// for, and the operator stays as it is, unless the removal of impossible
/// branches made its predicates smaller.
pub proof fn lemma_cut_short_keeps_given(mfp: Mfp, keys: Seq<Seq<Expr>>)
    requires
        mfp.scan_plan(keys) is Some,
        !mfp.prepares_fully(),
    ensures
        mfp.scan_plan(keys).unwrap().lookup is None,
        !cleaning_shrinks(mfp) ==> mfp.scan_plan(keys).unwrap() == (ScanPlan {
            mfp,
            kept_given: true,
            lookup: None,
        }),
{
}

} // verus!

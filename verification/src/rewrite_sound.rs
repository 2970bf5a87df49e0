//! The proof that the rewrite keeps the rows of a relation: on every
//! database, the rewritten relation yields the rows that the given
//! yields, in the same order and each as often.

use crate::index::{GlobalId, IndexOracle};
use crate::literal_constraints::ScanPlan;
use crate::lookup_sound::{
    emit, key_is_among, lemma_emitted_same, lemma_emitted_selected, lemma_lookup_join_rows,
    lemma_rows_under, lemma_wrap_rows,
};
use crate::detect_sound::key_values;
use crate::mfp::project_row;
use crate::normalize_sound::all_read_below;
use crate::plan_sound::{keys_read_below, lemma_scan_plan, plan_answers};
use crate::relation::{rows_of_all, Database, Id, Relation};
use crate::rewrite::{all_rewritten, install, lookup_join, Layers};
use crate::scalar::Expr;
use crate::value::Value;
use vstd::prelude::*;

verus! {

impl Relation {
    /// Whether the keys of the indexes on each collection of the catalog
    /// that the tree scans read only columns that the collection has.
    pub open spec fn keys_fit<O: IndexOracle>(self, indexes: &O) -> bool
        decreases self,
    {
        match self {
            Relation::Constant { .. } => true,
            Relation::Get { id: Id::Global(id), arity } => keys_read_below(
                indexes.keys_on(id),
                arity,
            ),
            Relation::Get { .. } => true,
            Relation::Project { input, .. } => input.keys_fit(indexes),
            Relation::MapColumns { input, .. } => input.keys_fit(indexes),
            Relation::Filter { input, .. } => input.keys_fit(indexes),
            Relation::Join { inputs, .. } => forall|i: int|
                0 <= i < inputs.len() ==> (#[trigger] inputs[i]).keys_fit(indexes),
            Relation::ArrangeBy { input, .. } => input.keys_fit(indexes),
            Relation::Union { inputs } => forall|i: int|
                0 <= i < inputs.len() ==> (#[trigger] inputs[i]).keys_fit(indexes),
        }
    }
}

/// What is below well-formed operators is well-formed, and fits a database
/// if the whole does; the map and the filter, as one operator on the rows
/// of what is below, are well-formed.
pub proof fn lemma_wrap_valid(layers: Layers, base: Relation, db: Database)
    requires
        layers.wrap(base).wf(),
    ensures
        base.wf(),
        layers.wrap(base).fits(db) == base.fits(db),
        layers.mfp(base.arity()).wf(),
{
    reveal_with_fuel(Relation::wf, 4);
    reveal_with_fuel(Relation::fits, 4);
    reveal_with_fuel(Relation::arity, 4);
    let mfp = layers.mfp(base.arity());
    let mapped = match layers.map {
        Some(scalars) => Relation::MapColumns { input: Box::new(base), scalars },
        None => base,
    };
    let filtered = match layers.filter {
        Some(predicates) => Relation::Filter { input: Box::new(mapped), predicates },
        None => mapped,
    };
    assert(filtered.wf());
    assert(mapped.wf());
    assert(mapped.arity() == base.arity() + mfp.expressions.len());
    assert forall|i: int| 0 <= i < mfp.expressions.len() implies (
    #[trigger] mfp.expressions[i]).reads_below(mfp.input_arity + i as nat) by {}
    assert forall|i: int| 0 <= i < mfp.predicates.len() implies (
    #[trigger] mfp.predicates[i]).reads_below(mfp.input_arity + mfp.expressions.len()) by {}
}

/// What the operators emit for a row of `arity` columns, in terms of the
/// map and the filter as one operator.
pub proof fn lemma_emit(layers: Layers, arity: nat, row: Seq<Value>)
    ensures
        emit(layers, row) == if layers.mfp(arity).accepts(row) {
            Some(
                match layers.project {
                    Some(outputs) => project_row(outputs, layers.mfp(arity).extend(row)),
                    None => layers.mfp(arity).extend(row),
                },
            )
        } else {
            None
        },
{
}

/// What the operators of a plan that replaces the given ones emit for a
/// row, in terms of the operator of the plan.
pub proof fn lemma_emit_after(layers: Layers, plan: ScanPlan, row: Seq<Value>)
    requires
        !plan.kept_given,
    ensures
        emit(layers.after(plan), row) == if plan.mfp.accepts(row) {
            Some(
                match layers.project {
                    Some(outputs) => project_row(outputs, plan.mfp.extend(row)),
                    None => plan.mfp.extend(row),
                },
            )
        } else {
            None
        },
{
    if plan.mfp.expressions.len() == 0 {
        assert(plan.mfp.extend(row) == row);
    }
    if plan.mfp.predicates.len() == 0 {
        assert(plan.mfp.accepts(row));
    }
}

/// What takes the place of a scan yields the rows that the scan under its
/// operators yields.
pub proof fn lemma_install_rows(
    layers: Layers,
    id: GlobalId,
    arity: nat,
    keys: Seq<Seq<Expr>>,
    db: Database,
)
    requires
        layers.wrap(Relation::Get { id: Id::Global(id), arity }).wf(),
        (Relation::Get { id: Id::Global(id), arity }).fits(db),
        keys_read_below(keys, arity),
        layers.mfp(arity).scan_plan(keys) is Some,
    ensures
        install(layers.mfp(arity).scan_plan(keys).unwrap(), layers, id, arity).rows(db)
            == layers.wrap(Relation::Get { id: Id::Global(id), arity }).rows(db),
{
    let scan = Relation::Get { id: Id::Global(id), arity };
    let mfp = layers.mfp(arity);
    let plan = mfp.scan_plan(keys).unwrap();
    let after = layers.after(plan);
    let rows = scan.rows(db);
    lemma_wrap_valid(layers, scan, db);
    lemma_scan_plan(mfp, keys);
    assert(plan_answers(plan, mfp, keys));
    lemma_wrap_rows(layers, scan, db);
    lemma_rows_under(layers, rows);
    assert forall|i: int| 0 <= i < rows.len() implies (#[trigger] rows[i]).len() == arity by {
        assert(db.contains_key(Id::Global(id)));
    }
    match plan.lookup {
        None => {
            lemma_wrap_rows(after, scan, db);
            lemma_rows_under(after, rows);
            assert forall|i: int| 0 <= i < rows.len() implies emit(layers, #[trigger] rows[i])
                == emit(after, rows[i]) by {
                let r = rows[i];
                lemma_emit(layers, arity, r);
                if !plan.kept_given {
                    lemma_emit_after(layers, plan, r);
                    assert(plan.mfp.extend(r) == mfp.extend(r));
                    assert(mfp.accepts(r) == plan.mfp.accepts(r));
                }
            }
            lemma_emitted_same(layers, after, rows);
        },
        Some((key, literals)) => {
            if arity + key.len() <= usize::MAX {
                let join = lookup_join(id, arity, key, literals);
                let keep = key_is_among(key, literals);
                let at = choose|at: int| 0 <= at < keys.len() && keys[at] == key;
                assert(all_read_below(keys[at], arity));
                lemma_lookup_join_rows(id, arity, key, literals, db);
                lemma_wrap_rows(after, join, db);
                lemma_rows_under(after, rows.filter(keep));
                assert forall|i: int| 0 <= i < rows.len() implies emit(layers, #[trigger] rows[i])
                    == if keep(rows[i]) {
                    emit(after, rows[i])
                } else {
                    None
                } by {
                    let r = rows[i];
                    lemma_emit(layers, arity, r);
                    assert(keep(r) == literals.contains(key_values(key, r)));
                    assert(mfp.accepts(r) <==> plan.mfp.accepts(r) && literals.contains(
                        key_values(key, r),
                    ));
                    if !plan.kept_given {
                        lemma_emit_after(layers, plan, r);
                        assert(plan.mfp.extend(r) == mfp.extend(r));
                    }
                }
                lemma_emitted_selected(layers, after, rows, keep);
            }
        },
    }
}

/// Relations that yield the same rows yield the same rows under the same
/// operators.
pub proof fn lemma_wrap_same_rows(layers: Layers, a: Relation, b: Relation, db: Database)
    requires
        a.rows(db) == b.rows(db),
    ensures
        layers.wrap(a).rows(db) == layers.wrap(b).rows(db),
{
    lemma_wrap_rows(layers, a, db);
    lemma_wrap_rows(layers, b, db);
}

/// The rewritten relation yields, on every database that fits the given
/// relation, the rows that the given relation yields under its
/// operators.
pub proof fn lemma_rewritten<O: IndexOracle>(
    rel: Relation,
    layers: Layers,
    indexes: &O,
    depth: nat,
    db: Database,
)
    requires
        layers.wrap(rel).wf(),
        layers.wrap(rel).fits(db),
        rel.keys_fit(indexes),
        rel.rewritten(layers, indexes, depth) is Some,
    ensures
        rel.rewritten(layers, indexes, depth).unwrap().rows(db) == layers.wrap(rel).rows(db),
    decreases rel, layers.count(), 1nat,
{
    let out = rel.rewritten(layers, indexes, depth).unwrap();
    lemma_wrap_valid(layers, rel, db);
    match rel {
        Relation::Project { input, outputs } => {
            if layers.count() == 0 {
                let peeled = Layers { project: Some(outputs), filter: None, map: None };
                assert(peeled.wrap(*input) == layers.wrap(rel));
                lemma_rewritten(*input, peeled, indexes, depth + 1, db);
            } else {
                lemma_rewritten_below(rel, layers, indexes, depth, db);
            }
        },
        Relation::Filter { input, predicates } => {
            if layers.filter is None && layers.map is None {
                let peeled = Layers { filter: Some(predicates), ..layers };
                assert(peeled.wrap(*input) == layers.wrap(rel));
                lemma_rewritten(*input, peeled, indexes, depth + 1, db);
            } else {
                lemma_rewritten_below(rel, layers, indexes, depth, db);
            }
        },
        Relation::MapColumns { input, scalars } => {
            if layers.map is None {
                let peeled = Layers { map: Some(scalars), ..layers };
                assert(peeled.wrap(*input) == layers.wrap(rel));
                lemma_rewritten(*input, peeled, indexes, depth + 1, db);
            } else {
                lemma_rewritten_below(rel, layers, indexes, depth, db);
            }
        },
        Relation::Get { id: Id::Global(id), arity } => {
            lemma_install_rows(layers, id, arity, indexes.keys_on(id), db);
        },
        Relation::Get { .. } => {},
        Relation::Constant { .. } => {},
        Relation::Join { inputs, equivalences, implementation } => {
            lemma_all_rewritten(inputs, indexes, depth + 1, db);
            let new_inputs = all_rewritten(inputs, indexes, depth + 1).unwrap();
            let inner = Relation::Join { inputs: new_inputs, equivalences, implementation };
            assert(inner.rows(db) == rel.rows(db));
            lemma_wrap_same_rows(layers, inner, rel, db);
        },
        Relation::ArrangeBy { input, keys } => {
            assert(Layers::none().wrap(*input) == *input);
            lemma_rewritten(*input, Layers::none(), indexes, depth + 1, db);
            let r = input.rewritten(Layers::none(), indexes, depth + 1).unwrap();
            let inner = Relation::ArrangeBy { input: Box::new(r), keys };
            assert(inner.rows(db) == rel.rows(db));
            lemma_wrap_same_rows(layers, inner, rel, db);
        },
        Relation::Union { inputs } => {
            assert forall|i: int| 0 <= i < inputs.len() implies (#[trigger] inputs[i]).wf() by {}
            lemma_all_rewritten(inputs, indexes, depth + 1, db);
            let new_inputs = all_rewritten(inputs, indexes, depth + 1).unwrap();
            let inner = Relation::Union { inputs: new_inputs };
            assert(inner.rows(db) == rel.rows(db));
            lemma_wrap_same_rows(layers, inner, rel, db);
        },
    }
}

/// The case of `lemma_rewritten` in which the relation is rewritten on its
/// own below the operators.
pub proof fn lemma_rewritten_below<O: IndexOracle>(
    rel: Relation,
    layers: Layers,
    indexes: &O,
    depth: nat,
    db: Database,
)
    requires
        layers.wrap(rel).wf(),
        layers.wrap(rel).fits(db),
        rel.keys_fit(indexes),
        rel.rewritten_below(layers, indexes, depth) is Some,
    ensures
        rel.rewritten_below(layers, indexes, depth).unwrap().rows(db) == layers.wrap(rel).rows(db),
    decreases rel, layers.count(), 0nat,
{
    lemma_wrap_valid(layers, rel, db);
    assert(Layers::none().wrap(rel) == rel);
    lemma_rewritten(rel, Layers::none(), indexes, depth, db);
    let r = rel.rewritten(Layers::none(), indexes, depth).unwrap();
    lemma_wrap_same_rows(layers, r, rel, db);
}

/// Each of the rewritten relations yields the rows of the relation that it
/// was made from.
pub proof fn lemma_all_rewritten<O: IndexOracle>(
    inputs: Seq<Relation>,
    indexes: &O,
    depth: nat,
    db: Database,
)
    requires
        forall|i: int| 0 <= i < inputs.len() ==> (#[trigger] inputs[i]).wf(),
        forall|i: int| 0 <= i < inputs.len() ==> (#[trigger] inputs[i]).fits(db),
        forall|i: int| 0 <= i < inputs.len() ==> (#[trigger] inputs[i]).keys_fit(indexes),
        all_rewritten(inputs, indexes, depth) is Some,
    ensures
        rows_of_all(all_rewritten(inputs, indexes, depth).unwrap(), db) == rows_of_all(inputs, db),
    decreases inputs, 0nat, 0nat,
{
    let out = all_rewritten(inputs, indexes, depth).unwrap();
    assert forall|i: int| 0 <= i < inputs.len() implies out[i].rows(db) == inputs[i].rows(db) by {
        assert(Layers::none().wrap(inputs[i]) == inputs[i]);
        assert(inputs[i].wf());
        assert(inputs[i].fits(db));
        assert(inputs[i].keys_fit(indexes));
        lemma_rewritten(inputs[i], Layers::none(), indexes, depth, db);
    }
    assert(rows_of_all(out, db) =~= rows_of_all(inputs, db));
}

/// The pass keeps the meaning of a relation: on every database that holds
/// rows of the arities that the relation expects, the relation after the
/// pass yields the rows that the relation before the pass yields, in the
/// same order and each as often.
pub proof fn lemma_transform_preserves_rows<O: IndexOracle>(
    relation: Relation,
    indexes: &O,
    db: Database,
)
    requires
        relation.wf(),
        relation.fits(db),
        relation.keys_fit(indexes),
        relation.rewritten(Layers::none(), indexes, 0) is Some,
    ensures
        relation.rewritten(Layers::none(), indexes, 0).unwrap().rows(db) == relation.rows(db),
{
    assert(Layers::none().wrap(relation) == relation);
    lemma_rewritten(relation, Layers::none(), indexes, 0, db);
}

/// A scan whose filter is not expanded to its end stays as it is, with the
/// operators above it, unless the removal of impossible branches made its
/// predicates smaller: no index is used for it.
pub proof fn lemma_cut_short_leaves_scan<O: IndexOracle>(
    layers: Layers,
    id: GlobalId,
    arity: nat,
    indexes: &O,
    depth: nat,
)
    requires
        (Relation::Get { id: Id::Global(id), arity }).rewritten(layers, indexes, depth) is Some,
        !layers.mfp(arity).prepares_fully(),
        !crate::plan_sound::cleaning_shrinks(layers.mfp(arity)),
    ensures
        (Relation::Get { id: Id::Global(id), arity }).rewritten(layers, indexes, depth) == Some(
            layers.wrap(Relation::Get { id: Id::Global(id), arity }),
        ),
{
    crate::plan_sound::lemma_cut_short_keeps_given(layers.mfp(arity), indexes.keys_on(id));
}

} // verus!

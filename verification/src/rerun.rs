//! Proofs about running the pass a second time: a relation that the pass
//! has rewritten is left as it is by another run, where the first run
//! replaced no filter without also installing a lookup.

use crate::contradiction::{cleaned_branches, conjuncts_survive, constrained_exprs, dedup_by_key};
use crate::detect::{best_key, literal_for, match_count, row_for_branch, rows_for_key, usable};
use crate::detect_sound::lemma_best_key;
use crate::index::{GlobalId, IndexOracle};
use crate::literal_constraints::ScanPlan;
use crate::normalize::{distribute_all, first_or, flatten_all, flatten_args};
use crate::prepare::{conjunctions, normalize, normalize_round, Normalized};
use crate::relation::{Id, JoinPlan, Relation};
use crate::rewrite::{
    all_rewritten, first_columns, install, lookup_equivalences, lookup_join, Layers,
};
use crate::scalar::{depths, sizes, Expr, VariadicFunc};
use crate::value::Value;
use vstd::prelude::*;

verus! {

impl Layers {
    /// Whether the relation is an operator of the kind of the outermost of
    /// these operators.
    pub open spec fn top_matches(self, r: Relation) -> bool {
        if self.project is Some {
            r is Project
        } else if self.filter is Some {
            r is Filter
        } else if self.map is Some {
            r is MapColumns
        } else {
            true
        }
    }

    /// Whether the traversal takes the operator at the root of the relation
    /// into these layers.
    pub open spec fn absorbs(self, r: Relation) -> bool {
        match r {
            Relation::Project { .. } => self.count() == 0,
            Relation::Filter { .. } => self.filter is None && self.map is None,
            Relation::MapColumns { .. } => self.map is None,
            _ => false,
        }
    }
}

/// Whether the relation is a lookup in an index under some operators.
#[verifier::opaque]
pub open spec fn is_lookup(r: Relation) -> bool {
    exists|on_top: Layers, id: GlobalId, arity: nat, key: Seq<Expr>, rows: Seq<Seq<Value>>|
        r == #[trigger] on_top.wrap(lookup_join(id, arity, key, rows))
}

impl Relation {
    /// Whether, under the operators `layers`, no scan of the relation has
    /// its filter replaced without a lookup being installed for it.
    pub open spec fn steady<O: IndexOracle>(self, layers: Layers, indexes: &O) -> bool
        decreases self, layers.count(), 1nat,
    {
        match self {
            Relation::Project { input, outputs } => if layers.count() == 0 {
                input.steady(Layers { project: Some(outputs), filter: None, map: None }, indexes)
            } else {
                self.steady_below(layers, indexes)
            },
            Relation::Filter { input, predicates } => if layers.filter is None && layers.map
                is None {
                input.steady(Layers { filter: Some(predicates), ..layers }, indexes)
            } else {
                self.steady_below(layers, indexes)
            },
            Relation::MapColumns { input, scalars } => if layers.map is None {
                input.steady(Layers { map: Some(scalars), ..layers }, indexes)
            } else {
                self.steady_below(layers, indexes)
            },
            Relation::Get { id: Id::Global(id), arity } => match layers.mfp(arity).scan_plan(
                indexes.keys_on(id),
            ) {
                Some(plan) => plan.kept_given || plan.lookup is Some,
                None => true,
            },
            Relation::Get { .. } => true,
            Relation::Constant { .. } => true,
            Relation::Join { inputs, .. } => forall|i: int|
                0 <= i < inputs.len() ==> (#[trigger] inputs[i]).steady(Layers::none(), indexes),
            Relation::ArrangeBy { input, .. } => input.steady(Layers::none(), indexes),
            Relation::Union { inputs } => forall|i: int|
                0 <= i < inputs.len() ==> (#[trigger] inputs[i]).steady(Layers::none(), indexes),
        }
    }

    /// `steady` for a relation that is rewritten on its own below the
    /// operators.
    pub open spec fn steady_below<O: IndexOracle>(self, layers: Layers, indexes: &O) -> bool
        decreases self, layers.count(), 0nat,
    {
        layers.count() > 0 ==> self.steady(Layers::none(), indexes)
    }
}

/// Rewriting a relation under operators, from the root, is rewriting the
/// relation with the operators taken off.
pub proof fn lemma_peel<O: IndexOracle>(layers: Layers, x: Relation, indexes: &O, depth: nat)
    ensures
        layers.wrap(x).rewritten(Layers::none(), indexes, depth) == x.rewritten(
            layers,
            indexes,
            depth + layers.count(),
        ),
{
    reveal_with_fuel(Relation::rewritten, 4);
}

/// Under no operators at all, a scan is left as it is.
pub proof fn lemma_bare_scan_plan(arity: nat, keys: Seq<Seq<Expr>>)
    ensures
        Layers::none().mfp(arity).scan_plan(keys) == Some(
            ScanPlan { mfp: Layers::none().mfp(arity), kept_given: true, lookup: None },
        ),
{
    let mfp = Layers::none().mfp(arity);
    let truth = Expr::CallVariadic(VariadicFunc::And, Seq::<Expr>::empty());
    // inlining changes nothing
    let inlined = mfp.with_literal_constraints_inlined();
    assert(inlined.expressions =~= Seq::<Expr>::empty());
    assert(inlined.predicates =~= Seq::<Expr>::empty());
    assert(!mfp.too_deep_to_inline());
    // the conjunction of no predicates is its own expansion
    let one = inlined.and_of_predicates();
    assert(one.predicates =~= seq![truth]);
    assert(one.predicates[0] == truth);
    assert(depths(Seq::<Expr>::empty()) =~= Seq::<nat>::empty());
    assert(sizes(Seq::<Expr>::empty()) =~= Seq::<nat>::empty());
    assert(truth.depth() == 1);
    assert(truth.size() == 1);
    assert(distribute_all(Seq::<Expr>::empty()) =~= Seq::<Expr>::empty());
    assert(flatten_all(Seq::<Expr>::empty()) =~= Seq::<Expr>::empty());
    assert(first_or(Seq::<Expr>::empty()) == 0);
    assert(truth.distribute() == truth);
    assert(flatten_args(VariadicFunc::And, Seq::<Expr>::empty()) =~= Seq::<Expr>::empty());
    assert(truth.flatten() == truth);
    assert(normalize_round(truth) == truth);
    assert(normalize(truth) == Normalized::Done(truth));
    assert(!one.too_deep_to_normalize()) by {
        if one.too_deep_to_normalize() {
            let i = choose|i: int|
                0 <= i < one.predicates.len() && normalize(#[trigger] one.predicates[i])
                    == Normalized::TooDeep;
            assert(one.predicates[i] == truth);
        }
    }
    assert(one.normalizes_fully());
    let expanded = one.normalized();
    assert(expanded.predicates =~= seq![truth]);
    assert(expanded == one);
    // its only branch is a conjunction already
    let branches = one.or_args();
    assert(branches =~= seq![truth]);
    assert(conjunctions(branches) =~= branches);
    let prepared = one.unary_and();
    assert(prepared == one);
    assert(mfp.prepared() == one);
    // and nothing can be removed from it
    let conjuncts = truth.and_or_args(VariadicFunc::And);
    assert(conjuncts =~= Seq::<Expr>::empty());
    assert(dedup_by_key(conjuncts) =~= Seq::<Expr>::empty());
    assert(constrained_exprs(Seq::<Expr>::empty()) =~= Seq::<Expr>::empty());
    assert(conjuncts_survive(conjuncts));
    assert(branches.drop_last() =~= Seq::<Expr>::empty());
    assert(cleaned_branches(branches.drop_last()) =~= Seq::<Expr>::empty());
    assert(branches.last() == truth);
    assert(cleaned_branches(branches) =~= seq![truth]) by {
        reveal_with_fuel(cleaned_branches, 2);
    }
    assert(cleaned_branches(branches) == branches);
    let cleaned = one.without_impossible_or_args();
    assert(cleaned == one);
    // no key is fixed by a conjunction of nothing
    lemma_best_key(branches, keys);
    assert(best_key(branches, keys) is None) by {
        if best_key(branches, keys) is Some {
            let b = best_key(branches, keys).unwrap();
            let key = keys[b];
            assert(usable(branches, key));
            assert(match_count(conjuncts, key.last()) == 0);
            assert(literal_for(conjuncts, key.last()) is None);
            assert(row_for_branch(conjuncts, key) is None);
            assert(rows_for_key(branches, key) is None) by {
                reveal_with_fuel(rows_for_key, 2);
            }
        }
    }
    assert(cleaned.detect(keys) is None);
}

/// A lookup in an index is left as it is by the pass.
pub proof fn lemma_lookup_join_stays<O: IndexOracle>(
    id: GlobalId,
    arity: nat,
    key: Seq<Expr>,
    rows: Seq<Seq<Value>>,
    indexes: &O,
    depth: nat,
)
    requires
        lookup_join(id, arity, key, rows).rewritten(Layers::none(), indexes, depth) is Some,
    ensures
        lookup_join(id, arity, key, rows).rewritten(Layers::none(), indexes, depth) == Some(
            lookup_join(id, arity, key, rows),
        ),
{
    reveal_with_fuel(Relation::rewritten, 5);
    let scan = Relation::Get { id: Id::Global(id), arity };
    let literals = Relation::Constant { rows, arity: key.len() };
    let inputs = seq![
        Relation::ArrangeBy { input: Box::new(scan), keys: seq![key] },
        Relation::ArrangeBy { input: Box::new(literals), keys: seq![first_columns(key.len())] },
    ];
    let join = Relation::Join {
        inputs,
        equivalences: lookup_equivalences(key, arity),
        implementation: JoinPlan::IndexedFilter(id, key, rows),
    };
    let outputs = Seq::new(arity, |i: int| i as nat);
    let project = Layers { project: Some(outputs), filter: None, map: None };
    lemma_bare_scan_plan(arity, indexes.keys_on(id));
    let plan = Layers::none().mfp(arity).scan_plan(indexes.keys_on(id)).unwrap();
    assert(install(plan, Layers::none(), id, arity) == scan);
    assert(join.rewritten(project, indexes, depth + 1) is Some);
    let again = all_rewritten(inputs, indexes, depth + 2);
    assert(again is Some);
    assert(inputs[0].rewritten(Layers::none(), indexes, depth + 2) is Some);
    assert(inputs[1].rewritten(Layers::none(), indexes, depth + 2) is Some);
    assert(scan.rewritten(Layers::none(), indexes, depth + 3) == Some(scan));
    assert(literals.rewritten(Layers::none(), indexes, depth + 3) == Some(literals));
    assert(inputs[0].rewritten(Layers::none(), indexes, depth + 2) == Some(inputs[0]));
    assert(inputs[1].rewritten(Layers::none(), indexes, depth + 2) == Some(inputs[1]));
    assert(again.unwrap() =~= inputs);
}

/// A lookup in an index under operators `on_top` is left as it is by the
/// pass, whatever operators `layers` were taken off above it.
pub proof fn lemma_lookup_stays<O: IndexOracle>(
    on_top: Layers,
    layers: Layers,
    id: GlobalId,
    arity: nat,
    key: Seq<Expr>,
    rows: Seq<Seq<Value>>,
    indexes: &O,
    depth: nat,
)
    requires
        on_top.wrap(lookup_join(id, arity, key, rows)).rewritten(layers, indexes, depth) is Some,
    ensures
        on_top.wrap(lookup_join(id, arity, key, rows)).rewritten(layers, indexes, depth) == Some(
            layers.wrap(on_top.wrap(lookup_join(id, arity, key, rows))),
        ),
    decreases on_top.count(), layers.count(),
{
    reveal_with_fuel(Relation::rewritten, 2);
    let join = lookup_join(id, arity, key, rows);
    let r = on_top.wrap(join);
    if layers.absorbs(r) {
        // the outermost operator goes into the layers, and the rest follows
        if on_top.project is Some {
            let rest = Layers { project: None, ..on_top };
            let more = Layers { project: on_top.project, filter: None, map: None };
            assert(r == more.wrap(rest.wrap(join)));
            assert(r.rewritten(layers, indexes, depth) == rest.wrap(join).rewritten(
                more,
                indexes,
                depth + 1,
            ));
            lemma_lookup_stays(rest, more, id, arity, key, rows, indexes, depth + 1);
        } else if on_top.filter is Some {
            let rest = Layers { project: None, filter: None, map: on_top.map };
            let more = Layers { filter: on_top.filter, ..layers };
            assert(r.rewritten(layers, indexes, depth) == rest.wrap(join).rewritten(
                more,
                indexes,
                depth + 1,
            ));
            lemma_lookup_stays(rest, more, id, arity, key, rows, indexes, depth + 1);
            assert(more.wrap(rest.wrap(join)) == layers.wrap(r));
        } else if on_top.map is Some {
            let rest = Layers::none();
            let more = Layers { map: on_top.map, ..layers };
            assert(rest.wrap(join) == join);
            assert(r.rewritten(layers, indexes, depth) == join.rewritten(more, indexes, depth + 1));
            lemma_lookup_stays(rest, more, id, arity, key, rows, indexes, depth + 1);
            assert(more.wrap(join) == layers.wrap(r));
        } else {
            // the lookup itself, under no layers
            assert(r == join);
            assert(layers == Layers::none());
            lemma_lookup_join_stays(id, arity, key, rows, indexes, depth);
        }
    } else {
        if layers.count() > 0 {
            // the relation is rewritten on its own
            assert(r.rewritten(layers, indexes, depth) == r.rewritten_below(layers, indexes, depth));
            lemma_lookup_stays(on_top, Layers::none(), id, arity, key, rows, indexes, depth);
        } else {
            // under no layers every operator is absorbed
            assert(on_top.count() == 0);
            assert(r == join);
        }
    }
}

/// A lookup in an index under operators is a lookup.
pub proof fn lemma_is_lookup(
    on_top: Layers,
    id: GlobalId,
    arity: nat,
    key: Seq<Expr>,
    rows: Seq<Seq<Value>>,
)
    ensures
        is_lookup(on_top.wrap(lookup_join(id, arity, key, rows))),
{
    reveal(is_lookup);
}

/// A relation under operators is an operator of the kind of the outermost
/// of them.
pub proof fn lemma_wrap_top(layers: Layers, base: Relation)
    ensures
        layers.top_matches(layers.wrap(base)),
{
}

/// What takes the place of a scan under operators is an operator of the
/// kind of the outermost of these, or a lookup in an index under some
/// operators, where the filter is not replaced without a lookup.
pub proof fn lemma_shape_of_scan<O: IndexOracle>(
    layers: Layers,
    id: GlobalId,
    arity: nat,
    indexes: &O,
    depth: nat,
)
    requires
        (Relation::Get { id: Id::Global(id), arity }).steady(layers, indexes),
        (Relation::Get { id: Id::Global(id), arity }).rewritten(layers, indexes, depth) is Some,
    ensures
        layers.top_matches(
            (Relation::Get { id: Id::Global(id), arity }).rewritten(
                layers,
                indexes,
                depth,
            ).unwrap(),
        ) || is_lookup(
            (Relation::Get { id: Id::Global(id), arity }).rewritten(
                layers,
                indexes,
                depth,
            ).unwrap(),
        ),
{
    let scan = Relation::Get { id: Id::Global(id), arity };
    let r = scan.rewritten(layers, indexes, depth).unwrap();
    let plan = layers.mfp(arity).scan_plan(indexes.keys_on(id)).unwrap();
    assert(r == install(plan, layers, id, arity));
    let installs = match plan.lookup {
        Some((key, rows)) => arity + key.len() <= usize::MAX,
        None => false,
    };
    if installs {
        let (key, rows) = plan.lookup.unwrap();
        assert(r == layers.after(plan).wrap(lookup_join(id, arity, key, rows)));
        lemma_is_lookup(layers.after(plan), id, arity, key, rows);
    } else {
        assert(plan.kept_given || plan.lookup is Some);
        assert(r == layers.wrap(scan));
        lemma_wrap_top(layers, scan);
    }
}

/// What the pass makes of a relation that is no projection, filter, map or
/// scan of the catalog, under operators, is an operator of the kind of the
/// outermost of these operators.
pub proof fn lemma_shape_of_other<O: IndexOracle>(
    x: Relation,
    layers: Layers,
    indexes: &O,
    depth: nat,
)
    requires
        !(x is Project || x is Filter || x is MapColumns),
        !(x is Get && x->Get_id is Global),
        x.rewritten(layers, indexes, depth) is Some,
    ensures
        layers.top_matches(x.rewritten(layers, indexes, depth).unwrap()),
{
    match x {
        Relation::Join { inputs, equivalences, implementation } => {
            lemma_wrap_top(
                layers,
                Relation::Join {
                    inputs: all_rewritten(inputs, indexes, depth + 1).unwrap(),
                    equivalences,
                    implementation,
                },
            );
        },
        Relation::ArrangeBy { input, keys } => {
            lemma_wrap_top(
                layers,
                Relation::ArrangeBy {
                    input: Box::new(input.rewritten(Layers::none(), indexes, depth + 1).unwrap()),
                    keys,
                },
            );
        },
        Relation::Union { inputs } => {
            lemma_wrap_top(
                layers,
                Relation::Union { inputs: all_rewritten(inputs, indexes, depth + 1).unwrap() },
            );
        },
        _ => {
            lemma_wrap_top(layers, x);
        },
    }
}

/// What the pass makes of a projection, a filter or a map that starts a
/// stack of its own, under operators, is an operator of the kind of the
/// outermost of these operators.
pub proof fn lemma_shape_of_restart<O: IndexOracle>(
    x: Relation,
    layers: Layers,
    indexes: &O,
    depth: nat,
)
    requires
        x is Project || x is Filter || x is MapColumns,
        !layers.absorbs(x),
        x.rewritten(layers, indexes, depth) is Some,
    ensures
        layers.top_matches(x.rewritten(layers, indexes, depth).unwrap()),
{
    let own = x.rewritten(Layers::none(), indexes, depth).unwrap();
    assert(x.rewritten(layers, indexes, depth) == x.rewritten_below(layers, indexes, depth));
    lemma_wrap_top(layers, own);
}

/// What the pass makes of a relation under operators is an operator of the
/// kind of the outermost of these, or a lookup in an index under some
/// operators, where no filter is replaced without a lookup.
pub proof fn lemma_shape<O: IndexOracle>(x: Relation, layers: Layers, indexes: &O, depth: nat)
    requires
        x.steady(layers, indexes),
        x.rewritten(layers, indexes, depth) is Some,
    ensures
        layers.top_matches(x.rewritten(layers, indexes, depth).unwrap()) || is_lookup(
            x.rewritten(layers, indexes, depth).unwrap(),
        ),
    decreases x,
{
    match x {
        Relation::Project { input, outputs } => {
            if layers.count() == 0 {
                lemma_shape(
                    *input,
                    Layers { project: Some(outputs), filter: None, map: None },
                    indexes,
                    depth + 1,
                );
            } else {
                lemma_shape_of_restart(x, layers, indexes, depth);
            }
        },
        Relation::Filter { input, predicates } => {
            if layers.filter is None && layers.map is None {
                let more = Layers { filter: Some(predicates), ..layers };
                lemma_shape(*input, more, indexes, depth + 1);
                let r = input.rewritten(more, indexes, depth + 1).unwrap();
                assert(more.top_matches(r) ==> layers.top_matches(r));
            } else {
                lemma_shape_of_restart(x, layers, indexes, depth);
            }
        },
        Relation::MapColumns { input, scalars } => {
            if layers.map is None {
                let more = Layers { map: Some(scalars), ..layers };
                lemma_shape(*input, more, indexes, depth + 1);
                let r = input.rewritten(more, indexes, depth + 1).unwrap();
                assert(more.top_matches(r) ==> layers.top_matches(r));
            } else {
                lemma_shape_of_restart(x, layers, indexes, depth);
            }
        },
        Relation::Get { id: Id::Global(id), arity } => {
            lemma_shape_of_scan(layers, id, arity, indexes, depth);
        },
        _ => {
            lemma_shape_of_other(x, layers, indexes, depth);
        },
    }
}

/// What takes the place of a scan is left as it is by another run of the
/// pass, where the filter of the scan was not replaced without a lookup.
pub proof fn lemma_scan_stays<O: IndexOracle>(
    layers: Layers,
    id: GlobalId,
    arity: nat,
    indexes: &O,
    depth: nat,
    again: nat,
)
    requires
        (Relation::Get { id: Id::Global(id), arity }).steady(layers, indexes),
        (Relation::Get { id: Id::Global(id), arity }).rewritten(layers, indexes, depth) is Some,
        (Relation::Get { id: Id::Global(id), arity }).rewritten(
            layers,
            indexes,
            depth,
        ).unwrap().rewritten(Layers::none(), indexes, again) is Some,
    ensures
        (Relation::Get { id: Id::Global(id), arity }).rewritten(
            layers,
            indexes,
            depth,
        ).unwrap().rewritten(Layers::none(), indexes, again) == (Relation::Get {
            id: Id::Global(id),
            arity,
        }).rewritten(layers, indexes, depth),
{
    let scan = Relation::Get { id: Id::Global(id), arity };
    let out = scan.rewritten(layers, indexes, depth).unwrap();
    let plan = layers.mfp(arity).scan_plan(indexes.keys_on(id)).unwrap();
    assert(out == install(plan, layers, id, arity));
    let installs = match plan.lookup {
        Some((key, rows)) => arity + key.len() <= usize::MAX,
        None => false,
    };
    if installs {
        let (key, rows) = plan.lookup.unwrap();
        assert(out == layers.after(plan).wrap(lookup_join(id, arity, key, rows)));
        lemma_lookup_stays(layers.after(plan), Layers::none(), id, arity, key, rows, indexes, again);
        assert(Layers::none().wrap(out) == out);
    } else {
        // the scan is as it was, and is planned as before
        assert(out == layers.wrap(scan));
        lemma_peel(layers, scan, indexes, again);
        assert(scan.rewritten(layers, indexes, again + layers.count()) == Some(out));
    }
}

/// A relation without inputs, under operators, is left as it is by the
/// pass.
pub proof fn lemma_leaf_stays<O: IndexOracle>(
    leaf: Relation,
    layers: Layers,
    indexes: &O,
    again: nat,
)
    requires
        leaf is Constant || (leaf is Get && !(leaf->Get_id is Global)),
        layers.wrap(leaf).rewritten(Layers::none(), indexes, again) is Some,
    ensures
        layers.wrap(leaf).rewritten(Layers::none(), indexes, again) == Some(layers.wrap(leaf)),
{
    lemma_peel(layers, leaf, indexes, again);
}

/// A relation that the pass has rewritten is left as it is by another run
/// of the pass that does not fail, where the first run replaced no filter
/// without installing a lookup for its scan.
pub proof fn lemma_rewritten_stays<O: IndexOracle>(
    rel: Relation,
    layers: Layers,
    indexes: &O,
    depth: nat,
    again: nat,
)
    requires
        rel.steady(layers, indexes),
        rel.rewritten(layers, indexes, depth) is Some,
        rel.rewritten(layers, indexes, depth).unwrap().rewritten(Layers::none(), indexes, again)
            is Some,
    ensures
        rel.rewritten(layers, indexes, depth).unwrap().rewritten(Layers::none(), indexes, again)
            == rel.rewritten(layers, indexes, depth),
    decreases rel, layers.count(), 1nat,
{
    let out = rel.rewritten(layers, indexes, depth).unwrap();
    let below = again + layers.count();
    match rel {
        Relation::Project { input, outputs } => {
            if layers.count() == 0 {
                lemma_rewritten_stays(
                    *input,
                    Layers { project: Some(outputs), filter: None, map: None },
                    indexes,
                    depth + 1,
                    again,
                );
            } else {
                assert(rel.steady_below(layers, indexes));
                lemma_rewritten_below_stays(rel, layers, indexes, depth, again);
            }
        },
        Relation::Filter { input, predicates } => {
            if layers.filter is None && layers.map is None {
                lemma_rewritten_stays(
                    *input,
                    Layers { filter: Some(predicates), ..layers },
                    indexes,
                    depth + 1,
                    again,
                );
            } else {
                assert(rel.steady_below(layers, indexes));
                lemma_rewritten_below_stays(rel, layers, indexes, depth, again);
            }
        },
        Relation::MapColumns { input, scalars } => {
            if layers.map is None {
                lemma_rewritten_stays(
                    *input,
                    Layers { map: Some(scalars), ..layers },
                    indexes,
                    depth + 1,
                    again,
                );
            } else {
                assert(rel.steady_below(layers, indexes));
                lemma_rewritten_below_stays(rel, layers, indexes, depth, again);
            }
        },
        Relation::Get { id: Id::Global(id), arity } => {
            lemma_scan_stays(layers, id, arity, indexes, depth, again);
        },
        Relation::Get { .. } => {
            assert(out == layers.wrap(rel));
            lemma_leaf_stays(rel, layers, indexes, again);
        },
        Relation::Constant { .. } => {
            assert(out == layers.wrap(rel));
            lemma_leaf_stays(rel, layers, indexes, again);
        },
        Relation::Join { inputs, equivalences, implementation } => {
            let new_inputs = all_rewritten(inputs, indexes, depth + 1).unwrap();
            let inner = Relation::Join { inputs: new_inputs, equivalences, implementation };
            assert(out == layers.wrap(inner));
            lemma_peel(layers, inner, indexes, again);
            assert(inner.rewritten(layers, indexes, below) is Some);
            assert(all_rewritten(new_inputs, indexes, below + 1) is Some);
            lemma_all_rewritten_stay(inputs, indexes, depth + 1, below + 1);
        },
        Relation::ArrangeBy { input, keys } => {
            let r = input.rewritten(Layers::none(), indexes, depth + 1).unwrap();
            let inner = Relation::ArrangeBy { input: Box::new(r), keys };
            assert(out == layers.wrap(inner));
            lemma_peel(layers, inner, indexes, again);
            assert(inner.rewritten(layers, indexes, below) is Some);
            assert(r.rewritten(Layers::none(), indexes, below + 1) is Some);
            lemma_rewritten_stays(*input, Layers::none(), indexes, depth + 1, below + 1);
        },
        Relation::Union { inputs } => {
            let new_inputs = all_rewritten(inputs, indexes, depth + 1).unwrap();
            let inner = Relation::Union { inputs: new_inputs };
            assert(out == layers.wrap(inner));
            lemma_peel(layers, inner, indexes, again);
            assert(inner.rewritten(layers, indexes, below) is Some);
            assert(all_rewritten(new_inputs, indexes, below + 1) is Some);
            lemma_all_rewritten_stay(inputs, indexes, depth + 1, below + 1);
        },
    }
}

/// The case of `lemma_rewritten_stays` in which the relation is rewritten
/// on its own below the operators.
pub proof fn lemma_rewritten_below_stays<O: IndexOracle>(
    rel: Relation,
    layers: Layers,
    indexes: &O,
    depth: nat,
    again: nat,
)
    requires
        layers.count() > 0,
        rel is Project || rel is Filter || rel is MapColumns,
        !layers.absorbs(rel),
        rel.steady(Layers::none(), indexes),
        rel.rewritten_below(layers, indexes, depth) is Some,
        rel.rewritten_below(layers, indexes, depth).unwrap().rewritten(
            Layers::none(),
            indexes,
            again,
        ) is Some,
    ensures
        rel.rewritten_below(layers, indexes, depth).unwrap().rewritten(
            Layers::none(),
            indexes,
            again,
        ) == rel.rewritten_below(layers, indexes, depth),
    decreases rel, layers.count(), 0nat,
{
    let r = rel.rewritten(Layers::none(), indexes, depth).unwrap();
    let below = again + layers.count();
    lemma_peel(layers, r, indexes, again);
    // what became of the relation starts with an operator of its kind, or is a lookup
    lemma_shape_of_own(rel, indexes, depth);
    if is_lookup(r) {
        reveal(is_lookup);
        let (on_top, id, arity, key, rows) = choose|
            on_top: Layers,
            id: GlobalId,
            arity: nat,
            key: Seq<Expr>,
            rows: Seq<Seq<Value>>,
        | r == #[trigger] on_top.wrap(lookup_join(id, arity, key, rows));
        lemma_lookup_stays(on_top, layers, id, arity, key, rows, indexes, below);
    } else {
        assert(!layers.absorbs(r));
        assert(r.rewritten(layers, indexes, below) == r.rewritten_below(layers, indexes, below)) by {
            reveal_with_fuel(Relation::rewritten, 2);
        }
        lemma_rewritten_stays(rel, Layers::none(), indexes, depth, below);
    }
}

/// What the pass makes of a projection, a filter or a map, rewritten on its
/// own, is an operator of the same kind or a lookup.
pub proof fn lemma_shape_of_own<O: IndexOracle>(rel: Relation, indexes: &O, depth: nat)
    requires
        rel is Project || rel is Filter || rel is MapColumns,
        rel.steady(Layers::none(), indexes),
        rel.rewritten(Layers::none(), indexes, depth) is Some,
    ensures
        is_lookup(rel.rewritten(Layers::none(), indexes, depth).unwrap()) || ({
            let r = rel.rewritten(Layers::none(), indexes, depth).unwrap();
            &&& rel is Project ==> r is Project
            &&& rel is Filter ==> r is Filter
            &&& rel is MapColumns ==> r is MapColumns
        }),
{
    match rel {
        Relation::Project { input, outputs } => {
            lemma_shape(
                *input,
                Layers { project: Some(outputs), filter: None, map: None },
                indexes,
                depth + 1,
            );
        },
        Relation::Filter { input, predicates } => {
            lemma_shape(
                *input,
                Layers { project: None, filter: Some(predicates), map: None },
                indexes,
                depth + 1,
            );
        },
        Relation::MapColumns { input, scalars } => {
            lemma_shape(
                *input,
                Layers { project: None, filter: None, map: Some(scalars) },
                indexes,
                depth + 1,
            );
        },
        _ => {},
    }
}

/// Each of the relations that the pass has rewritten is left as it is by
/// another run.
pub proof fn lemma_all_rewritten_stay<O: IndexOracle>(
    inputs: Seq<Relation>,
    indexes: &O,
    depth: nat,
    again: nat,
)
    requires
        forall|i: int|
            0 <= i < inputs.len() ==> (#[trigger] inputs[i]).steady(Layers::none(), indexes),
        all_rewritten(inputs, indexes, depth) is Some,
        all_rewritten(all_rewritten(inputs, indexes, depth).unwrap(), indexes, again) is Some,
    ensures
        all_rewritten(all_rewritten(inputs, indexes, depth).unwrap(), indexes, again)
            == all_rewritten(inputs, indexes, depth),
    decreases inputs, 0nat, 0nat,
{
    let once = all_rewritten(inputs, indexes, depth).unwrap();
    let twice = all_rewritten(once, indexes, again).unwrap();
    assert forall|i: int| 0 <= i < inputs.len() implies twice[i] == once[i] by {
        assert(inputs[i].steady(Layers::none(), indexes));
        assert(once[i].rewritten(Layers::none(), indexes, again) is Some);
        lemma_rewritten_stays(inputs[i], Layers::none(), indexes, depth, again);
    }
    assert(twice =~= once);
}

/// Applying the pass twice gives what applying it once gives: the second
/// run, if it does not fail, leaves the relation as the first run made it,
/// where the first run replaced no filter without installing a lookup.
pub proof fn lemma_transform_twice<O: IndexOracle>(relation: Relation, indexes: &O)
    requires
        relation.steady(Layers::none(), indexes),
        relation.rewritten(Layers::none(), indexes, 0) is Some,
        relation.rewritten(Layers::none(), indexes, 0).unwrap().rewritten(
            Layers::none(),
            indexes,
            0,
        ) is Some,
    ensures
        relation.rewritten(Layers::none(), indexes, 0).unwrap().rewritten(
            Layers::none(),
            indexes,
            0,
        ) == relation.rewritten(Layers::none(), indexes, 0),
{
    lemma_rewritten_stays(relation, Layers::none(), indexes, 0, 0);
}

} // verus!

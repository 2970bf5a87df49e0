//! The traversal of a relation expression that replaces each scan under
//! suitable filters by a lookup in an index.

use crate::index::{GlobalId, IndexOracle};
use crate::literal_constraints::{LiteralConstraints, ScanPlan, ScanRewrite};
use crate::mfp::{clone_columns, columns_view, MapFilterProject, Mfp};
use crate::relation::{
    lemma_view_join, lemma_view_union, relations_view, Database, Id, JoinImplementation, JoinPlan,
    Relation, RelationExpr,
};
use crate::rewrite_sound::lemma_transform_preserves_rows;
use crate::scalar::{
    clone_exprs, exprs_view, lists_view, Expr, RecursionLimitError, ScalarExpr, RECURSION_LIMIT,
};
use crate::value::{copy_row, rows_view, Value};
use vstd::prelude::*;

verus! {

/// The mathematical form of the operators, at most one of each kind, that
/// were taken off the top of a relation expression.
pub ghost struct Layers {
    /// The columns of the projection that was outermost.
    pub project: Option<Seq<nat>>,
    /// The predicates of the filter below it.
    pub filter: Option<Seq<Expr>>,
    /// The expressions of the map below that.
    pub map: Option<Seq<Expr>>,
}

/// The operators, at most one of each kind, that were taken off the top of
/// a relation expression: a projection, a filter below it, a map below
/// that.
#[derive(Debug)]
pub struct LayerStack {
    pub project: Option<Vec<usize>>,
    pub filter: Option<Vec<ScalarExpr>>,
    pub map: Option<Vec<ScalarExpr>>,
}

impl View for LayerStack {
    type V = Layers;

    open spec fn view(&self) -> Layers {
        Layers {
            project: match self.project {
                Some(outputs) => Some(columns_view(outputs@)),
                None => None,
            },
            filter: match self.filter {
                Some(predicates) => Some(exprs_view(predicates@)),
                None => None,
            },
            map: match self.map {
                Some(scalars) => Some(exprs_view(scalars@)),
                None => None,
            },
        }
    }
}

impl Layers {
    /// No operators.
    pub open spec fn none() -> Layers {
        Layers { project: None, filter: None, map: None }
    }

    /// The number of operators.
    pub open spec fn count(self) -> nat {
        (if self.project is Some {
            1nat
        } else {
            0nat
        }) + (if self.filter is Some {
            1nat
        } else {
            0nat
        }) + (if self.map is Some {
            1nat
        } else {
            0nat
        })
    }

    /// The relation with the operators put on top of it.
    pub open spec fn wrap(self, base: Relation) -> Relation {
        let mapped = match self.map {
            Some(scalars) => Relation::MapColumns { input: Box::new(base), scalars },
            None => base,
        };
        let filtered = match self.filter {
            Some(predicates) => Relation::Filter { input: Box::new(mapped), predicates },
            None => mapped,
        };
        match self.project {
            Some(outputs) => Relation::Project { input: Box::new(filtered), outputs },
            None => filtered,
        }
    }

    /// The map and the filter as one operator on rows of `arity` columns,
    /// which emits nothing of its own.
    pub open spec fn mfp(self, arity: nat) -> Mfp {
        Mfp {
            expressions: match self.map {
                Some(scalars) => scalars,
                None => Seq::empty(),
            },
            predicates: match self.filter {
                Some(predicates) => predicates,
                None => Seq::empty(),
            },
            projection: Seq::empty(),
            input_arity: arity,
        }
    }

    /// The operators to put on top of what the plan reads: those that were
    /// there if the plan keeps them, else the projection that was there over
    /// the filter and the map of the plan, as far as these do anything.
    pub open spec fn after(self, plan: ScanPlan) -> Layers {
        if plan.kept_given {
            self
        } else {
            Layers {
                project: self.project,
                filter: if plan.mfp.predicates.len() > 0 {
                    Some(plan.mfp.predicates)
                } else {
                    None
                },
                map: if plan.mfp.expressions.len() > 0 {
                    Some(plan.mfp.expressions)
                } else {
                    None
                },
            }
        }
    }
}

/// The columns from 0 up to `n`, as expressions.
pub open spec fn first_columns(n: nat) -> Seq<Expr> {
    Seq::new(n, |i: int| Expr::Column(i as nat))
}

/// The classes that equate each field of the key with the column of the
/// literal row that stands for it, behind the `arity` columns of the
/// collection.
pub open spec fn lookup_equivalences(key: Seq<Expr>, arity: nat) -> Seq<Seq<Expr>> {
    Seq::new(key.len(), |i: int| seq![key[i], Expr::Column(arity + i as nat)])
}

/// The join of the collection `id` with the literal rows, which keeps the
/// rows of the collection whose key is one of the literal rows, without the
/// columns of the literal rows.
pub open spec fn lookup_join(id: GlobalId, arity: nat, key: Seq<Expr>, rows: Seq<Seq<Value>>) -> Relation {
    Relation::Project {
        input: Box::new(
            Relation::Join {
                inputs: seq![
                    Relation::ArrangeBy {
                        input: Box::new(Relation::Get { id: Id::Global(id), arity }),
                        keys: seq![key],
                    },
                    Relation::ArrangeBy {
                        input: Box::new(Relation::Constant { rows, arity: key.len() }),
                        keys: seq![first_columns(key.len())],
                    },
                ],
                equivalences: lookup_equivalences(key, arity),
                implementation: JoinPlan::IndexedFilter(id, key, rows),
            },
        ),
        outputs: Seq::new(arity, |i: int| i as nat),
    }
}

/// What takes the place of a scan of the collection `id`, of `arity`
/// columns, under the operators `layers`, according to the plan.
pub open spec fn install(plan: ScanPlan, layers: Layers, id: GlobalId, arity: nat) -> Relation {
    let scan = Relation::Get { id: Id::Global(id), arity };
    match plan.lookup {
        Some((key, rows)) => if arity + key.len() <= usize::MAX {
            layers.after(plan).wrap(lookup_join(id, arity, key, rows))
        } else {
            layers.wrap(scan)
        },
        None => layers.after(plan).wrap(scan),
    }
}

impl Relation {
    /// The relation under the operators `layers`, with each scan of a
    /// collection of the catalog replaced by what is decided for it.
    /// `depth` is the number of operators above. `None` if the tree, or an
    /// expression that has to be measured, is nested too deeply.
    pub open spec fn rewritten<O: IndexOracle>(self, layers: Layers, indexes: &O, depth: nat) -> Option<
        Relation,
    >
        decreases self, layers.count(), 1nat,
    {
        if depth > RECURSION_LIMIT {
            None
        } else {
            match self {
                Relation::Project { input, outputs } => if layers.count() == 0 {
                    input.rewritten(
                        Layers { project: Some(outputs), filter: None, map: None },
                        indexes,
                        depth + 1,
                    )
                } else {
                    self.rewritten_below(layers, indexes, depth)
                },
                Relation::Filter { input, predicates } => if layers.filter is None && layers.map
                    is None {
                    input.rewritten(
                        Layers { filter: Some(predicates), ..layers },
                        indexes,
                        depth + 1,
                    )
                } else {
                    self.rewritten_below(layers, indexes, depth)
                },
                Relation::MapColumns { input, scalars } => if layers.map is None {
                    input.rewritten(Layers { map: Some(scalars), ..layers }, indexes, depth + 1)
                } else {
                    self.rewritten_below(layers, indexes, depth)
                },
                Relation::Get { id: Id::Global(id), arity } => match layers.mfp(arity).scan_plan(
                    indexes.keys_on(id),
                ) {
                    Some(plan) => Some(install(plan, layers, id, arity)),
                    None => None,
                },
                Relation::Get { .. } => Some(layers.wrap(self)),
                Relation::Constant { .. } => Some(layers.wrap(self)),
                Relation::Join { inputs, equivalences, implementation } => if all_rewritten(
                    inputs,
                    indexes,
                    depth + 1,
                ) is Some {
                    Some(
                        layers.wrap(
                            Relation::Join {
                                inputs: all_rewritten(inputs, indexes, depth + 1).unwrap(),
                                equivalences,
                                implementation,
                            },
                        ),
                    )
                } else {
                    None
                },
                Relation::ArrangeBy { input, keys } => match input.rewritten(
                    Layers::none(),
                    indexes,
                    depth + 1,
                ) {
                    Some(r) => Some(layers.wrap(Relation::ArrangeBy { input: Box::new(r), keys })),
                    None => None,
                },
                Relation::Union { inputs } => if all_rewritten(inputs, indexes, depth + 1)
                    is Some {
                    Some(
                        layers.wrap(
                            Relation::Union {
                                inputs: all_rewritten(inputs, indexes, depth + 1).unwrap(),
                            },
                        ),
                    )
                } else {
                    None
                },
            }
        }
    }

    /// The relation rewritten on its own, with the operators `layers` put
    /// on top of the result: for an operator that cannot join the layers
    /// that were taken off already.
    pub open spec fn rewritten_below<O: IndexOracle>(
        self,
        layers: Layers,
        indexes: &O,
        depth: nat,
    ) -> Option<Relation>
        decreases self, layers.count(), 0nat,
    {
        if layers.count() > 0 {
            match self.rewritten(Layers::none(), indexes, depth) {
                Some(r) => Some(layers.wrap(r)),
                None => None,
            }
        } else {
            None
        }
    }
}

/// Each of the relations rewritten; `None` if that fails for one of them.
pub open spec fn all_rewritten<O: IndexOracle>(inputs: Seq<Relation>, indexes: &O, depth: nat) -> Option<
    Seq<Relation>,
>
    decreases inputs, 0nat, 0nat,
{
    if forall|i: int|
        0 <= i < inputs.len() ==> (#[trigger] inputs[i]).rewritten(Layers::none(), indexes, depth)
            is Some {
        Some(
            Seq::new(
                inputs.len(),
                |i: int|
                    if 0 <= i < inputs.len() {
                        inputs[i].rewritten(Layers::none(), indexes, depth).unwrap()
                    } else {
                        Relation::Union { inputs: Seq::empty() }
                    },
            ),
        )
    } else {
        None
    }
}

/// A copy of the rows.
pub fn clone_rows(rows: &Vec<Vec<Value>>) -> (r: Vec<Vec<Value>>)
    ensures
        rows_view(r@) == rows_view(rows@),
{
    let mut out: Vec<Vec<Value>> = Vec::new();
    let mut i: usize = 0;
    while i < rows.len()
        invariant
            i <= rows.len(),
            out.len() == i,
            forall|j: int| 0 <= j < i ==> out@[j]@ == rows@[j]@,
        decreases rows.len() - i,
    {
        out.push(copy_row(&rows[i]));
        i += 1;
    }
    assert(rows_view(out@) =~= rows_view(rows@));
    out
}

/// A copy of the lists of expressions.
pub fn clone_lists(lists: &Vec<Vec<ScalarExpr>>) -> (r: Vec<Vec<ScalarExpr>>)
    ensures
        lists_view(r@) == lists_view(lists@),
{
    let mut out: Vec<Vec<ScalarExpr>> = Vec::new();
    let mut i: usize = 0;
    while i < lists.len()
        invariant
            i <= lists.len(),
            out.len() == i,
            forall|j: int| 0 <= j < i ==> exprs_view(out@[j]@) == exprs_view(lists@[j]@),
        decreases lists.len() - i,
    {
        out.push(clone_exprs(&lists[i]));
        i += 1;
    }
    assert(lists_view(out@) =~= lists_view(lists@));
    out
}

impl Clone for JoinImplementation {
    fn clone(&self) -> (r: Self)
        ensures
            r@ == self@,
    {
        match self {
            JoinImplementation::Unimplemented => JoinImplementation::Unimplemented,
            JoinImplementation::IndexedFilter(id, key, rows) => JoinImplementation::IndexedFilter(
                *id,
                clone_exprs(key),
                clone_rows(rows),
            ),
        }
    }
}

impl LayerStack {
    /// No operators.
    pub fn none() -> (r: LayerStack)
        ensures
            r@ == Layers::none(),
    {
        LayerStack { project: None, filter: None, map: None }
    }

    /// Whether there is no operator.
    pub fn is_empty(&self) -> (r: bool)
        ensures
            r == (self@.count() == 0),
    {
        self.project.is_none() && self.filter.is_none() && self.map.is_none()
    }

    /// The relation with the operators put on top of it.
    pub fn wrap(self, base: RelationExpr) -> (r: RelationExpr)
        ensures
            r@ == self@.wrap(base@),
    {
        reveal_with_fuel(RelationExpr::model, 4);
        let mapped = match self.map {
            Some(scalars) => RelationExpr::MapColumns { input: Box::new(base), scalars },
            None => base,
        };
        let filtered = match self.filter {
            Some(predicates) => RelationExpr::Filter { input: Box::new(mapped), predicates },
            None => mapped,
        };
        match self.project {
            Some(outputs) => RelationExpr::Project { input: Box::new(filtered), outputs },
            None => filtered,
        }
    }

    /// The map and the filter as one operator on rows of `arity` columns,
    /// which emits nothing of its own.
    pub fn mfp(&self, arity: usize) -> (r: MapFilterProject)
        ensures
            r@ == self@.mfp(arity as nat),
    {
        let expressions = match &self.map {
            Some(scalars) => clone_exprs(scalars),
            None => Vec::new(),
        };
        let predicates = match &self.filter {
            Some(predicates) => clone_exprs(predicates),
            None => Vec::new(),
        };
        let r = MapFilterProject {
            expressions,
            predicates,
            projection: Vec::new(),
            input_arity: arity,
        };
        assert(r@.expressions =~= self@.mfp(arity as nat).expressions);
        assert(r@.predicates =~= self@.mfp(arity as nat).predicates);
        assert(r@.projection =~= self@.mfp(arity as nat).projection);
        r
    }

    /// The operators to put on top of what the plan reads.
    pub fn after(self, plan: ScanRewrite) -> (r: (LayerStack, Option<
        (Vec<ScalarExpr>, Vec<Vec<Value>>),
    >))
        ensures
            r.0@ == self@.after(plan@),
            match r.1 {
                Some((key, rows)) => plan@.lookup == Some((exprs_view(key@), rows_view(rows@))),
                None => plan@.lookup is None,
            },
    {
        if plan.kept_given {
            (self, plan.lookup)
        } else {
            let filter = if plan.mfp.predicates.len() > 0 {
                Some(plan.mfp.predicates)
            } else {
                None
            };
            let map = if plan.mfp.expressions.len() > 0 {
                Some(plan.mfp.expressions)
            } else {
                None
            };
            (LayerStack { project: self.project, filter, map }, plan.lookup)
        }
    }
}

/// The join of the collection `id` with the literal rows `rows`, which
/// keeps the rows of the collection whose key is one of the literal rows,
/// without the columns of the literal rows.
pub fn make_lookup_join(id: GlobalId, arity: usize, key: Vec<ScalarExpr>, rows: Vec<Vec<Value>>) -> (r:
    RelationExpr)
    requires
        arity + key.len() <= usize::MAX,
    ensures
        r@ == lookup_join(id, arity as nat, exprs_view(key@), rows_view(rows@)),
{
    let ghost fields = exprs_view(key@);
    reveal_with_fuel(RelationExpr::model, 3);
    // The collection, arranged by the key.
    let mut scan_keys: Vec<Vec<ScalarExpr>> = Vec::new();
    scan_keys.push(clone_exprs(&key));
    assert(lists_view(scan_keys@) =~= seq![fields]);
    let scan = RelationExpr::ArrangeBy {
        input: Box::new(RelationExpr::Get { id: Id::Global(id), arity }),
        keys: scan_keys,
    };
    // The literal rows, arranged by all their columns.
    let mut columns: Vec<ScalarExpr> = Vec::new();
    let mut equivalences: Vec<Vec<ScalarExpr>> = Vec::new();
    let mut i: usize = 0;
    while i < key.len()
        invariant
            i <= key.len(),
            arity + key.len() <= usize::MAX,
            fields == exprs_view(key@),
            columns.len() == i,
            equivalences.len() == i,
            forall|j: int| 0 <= j < i ==> columns@[j]@ == Expr::Column(j as nat),
            forall|j: int|
                0 <= j < i ==> exprs_view(equivalences@[j]@) == seq![
                    fields[j],
                    Expr::Column(arity as nat + j as nat),
                ],
        decreases key.len() - i,
    {
        columns.push(ScalarExpr::column(i));
        let mut class: Vec<ScalarExpr> = Vec::new();
        class.push(key[i].clone());
        class.push(ScalarExpr::column(arity + i));
        assert(exprs_view(class@) =~= seq![fields[i as int], Expr::Column(arity as nat + i as nat)]);
        equivalences.push(class);
        i += 1;
    }
    assert(exprs_view(columns@) =~= first_columns(fields.len()));
    assert(lists_view(equivalences@) =~= lookup_equivalences(fields, arity as nat));
    let mut row_keys: Vec<Vec<ScalarExpr>> = Vec::new();
    row_keys.push(columns);
    assert(lists_view(row_keys@) =~= seq![first_columns(fields.len())]);
    let filter_list = RelationExpr::ArrangeBy {
        input: Box::new(RelationExpr::Constant { rows: clone_rows(&rows), arity: key.len() }),
        keys: row_keys,
    };
    // The collection has to come first and the literal rows second.
    let mut inputs: Vec<RelationExpr> = Vec::new();
    inputs.push(scan);
    inputs.push(filter_list);
    assert(relations_view(inputs@) =~= seq![scan@, filter_list@]);
    let implementation = JoinImplementation::IndexedFilter(id, key, rows);
    proof {
        lemma_view_join(inputs, equivalences, implementation);
    }
    let join = RelationExpr::Join { inputs, equivalences, implementation };
    // Keep the columns of the collection only.
    let mut outputs: Vec<usize> = Vec::new();
    let mut c: usize = 0;
    while c < arity
        invariant
            c <= arity,
            outputs.len() == c,
            forall|j: int| 0 <= j < c ==> outputs@[j] == j,
        decreases arity - c,
    {
        outputs.push(c);
        c += 1;
    }
    assert(columns_view(outputs@) =~= Seq::new(arity as nat, |i: int| i as nat));
    RelationExpr::Project { input: Box::new(join), outputs }
}

impl LiteralConstraints {
    /// Puts in the place of a scan of the collection `id`, of `arity`
    /// columns, under the operators `layers`, what the plan says.
    pub fn install(plan: ScanRewrite, layers: LayerStack, id: GlobalId, arity: usize) -> (r:
        RelationExpr)
        ensures
            r@ == install(plan@, layers@, id, arity as nat),
    {
        let scan = RelationExpr::Get { id: Id::Global(id), arity };
        let fits = match &plan.lookup {
            Some((key, _)) => key.len() <= usize::MAX - arity,
            None => true,
        };
        if !fits {
            return layers.wrap(scan);
        }
        let (on_top, lookup) = layers.after(plan);
        match lookup {
            Some((key, rows)) => on_top.wrap(make_lookup_join(id, arity, key, rows)),
            None => on_top.wrap(scan),
        }
    }

    /// Rewrites each of the relations `inputs`, which stand `depth`
    /// operators below the root.
    pub fn action_all<O: IndexOracle>(inputs: &Vec<RelationExpr>, indexes: &O, depth: usize) -> (r:
        Result<Vec<RelationExpr>, RecursionLimitError>)
        ensures
            match r {
                Ok(out) => all_rewritten(relations_view(inputs@), indexes, depth as nat) == Some(
                    relations_view(out@),
                ),
                Err(e) => all_rewritten(relations_view(inputs@), indexes, depth as nat) is None
                    && e.limit == RECURSION_LIMIT,
            },
        decreases inputs, 0nat, 0nat,
    {
        let ghost old_inputs = relations_view(inputs@);
        let mut new_inputs: Vec<RelationExpr> = Vec::new();
        let mut i: usize = 0;
        while i < inputs.len()
            invariant
                i <= inputs.len(),
                old_inputs == relations_view(inputs@),
                new_inputs.len() == i,
                forall|j: int|
                    0 <= j < i ==> (#[trigger] old_inputs[j]).rewritten(
                        Layers::none(),
                        indexes,
                        depth as nat,
                    ) == Some(new_inputs@[j]@),
            decreases inputs.len() - i,
        {
            match Self::action(&inputs[i], LayerStack::none(), indexes, depth) {
                Ok(r) => {
                    new_inputs.push(r);
                },
                Err(e) => {
                    assert(old_inputs[i as int].rewritten(Layers::none(), indexes, depth as nat)
                        is None);
                    return Err(e);
                },
            }
            i += 1;
        }
        assert(relations_view(new_inputs@) =~= all_rewritten(
            old_inputs,
            indexes,
            depth as nat,
        ).unwrap());
        Ok(new_inputs)
    }

    /// Rewrites the relation `relation` on its own and puts the operators
    /// `layers` on top of the result.
    pub fn action_below<O: IndexOracle>(
        relation: &RelationExpr,
        layers: LayerStack,
        indexes: &O,
        depth: usize,
    ) -> (r: Result<RelationExpr, RecursionLimitError>)
        requires
            layers@.count() > 0,
        ensures
            match r {
                Ok(out) => relation@.rewritten_below(layers@, indexes, depth as nat) == Some(out@),
                Err(e) => relation@.rewritten_below(layers@, indexes, depth as nat) is None
                    && e.limit == RECURSION_LIMIT,
            },
        decreases relation, layers@.count(), 0nat,
    {
        match Self::action(relation, LayerStack::none(), indexes, depth) {
            Ok(r) => Ok(layers.wrap(r)),
            Err(e) => Err(e),
        }
    }

    /// Decides what takes the place of a scan of the collection `id`, of
    /// `arity` columns, under the operators `layers`.
    pub fn action_scan<O: IndexOracle>(layers: LayerStack, id: GlobalId, arity: usize, indexes: &O) -> (r:
        Result<RelationExpr, RecursionLimitError>)
        ensures
            match r {
                Ok(out) => layers@.mfp(arity as nat).scan_plan(indexes.keys_on(id)) is Some
                    && out@ == install(
                    layers@.mfp(arity as nat).scan_plan(indexes.keys_on(id)).unwrap(),
                    layers@,
                    id,
                    arity as nat,
                ),
                Err(e) => layers@.mfp(arity as nat).scan_plan(indexes.keys_on(id)) is None
                    && e.limit == RECURSION_LIMIT,
            },
    {
        let mfp = layers.mfp(arity);
        match Self::plan_scan(&mfp, id, indexes) {
            Ok(plan) => Ok(Self::install(plan, layers, id, arity)),
            Err(e) => Err(e),
        }
    }

    /// Rewrites the relation `relation`, which stands under the operators
    /// `layers` and `depth` operators below the root: each scan of a
    /// collection of the catalog under a map, a filter and a projection is
    /// replaced by what `plan_scan` decides for it. Fails if the tree, or an
    /// expression that has to be measured, is nested too deeply.
    pub fn action<O: IndexOracle>(
        relation: &RelationExpr,
        layers: LayerStack,
        indexes: &O,
        depth: usize,
    ) -> (r: Result<RelationExpr, RecursionLimitError>)
        ensures
            match r {
                Ok(out) => relation@.rewritten(layers@, indexes, depth as nat) == Some(out@),
                Err(e) => relation@.rewritten(layers@, indexes, depth as nat) is None && e.limit
                    == RECURSION_LIMIT,
            },
        decreases relation, layers@.count(), 1nat,
    {
        if depth > RECURSION_LIMIT {
            return Err(RecursionLimitError { limit: RECURSION_LIMIT });
        }
        match relation {
            RelationExpr::Project { input, outputs } => {
                if layers.is_empty() {
                    Self::action(
                        input,
                        LayerStack { project: Some(clone_columns(outputs)), filter: None, map: None },
                        indexes,
                        depth + 1,
                    )
                } else {
                    Self::action_below(relation, layers, indexes, depth)
                }
            },
            RelationExpr::Filter { input, predicates } => {
                if layers.filter.is_none() && layers.map.is_none() {
                    Self::action(
                        input,
                        LayerStack {
                            project: layers.project,
                            filter: Some(clone_exprs(predicates)),
                            map: None,
                        },
                        indexes,
                        depth + 1,
                    )
                } else {
                    Self::action_below(relation, layers, indexes, depth)
                }
            },
            RelationExpr::MapColumns { input, scalars } => {
                if layers.map.is_none() {
                    Self::action(
                        input,
                        LayerStack {
                            project: layers.project,
                            filter: layers.filter,
                            map: Some(clone_exprs(scalars)),
                        },
                        indexes,
                        depth + 1,
                    )
                } else {
                    Self::action_below(relation, layers, indexes, depth)
                }
            },
            RelationExpr::Get { id: Id::Global(id), arity } => Self::action_scan(
                layers,
                *id,
                *arity,
                indexes,
            ),
            RelationExpr::Get { id, arity } => Ok(
                layers.wrap(RelationExpr::Get { id: *id, arity: *arity }),
            ),
            RelationExpr::Constant { rows, arity } => Ok(
                layers.wrap(RelationExpr::Constant { rows: clone_rows(rows), arity: *arity }),
            ),
            RelationExpr::Join { inputs, equivalences, implementation } => {
                proof {
                    lemma_view_join(*inputs, *equivalences, *implementation);
                }
                match Self::action_all(inputs, indexes, depth + 1) {
                    Ok(new_inputs) => {
                        let equivalences = clone_lists(equivalences);
                        let implementation = implementation.clone();
                        proof {
                            lemma_view_join(new_inputs, equivalences, implementation);
                        }
                        Ok(
                            layers.wrap(
                                RelationExpr::Join {
                                    inputs: new_inputs,
                                    equivalences,
                                    implementation,
                                },
                            ),
                        )
                    },
                    Err(e) => Err(e),
                }
            },
            RelationExpr::ArrangeBy { input, keys } => {
                match Self::action(input, LayerStack::none(), indexes, depth + 1) {
                    Ok(r) => Ok(
                        layers.wrap(
                            RelationExpr::ArrangeBy { input: Box::new(r), keys: clone_lists(keys) },
                        ),
                    ),
                    Err(e) => Err(e),
                }
            },
            RelationExpr::Union { inputs } => {
                proof {
                    lemma_view_union(*inputs);
                }
                match Self::action_all(inputs, indexes, depth + 1) {
                    Ok(new_inputs) => {
                        proof {
                            lemma_view_union(new_inputs);
                        }
                        Ok(layers.wrap(RelationExpr::Union { inputs: new_inputs }))
                    },
                    Err(e) => Err(e),
                }
            },
        }
    }

    /// Rewrites the relation in place: each scan of a collection of the
    /// catalog under a map, a filter and a projection is replaced by a
    /// lookup in an index where the filter fixes the key of an index to
    /// literals. The relation yields the same rows after as before. Fails,
    /// and leaves the relation as it is, if the tree, or an expression that
    /// has to be measured, is nested too deeply.
    pub fn transform<O: IndexOracle>(&self, relation: &mut RelationExpr, indexes: &O) -> (r: Result<
        (),
        RecursionLimitError,
    >)
        ensures
            match r {
                Ok(_) => {
                    &&& old(relation)@.rewritten(Layers::none(), indexes, 0) == Some(
                        final(relation)@,
                    )
                    &&& old(relation)@.wf() && old(relation)@.keys_fit(indexes) ==> forall|
                        db: Database,
                    |
                        old(relation)@.fits(db) ==> #[trigger] final(relation)@.rows(db) == old(
                            relation,
                        )@.rows(db)
                },
                Err(e) => old(relation)@.rewritten(Layers::none(), indexes, 0) is None
                    && *final(relation) == *old(relation) && e.limit == RECURSION_LIMIT,
            },
    {
        let ghost before = relation@;
        match Self::action(relation, LayerStack::none(), indexes, 0) {
            Ok(out) => {
                proof {
                    if before.wf() && before.keys_fit(indexes) {
                        assert forall|db: Database| before.fits(db) implies #[trigger] out@.rows(db)
                            == before.rows(db) by {
                            lemma_transform_preserves_rows(before, indexes, db);
                        }
                    }
                }
                *relation = out;
                Ok(())
            },
            Err(e) => Err(e),
        }
    }
}

} // verus!

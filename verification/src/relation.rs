//! Relation expressions: trees of operators over collections of rows, and
//! the rows that such a tree yields on a database.

use crate::index::GlobalId;
use crate::mfp::{all_hold, columns_view, extend_by, project_row};
use crate::scalar::{exprs_view, lists_view, Expr, ScalarExpr};
use crate::value::{rows_view, Value};
use vstd::prelude::*;

verus! {

/// The name of a collection that a relation expression reads.
#[derive(Clone, Copy, PartialEq, Eq, Structural, Debug)]
pub enum Id {
    /// A collection that the surrounding plan binds.
    Local(u64),
    /// A collection of the catalog.
    Global(GlobalId),
}

/// The mathematical form of the way in which a join is carried out.
pub ghost enum JoinPlan {
    Unimplemented,
    IndexedFilter(GlobalId, Seq<Expr>, Seq<Seq<Value>>),
}

/// The way in which a join is carried out.
#[derive(Debug, PartialEq, Eq)]
pub enum JoinImplementation {
    /// Not decided yet.
    Unimplemented,
    /// The join restricts a collection to the rows whose key is one of the
    /// given literal rows, which are looked up in an index with that key:
    /// the collection, the key, and the literal rows.
    IndexedFilter(GlobalId, Vec<ScalarExpr>, Vec<Vec<Value>>),
}

/// The mathematical form of a relation expression.
pub ghost enum Relation {
    Constant { rows: Seq<Seq<Value>>, arity: nat },
    Get { id: Id, arity: nat },
    Project { input: Box<Relation>, outputs: Seq<nat> },
    MapColumns { input: Box<Relation>, scalars: Seq<Expr> },
    Filter { input: Box<Relation>, predicates: Seq<Expr> },
    Join { inputs: Seq<Relation>, equivalences: Seq<Seq<Expr>>, implementation: JoinPlan },
    ArrangeBy { input: Box<Relation>, keys: Seq<Seq<Expr>> },
    Union { inputs: Seq<Relation> },
}

/// A relation expression.
#[derive(Debug, PartialEq, Eq)]
pub enum RelationExpr {
    /// The given rows, each once for each time it is listed.
    Constant { rows: Vec<Vec<Value>>, arity: usize },
    /// The rows of a collection, which have `arity` columns.
    Get { id: Id, arity: usize },
    /// Of each row, the columns `outputs`, in that order.
    Project { input: Box<RelationExpr>, outputs: Vec<usize> },
    /// Each row with one more column for each of `scalars`, each computed
    /// on the row as extended so far.
    MapColumns { input: Box<RelationExpr>, scalars: Vec<ScalarExpr> },
    /// The rows on which every predicate holds.
    Filter { input: Box<RelationExpr>, predicates: Vec<ScalarExpr> },
    /// The concatenations of one row from each input on which, in each
    /// class of `equivalences`, all expressions have the same value, which
    /// is not null.
    Join {
        inputs: Vec<RelationExpr>,
        equivalences: Vec<Vec<ScalarExpr>>,
        implementation: JoinImplementation,
    },
    /// The rows of the input, kept ready for lookups by each of `keys`.
    ArrangeBy { input: Box<RelationExpr>, keys: Vec<Vec<ScalarExpr>> },
    /// The rows of all inputs.
    Union { inputs: Vec<RelationExpr> },
}

impl View for JoinImplementation {
    type V = JoinPlan;

    open spec fn view(&self) -> JoinPlan {
        match self {
            JoinImplementation::Unimplemented => JoinPlan::Unimplemented,
            JoinImplementation::IndexedFilter(id, key, rows) => JoinPlan::IndexedFilter(
                *id,
                exprs_view(key@),
                rows_view(rows@),
            ),
        }
    }
}

impl RelationExpr {
    /// The relation expression as a mathematical value.
    pub open spec fn model(self) -> Relation
        decreases self,
    {
        match self {
            RelationExpr::Constant { rows, arity } => Relation::Constant {
                rows: rows_view(rows@),
                arity: arity as nat,
            },
            RelationExpr::Get { id, arity } => Relation::Get { id, arity: arity as nat },
            RelationExpr::Project { input, outputs } => Relation::Project {
                input: Box::new(input.model()),
                outputs: columns_view(outputs@),
            },
            RelationExpr::MapColumns { input, scalars } => Relation::MapColumns {
                input: Box::new(input.model()),
                scalars: exprs_view(scalars@),
            },
            RelationExpr::Filter { input, predicates } => Relation::Filter {
                input: Box::new(input.model()),
                predicates: exprs_view(predicates@),
            },
            RelationExpr::Join { inputs, equivalences, implementation } => Relation::Join {
                inputs: Seq::new(
                    inputs@.len(),
                    |i: int|
                        if 0 <= i < inputs@.len() {
                            inputs@[i].model()
                        } else {
                            Relation::Union { inputs: Seq::empty() }
                        },
                ),
                equivalences: lists_view(equivalences@),
                implementation: implementation@,
            },
            RelationExpr::ArrangeBy { input, keys } => Relation::ArrangeBy {
                input: Box::new(input.model()),
                keys: lists_view(keys@),
            },
            RelationExpr::Union { inputs } => Relation::Union {
                inputs: Seq::new(
                    inputs@.len(),
                    |i: int|
                        if 0 <= i < inputs@.len() {
                            inputs@[i].model()
                        } else {
                            Relation::Union { inputs: Seq::empty() }
                        },
                ),
            },
        }
    }
}

impl View for RelationExpr {
    type V = Relation;

    open spec fn view(&self) -> Relation {
        self.model()
    }
}

/// The mathematical forms of a sequence of relation expressions.
pub open spec fn relations_view(relations: Seq<RelationExpr>) -> Seq<Relation> {
    Seq::new(relations.len(), |i: int| relations[i]@)
}

/// The view of a join is the join of the views of its inputs.
pub proof fn lemma_view_join(
    inputs: Vec<RelationExpr>,
    equivalences: Vec<Vec<ScalarExpr>>,
    implementation: JoinImplementation,
)
    ensures
        (RelationExpr::Join { inputs, equivalences, implementation })@ == (Relation::Join {
            inputs: relations_view(inputs@),
            equivalences: lists_view(equivalences@),
            implementation: implementation@,
        }),
{
    let r = RelationExpr::Join { inputs, equivalences, implementation };
    assert(r@->Join_inputs =~= relations_view(inputs@));
}

/// The view of a union is the union of the views of its inputs.
pub proof fn lemma_view_union(inputs: Vec<RelationExpr>)
    ensures
        (RelationExpr::Union { inputs })@ == (Relation::Union { inputs: relations_view(inputs@) }),
{
    let r = RelationExpr::Union { inputs };
    assert(r@->Union_inputs =~= relations_view(inputs@));
}

/// What the collections hold: for each of them a sequence of rows, in
/// which a row stands once for each time that the collection holds it.
pub type Database = Map<Id, Seq<Seq<Value>>>;

/// The sum of a sequence of numbers.
pub open spec fn total(s: Seq<nat>) -> nat {
    crate::scalar::sum(s)
}

/// The sequences of a sequence, one after the other.
pub open spec fn concat_all(parts: Seq<Seq<Seq<Value>>>) -> Seq<Seq<Value>>
    decreases parts.len(),
{
    if parts.len() == 0 {
        Seq::empty()
    } else {
        concat_all(parts.drop_last()) + parts.last()
    }
}

/// Each row of `left` followed by each row of `right`: for the first row of
/// `left` all rows of `right` in turn, then for the second, and so on.
pub open spec fn cross(left: Seq<Seq<Value>>, right: Seq<Seq<Value>>) -> Seq<Seq<Value>>
    decreases left.len(),
{
    if left.len() == 0 {
        Seq::empty()
    } else {
        cross(left.drop_last(), right) + right.map_values(|t: Seq<Value>| left.last() + t)
    }
}

/// The concatenations of one row from each of the sequences of rows.
pub open spec fn cross_all(parts: Seq<Seq<Seq<Value>>>) -> Seq<Seq<Value>>
    decreases parts.len(),
{
    if parts.len() == 0 {
        seq![Seq::empty()]
    } else {
        cross(cross_all(parts.drop_last()), parts.last())
    }
}

/// Whether the expressions of the class all have the same value on the
/// row, and that value is not null.
pub open spec fn class_agrees(class: Seq<Expr>, row: Seq<Value>) -> bool {
    forall|i: int, j: int|
        0 <= i < class.len() && 0 <= j < class.len() ==> (#[trigger] class[i]).eval(row) == (
        #[trigger] class[j]).eval(row) && class[i].eval(row) != Value::Null
}

/// Whether every class of equivalences agrees on the row.
pub open spec fn equivalences_hold(equivalences: Seq<Seq<Expr>>, row: Seq<Value>) -> bool {
    forall|k: int| 0 <= k < equivalences.len() ==> class_agrees(#[trigger] equivalences[k], row)
}

impl Relation {
    /// The number of columns of the rows of the relation.
    pub open spec fn arity(self) -> nat
        decreases self,
    {
        match self {
            Relation::Constant { arity, .. } => arity,
            Relation::Get { arity, .. } => arity,
            Relation::Project { outputs, .. } => outputs.len(),
            Relation::MapColumns { input, scalars } => input.arity() + scalars.len(),
            Relation::Filter { input, .. } => input.arity(),
            Relation::Join { inputs, .. } => total(arities(inputs)),
            Relation::ArrangeBy { input, .. } => input.arity(),
            Relation::Union { inputs } => if inputs.len() == 0 {
                0
            } else {
                inputs[0].arity()
            },
        }
    }

    /// Whether no expression of the tree reads a column that its input does
    /// not have, and all rows that are written out have the stated number
    /// of columns.
    pub open spec fn wf(self) -> bool
        decreases self,
    {
        match self {
            Relation::Constant { rows, arity } => forall|i: int|
                0 <= i < rows.len() ==> (#[trigger] rows[i]).len() == arity,
            Relation::Get { .. } => true,
            Relation::Project { input, outputs } => input.wf() && forall|i: int|
                0 <= i < outputs.len() ==> #[trigger] outputs[i] < input.arity(),
            Relation::MapColumns { input, scalars } => input.wf() && forall|i: int|
                0 <= i < scalars.len() ==> (#[trigger] scalars[i]).reads_below(
                    input.arity() + i as nat,
                ),
            Relation::Filter { input, predicates } => input.wf() && forall|i: int|
                0 <= i < predicates.len() ==> (#[trigger] predicates[i]).reads_below(input.arity()),
            Relation::Join { inputs, equivalences, .. } => {
                &&& forall|i: int| 0 <= i < inputs.len() ==> (#[trigger] inputs[i]).wf()
                &&& forall|k: int, i: int|
                    0 <= k < equivalences.len() && 0 <= i < equivalences[k].len() ==> (
                    #[trigger] equivalences[k][i]).reads_below(total(arities(inputs)))
            },
            Relation::ArrangeBy { input, keys } => input.wf() && forall|k: int, i: int|
                0 <= k < keys.len() && 0 <= i < keys[k].len() ==> (
                #[trigger] keys[k][i]).reads_below(input.arity()),
            Relation::Union { inputs } => forall|i: int|
                0 <= i < inputs.len() ==> (#[trigger] inputs[i]).wf() && inputs[i].arity()
                    == inputs[0].arity(),
        }
    }

    /// Whether the collections that the tree reads hold rows with the
    /// number of columns that the tree expects of them.
    pub open spec fn fits(self, db: Database) -> bool
        decreases self,
    {
        match self {
            Relation::Constant { .. } => true,
            Relation::Get { id, arity } => db.contains_key(id) ==> forall|i: int|
                0 <= i < db[id].len() ==> (#[trigger] db[id][i]).len() == arity,
            Relation::Project { input, .. } => input.fits(db),
            Relation::MapColumns { input, .. } => input.fits(db),
            Relation::Filter { input, .. } => input.fits(db),
            Relation::Join { inputs, .. } => forall|i: int|
                0 <= i < inputs.len() ==> (#[trigger] inputs[i]).fits(db),
            Relation::ArrangeBy { input, .. } => input.fits(db),
            Relation::Union { inputs } => forall|i: int|
                0 <= i < inputs.len() ==> (#[trigger] inputs[i]).fits(db),
        }
    }

    /// The rows that the relation yields on a database, a row once for each
    /// time that the relation yields it.
    pub open spec fn rows(self, db: Database) -> Seq<Seq<Value>>
        decreases self,
    {
        match self {
            Relation::Constant { rows, .. } => rows,
            Relation::Get { id, .. } => if db.contains_key(id) {
                db[id]
            } else {
                Seq::empty()
            },
            Relation::Project { input, outputs } => input.rows(db).map_values(
                |r: Seq<Value>| project_row(outputs, r),
            ),
            Relation::MapColumns { input, scalars } => input.rows(db).map_values(
                |r: Seq<Value>| extend_by(scalars, r),
            ),
            Relation::Filter { input, predicates } => input.rows(db).filter(
                |r: Seq<Value>| all_hold(predicates, r),
            ),
            Relation::Join { inputs, equivalences, .. } => cross_all(rows_of_all(inputs, db)).filter(
                |r: Seq<Value>| equivalences_hold(equivalences, r),
            ),
            Relation::ArrangeBy { input, .. } => input.rows(db),
            Relation::Union { inputs } => concat_all(rows_of_all(inputs, db)),
        }
    }
}

/// The numbers of columns of a sequence of relations.
pub open spec fn arities(inputs: Seq<Relation>) -> Seq<nat>
    decreases inputs,
{
    Seq::new(
        inputs.len(),
        |i: int|
            if 0 <= i < inputs.len() {
                inputs[i].arity()
            } else {
                0
            },
    )
}

/// The rows that each of a sequence of relations yields.
pub open spec fn rows_of_all(inputs: Seq<Relation>, db: Database) -> Seq<Seq<Seq<Value>>>
    decreases inputs,
{
    Seq::new(
        inputs.len(),
        |i: int|
            if 0 <= i < inputs.len() {
                inputs[i].rows(db)
            } else {
                Seq::empty()
            },
    )
}

} // verus!

//! Evaluation of relation expressions on collections held in memory.

use crate::eval::{extend_row, predicates_hold, select_columns};
use crate::mfp::{all_hold, columns_view, extend_by, project_row};
use crate::relation::{
    class_agrees, concat_all, cross, cross_all, equivalences_hold, lemma_view_join,
    lemma_view_union, relations_view, rows_of_all, Database, Id, Relation, RelationExpr,
};
use crate::scalar::{exprs_view, lists_view, Expr, ScalarExpr};
use crate::value::{copy_row, rows_view, Value};
use vstd::prelude::*;

verus! {

/// Collections held in memory: for each of them its rows, a row once for
/// each time that the collection holds it.
#[derive(Debug)]
pub struct Collections {
    /// The collections in the order in which they were added. Of two with
    /// the same name the later one counts.
    pub tables: Vec<(Id, Vec<Vec<Value>>)>,
}

/// The database that a list of named collections stands for.
pub open spec fn database_of(tables: Seq<(Id, Vec<Vec<Value>>)>) -> Database
    decreases tables.len(),
{
    if tables.len() == 0 {
        Map::empty()
    } else {
        database_of(tables.drop_last()).insert(tables.last().0, rows_view(tables.last().1@))
    }
}

impl View for Collections {
    type V = Database;

    open spec fn view(&self) -> Database {
        database_of(self.tables@)
    }
}

impl Collections {
    /// No collections.
    pub fn new() -> (r: Collections)
        ensures
            r@ == Map::<Id, Seq<Seq<Value>>>::empty(),
    {
        Collections { tables: Vec::new() }
    }

    /// Adds the collection `id` with the given rows, in the place of any
    /// collection of that name.
    pub fn insert(&mut self, id: Id, rows: Vec<Vec<Value>>)
        ensures
            final(self)@ == old(self)@.insert(id, rows_view(rows@)),
    {
        let ghost before = self.tables@;
        self.tables.push((id, rows));
        assert(self.tables@.drop_last() =~= before);
    }

    /// The rows of the collection `id`, if there is such a collection.
    pub fn get(&self, id: Id) -> (r: Option<&Vec<Vec<Value>>>)
        ensures
            match r {
                Some(rows) => self@.contains_key(id) && self@[id] == rows_view(rows@),
                None => !self@.contains_key(id),
            },
    {
        let mut i: usize = self.tables.len();
        assert(self.tables@.take(i as int) =~= self.tables@);
        while i > 0
            invariant
                i <= self.tables.len(),
                database_of(self.tables@.take(i as int)).contains_key(id) == self@.contains_key(id),
                self@.contains_key(id) ==> database_of(self.tables@.take(i as int))[id] == self@[id],
            decreases i,
        {
            proof {
                let upto = self.tables@.take(i as int);
                assert(upto.drop_last() =~= self.tables@.take(i as int - 1));
                assert(upto.last() == self.tables@[i as int - 1]);
            }
            if self.tables[i - 1].0 == id {
                return Some(&self.tables[i - 1].1);
            }
            i -= 1;
        }
        None
    }
}

/// A copy of the rows.
fn copy_rows(rows: &Vec<Vec<Value>>) -> (r: Vec<Vec<Value>>)
    ensures
        rows_view(r@) == rows_view(rows@),
{
    let mut out: Vec<Vec<Value>> = Vec::new();
    let mut i: usize = 0;
    while i < rows.len()
        invariant
            i <= rows.len(),
            out.len() == i,
            forall|j: int| 0 <= j < i ==> out@[j]@ == rows@[j]@,
        decreases rows.len() - i,
    {
        out.push(copy_row(&rows[i]));
        i += 1;
    }
    assert(rows_view(out@) =~= rows_view(rows@));
    out
}

/// Of each row the columns `outputs`.
fn project_rows(rows: &Vec<Vec<Value>>, outputs: &Vec<usize>) -> (r: Vec<Vec<Value>>)
    ensures
        rows_view(r@) == rows_view(rows@).map_values(
            |row: Seq<Value>| project_row(columns_view(outputs@), row),
        ),
{
    let mut out: Vec<Vec<Value>> = Vec::new();
    let mut i: usize = 0;
    while i < rows.len()
        invariant
            i <= rows.len(),
            out.len() == i,
            forall|j: int|
                0 <= j < i ==> out@[j]@ == project_row(columns_view(outputs@), rows@[j]@),
        decreases rows.len() - i,
    {
        out.push(select_columns(outputs, &rows[i]));
        i += 1;
    }
    assert(rows_view(out@) =~= rows_view(rows@).map_values(
        |row: Seq<Value>| project_row(columns_view(outputs@), row),
    ));
    out
}

/// Each row with the columns that `scalars` compute.
fn map_rows(rows: &Vec<Vec<Value>>, scalars: &Vec<ScalarExpr>) -> (r: Vec<Vec<Value>>)
    ensures
        rows_view(r@) == rows_view(rows@).map_values(
            |row: Seq<Value>| extend_by(exprs_view(scalars@), row),
        ),
{
    let mut out: Vec<Vec<Value>> = Vec::new();
    let mut i: usize = 0;
    while i < rows.len()
        invariant
            i <= rows.len(),
            out.len() == i,
            forall|j: int| 0 <= j < i ==> out@[j]@ == extend_by(exprs_view(scalars@), rows@[j]@),
        decreases rows.len() - i,
    {
        out.push(extend_row(scalars, &rows[i]));
        i += 1;
    }
    assert(rows_view(out@) =~= rows_view(rows@).map_values(
        |row: Seq<Value>| extend_by(exprs_view(scalars@), row),
    ));
    out
}

/// The rows on which every predicate holds.
fn filter_rows(rows: &Vec<Vec<Value>>, predicates: &Vec<ScalarExpr>) -> (r: Vec<Vec<Value>>)
    ensures
        rows_view(r@) == rows_view(rows@).filter(
            |row: Seq<Value>| all_hold(exprs_view(predicates@), row),
        ),
{
    let ghost all = rows_view(rows@);
    let ghost keep = |row: Seq<Value>| all_hold(exprs_view(predicates@), row);
    let mut out: Vec<Vec<Value>> = Vec::new();
    let mut i: usize = 0;
    proof {
        reveal(Seq::filter);
        assert(all.take(0).filter(keep) =~= Seq::<Seq<Value>>::empty());
        assert(rows_view(out@) =~= Seq::<Seq<Value>>::empty());
    }
    while i < rows.len()
        invariant
            i <= rows.len(),
            all == rows_view(rows@),
            keep == |row: Seq<Value>| all_hold(exprs_view(predicates@), row),
            rows_view(out@) == all.take(i as int).filter(keep),
        decreases rows.len() - i,
    {
        let ghost before = rows_view(out@);
        proof {
            reveal(Seq::filter);
            assert(all.take(i as int + 1).drop_last() =~= all.take(i as int));
            assert(all.take(i as int + 1).last() == rows@[i as int]@);
        }
        if predicates_hold(predicates, &rows[i]) {
            let copy = copy_row(&rows[i]);
            out.push(copy);
            assert(rows_view(out@) =~= before.push(rows@[i as int]@));
        }
        i += 1;
    }
    assert(all.take(rows.len() as int) =~= all);
    out
}

/// Each row of `left` followed by each row of `right`.
fn cross_rows(left: &Vec<Vec<Value>>, right: &Vec<Vec<Value>>) -> (r: Vec<Vec<Value>>)
    ensures
        rows_view(r@) == cross(rows_view(left@), rows_view(right@)),
{
    let ghost lefts = rows_view(left@);
    let ghost rights = rows_view(right@);
    let mut out: Vec<Vec<Value>> = Vec::new();
    let mut i: usize = 0;
    assert(rows_view(out@) =~= cross(lefts.take(0), rights));
    while i < left.len()
        invariant
            i <= left.len(),
            lefts == rows_view(left@),
            rights == rows_view(right@),
            rows_view(out@) == cross(lefts.take(i as int), rights),
        decreases left.len() - i,
    {
        let ghost done = rows_view(out@);
        let ghost first = left@[i as int]@;
        let mut j: usize = 0;
        assert(rows_view(out@) =~= done + rights.take(0).map_values(|t: Seq<Value>| first + t));
        while j < right.len()
            invariant
                j <= right.len(),
                i < left.len(),
                rights == rows_view(right@),
                first == left@[i as int]@,
                rows_view(out@) == done + rights.take(j as int).map_values(
                    |t: Seq<Value>| first + t,
                ),
            decreases right.len() - j,
        {
            let ghost so_far = rows_view(out@);
            let mut row = copy_row(&left[i]);
            let mut k: usize = 0;
            while k < right[j].len()
                invariant
                    k <= right[j as int].len(),
                    j < right.len(),
                    row@ == first + right@[j as int]@.take(k as int),
                decreases right[j as int].len() - k,
            {
                row.push(right[j][k]);
                assert(right@[j as int]@.take(k as int + 1) =~= right@[j as int]@.take(
                    k as int,
                ).push(right@[j as int]@[k as int]));
                assert(row@ =~= first + right@[j as int]@.take(k as int + 1));
                k += 1;
            }
            assert(right@[j as int]@.take(right@[j as int].len() as int) =~= right@[j as int]@);
            out.push(row);
            proof {
                assert(rows_view(out@) =~= so_far.push(row@));
                assert(rights[j as int] == right@[j as int]@);
                assert(rights.take(j as int + 1) =~= rights.take(j as int).push(
                    right@[j as int]@,
                ));
                assert(rights.take(j as int + 1).map_values(|t: Seq<Value>| first + t)
                    =~= rights.take(j as int).map_values(|t: Seq<Value>| first + t).push(
                    first + right@[j as int]@,
                ));
                assert(rows_view(out@) =~= done + rights.take(j as int + 1).map_values(
                    |t: Seq<Value>| first + t,
                ));
            }
            j += 1;
        }
        proof {
            assert(rights.take(right.len() as int) =~= rights);
            assert(lefts.take(i as int + 1).drop_last() =~= lefts.take(i as int));
            assert(lefts.take(i as int + 1).last() == first);
        }
        i += 1;
    }
    assert(lefts.take(left.len() as int) =~= lefts);
    out
}

/// Whether the expressions of the class all have the same value on the
/// row, and that value is not null.
fn class_holds(class: &Vec<ScalarExpr>, row: &Vec<Value>) -> (r: bool)
    ensures
        r == class_agrees(exprs_view(class@), row@),
{
    let ghost all = exprs_view(class@);
    if class.len() == 0 {
        return true;
    }
    let first = class[0].eval(row);
    if first.is_null() {
        assert(all[0].eval(row@) == Value::Null);
        return false;
    }
    let mut i: usize = 1;
    while i < class.len()
        invariant
            1 <= i <= class.len(),
            all == exprs_view(class@),
            first == all[0].eval(row@),
            first != Value::Null,
            forall|j: int| 0 <= j < i ==> (#[trigger] all[j]).eval(row@) == first,
        decreases class.len() - i,
    {
        if class[i].eval(row) != first {
            assert(all[i as int].eval(row@) != all[0].eval(row@));
            return false;
        }
        i += 1;
    }
    true
}

/// Whether every class of equivalences agrees on the row.
fn equivalences_agree(equivalences: &Vec<Vec<ScalarExpr>>, row: &Vec<Value>) -> (r: bool)
    ensures
        r == equivalences_hold(lists_view(equivalences@), row@),
{
    let ghost all = lists_view(equivalences@);
    let mut i: usize = 0;
    while i < equivalences.len()
        invariant
            i <= equivalences.len(),
            all == lists_view(equivalences@),
            forall|k: int| 0 <= k < i ==> class_agrees(#[trigger] all[k], row@),
        decreases equivalences.len() - i,
    {
        if !class_holds(&equivalences[i], row) {
            assert(!class_agrees(all[i as int], row@));
            return false;
        }
        i += 1;
    }
    true
}

/// The rows on which every class of equivalences agrees.
fn matching_rows(rows: &Vec<Vec<Value>>, equivalences: &Vec<Vec<ScalarExpr>>) -> (r: Vec<
    Vec<Value>,
>)
    ensures
        rows_view(r@) == rows_view(rows@).filter(
            |row: Seq<Value>| equivalences_hold(lists_view(equivalences@), row),
        ),
{
    let ghost all = rows_view(rows@);
    let ghost keep = |row: Seq<Value>| equivalences_hold(lists_view(equivalences@), row);
    let mut out: Vec<Vec<Value>> = Vec::new();
    let mut i: usize = 0;
    proof {
        reveal(Seq::filter);
        assert(all.take(0).filter(keep) =~= Seq::<Seq<Value>>::empty());
        assert(rows_view(out@) =~= Seq::<Seq<Value>>::empty());
    }
    while i < rows.len()
        invariant
            i <= rows.len(),
            all == rows_view(rows@),
            keep == |row: Seq<Value>| equivalences_hold(lists_view(equivalences@), row),
            rows_view(out@) == all.take(i as int).filter(keep),
        decreases rows.len() - i,
    {
        let ghost before = rows_view(out@);
        proof {
            reveal(Seq::filter);
            assert(all.take(i as int + 1).drop_last() =~= all.take(i as int));
            assert(all.take(i as int + 1).last() == rows@[i as int]@);
        }
        if equivalences_agree(equivalences, &rows[i]) {
            let copy = copy_row(&rows[i]);
            out.push(copy);
            assert(rows_view(out@) =~= before.push(rows@[i as int]@));
        }
        i += 1;
    }
    assert(all.take(rows.len() as int) =~= all);
    out
}

impl RelationExpr {
    /// The rows that each of the relations yields on the collections.
    pub fn evaluate_all(inputs: &Vec<RelationExpr>, db: &Collections) -> (r: Vec<Vec<Vec<Value>>>)
        ensures
            r.len() == inputs.len(),
            forall|i: int|
                0 <= i < inputs.len() ==> rows_view(#[trigger] r@[i]@) == rows_of_all(
                    relations_view(inputs@),
                    db@,
                )[i],
        decreases inputs,
    {
        let mut parts: Vec<Vec<Vec<Value>>> = Vec::new();
        let mut i: usize = 0;
        while i < inputs.len()
            invariant
                i <= inputs.len(),
                parts.len() == i,
                forall|j: int|
                    0 <= j < i ==> rows_view(#[trigger] parts@[j]@) == inputs@[j]@.rows(db@),
            decreases inputs.len() - i,
        {
            parts.push(inputs[i].evaluate(db));
            i += 1;
        }
        parts
    }

    /// The rows that the relation yields on the collections, a row once for
    /// each time that the relation yields it.
    pub fn evaluate(&self, db: &Collections) -> (r: Vec<Vec<Value>>)
        ensures
            rows_view(r@) == self@.rows(db@),
        decreases self,
    {
        match self {
            RelationExpr::Constant { rows, arity: _ } => copy_rows(rows),
            RelationExpr::Get { id, arity: _ } => match db.get(*id) {
                Some(rows) => copy_rows(rows),
                None => {
                    let out: Vec<Vec<Value>> = Vec::new();
                    assert(rows_view(out@) =~= Seq::<Seq<Value>>::empty());
                    out
                },
            },
            RelationExpr::Project { input, outputs } => project_rows(&input.evaluate(db), outputs),
            RelationExpr::MapColumns { input, scalars } => map_rows(&input.evaluate(db), scalars),
            RelationExpr::Filter { input, predicates } => filter_rows(
                &input.evaluate(db),
                predicates,
            ),
            RelationExpr::ArrangeBy { input, keys: _ } => input.evaluate(db),
            RelationExpr::Join { inputs, equivalences, implementation } => {
                proof {
                    lemma_view_join(*inputs, *equivalences, *implementation);
                }
                let parts = Self::evaluate_all(inputs, db);
                let ghost wanted = rows_of_all(relations_view(inputs@), db@);
                let mut product: Vec<Vec<Value>> = Vec::new();
                product.push(Vec::new());
                let mut i: usize = 0;
                proof {
                    assert(rows_view(product@) =~= seq![Seq::<Value>::empty()]);
                    assert(wanted.take(0) =~= Seq::<Seq<Seq<Value>>>::empty());
                }
                while i < parts.len()
                    invariant
                        i <= parts.len(),
                        parts.len() == wanted.len(),
                        forall|j: int|
                            0 <= j < parts.len() ==> rows_view(#[trigger] parts@[j]@) == wanted[j],
                        rows_view(product@) == cross_all(wanted.take(i as int)),
                    decreases parts.len() - i,
                {
                    proof {
                        assert(wanted.take(i as int + 1).drop_last() =~= wanted.take(i as int));
                        assert(wanted.take(i as int + 1).last() == wanted[i as int]);
                    }
                    product = cross_rows(&product, &parts[i]);
                    i += 1;
                }
                assert(wanted.take(parts.len() as int) =~= wanted);
                matching_rows(&product, equivalences)
            },
            RelationExpr::Union { inputs } => {
                proof {
                    lemma_view_union(*inputs);
                }
                let parts = Self::evaluate_all(inputs, db);
                let ghost wanted = rows_of_all(relations_view(inputs@), db@);
                let mut out: Vec<Vec<Value>> = Vec::new();
                let mut i: usize = 0;
                proof {
                    assert(rows_view(out@) =~= Seq::<Seq<Value>>::empty());
                    assert(wanted.take(0) =~= Seq::<Seq<Seq<Value>>>::empty());
                }
                while i < parts.len()
                    invariant
                        i <= parts.len(),
                        parts.len() == wanted.len(),
                        forall|j: int|
                            0 <= j < parts.len() ==> rows_view(#[trigger] parts@[j]@) == wanted[j],
                        rows_view(out@) == concat_all(wanted.take(i as int)),
                    decreases parts.len() - i,
                {
                    let ghost done = rows_view(out@);
                    proof {
                        assert(wanted.take(i as int + 1).drop_last() =~= wanted.take(i as int));
                        assert(wanted.take(i as int + 1).last() == wanted[i as int]);
                    }
                    let mut j: usize = 0;
                    assert(rows_view(out@) =~= done + rows_view(parts@[i as int]@).take(0));
                    while j < parts[i].len()
                        invariant
                            j <= parts[i as int].len(),
                            i < parts.len(),
                            rows_view(out@) == done + rows_view(parts@[i as int]@).take(j as int),
                        decreases parts[i as int].len() - j,
                    {
                        let ghost so_far = rows_view(out@);
                        let copy = copy_row(&parts[i][j]);
                        out.push(copy);
                        assert(rows_view(out@) =~= so_far.push(copy@));
                        assert(rows_view(parts@[i as int]@).take(j as int + 1) =~= rows_view(
                            parts@[i as int]@,
                        ).take(j as int).push(copy@));
                        assert(rows_view(out@) =~= done + rows_view(parts@[i as int]@).take(
                            j as int + 1,
                        ));
                        j += 1;
                    }
                    assert(rows_view(parts@[i as int]@).take(parts@[i as int].len() as int)
                        =~= rows_view(parts@[i as int]@));
                    i += 1;
                }
                assert(wanted.take(parts.len() as int) =~= wanted);
                out
            },
        }
    }
}

} // verus!

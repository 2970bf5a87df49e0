//! Proofs about the rows of the pieces that the rewrite builds: the join
//! with the literal rows keeps the rows whose key is one of them, and
//! operators on top of a relation see only its rows.

use crate::detect_sound::key_values;
use crate::mfp::{all_hold, extend_by, lemma_eval_reads_below, project_row};
use crate::normalize_sound::all_read_below;
use crate::plan_sound::rows_are_keys;
use crate::relation::{
    class_agrees, cross, cross_all, equivalences_hold, rows_of_all, Database, Id, Relation,
};
use crate::rewrite::{first_columns, lookup_equivalences, lookup_join, Layers};
use crate::scalar::Expr;
use crate::index::GlobalId;
use crate::value::{lemma_row_order_irreflexive, strictly_sorted, Value};
use vstd::prelude::*;

verus! {

/// What the operators emit for one row of the relation below them, if they
/// keep it.
pub open spec fn emit(layers: Layers, row: Seq<Value>) -> Option<Seq<Value>> {
    let extended = match layers.map {
        Some(scalars) => extend_by(scalars, row),
        None => row,
    };
    let kept = match layers.filter {
        Some(predicates) => all_hold(predicates, extended),
        None => true,
    };
    if kept {
        Some(
            match layers.project {
                Some(outputs) => project_row(outputs, extended),
                None => extended,
            },
        )
    } else {
        None
    }
}

/// What the operators emit for the rows of the relation below them.
pub open spec fn emitted(layers: Layers, rows: Seq<Seq<Value>>) -> Seq<Seq<Value>>
    decreases rows.len(),
{
    if rows.len() == 0 {
        Seq::empty()
    } else {
        let head = emitted(layers, rows.drop_last());
        match emit(layers, rows.last()) {
            Some(out) => head.push(out),
            None => head,
        }
    }
}

/// The rows of a relation under a map, a filter and a projection, in terms
/// of the rows of the relation.
pub open spec fn rows_under(layers: Layers, rows: Seq<Seq<Value>>) -> Seq<Seq<Value>> {
    let mapped = match layers.map {
        Some(scalars) => rows.map_values(|r: Seq<Value>| extend_by(scalars, r)),
        None => rows,
    };
    let filtered = match layers.filter {
        Some(predicates) => mapped.filter(|r: Seq<Value>| all_hold(predicates, r)),
        None => mapped,
    };
    match layers.project {
        Some(outputs) => filtered.map_values(|r: Seq<Value>| project_row(outputs, r)),
        None => filtered,
    }
}

/// The rows of a relation under operators are what the operators make of
/// the rows of the relation.
pub proof fn lemma_wrap_rows(layers: Layers, base: Relation, db: Database)
    ensures
        layers.wrap(base).rows(db) == rows_under(layers, base.rows(db)),
{
    reveal_with_fuel(Relation::rows, 4);
}

/// Operators make of a sequence of rows what they emit for each row.
pub proof fn lemma_rows_under(layers: Layers, rows: Seq<Seq<Value>>)
    ensures
        rows_under(layers, rows) == emitted(layers, rows),
    decreases rows.len(),
{
    reveal(Seq::filter);
    if rows.len() == 0 {
        assert(rows_under(layers, rows) =~= Seq::<Seq<Value>>::empty());
    } else {
        let rest = rows.drop_last();
        let last = rows.last();
        lemma_rows_under(layers, rest);
        let mapped = match layers.map {
            Some(scalars) => rows.map_values(|r: Seq<Value>| extend_by(scalars, r)),
            None => rows,
        };
        let mapped_rest = match layers.map {
            Some(scalars) => rest.map_values(|r: Seq<Value>| extend_by(scalars, r)),
            None => rest,
        };
        let extended = match layers.map {
            Some(scalars) => extend_by(scalars, last),
            None => last,
        };
        assert(mapped.drop_last() =~= mapped_rest);
        assert(mapped.last() == extended);
        let filtered = match layers.filter {
            Some(predicates) => mapped.filter(|r: Seq<Value>| all_hold(predicates, r)),
            None => mapped,
        };
        let filtered_rest = match layers.filter {
            Some(predicates) => mapped_rest.filter(|r: Seq<Value>| all_hold(predicates, r)),
            None => mapped_rest,
        };
        let kept = match layers.filter {
            Some(predicates) => all_hold(predicates, extended),
            None => true,
        };
        assert(filtered =~= if kept {
            filtered_rest.push(extended)
        } else {
            filtered_rest
        });
        assert(rows_under(layers, rows) =~= emitted(layers, rows));
    }
}

/// Operators that emit the same for each row emit the same for a sequence
/// of rows.
pub proof fn lemma_emitted_same(a: Layers, b: Layers, rows: Seq<Seq<Value>>)
    requires
        forall|i: int| 0 <= i < rows.len() ==> emit(a, #[trigger] rows[i]) == emit(b, rows[i]),
    ensures
        emitted(a, rows) == emitted(b, rows),
    decreases rows.len(),
{
    if rows.len() > 0 {
        let rest = rows.drop_last();
        assert forall|i: int| 0 <= i < rest.len() implies emit(a, #[trigger] rest[i]) == emit(
            b,
            rest[i],
        ) by {
            assert(rest[i] == rows[i]);
        }
        lemma_emitted_same(a, b, rest);
        assert(rows.last() == rows[rows.len() - 1]);
    }
}

/// Operators `a` that emit for each row what the operators `b` emit, but
/// only for the rows that `keep` selects, emit for a sequence of rows what
/// `b` emits for the selected ones.
pub proof fn lemma_emitted_selected(
    a: Layers,
    b: Layers,
    rows: Seq<Seq<Value>>,
    keep: spec_fn(Seq<Value>) -> bool,
)
    requires
        forall|i: int|
            0 <= i < rows.len() ==> emit(a, #[trigger] rows[i]) == if keep(rows[i]) {
                emit(b, rows[i])
            } else {
                None
            },
    ensures
        emitted(a, rows) == emitted(b, rows.filter(keep)),
    decreases rows.len(),
{
    reveal(Seq::filter);
    if rows.len() > 0 {
        let rest = rows.drop_last();
        assert forall|i: int| 0 <= i < rest.len() implies emit(a, #[trigger] rest[i]) == if keep(
            rest[i],
        ) {
            emit(b, rest[i])
        } else {
            None
        } by {
            assert(rest[i] == rows[i]);
        }
        lemma_emitted_selected(a, b, rest, keep);
        assert(rows.last() == rows[rows.len() - 1]);
        if keep(rows.last()) {
            assert(rows.filter(keep) == rest.filter(keep).push(rows.last()));
            assert(rows.filter(keep).drop_last() =~= rest.filter(keep));
        }
    }
}

// ---------------------------------------------------------------------------
// The join with the literal rows
// ---------------------------------------------------------------------------
/// Whether the key of the row is one of the literal rows.
pub open spec fn key_is_among(key: Seq<Expr>, literals: Seq<Seq<Value>>) -> spec_fn(
    Seq<Value>,
) -> bool {
    |row: Seq<Value>| literals.contains(key_values(key, row))
}

/// The row `left` followed by each of the literal rows that passes the
/// equivalences of the lookup, reduced to the columns of `left`.
pub open spec fn matches_of(
    left: Seq<Value>,
    literals: Seq<Seq<Value>>,
    key: Seq<Expr>,
) -> Seq<Seq<Value>> {
    literals.map_values(|t: Seq<Value>| left + t).filter(
        |r: Seq<Value>| equivalences_hold(lookup_equivalences(key, left.len()), r),
    ).map_values(|r: Seq<Value>| project_row(Seq::new(left.len(), |i: int| i as nat), r))
}

/// A row of the collection followed by a literal row passes the
/// equivalences of the lookup exactly when the literal row holds the values
/// of the key on the row of the collection.
pub proof fn lemma_lookup_equivalences(left: Seq<Value>, t: Seq<Value>, key: Seq<Expr>)
    requires
        all_read_below(key, left.len()),
        t.len() == key.len(),
        forall|j: int| 0 <= j < t.len() ==> #[trigger] t[j] != Value::Null,
    ensures
        equivalences_hold(lookup_equivalences(key, left.len()), left + t) <==> key_values(
            key,
            left,
        ) == t,
        project_row(Seq::new(left.len(), |i: int| i as nat), left + t) == left,
{
    let row = left + t;
    let eqs = lookup_equivalences(key, left.len());
    let arity = left.len();
    assert(project_row(Seq::new(arity, |i: int| i as nat), row) =~= left);
    assert forall|i: int| 0 <= i < key.len() implies (class_agrees(#[trigger] eqs[i], row)
        <==> key[i].eval(left) == t[i]) by {
        let class = eqs[i];
        assert(key[i].reads_below(arity));
        lemma_eval_reads_below(key[i], arity, row, left);
        assert(class[0] == key[i]);
        assert(class[1] == Expr::Column(arity + i as nat));
        assert(class[1].eval(row) == row[arity + i]);
        assert(row[arity + i] == t[i]);
        if class_agrees(class, row) {
            assert(class[0].eval(row) == class[1].eval(row));
        }
    }
    if equivalences_hold(eqs, row) {
        assert forall|i: int| 0 <= i < key.len() implies key[i].eval(left) == t[i] by {
            assert(class_agrees(eqs[i], row));
        }
        assert(key_values(key, left) =~= t);
    }
    if key_values(key, left) == t {
        assert forall|k: int| 0 <= k < eqs.len() implies class_agrees(#[trigger] eqs[k], row) by {
            assert(key_values(key, left)[k] == key[k].eval(left));
        }
    }
}

/// Among literal rows that are all different, a row of the collection
/// matches one if its key is among them, and none otherwise.
pub proof fn lemma_matches_of(left: Seq<Value>, literals: Seq<Seq<Value>>, key: Seq<Expr>)
    requires
        all_read_below(key, left.len()),
        rows_are_keys(literals, key.len()),
        literals.no_duplicates(),
    ensures
        matches_of(left, literals, key) == if literals.contains(key_values(key, left)) {
            seq![left]
        } else {
            Seq::<Seq<Value>>::empty()
        },
    decreases literals.len(),
{
    reveal(Seq::filter);
    let pass = |r: Seq<Value>| equivalences_hold(lookup_equivalences(key, left.len()), r);
    let cut = |r: Seq<Value>| project_row(Seq::new(left.len(), |i: int| i as nat), r);
    let join = |t: Seq<Value>| left + t;
    let kv = key_values(key, left);
    if literals.len() == 0 {
        assert(matches_of(left, literals, key) =~= Seq::<Seq<Value>>::empty());
    } else {
        let rest = literals.drop_last();
        let last = literals.last();
        let n = literals.len() - 1;
        assert forall|i: int| 0 <= i < rest.len() implies (#[trigger] rest[i]).len() == key.len()
            && forall|j: int| 0 <= j < key.len() ==> #[trigger] rest[i][j] != Value::Null by {
            assert(rest[i] == literals[i]);
        }
        assert(rest.no_duplicates()) by {
            assert forall|i: int, j: int| 0 <= i < rest.len() && 0 <= j < rest.len() && i
                != j implies rest[i] != rest[j] by {
                assert(rest[i] == literals[i]);
                assert(rest[j] == literals[j]);
            }
        }
        lemma_matches_of(left, rest, key);
        assert(literals[n] == last);
        lemma_lookup_equivalences(left, last, key);
        let joined = literals.map_values(join);
        let joined_rest = rest.map_values(join);
        assert(joined.drop_last() =~= joined_rest);
        assert(joined.last() == left + last);
        let passed = joined.filter(pass);
        let passed_rest = joined_rest.filter(pass);
        assert(passed == if pass(left + last) {
            passed_rest.push(left + last)
        } else {
            passed_rest
        });
        if pass(left + last) {
            assert(kv == last);
            // no earlier literal row is the key, as the rows are all different
            assert(!rest.contains(kv)) by {
                if rest.contains(kv) {
                    let i = choose|i: int| 0 <= i < rest.len() && rest[i] == kv;
                    assert(literals[i] == literals[n]);
                }
            }
            assert(passed_rest.map_values(cut) =~= Seq::<Seq<Value>>::empty());
            assert(passed_rest.map_values(cut).len() == passed_rest.len());
            assert(passed_rest.len() == 0);
            assert(passed.map_values(cut) =~= seq![left]);
            assert(literals.contains(kv));
        } else {
            assert(kv != last);
            if literals.contains(kv) {
                let i = choose|i: int| 0 <= i < literals.len() && literals[i] == kv;
                assert(rest[i] == kv);
            }
            if rest.contains(kv) {
                let i = choose|i: int| 0 <= i < rest.len() && rest[i] == kv;
                assert(literals[i] == kv);
            }
        }
    }
}

/// The rows of the cross product of the collection with the literal rows
/// that pass the equivalences, reduced to the columns of the collection,
/// are the rows of the collection whose key is among the literal rows.
pub proof fn lemma_cross_matches(
    lefts: Seq<Seq<Value>>,
    literals: Seq<Seq<Value>>,
    key: Seq<Expr>,
    arity: nat,
)
    requires
        forall|i: int| 0 <= i < lefts.len() ==> (#[trigger] lefts[i]).len() == arity,
        all_read_below(key, arity),
        rows_are_keys(literals, key.len()),
        literals.no_duplicates(),
    ensures
        cross(lefts, literals).filter(
            |r: Seq<Value>| equivalences_hold(lookup_equivalences(key, arity), r),
        ).map_values(|r: Seq<Value>| project_row(Seq::new(arity, |i: int| i as nat), r))
            == lefts.filter(key_is_among(key, literals)),
    decreases lefts.len(),
{
    reveal(Seq::filter);
    let pass = |r: Seq<Value>| equivalences_hold(lookup_equivalences(key, arity), r);
    let cut = |r: Seq<Value>| project_row(Seq::new(arity, |i: int| i as nat), r);
    let keep = key_is_among(key, literals);
    if lefts.len() == 0 {
        assert(cross(lefts, literals).filter(pass).map_values(cut) =~= lefts.filter(keep));
    } else {
        let rest = lefts.drop_last();
        let last = lefts.last();
        assert(lefts[lefts.len() - 1] == last);
        assert forall|i: int| 0 <= i < rest.len() implies (#[trigger] rest[i]).len() == arity by {
            assert(rest[i] == lefts[i]);
        }
        lemma_cross_matches(rest, literals, key, arity);
        lemma_matches_of(last, literals, key);
        let block = literals.map_values(|t: Seq<Value>| last + t);
        assert(cross(lefts, literals) == cross(rest, literals) + block);
        Seq::filter_distributes_over_add(cross(rest, literals), block, pass);
        assert((cross(rest, literals).filter(pass) + block.filter(pass)).map_values(cut) =~= cross(
            rest,
            literals,
        ).filter(pass).map_values(cut) + block.filter(pass).map_values(cut));
        // the closures of `matches_of` are the ones used here, as `last` has `arity` columns
        assert(lookup_equivalences(key, last.len()) == lookup_equivalences(key, arity));
        assert(block.filter(pass).map_values(cut) =~= matches_of(last, literals, key)) by {
            let pass2 = |r: Seq<Value>| equivalences_hold(lookup_equivalences(key, last.len()), r);
            let cut2 = |r: Seq<Value>|
                project_row(Seq::new(last.len(), |i: int| i as nat), r);
            assert(pass =~= pass2);
            assert(Seq::new(last.len(), |i: int| i as nat) =~= Seq::new(arity, |i: int| i as nat));
            assert(cut =~= cut2);
        }
        if keep(last) {
            assert(lefts.filter(keep) == rest.filter(keep).push(last));
            assert(rest.filter(keep).push(last) =~= rest.filter(keep) + seq![last]);
        } else {
            assert(lefts.filter(keep) == rest.filter(keep));
            assert(rest.filter(keep) + Seq::<Seq<Value>>::empty() =~= rest.filter(keep));
        }
    }
}

/// Rows in strictly increasing order are all different.
pub proof fn lemma_sorted_no_duplicates(rows: Seq<Seq<Value>>)
    requires
        strictly_sorted(rows),
    ensures
        rows.no_duplicates(),
{
    assert forall|i: int, j: int| 0 <= i < rows.len() && 0 <= j < rows.len() && i != j implies rows[i]
        != rows[j] by {
        lemma_row_order_irreflexive(rows[i]);
        if i < j {
            assert(crate::value::row_lt(rows[i], rows[j]));
        } else {
            assert(crate::value::row_lt(rows[j], rows[i]));
        }
    }
}

/// The join of a collection with sorted literal rows yields the rows of the
/// collection whose key is among the literal rows, each as often as the
/// collection holds it.
pub proof fn lemma_lookup_join_rows(
    id: GlobalId,
    arity: nat,
    key: Seq<Expr>,
    literals: Seq<Seq<Value>>,
    db: Database,
)
    requires
        (Relation::Get { id: Id::Global(id), arity }).fits(db),
        all_read_below(key, arity),
        rows_are_keys(literals, key.len()),
        strictly_sorted(literals),
    ensures
        lookup_join(id, arity, key, literals).rows(db) == (Relation::Get {
            id: Id::Global(id),
            arity,
        }).rows(db).filter(key_is_among(key, literals)),
{
    reveal_with_fuel(Relation::rows, 4);
    let scan = Relation::Get { id: Id::Global(id), arity };
    let lefts = scan.rows(db);
    let inputs = seq![
        Relation::ArrangeBy { input: Box::new(scan), keys: seq![key] },
        Relation::ArrangeBy {
            input: Box::new(Relation::Constant { rows: literals, arity: key.len() }),
            keys: seq![first_columns(key.len())],
        },
    ];
    let parts = rows_of_all(inputs, db);
    assert(inputs[0].rows(db) == lefts);
    assert(inputs[1].rows(db) == literals);
    assert(parts.len() == 2);
    assert(parts[0] == lefts);
    assert(parts[1] == literals);
    assert(parts =~= seq![lefts, literals]);
    // the cross product of the two inputs
    let one = seq![Seq::<Value>::empty()];
    assert(parts.drop_last() =~= seq![lefts]);
    assert(parts.drop_last().drop_last() =~= Seq::<Seq<Seq<Value>>>::empty());
    assert(cross_all(parts.drop_last().drop_last()) == one) by {
        reveal_with_fuel(cross_all, 2);
    }
    assert(cross_all(parts.drop_last()) == cross(one, lefts)) by {
        reveal_with_fuel(cross_all, 2);
    }
    assert(cross(one, lefts) =~= lefts) by {
        reveal_with_fuel(cross, 2);
        assert(one.drop_last() =~= Seq::<Seq<Value>>::empty());
        let glued = lefts.map_values(|t: Seq<Value>| one.last() + t);
        assert forall|i: int| 0 <= i < lefts.len() implies glued[i] == lefts[i] by {
            assert(one.last() + lefts[i] =~= lefts[i]);
        }
        assert(glued =~= lefts);
        assert(cross(one, lefts) == cross(one.drop_last(), lefts) + glued);
    }
    assert(cross_all(parts) == cross(lefts, literals)) by {
        reveal_with_fuel(cross_all, 3);
    }
    lemma_sorted_no_duplicates(literals);
    assert forall|i: int| 0 <= i < lefts.len() implies (#[trigger] lefts[i]).len() == arity by {
        assert(db.contains_key(Id::Global(id)));
    }
    lemma_cross_matches(lefts, literals, key, arity);
}

} // verus!

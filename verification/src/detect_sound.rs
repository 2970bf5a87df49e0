//! Proofs about what the detector finds: where the branches of a predicate
//! fix the fields of a key, a row on which a branch holds has in those
//! fields the literals of that branch.

use crate::detect::{
    best_key, first_match, literal_for, match_count, row_for_branch, rows_for_key, usable,
};
use crate::literal::lemma_expr_eq_literal_sound;
use crate::mfp::all_hold;
use crate::scalar::{Expr, VariadicFunc};
use crate::value::Value;
use vstd::prelude::*;

verus! {

/// The values of the fields of a key on a row.
pub open spec fn key_values(key: Seq<Expr>, row: Seq<Value>) -> Seq<Value> {
    Seq::new(key.len(), |i: int| key[i].eval(row))
}

/// Whether the conjunct at `i` is the only one that equates `key_field`
/// with a literal, and what it says.
pub open spec fn only_match(
    conjuncts: Seq<Expr>,
    key_field: Expr,
    i: int,
    m: (Value, bool),
) -> bool {
    &&& 0 <= i < conjuncts.len()
    &&& conjuncts[i].expr_eq_literal(key_field) == Some(m)
    &&& forall|j: int|
        0 <= j < conjuncts.len() && j != i ==> (#[trigger] conjuncts[j]).expr_eq_literal(key_field)
            is None
}

/// What the number of matches says about the conjuncts.
pub proof fn lemma_match_count(conjuncts: Seq<Expr>, key_field: Expr)
    ensures
        match_count(conjuncts, key_field) == 0 ==> first_match(conjuncts, key_field) is None
            && forall|j: int|
            0 <= j < conjuncts.len() ==> (#[trigger] conjuncts[j]).expr_eq_literal(key_field)
                is None,
        match_count(conjuncts, key_field) == 1 ==> first_match(conjuncts, key_field) is Some
            && exists|i: int|
            only_match(conjuncts, key_field, i, first_match(conjuncts, key_field).unwrap()),
    decreases conjuncts.len(),
{
    if conjuncts.len() > 0 {
        let rest = conjuncts.drop_last();
        let last = conjuncts.last();
        let n = conjuncts.len() - 1;
        lemma_match_count(rest, key_field);
        if match_count(conjuncts, key_field) == 0 {
            assert forall|j: int| 0 <= j < conjuncts.len() implies (
            #[trigger] conjuncts[j]).expr_eq_literal(key_field) is None by {
                if j < n {
                    assert(rest[j].expr_eq_literal(key_field) is None);
                }
            }
        }
        if match_count(conjuncts, key_field) == 1 {
            let m = first_match(conjuncts, key_field).unwrap();
            if match_count(rest, key_field) == 1 {
                let i = choose|i: int|
                    only_match(rest, key_field, i, first_match(rest, key_field).unwrap());
                assert forall|j: int| 0 <= j < conjuncts.len() && j != i implies (
                #[trigger] conjuncts[j]).expr_eq_literal(key_field) is None by {
                    if j < n {
                        assert(rest[j].expr_eq_literal(key_field) is None);
                    }
                }
                assert(conjuncts[i] == rest[i]);
                assert(only_match(conjuncts, key_field, i, m));
            } else {
                assert forall|j: int| 0 <= j < conjuncts.len() && j != n implies (
                #[trigger] conjuncts[j]).expr_eq_literal(key_field) is None by {
                    assert(rest[j].expr_eq_literal(key_field) is None);
                }
                assert(only_match(conjuncts, key_field, n, m));
            }
        }
    }
}

/// Where the conjuncts fix a key field, exactly one of them equates it with
/// a literal.
pub proof fn lemma_literal_for(conjuncts: Seq<Expr>, key_field: Expr)
    requires
        literal_for(conjuncts, key_field) is Some,
    ensures
        exists|i: int|
            only_match(conjuncts, key_field, i, literal_for(conjuncts, key_field).unwrap()),
{
    lemma_match_count(conjuncts, key_field);
}

/// Where the conjuncts fix a key, the row of literals has one literal for
/// each field: the one that the conjuncts fix the field to.
pub proof fn lemma_row_for_branch(conjuncts: Seq<Expr>, key: Seq<Expr>)
    requires
        row_for_branch(conjuncts, key) is Some,
    ensures
        row_for_branch(conjuncts, key).unwrap().0.len() == key.len(),
        forall|i: int|
            0 <= i < key.len() ==> literal_for(conjuncts, #[trigger] key[i]) is Some && literal_for(
                conjuncts,
                key[i],
            ).unwrap().0 == row_for_branch(conjuncts, key).unwrap().0[i],
    decreases key.len(),
{
    if key.len() > 0 {
        let rest = key.drop_last();
        lemma_row_for_branch(conjuncts, rest);
        let t = row_for_branch(conjuncts, key).unwrap().0;
        let t0 = row_for_branch(conjuncts, rest).unwrap().0;
        assert forall|i: int| 0 <= i < key.len() implies literal_for(conjuncts, #[trigger] key[i])
            is Some && literal_for(conjuncts, key[i]).unwrap().0 == t[i] by {
            if i < rest.len() {
                assert(rest[i] == key[i]);
                assert(t[i] == t0[i]);
            }
        }
    }
}

/// Where the branches fix a key, there is one row of literals for each
/// branch: the one that the conjuncts of the branch fix the key to.
pub proof fn lemma_rows_for_key(or_args: Seq<Expr>, key: Seq<Expr>)
    requires
        rows_for_key(or_args, key) is Some,
    ensures
        rows_for_key(or_args, key).unwrap().0.len() == or_args.len(),
        forall|b: int|
            0 <= b < or_args.len() ==> row_for_branch(
                (#[trigger] or_args[b]).and_or_args(VariadicFunc::And),
                key,
            ) is Some && row_for_branch(or_args[b].and_or_args(VariadicFunc::And), key).unwrap().0
                == rows_for_key(or_args, key).unwrap().0[b],
    decreases or_args.len(),
{
    if or_args.len() > 0 {
        let rest = or_args.drop_last();
        lemma_rows_for_key(rest, key);
        let rows = rows_for_key(or_args, key).unwrap().0;
        let rows0 = rows_for_key(rest, key).unwrap().0;
        assert forall|b: int| 0 <= b < or_args.len() implies row_for_branch(
            (#[trigger] or_args[b]).and_or_args(VariadicFunc::And),
            key,
        ) is Some && row_for_branch(or_args[b].and_or_args(VariadicFunc::And), key).unwrap().0
            == rows[b] by {
            if b < rest.len() {
                assert(rest[b] == or_args[b]);
                assert(rows[b] == rows0[b]);
            }
        }
    }
}

/// Where the conjuncts fix a key, the literals are not null; and on a row
/// on which the conjuncts hold, the fields of the key have the values of
/// the literals.
pub proof fn lemma_branch_fixes_key(conjuncts: Seq<Expr>, key: Seq<Expr>, row: Seq<Value>)
    requires
        row_for_branch(conjuncts, key) is Some,
    ensures
        forall|i: int|
            0 <= i < key.len() ==> #[trigger] row_for_branch(conjuncts, key).unwrap().0[i]
                != Value::Null,
        all_hold(conjuncts, row) ==> key_values(key, row) == row_for_branch(
            conjuncts,
            key,
        ).unwrap().0,
{
    let t = row_for_branch(conjuncts, key).unwrap().0;
    lemma_row_for_branch(conjuncts, key);
    assert forall|i: int| 0 <= i < key.len() implies #[trigger] t[i] != Value::Null && (all_hold(
        conjuncts,
        row,
    ) ==> key[i].eval(row) == t[i]) by {
        lemma_literal_for(conjuncts, key[i]);
        let m = literal_for(conjuncts, key[i]).unwrap();
        let j = choose|j: int| only_match(conjuncts, key[i], j, m);
        lemma_expr_eq_literal_sound(conjuncts[j], key[i], row);
        if all_hold(conjuncts, row) {
            assert(conjuncts[j].holds(row));
        }
    }
    if all_hold(conjuncts, row) {
        assert(key_values(key, row) =~= t);
    }
}

/// The best key, if there is one, is a usable one of the keys, and no
/// usable key has more fields.
pub proof fn lemma_best_key(or_args: Seq<Expr>, keys: Seq<Seq<Expr>>)
    ensures
        match best_key(or_args, keys) {
            Some(b) => {
                &&& 0 <= b < keys.len()
                &&& usable(or_args, keys[b])
                &&& forall|i: int|
                    0 <= i < keys.len() && usable(or_args, #[trigger] keys[i]) ==> keys[i].len()
                        <= keys[b].len()
            },
            None => forall|i: int| 0 <= i < keys.len() ==> !usable(or_args, #[trigger] keys[i]),
        },
    decreases keys.len(),
{
    if keys.len() > 0 {
        let rest = keys.drop_last();
        lemma_best_key(or_args, rest);
        let n = keys.len() - 1;
        match best_key(or_args, keys) {
            Some(b) => {
                assert forall|i: int|
                    0 <= i < keys.len() && usable(or_args, #[trigger] keys[i]) implies keys[i].len()
                    <= keys[b].len() by {
                    if i < n {
                        assert(rest[i] == keys[i]);
                        if best_key(or_args, rest) is Some {
                            assert(rest[best_key(or_args, rest).unwrap()] == keys[best_key(
                                or_args,
                                rest,
                            ).unwrap()]);
                        }
                    }
                }
            },
            None => {
                assert forall|i: int| 0 <= i < keys.len() implies !usable(
                    or_args,
                    #[trigger] keys[i],
                ) by {
                    if i < n {
                        assert(rest[i] == keys[i]);
                    }
                }
            },
        }
    }
}

} // verus!

//! Finding an index whose key columns are all fixed to literals in every
//! branch of a predicate, with the rows of literals that the branches ask
//! for.

use crate::index::{GlobalId, IndexOracle};
use crate::literal_constraints::LiteralConstraints;
use crate::detect_sound::key_values;
use crate::mfp::{all_hold, MapFilterProject, Mfp};
use crate::plan_sound::lemma_detected;
use crate::scalar::{clone_exprs, exprs_view, lists_view, Expr, ScalarExpr, VariadicFunc};
use crate::value::{rows_view, sort_dedup_rows, sorted_rows, strictly_sorted, Value};
use vstd::prelude::*;

verus! {

/// The number of conjuncts that equate `key_field` with a literal.
pub open spec fn match_count(conjuncts: Seq<Expr>, key_field: Expr) -> nat
    decreases conjuncts.len(),
{
    if conjuncts.len() == 0 {
        0
    } else {
        match_count(conjuncts.drop_last(), key_field) + if conjuncts.last().expr_eq_literal(
            key_field,
        ).is_some() {
            1nat
        } else {
            0nat
        }
    }
}

/// What the first conjunct that equates `key_field` with a literal says.
pub open spec fn first_match(conjuncts: Seq<Expr>, key_field: Expr) -> Option<(Value, bool)>
    decreases conjuncts.len(),
{
    if conjuncts.len() == 0 {
        None
    } else {
        match first_match(conjuncts.drop_last(), key_field) {
            Some(m) => Some(m),
            None => conjuncts.last().expr_eq_literal(key_field),
        }
    }
}

/// If exactly one conjunct equates `key_field` with a literal: that literal,
/// and whether a cast was undone to find it.
pub open spec fn literal_for(conjuncts: Seq<Expr>, key_field: Expr) -> Option<(Value, bool)> {
    if match_count(conjuncts, key_field) == 1 {
        first_match(conjuncts, key_field)
    } else {
        None
    }
}

/// If the conjuncts fix each field of the key to a literal: the row of
/// those literals, and whether a cast was undone for one of them.
pub open spec fn row_for_branch(conjuncts: Seq<Expr>, key: Seq<Expr>) -> Option<(Seq<Value>, bool)>
    decreases key.len(),
{
    if key.len() == 0 {
        Some((Seq::empty(), false))
    } else {
        match (row_for_branch(conjuncts, key.drop_last()), literal_for(conjuncts, key.last())) {
            (Some((row, inv)), Some((v, i))) => Some((row.push(v), inv || i)),
            _ => None,
        }
    }
}

/// If each branch fixes each field of the key to a literal: the rows of
/// those literals, one for each branch, and whether a cast was undone for
/// one of them.
pub open spec fn rows_for_key(or_args: Seq<Expr>, key: Seq<Expr>) -> Option<
    (Seq<Seq<Value>>, bool),
>
    decreases or_args.len(),
{
    if or_args.len() == 0 {
        Some((Seq::empty(), false))
    } else {
        match (
            rows_for_key(or_args.drop_last(), key),
            row_for_branch(or_args.last().and_or_args(VariadicFunc::And), key),
        ) {
            (Some((rows, inv)), Some((row, i))) => Some((rows.push(row), inv || i)),
            _ => None,
        }
    }
}

/// Whether an index with this key can answer the predicate with these
/// branches: the key is not empty, and each branch fixes each of its fields.
pub open spec fn usable(or_args: Seq<Expr>, key: Seq<Expr>) -> bool {
    key.len() > 0 && rows_for_key(or_args, key).is_some()
}

/// Whether, of two usable keys, `b` is at least as good as `a`: it has more
/// fields, or as many and needed no cast to be undone where `a` needed one,
/// or they are alike in both.
pub open spec fn at_least_as_good(or_args: Seq<Expr>, a: Seq<Expr>, b: Seq<Expr>) -> bool {
    b.len() > a.len() || (b.len() == a.len() && (rows_for_key(or_args, a).unwrap().1
        || !rows_for_key(or_args, b).unwrap().1))
}

/// The position of the best usable key among `keys`: the last one at which
/// a key is at least as good as every usable key before it.
pub open spec fn best_key(or_args: Seq<Expr>, keys: Seq<Seq<Expr>>) -> Option<int>
    decreases keys.len(),
{
    if keys.len() == 0 {
        None
    } else {
        let before = best_key(or_args, keys.drop_last());
        if usable(or_args, keys.last()) && (before is None || at_least_as_good(
            or_args,
            keys[before.unwrap()],
            keys.last(),
        )) {
            Some(keys.len() - 1)
        } else {
            before
        }
    }
}

impl Mfp {
    /// The key of the best index, among those with the given keys, that can
    /// answer the predicate, with the rows of literals that the branches of
    /// the predicate ask for, sorted and each once.
    pub open spec fn detect(self, keys: Seq<Seq<Expr>>) -> Option<(Seq<Expr>, Seq<Seq<Value>>)>
        recommends
            self.predicates.len() == 1,
    {
        match best_key(self.or_args(), keys) {
            Some(b) => Some(
                (keys[b], sorted_rows(rows_for_key(self.or_args(), keys[b]).unwrap().0)),
            ),
            None => None,
        }
    }
}

/// If exactly one of `conjuncts` equates `key_field` with a literal: that
/// literal, and whether a cast was undone to find it.
fn find_literal(conjuncts: &Vec<ScalarExpr>, key_field: &ScalarExpr) -> (r: Option<(Value, bool)>)
    ensures
        r == literal_for(exprs_view(conjuncts@), key_field@),
{
    let ghost all = exprs_view(conjuncts@);
    let mut found: Option<(Value, bool)> = None;
    let mut several = false;
    let mut i: usize = 0;
    assert(all.take(0) =~= Seq::<Expr>::empty());
    while i < conjuncts.len()
        invariant
            i <= conjuncts.len(),
            all == exprs_view(conjuncts@),
            found == first_match(all.take(i as int), key_field@),
            found is None <==> match_count(all.take(i as int), key_field@) == 0,
            several <==> match_count(all.take(i as int), key_field@) > 1,
        decreases conjuncts.len() - i,
    {
        proof {
            assert(all.take(i as int + 1).drop_last() =~= all.take(i as int));
            assert(all.take(i as int + 1).last() == all[i as int]);
        }
        match conjuncts[i].expr_eq_literal(key_field) {
            Some(m) => {
                if found.is_some() {
                    several = true;
                } else {
                    found = Some(m);
                }
            },
            None => {},
        }
        i += 1;
    }
    assert(all.take(conjuncts.len() as int) =~= all);
    if several {
        None
    } else {
        found
    }
}

/// If `conjuncts` fix each field of `key` to a literal: the row of those
/// literals, and whether a cast was undone for one of them.
fn find_row(conjuncts: &Vec<ScalarExpr>, key: &Vec<ScalarExpr>) -> (r: Option<(Vec<Value>, bool)>)
    ensures
        match r {
            Some((row, inv)) => row_for_branch(exprs_view(conjuncts@), exprs_view(key@)) == Some(
                (row@, inv),
            ),
            None => row_for_branch(exprs_view(conjuncts@), exprs_view(key@)) is None,
        },
{
    let ghost fields = exprs_view(key@);
    let ghost all = exprs_view(conjuncts@);
    let mut row: Vec<Value> = Vec::new();
    let mut inv_cast_any = false;
    let mut i: usize = 0;
    assert(fields.take(0) =~= Seq::<Expr>::empty());
    while i < key.len()
        invariant
            i <= key.len(),
            fields == exprs_view(key@),
            all == exprs_view(conjuncts@),
            row_for_branch(all, fields.take(i as int)) == Some((row@, inv_cast_any)),
        decreases key.len() - i,
    {
        proof {
            assert(fields.take(i as int + 1).drop_last() =~= fields.take(i as int));
            assert(fields.take(i as int + 1).last() == fields[i as int]);
        }
        match find_literal(conjuncts, &key[i]) {
            Some((v, inv)) => {
                row.push(v);
                inv_cast_any = inv_cast_any || inv;
            },
            None => {
                proof {
                    lemma_row_for_branch_prefix(all, fields, i as int + 1);
                }
                return None;
            },
        }
        i += 1;
    }
    assert(fields.take(key.len() as int) =~= fields);
    Some((row, inv_cast_any))
}

/// If each of the branches `or_args` fixes each field of `key` to a literal:
/// the rows of those literals, and whether a cast was undone for one of
/// them.
fn find_rows(or_args: &Vec<ScalarExpr>, key: &Vec<ScalarExpr>) -> (r: Option<
    (Vec<Vec<Value>>, bool),
>)
    ensures
        match r {
            Some((rows, inv)) => rows_for_key(exprs_view(or_args@), exprs_view(key@)) == Some(
                (rows_view(rows@), inv),
            ),
            None => rows_for_key(exprs_view(or_args@), exprs_view(key@)) is None,
        },
{
    let ghost branches = exprs_view(or_args@);
    let ghost fields = exprs_view(key@);
    let mut rows: Vec<Vec<Value>> = Vec::new();
    let mut inv_cast_any = false;
    let mut i: usize = 0;
    assert(branches.take(0) =~= Seq::<Expr>::empty());
    assert(rows_view(rows@) =~= Seq::<Seq<Value>>::empty());
    while i < or_args.len()
        invariant
            i <= or_args.len(),
            branches == exprs_view(or_args@),
            fields == exprs_view(key@),
            rows_for_key(branches.take(i as int), fields) == Some((rows_view(rows@), inv_cast_any)),
        decreases or_args.len() - i,
    {
        proof {
            assert(branches.take(i as int + 1).drop_last() =~= branches.take(i as int));
            assert(branches.take(i as int + 1).last() == branches[i as int]);
        }
        let conjuncts = or_args[i].and_or_args(VariadicFunc::And);
        match find_row(&conjuncts, key) {
            Some((row, inv)) => {
                let ghost before = rows_view(rows@);
                rows.push(row);
                assert(rows_view(rows@) =~= before.push(row@));
                inv_cast_any = inv_cast_any || inv;
            },
            None => {
                proof {
                    lemma_rows_for_key_prefix(branches, fields, i as int + 1);
                }
                return None;
            },
        }
        i += 1;
    }
    assert(branches.take(or_args.len() as int) =~= branches);
    Some((rows, inv_cast_any))
}

/// If a prefix of the key cannot be fixed, the key cannot.
pub proof fn lemma_row_for_branch_prefix(conjuncts: Seq<Expr>, key: Seq<Expr>, k: int)
    requires
        0 <= k <= key.len(),
        row_for_branch(conjuncts, key.take(k)) is None,
    ensures
        row_for_branch(conjuncts, key) is None,
    decreases key.len(),
{
    if k < key.len() {
        assert(key.drop_last().take(k) =~= key.take(k));
        lemma_row_for_branch_prefix(conjuncts, key.drop_last(), k);
    } else {
        assert(key.take(k) =~= key);
    }
}

/// If some of the branches do not fix the key, the branches do not.
pub proof fn lemma_rows_for_key_prefix(or_args: Seq<Expr>, key: Seq<Expr>, k: int)
    requires
        0 <= k <= or_args.len(),
        rows_for_key(or_args.take(k), key) is None,
    ensures
        rows_for_key(or_args, key) is None,
    decreases or_args.len(),
{
    if k < or_args.len() {
        assert(or_args.drop_last().take(k) =~= or_args.take(k));
        lemma_rows_for_key_prefix(or_args.drop_last(), key, k);
    } else {
        assert(or_args.take(k) =~= or_args);
    }
}

impl LiteralConstraints {
    /// Looks, among the indexes on the collection `id`, for one with a key
    /// of which each field is fixed to a literal by exactly one conjunct in
    /// every branch of the predicate. Of such indexes it prefers those with
    /// the most key fields; among these, those for which no cast had to be
    /// undone; among these, the last. Returns the key of that index and the
    /// rows of literals of the branches, sorted and each once.
    ///
    /// For `(f1 = 3 AND f2 = 5) OR (f1 = 7 AND f2 = 9)` and an index on
    /// `[f1, f2]` it returns `[f1, f2]` and `[[3, 5], [7, 9]]`.
    pub fn detect_literal_constraints<O: IndexOracle>(
        mfp: &MapFilterProject,
        id: GlobalId,
        indexes: &O,
    ) -> (r: Option<(Vec<ScalarExpr>, Vec<Vec<Value>>)>)
        requires
            mfp@.predicates.len() == 1,
        ensures
            match r {
                Some((key, rows)) => {
                    &&& mfp@.detect(indexes.keys_on(id)) == Some(
                        (exprs_view(key@), rows_view(rows@)),
                    )
                    &&& indexes.keys_on(id).contains(exprs_view(key@))
                    &&& key.len() > 0
                    &&& strictly_sorted(rows_view(rows@))
                    &&& forall|row: Seq<Value>|
                        #[trigger] all_hold(mfp@.predicates, row) ==> rows_view(rows@).contains(
                            key_values(exprs_view(key@), row),
                        )
                },
                None => mfp@.detect(indexes.keys_on(id)) is None,
            },
    {
        proof {
            if mfp@.detect(indexes.keys_on(id)) is Some {
                lemma_detected(mfp@, indexes.keys_on(id));
            }
        }
        let keys = indexes.indexes_on(id);
        let or_args = Self::get_or_args(mfp);
        let ghost branches = exprs_view(or_args@);
        let ghost all = lists_view(keys@);
        let mut best: Option<(usize, Vec<Vec<Value>>, bool)> = None;
        let mut i: usize = 0;
        assert(all.take(0) =~= Seq::<Seq<Expr>>::empty());
        while i < keys.len()
            invariant
                i <= keys.len(),
                all == lists_view(keys@),
                branches == exprs_view(or_args@),
                match best {
                    Some((b, rows, inv)) => {
                        &&& best_key(branches, all.take(i as int)) == Some(b as int)
                        &&& b < i
                        &&& rows_for_key(branches, all[b as int]) == Some((rows_view(rows@), inv))
                    },
                    None => best_key(branches, all.take(i as int)) is None,
                },
            decreases keys.len() - i,
        {
            proof {
                assert(all.take(i as int + 1).drop_last() =~= all.take(i as int));
                assert(all.take(i as int + 1).last() == all[i as int]);
                assert(all[i as int] == exprs_view(keys@[i as int]@));
                if best is Some {
                    assert(all.take(i as int + 1)[best.unwrap().0 as int] == all[best.unwrap().0 as int]);
                }
            }
            if keys[i].len() > 0 {
                match find_rows(&or_args, &keys[i]) {
                    Some((rows, inv)) => {
                        let better = match &best {
                            Some((b, _, best_inv)) => {
                                keys[i].len() > keys[*b].len() || (keys[i].len() == keys[*b].len()
                                    && (*best_inv || !inv))
                            },
                            None => true,
                        };
                        if better {
                            best = Some((i, rows, inv));
                        }
                    },
                    None => {},
                }
            }
            i += 1;
        }
        assert(all.take(keys.len() as int) =~= all);
        match best {
            Some((b, rows, _)) => Some((clone_exprs(&keys[b]), sort_dedup_rows(&rows))),
            None => None,
        }
    }
}

} // verus!

use literal_constraints::index::{GlobalId, IndexCatalog};
use literal_constraints::literal_constraints::{LiteralConstraints, ScanRewrite};
use literal_constraints::mfp::MapFilterProject;
use literal_constraints::scalar::{
    BinaryFunc, RecursionLimitError, ScalarExpr, UnaryFunc, VariadicFunc, RECURSION_LIMIT,
};
use literal_constraints::value::Value;

const T: GlobalId = GlobalId::User(7);

fn c(i: usize) -> ScalarExpr {
    ScalarExpr::column(i)
}

fn n(v: i64) -> ScalarExpr {
    ScalarExpr::literal(Value::Int64(v))
}

fn equal(a: ScalarExpr, b: ScalarExpr) -> ScalarExpr {
    a.call_binary(b, BinaryFunc::Eq)
}

fn less(a: ScalarExpr, b: ScalarExpr) -> ScalarExpr {
    a.call_binary(b, BinaryFunc::Lt)
}

fn all_of(args: Vec<ScalarExpr>) -> ScalarExpr {
    ScalarExpr::call_variadic(VariadicFunc::And, args)
}

fn any_of(args: Vec<ScalarExpr>) -> ScalarExpr {
    ScalarExpr::call_variadic(VariadicFunc::Or, args)
}

fn operator(arity: usize, expressions: Vec<ScalarExpr>, predicates: Vec<ScalarExpr>) -> MapFilterProject {
    let mut mfp = MapFilterProject::new(arity);
    mfp.expressions = expressions;
    mfp.predicates = predicates;
    mfp.projection = (0..arity).collect();
    mfp
}

fn indexes(keys: Vec<Vec<ScalarExpr>>) -> IndexCatalog {
    let mut catalog = IndexCatalog::new();
    for key in keys {
        catalog.insert(T, key);
    }
    catalog
}

/// All rows of two columns with values from -1 to 9, and some with nulls.
fn sample_rows() -> Vec<Vec<Value>> {
    let mut rows = Vec::new();
    for a in -1..10 {
        for b in -1..10 {
            rows.push(vec![Value::Int64(a), Value::Int64(b)]);
        }
        rows.push(vec![Value::Int64(a), Value::Null]);
        rows.push(vec![Value::Null, Value::Int64(a)]);
    }
    rows.push(vec![Value::Null, Value::Null]);
    rows
}

/// Checks on every sample row that the plan, with its lookup, keeps what
/// the operator keeps and emits the same for it.
fn assert_same_rows(mfp: &MapFilterProject, plan: &ScanRewrite) {
    for row in sample_rows() {
        let expected = mfp.evaluate(&row);
        let found = match &plan.lookup {
            Some((key, literals)) => {
                let values: Vec<Value> = key.iter().map(|k| k.eval(&row)).collect();
                literals.contains(&values)
            },
            None => true,
        };
        let actual = if found {
            plan.mfp.evaluate(&row)
        } else {
            None
        };
        assert_eq!(actual, expected, "on the row {:?}", row);
    }
}

fn size_of(predicates: &Vec<ScalarExpr>) -> usize {
    predicates.iter().map(|p| p.size().unwrap()).sum()
}

#[test]
fn point_lookup_takes_the_constraint_out_of_the_filter() {
    // a = 5 AND b < 3
    let mfp = operator(2, vec![], vec![equal(c(0), n(5)), less(c(1), n(3))]);
    let plan = LiteralConstraints::plan_scan(&mfp, T, &indexes(vec![vec![c(0)]])).unwrap();
    assert_eq!(plan.lookup, Some((vec![c(0)], vec![vec![Value::Int64(5)]])));
    assert!(!plan.kept_given);
    assert_eq!(plan.mfp.predicates, vec![less(c(1), n(3))]);
    assert_same_rows(&mfp, &plan);
}

#[test]
fn constraint_on_all_columns_leaves_no_filter() {
    let mfp = operator(2, vec![], vec![equal(c(0), n(5)), equal(n(3), c(1))]);
    let plan = LiteralConstraints::plan_scan(&mfp, T, &indexes(vec![vec![c(0), c(1)]])).unwrap();
    assert_eq!(
        plan.lookup,
        Some((vec![c(0), c(1)], vec![vec![Value::Int64(5), Value::Int64(3)]]))
    );
    assert_eq!(plan.mfp.predicates, vec![]);
    assert_same_rows(&mfp, &plan);
}

#[test]
fn without_an_index_the_operator_stays() {
    let mfp = operator(2, vec![], vec![equal(c(0), n(5)), less(c(1), n(3))]);
    let plan = LiteralConstraints::plan_scan(&mfp, T, &indexes(vec![])).unwrap();
    assert_eq!(plan, ScanRewrite { mfp: mfp.clone(), kept_given: true, lookup: None });
}

#[test]
fn differing_residuals_keep_the_filter_but_use_the_index() {
    // (a = 3 AND b = 5) OR (a = 7 AND b = 8) with an index on a
    let predicate = any_of(vec![
        all_of(vec![equal(c(0), n(3)), equal(c(1), n(5))]),
        all_of(vec![equal(c(0), n(7)), equal(c(1), n(8))]),
    ]);
    let mfp = operator(2, vec![], vec![predicate]);
    let plan = LiteralConstraints::plan_scan(&mfp, T, &indexes(vec![vec![c(0)]])).unwrap();
    assert_eq!(
        plan.lookup,
        Some((vec![c(0)], vec![vec![Value::Int64(3)], vec![Value::Int64(7)]]))
    );
    assert!(plan.kept_given);
    assert_eq!(plan.mfp, mfp);
    assert_same_rows(&mfp, &plan);
}

#[test]
fn in_list_with_a_disjunction_beside_it() {
    // a IN (1, 2) AND (b < 3 OR b = 8)
    let predicate = all_of(vec![
        any_of(vec![equal(c(0), n(1)), equal(c(0), n(2))]),
        any_of(vec![less(c(1), n(3)), equal(c(1), n(8))]),
    ]);
    let mfp = operator(2, vec![], vec![predicate]);
    let plan = LiteralConstraints::plan_scan(&mfp, T, &indexes(vec![vec![c(0)]])).unwrap();
    assert_eq!(
        plan.lookup,
        Some((vec![c(0)], vec![vec![Value::Int64(1)], vec![Value::Int64(2)]]))
    );
    assert!(!plan.kept_given);
    assert_eq!(plan.mfp.predicates, vec![any_of(vec![less(c(1), n(3)), equal(c(1), n(8))])]);
    assert_same_rows(&mfp, &plan);
}

#[test]
fn contradiction_without_index_shrinks_the_filter() {
    // (a = 5 AND a = 8) OR b = 1
    let predicate = any_of(vec![
        all_of(vec![equal(c(0), n(5)), equal(c(0), n(8))]),
        equal(c(1), n(1)),
    ]);
    let mfp = operator(2, vec![], vec![predicate]);
    let plan = LiteralConstraints::plan_scan(&mfp, T, &indexes(vec![])).unwrap();
    assert_eq!(plan.lookup, None);
    assert!(!plan.kept_given);
    assert_eq!(plan.mfp.predicates, vec![equal(c(1), n(1))]);
    assert_same_rows(&mfp, &plan);
}

#[test]
fn retained_filter_is_never_larger() {
    let predicates = vec![
        vec![equal(c(0), n(5)), less(c(1), n(3))],
        vec![any_of(vec![
            all_of(vec![equal(c(0), n(3)), equal(c(1), n(5))]),
            all_of(vec![equal(c(0), n(7)), equal(c(1), n(8))]),
        ])],
        vec![all_of(vec![
            any_of(vec![equal(c(0), n(1)), equal(c(0), n(2))]),
            any_of(vec![less(c(1), n(3)), equal(c(1), n(8))]),
        ])],
        vec![any_of(vec![all_of(vec![equal(c(0), n(5)), equal(c(0), n(8))]), equal(c(1), n(1))])],
    ];
    for list in predicates {
        let mfp = operator(2, vec![], list);
        for catalog in [indexes(vec![]), indexes(vec![vec![c(0)]]), indexes(vec![vec![c(0), c(1)]])] {
            let plan = LiteralConstraints::plan_scan(&mfp, T, &catalog).unwrap();
            assert!(size_of(&plan.mfp.predicates) <= size_of(&mfp.predicates));
            assert_same_rows(&mfp, &plan);
        }
    }
}

#[test]
fn constraint_on_a_computed_column_is_found() {
    // column 2 is defined as a = 5, and the filter is column 2
    let mfp = operator(2, vec![equal(c(0), n(5))], vec![c(2)]);
    let plan = LiteralConstraints::plan_scan(&mfp, T, &indexes(vec![vec![c(0)]])).unwrap();
    assert_eq!(plan.lookup, Some((vec![c(0)], vec![vec![Value::Int64(5)]])));
    assert_same_rows(&mfp, &plan);
}

#[test]
fn computed_column_compared_with_a_literal_is_inlined() {
    // column 2 is defined as column 0, and the filter is column 2 = 4
    let mut mfp = operator(2, vec![c(0)], vec![equal(c(2), n(4))]);
    LiteralConstraints::inline_literal_constraints(&mut mfp).unwrap();
    assert_eq!(mfp.predicates, vec![equal(c(0), n(4))]);
    assert_eq!(mfp.expressions, vec![c(0)]);
}

#[test]
fn computed_column_without_literal_equality_is_not_inlined() {
    let mut mfp = operator(2, vec![less(c(0), n(1))], vec![c(2)]);
    let before = mfp.clone();
    LiteralConstraints::inline_literal_constraints(&mut mfp).unwrap();
    assert_eq!(mfp, before);
}

fn parity(depth: usize) -> ScalarExpr {
    let mut e = c(0);
    for _ in 0..depth {
        e = e.call_unary(UnaryFunc::Not);
    }
    e
}

#[test]
fn too_deep_predicate_is_an_error() {
    let deep = parity(RECURSION_LIMIT);
    assert_eq!(deep.size(), Err(RecursionLimitError { limit: RECURSION_LIMIT }));
    let mfp = operator(1, vec![], vec![deep]);
    let result = LiteralConstraints::plan_scan(&mfp, T, &indexes(vec![vec![c(0)]]));
    assert_eq!(result, Err(RecursionLimitError { limit: 2048 }));
}

#[test]
fn deepest_allowed_predicate_is_measured() {
    let deep = parity(RECURSION_LIMIT - 1);
    assert_eq!(deep.size(), Ok(RECURSION_LIMIT));
    assert_eq!(deep.size_within(RECURSION_LIMIT - 1), None);
}

#[test]
fn predicates_size_adds_up_the_nodes() {
    let mfp = operator(2, vec![], vec![equal(c(0), n(5)), all_of(vec![c(1), less(c(1), n(3))])]);
    assert_eq!(LiteralConstraints::predicates_size(&mfp), Ok(3 + 5));
    assert_eq!(LiteralConstraints::predicates_size(&operator(2, vec![], vec![])), Ok(0));
}

/// A conjunction of `count` disjunctions of two comparisons each: its
/// expansion has two to the power of `count` branches.
fn wide(count: i64) -> ScalarExpr {
    let mut args = Vec::new();
    for i in 0..count {
        args.push(any_of(vec![less(c(0), n(i)), less(c(1), n(i))]));
    }
    all_of(args)
}

#[test]
fn expansion_beyond_the_cap_is_cut_short() {
    let mut mfp = operator(2, vec![], vec![wide(12)]);
    LiteralConstraints::list_of_predicates_to_and_of_predicates(&mut mfp);
    assert_eq!(LiteralConstraints::distribute_and_over_or(&mut mfp), Ok(false));
    let mut small = operator(2, vec![], vec![wide(3)]);
    LiteralConstraints::list_of_predicates_to_and_of_predicates(&mut small);
    assert_eq!(LiteralConstraints::distribute_and_over_or(&mut small), Ok(true));
    assert_eq!(LiteralConstraints::get_or_args(&small).len(), 8);
}

#[test]
fn cap_leaves_the_operator_as_it_is() {
    // a = 1 would be answered by the index, were the expansion not cut short
    let mfp = operator(2, vec![], vec![equal(c(0), n(1)), wide(12)]);
    let plan = LiteralConstraints::plan_scan(&mfp, T, &indexes(vec![vec![c(0)]])).unwrap();
    assert_eq!(plan, ScanRewrite { mfp: mfp.clone(), kept_given: true, lookup: None });
}

#[test]
fn undo_preparation_keeps_the_smaller() {
    let given = operator(2, vec![], vec![equal(c(0), n(5)), less(c(1), n(3))]);
    // the prepared form of a part of the given operator
    let mut smaller = operator(2, vec![], vec![any_of(vec![all_of(vec![less(c(1), n(3))])])]);
    assert_eq!(LiteralConstraints::undo_preparation(&mut smaller, &given), Ok(false));
    assert_eq!(smaller.predicates, vec![less(c(1), n(3))]);
    // the prepared form of the given operator itself is not smaller
    let mut same = given.clone();
    LiteralConstraints::list_of_predicates_to_and_of_predicates(&mut same);
    LiteralConstraints::unary_and(&mut same);
    assert_eq!(LiteralConstraints::undo_preparation(&mut same, &given), Ok(true));
    assert_eq!(same, given);
}

#[test]
fn canonicalize_undoes_the_wrapping() {
    let mut mfp = operator(
        2,
        vec![],
        vec![any_of(vec![all_of(vec![equal(c(0), n(5)), less(c(1), n(3))])])],
    );
    LiteralConstraints::canonicalize_predicates(&mut mfp);
    assert_eq!(mfp.predicates, vec![equal(c(0), n(5)), less(c(1), n(3))]);
    let mut two = operator(2, vec![], vec![any_of(vec![all_of(vec![c(0)]), all_of(vec![c(1)])])]);
    LiteralConstraints::canonicalize_predicates(&mut two);
    assert_eq!(two.predicates, vec![any_of(vec![c(0), c(1)])]);
}

#[test]
fn unary_and_wraps_bare_branches() {
    let mut mfp = operator(2, vec![], vec![any_of(vec![c(0), all_of(vec![c(1)])])]);
    LiteralConstraints::unary_and(&mut mfp);
    assert_eq!(mfp.predicates, vec![any_of(vec![all_of(vec![c(0)]), all_of(vec![c(1)])])]);
    let mut bare = operator(2, vec![], vec![c(0)]);
    LiteralConstraints::unary_and(&mut bare);
    assert_eq!(bare.predicates, vec![any_of(vec![all_of(vec![c(0)])])]);
}

#[test]
fn list_of_predicates_becomes_one_conjunction() {
    let mut mfp = operator(2, vec![], vec![c(0), c(1)]);
    LiteralConstraints::list_of_predicates_to_and_of_predicates(&mut mfp);
    assert_eq!(mfp.predicates, vec![all_of(vec![c(0), c(1)])]);
    let mut none = operator(2, vec![], vec![]);
    LiteralConstraints::list_of_predicates_to_and_of_predicates(&mut none);
    assert_eq!(none.predicates, vec![all_of(vec![])]);
}

#[test]
fn distribution_gives_a_disjunction_of_conjunctions() {
    // (a || b) && (c || d), with the columns 0 to 3
    let mut mfp =
        operator(4, vec![], vec![all_of(vec![any_of(vec![c(0), c(1)]), any_of(vec![c(2), c(3)])])]);
    assert_eq!(LiteralConstraints::distribute_and_over_or(&mut mfp), Ok(true));
    assert_eq!(
        mfp.predicates,
        vec![any_of(vec![
            all_of(vec![c(2), c(0)]),
            all_of(vec![c(3), c(0)]),
            all_of(vec![c(2), c(1)]),
            all_of(vec![c(3), c(1)]),
        ])]
    );
}

#[test]
fn contradictions_are_dropped_even_where_the_expansion_is_cut_short() {
    // (a = 1 AND a = 2 AND b < 0 AND ... AND b < 249) OR <wide>: the first branch
    // can never hold, and it is most of the filter
    let mut doomed = vec![equal(c(0), n(1)), equal(c(0), n(2))];
    for i in 0..250 {
        doomed.push(less(c(1), n(i)));
    }
    let mfp = operator(2, vec![], vec![any_of(vec![all_of(doomed), wide(8)])]);
    let mut expanded = mfp.clone();
    LiteralConstraints::list_of_predicates_to_and_of_predicates(&mut expanded);
    assert_eq!(LiteralConstraints::distribute_and_over_or(&mut expanded), Ok(false));
    let plan = LiteralConstraints::plan_scan(&mfp, T, &indexes(vec![vec![c(1)]])).unwrap();
    // no index is looked for, but the smaller filter is kept
    assert_eq!(plan.lookup, None);
    assert!(!plan.kept_given);
    assert_eq!(LiteralConstraints::predicates_size(&mfp), Ok(815));
    assert_eq!(LiteralConstraints::predicates_size(&plan.mfp), Ok(361));
    assert_same_rows(&mfp, &plan);
}

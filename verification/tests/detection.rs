use literal_constraints::index::{GlobalId, IndexCatalog};
use literal_constraints::literal_constraints::LiteralConstraints;
use literal_constraints::mfp::MapFilterProject;
use literal_constraints::scalar::{BinaryFunc, ScalarExpr, UnaryFunc, VariadicFunc};
use literal_constraints::value::{IntType, Value};

fn col(i: usize) -> ScalarExpr {
    ScalarExpr::column(i)
}

fn lit(v: i64) -> ScalarExpr {
    ScalarExpr::literal(Value::Int64(v))
}

fn eq(a: ScalarExpr, b: ScalarExpr) -> ScalarExpr {
    a.call_binary(b, BinaryFunc::Eq)
}

fn and(args: Vec<ScalarExpr>) -> ScalarExpr {
    ScalarExpr::call_variadic(VariadicFunc::And, args)
}

fn or(args: Vec<ScalarExpr>) -> ScalarExpr {
    ScalarExpr::call_variadic(VariadicFunc::Or, args)
}

fn filter(arity: usize, predicates: Vec<ScalarExpr>) -> MapFilterProject {
    let mut mfp = MapFilterProject::new(arity);
    mfp.predicates = predicates;
    mfp
}

/// Brings the operator into the form in which constraints are looked for.
fn prepare(mfp: &mut MapFilterProject) -> bool {
    LiteralConstraints::inline_literal_constraints(mfp).unwrap();
    LiteralConstraints::list_of_predicates_to_and_of_predicates(mfp);
    let complete = LiteralConstraints::distribute_and_over_or(mfp).unwrap();
    LiteralConstraints::unary_and(mfp);
    complete
}

fn catalog(id: GlobalId, keys: Vec<Vec<ScalarExpr>>) -> IndexCatalog {
    let mut catalog = IndexCatalog::new();
    for key in keys {
        catalog.insert(id, key);
    }
    catalog
}

const T: GlobalId = GlobalId::User(1);

#[test]
fn partial_branch_is_rejected_for_the_wide_key() {
    // (f1 = 3 AND f2 = 5) OR (f1 = 7)
    let mut mfp = filter(
        2,
        vec![or(vec![and(vec![eq(col(0), lit(3)), eq(col(1), lit(5))]), eq(col(0), lit(7))])],
    );
    assert!(prepare(&mut mfp));
    assert!(!LiteralConstraints::remove_impossible_or_args(&mut mfp));
    let wide = catalog(T, vec![vec![col(0), col(1)]]);
    assert_eq!(LiteralConstraints::detect_literal_constraints(&mfp, T, &wide), None);
}

#[test]
fn partial_branch_is_accepted_for_the_narrow_key() {
    let mut mfp = filter(
        2,
        vec![or(vec![and(vec![eq(col(0), lit(3)), eq(col(1), lit(5))]), eq(col(0), lit(7))])],
    );
    assert!(prepare(&mut mfp));
    let both = catalog(T, vec![vec![col(0), col(1)], vec![col(0)]]);
    let found = LiteralConstraints::detect_literal_constraints(&mfp, T, &both);
    assert_eq!(
        found,
        Some((vec![col(0)], vec![vec![Value::Int64(3)], vec![Value::Int64(7)]]))
    );
}

#[test]
fn contradicting_branch_is_removed() {
    // (a = 5 AND a = 5 AND a = 8) OR (b = 1)
    let mut mfp = filter(
        2,
        vec![or(vec![
            and(vec![eq(col(0), lit(5)), eq(col(0), lit(5)), eq(col(0), lit(8))]),
            eq(col(1), lit(1)),
        ])],
    );
    assert!(prepare(&mut mfp));
    assert!(LiteralConstraints::remove_impossible_or_args(&mut mfp));
    assert_eq!(mfp.predicates, vec![or(vec![and(vec![eq(col(1), lit(1))])])]);
}

#[test]
fn duplicate_conjunct_is_removed_but_the_branch_stays() {
    // (a = 5 AND a = 5 AND b = 8)
    let mut mfp = filter(
        2,
        vec![and(vec![eq(col(0), lit(5)), eq(col(0), lit(5)), eq(col(1), lit(8))])],
    );
    assert!(prepare(&mut mfp));
    assert!(LiteralConstraints::remove_impossible_or_args(&mut mfp));
    assert_eq!(
        mfp.predicates,
        vec![or(vec![and(vec![eq(col(0), lit(5)), eq(col(1), lit(8))])])]
    );
}

#[test]
fn nothing_to_remove_reports_no_change() {
    let mut mfp = filter(2, vec![eq(col(0), lit(5)), eq(col(1), lit(8))]);
    assert!(prepare(&mut mfp));
    let before = mfp.clone();
    assert!(!LiteralConstraints::remove_impossible_or_args(&mut mfp));
    assert_eq!(mfp, before);
}

#[test]
fn impossible_equality_removes_its_branch() {
    // a is a 16-bit column: (a::int32 = 100000) OR (a::int32 = 7)
    let widened = || col(0).call_unary(UnaryFunc::Cast { from: IntType::Int16, to: IntType::Int32 });
    let big = eq(widened(), ScalarExpr::literal(Value::Int32(100000)));
    let small = eq(widened(), ScalarExpr::literal(Value::Int32(7)));
    let mut mfp = filter(1, vec![or(vec![big, small])]);
    assert!(prepare(&mut mfp));
    assert!(LiteralConstraints::remove_impossible_or_args(&mut mfp));
    let kept = eq(widened(), ScalarExpr::literal(Value::Int32(7)));
    assert_eq!(mfp.predicates, vec![or(vec![and(vec![kept])])]);
}

#[test]
fn multi_key_extraction() {
    // (f1 = 3 AND f2 = 5) OR (f1 = 7 AND f2 = 9)
    let mut mfp = filter(
        2,
        vec![or(vec![
            and(vec![eq(col(0), lit(3)), eq(col(1), lit(5))]),
            and(vec![eq(col(0), lit(7)), eq(col(1), lit(9))]),
        ])],
    );
    assert!(prepare(&mut mfp));
    let indexes = catalog(T, vec![vec![col(0), col(1)]]);
    let (key, rows) = LiteralConstraints::detect_literal_constraints(&mfp, T, &indexes).unwrap();
    assert_eq!(key, vec![col(0), col(1)]);
    assert_eq!(
        rows,
        vec![vec![Value::Int64(3), Value::Int64(5)], vec![Value::Int64(7), Value::Int64(9)]]
    );
    assert!(LiteralConstraints::remove_literal_constraints(&mut mfp, &key));
    // both residuals are empty, and they are the same: one empty conjunction is left
    assert_eq!(mfp.predicates, vec![or(vec![and(vec![])])]);
}

#[test]
fn rows_come_out_sorted_whatever_the_order_of_the_branches() {
    let mut mfp = filter(
        1,
        vec![or(vec![eq(col(0), lit(9)), eq(col(0), lit(-4)), eq(col(0), lit(2))])],
    );
    assert!(prepare(&mut mfp));
    let indexes = catalog(T, vec![vec![col(0)]]);
    let (_, rows) = LiteralConstraints::detect_literal_constraints(&mfp, T, &indexes).unwrap();
    assert_eq!(rows, vec![vec![Value::Int64(-4)], vec![Value::Int64(2)], vec![Value::Int64(9)]]);
}

#[test]
fn duplicates_collapse_after_expansion() {
    // a IN (1, 2) AND (c OR d), where c and d are the columns 1 and 2
    let mut mfp = filter(
        3,
        vec![and(vec![
            or(vec![eq(col(0), lit(1)), eq(col(0), lit(2))]),
            or(vec![col(1), col(2)]),
        ])],
    );
    assert!(prepare(&mut mfp));
    // the expansion has four branches
    assert_eq!(LiteralConstraints::get_or_args(&mfp).len(), 4);
    let indexes = catalog(T, vec![vec![col(0)]]);
    let (key, rows) = LiteralConstraints::detect_literal_constraints(&mfp, T, &indexes).unwrap();
    assert_eq!(key, vec![col(0)]);
    assert_eq!(rows, vec![vec![Value::Int64(1)], vec![Value::Int64(2)]]);
    // each literal comes with both residuals, so the constraints can go
    assert!(LiteralConstraints::remove_literal_constraints(&mut mfp, &key));
    assert_eq!(mfp.predicates, vec![or(vec![and(vec![col(1)]), and(vec![col(2)])])]);
}

#[test]
fn constraints_stay_where_the_residuals_differ() {
    // (f1 = 3 AND f2 = 5) OR (f1 = 7 AND f2 = 555) with the key [f1]
    let mut mfp = filter(
        2,
        vec![or(vec![
            and(vec![eq(col(0), lit(3)), eq(col(1), lit(5))]),
            and(vec![eq(col(0), lit(7)), eq(col(1), lit(555))]),
        ])],
    );
    assert!(prepare(&mut mfp));
    let before = mfp.clone();
    assert!(!LiteralConstraints::remove_literal_constraints(&mut mfp, &vec![col(0)]));
    assert_eq!(mfp, before);
}

#[test]
fn constraints_go_where_the_residuals_agree() {
    // (f1 = 3 AND f2 = 5) OR (f1 = 7 AND f2 = 5) with the key [f1] leaves f2 = 5
    let mut mfp = filter(
        2,
        vec![or(vec![
            and(vec![eq(col(0), lit(3)), eq(col(1), lit(5))]),
            and(vec![eq(col(0), lit(7)), eq(col(1), lit(5))]),
        ])],
    );
    assert!(prepare(&mut mfp));
    assert!(LiteralConstraints::remove_literal_constraints(&mut mfp, &vec![col(0)]));
    assert_eq!(mfp.predicates, vec![or(vec![and(vec![eq(col(1), lit(5))])])]);
}

#[test]
fn empty_key_is_never_used() {
    let mut mfp = filter(1, vec![eq(col(0), lit(1))]);
    assert!(prepare(&mut mfp));
    let indexes = catalog(T, vec![vec![]]);
    assert_eq!(LiteralConstraints::detect_literal_constraints(&mfp, T, &indexes), None);
}

#[test]
fn indexes_on_other_collections_are_not_used() {
    let mut mfp = filter(1, vec![eq(col(0), lit(1))]);
    assert!(prepare(&mut mfp));
    let indexes = catalog(GlobalId::User(2), vec![vec![col(0)]]);
    assert_eq!(LiteralConstraints::detect_literal_constraints(&mfp, T, &indexes), None);
}

#[test]
fn the_key_with_more_fields_wins() {
    let mut mfp = filter(2, vec![eq(col(0), lit(1)), eq(col(1), lit(2))]);
    assert!(prepare(&mut mfp));
    let indexes = catalog(T, vec![vec![col(0), col(1)], vec![col(0)]]);
    let (key, rows) = LiteralConstraints::detect_literal_constraints(&mfp, T, &indexes).unwrap();
    assert_eq!(key, vec![col(0), col(1)]);
    assert_eq!(rows, vec![vec![Value::Int64(1), Value::Int64(2)]]);
}

#[test]
fn among_equal_keys_the_one_without_cast_inversion_wins() {
    // b is a 16-bit column. The filter is a = 1 AND b::int32 = 2.
    let widened_b = col(1).call_unary(UnaryFunc::Cast { from: IntType::Int16, to: IntType::Int32 });
    let mut mfp = filter(
        2,
        vec![eq(col(0), lit(1)), eq(widened_b, ScalarExpr::literal(Value::Int32(2)))],
    );
    assert!(prepare(&mut mfp));
    // the key [b] needs the cast undone, the key [a] does not
    let indexes = catalog(T, vec![vec![col(0)], vec![col(1)]]);
    let (key, rows) = LiteralConstraints::detect_literal_constraints(&mfp, T, &indexes).unwrap();
    assert_eq!(key, vec![col(0)]);
    assert_eq!(rows, vec![vec![Value::Int64(1)]]);
    // alone, the key [b] is used, with the literal brought to 16 bits
    let only_b = catalog(T, vec![vec![col(1)]]);
    let (key, rows) = LiteralConstraints::detect_literal_constraints(&mfp, T, &only_b).unwrap();
    assert_eq!(key, vec![col(1)]);
    assert_eq!(rows, vec![vec![Value::Int16(2)]]);
}

#[test]
fn among_equally_good_keys_the_last_wins() {
    let mut mfp = filter(2, vec![eq(col(0), lit(1)), eq(col(1), lit(2))]);
    assert!(prepare(&mut mfp));
    let indexes = catalog(T, vec![vec![col(0)], vec![col(1)]]);
    let (key, _) = LiteralConstraints::detect_literal_constraints(&mfp, T, &indexes).unwrap();
    assert_eq!(key, vec![col(1)]);
}

#[test]
fn two_conjuncts_on_one_key_field_make_the_key_unusable() {
    // a = 1 AND a::int64 = 1 through two casts: both fix the key field a
    let twice = col(0)
        .call_unary(UnaryFunc::Cast { from: IntType::Int64, to: IntType::Int32 })
        .call_unary(UnaryFunc::Cast { from: IntType::Int32, to: IntType::Int64 });
    let key_field = col(0).call_unary(UnaryFunc::Cast { from: IntType::Int64, to: IntType::Int32 });
    let direct = eq(
        col(0).call_unary(UnaryFunc::Cast { from: IntType::Int64, to: IntType::Int32 }),
        ScalarExpr::literal(Value::Int32(7)),
    );
    let through = eq(twice, ScalarExpr::literal(Value::Int64(5)));
    let mut mfp = filter(1, vec![through, direct]);
    assert!(prepare(&mut mfp));
    assert!(!LiteralConstraints::remove_impossible_or_args(&mut mfp));
    let indexes = catalog(T, vec![vec![key_field]]);
    assert_eq!(LiteralConstraints::detect_literal_constraints(&mfp, T, &indexes), None);
}

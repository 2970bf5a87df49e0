use literal_constraints::scalar::{
    all_unique, contains_expr, BinaryFunc, ScalarExpr, UnaryFunc, VariadicFunc,
};
use literal_constraints::strip::same_conjuncts;
use literal_constraints::value::{row_less_than, sort_dedup_rows, IntType, Value};

fn c(i: usize) -> ScalarExpr {
    ScalarExpr::column(i)
}

fn int32(v: i32) -> ScalarExpr {
    ScalarExpr::literal(Value::Int32(v))
}

fn widen(e: ScalarExpr) -> ScalarExpr {
    e.call_unary(UnaryFunc::Cast { from: IntType::Int16, to: IntType::Int32 })
}

fn equal(a: ScalarExpr, b: ScalarExpr) -> ScalarExpr {
    a.call_binary(b, BinaryFunc::Eq)
}

#[test]
fn casts_convert_or_yield_null() {
    let widen = UnaryFunc::Cast { from: IntType::Int16, to: IntType::Int32 };
    let narrow = UnaryFunc::Cast { from: IntType::Int32, to: IntType::Int16 };
    assert_eq!(widen.eval(Value::Int16(-5)), Value::Int32(-5));
    assert_eq!(narrow.eval(Value::Int32(32767)), Value::Int16(32767));
    assert_eq!(narrow.eval(Value::Int32(32768)), Value::Null);
    assert_eq!(narrow.eval(Value::Int32(-32769)), Value::Null);
    assert_eq!(widen.eval(Value::Int32(1)), Value::Null);
    assert_eq!(widen.eval(Value::Null), Value::Null);
    assert_eq!(widen.inverse_of(), Some(narrow));
    assert_eq!(UnaryFunc::Not.inverse_of(), None);
    assert_eq!(UnaryFunc::Not.eval(Value::Bool(true)), Value::Bool(false));
    assert_eq!(UnaryFunc::Not.eval(Value::Int16(1)), Value::Null);
    assert_eq!(UnaryFunc::IsNull.eval(Value::Null), Value::Bool(true));
    assert_eq!(UnaryFunc::IsNull.eval(Value::Int16(1)), Value::Bool(false));
}

#[test]
fn integers_fit_their_types() {
    assert_eq!(Value::from_int(IntType::Int16, 32767), Some(Value::Int16(32767)));
    assert_eq!(Value::from_int(IntType::Int16, 32768), None);
    assert_eq!(Value::from_int(IntType::Int32, -2147483648), Some(Value::Int32(-2147483648)));
    assert_eq!(Value::from_int(IntType::Int32, 2147483648), None);
    assert_eq!(Value::from_int(IntType::Int64, i64::MIN), Some(Value::Int64(i64::MIN)));
    assert_eq!(Value::Int32(7).as_int(), Some((IntType::Int32, 7)));
    assert_eq!(Value::Bool(true).as_int(), None);
}

#[test]
fn cast_around_the_expression_is_undone() {
    // a::int32 = 7 becomes 7 (as 16 bits) = a, with the literal in front
    let e = equal(widen(c(0)), int32(7));
    let expected = equal(ScalarExpr::literal(Value::Int16(7)), c(0));
    assert_eq!(e.invert_casts_on_expr_eq_literal(), expected);
    // the mirrored form gives the same
    let mirrored = equal(int32(7), widen(c(0)));
    assert_eq!(mirrored.invert_casts_on_expr_eq_literal(), expected);
    // a literal that does not fit is left alone
    let big = equal(widen(c(0)), int32(100000));
    assert_eq!(big.invert_casts_on_expr_eq_literal(), equal(int32(100000), widen(c(0))));
    // other expressions are copied
    let other = c(0).call_binary(int32(7), BinaryFunc::Lt);
    assert_eq!(other.invert_casts_on_expr_eq_literal(), other);
}

#[test]
fn impossible_equalities_are_recognised() {
    assert!(equal(widen(c(0)), int32(100000)).impossible_literal_equality_because_types());
    assert!(equal(int32(-40000), widen(c(0))).impossible_literal_equality_because_types());
    assert!(!equal(widen(c(0)), int32(7)).impossible_literal_equality_because_types());
    assert!(!equal(c(0), int32(100000)).impossible_literal_equality_because_types());
    assert!(!equal(widen(c(0)), ScalarExpr::literal(Value::Null))
        .impossible_literal_equality_because_types());
    // a literal of another type than the cast yields can never be met
    assert!(equal(widen(c(0)), ScalarExpr::literal(Value::Int64(7)))
        .impossible_literal_equality_because_types());
}

#[test]
fn literal_equalities_are_matched_against_a_key() {
    assert_eq!(equal(c(0), int32(7)).expr_eq_literal(&c(0)), Some((Value::Int32(7), false)));
    assert_eq!(equal(int32(7), c(0)).expr_eq_literal(&c(0)), Some((Value::Int32(7), false)));
    assert_eq!(equal(c(0), int32(7)).expr_eq_literal(&c(1)), None);
    assert_eq!(equal(widen(c(0)), int32(7)).expr_eq_literal(&c(0)), Some((Value::Int16(7), true)));
    assert_eq!(
        equal(widen(c(0)), int32(7)).expr_eq_literal(&widen(c(0))),
        Some((Value::Int32(7), false))
    );
    assert_eq!(equal(widen(c(0)), int32(100000)).expr_eq_literal(&c(0)), None);
    assert_eq!(equal(c(0), ScalarExpr::literal(Value::Null)).expr_eq_literal(&c(0)), None);
    assert_eq!(c(0).call_binary(int32(7), BinaryFunc::Lt).expr_eq_literal(&c(0)), None);
    assert_eq!(equal(c(0), int32(7)).any_expr_eq_literal(), Some(c(0)));
    assert_eq!(equal(widen(c(1)), int32(7)).any_expr_eq_literal(), Some(c(1)));
    assert_eq!(equal(c(0), c(1)).any_expr_eq_literal(), None);
}

#[test]
fn evaluation_follows_three_valued_logic() {
    let row = vec![Value::Bool(true), Value::Bool(false), Value::Null, Value::Int64(4)];
    let and = |args| ScalarExpr::call_variadic(VariadicFunc::And, args);
    let or = |args| ScalarExpr::call_variadic(VariadicFunc::Or, args);
    assert_eq!(and(vec![c(0), c(2)]).eval(&row), Value::Null);
    assert_eq!(and(vec![c(1), c(2)]).eval(&row), Value::Bool(false));
    assert_eq!(and(vec![c(0), c(0)]).eval(&row), Value::Bool(true));
    assert_eq!(and(vec![]).eval(&row), Value::Bool(true));
    assert_eq!(or(vec![c(0), c(2)]).eval(&row), Value::Bool(true));
    assert_eq!(or(vec![c(1), c(2)]).eval(&row), Value::Null);
    assert_eq!(or(vec![]).eval(&row), Value::Bool(false));
    assert_eq!(and(vec![c(3)]).eval(&row), Value::Null);
    let coalesce = ScalarExpr::call_variadic(VariadicFunc::Coalesce, vec![c(2), c(3), c(0)]);
    assert_eq!(coalesce.eval(&row), Value::Int64(4));
    assert_eq!(c(9).eval(&row), Value::Null);
    assert_eq!(equal(c(3), ScalarExpr::literal(Value::Int64(4))).eval(&row), Value::Bool(true));
    assert_eq!(equal(c(3), ScalarExpr::literal(Value::Int32(4))).eval(&row), Value::Bool(false));
    assert_eq!(equal(c(2), ScalarExpr::literal(Value::Int64(4))).eval(&row), Value::Null);
    let less = c(3).call_binary(ScalarExpr::literal(Value::Int64(5)), BinaryFunc::Lt);
    assert_eq!(less.eval(&row), Value::Bool(true));
    let mixed = c(3).call_binary(ScalarExpr::literal(Value::Int32(5)), BinaryFunc::Lt);
    assert_eq!(mixed.eval(&row), Value::Null);
    assert_eq!(BinaryFunc::Gte.eval(Value::Int16(3), Value::Int16(3)), Value::Bool(true));
    assert_eq!(BinaryFunc::Gt.eval(Value::Int16(3), Value::Int16(3)), Value::Bool(false));
    assert_eq!(BinaryFunc::Lte.eval(Value::Bool(false), Value::Bool(true)), Value::Bool(true));
    assert_eq!(BinaryFunc::NotEq.eval(Value::Int16(3), Value::Int16(4)), Value::Bool(true));
}

#[test]
fn size_counts_the_nodes() {
    assert_eq!(c(0).size(), Ok(1));
    assert_eq!(equal(widen(c(0)), int32(7)).size(), Ok(4));
    let and = ScalarExpr::call_variadic(VariadicFunc::And, vec![c(0), equal(c(1), int32(1)), c(2)]);
    assert_eq!(and.size(), Ok(6));
    assert_eq!(and.size_within(2), None);
    assert_eq!(and.size_within(3), Some(6));
    assert_eq!(c(0).size_within(0), None);
}

#[test]
fn flattening_merges_nested_calls_of_one_function() {
    let and = |args| ScalarExpr::call_variadic(VariadicFunc::And, args);
    let or = |args| ScalarExpr::call_variadic(VariadicFunc::Or, args);
    let nested = and(vec![c(0), and(vec![c(1), and(vec![c(2)])]), or(vec![c(3), or(vec![c(4)])])]);
    assert_eq!(nested.flatten(), and(vec![c(0), c(1), c(2), or(vec![c(3), c(4)])]));
    let coalesce = |args| ScalarExpr::call_variadic(VariadicFunc::Coalesce, args);
    let kept = coalesce(vec![coalesce(vec![c(0)]), c(1)]);
    assert_eq!(kept.flatten(), coalesce(vec![coalesce(vec![c(0)]), c(1)]));
    assert_eq!(and(vec![c(0)]).and_or_args(VariadicFunc::And), vec![c(0)]);
    assert_eq!(c(0).and_or_args(VariadicFunc::And), vec![c(0)]);
    assert_eq!(or(vec![c(0)]).and_or_args(VariadicFunc::And), vec![or(vec![c(0)])]);
}

#[test]
fn distribution_lifts_the_first_disjunction() {
    let and = |args| ScalarExpr::call_variadic(VariadicFunc::And, args);
    let or = |args| ScalarExpr::call_variadic(VariadicFunc::Or, args);
    // a AND (b OR c) AND d: the last argument takes the place of the disjunction
    let e = and(vec![c(0), or(vec![c(1), c(2)]), c(3)]);
    assert_eq!(
        e.distribute(),
        or(vec![and(vec![c(1), and(vec![c(0), c(3)])]), and(vec![c(2), and(vec![c(0), c(3)])])])
    );
    let plain = and(vec![c(0), c(1)]);
    assert_eq!(plain.distribute(), plain);
    // a conjunction with an empty disjunction is an empty disjunction
    assert_eq!(and(vec![c(0), or(vec![])]).distribute(), or(vec![]));
}

#[test]
fn simplification_unwraps_single_arguments() {
    let and = |args| ScalarExpr::call_variadic(VariadicFunc::And, args);
    let or = |args| ScalarExpr::call_variadic(VariadicFunc::Or, args);
    assert_eq!(or(vec![and(vec![c(0)])]).simplified(), c(0));
    assert_eq!(or(vec![and(vec![c(0), c(1)])]).simplified(), and(vec![c(0), c(1)]));
    assert_eq!(or(vec![and(vec![])]).simplified(), and(vec![]));
    assert_eq!(or(vec![]).simplified(), or(vec![]));
    // below another function nothing is touched
    let inside = and(vec![c(0)]).call_unary(UnaryFunc::IsNull);
    assert_eq!(inside.simplified(), inside);
}

#[test]
fn rows_are_ordered_by_type_then_value() {
    let rows = vec![
        vec![Value::Int64(2), Value::Int64(1)],
        vec![Value::Int64(-1)],
        vec![Value::Null],
        vec![Value::Int64(2), Value::Int64(1)],
        vec![Value::Bool(true)],
        vec![Value::Int16(9)],
        vec![Value::Int64(2)],
        vec![Value::Bool(false)],
        vec![],
    ];
    assert_eq!(
        sort_dedup_rows(&rows),
        vec![
            vec![],
            vec![Value::Null],
            vec![Value::Bool(false)],
            vec![Value::Bool(true)],
            vec![Value::Int16(9)],
            vec![Value::Int64(-1)],
            vec![Value::Int64(2)],
            vec![Value::Int64(2), Value::Int64(1)],
        ]
    );
    assert!(row_less_than(&vec![Value::Int64(1)], &vec![Value::Int64(1), Value::Null]));
    assert!(!row_less_than(&vec![Value::Int64(1)], &vec![Value::Int64(1)]));
    assert_eq!(sort_dedup_rows(&vec![]), Vec::<Vec<Value>>::new());
}

#[test]
fn uniqueness_and_membership() {
    assert!(all_unique(&vec![c(0), c(1), widen(c(0))]));
    assert!(!all_unique(&vec![c(0), c(1), c(0)]));
    assert!(all_unique(&vec![]));
    assert!(contains_expr(&vec![c(0), widen(c(1))], &widen(c(1))));
    assert!(!contains_expr(&vec![c(0), widen(c(1))], &c(1)));
    assert!(same_conjuncts(&vec![c(0), c(1), c(0)], &vec![c(1), c(0)]));
    assert!(!same_conjuncts(&vec![c(0), c(1)], &vec![c(1)]));
    assert!(same_conjuncts(&vec![], &vec![]));
}

#[test]
fn equality_and_copies() {
    let e = equal(widen(c(0)), int32(7));
    assert!(e.equals(&e.clone()));
    assert!(!e.equals(&equal(widen(c(0)), int32(8))));
    assert!(!c(0).equals(&c(1)));
    assert!(e.contains_literal_equality());
    assert!(e.clone().call_unary(UnaryFunc::Not).contains_literal_equality());
    assert!(!c(0).call_binary(c(1), BinaryFunc::Eq).contains_literal_equality());
    assert!(equal(c(3), int32(1)).equates_column_with_literal(2, 1));
    assert!(!equal(c(3), int32(1)).equates_column_with_literal(2, 0));
    assert!(!equal(widen(c(3)), int32(1)).equates_column_with_literal(2, 1));
}

#[test]
fn expressions_are_totally_ordered() {
    let and = |args| ScalarExpr::call_variadic(VariadicFunc::And, args);
    let or = |args| ScalarExpr::call_variadic(VariadicFunc::Or, args);
    // in increasing order
    let sorted = vec![
        c(0),
        c(1),
        ScalarExpr::literal(Value::Null),
        ScalarExpr::literal(Value::Bool(true)),
        int32(-1),
        int32(7),
        ScalarExpr::literal(Value::Int64(-9)),
        c(0).call_unary(UnaryFunc::Not),
        c(1).call_unary(UnaryFunc::Not),
        c(0).call_unary(UnaryFunc::IsNull),
        widen(c(0)),
        c(0).call_unary(UnaryFunc::Cast { from: IntType::Int32, to: IntType::Int16 }),
        equal(c(0), c(0)),
        equal(c(0), c(1)),
        equal(c(1), c(0)),
        c(0).call_binary(c(0), BinaryFunc::Lt),
        and(vec![]),
        and(vec![c(0)]),
        and(vec![c(0), c(0)]),
        and(vec![c(0), c(1)]),
        and(vec![c(1)]),
        or(vec![]),
        ScalarExpr::call_variadic(VariadicFunc::Coalesce, vec![c(0)]),
    ];
    for (i, a) in sorted.iter().enumerate() {
        for (j, b) in sorted.iter().enumerate() {
            assert_eq!(a.less_than(b), i < j, "{:?} before {:?}", a, b);
        }
    }
}

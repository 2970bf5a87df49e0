use literal_constraints::evaluate::Collections;
use literal_constraints::index::{GlobalId, IndexCatalog};
use literal_constraints::literal_constraints::LiteralConstraints;
use literal_constraints::relation::{Id, JoinImplementation, RelationExpr};
use literal_constraints::scalar::{BinaryFunc, ScalarExpr, UnaryFunc, VariadicFunc};
use literal_constraints::value::{IntType, Value};

const ORDERS: GlobalId = GlobalId::User(1);
const ITEMS: GlobalId = GlobalId::User(2);

fn c(i: usize) -> ScalarExpr {
    ScalarExpr::column(i)
}

fn n(v: i64) -> ScalarExpr {
    ScalarExpr::literal(Value::Int64(v))
}

fn equal(a: ScalarExpr, b: ScalarExpr) -> ScalarExpr {
    a.call_binary(b, BinaryFunc::Eq)
}

fn less(a: ScalarExpr, b: ScalarExpr) -> ScalarExpr {
    a.call_binary(b, BinaryFunc::Lt)
}

fn all_of(args: Vec<ScalarExpr>) -> ScalarExpr {
    ScalarExpr::call_variadic(VariadicFunc::And, args)
}

fn any_of(args: Vec<ScalarExpr>) -> ScalarExpr {
    ScalarExpr::call_variadic(VariadicFunc::Or, args)
}

fn get(id: GlobalId, arity: usize) -> RelationExpr {
    RelationExpr::Get { id: Id::Global(id), arity }
}

fn filtered(input: RelationExpr, predicates: Vec<ScalarExpr>) -> RelationExpr {
    RelationExpr::Filter { input: Box::new(input), predicates }
}

fn mapped(input: RelationExpr, scalars: Vec<ScalarExpr>) -> RelationExpr {
    RelationExpr::MapColumns { input: Box::new(input), scalars }
}

fn projected(input: RelationExpr, outputs: Vec<usize>) -> RelationExpr {
    RelationExpr::Project { input: Box::new(input), outputs }
}

/// Orders of three columns, some of them twice, some with nulls; items of
/// two columns, the first of which holds 16-bit integers.
fn database() -> Collections {
    let mut orders = Vec::new();
    for a in 0..6 {
        for b in 0..4 {
            orders.push(vec![Value::Int64(a), Value::Int64(b), Value::Int64(a * b)]);
        }
    }
    orders.push(vec![Value::Int64(3), Value::Int64(2), Value::Int64(6)]);
    orders.push(vec![Value::Int64(3), Value::Null, Value::Int64(6)]);
    orders.push(vec![Value::Null, Value::Int64(2), Value::Null]);
    let mut items = Vec::new();
    for a in 0..5 {
        items.push(vec![Value::Int16(a), Value::Int64(10 * a as i64)]);
        items.push(vec![Value::Int16(a), Value::Int64(10 * a as i64 + 1)]);
    }
    let mut db = Collections::new();
    db.insert(Id::Global(ORDERS), orders);
    db.insert(Id::Global(ITEMS), items);
    db
}

fn catalog() -> IndexCatalog {
    let mut catalog = IndexCatalog::new();
    catalog.insert(ORDERS, vec![c(0)]);
    catalog.insert(ORDERS, vec![c(0), c(1)]);
    catalog.insert(ITEMS, vec![c(0)]);
    catalog
}

/// Runs the pass and checks that the relation yields the same rows after as
/// before. Returns whether the pass installed a lookup.
fn assert_rows_kept(mut relation: RelationExpr) -> bool {
    let db = database();
    let before = relation.evaluate(&db);
    let pass = LiteralConstraints;
    assert_eq!(pass.transform(&mut relation, &catalog()), Ok(()));
    assert_eq!(relation.evaluate(&db), before);
    // a second run changes nothing
    let once = format!("{:?}", relation);
    assert_eq!(pass.transform(&mut relation, &catalog()), Ok(()));
    assert_eq!(format!("{:?}", relation), once);
    once.contains("IndexedFilter")
}

#[test]
fn point_lookup_yields_the_same_rows() {
    let relation = filtered(get(ORDERS, 3), vec![equal(c(0), n(3))]);
    let db = database();
    assert_eq!(relation.evaluate(&db).len(), 6);
    assert!(assert_rows_kept(relation));
}

#[test]
fn lookup_by_two_columns_yields_the_same_rows() {
    let relation =
        filtered(get(ORDERS, 3), vec![equal(c(0), n(3)), equal(n(2), c(1)), less(c(2), n(100))]);
    let db = database();
    assert_eq!(
        relation.evaluate(&db),
        vec![
            vec![Value::Int64(3), Value::Int64(2), Value::Int64(6)],
            vec![Value::Int64(3), Value::Int64(2), Value::Int64(6)],
        ]
    );
    assert!(assert_rows_kept(relation));
}

#[test]
fn in_list_yields_the_same_rows() {
    let relation = projected(
        filtered(
            get(ORDERS, 3),
            vec![
                any_of(vec![equal(c(0), n(5)), equal(c(0), n(1)), equal(c(0), n(1))]),
                any_of(vec![less(c(1), n(2)), equal(c(2), n(15))]),
            ],
        ),
        vec![2, 0],
    );
    assert!(assert_rows_kept(relation));
}

#[test]
fn branches_with_differing_residuals_yield_the_same_rows() {
    let relation = filtered(
        get(ORDERS, 3),
        vec![any_of(vec![
            all_of(vec![equal(c(0), n(1)), less(c(1), n(2))]),
            all_of(vec![equal(c(0), n(4)), equal(c(1), n(3))]),
        ])],
    );
    assert!(assert_rows_kept(relation));
}

#[test]
fn lookup_through_a_computed_column_yields_the_same_rows() {
    let relation = projected(
        filtered(mapped(get(ORDERS, 3), vec![equal(c(0), n(2)), less(c(1), c(2))]), vec![c(3), c(4)]),
        vec![0, 1, 4],
    );
    assert!(assert_rows_kept(relation));
}

#[test]
fn lookup_through_a_cast_yields_the_same_rows() {
    let widened = c(0).call_unary(UnaryFunc::Cast { from: IntType::Int16, to: IntType::Int32 });
    let relation =
        filtered(get(ITEMS, 2), vec![equal(widened.clone(), ScalarExpr::literal(Value::Int32(3)))]);
    let db = database();
    assert_eq!(relation.evaluate(&db).len(), 2);
    assert!(assert_rows_kept(relation));
    // a literal that no 16-bit integer can equal leaves no row
    let impossible =
        filtered(get(ITEMS, 2), vec![equal(widened, ScalarExpr::literal(Value::Int32(70000)))]);
    assert_eq!(impossible.evaluate(&db), Vec::<Vec<Value>>::new());
    assert_rows_kept(impossible);
}

#[test]
fn contradiction_yields_no_rows_before_and_after() {
    let relation = filtered(get(ORDERS, 3), vec![equal(c(0), n(3)), equal(c(0), n(4))]);
    let db = database();
    assert_eq!(relation.evaluate(&db), Vec::<Vec<Value>>::new());
    assert_rows_kept(relation);
}

#[test]
fn filters_without_literal_constraints_yield_the_same_rows() {
    let relation = filtered(get(ORDERS, 3), vec![less(c(0), c(1))]);
    assert!(!assert_rows_kept(relation));
}

#[test]
fn joins_and_unions_of_scans_yield_the_same_rows() {
    let left = filtered(get(ORDERS, 3), vec![equal(c(0), n(2))]);
    let right = filtered(get(ITEMS, 2), vec![equal(c(0), ScalarExpr::literal(Value::Int16(2)))]);
    let join = RelationExpr::Join {
        inputs: vec![left, right],
        equivalences: vec![vec![c(1), c(1)], vec![]],
        implementation: JoinImplementation::Unimplemented,
    };
    let db = database();
    // four orders with a = 2, each with itself, times the two items
    assert_eq!(join.evaluate(&db).len(), 8);
    assert!(assert_rows_kept(join));
    let union = RelationExpr::Union {
        inputs: vec![
            projected(filtered(get(ORDERS, 3), vec![equal(c(0), n(5))]), vec![2]),
            projected(get(ITEMS, 2), vec![1]),
            RelationExpr::Constant { rows: vec![vec![Value::Int64(-1)]], arity: 1 },
        ],
    };
    assert_eq!(union.evaluate(&db).len(), 4 + 10 + 1);
    assert!(assert_rows_kept(union));
}

#[test]
fn unknown_collections_are_empty() {
    let db = database();
    assert_eq!(get(GlobalId::User(99), 1).evaluate(&db), Vec::<Vec<Value>>::new());
    let mut later = database();
    later.insert(Id::Global(ITEMS), vec![vec![Value::Int16(7), Value::Int64(70)]]);
    assert_eq!(get(ITEMS, 2).evaluate(&later).len(), 1);
}

use literal_constraints::index::{GlobalId, IndexCatalog};
use literal_constraints::literal_constraints::LiteralConstraints;
use literal_constraints::relation::{Id, JoinImplementation, RelationExpr};
use literal_constraints::scalar::{
    BinaryFunc, RecursionLimitError, ScalarExpr, UnaryFunc, VariadicFunc, RECURSION_LIMIT,
};
use literal_constraints::value::Value;

const T: GlobalId = GlobalId::User(3);

fn c(i: usize) -> ScalarExpr {
    ScalarExpr::column(i)
}

fn n(v: i64) -> ScalarExpr {
    ScalarExpr::literal(Value::Int64(v))
}

fn equal(a: ScalarExpr, b: ScalarExpr) -> ScalarExpr {
    a.call_binary(b, BinaryFunc::Eq)
}

fn less(a: ScalarExpr, b: ScalarExpr) -> ScalarExpr {
    a.call_binary(b, BinaryFunc::Lt)
}

fn scan(arity: usize) -> RelationExpr {
    RelationExpr::Get { id: Id::Global(T), arity }
}

fn filtered(input: RelationExpr, predicates: Vec<ScalarExpr>) -> RelationExpr {
    RelationExpr::Filter { input: Box::new(input), predicates }
}

fn projected(input: RelationExpr, outputs: Vec<usize>) -> RelationExpr {
    RelationExpr::Project { input: Box::new(input), outputs }
}

fn index_on(key: Vec<ScalarExpr>) -> IndexCatalog {
    let mut catalog = IndexCatalog::new();
    catalog.insert(T, key);
    catalog
}

/// The join that stands for a lookup of `rows` by `key` in the collection
/// of `arity` columns.
fn lookup(arity: usize, key: Vec<ScalarExpr>, rows: Vec<Vec<Value>>) -> RelationExpr {
    let width = key.len();
    let equivalences = key.iter().enumerate().map(|(i, k)| vec![k.clone(), c(arity + i)]).collect();
    let join = RelationExpr::Join {
        inputs: vec![
            RelationExpr::ArrangeBy { input: Box::new(scan(arity)), keys: vec![key.clone()] },
            RelationExpr::ArrangeBy {
                input: Box::new(RelationExpr::Constant { rows: rows.clone(), arity: width }),
                keys: vec![(0..width).map(c).collect()],
            },
        ],
        equivalences,
        implementation: JoinImplementation::IndexedFilter(T, key, rows),
    };
    projected(join, (0..arity).collect())
}

#[test]
fn filter_on_a_scan_becomes_a_lookup() {
    let mut relation = filtered(scan(2), vec![equal(c(0), n(5)), less(c(1), n(3))]);
    let pass = LiteralConstraints;
    assert_eq!(pass.transform(&mut relation, &index_on(vec![c(0)])), Ok(()));
    let expected = filtered(lookup(2, vec![c(0)], vec![vec![Value::Int64(5)]]), vec![less(c(1), n(3))]);
    assert_eq!(relation, expected);
}

#[test]
fn filter_that_is_answered_entirely_disappears() {
    let mut relation = projected(filtered(scan(2), vec![equal(c(0), n(5))]), vec![1]);
    let pass = LiteralConstraints;
    assert_eq!(pass.transform(&mut relation, &index_on(vec![c(0)])), Ok(()));
    let expected = projected(lookup(2, vec![c(0)], vec![vec![Value::Int64(5)]]), vec![1]);
    assert_eq!(relation, expected);
}

#[test]
fn scan_without_a_usable_index_stays() {
    let given = || filtered(scan(2), vec![less(c(0), n(5))]);
    let mut relation = given();
    let pass = LiteralConstraints;
    assert_eq!(pass.transform(&mut relation, &index_on(vec![c(0)])), Ok(()));
    assert_eq!(relation, given());
}

#[test]
fn local_collections_are_not_looked_up() {
    let given = || {
        filtered(RelationExpr::Get { id: Id::Local(1), arity: 2 }, vec![equal(c(0), n(5))])
    };
    let mut relation = given();
    let pass = LiteralConstraints;
    assert_eq!(pass.transform(&mut relation, &index_on(vec![c(0)])), Ok(()));
    assert_eq!(relation, given());
}

#[test]
fn scans_below_other_operators_are_rewritten() {
    let branch = || filtered(scan(1), vec![equal(c(0), n(5))]);
    let mut relation = RelationExpr::Union {
        inputs: vec![branch(), RelationExpr::Constant { rows: vec![vec![Value::Int64(1)]], arity: 1 }],
    };
    let pass = LiteralConstraints;
    assert_eq!(pass.transform(&mut relation, &index_on(vec![c(0)])), Ok(()));
    let expected = RelationExpr::Union {
        inputs: vec![
            lookup(1, vec![c(0)], vec![vec![Value::Int64(5)]]),
            RelationExpr::Constant { rows: vec![vec![Value::Int64(1)]], arity: 1 },
        ],
    };
    assert_eq!(relation, expected);
}

#[test]
fn second_run_changes_nothing() {
    let mut relation = projected(
        filtered(
            RelationExpr::MapColumns { input: Box::new(scan(2)), scalars: vec![less(c(0), c(1))] },
            vec![equal(c(0), n(5)), c(2)],
        ),
        vec![1, 2],
    );
    let pass = LiteralConstraints;
    let catalog = index_on(vec![c(0)]);
    assert_eq!(pass.transform(&mut relation, &catalog), Ok(()));
    let once = format!("{:?}", relation);
    assert!(once.contains("IndexedFilter"));
    assert_eq!(pass.transform(&mut relation, &catalog), Ok(()));
    assert_eq!(format!("{:?}", relation), once);
}

#[test]
fn filter_beyond_the_cap_leaves_the_relation_as_it_is() {
    let mut wide = Vec::new();
    for i in 0..12 {
        wide.push(ScalarExpr::call_variadic(
            VariadicFunc::Or,
            vec![less(c(0), n(i)), less(c(1), n(i))],
        ));
    }
    let given =
        || filtered(scan(2), vec![equal(c(0), n(1)), ScalarExpr::call_variadic(VariadicFunc::And, wide.clone())]);
    let mut relation = given();
    let pass = LiteralConstraints;
    assert_eq!(pass.transform(&mut relation, &index_on(vec![c(0)])), Ok(()));
    assert_eq!(relation, given());
}

#[test]
fn too_deep_filter_fails_and_leaves_the_relation_as_it_is() {
    let mut deep = c(0);
    for _ in 0..RECURSION_LIMIT {
        deep = deep.call_unary(UnaryFunc::Not);
    }
    let given = filtered(scan(1), vec![deep.clone()]);
    let mut relation = filtered(scan(1), vec![deep]);
    let pass = LiteralConstraints;
    assert_eq!(
        pass.transform(&mut relation, &index_on(vec![c(0)])),
        Err(RecursionLimitError { limit: RECURSION_LIMIT })
    );
    assert_eq!(relation, given);
}

#[test]
fn too_deep_relation_fails() {
    let mut relation = scan(1);
    for _ in 0..(RECURSION_LIMIT + 2) {
        relation = RelationExpr::ArrangeBy { input: Box::new(relation), keys: vec![] };
    }
    let pass = LiteralConstraints;
    assert_eq!(
        pass.transform(&mut relation, &IndexCatalog::new()),
        Err(RecursionLimitError { limit: RECURSION_LIMIT })
    );
}

#[test]
fn stacked_filters_are_handled_one_stack_at_a_time() {
    // the inner filter is answered by the index, the outer one stays on top
    let mut relation =
        filtered(filtered(scan(2), vec![equal(c(0), n(5))]), vec![less(c(1), n(3))]);
    let pass = LiteralConstraints;
    assert_eq!(pass.transform(&mut relation, &index_on(vec![c(0)])), Ok(()));
    let expected = filtered(lookup(2, vec![c(0)], vec![vec![Value::Int64(5)]]), vec![less(c(1), n(3))]);
    assert_eq!(relation, expected);
}

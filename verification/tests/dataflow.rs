use literal_constraints::dataflow::{
    Catalog, CatalogEntry, CatalogIndex, CatalogItem, CollectionIdBundle, ComputeInstance,
    DataflowBuilder,
};
use literal_constraints::index::{GlobalId, IndexOracle};
use literal_constraints::literal_constraints::LiteralConstraints;
use literal_constraints::relation::{Id, RelationExpr};
use literal_constraints::scalar::{BinaryFunc, ScalarExpr};
use literal_constraints::value::Value;

fn u(n: u64) -> GlobalId {
    GlobalId::User(n)
}

fn entry(id: GlobalId, item: CatalogItem) -> CatalogEntry {
    CatalogEntry { id, item }
}

fn index(id: u64, on: u64, cluster_id: u64, keys: Vec<ScalarExpr>) -> CatalogIndex {
    CatalogIndex { id: u(id), on: u(on), cluster_id, keys }
}

/// Tables 1 and 2, a source 3, a view 10 over 1 and 3, a view 11 over 10
/// and 2, and a log 20 of the system. Indexes: 100 on table 1; 101 on view
/// 10, which is not installed; 102 on table 2 on another cluster.
fn catalog() -> Catalog {
    Catalog {
        entries: vec![
            entry(u(1), CatalogItem::Table),
            entry(u(2), CatalogItem::Table),
            entry(u(3), CatalogItem::Source),
            entry(u(10), CatalogItem::View { depends_on: vec![u(1), u(3)] }),
            entry(u(11), CatalogItem::View { depends_on: vec![u(10), u(2)] }),
            entry(GlobalId::System(20), CatalogItem::Log { has_storage_collection: true }),
            entry(u(100), CatalogItem::Other),
        ],
        indexes: vec![
            index(100, 1, 7, vec![ScalarExpr::column(0)]),
            index(101, 10, 7, vec![ScalarExpr::column(1)]),
            index(102, 2, 8, vec![ScalarExpr::column(0)]),
        ],
    }
}

fn instance() -> ComputeInstance {
    ComputeInstance { instance_id: 7, collections: vec![u(100), u(102)] }
}

#[test]
fn only_installed_indexes_of_the_instance_are_offered() {
    let catalog = catalog();
    let compute = instance();
    let builder = DataflowBuilder { catalog: &catalog, compute: &compute };
    assert_eq!(builder.indexes_on(u(1)), vec![(u(100), vec![ScalarExpr::column(0)])]);
    // the index on the view is not installed, the one on table 2 is on another cluster
    assert_eq!(builder.indexes_on(u(10)), vec![]);
    assert_eq!(builder.indexes_on(u(2)), vec![]);
    assert_eq!(IndexOracle::indexes_on(&builder, u(1)), vec![vec![ScalarExpr::column(0)]]);
    assert_eq!(IndexOracle::indexes_on(&builder, u(3)), Vec::<Vec<ScalarExpr>>::new());
}

#[test]
fn views_are_built_from_what_their_inputs_need() {
    let catalog = catalog();
    let compute = instance();
    let builder = DataflowBuilder { catalog: &catalog, compute: &compute };
    // view 11 reads view 10 and table 2; view 10 reads table 1, which has an index, and source 3
    let bundle = builder.sufficient_collections(&vec![u(11)]);
    assert_eq!(bundle, CollectionIdBundle { storage_ids: vec![u(3), u(2)], compute_ids: vec![u(100)] });
}

#[test]
fn indexed_collections_need_their_indexes_only() {
    let catalog = catalog();
    let compute = instance();
    let builder = DataflowBuilder { catalog: &catalog, compute: &compute };
    let bundle = builder.sufficient_collections(&vec![u(1)]);
    assert_eq!(bundle, CollectionIdBundle { storage_ids: vec![], compute_ids: vec![u(100)] });
}

#[test]
fn collections_are_listed_once() {
    let catalog = catalog();
    let compute = instance();
    let builder = DataflowBuilder { catalog: &catalog, compute: &compute };
    let bundle = builder.sufficient_collections(&vec![u(10), u(3), u(10), u(1), GlobalId::System(20)]);
    assert_eq!(
        bundle,
        CollectionIdBundle { storage_ids: vec![u(3), GlobalId::System(20)], compute_ids: vec![u(100)] }
    );
    let nothing = builder.sufficient_collections(&vec![]);
    assert_eq!(nothing, CollectionIdBundle { storage_ids: vec![], compute_ids: vec![] });
    let other = builder.sufficient_collections(&vec![u(100)]);
    assert_eq!(other, CollectionIdBundle { storage_ids: vec![], compute_ids: vec![] });
}

#[test]
fn identifiers_are_ordered_by_kind_then_number() {
    assert!(GlobalId::System(9).precedes(&GlobalId::User(1)));
    assert!(GlobalId::User(1).precedes(&GlobalId::User(2)));
    assert!(GlobalId::User(u64::MAX).precedes(&GlobalId::Transient(0)));
    assert!(GlobalId::Transient(5).precedes(&GlobalId::Explain));
    assert!(!GlobalId::User(2).precedes(&GlobalId::User(2)));
    assert!(!GlobalId::Explain.precedes(&GlobalId::System(0)));
}

#[test]
fn the_pass_uses_the_indexes_that_the_instance_offers() {
    let catalog = catalog();
    let compute = instance();
    let builder = DataflowBuilder { catalog: &catalog, compute: &compute };
    let five = ScalarExpr::literal(Value::Int64(5));
    let predicate = ScalarExpr::column(0).call_binary(five, BinaryFunc::Eq);
    let filter_on = |id: u64| RelationExpr::Filter {
        input: Box::new(RelationExpr::Get { id: Id::Global(u(id)), arity: 2 }),
        predicates: vec![predicate.clone()],
    };
    let pass = LiteralConstraints;
    // table 1 has an index that the instance offers
    let mut indexed = filter_on(1);
    assert_eq!(pass.transform(&mut indexed, &builder), Ok(()));
    assert!(matches!(indexed, RelationExpr::Project { .. }));
    // the index on table 2 belongs to another cluster
    let mut plain = filter_on(2);
    assert_eq!(pass.transform(&mut plain, &builder), Ok(()));
    assert_eq!(plain, filter_on(2));
}

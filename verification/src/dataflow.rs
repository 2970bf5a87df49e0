//! Which indexes a compute instance offers on a collection, and which
//! collections are enough to build a dataflow for given collections.

use crate::index::{lemma_rank_injective, GlobalId, IndexOracle};
use crate::scalar::{clone_exprs, exprs_view, lists_view, Expr, ScalarExpr};
use vstd::prelude::*;

verus! {

/// What a catalog entry is, as far as the building of dataflows depends on
/// it.
#[derive(Debug)]
pub enum CatalogItem {
    /// A view that is not materialized, with the collections it reads.
    View { depends_on: Vec<GlobalId> },
    Source,
    Table,
    MaterializedView,
    /// A log of the system, which may or may not be kept in storage.
    Log { has_storage_collection: bool },
    /// Anything that holds no data: an index, a sink, a type, ...
    Other,
}

/// An entry of the catalog.
#[derive(Debug)]
pub struct CatalogEntry {
    pub id: GlobalId,
    pub item: CatalogItem,
}

/// An index of the catalog: its own identifier, the collection it is on,
/// the cluster it belongs to, and its key.
#[derive(Debug)]
pub struct CatalogIndex {
    pub id: GlobalId,
    pub on: GlobalId,
    pub cluster_id: u64,
    pub keys: Vec<ScalarExpr>,
}

/// The part of the catalog that the building of dataflows reads.
#[derive(Debug)]
pub struct Catalog {
    pub entries: Vec<CatalogEntry>,
    pub indexes: Vec<CatalogIndex>,
}

/// A compute instance, with the collections that are installed on it.
#[derive(Debug)]
pub struct ComputeInstance {
    pub instance_id: u64,
    pub collections: Vec<GlobalId>,
}

/// Collections of storage and of a compute instance that together are
/// enough to build a dataflow. Neither list holds an identifier twice.
#[derive(Debug, PartialEq, Eq)]
pub struct CollectionIdBundle {
    pub storage_ids: Vec<GlobalId>,
    pub compute_ids: Vec<GlobalId>,
}

/// Builds dataflows for one compute instance from what the catalog holds.
#[derive(Debug)]
pub struct DataflowBuilder<'a> {
    pub catalog: &'a Catalog,
    pub compute: &'a ComputeInstance,
}

/// The identifiers, with the keys, of those of the indexes that are on the
/// collection `on`, belong to the instance, and are installed on it.
pub open spec fn offered(
    indexes: Seq<CatalogIndex>,
    compute: &ComputeInstance,
    on: GlobalId,
) -> Seq<(GlobalId, Seq<Expr>)>
    decreases indexes.len(),
{
    if indexes.len() == 0 {
        Seq::empty()
    } else {
        let head = offered(indexes.drop_last(), compute, on);
        let index = indexes.last();
        if index.on == on && index.cluster_id == compute.instance_id
            && compute.collections@.contains(index.id) {
            head.push((index.id, exprs_view(index.keys@)))
        } else {
            head
        }
    }
}

/// The first components of a sequence of pairs.
pub open spec fn ids_of(pairs: Seq<(GlobalId, Seq<Expr>)>) -> Seq<GlobalId> {
    Seq::new(pairs.len(), |i: int| pairs[i].0)
}

/// The second components of a sequence of pairs.
pub open spec fn keys_of(pairs: Seq<(GlobalId, Seq<Expr>)>) -> Seq<Seq<Expr>> {
    Seq::new(pairs.len(), |i: int| pairs[i].1)
}

/// The identifiers, with the keys, of a vector of indexes.
pub open spec fn pairs_view(pairs: Seq<(GlobalId, Vec<ScalarExpr>)>) -> Seq<(GlobalId, Seq<Expr>)> {
    Seq::new(pairs.len(), |i: int| (pairs[i].0, exprs_view(pairs[i].1@)))
}

impl Catalog {
    /// Whether no two entries have the same identifier, and each view reads
    /// only collections that have entries and that come before it in the
    /// order of identifiers.
    pub open spec fn wf(&self) -> bool {
        &&& forall|i: int, j: int|
            0 <= i < j < self.entries.len() ==> self.entries[i].id != self.entries[j].id
        &&& forall|i: int, k: int|
            0 <= i < self.entries.len() && (#[trigger] self.entries[i]).item is View && 0 <= k
                < self.entries[i].item->depends_on.len() ==> {
                let dep = #[trigger] self.entries[i].item->depends_on[k];
                dep.rank() < self.entries[i].id.rank() && self.has_entry(dep)
            }
    }

    /// Whether the catalog has an entry for the identifier.
    pub open spec fn has_entry(&self, id: GlobalId) -> bool {
        exists|i: int| 0 <= i < self.entries.len() && (#[trigger] self.entries[i]).id == id
    }

    /// The position of the entry for the identifier.
    pub open spec fn position(&self, id: GlobalId) -> int {
        choose|i: int| 0 <= i < self.entries.len() && (#[trigger] self.entries[i]).id == id
    }

    /// The position of the entry for the identifier, if there is one.
    pub fn find_entry(&self, id: GlobalId) -> (r: Option<usize>)
        ensures
            match r {
                Some(i) => i < self.entries.len() && self.entries[i as int].id == id,
                None => !self.has_entry(id),
            },
    {
        let mut i: usize = 0;
        while i < self.entries.len()
            invariant
                i <= self.entries.len(),
                forall|j: int| 0 <= j < i ==> (#[trigger] self.entries[j]).id != id,
            decreases self.entries.len() - i,
        {
            if self.entries[i].id == id {
                return Some(i);
            }
            i += 1;
        }
        None
    }
}

impl<'a> DataflowBuilder<'a> {
    /// The indexes on the collection that this instance offers.
    pub open spec fn offers(&self, id: GlobalId) -> Seq<(GlobalId, Seq<Expr>)> {
        offered(self.catalog.indexes@, self.compute, id)
    }

    /// The collections of storage that are needed for the collection `id`:
    /// none if the instance offers an index on it; those that its inputs
    /// need if it is a view; and itself if it is kept in storage.
    pub open spec fn storage_for(&self, id: GlobalId) -> Set<GlobalId>
        decreases id.rank(),
    {
        if self.offers(id).len() > 0 || !self.catalog.has_entry(id) {
            Set::empty()
        } else {
            match self.catalog.entries[self.catalog.position(id)].item {
                CatalogItem::View { depends_on } => Set::new(
                    |s: GlobalId|
                        exists|k: int|
                            0 <= k < depends_on.len() && (#[trigger] depends_on[k]).rank()
                                < id.rank() && self.storage_for(depends_on[k]).contains(s),
                ),
                CatalogItem::Source => set![id],
                CatalogItem::Table => set![id],
                CatalogItem::MaterializedView => set![id],
                CatalogItem::Log { has_storage_collection: true } => set![id],
                _ => Set::empty(),
            }
        }
    }

    /// The indexes of the instance that are needed for the collection
    /// `id`: those that the instance offers on it, if there are any; else
    /// those that its inputs need if it is a view.
    pub open spec fn compute_for(&self, id: GlobalId) -> Set<GlobalId>
        decreases id.rank(),
    {
        if self.offers(id).len() > 0 {
            Set::new(|x: GlobalId| ids_of(self.offers(id)).contains(x))
        } else if !self.catalog.has_entry(id) {
            Set::empty()
        } else {
            match self.catalog.entries[self.catalog.position(id)].item {
                CatalogItem::View { depends_on } => Set::new(
                    |x: GlobalId|
                        exists|k: int|
                            0 <= k < depends_on.len() && (#[trigger] depends_on[k]).rank()
                                < id.rank() && self.compute_for(depends_on[k]).contains(x),
                ),
                _ => Set::empty(),
            }
        }
    }

    /// Whether a dataflow can be built for the collection `id`: it, and
    /// what it needs, is in the catalog, and no log that is needed lacks
    /// both an index and storage.
    pub open spec fn buildable(&self, id: GlobalId) -> bool
        decreases id.rank(),
    {
        if self.offers(id).len() > 0 {
            true
        } else if !self.catalog.has_entry(id) {
            false
        } else {
            match self.catalog.entries[self.catalog.position(id)].item {
                CatalogItem::View { depends_on } => forall|k: int|
                    0 <= k < depends_on.len() && (#[trigger] depends_on[k]).rank() < id.rank()
                        ==> self.buildable(depends_on[k]),
                CatalogItem::Log { has_storage_collection: false } => false,
                _ => true,
            }
        }
    }

    /// The indexes on the collection `id` that belong to this instance and
    /// are installed on it: the identifier and the key of each.
    pub fn indexes_on(&self, id: GlobalId) -> (r: Vec<(GlobalId, Vec<ScalarExpr>)>)
        ensures
            pairs_view(r@) == self.offers(id),
    {
        let ghost all = self.catalog.indexes@;
        let mut out: Vec<(GlobalId, Vec<ScalarExpr>)> = Vec::new();
        let mut i: usize = 0;
        assert(pairs_view(out@) =~= offered(all.take(0), self.compute, id));
        while i < self.catalog.indexes.len()
            invariant
                i <= self.catalog.indexes.len(),
                all == self.catalog.indexes@,
                pairs_view(out@) == offered(all.take(i as int), self.compute, id),
            decreases self.catalog.indexes.len() - i,
        {
            proof {
                assert(all.take(i as int + 1).drop_last() =~= all.take(i as int));
                assert(all.take(i as int + 1).last() == all[i as int]);
            }
            let index = &self.catalog.indexes[i];
            if index.on == id && index.cluster_id == self.compute.instance_id && contains_id(
                &self.compute.collections,
                index.id,
            ) {
                let ghost before = pairs_view(out@);
                let keys = clone_exprs(&index.keys);
                out.push((index.id, keys));
                assert(pairs_view(out@) =~= before.push((index.id, exprs_view(keys@))));
            }
            i += 1;
        }
        assert(all.take(self.catalog.indexes.len() as int) =~= all);
        out
    }
}

impl<'a> IndexOracle for DataflowBuilder<'a> {
    open spec fn keys_on(&self, id: GlobalId) -> Seq<Seq<Expr>> {
        keys_of(self.offers(id))
    }

    fn indexes_on(&self, id: GlobalId) -> (r: Vec<Vec<ScalarExpr>>) {
        let pairs = DataflowBuilder::indexes_on(self, id);
        let mut out: Vec<Vec<ScalarExpr>> = Vec::new();
        let mut i: usize = 0;
        while i < pairs.len()
            invariant
                i <= pairs.len(),
                out.len() == i,
                forall|j: int| 0 <= j < i ==> exprs_view(out@[j]@) == exprs_view(pairs@[j].1@),
            decreases pairs.len() - i,
        {
            out.push(clone_exprs(&pairs[i].1));
            i += 1;
        }
        assert(lists_view(out@) =~= keys_of(pairs_view(pairs@)));
        out
    }
}

/// Whether the identifier is among `ids`.
pub fn contains_id(ids: &Vec<GlobalId>, id: GlobalId) -> (r: bool)
    ensures
        r == ids@.contains(id),
{
    let mut i: usize = 0;
    while i < ids.len()
        invariant
            i <= ids.len(),
            forall|j: int| 0 <= j < i ==> ids@[j] != id,
        decreases ids.len() - i,
    {
        if ids[i] == id {
            return true;
        }
        i += 1;
    }
    false
}

/// Adds the identifier to `ids` unless it is there.
pub fn insert_id(ids: &mut Vec<GlobalId>, id: GlobalId)
    requires
        old(ids)@.no_duplicates(),
    ensures
        final(ids)@.no_duplicates(),
        forall|x: GlobalId| final(ids)@.contains(x) <==> old(ids)@.contains(x) || x == id,
{
    if !contains_id(ids, id) {
        let ghost before = ids@;
        ids.push(id);
        assert forall|x: GlobalId| ids@.contains(x) <==> before.contains(x) || x == id by {
            if before.contains(x) {
                let i = choose|i: int| 0 <= i < before.len() && before[i] == x;
                assert(ids@[i] == x);
            }
            if ids@.contains(x) {
                let i = choose|i: int| 0 <= i < ids@.len() && ids@[i] == x;
                if i < before.len() {
                    assert(before[i] == x);
                }
            }
            assert(ids@[before.len() as int] == id);
        }
    }
}

/// Adds the identifiers of the indexes to `ids`, each unless it is there.
fn insert_offered(ids: &mut Vec<GlobalId>, offers: &Vec<(GlobalId, Vec<ScalarExpr>)>)
    requires
        old(ids)@.no_duplicates(),
    ensures
        final(ids)@.no_duplicates(),
        forall|x: GlobalId|
            final(ids)@.contains(x) <==> old(ids)@.contains(x) || ids_of(
                pairs_view(offers@),
            ).contains(x),
{
    let ghost wanted = ids_of(pairs_view(offers@));
    let ghost before = ids@;
    let mut i: usize = 0;
    while i < offers.len()
        invariant
            i <= offers.len(),
            ids@.no_duplicates(),
            wanted == ids_of(pairs_view(offers@)),
            forall|x: GlobalId|
                ids@.contains(x) <==> before.contains(x) || wanted.take(i as int).contains(x),
        decreases offers.len() - i,
    {
        let ghost seen = wanted.take(i as int);
        let ghost more = wanted.take(i as int + 1);
        let ghost old_ids = ids@;
        assert(forall|x: GlobalId|
            old_ids.contains(x) <==> before.contains(x) || seen.contains(x));
        let id = offers[i].0;
        insert_id(ids, id);
        proof {
            assert(pairs_view(offers@)[i as int].0 == id);
            assert(wanted[i as int] == id);
            assert(more =~= seen.push(id));
            assert forall|x: GlobalId| ids@.contains(x) <==> before.contains(x) || more.contains(
                x,
            ) by {
                assert(ids@.contains(x) <==> old_ids.contains(x) || x == id);
                assert(old_ids.contains(x) <==> before.contains(x) || seen.contains(x));
                if seen.contains(x) {
                    let k = choose|k: int| 0 <= k < seen.len() && seen[k] == x;
                    assert(more[k] == x);
                }
                if more.contains(x) {
                    let k = choose|k: int| 0 <= k < more.len() && more[k] == x;
                    if k < i {
                        assert(seen[k] == x);
                    }
                }
                assert(more[i as int] == id);
            }
        }
        i += 1;
    }
    assert(wanted.take(offers.len() as int) =~= wanted);
}

/// Whether what was found, together with what is still open, is what is
/// wanted.
pub open spec fn accounted(found: Seq<GlobalId>, open: Set<GlobalId>, wanted: Set<GlobalId>) -> bool {
    forall|x: GlobalId| found.contains(x) || open.contains(x) <==> wanted.contains(x)
}

/// A copy of the identifiers.
fn copy_ids(ids: &Vec<GlobalId>) -> (r: Vec<GlobalId>)
    ensures
        r@ == ids@,
{
    let mut out: Vec<GlobalId> = Vec::new();
    let mut i: usize = 0;
    while i < ids.len()
        invariant
            i <= ids.len(),
            out@ == ids@.take(i as int),
        decreases ids.len() - i,
    {
        out.push(ids[i]);
        assert(ids@.take(i as int + 1) =~= ids@.take(i as int).push(ids@[i as int]));
        i += 1;
    }
    assert(ids@.take(ids.len() as int) =~= ids@);
    out
}

/// The largest of the identifiers.
fn largest(ids: &Vec<GlobalId>) -> (m: GlobalId)
    requires
        ids.len() > 0,
    ensures
        ids@.contains(m),
        forall|k: int| 0 <= k < ids.len() ==> (#[trigger] ids@[k]).rank() <= m.rank(),
{
    let mut m = ids[0];
    let mut i: usize = 1;
    while i < ids.len()
        invariant
            1 <= i <= ids.len(),
            ids@.contains(m),
            forall|k: int| 0 <= k < i ==> (#[trigger] ids@[k]).rank() <= m.rank(),
        decreases ids.len() - i,
    {
        if m.precedes(&ids[i]) {
            m = ids[i];
        }
        i += 1;
    }
    m
}

/// The identifiers without `m`.
fn without(ids: &Vec<GlobalId>, m: GlobalId) -> (rest: Vec<GlobalId>)
    ensures
        forall|x: GlobalId| rest@.contains(x) <==> ids@.contains(x) && x != m,
{
    let mut rest: Vec<GlobalId> = Vec::new();
    let mut i: usize = 0;
    while i < ids.len()
        invariant
            i <= ids.len(),
            forall|x: GlobalId| rest@.contains(x) <==> ids@.take(i as int).contains(x) && x != m,
        decreases ids.len() - i,
    {
        let ghost before = rest@;
        let ghost seen = ids@.take(i as int);
        let ghost more = ids@.take(i as int + 1);
        let id = ids[i];
        if id != m {
            rest.push(id);
        }
        proof {
            assert(more =~= seen.push(id));
            assert forall|x: GlobalId| rest@.contains(x) <==> more.contains(x) && x != m by {
                if rest@.contains(x) {
                    let k = choose|k: int| 0 <= k < rest@.len() && rest@[k] == x;
                    if k < before.len() {
                        assert(before[k] == x);
                        assert(before.contains(x));
                        let j = choose|j: int| 0 <= j < seen.len() && seen[j] == x;
                        assert(more[j] == x);
                    } else {
                        assert(more[i as int] == x);
                    }
                }
                if more.contains(x) && x != m {
                    let j = choose|j: int| 0 <= j < more.len() && more[j] == x;
                    if j < i {
                        assert(seen[j] == x);
                        assert(before.contains(x));
                        let k = choose|k: int| 0 <= k < before.len() && before[k] == x;
                        assert(rest@[k] == x);
                    } else {
                        assert(rest@[before.len() as int] == x);
                    }
                }
            }
        }
        i += 1;
    }
    assert(ids@.take(ids.len() as int) =~= ids@);
    rest
}

impl<'a> DataflowBuilder<'a> {
    /// The collections of storage that are needed for one of the
    /// collections.
    pub open spec fn storage_for_all(&self, ids: Seq<GlobalId>) -> Set<GlobalId> {
        Set::new(
            |s: GlobalId|
                exists|k: int| 0 <= k < ids.len() && self.storage_for(#[trigger] ids[k]).contains(s),
        )
    }

    /// The indexes of the instance that are needed for one of the
    /// collections.
    pub open spec fn compute_for_all(&self, ids: Seq<GlobalId>) -> Set<GlobalId> {
        Set::new(
            |x: GlobalId|
                exists|k: int| 0 <= k < ids.len() && self.compute_for(#[trigger] ids[k]).contains(x),
        )
    }

    /// What the collections `todo` need is what the largest of them, `m`,
    /// needs and what the others need; and if `m` is a view without an
    /// index, it needs what its inputs need.
    proof fn lemma_split(&self, todo: Seq<GlobalId>, rest: Seq<GlobalId>, m: GlobalId)
        requires
            todo.contains(m),
            forall|x: GlobalId| rest.contains(x) <==> todo.contains(x) && x != m,
        ensures
            forall|s: GlobalId|
                self.storage_for_all(todo).contains(s) <==> self.storage_for(m).contains(s)
                    || self.storage_for_all(rest).contains(s),
            forall|x: GlobalId|
                self.compute_for_all(todo).contains(x) <==> self.compute_for(m).contains(x)
                    || self.compute_for_all(rest).contains(x),
    {
        assert forall|s: GlobalId|
            self.storage_for_all(todo).contains(s) <==> self.storage_for(m).contains(s)
                || self.storage_for_all(rest).contains(s) by {
            if self.storage_for_all(todo).contains(s) {
                let k = choose|k: int|
                    0 <= k < todo.len() && self.storage_for(#[trigger] todo[k]).contains(s);
                if todo[k] != m {
                    assert(todo.contains(todo[k]));
                    assert(rest.contains(todo[k]));
                    let j = choose|j: int| 0 <= j < rest.len() && rest[j] == todo[k];
                    assert(self.storage_for(rest[j]).contains(s));
                }
            }
            if self.storage_for(m).contains(s) {
                let k = choose|k: int| 0 <= k < todo.len() && todo[k] == m;
                assert(self.storage_for(todo[k]).contains(s));
            }
            if self.storage_for_all(rest).contains(s) {
                let j = choose|j: int|
                    0 <= j < rest.len() && self.storage_for(#[trigger] rest[j]).contains(s);
                assert(rest.contains(rest[j]));
                let k = choose|k: int| 0 <= k < todo.len() && todo[k] == rest[j];
                assert(self.storage_for(todo[k]).contains(s));
            }
        }
        assert forall|x: GlobalId|
            self.compute_for_all(todo).contains(x) <==> self.compute_for(m).contains(x)
                || self.compute_for_all(rest).contains(x) by {
            if self.compute_for_all(todo).contains(x) {
                let k = choose|k: int|
                    0 <= k < todo.len() && self.compute_for(#[trigger] todo[k]).contains(x);
                if todo[k] != m {
                    assert(todo.contains(todo[k]));
                    assert(rest.contains(todo[k]));
                    let j = choose|j: int| 0 <= j < rest.len() && rest[j] == todo[k];
                    assert(self.compute_for(rest[j]).contains(x));
                }
            }
            if self.compute_for(m).contains(x) {
                let k = choose|k: int| 0 <= k < todo.len() && todo[k] == m;
                assert(self.compute_for(todo[k]).contains(x));
            }
            if self.compute_for_all(rest).contains(x) {
                let j = choose|j: int|
                    0 <= j < rest.len() && self.compute_for(#[trigger] rest[j]).contains(x);
                assert(rest.contains(rest[j]));
                let k = choose|k: int| 0 <= k < todo.len() && todo[k] == rest[j];
                assert(self.compute_for(todo[k]).contains(x));
            }
        }
    }

    /// What two lists of collections need together is what the one needs
    /// and what the other needs.
    proof fn lemma_concat(&self, a: Seq<GlobalId>, b: Seq<GlobalId>)
        ensures
            forall|s: GlobalId|
                self.storage_for_all(a + b).contains(s) <==> self.storage_for_all(a).contains(s)
                    || self.storage_for_all(b).contains(s),
            forall|x: GlobalId|
                self.compute_for_all(a + b).contains(x) <==> self.compute_for_all(a).contains(x)
                    || self.compute_for_all(b).contains(x),
    {
        let c = a + b;
        assert forall|s: GlobalId|
            self.storage_for_all(c).contains(s) <==> self.storage_for_all(a).contains(s)
                || self.storage_for_all(b).contains(s) by {
            if self.storage_for_all(c).contains(s) {
                let k = choose|k: int|
                    0 <= k < c.len() && self.storage_for(#[trigger] c[k]).contains(s);
                if k < a.len() {
                    assert(self.storage_for(a[k]).contains(s));
                } else {
                    assert(self.storage_for(b[k - a.len()]).contains(s));
                }
            }
            if self.storage_for_all(a).contains(s) {
                let k = choose|k: int|
                    0 <= k < a.len() && self.storage_for(#[trigger] a[k]).contains(s);
                assert(self.storage_for(c[k]).contains(s));
            }
            if self.storage_for_all(b).contains(s) {
                let k = choose|k: int|
                    0 <= k < b.len() && self.storage_for(#[trigger] b[k]).contains(s);
                assert(self.storage_for(c[k + a.len()]).contains(s));
            }
        }
        assert forall|x: GlobalId|
            self.compute_for_all(c).contains(x) <==> self.compute_for_all(a).contains(x)
                || self.compute_for_all(b).contains(x) by {
            if self.compute_for_all(c).contains(x) {
                let k = choose|k: int|
                    0 <= k < c.len() && self.compute_for(#[trigger] c[k]).contains(x);
                if k < a.len() {
                    assert(self.compute_for(a[k]).contains(x));
                } else {
                    assert(self.compute_for(b[k - a.len()]).contains(x));
                }
            }
            if self.compute_for_all(a).contains(x) {
                let k = choose|k: int|
                    0 <= k < a.len() && self.compute_for(#[trigger] a[k]).contains(x);
                assert(self.compute_for(c[k]).contains(x));
            }
            if self.compute_for_all(b).contains(x) {
                let k = choose|k: int|
                    0 <= k < b.len() && self.compute_for(#[trigger] b[k]).contains(x);
                assert(self.compute_for(c[k + a.len()]).contains(x));
            }
        }
    }

    /// The entry of the catalog at the position at which `find_entry` found
    /// the identifier is the entry that the specifications speak of.
    proof fn lemma_position(&self, id: GlobalId, i: int)
        requires
            self.catalog.wf(),
            0 <= i < self.catalog.entries.len(),
            self.catalog.entries[i].id == id,
        ensures
            self.catalog.has_entry(id),
            self.catalog.position(id) == i,
    {
        let p = self.catalog.position(id);
        if p != i {
            if p < i {
                assert(self.catalog.entries[p].id != self.catalog.entries[i].id);
            } else {
                assert(self.catalog.entries[i].id != self.catalog.entries[p].id);
            }
        }
    }

    /// Identifies collections of storage and indexes of the instance that
    /// are enough to build a dataflow for the collections `ids`: for a
    /// collection on which the instance offers indexes, these indexes; for a
    /// view without an index, what its inputs need; for any other
    /// collection that is kept in storage, the collection itself. The
    /// collections are looked at from the largest identifier down, as a view
    /// reads only collections with smaller identifiers.
    pub fn sufficient_collections(&self, ids: &Vec<GlobalId>) -> (bundle: CollectionIdBundle)
        requires
            self.catalog.wf(),
            forall|k: int| 0 <= k < ids.len() ==> self.buildable(#[trigger] ids@[k]),
        ensures
            bundle.storage_ids@.no_duplicates(),
            bundle.compute_ids@.no_duplicates(),
            forall|s: GlobalId|
                bundle.storage_ids@.contains(s) <==> self.storage_for_all(ids@).contains(s),
            forall|x: GlobalId|
                bundle.compute_ids@.contains(x) <==> self.compute_for_all(ids@).contains(x),
    {
        let mut storage: Vec<GlobalId> = Vec::new();
        let mut compute: Vec<GlobalId> = Vec::new();
        let mut todo: Vec<GlobalId> = copy_ids(ids);
        let ghost mut bound: nat = 0x3_0000_0000_0000_0001;
        while todo.len() > 0
            invariant
                self.catalog.wf(),
                forall|k: int| 0 <= k < todo.len() ==> self.buildable(#[trigger] todo@[k]),
                forall|k: int| 0 <= k < todo.len() ==> (#[trigger] todo@[k]).rank() < bound,
                storage@.no_duplicates(),
                compute@.no_duplicates(),
                accounted(storage@, self.storage_for_all(todo@), self.storage_for_all(ids@)),
                accounted(compute@, self.compute_for_all(todo@), self.compute_for_all(ids@)),
            decreases bound,
        {
            let m = largest(&todo);
            let mut rest = without(&todo, m);
            proof {
                self.lemma_split(todo@, rest@, m);
                let at = choose|k: int| 0 <= k < todo@.len() && todo@[k] == m;
                assert(self.buildable(todo@[at]));
                assert forall|k: int| 0 <= k < rest.len() implies self.buildable(
                    #[trigger] rest@[k],
                ) && rest@[k].rank() < m.rank() by {
                    assert(rest@.contains(rest@[k]));
                    let j = choose|j: int| 0 <= j < todo@.len() && todo@[j] == rest@[k];
                    assert(self.buildable(todo@[j]));
                    lemma_rank_injective(rest@[k], m);
                }
            }
            let ghost others = rest@;
            let ghost storage_before = storage@;
            let ghost compute_before = compute@;
            let offers = self.indexes_on(m);
            if offers.len() > 0 {
                // The indexes that the instance offers are what is needed.
                insert_offered(&mut compute, &offers);
                proof {
                    assert(self.offers(m).len() > 0);
                    assert(self.storage_for(m) =~= Set::<GlobalId>::empty());
                    assert forall|x: GlobalId| #[trigger]
                        self.compute_for(m).contains(x) == ids_of(self.offers(m)).contains(x) by {}
                }
            } else {
                match self.catalog.find_entry(m) {
                    Some(i) => {
                        proof {
                            self.lemma_position(m, i as int);
                        }
                        match &self.catalog.entries[i].item {
                            CatalogItem::View { depends_on } => {
                                // Unmaterialized view. Search its dependencies.
                                let mut k: usize = 0;
                                assert(rest@ =~= others + depends_on@.take(0));
                                while k < depends_on.len()
                                    invariant
                                        k <= depends_on.len(),
                                        rest@ == others + depends_on@.take(k as int),
                                    decreases depends_on.len() - k,
                                {
                                    rest.push(depends_on[k]);
                                    assert(depends_on@.take(k as int + 1) =~= depends_on@.take(
                                        k as int,
                                    ).push(depends_on@[k as int]));
                                    assert(rest@ =~= others + depends_on@.take(k as int + 1));
                                    k += 1;
                                }
                                proof {
                                    assert(depends_on@.take(depends_on.len() as int)
                                        =~= depends_on@);
                                    self.lemma_concat(others, depends_on@);
                                    self.lemma_view_needs(m, i as int);
                                    assert forall|j: int| 0 <= j < rest.len() implies self.buildable(
                                        #[trigger] rest@[j],
                                    ) && rest@[j].rank() < m.rank() by {
                                        if j >= others.len() {
                                            let d = j - others.len();
                                            assert(rest@[j] == depends_on@[d]);
                                            assert(self.catalog.entries[i as int].item->depends_on[d].rank()
                                                < m.rank());
                                        } else {
                                            assert(rest@[j] == others[j]);
                                        }
                                    }
                                }
                            },
                            CatalogItem::Source => {
                                insert_id(&mut storage, m);
                                assert(self.storage_for(m) =~= set![m]);
                                assert(self.compute_for(m) =~= Set::<GlobalId>::empty());
                            },
                            CatalogItem::Table => {
                                insert_id(&mut storage, m);
                                assert(self.storage_for(m) =~= set![m]);
                                assert(self.compute_for(m) =~= Set::<GlobalId>::empty());
                            },
                            CatalogItem::MaterializedView => {
                                insert_id(&mut storage, m);
                                assert(self.storage_for(m) =~= set![m]);
                                assert(self.compute_for(m) =~= Set::<GlobalId>::empty());
                            },
                            CatalogItem::Log { has_storage_collection } => {
                                // A log without storage is protected by an index.
                                assert(*has_storage_collection);
                                insert_id(&mut storage, m);
                                assert(self.storage_for(m) =~= set![m]);
                                assert(self.compute_for(m) =~= Set::<GlobalId>::empty());
                            },
                            CatalogItem::Other => {
                                // Non-indexable thing; no work to do.
                                assert(self.storage_for(m) =~= Set::<GlobalId>::empty());
                                assert(self.compute_for(m) =~= Set::<GlobalId>::empty());
                            },
                        }
                    },
                    None => {
                        assert(!self.buildable(m));
                    },
                }
            }
            proof {
                // what was found, with what is left to look at, is what was needed
                assert forall|s: GlobalId|
                    storage@.contains(s) || self.storage_for_all(rest@).contains(s)
                        <==> self.storage_for_all(ids@).contains(s) by {
                    let found = storage@.contains(s);
                    let found_before = storage_before.contains(s);
                    let left = self.storage_for_all(rest@).contains(s);
                    let left_before = self.storage_for_all(others).contains(s);
                    let here = self.storage_for(m).contains(s);
                    let open = self.storage_for_all(todo@).contains(s);
                    let wanted = self.storage_for_all(ids@).contains(s);
                    assert(found_before || open <==> wanted);
                    assert(open <==> here || left_before);
                    assert(found || left <==> found_before || here || left_before);
                }
                assert(accounted(
                    storage@,
                    self.storage_for_all(rest@),
                    self.storage_for_all(ids@),
                ));
                assert forall|x: GlobalId|
                    compute@.contains(x) || self.compute_for_all(rest@).contains(x)
                        <==> self.compute_for_all(ids@).contains(x) by {
                    let found = compute@.contains(x);
                    let found_before = compute_before.contains(x);
                    let left = self.compute_for_all(rest@).contains(x);
                    let left_before = self.compute_for_all(others).contains(x);
                    let here = self.compute_for(m).contains(x);
                    let open = self.compute_for_all(todo@).contains(x);
                    let wanted = self.compute_for_all(ids@).contains(x);
                    assert(found_before || open <==> wanted);
                    assert(open <==> here || left_before);
                    assert(found || left <==> found_before || here || left_before);
                }
                assert(accounted(
                    compute@,
                    self.compute_for_all(rest@),
                    self.compute_for_all(ids@),
                ));
            }
            todo = rest;
            proof {
                bound = m.rank();
            }
        }
        CollectionIdBundle { storage_ids: storage, compute_ids: compute }
    }

    /// A view without an index needs what its inputs need.
    proof fn lemma_view_needs(&self, m: GlobalId, i: int)
        requires
            self.catalog.wf(),
            self.offers(m).len() == 0,
            0 <= i < self.catalog.entries.len(),
            self.catalog.entries[i].id == m,
            self.catalog.entries[i].item is View,
            self.buildable(m),
        ensures
            forall|s: GlobalId|
                self.storage_for(m).contains(s) <==> self.storage_for_all(
                    self.catalog.entries[i].item->depends_on@,
                ).contains(s),
            forall|x: GlobalId|
                self.compute_for(m).contains(x) <==> self.compute_for_all(
                    self.catalog.entries[i].item->depends_on@,
                ).contains(x),
            forall|k: int|
                0 <= k < self.catalog.entries[i].item->depends_on.len() ==> self.buildable(
                    #[trigger] self.catalog.entries[i].item->depends_on@[k],
                ),
    {
        self.lemma_position(m, i);
        let deps = self.catalog.entries[i].item->depends_on@;
        assert forall|k: int| 0 <= k < deps.len() implies (#[trigger] deps[k]).rank() < m.rank() by {
            assert(self.catalog.entries[i].item->depends_on[k].rank() < m.rank());
        }
        assert forall|s: GlobalId|
            self.storage_for(m).contains(s) <==> self.storage_for_all(deps).contains(s) by {
            if self.storage_for(m).contains(s) {
                let k = choose|k: int|
                    0 <= k < deps.len() && (#[trigger] deps[k]).rank() < m.rank()
                        && self.storage_for(deps[k]).contains(s);
                assert(self.storage_for(deps[k]).contains(s));
            }
            if self.storage_for_all(deps).contains(s) {
                let k = choose|k: int|
                    0 <= k < deps.len() && self.storage_for(#[trigger] deps[k]).contains(s);
                assert(deps[k].rank() < m.rank());
            }
        }
        assert forall|x: GlobalId|
            self.compute_for(m).contains(x) <==> self.compute_for_all(deps).contains(x) by {
            if self.compute_for(m).contains(x) {
                let k = choose|k: int|
                    0 <= k < deps.len() && (#[trigger] deps[k]).rank() < m.rank()
                        && self.compute_for(deps[k]).contains(x);
                assert(self.compute_for(deps[k]).contains(x));
            }
            if self.compute_for_all(deps).contains(x) {
                let k = choose|k: int|
                    0 <= k < deps.len() && self.compute_for(#[trigger] deps[k]).contains(x);
                assert(deps[k].rank() < m.rank());
            }
        }
    }
}

} // verus!

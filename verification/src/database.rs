//! The storage engine: a container tree, item records, their embedding rows
//! and the import audit log, held in memory with verified invariants.
//!
//! Containers form a rooted tree. The vector of container rows is kept in an
//! order where every container's parent occurs strictly earlier; this makes
//! the absence of cycles a first-order invariant and every parent walk
//! finite. Items always reference a live container, and embedding rows always
//! reference a live item.

use vstd::prelude::*;
use vstd::string::StringExecFns;

use crate::errors::StoreError;
use crate::strutil::{join_nl, spec_join_nl, spec_split_nl};

verus! {

// ---------------------------------------------------------------------------
// Rows and their spec-level models
// ---------------------------------------------------------------------------

/// One container: a node of the rooted tree of physical storage locations.
pub struct ContainerRow {
    pub id: i64,
    pub name: String,
    pub location: Option<String>,
    pub contained_by: Option<i64>,
}

/// One cataloged item, always inside exactly one container.
pub struct ItemRow {
    pub id: i64,
    pub name: String,
    pub description: String,
    pub small_photo: Vec<u8>,
    pub large_photo: Vec<u8>,
    pub contained_by: i64,
}

/// One embedding row: the encoded vector of one textual facet of an item.
pub struct EmbeddingRow {
    pub id: i64,
    pub item_id: i64,
    pub vector: Vec<u8>,
}

/// One import job record; append-only history, status mutated in place.
pub struct ImportRow {
    pub id: i64,
    pub source: String,
    pub status: String,
    pub target_container: i64,
}

#[verifier::ext_equal]
pub struct ContainerModel {
    pub id: int,
    pub name: Seq<char>,
    pub location: Option<Seq<char>>,
    pub contained_by: Option<int>,
}

#[verifier::ext_equal]
pub struct ItemModel {
    pub id: int,
    pub name: Seq<char>,
    pub description: Seq<char>,
    pub small_photo: Seq<u8>,
    pub large_photo: Seq<u8>,
    pub contained_by: int,
}

#[verifier::ext_equal]
pub struct EmbeddingModel {
    pub id: int,
    pub item_id: int,
    pub vector: Seq<u8>,
}

#[verifier::ext_equal]
pub struct ImportModel {
    pub id: int,
    pub source: Seq<char>,
    pub status: Seq<char>,
    pub target_container: int,
}

impl View for ContainerRow {
    type V = ContainerModel;

    open spec fn view(&self) -> ContainerModel {
        ContainerModel {
            id: self.id as int,
            name: self.name@,
            location: match self.location {
                Some(l) => Some(l@),
                None => None,
            },
            contained_by: match self.contained_by {
                Some(p) => Some(p as int),
                None => None,
            },
        }
    }
}

impl View for ItemRow {
    type V = ItemModel;

    open spec fn view(&self) -> ItemModel {
        ItemModel {
            id: self.id as int,
            name: self.name@,
            description: self.description@,
            small_photo: self.small_photo@,
            large_photo: self.large_photo@,
            contained_by: self.contained_by as int,
        }
    }
}

impl View for EmbeddingRow {
    type V = EmbeddingModel;

    open spec fn view(&self) -> EmbeddingModel {
        EmbeddingModel { id: self.id as int, item_id: self.item_id as int, vector: self.vector@ }
    }
}

impl View for ImportRow {
    type V = ImportModel;

    open spec fn view(&self) -> ImportModel {
        ImportModel {
            id: self.id as int,
            source: self.source@,
            status: self.status@,
            target_container: self.target_container as int,
        }
    }
}

/// One row of a query answer or a container-items listing.
#[derive(Debug)]
pub struct ItemResult {
    pub id: i64,
    pub name: String,
    pub description: String,
    pub container_name: String,
    pub container_id: i64,
}

#[verifier::ext_equal]
pub struct ItemResultModel {
    pub id: int,
    pub name: Seq<char>,
    pub description: Seq<char>,
    pub container_name: Seq<char>,
    pub container_id: int,
}

impl View for ItemResult {
    type V = ItemResultModel;

    open spec fn view(&self) -> ItemResultModel {
        ItemResultModel {
            id: self.id as int,
            name: self.name@,
            description: self.description@,
            container_name: self.container_name@,
            container_id: self.container_id as int,
        }
    }
}

// ---------------------------------------------------------------------------
// The store and its model
// ---------------------------------------------------------------------------

/// The whole state of the storage engine, at the specification level.
#[verifier::ext_equal]
pub struct StoreModel {
    pub containers: Seq<ContainerModel>,
    pub items: Seq<ItemModel>,
    pub embeddings: Seq<EmbeddingModel>,
    pub imports: Seq<ImportModel>,
    pub next_container_id: int,
    pub next_item_id: int,
    pub next_embedding_id: int,
    pub next_import_id: int,
}

/// The storage engine. All durable state of the catalog lives here.
pub struct Database {
    pub containers: Vec<ContainerRow>,
    pub items: Vec<ItemRow>,
    pub embeddings: Vec<EmbeddingRow>,
    pub imports: Vec<ImportRow>,
    pub next_container_id: i64,
    pub next_item_id: i64,
    pub next_embedding_id: i64,
    pub next_import_id: i64,
}

impl View for Database {
    type V = StoreModel;

    open spec fn view(&self) -> StoreModel {
        StoreModel {
            containers: Seq::new(self.containers@.len(), |i: int| self.containers@[i]@),
            items: Seq::new(self.items@.len(), |i: int| self.items@[i]@),
            embeddings: Seq::new(self.embeddings@.len(), |i: int| self.embeddings@[i]@),
            imports: Seq::new(self.imports@.len(), |i: int| self.imports@[i]@),
            next_container_id: self.next_container_id as int,
            next_item_id: self.next_item_id as int,
            next_embedding_id: self.next_embedding_id as int,
            next_import_id: self.next_import_id as int,
        }
    }
}

// ---------------------------------------------------------------------------
// Spec helpers: membership, lookup, filtered listings
// ---------------------------------------------------------------------------

pub open spec fn has_container(cs: Seq<ContainerModel>, id: int) -> bool {
    exists|i: int| 0 <= i < cs.len() && cs[i].id == id
}

pub open spec fn container_index(cs: Seq<ContainerModel>, id: int) -> int {
    choose|i: int| 0 <= i < cs.len() && cs[i].id == id
}

pub open spec fn container_at(cs: Seq<ContainerModel>, id: int) -> ContainerModel {
    cs[container_index(cs, id)]
}

pub open spec fn has_item(ims: Seq<ItemModel>, id: int) -> bool {
    exists|i: int| 0 <= i < ims.len() && ims[i].id == id
}

pub open spec fn item_index(ims: Seq<ItemModel>, id: int) -> int {
    choose|i: int| 0 <= i < ims.len() && ims[i].id == id
}

pub open spec fn item_at(ims: Seq<ItemModel>, id: int) -> ItemModel {
    ims[item_index(ims, id)]
}

pub open spec fn has_embedding(es: Seq<EmbeddingModel>, id: int) -> bool {
    exists|i: int| 0 <= i < es.len() && es[i].id == id
}

pub open spec fn embedding_index(es: Seq<EmbeddingModel>, id: int) -> int {
    choose|i: int| 0 <= i < es.len() && es[i].id == id
}

pub open spec fn embedding_at(es: Seq<EmbeddingModel>, id: int) -> EmbeddingModel {
    es[embedding_index(es, id)]
}

pub open spec fn has_import(ls: Seq<ImportModel>, id: int) -> bool {
    exists|i: int| 0 <= i < ls.len() && ls[i].id == id
}

pub open spec fn import_index(ls: Seq<ImportModel>, id: int) -> int {
    choose|i: int| 0 <= i < ls.len() && ls[i].id == id
}

pub open spec fn import_at(ls: Seq<ImportModel>, id: int) -> ImportModel {
    ls[import_index(ls, id)]
}

/// The ids of the direct children of `parent`, in row order.
pub open spec fn children_of(cs: Seq<ContainerModel>, parent: int) -> Seq<int>
    decreases cs.len(),
{
    if cs.len() == 0 {
        seq![]
    } else {
        let rest = children_of(cs.drop_last(), parent);
        if cs.last().contained_by == Some(parent) {
            rest.push(cs.last().id)
        } else {
            rest
        }
    }
}

/// The items directly inside `cid`, in row order.
pub open spec fn items_in(ims: Seq<ItemModel>, cid: int) -> Seq<ItemModel>
    decreases ims.len(),
{
    if ims.len() == 0 {
        seq![]
    } else {
        let rest = items_in(ims.drop_last(), cid);
        if ims.last().contained_by == cid {
            rest.push(ims.last())
        } else {
            rest
        }
    }
}

/// The embedding rows owned by item `item_id`, in row order.
pub open spec fn item_embeddings(es: Seq<EmbeddingModel>, item_id: int) -> Seq<EmbeddingModel>
    decreases es.len(),
{
    if es.len() == 0 {
        seq![]
    } else {
        let rest = item_embeddings(es.drop_last(), item_id);
        if es.last().item_id == item_id {
            rest.push(es.last())
        } else {
            rest
        }
    }
}

/// The embedding rows that do not belong to item `item_id`, in row order.
pub open spec fn embeddings_without(es: Seq<EmbeddingModel>, item_id: int) -> Seq<EmbeddingModel>
    decreases es.len(),
{
    if es.len() == 0 {
        seq![]
    } else {
        let rest = embeddings_without(es.drop_last(), item_id);
        if es.last().item_id != item_id {
            rest.push(es.last())
        } else {
            rest
        }
    }
}

// ---------------------------------------------------------------------------
// Well-formedness
// ---------------------------------------------------------------------------

/// Container `i` (not the root) has its parent at an earlier row.
pub open spec fn parent_linked(cs: Seq<ContainerModel>, i: int) -> bool {
    &&& cs[i].contained_by is Some
    &&& exists|j: int| 0 <= j < i && (#[trigger] cs[j].id) == cs[i].contained_by->0
}

pub open spec fn containers_wf(cs: Seq<ContainerModel>, next: int) -> bool {
    &&& 1 <= cs.len()
    &&& cs[0].id == crate::ROOT_CONTAINER_ID as int
    &&& cs[0].contained_by is None
    &&& forall|i: int| 1 <= i < cs.len() ==> #[trigger] parent_linked(cs, i)
    &&& forall|i: int| 0 <= i < cs.len() ==> 1 <= (#[trigger] cs[i].id) < next
    &&& forall|i: int, j: int|
        0 <= i < j < cs.len() ==> (#[trigger] cs[i].id) != (#[trigger] cs[j].id)
}

pub open spec fn items_wf(ims: Seq<ItemModel>, next: int, cs: Seq<ContainerModel>) -> bool {
    &&& forall|i: int| 0 <= i < ims.len() ==> 1 <= (#[trigger] ims[i].id) < next
    &&& forall|i: int, j: int|
        0 <= i < j < ims.len() ==> (#[trigger] ims[i].id) != (#[trigger] ims[j].id)
    &&& forall|i: int| 0 <= i < ims.len() ==> has_container(cs, #[trigger] ims[i].contained_by)
}

pub open spec fn embeddings_wf(es: Seq<EmbeddingModel>, next: int, ims: Seq<ItemModel>) -> bool {
    &&& forall|i: int| 0 <= i < es.len() ==> 1 <= (#[trigger] es[i].id) < next
    &&& forall|i: int, j: int|
        0 <= i < j < es.len() ==> (#[trigger] es[i].id) != (#[trigger] es[j].id)
    &&& forall|i: int| 0 <= i < es.len() ==> has_item(ims, #[trigger] es[i].item_id)
}

pub open spec fn imports_wf(ls: Seq<ImportModel>, next: int) -> bool {
    &&& forall|i: int| 0 <= i < ls.len() ==> 1 <= (#[trigger] ls[i].id) < next
    &&& forall|i: int, j: int|
        0 <= i < j < ls.len() ==> (#[trigger] ls[i].id) != (#[trigger] ls[j].id)
}

pub open spec fn store_wf(m: StoreModel) -> bool {
    &&& containers_wf(m.containers, m.next_container_id)
    &&& items_wf(m.items, m.next_item_id, m.containers)
    &&& embeddings_wf(m.embeddings, m.next_embedding_id, m.items)
    &&& imports_wf(m.imports, m.next_import_id)
    &&& 1 <= m.next_container_id
    &&& 1 <= m.next_item_id
    &&& 1 <= m.next_embedding_id
    &&& 1 <= m.next_import_id
}

// ---------------------------------------------------------------------------
// Uniqueness lemmas for the lookup functions
// ---------------------------------------------------------------------------

pub proof fn lemma_container_found(cs: Seq<ContainerModel>, id: int, i: int)
    requires
        forall|a: int, b: int|
            0 <= a < b < cs.len() ==> (#[trigger] cs[a].id) != (#[trigger] cs[b].id),
        0 <= i < cs.len(),
        cs[i].id == id,
    ensures
        has_container(cs, id),
        container_index(cs, id) == i,
        container_at(cs, id) == cs[i],
{
    assert(has_container(cs, id));
    let k = container_index(cs, id);
    if k != i {
        if k < i {
            assert(cs[k].id != cs[i].id);
        } else {
            assert(cs[i].id != cs[k].id);
        }
    }
}

pub proof fn lemma_item_found(ims: Seq<ItemModel>, id: int, i: int)
    requires
        forall|a: int, b: int|
            0 <= a < b < ims.len() ==> (#[trigger] ims[a].id) != (#[trigger] ims[b].id),
        0 <= i < ims.len(),
        ims[i].id == id,
    ensures
        has_item(ims, id),
        item_index(ims, id) == i,
        item_at(ims, id) == ims[i],
{
    assert(has_item(ims, id));
    let k = item_index(ims, id);
    if k != i {
        if k < i {
            assert(ims[k].id != ims[i].id);
        } else {
            assert(ims[i].id != ims[k].id);
        }
    }
}

pub proof fn lemma_import_found(ls: Seq<ImportModel>, id: int, i: int)
    requires
        forall|a: int, b: int|
            0 <= a < b < ls.len() ==> (#[trigger] ls[a].id) != (#[trigger] ls[b].id),
        0 <= i < ls.len(),
        ls[i].id == id,
    ensures
        has_import(ls, id),
        import_index(ls, id) == i,
        import_at(ls, id) == ls[i],
{
    assert(has_import(ls, id));
    let k = import_index(ls, id);
    if k != i {
        if k < i {
            assert(ls[k].id != ls[i].id);
        } else {
            assert(ls[i].id != ls[k].id);
        }
    }
}

// ---------------------------------------------------------------------------
// Preservation lemmas
// ---------------------------------------------------------------------------

/// Two container sequences with the same ids and parent links in the same
/// places are interchangeable for tree well-formedness.
pub proof fn lemma_containers_wf_same_shape(
    cs1: Seq<ContainerModel>,
    cs2: Seq<ContainerModel>,
    next1: int,
    next2: int,
)
    requires
        containers_wf(cs1, next1),
        cs2.len() == cs1.len(),
        forall|i: int|
            0 <= i < cs1.len() ==> (#[trigger] cs2[i]).id == cs1[i].id && cs2[i].contained_by
                == cs1[i].contained_by,
        next2 >= next1,
    ensures
        containers_wf(cs2, next2),
{
    assert forall|i: int| 1 <= i < cs2.len() implies #[trigger] parent_linked(cs2, i) by {
        assert(parent_linked(cs1, i));
        let j = choose|j: int| 0 <= j < i && (#[trigger] cs1[j].id) == cs1[i].contained_by->0;
        assert(cs2[j].id == cs1[j].id);
    }
}

/// Container membership only depends on the ids.
pub proof fn lemma_has_container_same_ids(cs1: Seq<ContainerModel>, cs2: Seq<ContainerModel>)
    requires
        cs2.len() == cs1.len(),
        forall|i: int| 0 <= i < cs1.len() ==> (#[trigger] cs2[i]).id == cs1[i].id,
    ensures
        forall|id: int| has_container(cs1, id) <==> has_container(cs2, id),
{
    assert forall|id: int| has_container(cs1, id) <==> has_container(cs2, id) by {
        if has_container(cs1, id) {
            let i = container_index(cs1, id);
            assert(cs2[i].id == id);
        }
        if has_container(cs2, id) {
            let i = container_index(cs2, id);
            assert(cs1[i].id == id);
        }
    }
}

/// Item membership only depends on the ids.
pub proof fn lemma_has_item_same_ids(ims1: Seq<ItemModel>, ims2: Seq<ItemModel>)
    requires
        ims2.len() == ims1.len(),
        forall|i: int| 0 <= i < ims1.len() ==> (#[trigger] ims2[i]).id == ims1[i].id,
    ensures
        forall|id: int| has_item(ims1, id) <==> has_item(ims2, id),
{
    assert forall|id: int| has_item(ims1, id) <==> has_item(ims2, id) by {
        if has_item(ims1, id) {
            let i = item_index(ims1, id);
            assert(ims2[i].id == id);
        }
        if has_item(ims2, id) {
            let i = item_index(ims2, id);
            assert(ims1[i].id == id);
        }
    }
}

// ---------------------------------------------------------------------------
// The engine
// ---------------------------------------------------------------------------

impl Database {
    /// The store's invariant: the container rows form a rooted tree with
    /// every parent at an earlier row, and all references are live.
    pub open spec fn wf(&self) -> bool {
        store_wf(self@)
    }

    /// Creates a fresh store holding only the root container.
    pub fn init() -> (db: Database)
        ensures
            db.wf(),
            db@.containers.len() == 1,
            db@.containers[0].id == crate::ROOT_CONTAINER_ID as int,
            db@.containers[0].name == "ROOT"@,
            db@.containers[0].location is None,
            db@.containers[0].contained_by is None,
            db@.items.len() == 0,
            db@.embeddings.len() == 0,
            db@.imports.len() == 0,
            db@.next_container_id == 2,
            db@.next_item_id == 1,
            db@.next_embedding_id == 1,
            db@.next_import_id == 1,
    {
        let mut containers: Vec<ContainerRow> = Vec::new();
        containers.push(
            ContainerRow {
                id: crate::ROOT_CONTAINER_ID,
                name: String::from_str("ROOT"),
                location: None,
                contained_by: None,
            },
        );
        let db = Database {
            containers,
            items: Vec::new(),
            embeddings: Vec::new(),
            imports: Vec::new(),
            next_container_id: 2,
            next_item_id: 1,
            next_embedding_id: 1,
            next_import_id: 1,
        };
        proof {
            assert(db@.containers.len() == 1);
            assert(db@.items =~= Seq::<ItemModel>::empty());
            assert(db@.embeddings =~= Seq::<EmbeddingModel>::empty());
            assert(db@.imports =~= Seq::<ImportModel>::empty());
        }
        db
    }

    pub(crate) fn find_container(&self, id: i64) -> (r: Option<usize>)
        ensures
            match r {
                Some(i) => 0 <= i < self@.containers.len() && self@.containers[i as int].id
                    == id as int,
                None => !has_container(self@.containers, id as int),
            },
    {
        let mut i: usize = 0;
        while i < self.containers.len()
            invariant
                0 <= i <= self@.containers.len(),
                self@.containers.len() == self.containers@.len(),
                forall|j: int| 0 <= j < i ==> (#[trigger] self@.containers[j]).id != id as int,
            decreases self@.containers.len() - i,
        {
            if self.containers[i].id == id {
                return Some(i);
            }
            i = i + 1;
        }
        None
    }

    pub(crate) fn find_item(&self, id: i64) -> (r: Option<usize>)
        ensures
            match r {
                Some(i) => 0 <= i < self@.items.len() && self@.items[i as int].id == id as int,
                None => !has_item(self@.items, id as int),
            },
    {
        let mut i: usize = 0;
        while i < self.items.len()
            invariant
                0 <= i <= self@.items.len(),
                self@.items.len() == self.items@.len(),
                forall|j: int| 0 <= j < i ==> (#[trigger] self@.items[j]).id != id as int,
            decreases self@.items.len() - i,
        {
            if self.items[i].id == id {
                return Some(i);
            }
            i = i + 1;
        }
        None
    }

    pub(crate) fn find_import(&self, id: i64) -> (r: Option<usize>)
        ensures
            match r {
                Some(i) => 0 <= i < self@.imports.len() && self@.imports[i as int].id == id as int,
                None => !has_import(self@.imports, id as int),
            },
    {
        let mut i: usize = 0;
        while i < self.imports.len()
            invariant
                0 <= i <= self@.imports.len(),
                self@.imports.len() == self.imports@.len(),
                forall|j: int| 0 <= j < i ==> (#[trigger] self@.imports[j]).id != id as int,
            decreases self@.imports.len() - i,
        {
            if self.imports[i].id == id {
                return Some(i);
            }
            i = i + 1;
        }
        None
    }

    /// Adds a container named `name` as a child of `parent_id`.
    ///
    /// Returns `NotFound` when the parent does not exist; otherwise appends
    /// one container row with the next fresh id, no location, and the given
    /// parent.
    pub fn add_child_container(&mut self, name: &str, parent_id: i64) -> (r: Result<
        (),
        StoreError,
    >)
        requires
            old(self).wf(),
            old(self)@.next_container_id + 1 <= i64::MAX,
        ensures
            final(self).wf(),
            match r {
                Ok(()) => {
                    &&& has_container(old(self)@.containers, parent_id as int)
                    &&& final(self)@ =~= StoreModel {
                        containers: old(self)@.containers.push(
                            ContainerModel {
                                id: old(self)@.next_container_id,
                                name: name@,
                                location: None,
                                contained_by: Some(parent_id as int),
                            },
                        ),
                        next_container_id: old(self)@.next_container_id + 1,
                        ..old(self)@
                    }
                },
                Err(e) => {
                    &&& e == StoreError::NotFound
                    &&& !has_container(old(self)@.containers, parent_id as int)
                    &&& final(self)@ == old(self)@
                },
            },
    {
        let pidx = match self.find_container(parent_id) {
            Some(i) => i,
            None => {
                return Err(StoreError::NotFound);
            },
        };
        let ghost oldm = self@;
        let id = self.next_container_id;
        self.containers.push(
            ContainerRow {
                id,
                name: String::from_str(name),
                location: None,
                contained_by: Some(parent_id),
            },
        );
        self.next_container_id = id + 1;
        proof {
            let cs1 = oldm.containers;
            let cs2 = self@.containers;
            assert(cs2 =~= cs1.push(
                ContainerModel {
                    id: oldm.next_container_id,
                    name: name@,
                    location: None,
                    contained_by: Some(parent_id as int),
                },
            ));
            assert(has_container(cs1, parent_id as int));
            assert forall|i: int| 1 <= i < cs2.len() implies #[trigger] parent_linked(cs2, i) by {
                if i < cs1.len() {
                    assert(parent_linked(cs1, i));
                    let j = choose|j: int|
                        0 <= j < i && (#[trigger] cs1[j].id) == cs1[i].contained_by->0;
                    assert(cs2[j].id == cs1[j].id);
                } else {
                    assert(cs2[pidx as int].id == parent_id as int);
                }
            }
            assert(items_wf(self@.items, self@.next_item_id, cs2)) by {
                assert(self@.items =~= oldm.items);
                assert forall|i: int|
                    0 <= i < self@.items.len() implies has_container(
                    cs2,
                    #[trigger] self@.items[i].contained_by,
                ) by {
                    assert(has_container(cs1, self@.items[i].contained_by));
                    let j = container_index(cs1, self@.items[i].contained_by);
                    assert(cs2[j].id == self@.items[i].contained_by);
                }
            }
            assert(self@.embeddings =~= oldm.embeddings);
            assert(self@.imports =~= oldm.imports);
        }
        Ok(())
    }

    /// Renames a container; `NotFound` when the id does not exist.
    pub fn set_container_name(&mut self, container_name: &str, container_id: i64) -> (r: Result<
        (),
        StoreError,
    >)
        requires
            old(self).wf(),
        ensures
            final(self).wf(),
            match r {
                Ok(()) => {
                    &&& has_container(old(self)@.containers, container_id as int)
                    &&& final(self)@ =~= StoreModel {
                        containers: old(self)@.containers.update(
                            container_index(old(self)@.containers, container_id as int),
                            ContainerModel {
                                name: container_name@,
                                ..container_at(old(self)@.containers, container_id as int)
                            },
                        ),
                        ..old(self)@
                    }
                },
                Err(e) => {
                    &&& e == StoreError::NotFound
                    &&& !has_container(old(self)@.containers, container_id as int)
                    &&& final(self)@ == old(self)@
                },
            },
    {
        let idx = match self.find_container(container_id) {
            Some(i) => i,
            None => {
                return Err(StoreError::NotFound);
            },
        };
        let ghost oldm = self@;
        let row = ContainerRow {
            id: self.containers[idx].id,
            name: String::from_str(container_name),
            location: clone_opt_string(&self.containers[idx].location),
            contained_by: self.containers[idx].contained_by,
        };
        self.containers[idx] = row;
        proof {
            lemma_container_found(oldm.containers, container_id as int, idx as int);
            let cs1 = oldm.containers;
            let cs2 = self@.containers;
            assert(cs2 =~= cs1.update(
                idx as int,
                ContainerModel { name: container_name@, ..container_at(cs1, container_id as int) },
            ));
            lemma_containers_wf_same_shape(cs1, cs2, oldm.next_container_id, oldm.next_container_id);
            lemma_has_container_same_ids(cs1, cs2);
            assert(self@.items =~= oldm.items);
            assert(self@.embeddings =~= oldm.embeddings);
            assert(self@.imports =~= oldm.imports);
            assert(self@ =~= StoreModel { containers: cs2, ..oldm });
        }
        Ok(())
    }

    /// The name of container `container_id`; `NotFound` when absent.
    pub fn get_container_name(&self, container_id: i64) -> (r: Result<String, StoreError>)
        requires
            self.wf(),
        ensures
            match r {
                Ok(n) => {
                    &&& has_container(self@.containers, container_id as int)
                    &&& n@ == container_at(self@.containers, container_id as int).name
                },
                Err(e) => {
                    &&& e == StoreError::NotFound
                    &&& !has_container(self@.containers, container_id as int)
                },
            },
    {
        match self.find_container(container_id) {
            Some(i) => {
                proof {
                    lemma_container_found(self@.containers, container_id as int, i as int);
                }
                Ok(self.containers[i].name.clone())
            },
            None => Err(StoreError::NotFound),
        }
    }

    /// The parent of container `container_id`; `NotFound` when the container
    /// is absent, and also for the root, which has no parent row.
    pub fn get_container_parent(&self, container_id: i64) -> (r: Result<i64, StoreError>)
        requires
            self.wf(),
        ensures
            match r {
                Ok(p) => {
                    &&& has_container(self@.containers, container_id as int)
                    &&& container_at(self@.containers, container_id as int).contained_by == Some(
                        p as int,
                    )
                },
                Err(e) => {
                    &&& e == StoreError::NotFound
                    &&& (!has_container(self@.containers, container_id as int) || container_at(
                        self@.containers,
                        container_id as int,
                    ).contained_by is None)
                },
            },
    {
        match self.find_container(container_id) {
            Some(i) => {
                proof {
                    lemma_container_found(self@.containers, container_id as int, i as int);
                }
                match self.containers[i].contained_by {
                    Some(p) => Ok(p),
                    None => Err(StoreError::NotFound),
                }
            },
            None => Err(StoreError::NotFound),
        }
    }

    /// The ids of the direct children of `container_id`, in row order;
    /// `NotFound` when the container is absent.
    pub fn get_container_children(&self, container_id: i64) -> (r: Result<Vec<i64>, StoreError>)
        requires
            self.wf(),
        ensures
            match r {
                Ok(v) => {
                    &&& has_container(self@.containers, container_id as int)
                    &&& Seq::new(v@.len(), |k: int| v@[k] as int) == children_of(
                        self@.containers,
                        container_id as int,
                    )
                },
                Err(e) => {
                    &&& e == StoreError::NotFound
                    &&& !has_container(self@.containers, container_id as int)
                },
            },
    {
        if self.find_container(container_id).is_none() {
            return Err(StoreError::NotFound);
        }
        let ghost cs = self@.containers;
        let mut v: Vec<i64> = Vec::new();
        let mut i: usize = 0;
        proof {
            assert(cs.take(0) =~= Seq::<ContainerModel>::empty());
            assert(Seq::new(v@.len(), |k: int| v@[k] as int) =~= children_of(
                cs.take(0),
                container_id as int,
            ));
        }
        while i < self.containers.len()
            invariant
                0 <= i <= self.containers@.len(),
                cs == self@.containers,
                cs.len() == self.containers@.len(),
                Seq::new(v@.len(), |k: int| v@[k] as int) == children_of(
                    cs.take(i as int),
                    container_id as int,
                ),
            decreases self.containers@.len() - i,
        {
            proof {
                assert(cs.take(i as int + 1).drop_last() =~= cs.take(i as int));
                assert(cs.take(i as int + 1).last() == cs[i as int]);
            }
            let keep = match self.containers[i].contained_by {
                Some(p) => p == container_id,
                None => false,
            };
            if keep {
                let ghost prev = Seq::new(v@.len(), |k: int| v@[k] as int);
                v.push(self.containers[i].id);
                proof {
                    assert(Seq::new(v@.len(), |k: int| v@[k] as int) =~= prev.push(
                        cs[i as int].id,
                    ));
                }
            }
            i = i + 1;
        }
        proof {
            assert(cs.take(cs.len() as int) =~= cs);
        }
        Ok(v)
    }

    /// The items directly inside `container_id` (no recursion), in row
    /// order; `NotFound` when the container is absent. The rows carry an
    /// empty container name.
    pub fn get_container_items(&self, container_id: i64) -> (r: Result<Vec<ItemResult>, StoreError>)
        requires
            self.wf(),
        ensures
            match r {
                Ok(v) => {
                    &&& has_container(self@.containers, container_id as int)
                    &&& Seq::new(v@.len(), |k: int| v@[k]@) == item_summaries(
                        self@.items,
                        container_id as int,
                    )
                },
                Err(e) => {
                    &&& e == StoreError::NotFound
                    &&& !has_container(self@.containers, container_id as int)
                },
            },
    {
        if self.find_container(container_id).is_none() {
            return Err(StoreError::NotFound);
        }
        let ghost ims = self@.items;
        let mut v: Vec<ItemResult> = Vec::new();
        let mut i: usize = 0;
        proof {
            assert(ims.take(0) =~= Seq::<ItemModel>::empty());
            assert(Seq::new(v@.len(), |k: int| v@[k]@) =~= item_summaries(
                ims.take(0),
                container_id as int,
            ));
        }
        while i < self.items.len()
            invariant
                0 <= i <= self.items@.len(),
                ims == self@.items,
                ims.len() == self.items@.len(),
                Seq::new(v@.len(), |k: int| v@[k]@) == item_summaries(
                    ims.take(i as int),
                    container_id as int,
                ),
            decreases self.items@.len() - i,
        {
            proof {
                assert(ims.take(i as int + 1).drop_last() =~= ims.take(i as int));
                assert(ims.take(i as int + 1).last() == ims[i as int]);
            }
            if self.items[i].contained_by == container_id {
                let ghost prev = Seq::new(v@.len(), |k: int| v@[k]@);
                let row = ItemResult {
                    id: self.items[i].id,
                    name: self.items[i].name.clone(),
                    description: self.items[i].description.clone(),
                    container_name: String::new(),
                    container_id,
                };
                v.push(row);
                proof {
                    assert(Seq::new(v@.len(), |k: int| v@[k]@) =~= prev.push(
                        summary_of(ims[i as int], container_id as int),
                    ));
                }
            }
            i = i + 1;
        }
        proof {
            assert(ims.take(ims.len() as int) =~= ims);
        }
        Ok(v)
    }
}

/// The summary row shown for an item listed inside its container.
pub open spec fn summary_of(it: ItemModel, cid: int) -> ItemResultModel {
    ItemResultModel {
        id: it.id,
        name: it.name,
        description: it.description,
        container_name: Seq::empty(),
        container_id: cid,
    }
}

/// The summaries of the items directly inside `cid`, in row order.
pub open spec fn item_summaries(ims: Seq<ItemModel>, cid: int) -> Seq<ItemResultModel>
    decreases ims.len(),
{
    if ims.len() == 0 {
        seq![]
    } else {
        let rest = item_summaries(ims.drop_last(), cid);
        if ims.last().contained_by == cid {
            rest.push(summary_of(ims.last(), cid))
        } else {
            rest
        }
    }
}

/// Clones an optional string, preserving its view.
pub(crate) fn clone_opt_string(s: &Option<String>) -> (r: Option<String>)
    ensures
        match s {
            Some(x) => r matches Some(y) && y@ == x@,
            None => r is None,
        },
{
    match s {
        Some(x) => Some(x.clone()),
        None => None,
    }
}

// ---------------------------------------------------------------------------
// Items, embeddings and the import log
// ---------------------------------------------------------------------------

/// The embedding rows created for one item from `vecs`, with consecutive
/// fresh ids starting at `next`.
pub open spec fn fresh_embeddings(next: int, item_id: int, vecs: Seq<Seq<u8>>) -> Seq<
    EmbeddingModel,
> {
    Seq::new(vecs.len(), |k: int| EmbeddingModel { id: next + k, item_id, vector: vecs[k] })
}

/// Every row kept by `embeddings_without` belongs to another item and is one
/// of the original rows.
pub proof fn lemma_embeddings_without_props(es: Seq<EmbeddingModel>, iid: int)
    ensures
        forall|k: int|
            0 <= k < embeddings_without(es, iid).len() ==> (#[trigger] embeddings_without(
                es,
                iid,
            )[k]).item_id != iid,
        forall|k: int|
            #![trigger embeddings_without(es, iid)[k]]
            0 <= k < embeddings_without(es, iid).len() ==> exists|j: int|
                0 <= j < es.len() && embeddings_without(es, iid)[k] == #[trigger] es[j],
    decreases es.len(),
{
    if es.len() > 0 {
        lemma_embeddings_without_props(es.drop_last(), iid);
        let rest = embeddings_without(es.drop_last(), iid);
        assert forall|k: int|
            #![trigger embeddings_without(es, iid)[k]]
            0 <= k < embeddings_without(es, iid).len() implies exists|j: int|
            0 <= j < es.len() && embeddings_without(es, iid)[k] == #[trigger] es[j] by {
            if k < rest.len() {
                let j = choose|j: int| 0 <= j < es.drop_last().len() && rest[k] == es.drop_last()[j];
                assert(embeddings_without(es, iid)[k] == es[j]);
            } else {
                assert(embeddings_without(es, iid)[k] == es[es.len() - 1]);
            }
        }
    }
}

/// Filtering away one item's embeddings keeps the remaining ids distinct.
pub proof fn lemma_embeddings_without_distinct(es: Seq<EmbeddingModel>, iid: int)
    requires
        forall|i: int, j: int|
            0 <= i < j < es.len() ==> (#[trigger] es[i].id) != (#[trigger] es[j].id),
    ensures
        forall|i: int, j: int|
            0 <= i < j < embeddings_without(es, iid).len() ==> (#[trigger] embeddings_without(
                es,
                iid,
            )[i].id) != (#[trigger] embeddings_without(es, iid)[j].id),
    decreases es.len(),
{
    if es.len() > 0 {
        let prefix = es.drop_last();
        lemma_embeddings_without_distinct(prefix, iid);
        lemma_embeddings_without_props(prefix, iid);
        let rest = embeddings_without(prefix, iid);
        let w = embeddings_without(es, iid);
        assert forall|i: int, j: int|
            0 <= i < j < w.len() implies (#[trigger] w[i].id) != (#[trigger] w[j].id) by {
            if j < rest.len() {
                assert(rest[i].id != rest[j].id);
            } else {
                assert(w[j] == es[es.len() - 1]);
                let a = choose|a: int| 0 <= a < prefix.len() && rest[i] == prefix[a];
                assert(es[a].id != es[es.len() - 1].id);
            }
        }
    }
}

/// Copies a byte vector.
pub(crate) fn clone_bytes(v: &Vec<u8>) -> (r: Vec<u8>)
    ensures
        r@ == v@,
{
    let mut r: Vec<u8> = Vec::new();
    let mut i: usize = 0;
    while i < v.len()
        invariant
            0 <= i <= v@.len(),
            r@ =~= v@.take(i as int),
        decreases v@.len() - i,
    {
        r.push(v[i]);
        proof {
            assert(r@ =~= v@.take(i as int + 1));
        }
        i = i + 1;
    }
    proof {
        assert(v@.take(v@.len() as int) =~= v@);
    }
    r
}

fn clone_embedding_row(e: &EmbeddingRow) -> (r: EmbeddingRow)
    ensures
        r@ == e@,
{
    EmbeddingRow { id: e.id, item_id: e.item_id, vector: clone_bytes(&e.vector) }
}

/// Copies a container row, preserving its model.
pub(crate) fn clone_container_row(c: &ContainerRow) -> (r: ContainerRow)
    ensures
        r@ == c@,
{
    ContainerRow {
        id: c.id,
        name: c.name.clone(),
        location: clone_opt_string(&c.location),
        contained_by: c.contained_by,
    }
}

impl Database {
    /// Replaces the embedding table by the rows not owned by `item_id`.
    fn remove_item_embeddings(&mut self, item_id: i64)
        requires
            old(self).wf(),
        ensures
            final(self).wf(),
            (final(self)@ =~= StoreModel {
                embeddings: embeddings_without(old(self)@.embeddings, item_id as int),
                ..old(self)@
            }),
    {
        let ghost oldm = self@;
        let ghost es = oldm.embeddings;
        let mut kept: Vec<EmbeddingRow> = Vec::new();
        let mut i: usize = 0;
        proof {
            assert(es.take(0) =~= Seq::<EmbeddingModel>::empty());
            assert(Seq::new(kept@.len(), |k: int| kept@[k]@) =~= embeddings_without(
                es.take(0),
                item_id as int,
            ));
        }
        while i < self.embeddings.len()
            invariant
                0 <= i <= self.embeddings@.len(),
                es == self@.embeddings,
                es.len() == self.embeddings@.len(),
                self@ == oldm,
                Seq::new(kept@.len(), |k: int| kept@[k]@) == embeddings_without(
                    es.take(i as int),
                    item_id as int,
                ),
            decreases self.embeddings@.len() - i,
        {
            proof {
                assert(es.take(i as int + 1).drop_last() =~= es.take(i as int));
                assert(es.take(i as int + 1).last() == es[i as int]);
            }
            if self.embeddings[i].item_id != item_id {
                let ghost prev = Seq::new(kept@.len(), |k: int| kept@[k]@);
                let row = clone_embedding_row(&self.embeddings[i]);
                kept.push(row);
                proof {
                    assert(Seq::new(kept@.len(), |k: int| kept@[k]@) =~= prev.push(es[i as int]));
                }
            }
            i = i + 1;
        }
        proof {
            assert(es.take(es.len() as int) =~= es);
        }
        self.embeddings = kept;
        proof {
            let w = embeddings_without(es, item_id as int);
            assert(self@.embeddings =~= w);
            assert(self@ =~= StoreModel { embeddings: w, ..oldm });
            lemma_embeddings_without_props(es, item_id as int);
            lemma_embeddings_without_distinct(es, item_id as int);
            assert forall|k: int|
                0 <= k < w.len() implies 1 <= (#[trigger] w[k].id) < self@.next_embedding_id by {
                let j = choose|j: int| 0 <= j < es.len() && w[k] == es[j];
                assert(1 <= es[j].id < oldm.next_embedding_id);
            }
            assert forall|k: int|
                0 <= k < w.len() implies has_item(self@.items, #[trigger] w[k].item_id) by {
                let j = choose|j: int| 0 <= j < es.len() && w[k] == es[j];
                assert(has_item(oldm.items, es[j].item_id));
            }
        }
    }

    /// Appends one embedding row per vector, all owned by `item_id`, with
    /// consecutive fresh ids.
    fn append_embeddings(&mut self, item_id: i64, vecs: Vec<Vec<u8>>)
        requires
            old(self).wf(),
            has_item(old(self)@.items, item_id as int),
            old(self)@.next_embedding_id + vecs@.len() <= i64::MAX,
        ensures
            final(self).wf(),
            (final(self)@ =~= StoreModel {
                embeddings: old(self)@.embeddings + fresh_embeddings(
                    old(self)@.next_embedding_id,
                    item_id as int,
                    vecs.deep_view(),
                ),
                next_embedding_id: old(self)@.next_embedding_id + vecs@.len(),
                ..old(self)@
            }),
    {
        let ghost oldm = self@;
        let ghost orig = vecs.deep_view();
        let mut vecs = vecs;
        let ghost mut done: int = 0;
        proof {
            assert(orig.skip(0) =~= orig);
            assert(fresh_embeddings(oldm.next_embedding_id, item_id as int, orig.take(0)) =~= Seq::<
                EmbeddingModel,
            >::empty());
            assert(oldm.embeddings + fresh_embeddings(
                oldm.next_embedding_id,
                item_id as int,
                orig.take(0),
            ) =~= oldm.embeddings);
            assert(self@ =~= StoreModel {
                embeddings: oldm.embeddings + fresh_embeddings(
                    oldm.next_embedding_id,
                    item_id as int,
                    orig.take(0),
                ),
                next_embedding_id: oldm.next_embedding_id + 0,
                ..oldm
            });
        }
        while vecs.len() > 0
            invariant
                0 <= done <= orig.len(),
                done == orig.len() - vecs@.len(),
                vecs.deep_view() =~= orig.skip(done),
                (self@ =~= StoreModel {
                    embeddings: oldm.embeddings + fresh_embeddings(
                        oldm.next_embedding_id,
                        item_id as int,
                        orig.take(done),
                    ),
                    next_embedding_id: oldm.next_embedding_id + done,
                    ..oldm
                }),
                oldm.next_embedding_id + orig.len() <= i64::MAX,
                1 <= oldm.next_embedding_id,
            decreases vecs@.len(),
        {
            let ghost pre_deep = vecs.deep_view();
            let ghost pre_model = self@.embeddings;
            let v = vecs.remove(0);
            proof {
                assert(vecs.deep_view() =~= pre_deep.skip(1));
                assert(pre_deep.skip(1) =~= orig.skip(done + 1));
                assert(v@ == pre_deep[0]);
                assert(pre_deep[0] == orig[done]);
            }
            let id = self.next_embedding_id;
            self.embeddings.push(EmbeddingRow { id, item_id, vector: v });
            self.next_embedding_id = id + 1;
            proof {
                done = done + 1;
                assert(self@.embeddings =~= pre_model.push(
                    EmbeddingModel {
                        id: oldm.next_embedding_id + (done - 1),
                        item_id: item_id as int,
                        vector: orig[done - 1],
                    },
                ));
                assert(fresh_embeddings(
                    oldm.next_embedding_id,
                    item_id as int,
                    orig.take(done),
                ) =~= fresh_embeddings(
                    oldm.next_embedding_id,
                    item_id as int,
                    orig.take(done - 1),
                ).push(
                    EmbeddingModel {
                        id: oldm.next_embedding_id + (done - 1),
                        item_id: item_id as int,
                        vector: orig[done - 1],
                    },
                ));
                assert(self@ =~= StoreModel {
                    embeddings: oldm.embeddings + fresh_embeddings(
                        oldm.next_embedding_id,
                        item_id as int,
                        orig.take(done),
                    ),
                    next_embedding_id: oldm.next_embedding_id + done,
                    ..oldm
                });
            }
        }
        proof {
            assert(orig.take(done) =~= orig);
            let es2 = self@.embeddings;
            let fresh = fresh_embeddings(oldm.next_embedding_id, item_id as int, orig);
            assert forall|i: int, j: int|
                0 <= i < j < es2.len() implies (#[trigger] es2[i].id) != (#[trigger] es2[j].id) by {
                if j < oldm.embeddings.len() {
                    assert(oldm.embeddings[i].id != oldm.embeddings[j].id);
                } else if i < oldm.embeddings.len() {
                    assert(es2[i].id < oldm.next_embedding_id);
                    assert(es2[j].id >= oldm.next_embedding_id);
                } else {
                    assert(es2[i].id == oldm.next_embedding_id + (i - oldm.embeddings.len()));
                    assert(es2[j].id == oldm.next_embedding_id + (j - oldm.embeddings.len()));
                }
            }
        }
    }

    /// Inserts a new item with its photos and one embedding per textual
    /// facet: one per description statement, one for the name, and one for
    /// the joined full description, so `description.len() + 2` in all.
    /// Returns the fresh item's id.
    ///
    /// Returns `NotFound` when the target container does not exist; nothing
    /// is changed then.
    pub fn insert_item(
        &mut self,
        name: &str,
        description: &Vec<String>,
        small_photo: &Vec<u8>,
        large_photo: &Vec<u8>,
        contained_by: i64,
        embeddings: Vec<Vec<u8>>,
    ) -> (r: Result<i64, StoreError>)
        requires
            old(self).wf(),
            embeddings@.len() == description@.len() + 2,
            old(self)@.next_item_id + 1 <= i64::MAX,
            old(self)@.next_embedding_id + embeddings@.len() <= i64::MAX,
        ensures
            final(self).wf(),
            match r {
                Ok(id) => {
                    &&& id as int == old(self)@.next_item_id
                    &&& has_container(old(self)@.containers, contained_by as int)
                    &&& final(self)@ =~= StoreModel {
                        items: old(self)@.items.push(
                            ItemModel {
                                id: old(self)@.next_item_id,
                                name: name@,
                                description: spec_join_nl(description.deep_view()),
                                small_photo: small_photo@,
                                large_photo: large_photo@,
                                contained_by: contained_by as int,
                            },
                        ),
                        embeddings: old(self)@.embeddings + fresh_embeddings(
                            old(self)@.next_embedding_id,
                            old(self)@.next_item_id,
                            embeddings.deep_view(),
                        ),
                        next_item_id: old(self)@.next_item_id + 1,
                        next_embedding_id: old(self)@.next_embedding_id + embeddings@.len(),
                        ..old(self)@
                    }
                },
                Err(e) => {
                    &&& e == StoreError::NotFound
                    &&& !has_container(old(self)@.containers, contained_by as int)
                    &&& final(self)@ == old(self)@
                },
            },
    {
        if self.find_container(contained_by).is_none() {
            return Err(StoreError::NotFound);
        }
        let ghost oldm = self@;
        let item_id = self.next_item_id;
        self.items.push(
            ItemRow {
                id: item_id,
                name: String::from_str(name),
                description: join_nl(description),
                small_photo: clone_bytes(small_photo),
                large_photo: clone_bytes(large_photo),
                contained_by,
            },
        );
        self.next_item_id = item_id + 1;
        let ghost item_model = ItemModel {
            id: oldm.next_item_id,
            name: name@,
            description: spec_join_nl(description.deep_view()),
            small_photo: small_photo@,
            large_photo: large_photo@,
            contained_by: contained_by as int,
        };
        proof {
            assert(self@.items =~= oldm.items.push(item_model));
            assert(self@.containers =~= oldm.containers);
            assert(self@.embeddings =~= oldm.embeddings);
            assert(self@.imports =~= oldm.imports);
            assert(self@ =~= StoreModel {
                items: oldm.items.push(item_model),
                next_item_id: oldm.next_item_id + 1,
                ..oldm
            });
            let ims2 = self@.items;
            assert forall|i: int, j: int|
                0 <= i < j < ims2.len() implies (#[trigger] ims2[i].id) != (#[trigger] ims2[j].id)
            by {
                if j < oldm.items.len() {
                    assert(oldm.items[i].id != oldm.items[j].id);
                } else {
                    assert(ims2[j].id == oldm.next_item_id);
                }
            }
            assert(has_item(ims2, item_id as int)) by {
                assert(ims2[ims2.len() - 1].id == item_id as int);
            }
            assert forall|i: int|
                0 <= i < self@.embeddings.len() implies has_item(
                ims2,
                #[trigger] self@.embeddings[i].item_id,
            ) by {
                assert(has_item(oldm.items, oldm.embeddings[i].item_id));
                let j = item_index(oldm.items, oldm.embeddings[i].item_id);
                assert(ims2[j].id == oldm.embeddings[i].item_id);
            }
        }
        let ghost mid = self@;
        self.append_embeddings(item_id, embeddings);
        proof {
            assert(final(self)@ =~= StoreModel {
                items: oldm.items.push(item_model),
                embeddings: oldm.embeddings + fresh_embeddings(
                    oldm.next_embedding_id,
                    oldm.next_item_id,
                    embeddings.deep_view(),
                ),
                next_item_id: oldm.next_item_id + 1,
                next_embedding_id: oldm.next_embedding_id + embeddings.deep_view().len(),
                ..oldm
            });
        }
        Ok(item_id)
    }

    /// Rewrites an item's name and description, regenerating its embedding
    /// set: the old rows are purged and one fresh row per new facet is
    /// appended. The item keeps its id, its photos and its container.
    pub fn update_item(
        &mut self,
        item_id: i64,
        item_name: &str,
        item_description: &str,
        embeddings: Vec<Vec<u8>>,
    ) -> (r: Result<(), StoreError>)
        requires
            old(self).wf(),
            embeddings@.len() == spec_split_nl(item_description@).len() + 2,
            old(self)@.next_embedding_id + embeddings@.len() <= i64::MAX,
        ensures
            final(self).wf(),
            match r {
                Ok(()) => {
                    &&& has_item(old(self)@.items, item_id as int)
                    &&& final(self)@ =~= StoreModel {
                        items: old(self)@.items.update(
                            item_index(old(self)@.items, item_id as int),
                            ItemModel {
                                name: item_name@,
                                description: item_description@,
                                ..item_at(old(self)@.items, item_id as int)
                            },
                        ),
                        embeddings: embeddings_without(old(self)@.embeddings, item_id as int)
                            + fresh_embeddings(
                            old(self)@.next_embedding_id,
                            item_id as int,
                            embeddings.deep_view(),
                        ),
                        next_embedding_id: old(self)@.next_embedding_id + embeddings@.len(),
                        ..old(self)@
                    }
                },
                Err(e) => {
                    &&& e == StoreError::NotFound
                    &&& !has_item(old(self)@.items, item_id as int)
                    &&& final(self)@ == old(self)@
                },
            },
    {
        let ghost oldm = self@;
        let idx = match self.find_item(item_id) {
            Some(i) => i,
            None => {
                return Err(StoreError::NotFound);
            },
        };
        proof {
            lemma_item_found(oldm.items, item_id as int, idx as int);
        }
        self.remove_item_embeddings(item_id);
        let ghost m1 = self@;
        let row = ItemRow {
            id: item_id,
            name: String::from_str(item_name),
            description: String::from_str(item_description),
            small_photo: clone_bytes(&self.items[idx].small_photo),
            large_photo: clone_bytes(&self.items[idx].large_photo),
            contained_by: self.items[idx].contained_by,
        };
        self.items[idx] = row;
        let ghost new_item = ItemModel {
            name: item_name@,
            description: item_description@,
            ..item_at(oldm.items, item_id as int)
        };
        proof {
            assert(self@.items =~= m1.items.update(idx as int, new_item));
            assert(self@.items =~= oldm.items.update(idx as int, new_item));
            assert(self@.containers =~= oldm.containers);
            assert(self@.imports =~= oldm.imports);
            assert(self@.embeddings =~= m1.embeddings);
            let ims1 = oldm.items;
            let ims2 = self@.items;
            assert forall|i: int, j: int|
                0 <= i < j < ims2.len() implies (#[trigger] ims2[i].id) != (#[trigger] ims2[j].id)
            by {
                assert(ims1[i].id != ims1[j].id);
                assert(ims2[i].id == ims1[i].id);
                assert(ims2[j].id == ims1[j].id);
            }
            lemma_has_item_same_ids(ims1, ims2);
            assert(has_item(ims2, item_id as int));
            assert(items_wf(ims2, self@.next_item_id, self@.containers));
            assert(embeddings_wf(self@.embeddings, self@.next_embedding_id, ims2));
        }
        let ghost m2 = self@;
        self.append_embeddings(item_id, embeddings);
        proof {
            assert(final(self)@ =~= StoreModel {
                items: oldm.items.update(idx as int, new_item),
                embeddings: embeddings_without(oldm.embeddings, item_id as int)
                    + fresh_embeddings(
                    oldm.next_embedding_id,
                    item_id as int,
                    embeddings.deep_view(),
                ),
                next_embedding_id: oldm.next_embedding_id + embeddings.deep_view().len(),
                ..oldm
            });
        }
        Ok(())
    }

    /// Deletes an item and purges all of its embedding rows; `NotFound` when
    /// the id does not exist. Independent of container deletion.
    pub fn delete_item(&mut self, item_id: i64) -> (r: Result<(), StoreError>)
        requires
            old(self).wf(),
        ensures
            final(self).wf(),
            match r {
                Ok(()) => {
                    &&& has_item(old(self)@.items, item_id as int)
                    &&& final(self)@ =~= StoreModel {
                        items: old(self)@.items.remove(item_index(old(self)@.items, item_id as int)),
                        embeddings: embeddings_without(old(self)@.embeddings, item_id as int),
                        ..old(self)@
                    }
                },
                Err(e) => {
                    &&& e == StoreError::NotFound
                    &&& !has_item(old(self)@.items, item_id as int)
                    &&& final(self)@ == old(self)@
                },
            },
    {
        let ghost oldm = self@;
        let idx = match self.find_item(item_id) {
            Some(i) => i,
            None => {
                return Err(StoreError::NotFound);
            },
        };
        proof {
            lemma_item_found(oldm.items, item_id as int, idx as int);
        }
        self.remove_item_embeddings(item_id);
        self.items.remove(idx);
        proof {
            let ims1 = oldm.items;
            let ims2 = self@.items;
            assert(ims2 =~= ims1.remove(idx as int));
            assert(forall|k: int|
                0 <= k < ims2.len() ==> #[trigger] ims2[k] == (if k < idx as int {
                    ims1[k]
                } else {
                    ims1[k + 1]
                }));
            assert forall|i: int, j: int|
                0 <= i < j < ims2.len() implies (#[trigger] ims2[i].id) != (#[trigger] ims2[j].id)
            by {}
            assert forall|i: int|
                0 <= i < ims2.len() implies has_container(
                self@.containers,
                #[trigger] ims2[i].contained_by,
            ) by {
                if i < idx as int {
                    assert(has_container(oldm.containers, ims1[i].contained_by));
                } else {
                    assert(has_container(oldm.containers, ims1[i + 1].contained_by));
                }
            }
            let w = self@.embeddings;
            lemma_embeddings_without_props(oldm.embeddings, item_id as int);
            assert forall|k: int|
                0 <= k < w.len() implies has_item(ims2, #[trigger] w[k].item_id) by {
                let j = choose|j: int| 0 <= j < oldm.embeddings.len() && w[k] == oldm.embeddings[j];
                let a = item_index(ims1, oldm.embeddings[j].item_id);
                assert(has_item(ims1, oldm.embeddings[j].item_id));
                assert(ims1[a].id == w[k].item_id);
                assert(w[k].item_id != item_id as int);
                assert(a != idx as int);
                if a < idx as int {
                    assert(ims2[a].id == w[k].item_id);
                } else {
                    assert(ims2[a - 1].id == w[k].item_id);
                }
            }
            assert(final(self)@ =~= StoreModel {
                items: ims1.remove(item_index(ims1, item_id as int)),
                embeddings: embeddings_without(oldm.embeddings, item_id as int),
                ..oldm
            });
        }
        Ok(())
    }

    /// Moves an item into another container; `NotFound` when the item or the
    /// container does not exist.
    pub fn move_item(&mut self, item_id: i64, container_id: i64) -> (r: Result<(), StoreError>)
        requires
            old(self).wf(),
        ensures
            final(self).wf(),
            match r {
                Ok(()) => {
                    &&& has_item(old(self)@.items, item_id as int)
                    &&& has_container(old(self)@.containers, container_id as int)
                    &&& final(self)@ =~= StoreModel {
                        items: old(self)@.items.update(
                            item_index(old(self)@.items, item_id as int),
                            ItemModel {
                                contained_by: container_id as int,
                                ..item_at(old(self)@.items, item_id as int)
                            },
                        ),
                        ..old(self)@
                    }
                },
                Err(e) => {
                    &&& e == StoreError::NotFound
                    &&& (!has_item(old(self)@.items, item_id as int) || !has_container(
                        old(self)@.containers,
                        container_id as int,
                    ))
                    &&& final(self)@ == old(self)@
                },
            },
    {
        let ghost oldm = self@;
        let idx = match self.find_item(item_id) {
            Some(i) => i,
            None => {
                return Err(StoreError::NotFound);
            },
        };
        if self.find_container(container_id).is_none() {
            return Err(StoreError::NotFound);
        }
        proof {
            lemma_item_found(oldm.items, item_id as int, idx as int);
        }
        let row = ItemRow {
            id: item_id,
            name: self.items[idx].name.clone(),
            description: self.items[idx].description.clone(),
            small_photo: clone_bytes(&self.items[idx].small_photo),
            large_photo: clone_bytes(&self.items[idx].large_photo),
            contained_by: container_id,
        };
        self.items[idx] = row;
        proof {
            let ims1 = oldm.items;
            let ims2 = self@.items;
            let new_item = ItemModel {
                contained_by: container_id as int,
                ..item_at(ims1, item_id as int)
            };
            assert(ims2 =~= ims1.update(idx as int, new_item));
            assert forall|i: int, j: int|
                0 <= i < j < ims2.len() implies (#[trigger] ims2[i].id) != (#[trigger] ims2[j].id)
            by {
                assert(ims1[i].id != ims1[j].id);
                assert(ims2[i].id == ims1[i].id);
                assert(ims2[j].id == ims1[j].id);
            }
            lemma_has_item_same_ids(ims1, ims2);
            assert(self@.containers =~= oldm.containers);
            assert(self@.embeddings =~= oldm.embeddings);
            assert(self@.imports =~= oldm.imports);
            assert(final(self)@ =~= StoreModel { items: ims1.update(idx as int, new_item), ..oldm });
        }
        Ok(())
    }

    /// The item with its container's name filled in; `NotFound` when absent.
    pub fn get_item(&self, item_id: i64) -> (r: Result<ItemResult, StoreError>)
        requires
            self.wf(),
        ensures
            match r {
                Ok(res) => {
                    &&& has_item(self@.items, item_id as int)
                    &&& res@ == ItemResultModel {
                        id: item_id as int,
                        name: item_at(self@.items, item_id as int).name,
                        description: item_at(self@.items, item_id as int).description,
                        container_name: container_at(
                            self@.containers,
                            item_at(self@.items, item_id as int).contained_by,
                        ).name,
                        container_id: item_at(self@.items, item_id as int).contained_by,
                    }
                },
                Err(e) => {
                    &&& e == StoreError::NotFound
                    &&& !has_item(self@.items, item_id as int)
                },
            },
    {
        let idx = match self.find_item(item_id) {
            Some(i) => i,
            None => {
                return Err(StoreError::NotFound);
            },
        };
        proof {
            lemma_item_found(self@.items, item_id as int, idx as int);
        }
        let cidx = match self.find_container(self.items[idx].contained_by) {
            Some(c) => c,
            None => {
                proof {
                    assert(has_container(self@.containers, self@.items[idx as int].contained_by));
                    assert(false);
                }
                return Err(StoreError::Storage);
            },
        };
        proof {
            lemma_container_found(
                self@.containers,
                self@.items[idx as int].contained_by,
                cidx as int,
            );
        }
        Ok(
            ItemResult {
                id: item_id,
                name: self.items[idx].name.clone(),
                description: self.items[idx].description.clone(),
                container_name: self.containers[cidx].name.clone(),
                container_id: self.items[idx].contained_by,
            },
        )
    }

    /// The small photo of an item; `NotFound` when the id does not exist.
    pub fn get_small_image(&self, item_id: i64) -> (r: Result<Vec<u8>, StoreError>)
        requires
            self.wf(),
        ensures
            match r {
                Ok(v) => has_item(self@.items, item_id as int) && v@ == item_at(
                    self@.items,
                    item_id as int,
                ).small_photo,
                Err(e) => e == StoreError::NotFound && !has_item(self@.items, item_id as int),
            },
    {
        match self.find_item(item_id) {
            Some(i) => {
                proof {
                    lemma_item_found(self@.items, item_id as int, i as int);
                }
                Ok(clone_bytes(&self.items[i].small_photo))
            },
            None => Err(StoreError::NotFound),
        }
    }

    /// The large photo of an item; `NotFound` when the id does not exist.
    pub fn get_large_image(&self, item_id: i64) -> (r: Result<Vec<u8>, StoreError>)
        requires
            self.wf(),
        ensures
            match r {
                Ok(v) => has_item(self@.items, item_id as int) && v@ == item_at(
                    self@.items,
                    item_id as int,
                ).large_photo,
                Err(e) => e == StoreError::NotFound && !has_item(self@.items, item_id as int),
            },
    {
        match self.find_item(item_id) {
            Some(i) => {
                proof {
                    lemma_item_found(self@.items, item_id as int, i as int);
                }
                Ok(clone_bytes(&self.items[i].large_photo))
            },
            None => Err(StoreError::NotFound),
        }
    }

    /// Appends one import job record and returns its id.
    pub fn log_new_import(&mut self, source: &str, status: &str, target_container: i64) -> (r:
        Result<i64, StoreError>)
        requires
            old(self).wf(),
            old(self)@.next_import_id + 1 <= i64::MAX,
        ensures
            final(self).wf(),
            (r matches Ok(id) && id as int == old(self)@.next_import_id),
            (final(self)@ =~= StoreModel {
                imports: old(self)@.imports.push(
                    ImportModel {
                        id: old(self)@.next_import_id,
                        source: source@,
                        status: status@,
                        target_container: target_container as int,
                    },
                ),
                next_import_id: old(self)@.next_import_id + 1,
                ..old(self)@
            }),
    {
        let ghost oldm = self@;
        let id = self.next_import_id;
        self.imports.push(
            ImportRow {
                id,
                source: String::from_str(source),
                status: String::from_str(status),
                target_container,
            },
        );
        self.next_import_id = id + 1;
        proof {
            let ls2 = self@.imports;
            assert(ls2 =~= oldm.imports.push(
                ImportModel {
                    id: oldm.next_import_id,
                    source: source@,
                    status: status@,
                    target_container: target_container as int,
                },
            ));
            assert forall|i: int, j: int|
                0 <= i < j < ls2.len() implies (#[trigger] ls2[i].id) != (#[trigger] ls2[j].id) by {
                if j < oldm.imports.len() {
                    assert(oldm.imports[i].id != oldm.imports[j].id);
                }
            }
            assert(self@.containers =~= oldm.containers);
            assert(self@.items =~= oldm.items);
            assert(self@.embeddings =~= oldm.embeddings);
        }
        Ok(id)
    }

    /// Replaces the status text of an import job; `NotFound` when the job id
    /// does not exist.
    pub fn update_import(&mut self, import_id: i64, status: &str) -> (r: Result<(), StoreError>)
        requires
            old(self).wf(),
        ensures
            final(self).wf(),
            match r {
                Ok(()) => {
                    &&& has_import(old(self)@.imports, import_id as int)
                    &&& final(self)@ =~= StoreModel {
                        imports: old(self)@.imports.update(
                            import_index(old(self)@.imports, import_id as int),
                            ImportModel {
                                status: status@,
                                ..import_at(old(self)@.imports, import_id as int)
                            },
                        ),
                        ..old(self)@
                    }
                },
                Err(e) => {
                    &&& e == StoreError::NotFound
                    &&& !has_import(old(self)@.imports, import_id as int)
                    &&& final(self)@ == old(self)@
                },
            },
    {
        let ghost oldm = self@;
        let idx = match self.find_import(import_id) {
            Some(i) => i,
            None => {
                return Err(StoreError::NotFound);
            },
        };
        proof {
            lemma_import_found(oldm.imports, import_id as int, idx as int);
        }
        let row = ImportRow {
            id: import_id,
            source: self.imports[idx].source.clone(),
            status: String::from_str(status),
            target_container: self.imports[idx].target_container,
        };
        self.imports[idx] = row;
        proof {
            let ls1 = oldm.imports;
            let ls2 = self@.imports;
            let new_rec = ImportModel { status: status@, ..import_at(ls1, import_id as int) };
            assert(ls2 =~= ls1.update(idx as int, new_rec));
            assert forall|i: int, j: int|
                0 <= i < j < ls2.len() implies (#[trigger] ls2[i].id) != (#[trigger] ls2[j].id) by {
                assert(ls1[i].id != ls1[j].id);
                assert(ls2[i].id == ls1[i].id);
                assert(ls2[j].id == ls1[j].id);
            }
            assert(self@.containers =~= oldm.containers);
            assert(self@.items =~= oldm.items);
            assert(self@.embeddings =~= oldm.embeddings);
            assert(final(self)@ =~= StoreModel { imports: ls1.update(idx as int, new_rec), ..oldm });
        }
        Ok(())
    }

    /// Marks an import job as terminated, with the given reason or the
    /// generic failure marker when none is given; `NotFound` when the job id
    /// does not exist.
    pub fn cancel_import(&mut self, import_id: i64, reason: Option<&str>) -> (r: Result<
        (),
        StoreError,
    >)
        requires
            old(self).wf(),
        ensures
            final(self).wf(),
            match r {
                Ok(()) => {
                    &&& has_import(old(self)@.imports, import_id as int)
                    &&& final(self)@ =~= StoreModel {
                        imports: old(self)@.imports.update(
                            import_index(old(self)@.imports, import_id as int),
                            ImportModel {
                                status: match reason {
                                    Some(t) => t@,
                                    None => "FAILED"@,
                                },
                                ..import_at(old(self)@.imports, import_id as int)
                            },
                        ),
                        ..old(self)@
                    }
                },
                Err(e) => {
                    &&& e == StoreError::NotFound
                    &&& !has_import(old(self)@.imports, import_id as int)
                    &&& final(self)@ == old(self)@
                },
            },
    {
        let status = match reason {
            Some(t) => t,
            None => "FAILED",
        };
        self.update_import(import_id, status)
    }
}

} // verus!

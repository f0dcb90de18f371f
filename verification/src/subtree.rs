//! Subtrees of the container tree: the descendant relation, a verified
//! collector of a container's whole subtree, and recursive deletion.
//!
//! Because container rows keep every parent at an earlier row, a single
//! forward pass collects a subtree, and deleting its members deepest-first
//! keeps the store invariant at every step.

use vstd::prelude::*;

use crate::database::{
    container_at, container_index, embedding_at, has_container, has_embedding, has_item, item_at,
    lemma_container_found, lemma_item_found, store_wf, containers_wf, parent_linked,
    ContainerModel, Database, EmbeddingModel, ItemModel, StoreModel, embeddings_without,
};
use crate::errors::StoreError;

verus! {

// ---------------------------------------------------------------------------
// The descendant relation
// ---------------------------------------------------------------------------

/// The container at row `i` is `rid` itself or a descendant of it: its
/// parent chain, which only moves to earlier rows, passes through `rid`.
pub open spec fn in_subtree(cs: Seq<ContainerModel>, rid: int, i: int) -> bool
    decreases i,
{
    if i < 0 || i >= cs.len() {
        false
    } else if cs[i].id == rid {
        true
    } else {
        match cs[i].contained_by {
            Some(p) => exists|j: int|
                0 <= j < i && (#[trigger] cs[j].id) == p && in_subtree(cs, rid, j),
            None => false,
        }
    }
}

/// Container `id` lies in the subtree rooted at `rid`.
pub open spec fn subtree_has(cs: Seq<ContainerModel>, rid: int, id: int) -> bool {
    exists|i: int| 0 <= i < cs.len() && (#[trigger] cs[i].id) == id && in_subtree(cs, rid, i)
}

/// The row of the parent of the container at row `i`.
pub open spec fn parent_index(cs: Seq<ContainerModel>, i: int) -> int {
    choose|j: int| 0 <= j < i && (#[trigger] cs[j].id) == cs[i].contained_by->0
}

/// Under the tree invariant, membership in a subtree steps through the
/// unique parent row.
pub proof fn lemma_in_subtree_step(cs: Seq<ContainerModel>, next: int, rid: int, i: int)
    requires
        containers_wf(cs, next),
        1 <= i < cs.len(),
    ensures
        ({
            let j = parent_index(cs, i);
            &&& 0 <= j < i
            &&& cs[j].id == cs[i].contained_by->0
            &&& (in_subtree(cs, rid, i) <==> (cs[i].id == rid || in_subtree(cs, rid, j)))
        }),
{
    assert(parent_linked(cs, i));
    let j = parent_index(cs, i);
    assert(0 <= j < i && cs[j].id == cs[i].contained_by->0);
    if in_subtree(cs, rid, i) && cs[i].id != rid {
        let j2 = choose|j2: int|
            0 <= j2 < i && (#[trigger] cs[j2].id) == cs[i].contained_by->0 && in_subtree(
                cs,
                rid,
                j2,
            );
        if j2 != j {
            if j2 < j {
                assert(cs[j2].id != cs[j].id);
            } else {
                assert(cs[j].id != cs[j2].id);
            }
        }
        assert(in_subtree(cs, rid, j));
    }
    if 0 <= j < i && in_subtree(cs, rid, j) && cs[i].id != rid {
        assert(in_subtree(cs, rid, i));
    }
}

/// Any subtree member's row is at or after the row of `rid` itself.
pub proof fn lemma_subtree_root_first(cs: Seq<ContainerModel>, next: int, rid: int, i: int)
    requires
        containers_wf(cs, next),
        0 <= i < cs.len(),
        in_subtree(cs, rid, i),
    ensures
        exists|g: int| 0 <= g <= i && (#[trigger] cs[g].id) == rid && in_subtree(cs, rid, g),
    decreases i,
{
    if cs[i].id == rid {
        assert(0 <= i <= i && cs[i].id == rid && in_subtree(cs, rid, i));
    } else {
        lemma_in_subtree_step(cs, next, rid, i);
        let j = parent_index(cs, i);
        lemma_subtree_root_first(cs, next, rid, j);
        let g = choose|g: int| 0 <= g <= j && (#[trigger] cs[g].id) == rid && in_subtree(cs, rid, g);
        assert(0 <= g <= i && cs[g].id == rid && in_subtree(cs, rid, g));
    }
}

/// The root container never lies in the subtree of another container.
pub proof fn lemma_root_not_in_subtree(cs: Seq<ContainerModel>, next: int, rid: int)
    requires
        containers_wf(cs, next),
        rid != crate::ROOT_CONTAINER_ID as int,
    ensures
        !in_subtree(cs, rid, 0),
        !subtree_has(cs, rid, crate::ROOT_CONTAINER_ID as int),
{
    assert(!in_subtree(cs, rid, 0));
    if subtree_has(cs, rid, crate::ROOT_CONTAINER_ID as int) {
        let i = choose|i: int|
            0 <= i < cs.len() && (#[trigger] cs[i].id) == crate::ROOT_CONTAINER_ID as int
                && in_subtree(cs, rid, i);
        if i != 0 {
            assert(cs[0].id != cs[i].id);
        }
        assert(false);
    }
}

// ---------------------------------------------------------------------------
// Exec helpers
// ---------------------------------------------------------------------------

/// Membership after a push.
pub proof fn lemma_push_contains(s: Seq<i64>, y: i64)
    ensures
        forall|x: i64| #[trigger] s.push(y).contains(x) <==> (s.contains(x) || x == y),
{
    assert forall|x: i64| #[trigger] s.push(y).contains(x) <==> (s.contains(x) || x == y) by {
        if s.push(y).contains(x) {
            let k = choose|k: int| 0 <= k < s.push(y).len() && s.push(y)[k] == x;
            if k < s.len() {
                assert(s[k] == x);
            }
        }
        if s.contains(x) {
            let k = choose|k: int| 0 <= k < s.len() && s[k] == x;
            assert(s.push(y)[k] == x);
        }
        if x == y {
            assert(s.push(y)[s.len() as int] == x);
        }
    }
}

pub(crate) fn contains_i64(v: &Vec<i64>, x: i64) -> (r: bool)
    ensures
        r == v@.contains(x),
{
    let mut i: usize = 0;
    while i < v.len()
        invariant
            0 <= i <= v@.len(),
            forall|j: int| 0 <= j < i ==> v@[j] != x,
        decreases v@.len() - i,
    {
        if v[i] == x {
            assert(v@.contains(x)) by {
                assert(v@[i as int] == x);
            }
            return true;
        }
        i = i + 1;
    }
    false
}

// ---------------------------------------------------------------------------
// Collecting a subtree, and deleting it
// ---------------------------------------------------------------------------

impl Database {
    /// Lists the ids of the whole subtree under `container_id` (itself
    /// first), in row order.
    pub(crate) fn collect_subtree(&self, container_id: i64) -> (r: Vec<i64>)
        requires
            self.wf(),
            has_container(self@.containers, container_id as int),
        ensures
            ({
                let cs = self@.containers;
                let rid = container_id as int;
                &&& forall|x: i64| #[trigger] r@.contains(x) <==> subtree_has(cs, rid, x as int)
                &&& forall|a: int|
                    0 <= a < r@.len() ==> has_container(cs, #[trigger] r@[a] as int)
                        && container_index(cs, r@[a] as int) < cs.len() && in_subtree(
                        cs,
                        rid,
                        container_index(cs, r@[a] as int),
                    )
                &&& forall|a: int, b: int|
                    0 <= a < b < r@.len() ==> container_index(cs, #[trigger] r@[a] as int)
                        < container_index(cs, #[trigger] r@[b] as int)
                &&& r@.len() >= 1
                &&& r@[0] == container_id
            }),
    {
        let ghost cs = self@.containers;
        let ghost rid = container_id as int;
        let mut r: Vec<i64> = Vec::new();
        let mut i: usize = 0;
        while i < self.containers.len()
            invariant
                0 <= i <= self.containers@.len(),
                cs == self@.containers,
                rid == container_id as int,
                cs.len() == self.containers@.len(),
                self.wf(),
                forall|x: i64|
                    #[trigger] r@.contains(x) <==> exists|j: int|
                        0 <= j < i && (#[trigger] cs[j].id) == x as int && in_subtree(cs, rid, j),
                forall|a: int|
                    0 <= a < r@.len() ==> has_container(cs, #[trigger] r@[a] as int)
                        && container_index(cs, r@[a] as int) < i && in_subtree(
                        cs,
                        rid,
                        container_index(cs, r@[a] as int),
                    ),
                forall|a: int, b: int|
                    0 <= a < b < r@.len() ==> container_index(cs, #[trigger] r@[a] as int)
                        < container_index(cs, #[trigger] r@[b] as int),
                r@.len() >= 1 ==> r@[0] == container_id,
                r@.len() == 0 ==> forall|j: int| 0 <= j < i ==> !in_subtree(cs, rid, j),
            decreases self.containers@.len() - i,
        {
            let hit: bool;
            if self.containers[i].id == container_id {
                hit = true;
            } else {
                match self.containers[i].contained_by {
                    Some(p) => {
                        hit = contains_i64(&r, p);
                    },
                    None => {
                        hit = false;
                    },
                }
            }
            proof {
                // hit <==> in_subtree(cs, rid, i)
                if cs[i as int].id == rid {
                    assert(in_subtree(cs, rid, i as int));
                } else {
                    match cs[i as int].contained_by {
                        Some(p) => {
                            if r@.contains(p as i64) {
                                let j = choose|j: int|
                                    0 <= j < i && (#[trigger] cs[j].id) == p && in_subtree(
                                        cs,
                                        rid,
                                        j,
                                    );
                                assert(in_subtree(cs, rid, i as int));
                            }
                            if in_subtree(cs, rid, i as int) {
                                let j = choose|j: int|
                                    0 <= j < i as int && (#[trigger] cs[j].id) == p && in_subtree(
                                        cs,
                                        rid,
                                        j,
                                    );
                                assert(r@.contains(cs[j].id as i64)) by {
                                    assert(cs[j].id == (cs[j].id as i64) as int);
                                }
                            }
                        },
                        None => {
                            assert(!in_subtree(cs, rid, i as int));
                        },
                    }
                }
            }
            if hit {
                let ghost rpre = r@;
                proof {
                    lemma_container_found(cs, cs[i as int].id, i as int);
                    lemma_push_contains(rpre, self.containers@[i as int].id);
                    if rpre.len() == 0 {
                        // the first member found is the subtree root itself
                        if cs[i as int].id != rid {
                            lemma_subtree_root_first(cs, self@.next_container_id, rid, i as int);
                            let g = choose|g: int|
                                0 <= g <= i as int && (#[trigger] cs[g].id) == rid && in_subtree(
                                    cs,
                                    rid,
                                    g,
                                );
                            assert(g < i as int);
                            assert(rpre.contains(cs[g].id as i64)) by {
                                assert(cs[g].id == (cs[g].id as i64) as int);
                            }
                            assert(false);
                        }
                    }
                }
                r.push(self.containers[i].id);
            }
            i = i + 1;
        }
        proof {
            assert(r@.contains(container_id)) by {
                let g = container_index(cs, rid);
                assert(cs[g].id == rid && in_subtree(cs, rid, g));
            }
            assert(r@.len() >= 1) by {
                let k = choose|k: int| 0 <= k < r@.len() && r@[k] == container_id;
            }
            assert forall|x: i64| #[trigger] r@.contains(x) <==> subtree_has(
                cs,
                rid,
                x as int,
            ) by {}
        }
        r
    }

    /// Finds some item lying directly in container `cid`.
    fn find_item_in(&self, cid: i64) -> (r: Option<i64>)
        requires
            self.wf(),
        ensures
            match r {
                Some(x) => has_item(self@.items, x as int) && item_at(
                    self@.items,
                    x as int,
                ).contained_by == cid as int,
                None => forall|k: int|
                    0 <= k < self@.items.len() ==> (#[trigger] self@.items[k]).contained_by
                        != cid as int,
            },
    {
        let mut i: usize = 0;
        while i < self.items.len()
            invariant
                0 <= i <= self.items@.len(),
                self.wf(),
                self@.items.len() == self.items@.len(),
                forall|k: int| 0 <= k < i ==> (#[trigger] self@.items[k]).contained_by != cid as int,
            decreases self.items@.len() - i,
        {
            if self.items[i].contained_by == cid {
                proof {
                    lemma_item_found(self@.items, self@.items[i as int].id, i as int);
                }
                return Some(self.items[i].id);
            }
            i = i + 1;
        }
        None
    }
}

// ---------------------------------------------------------------------------
// Membership under removals
// ---------------------------------------------------------------------------

/// Removing one container row removes exactly that id.
pub proof fn lemma_container_remove(cs: Seq<ContainerModel>, idx: int)
    requires
        0 <= idx < cs.len(),
        forall|a: int, b: int|
            0 <= a < b < cs.len() ==> (#[trigger] cs[a].id) != (#[trigger] cs[b].id),
    ensures
        !has_container(cs.remove(idx), cs[idx].id),
        forall|id: int|
            id != cs[idx].id ==> (#[trigger] has_container(cs.remove(idx), id) <==> has_container(
                cs,
                id,
            )),
        forall|id: int|
            id != cs[idx].id && has_container(cs, id) ==> container_at(cs.remove(idx), id)
                == container_at(cs, id),
        forall|a: int, b: int|
            0 <= a < b < cs.remove(idx).len() ==> (#[trigger] cs.remove(idx)[a].id) != (
            #[trigger] cs.remove(idx)[b].id),
{
    let cs2 = cs.remove(idx);
    assert(forall|k: int|
        0 <= k < cs2.len() ==> #[trigger] cs2[k] == (if k < idx {
            cs[k]
        } else {
            cs[k + 1]
        }));
    if has_container(cs2, cs[idx].id) {
        let k = choose|k: int| 0 <= k < cs2.len() && cs2[k].id == cs[idx].id;
        if k < idx {
            assert(cs[k].id != cs[idx].id);
        } else {
            assert(cs[idx].id != cs[k + 1].id);
        }
    }
    assert forall|id: int|
        id != cs[idx].id implies (#[trigger] has_container(cs2, id) <==> has_container(cs, id)) by {
        if has_container(cs2, id) {
            let k = choose|k: int| 0 <= k < cs2.len() && cs2[k].id == id;
            if k < idx {
                assert(cs[k].id == id);
            } else {
                assert(cs[k + 1].id == id);
            }
        }
        if has_container(cs, id) {
            let k = choose|k: int| 0 <= k < cs.len() && cs[k].id == id;
            assert(k != idx);
            if k < idx {
                assert(cs2[k].id == id);
            } else {
                assert(cs2[k - 1].id == id);
            }
        }
    }
    assert forall|id: int|
        id != cs[idx].id && has_container(cs, id) implies container_at(cs2, id) == container_at(
        cs,
        id,
    ) by {
        let k = choose|k: int| 0 <= k < cs.len() && cs[k].id == id;
        lemma_container_found(cs, id, k);
        assert(k != idx);
        let k2: int = if k < idx {
            k
        } else {
            k - 1
        };
        assert(cs2[k2] == cs[k]);
        assert forall|a: int, b: int|
            0 <= a < b < cs2.len() implies (#[trigger] cs2[a].id) != (#[trigger] cs2[b].id) by {}
        lemma_container_found_in(cs2, id, k2);
    }
}

/// A `lemma_container_found` restated to avoid trigger loops when used on a
/// derived sequence.
pub proof fn lemma_container_found_in(cs: Seq<ContainerModel>, id: int, i: int)
    requires
        forall|a: int, b: int|
            0 <= a < b < cs.len() ==> (#[trigger] cs[a].id) != (#[trigger] cs[b].id),
        0 <= i < cs.len(),
        cs[i].id == id,
    ensures
        has_container(cs, id),
        container_index(cs, id) == i,
        container_at(cs, id) == cs[i],
{
    lemma_container_found(cs, id, i);
}

/// Removing one item row removes exactly that id.
pub proof fn lemma_item_remove(ims: Seq<ItemModel>, idx: int)
    requires
        0 <= idx < ims.len(),
        forall|a: int, b: int|
            0 <= a < b < ims.len() ==> (#[trigger] ims[a].id) != (#[trigger] ims[b].id),
    ensures
        !has_item(ims.remove(idx), ims[idx].id),
        forall|id: int|
            id != ims[idx].id ==> (#[trigger] has_item(ims.remove(idx), id) <==> has_item(ims, id)),
        forall|id: int|
            id != ims[idx].id && has_item(ims, id) ==> item_at(ims.remove(idx), id) == item_at(
                ims,
                id,
            ),
        forall|a: int, b: int|
            0 <= a < b < ims.remove(idx).len() ==> (#[trigger] ims.remove(idx)[a].id) != (
            #[trigger] ims.remove(idx)[b].id),
{
    let ims2 = ims.remove(idx);
    assert(forall|k: int|
        0 <= k < ims2.len() ==> #[trigger] ims2[k] == (if k < idx {
            ims[k]
        } else {
            ims[k + 1]
        }));
    if has_item(ims2, ims[idx].id) {
        let k = choose|k: int| 0 <= k < ims2.len() && ims2[k].id == ims[idx].id;
        if k < idx {
            assert(ims[k].id != ims[idx].id);
        } else {
            assert(ims[idx].id != ims[k + 1].id);
        }
    }
    assert forall|id: int|
        id != ims[idx].id implies (#[trigger] has_item(ims2, id) <==> has_item(ims, id)) by {
        if has_item(ims2, id) {
            let k = choose|k: int| 0 <= k < ims2.len() && ims2[k].id == id;
            if k < idx {
                assert(ims[k].id == id);
            } else {
                assert(ims[k + 1].id == id);
            }
        }
        if has_item(ims, id) {
            let k = choose|k: int| 0 <= k < ims.len() && ims[k].id == id;
            assert(k != idx);
            if k < idx {
                assert(ims2[k].id == id);
            } else {
                assert(ims2[k - 1].id == id);
            }
        }
    }
    assert forall|id: int|
        id != ims[idx].id && has_item(ims, id) implies item_at(ims2, id) == item_at(ims, id) by {
        let k = choose|k: int| 0 <= k < ims.len() && ims[k].id == id;
        lemma_item_found(ims, id, k);
        assert(k != idx);
        let k2: int = if k < idx {
            k
        } else {
            k - 1
        };
        assert(ims2[k2] == ims[k]);
        assert forall|a: int, b: int|
            0 <= a < b < ims2.len() implies (#[trigger] ims2[a].id) != (#[trigger] ims2[b].id) by {}
        lemma_item_found(ims2, id, k2);
    }
}

/// Like `lemma_item_found`, for embedding rows.
pub proof fn lemma_embedding_found(es: Seq<EmbeddingModel>, id: int, i: int)
    requires
        forall|a: int, b: int|
            0 <= a < b < es.len() ==> (#[trigger] es[a].id) != (#[trigger] es[b].id),
        0 <= i < es.len(),
        es[i].id == id,
    ensures
        has_embedding(es, id),
        crate::database::embedding_index(es, id) == i,
        embedding_at(es, id) == es[i],
{
    assert(has_embedding(es, id));
    let k = crate::database::embedding_index(es, id);
    if k != i {
        if k < i {
            assert(es[k].id != es[i].id);
        } else {
            assert(es[i].id != es[k].id);
        }
    }
}

/// Every row that survives the filter is one of the original rows, in order.
pub proof fn lemma_embeddings_without_complete(es: Seq<EmbeddingModel>, x: int)
    ensures
        forall|j: int|
            0 <= j < es.len() && (#[trigger] es[j]).item_id != x ==> exists|k: int|
                0 <= k < embeddings_without(es, x).len() && embeddings_without(es, x)[k] == #[trigger] es[j],
    decreases es.len(),
{
    if es.len() > 0 {
        lemma_embeddings_without_complete(es.drop_last(), x);
        let rest = embeddings_without(es.drop_last(), x);
        let w = embeddings_without(es, x);
        assert forall|j: int|
            0 <= j < es.len() && (#[trigger] es[j]).item_id != x implies exists|k: int|
            0 <= k < w.len() && w[k] == es[j] by {
            if j < es.len() - 1 {
                assert(es.drop_last()[j] == es[j]);
                let k = choose|k: int| 0 <= k < rest.len() && rest[k] == es.drop_last()[j];
                assert(w[k] == es[j]);
            } else {
                assert(w[w.len() - 1] == es[j]);
            }
        }
    }
}

/// What the embedding filter keeps, for one embedding id.
pub proof fn lemma_embeddings_without_has(es: Seq<EmbeddingModel>, x: int, eid: int)
    requires
        forall|a: int, b: int|
            0 <= a < b < es.len() ==> (#[trigger] es[a].id) != (#[trigger] es[b].id),
    ensures
        has_embedding(embeddings_without(es, x), eid) <==> (has_embedding(es, eid)
            && embedding_at(es, eid).item_id != x),
        has_embedding(embeddings_without(es, x), eid) ==> embedding_at(
            embeddings_without(es, x),
            eid,
        ) == embedding_at(es, eid),
{
    let w = embeddings_without(es, x);
    assert(forall|a: int, b: int|
        0 <= a < b < w.len() ==> (#[trigger] w[a].id) != (#[trigger] w[b].id)) by {
        crate::database::lemma_embeddings_without_distinct(es, x);
    }
    if has_embedding(w, eid) {
        let k = choose|k: int| 0 <= k < w.len() && w[k].id == eid;
        assert(exists|j: int| 0 <= j < es.len() && w[k] == #[trigger] es[j] && w[k].item_id != x)
            by {
            crate::database::lemma_embeddings_without_props(es, x);
        }
        let j = choose|j: int| 0 <= j < es.len() && w[k] == #[trigger] es[j] && w[k].item_id != x;
        lemma_embedding_found(es, eid, j);
        lemma_embedding_found(w, eid, k);
        assert(embedding_at(es, eid).item_id != x);
        assert(embedding_at(w, eid) == embedding_at(es, eid));
    }
    if has_embedding(es, eid) && embedding_at(es, eid).item_id != x {
        let j0 = choose|j0: int| 0 <= j0 < es.len() && es[j0].id == eid;
        lemma_embedding_found(es, eid, j0);
        assert(es[j0].item_id != x);
        assert(exists|k: int| 0 <= k < w.len() && w[k] == #[trigger] es[j0]) by {
            lemma_embeddings_without_complete(es, x);
        }
        let k = choose|k: int| 0 <= k < w.len() && w[k] == #[trigger] es[j0];
        assert(w[k].id == eid);
        assert(has_embedding(w, eid));
    }
}

/// What the embedding filter keeps, as a membership fact.
pub proof fn lemma_embeddings_without_membership(es: Seq<EmbeddingModel>, x: int)
    requires
        forall|a: int, b: int|
            0 <= a < b < es.len() ==> (#[trigger] es[a].id) != (#[trigger] es[b].id),
    ensures
        forall|eid: int|
            #[trigger] has_embedding(embeddings_without(es, x), eid) <==> (has_embedding(es, eid)
                && embedding_at(es, eid).item_id != x),
        forall|eid: int|
            has_embedding(embeddings_without(es, x), eid) ==> embedding_at(
                embeddings_without(es, x),
                eid,
            ) == embedding_at(es, eid),
{
    assert forall|eid: int|
        #[trigger] has_embedding(embeddings_without(es, x), eid) <==> (has_embedding(es, eid)
            && embedding_at(es, eid).item_id != x) by {
        lemma_embeddings_without_has(es, x, eid);
    }
    assert forall|eid: int|
        has_embedding(embeddings_without(es, x), eid) implies embedding_at(
        embeddings_without(es, x),
        eid,
    ) == embedding_at(es, eid) by {
        lemma_embeddings_without_has(es, x, eid);
    }
}

// ---------------------------------------------------------------------------
// Deletion
// ---------------------------------------------------------------------------

/// Some id at a position at or after `t` of `sub` equals `id`.
pub open spec fn removed_after(sub: Seq<i64>, t: int, id: int) -> bool {
    exists|a: int| t <= a < sub.len() && (#[trigger] sub[a]) as int == id
}

impl Database {
    /// Removes one container row that has no remaining children and no
    /// remaining items.
    fn remove_container_row(&mut self, cid: i64)
        requires
            old(self).wf(),
            has_container(old(self)@.containers, cid as int),
            cid != crate::ROOT_CONTAINER_ID,
            forall|k: int|
                0 <= k < old(self)@.containers.len() ==> (#[trigger] old(
                    self,
                )@.containers[k]).contained_by != Some(cid as int),
            forall|k: int|
                0 <= k < old(self)@.items.len() ==> (#[trigger] old(self)@.items[k]).contained_by
                    != cid as int,
        ensures
            final(self).wf(),
            (final(self)@ =~= StoreModel {
                containers: old(self)@.containers.remove(
                    container_index(old(self)@.containers, cid as int),
                ),
                ..old(self)@
            }),
    {
        let ghost oldm = self@;
        let ghost cs1 = oldm.containers;
        let idx = match self.find_container(cid) {
            Some(i) => i,
            None => {
                proof {
                    assert(false);
                }
                return ;
            },
        };
        proof {
            lemma_container_found(cs1, cid as int, idx as int);
            if idx == 0 {
                assert(cs1[0].id == crate::ROOT_CONTAINER_ID as int);
                assert(false);
            }
        }
        self.containers.remove(idx);
        proof {
            let cs2 = self@.containers;
            assert(cs2 =~= cs1.remove(idx as int));
            assert(forall|k: int|
                0 <= k < cs2.len() ==> #[trigger] cs2[k] == (if k < idx as int {
                    cs1[k]
                } else {
                    cs1[k + 1]
                }));
            assert(cs2[0] == cs1[0]);
            assert forall|k: int| 1 <= k < cs2.len() implies #[trigger] parent_linked(cs2, k) by {
                let i: int = if k < idx as int {
                    k
                } else {
                    k + 1
                };
                assert(parent_linked(cs1, i));
                let j = choose|j: int| 0 <= j < i && (#[trigger] cs1[j].id) == cs1[i].contained_by->0;
                assert(cs1[i].contained_by != Some(cid as int));
                assert(cs1[j].id != cid as int) by {
                    if j != idx as int {
                        if j < idx as int {
                            assert(cs1[j].id != cs1[idx as int].id);
                        } else {
                            assert(cs1[idx as int].id != cs1[j].id);
                        }
                    } else {
                        assert(cs1[j].id == cid as int);
                        assert(cs1[i].contained_by->0 == cid as int);
                        assert(cs1[i].contained_by is Some);
                        assert(false);
                    }
                }
                assert(j != idx as int);
                let j2: int = if j < idx as int {
                    j
                } else {
                    j - 1
                };
                assert(cs2[j2] == cs1[j]);
                assert(j2 < k);
                assert(cs2[j2].id == cs2[k].contained_by->0);
            }
            assert forall|i: int|
                0 <= i < self@.items.len() implies has_container(
                cs2,
                #[trigger] self@.items[i].contained_by,
            ) by {
                assert(self@.items =~= oldm.items);
                assert(has_container(cs1, oldm.items[i].contained_by));
                lemma_container_remove(cs1, idx as int);
                assert(oldm.items[i].contained_by != cid as int);
            }
            assert(self@.items =~= oldm.items);
            assert(self@.embeddings =~= oldm.embeddings);
            assert(self@.imports =~= oldm.imports);
            assert(self@ =~= StoreModel { containers: cs2, ..oldm });
        }
    }

    /// Deletes every item lying directly in container `cid`, purging their
    /// embedding rows with them.
    fn remove_items_in(&mut self, cid: i64)
        requires
            old(self).wf(),
        ensures
            final(self).wf(),
            forall|iid: int|
                #[trigger] has_item(final(self)@.items, iid) <==> (has_item(old(self)@.items, iid)
                    && item_at(old(self)@.items, iid).contained_by != cid as int),
            forall|iid: int|
                has_item(final(self)@.items, iid) ==> item_at(final(self)@.items, iid) == item_at(
                    old(self)@.items,
                    iid,
                ),
            forall|eid: int|
                #[trigger] has_embedding(final(self)@.embeddings, eid) <==> (has_embedding(
                    old(self)@.embeddings,
                    eid,
                ) && has_item(
                    final(self)@.items,
                    embedding_at(old(self)@.embeddings, eid).item_id,
                )),
            forall|eid: int|
                has_embedding(final(self)@.embeddings, eid) ==> embedding_at(
                    final(self)@.embeddings,
                    eid,
                ) == embedding_at(old(self)@.embeddings, eid),
            final(self)@.containers == old(self)@.containers,
            final(self)@.imports == old(self)@.imports,
            final(self)@.next_container_id == old(self)@.next_container_id,
            final(self)@.next_item_id == old(self)@.next_item_id,
            final(self)@.next_embedding_id == old(self)@.next_embedding_id,
            final(self)@.next_import_id == old(self)@.next_import_id,
    {
        loop
            invariant
                self.wf(),
                forall|iid: int|
                    #[trigger] has_item(self@.items, iid) ==> (has_item(old(self)@.items, iid)
                        && item_at(self@.items, iid) == item_at(old(self)@.items, iid)),
                forall|iid: int|
                    has_item(old(self)@.items, iid) && item_at(old(self)@.items, iid).contained_by
                        != cid as int ==> #[trigger] has_item(self@.items, iid),
                forall|eid: int|
                    #[trigger] has_embedding(self@.embeddings, eid) <==> (has_embedding(
                        old(self)@.embeddings,
                        eid,
                    ) && has_item(
                        self@.items,
                        embedding_at(old(self)@.embeddings, eid).item_id,
                    )),
                forall|eid: int|
                    #[trigger] has_embedding(self@.embeddings, eid) ==> embedding_at(
                        self@.embeddings,
                        eid,
                    ) == embedding_at(old(self)@.embeddings, eid),
                self@.containers == old(self)@.containers,
                self@.imports == old(self)@.imports,
                self@.next_container_id == old(self)@.next_container_id,
                self@.next_item_id == old(self)@.next_item_id,
                self@.next_embedding_id == old(self)@.next_embedding_id,
                self@.next_import_id == old(self)@.next_import_id,
            decreases self@.items.len(),
        {
            let ghost pre = self@;
            match self.find_item_in(cid) {
                None => {
                    proof {
                        assert forall|iid: int|
                            #[trigger] has_item(self@.items, iid) implies item_at(
                            old(self)@.items,
                            iid,
                        ).contained_by != cid as int by {
                            let k = choose|k: int|
                                0 <= k < self@.items.len() && self@.items[k].id == iid;
                            lemma_item_found(self@.items, iid, k);
                            assert(self@.items[k].contained_by != cid as int);
                        }
                    }
                    return ;
                },
                Some(x) => {
                    let ghost xi = crate::database::item_index(pre.items, x as int);
                    match self.delete_item(x) {
                        Ok(()) => {},
                        Err(_) => {
                            proof {
                                assert(false);
                            }
                        },
                    }
                    proof {
                        lemma_item_found(pre.items, x as int, xi);
                        lemma_item_remove(pre.items, xi);
                        lemma_embeddings_without_membership(pre.embeddings, x as int);
                        // items: everything but x survives with its record
                        assert forall|iid: int|
                            #[trigger] has_item(self@.items, iid) implies (has_item(
                            old(self)@.items,
                            iid,
                        ) && item_at(self@.items, iid) == item_at(old(self)@.items, iid)) by {
                            assert(iid != x as int);
                            assert(has_item(pre.items, iid));
                            assert(item_at(self@.items, iid) == item_at(pre.items, iid));
                        }
                        assert forall|iid: int|
                            has_item(old(self)@.items, iid) && item_at(
                            old(self)@.items,
                            iid,
                        ).contained_by != cid as int implies #[trigger] has_item(
                            self@.items,
                            iid,
                        ) by {
                            assert(has_item(pre.items, iid));
                            assert(item_at(pre.items, iid) == item_at(old(self)@.items, iid));
                            assert(item_at(pre.items, x as int).contained_by == cid as int);
                            assert(iid != x as int);
                        }
                        assert forall|eid: int|
                            #[trigger] has_embedding(self@.embeddings, eid) <==> (has_embedding(
                                old(self)@.embeddings,
                                eid,
                            ) && has_item(
                                self@.items,
                                embedding_at(old(self)@.embeddings, eid).item_id,
                            )) by {
                            if has_embedding(self@.embeddings, eid) {
                                assert(has_embedding(pre.embeddings, eid));
                                assert(embedding_at(pre.embeddings, eid).item_id != x as int);
                            }
                            if has_embedding(old(self)@.embeddings, eid) && has_item(
                                self@.items,
                                embedding_at(old(self)@.embeddings, eid).item_id,
                            ) {
                                let owner = embedding_at(old(self)@.embeddings, eid).item_id;
                                assert(owner != x as int);
                                assert(has_embedding(pre.embeddings, eid));
                                assert(embedding_at(pre.embeddings, eid) == embedding_at(
                                    old(self)@.embeddings,
                                    eid,
                                ));
                            }
                        }
                    }
                },
            }
        }
    }

    /// Recursively deletes a container: its whole subtree of containers, all
    /// items transitively contained, and their embedding rows.
    ///
    /// Refuses to delete the root (`InvalidInput`), and reports `NotFound`
    /// for an id that does not exist; nothing is changed in either case.
    pub fn delete_container(&mut self, container_id: i64) -> (res: Result<(), StoreError>)
        requires
            old(self).wf(),
        ensures
            final(self).wf(),
            match res {
                Ok(()) => {
                    &&& container_id != crate::ROOT_CONTAINER_ID
                    &&& has_container(old(self)@.containers, container_id as int)
                    &&& (forall|id: int|
                        #[trigger] has_container(final(self)@.containers, id) <==> (has_container(
                            old(self)@.containers,
                            id,
                        ) && !subtree_has(old(self)@.containers, container_id as int, id)))
                    &&& (forall|id: int|
                        has_container(final(self)@.containers, id) ==> container_at(
                            final(self)@.containers,
                            id,
                        ) == container_at(old(self)@.containers, id))
                    &&& (forall|iid: int|
                        #[trigger] has_item(final(self)@.items, iid) <==> (has_item(
                            old(self)@.items,
                            iid,
                        ) && !subtree_has(
                            old(self)@.containers,
                            container_id as int,
                            item_at(old(self)@.items, iid).contained_by,
                        )))
                    &&& (forall|iid: int|
                        has_item(final(self)@.items, iid) ==> item_at(final(self)@.items, iid)
                            == item_at(old(self)@.items, iid))
                    &&& (forall|eid: int|
                        #[trigger] has_embedding(final(self)@.embeddings, eid) <==> (has_embedding(
                            old(self)@.embeddings,
                            eid,
                        ) && has_item(
                            final(self)@.items,
                            embedding_at(old(self)@.embeddings, eid).item_id,
                        )))
                    &&& (forall|eid: int|
                        has_embedding(final(self)@.embeddings, eid) ==> embedding_at(
                            final(self)@.embeddings,
                            eid,
                        ) == embedding_at(old(self)@.embeddings, eid))
                    &&& final(self)@.imports == old(self)@.imports
                    &&& final(self)@.next_container_id == old(self)@.next_container_id
                    &&& final(self)@.next_item_id == old(self)@.next_item_id
                    &&& final(self)@.next_embedding_id == old(self)@.next_embedding_id
                    &&& final(self)@.next_import_id == old(self)@.next_import_id
                },
                Err(e) => {
                    &&& final(self)@ == old(self)@
                    &&& (e == StoreError::InvalidInput <==> container_id
                        == crate::ROOT_CONTAINER_ID)
                    &&& (e == StoreError::NotFound ==> !has_container(
                        old(self)@.containers,
                        container_id as int,
                    ))
                    &&& (e == StoreError::InvalidInput || e == StoreError::NotFound)
                },
            },
    {
        if container_id == crate::ROOT_CONTAINER_ID {
            return Err(StoreError::InvalidInput);
        }
        if self.find_container(container_id).is_none() {
            return Err(StoreError::NotFound);
        }
        let sub = self.collect_subtree(container_id);
        let ghost oldm = self@;
        let ghost cs0 = oldm.containers;
        let ghost rid = container_id as int;
        let mut t: usize = sub.len();
        while t > 0
            invariant
                0 <= t <= sub@.len(),
                self.wf(),
                container_id != crate::ROOT_CONTAINER_ID,
                rid == container_id as int,
                cs0 == oldm.containers,
                store_wf(oldm),
                forall|x: i64| #[trigger] sub@.contains(x) <==> subtree_has(cs0, rid, x as int),
                forall|a: int|
                    0 <= a < sub@.len() ==> has_container(cs0, #[trigger] sub@[a] as int)
                        && container_index(cs0, sub@[a] as int) < cs0.len() && in_subtree(
                        cs0,
                        rid,
                        container_index(cs0, sub@[a] as int),
                    ),
                forall|a: int, b: int|
                    0 <= a < b < sub@.len() ==> container_index(cs0, #[trigger] sub@[a] as int)
                        < container_index(cs0, #[trigger] sub@[b] as int),
                forall|id: int|
                    #[trigger] has_container(self@.containers, id) <==> (has_container(cs0, id)
                        && !removed_after(sub@, t as int, id)),
                forall|id: int|
                    has_container(self@.containers, id) ==> container_at(self@.containers, id)
                        == container_at(cs0, id),
                forall|iid: int|
                    #[trigger] has_item(self@.items, iid) <==> (has_item(oldm.items, iid)
                        && !removed_after(
                        sub@,
                        t as int,
                        item_at(oldm.items, iid).contained_by,
                    )),
                forall|iid: int|
                    has_item(self@.items, iid) ==> item_at(self@.items, iid) == item_at(
                        oldm.items,
                        iid,
                    ),
                forall|eid: int|
                    #[trigger] has_embedding(self@.embeddings, eid) <==> (has_embedding(
                        oldm.embeddings,
                        eid,
                    ) && has_item(self@.items, embedding_at(oldm.embeddings, eid).item_id)),
                forall|eid: int|
                    #[trigger] has_embedding(self@.embeddings, eid) ==> embedding_at(
                        self@.embeddings,
                        eid,
                    ) == embedding_at(oldm.embeddings, eid),
                self@.imports == oldm.imports,
                self@.next_container_id == oldm.next_container_id,
                self@.next_item_id == oldm.next_item_id,
                self@.next_embedding_id == oldm.next_embedding_id,
                self@.next_import_id == oldm.next_import_id,
            decreases t,
        {
            t = t - 1;
            let cid = sub[t];
            proof {
                // this container is still present
                assert(!removed_after(sub@, t as int + 1, cid as int)) by {
                    if removed_after(sub@, t as int + 1, cid as int) {
                        let a = choose|a: int|
                            t as int + 1 <= a < sub@.len() && (#[trigger] sub@[a]) as int
                                == cid as int;
                        assert(container_index(cs0, sub@[t as int] as int) < container_index(
                            cs0,
                            sub@[a] as int,
                        ));
                    }
                }
                assert(has_container(self@.containers, cid as int));
            }
            let ghost m1 = self@;
            self.remove_items_in(cid);
            proof {
                // items: the removal matches one more processed position
                assert forall|iid: int|
                    #[trigger] has_item(self@.items, iid) <==> (has_item(oldm.items, iid)
                        && !removed_after(
                        sub@,
                        t as int,
                        item_at(oldm.items, iid).contained_by,
                    )) by {
                    if has_item(self@.items, iid) {
                        assert(has_item(m1.items, iid));
                        assert(item_at(m1.items, iid) == item_at(oldm.items, iid));
                        assert(item_at(m1.items, iid).contained_by != cid as int);
                        assert(!removed_after(
                            sub@,
                            t as int + 1,
                            item_at(oldm.items, iid).contained_by,
                        ));
                        if removed_after(sub@, t as int, item_at(oldm.items, iid).contained_by) {
                            let a = choose|a: int|
                                t as int <= a < sub@.len() && (#[trigger] sub@[a]) as int == item_at(
                                    oldm.items,
                                    iid,
                                ).contained_by;
                            assert(a == t as int);
                            assert(false);
                        }
                    }
                    if has_item(oldm.items, iid) && !removed_after(
                        sub@,
                        t as int,
                        item_at(oldm.items, iid).contained_by,
                    ) {
                        assert(!removed_after(
                            sub@,
                            t as int + 1,
                            item_at(oldm.items, iid).contained_by,
                        )) by {
                            if removed_after(
                                sub@,
                                t as int + 1,
                                item_at(oldm.items, iid).contained_by,
                            ) {
                                let a = choose|a: int|
                                    t as int + 1 <= a < sub@.len() && (#[trigger] sub@[a]) as int
                                        == item_at(oldm.items, iid).contained_by;
                                assert(removed_after(
                                    sub@,
                                    t as int,
                                    item_at(oldm.items, iid).contained_by,
                                ));
                            }
                        }
                        assert(has_item(m1.items, iid));
                        assert(item_at(m1.items, iid).contained_by != cid as int) by {
                            if item_at(m1.items, iid).contained_by == cid as int {
                                assert(sub@[t as int] as int == item_at(
                                    oldm.items,
                                    iid,
                                ).contained_by);
                                assert(removed_after(
                                    sub@,
                                    t as int,
                                    item_at(oldm.items, iid).contained_by,
                                ));
                            }
                        }
                        assert(has_item(self@.items, iid));
                    }
                }
                // embeddings: chain the two relations through the middle state
                assert forall|eid: int|
                    #[trigger] has_embedding(self@.embeddings, eid) <==> (has_embedding(
                        oldm.embeddings,
                        eid,
                    ) && has_item(
                        self@.items,
                        embedding_at(oldm.embeddings, eid).item_id,
                    )) by {
                    if has_embedding(self@.embeddings, eid) {
                        assert(has_embedding(m1.embeddings, eid));
                        assert(embedding_at(m1.embeddings, eid) == embedding_at(
                            oldm.embeddings,
                            eid,
                        ));
                        assert(has_item(
                            self@.items,
                            embedding_at(m1.embeddings, eid).item_id,
                        ));
                    }
                    if has_embedding(oldm.embeddings, eid) && has_item(
                        self@.items,
                        embedding_at(oldm.embeddings, eid).item_id,
                    ) {
                        let owner = embedding_at(oldm.embeddings, eid).item_id;
                        assert(has_item(m1.items, owner));
                        assert(has_embedding(m1.embeddings, eid));
                        assert(embedding_at(m1.embeddings, eid) == embedding_at(
                            oldm.embeddings,
                            eid,
                        ));
                    }
                }
                assert forall|eid: int|
                    #[trigger] has_embedding(self@.embeddings, eid) implies embedding_at(
                    self@.embeddings,
                    eid,
                ) == embedding_at(oldm.embeddings, eid) by {
                    assert(has_embedding(m1.embeddings, eid));
                    assert(embedding_at(self@.embeddings, eid) == embedding_at(
                        m1.embeddings,
                        eid,
                    ));
                }
            }
            let ghost m2 = self@;
            proof {
                assert(self@.containers == m1.containers);
                assert(cid != crate::ROOT_CONTAINER_ID) by {
                    if cid == crate::ROOT_CONTAINER_ID {
                        lemma_root_not_in_subtree(cs0, oldm.next_container_id, rid);
                        assert(sub@.contains(cid));
                        assert(subtree_has(cs0, rid, cid as int));
                    }
                }
                assert(has_container(self@.containers, cid as int));
                // no remaining container row has this one as parent
                assert forall|k: int|
                    0 <= k < self@.containers.len() implies (#[trigger] self@.containers[k]).contained_by
                    != Some(cid as int) by {
                    if self@.containers[k].contained_by == Some(cid as int) {
                        let x = self@.containers[k].id;
                        assert(has_container(self@.containers, x)) by {
                            crate::database::lemma_container_found(self@.containers, x, k);
                        }
                        assert(has_container(cs0, x) && !removed_after(sub@, t as int + 1, x));
                        assert(container_at(self@.containers, x) == container_at(cs0, x));
                        crate::database::lemma_container_found(self@.containers, x, k);
                        assert(container_at(cs0, x).contained_by == Some(cid as int));
                        // x is then a subtree member strictly after `cid`
                        let xi = container_index(cs0, x);
                        assert(0 <= xi < cs0.len() && cs0[xi].id == x);
                        assert(cs0[xi].contained_by == Some(cid as int));
                        let ci = container_index(cs0, cid as int);
                        assert(0 <= ci < cs0.len() && cs0[ci].id == cid as int) by {
                            assert(has_container(cs0, cid as int));
                        }
                        assert(in_subtree(cs0, rid, ci)) by {
                            assert(sub@.contains(cid));
                            let g = choose|g: int|
                                0 <= g < cs0.len() && (#[trigger] cs0[g].id) == cid as int
                                    && in_subtree(cs0, rid, g);
                            if g != ci {
                                if g < ci {
                                    assert(cs0[g].id != cs0[ci].id);
                                } else {
                                    assert(cs0[ci].id != cs0[g].id);
                                }
                            }
                        }
                        assert(xi >= 1) by {
                            if xi == 0 {
                                assert(cs0[0].contained_by is None);
                            }
                        }
                        lemma_in_subtree_step(cs0, oldm.next_container_id, rid, xi);
                        let j = parent_index(cs0, xi);
                        assert(cs0[j].id == cid as int);
                        if j != ci {
                            if j < ci {
                                assert(cs0[j].id != cs0[ci].id);
                            } else {
                                assert(cs0[ci].id != cs0[j].id);
                            }
                        }
                        assert(in_subtree(cs0, rid, xi));
                        assert(subtree_has(cs0, rid, x)) by {
                            assert(cs0[xi].id == x && in_subtree(cs0, rid, xi));
                        }
                        assert(sub@.contains(x as i64)) by {
                            assert(x == (x as i64) as int);
                        }
                        let a = choose|a: int| 0 <= a < sub@.len() && sub@[a] == x as i64;
                        assert(ci < xi);
                        assert(a != t as int);
                        assert(a > t as int) by {
                            if a < t as int {
                                assert(container_index(cs0, sub@[a] as int) < container_index(
                                    cs0,
                                    sub@[t as int] as int,
                                ));
                                assert(container_index(cs0, x) == xi) by {
                                    lemma_container_found_in(cs0, x, xi);
                                }
                                assert(container_index(cs0, cid as int) == ci) by {
                                    lemma_container_found_in(cs0, cid as int, ci);
                                }
                            }
                        }
                        assert(removed_after(sub@, t as int + 1, x));
                        assert(false);
                    }
                }
                assert forall|k: int|
                    0 <= k < self@.items.len() implies (#[trigger] self@.items[k]).contained_by
                    != cid as int by {
                    if self@.items[k].contained_by == cid as int {
                        let iid = self@.items[k].id;
                        lemma_item_found(self@.items, iid, k);
                        assert(has_item(self@.items, iid));
                        assert(item_at(self@.items, iid) == item_at(m2.items, iid));
                        assert(item_at(m2.items, iid).contained_by == cid as int);
                        assert(item_at(m2.items, iid) == item_at(oldm.items, iid));
                        assert(removed_after(sub@, t as int, item_at(oldm.items, iid).contained_by))
                            by {
                            assert(sub@[t as int] as int == cid as int);
                        }
                        assert(false);
                    }
                }
            }
            self.remove_container_row(cid);
            proof {
                assert(self@.items =~= m2.items);
                assert(self@.items == m2.items);
                assert(self@.embeddings =~= m2.embeddings);
                assert(self@.embeddings == m2.embeddings);
                assert(self@.imports =~= m2.imports);
                assert(self@.imports == m2.imports);
                let ghost ci2 = container_index(m2.containers, cid as int);
                lemma_container_remove(m2.containers, ci2);
                assert(0 <= ci2 < m2.containers.len() && m2.containers[ci2].id == cid as int) by {
                    assert(has_container(m2.containers, cid as int));
                }
                assert forall|id: int|
                    #[trigger] has_container(self@.containers, id) <==> (has_container(cs0, id)
                        && !removed_after(sub@, t as int, id)) by {
                    if id == cid as int {
                        assert(!has_container(self@.containers, id));
                        assert(removed_after(sub@, t as int, id)) by {
                            assert(sub@[t as int] as int == id);
                        }
                    } else {
                        assert(has_container(self@.containers, id) <==> has_container(
                            m2.containers,
                            id,
                        ));
                        if removed_after(sub@, t as int, id) && !removed_after(
                            sub@,
                            t as int + 1,
                            id,
                        ) {
                            let a = choose|a: int|
                                t as int <= a < sub@.len() && (#[trigger] sub@[a]) as int == id;
                            assert(a == t as int);
                            assert(false);
                        }
                        if removed_after(sub@, t as int + 1, id) {
                            let a = choose|a: int|
                                t as int + 1 <= a < sub@.len() && (#[trigger] sub@[a]) as int == id;
                            assert(removed_after(sub@, t as int, id));
                        }
                    }
                }
                assert forall|id: int|
                    has_container(self@.containers, id) implies container_at(self@.containers, id)
                    == container_at(cs0, id) by {
                    assert(id != cid as int);
                    assert(container_at(self@.containers, id) == container_at(m2.containers, id));
                }
            }
        }
        proof {
            // processed everything: the removed set is exactly the subtree
            assert forall|id: int|
                #[trigger] removed_after(sub@, 0, id) <==> subtree_has(cs0, rid, id) by {
                if removed_after(sub@, 0, id) {
                    let a = choose|a: int|
                        0 <= a < sub@.len() && (#[trigger] sub@[a]) as int == id;
                    assert(sub@.contains(sub@[a]));
                    assert(subtree_has(cs0, rid, id));
                }
                if subtree_has(cs0, rid, id) {
                    let i = choose|i: int|
                        0 <= i < cs0.len() && (#[trigger] cs0[i].id) == id && in_subtree(
                            cs0,
                            rid,
                            i,
                        );
                    assert(id == (id as i64) as int);
                    assert(sub@.contains(id as i64));
                    let a = choose|a: int| 0 <= a < sub@.len() && sub@[a] == id as i64;
                    assert(removed_after(sub@, 0, id));
                }
            }
        }
        Ok(())
    }
}

} // verus!

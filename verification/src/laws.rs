//! The store's laws: properties that hold across operations, stated over
//! the store model and proved once and for all.

use vstd::prelude::*;

use crate::database::{
    children_of, container_at, container_index, embedding_at, embeddings_without,
    fresh_embeddings, has_container, has_embedding, has_item, item_at, item_embeddings,
    item_summaries, lemma_container_found, summary_of, ContainerModel, EmbeddingModel, ItemModel,
    ItemResultModel, StoreModel, store_wf, containers_wf,
};
use crate::query::count_of;
use crate::subtree::subtree_has;

verus! {

// ---------------------------------------------------------------------------
// A fresh child appears exactly once under its parent
// ---------------------------------------------------------------------------

/// Every listed child id belongs to a row whose parent is `p`.
proof fn lemma_children_of_sources(cs: Seq<ContainerModel>, p: int)
    ensures
        forall|k: int|
            0 <= k < children_of(cs, p).len() ==> exists|i: int|
                0 <= i < cs.len() && (#[trigger] children_of(cs, p)[k]) == cs[i].id
                    && cs[i].contained_by == Some(p),
    decreases cs.len(),
{
    if cs.len() > 0 {
        lemma_children_of_sources(cs.drop_last(), p);
        let rest = children_of(cs.drop_last(), p);
        assert forall|k: int|
            0 <= k < children_of(cs, p).len() implies exists|i: int|
            0 <= i < cs.len() && (#[trigger] children_of(cs, p)[k]) == cs[i].id
                && cs[i].contained_by == Some(p) by {
            if k < rest.len() {
                let i = choose|i: int|
                    0 <= i < cs.drop_last().len() && (#[trigger] rest[k]) == cs.drop_last()[i].id
                        && cs.drop_last()[i].contained_by == Some(p);
                assert(children_of(cs, p)[k] == cs[i].id && cs[i].contained_by == Some(p));
            } else {
                assert(children_of(cs, p)[k] == cs[cs.len() - 1].id);
            }
        }
    }
}

/// Law: a container created as a child of `parent_id` has exactly that
/// parent, and its id is listed exactly once among the parent's children.
pub proof fn lemma_added_child_registered(
    m0: StoreModel,
    m1: StoreModel,
    name: Seq<char>,
    parent_id: int,
)
    requires
        store_wf(m0),
        has_container(m0.containers, parent_id),
        m1.containers =~= m0.containers.push(
            ContainerModel {
                id: m0.next_container_id,
                name: name,
                location: None,
                contained_by: Some(parent_id),
            },
        ),
    ensures
        has_container(m1.containers, m0.next_container_id),
        container_at(m1.containers, m0.next_container_id).contained_by == Some(parent_id),
        count_of(children_of(m1.containers, parent_id), m0.next_container_id) == 1,
{
    let cs0 = m0.containers;
    let cs1 = m1.containers;
    let fresh = m0.next_container_id;
    assert(cs1[cs1.len() - 1].id == fresh);
    assert forall|a: int, b: int|
        0 <= a < b < cs1.len() implies (#[trigger] cs1[a].id) != (#[trigger] cs1[b].id) by {
        if b < cs0.len() {
            assert(cs0[a].id != cs0[b].id);
        } else {
            assert(cs1[a].id == cs0[a].id);
            assert(cs0[a].id < fresh);
        }
    }
    lemma_container_found(cs1, fresh, cs1.len() - 1);
    assert(cs1.drop_last() =~= cs0);
    assert(children_of(cs1, parent_id) =~= children_of(cs0, parent_id).push(fresh));
    lemma_children_of_sources(cs0, parent_id);
    lemma_count_append_one(children_of(cs0, parent_id), fresh);
    assert(count_of(children_of(cs0, parent_id), fresh) == 0) by {
        lemma_count_not_contained(children_of(cs0, parent_id), fresh);
        if children_of(cs0, parent_id).contains(fresh) {
            let k = choose|k: int|
                0 <= k < children_of(cs0, parent_id).len() && children_of(cs0, parent_id)[k]
                    == fresh;
            let i = choose|i: int|
                0 <= i < cs0.len() && (#[trigger] children_of(cs0, parent_id)[k]) == cs0[i].id
                    && cs0[i].contained_by == Some(parent_id);
            assert(cs0[i].id < fresh);
        }
    }
}

/// Counting after a push.
proof fn lemma_count_append_one(s: Seq<int>, x: int)
    ensures
        count_of(s.push(x), x) == count_of(s, x) + 1,
{
    assert(s.push(x).drop_last() =~= s);
    assert(s.push(x).last() == x);
}

/// A value not contained is counted zero times.
proof fn lemma_count_not_contained(s: Seq<int>, x: int)
    ensures
        !s.contains(x) ==> count_of(s, x) == 0,
{
    crate::query::lemma_count_zero(s, x);
}

// ---------------------------------------------------------------------------
// An item is listed under exactly one container
// ---------------------------------------------------------------------------

/// `s` is the summary of some item of `ims` lying in `cid`.
pub open spec fn summary_source(ims: Seq<ItemModel>, cid: int, s: ItemResultModel) -> bool {
    exists|j: int|
        0 <= j < ims.len() && s == summary_of(#[trigger] ims[j], cid) && ims[j].contained_by == cid
}

/// The listed summaries are exactly the items lying in `cid`.
proof fn lemma_item_summaries_sources(ims: Seq<ItemModel>, cid: int)
    ensures
        forall|k: int|
            0 <= k < item_summaries(ims, cid).len() ==> summary_source(
                ims,
                cid,
                #[trigger] item_summaries(ims, cid)[k],
            ),
        forall|j: int|
            0 <= j < ims.len() && (#[trigger] ims[j]).contained_by == cid ==> exists|k: int|
                0 <= k < item_summaries(ims, cid).len() && #[trigger] item_summaries(
                    ims,
                    cid,
                )[k] == summary_of(ims[j], cid),
    decreases ims.len(),
{
    if ims.len() > 0 {
        lemma_item_summaries_sources(ims.drop_last(), cid);
        let rest = item_summaries(ims.drop_last(), cid);
        let all = item_summaries(ims, cid);
        assert forall|k: int|
            0 <= k < all.len() implies summary_source(ims, cid, #[trigger] all[k]) by {
            if k < rest.len() {
                assert(summary_source(ims.drop_last(), cid, rest[k]));
                let j = choose|j: int|
                    0 <= j < ims.drop_last().len() && rest[k] == summary_of(
                        #[trigger] ims.drop_last()[j],
                        cid,
                    ) && ims.drop_last()[j].contained_by == cid;
                assert(ims.drop_last()[j] == ims[j]);
                assert(all[k] == summary_of(ims[j], cid));
            } else {
                assert(all[k] == summary_of(ims[ims.len() - 1], cid));
                assert(ims[ims.len() - 1].contained_by == cid);
            }
        }
        assert forall|j: int|
            0 <= j < ims.len() && (#[trigger] ims[j]).contained_by == cid implies exists|k: int|
            0 <= k < all.len() && #[trigger] all[k] == summary_of(ims[j], cid) by {
            if j < ims.len() - 1 {
                assert(ims.drop_last()[j] == ims[j]);
                assert((ims.drop_last()[j]).contained_by == cid);
                let k = choose|k: int|
                    0 <= k < rest.len() && #[trigger] rest[k] == summary_of(
                        ims.drop_last()[j],
                        cid,
                    );
                assert(all[k] == summary_of(ims[j], cid));
            } else {
                assert(all[all.len() - 1] == summary_of(ims[j], cid));
            }
        }
    }
}

/// Law: an item is listed among the items of the container it references,
/// and never under any other container at the same time.
pub proof fn lemma_item_in_one_container(m: StoreModel, iid: int)
    requires
        store_wf(m),
        has_item(m.items, iid),
    ensures
        exists|k: int|
            0 <= k < item_summaries(m.items, item_at(m.items, iid).contained_by).len() && (
            #[trigger] item_summaries(m.items, item_at(m.items, iid).contained_by)[k]).id == iid,
        forall|cid: int, k: int|
            cid != item_at(m.items, iid).contained_by && 0 <= k < item_summaries(
                m.items,
                cid,
            ).len() ==> (#[trigger] item_summaries(m.items, cid)[k]).id != iid,
{
    let ims = m.items;
    let home = item_at(ims, iid).contained_by;
    let j0 = crate::database::item_index(ims, iid);
    assert(0 <= j0 < ims.len() && ims[j0].id == iid) by {
        assert(has_item(ims, iid));
    }
    crate::database::lemma_item_found(ims, iid, j0);
    lemma_item_summaries_sources(ims, home);
    assert(ims[j0].contained_by == home);
    let k0 = choose|k: int|
        0 <= k < item_summaries(ims, home).len() && #[trigger] item_summaries(ims, home)[k]
            == summary_of(ims[j0], home);
    assert(item_summaries(ims, home)[k0].id == iid);
    assert forall|cid: int, k: int|
        cid != home && 0 <= k < item_summaries(ims, cid).len() implies (#[trigger] item_summaries(
        ims,
        cid,
    )[k]).id != iid by {
        lemma_item_summaries_sources(ims, cid);
        assert(summary_source(ims, cid, item_summaries(ims, cid)[k]));
        let j = choose|j: int|
            0 <= j < ims.len() && item_summaries(ims, cid)[k] == summary_of(
                #[trigger] ims[j],
                cid,
            ) && ims[j].contained_by == cid;
        if ims[j].id == iid {
            crate::database::lemma_item_found(ims, iid, j);
        }
    }
}

// ---------------------------------------------------------------------------
// Deleting a container leaves nothing of its subtree
// ---------------------------------------------------------------------------

/// Law: after a recursive delete of `rid`, a container of the old subtree
/// is gone, and so is every item that lay in it.
pub proof fn lemma_delete_container_purges(m0: StoreModel, m1: StoreModel, rid: int, id: int)
    requires
        store_wf(m0),
        subtree_has(m0.containers, rid, id),
        forall|c: int|
            #[trigger] has_container(m1.containers, c) <==> (has_container(m0.containers, c)
                && !subtree_has(m0.containers, rid, c)),
        forall|iid: int|
            #[trigger] has_item(m1.items, iid) <==> (has_item(m0.items, iid) && !subtree_has(
                m0.containers,
                rid,
                item_at(m0.items, iid).contained_by,
            )),
    ensures
        !has_container(m1.containers, id),
        forall|iid: int|
            has_item(m0.items, iid) && item_at(m0.items, iid).contained_by == id ==> !has_item(
                m1.items,
                iid,
            ),
{
}

// ---------------------------------------------------------------------------
// Rewriting an item regenerates its embeddings exactly
// ---------------------------------------------------------------------------

/// A concatenation filters piecewise.
proof fn lemma_item_embeddings_append(a: Seq<EmbeddingModel>, b: Seq<EmbeddingModel>, x: int)
    ensures
        item_embeddings(a + b, x) =~= item_embeddings(a, x) + item_embeddings(b, x),
    decreases b.len(),
{
    if b.len() == 0 {
        assert(a + b =~= a);
        assert(item_embeddings(b, x) =~= Seq::<EmbeddingModel>::empty());
    } else {
        lemma_item_embeddings_append(a, b.drop_last(), x);
        assert((a + b).drop_last() =~= a + b.drop_last());
        assert((a + b).last() == b.last());
    }
}

/// Nothing of item `x` survives the filter that removes its rows.
proof fn lemma_item_embeddings_without(es: Seq<EmbeddingModel>, x: int)
    ensures
        item_embeddings(embeddings_without(es, x), x) =~= Seq::<EmbeddingModel>::empty(),
    decreases es.len(),
{
    if es.len() > 0 {
        lemma_item_embeddings_without(es.drop_last(), x);
        let w = embeddings_without(es, x);
        let rest = embeddings_without(es.drop_last(), x);
        if es.last().item_id != x {
            assert(w =~= rest.push(es.last()));
            assert(w.drop_last() =~= rest);
            assert(w.last() == es.last());
        }
    }
}

/// All fresh rows belong to the item they were made for.
proof fn lemma_item_embeddings_fresh(next: int, iid: int, vecs: Seq<Seq<u8>>)
    ensures
        item_embeddings(fresh_embeddings(next, iid, vecs), iid) =~= fresh_embeddings(
            next,
            iid,
            vecs,
        ),
    decreases vecs.len(),
{
    let f = fresh_embeddings(next, iid, vecs);
    if vecs.len() > 0 {
        lemma_item_embeddings_fresh(next, iid, vecs.drop_last());
        assert(f.drop_last() =~= fresh_embeddings(next, iid, vecs.drop_last()));
        assert(f.last().item_id == iid);
    } else {
        assert(f =~= Seq::<EmbeddingModel>::empty());
    }
}

/// Law: after an item is rewritten with `vecs` embedding vectors, the item
/// owns exactly `vecs.len()` embedding rows (one per statement, plus the
/// name and the joined description), and every one of its old rows is
/// unreachable: its id no longer names any row.
pub proof fn lemma_update_item_regenerates(
    m0: StoreModel,
    m1: StoreModel,
    iid: int,
    vecs: Seq<Seq<u8>>,
)
    requires
        store_wf(m0),
        m1.embeddings =~= embeddings_without(m0.embeddings, iid) + fresh_embeddings(
            m0.next_embedding_id,
            iid,
            vecs,
        ),
    ensures
        item_embeddings(m1.embeddings, iid).len() == vecs.len(),
        forall|eid: int|
            has_embedding(m0.embeddings, eid) && (#[trigger] embedding_at(
                m0.embeddings,
                eid,
            )).item_id == iid ==> !has_embedding(m1.embeddings, eid),
{
    let w = embeddings_without(m0.embeddings, iid);
    let f = fresh_embeddings(m0.next_embedding_id, iid, vecs);
    lemma_item_embeddings_append(w, f, iid);
    lemma_item_embeddings_without(m0.embeddings, iid);
    lemma_item_embeddings_fresh(m0.next_embedding_id, iid, vecs);
    assert(item_embeddings(m1.embeddings, iid) =~= item_embeddings(w + f, iid));
    assert(item_embeddings(w + f, iid) =~= item_embeddings(w, iid) + item_embeddings(f, iid));
    assert(item_embeddings(m1.embeddings, iid).len() == vecs.len());
    assert forall|eid: int|
        has_embedding(m0.embeddings, eid) && (#[trigger] embedding_at(
            m0.embeddings,
            eid,
        )).item_id == iid implies !has_embedding(m1.embeddings, eid) by {
        crate::subtree::lemma_embeddings_without_has(m0.embeddings, iid, eid);
        assert(!has_embedding(w, eid));
        if has_embedding(m1.embeddings, eid) {
            let k = choose|k: int| 0 <= k < m1.embeddings.len() && m1.embeddings[k].id == eid;
            if k < w.len() {
                assert(w[k].id == eid);
                assert(has_embedding(w, eid));
            } else {
                assert(m1.embeddings[k] == f[k - w.len()]);
                assert(f[k - w.len()].id >= m0.next_embedding_id);
                let j = crate::database::embedding_index(m0.embeddings, eid);
                assert(0 <= j < m0.embeddings.len() && m0.embeddings[j].id == eid) by {
                    assert(has_embedding(m0.embeddings, eid));
                }
                assert(eid < m0.next_embedding_id);
            }
            assert(false);
        }
    }
}

// ---------------------------------------------------------------------------
// Parent walks always reach the root
// ---------------------------------------------------------------------------

/// The container reached from `id` after `k` steps up the parent chain
/// (staying put once there is no parent to follow).
pub open spec fn ancestor_after(cs: Seq<ContainerModel>, id: int, k: nat) -> int
    decreases k,
{
    if k == 0 {
        id
    } else {
        let prev = ancestor_after(cs, id, (k - 1) as nat);
        if has_container(cs, prev) && container_at(cs, prev).contained_by is Some {
            container_at(cs, prev).contained_by->0
        } else {
            prev
        }
    }
}

/// Stepping once, then `k` times, is stepping `k + 1` times.
proof fn lemma_ancestor_shift(cs: Seq<ContainerModel>, id: int, p: int, k: nat)
    requires
        has_container(cs, id),
        container_at(cs, id).contained_by == Some(p),
    ensures
        ancestor_after(cs, id, (k + 1) as nat) == ancestor_after(cs, p, k),
    decreases k,
{
    if k == 0 {
        assert(ancestor_after(cs, id, 1) == p);
        assert(ancestor_after(cs, p, 0) == p);
    } else {
        lemma_ancestor_shift(cs, id, p, (k - 1) as nat);
        assert(ancestor_after(cs, id, (k + 1) as nat) == {
            let prev = ancestor_after(cs, id, k);
            if has_container(cs, prev) && container_at(cs, prev).contained_by is Some {
                container_at(cs, prev).contained_by->0
            } else {
                prev
            }
        });
        assert(ancestor_after(cs, p, k) == {
            let prev = ancestor_after(cs, p, (k - 1) as nat);
            if has_container(cs, prev) && container_at(cs, prev).contained_by is Some {
                container_at(cs, prev).contained_by->0
            } else {
                prev
            }
        });
    }
}

/// Law: the tree has no cycles: from every live container, walking parents
/// reaches the root in fewer steps than there are containers. This holds in
/// every well-formed store, in particular after any `move_container`.
pub proof fn lemma_parent_walk_reaches_root(cs: Seq<ContainerModel>, next: int, id: int)
    requires
        containers_wf(cs, next),
        has_container(cs, id),
    ensures
        exists|k: nat|
            k <= container_index(cs, id) && ancestor_after(cs, id, k)
                == crate::ROOT_CONTAINER_ID as int,
        container_index(cs, id) < cs.len(),
    decreases container_index(cs, id),
{
    let i = container_index(cs, id);
    assert(0 <= i < cs.len() && cs[i].id == id) by {
        assert(has_container(cs, id));
    }
    lemma_container_found(cs, id, i);
    if i == 0 {
        assert(ancestor_after(cs, id, 0) == crate::ROOT_CONTAINER_ID as int);
    } else {
        assert(crate::database::parent_linked(cs, i));
        let j = choose|j: int| 0 <= j < i && (#[trigger] cs[j].id) == cs[i].contained_by->0;
        let p = cs[j].id;
        lemma_container_found(cs, p, j);
        assert(container_at(cs, id).contained_by == Some(p));
        lemma_parent_walk_reaches_root(cs, next, p);
        let k = choose|k: nat|
            k <= container_index(cs, p) && ancestor_after(cs, p, k)
                == crate::ROOT_CONTAINER_ID as int;
        lemma_ancestor_shift(cs, id, p, k);
        assert(ancestor_after(cs, id, (k + 1) as nat) == crate::ROOT_CONTAINER_ID as int);
        assert(k + 1 <= i);
    }
}

} // verus!

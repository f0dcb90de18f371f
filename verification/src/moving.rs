//! Reparenting a container, without ever creating a cycle.
//!
//! Moving a source container under a target that is currently one of its
//! descendants would make the source its own ancestor. The move therefore
//! first splices such a target up to the source's old parent, and then
//! reparents the source under the target, reordering the rows so that every
//! parent still comes first.

use vstd::prelude::*;

use crate::database::{
    clone_container_row, container_at, container_index, has_container, lemma_container_found,
    lemma_has_container_same_ids, parent_linked, store_wf, containers_wf, ContainerModel,
    ContainerRow, Database, StoreModel,
};
use crate::errors::StoreError;
use crate::subtree::{
    contains_i64, in_subtree, lemma_in_subtree_step, lemma_root_not_in_subtree,
    lemma_subtree_root_first, parent_index, subtree_has,
};

verus! {

/// The container row at `g`, with the source row reparented under `tgt`.
pub open spec fn patched(cs: Seq<ContainerModel>, g: int, rid: int, tgt: int) -> ContainerModel {
    if cs[g].id == rid {
        ContainerModel { contained_by: Some(tgt), ..cs[g] }
    } else {
        cs[g]
    }
}

/// A subtree member's row is at or after the row of the subtree's root.
pub proof fn lemma_subtree_at_or_after(cs: Seq<ContainerModel>, next: int, rid: int, i: int)
    requires
        containers_wf(cs, next),
        0 <= i < cs.len(),
        in_subtree(cs, rid, i),
    ensures
        has_container(cs, rid),
        0 <= container_index(cs, rid) <= i,
        cs[container_index(cs, rid)].id == rid,
{
    lemma_subtree_root_first(cs, next, rid, i);
    let g = choose|g: int| 0 <= g <= i && (#[trigger] cs[g].id) == rid && in_subtree(cs, rid, g);
    lemma_container_found(cs, rid, g);
}

/// Row-level and id-level subtree membership agree.
pub proof fn lemma_subtree_has_at(cs: Seq<ContainerModel>, next: int, rid: int, i: int)
    requires
        containers_wf(cs, next),
        0 <= i < cs.len(),
    ensures
        subtree_has(cs, rid, cs[i].id) <==> in_subtree(cs, rid, i),
{
    if subtree_has(cs, rid, cs[i].id) {
        let j = choose|j: int|
            0 <= j < cs.len() && (#[trigger] cs[j].id) == cs[i].id && in_subtree(cs, rid, j);
        if j != i {
            if j < i {
                assert(cs[j].id != cs[i].id);
            } else {
                assert(cs[i].id != cs[j].id);
            }
        }
    }
    if in_subtree(cs, rid, i) {
        assert(cs[i].id == cs[i].id && in_subtree(cs, rid, i));
    }
}

impl Database {
    /// Reparents `source_id` under `target_id`, which must not currently be
    /// inside the source's subtree, and restores the parents-first row
    /// order by moving the subtree's rows to the end.
    #[verifier::rlimit(100)]
    fn reorder_subtree_to_end(&mut self, source_id: i64, target_id: i64)
        requires
            old(self).wf(),
            has_container(old(self)@.containers, source_id as int),
            has_container(old(self)@.containers, target_id as int),
            source_id != crate::ROOT_CONTAINER_ID,
            source_id != target_id,
            !subtree_has(old(self)@.containers, source_id as int, target_id as int),
        ensures
            final(self).wf(),
            forall|id: int|
                #[trigger] has_container(final(self)@.containers, id) <==> has_container(
                    old(self)@.containers,
                    id,
                ),
            forall|id: int|
                has_container(old(self)@.containers, id) ==> container_at(
                    final(self)@.containers,
                    id,
                ).name == container_at(old(self)@.containers, id).name && container_at(
                    final(self)@.containers,
                    id,
                ).location == container_at(old(self)@.containers, id).location,
            container_at(final(self)@.containers, source_id as int).contained_by == Some(
                target_id as int,
            ),
            forall|id: int|
                has_container(old(self)@.containers, id) && id != source_id as int ==> container_at(
                    final(self)@.containers,
                    id,
                ).contained_by == container_at(old(self)@.containers, id).contained_by,
            final(self)@.items == old(self)@.items,
            final(self)@.embeddings == old(self)@.embeddings,
            final(self)@.imports == old(self)@.imports,
            final(self)@.next_container_id == old(self)@.next_container_id,
            final(self)@.next_item_id == old(self)@.next_item_id,
            final(self)@.next_embedding_id == old(self)@.next_embedding_id,
            final(self)@.next_import_id == old(self)@.next_import_id,
    {
        let ghost m1 = self@;
        let ghost cs1 = m1.containers;
        let ghost rid = source_id as int;
        let ghost tgt = target_id as int;
        let sub = self.collect_subtree(source_id);
        let mut kept: Vec<ContainerRow> = Vec::new();
        let mut moved: Vec<ContainerRow> = Vec::new();
        let ghost mut ks: Seq<int> = Seq::empty();
        let ghost mut ms: Seq<int> = Seq::empty();
        let mut i: usize = 0;
        while i < self.containers.len()
            invariant
                0 <= i <= self.containers@.len(),
                self@ == m1,
                cs1 == m1.containers,
                cs1.len() == self.containers@.len(),
                store_wf(m1),
                rid == source_id as int,
                tgt == target_id as int,
                forall|x: i64| #[trigger] sub@.contains(x) <==> subtree_has(cs1, rid, x as int),
                ks.len() == kept@.len(),
                forall|k: int|
                    0 <= k < ks.len() ==> 0 <= #[trigger] ks[k] < i && !in_subtree(cs1, rid, ks[k])
                        && kept@[k]@ == cs1[ks[k]],
                forall|a: int, b: int| 0 <= a < b < ks.len() ==> ks[a] < ks[b],
                forall|g: int|
                    0 <= g < i && !in_subtree(cs1, rid, g) ==> exists|k: int|
                        0 <= k < ks.len() && #[trigger] ks[k] == g,
                ms.len() == moved@.len(),
                forall|k: int|
                    0 <= k < ms.len() ==> 0 <= #[trigger] ms[k] < i && in_subtree(cs1, rid, ms[k])
                        && moved@[k]@ == patched(cs1, ms[k], rid, tgt),
                forall|a: int, b: int| 0 <= a < b < ms.len() ==> ms[a] < ms[b],
                forall|g: int|
                    0 <= g < i && in_subtree(cs1, rid, g) ==> exists|k: int|
                        0 <= k < ms.len() && #[trigger] ms[k] == g,
            decreases self.containers@.len() - i,
        {
            let id = self.containers[i].id;
            let in_sub = contains_i64(&sub, id);
            proof {
                lemma_subtree_has_at(cs1, m1.next_container_id, rid, i as int);
                assert(sub@.contains(id) <==> subtree_has(cs1, rid, cs1[i as int].id)) by {
                    assert(id as int == cs1[i as int].id);
                }
            }
            let row = clone_container_row(&self.containers[i]);
            if in_sub {
                let row2: ContainerRow;
                if id == source_id {
                    row2 = ContainerRow {
                        id: row.id,
                        name: row.name,
                        location: row.location,
                        contained_by: Some(target_id),
                    };
                } else {
                    row2 = row;
                }
                let ghost mpre = ms;
                moved.push(row2);
                proof {
                    ms = ms.push(i as int);
                    assert(moved@[ms.len() - 1]@ == patched(cs1, i as int, rid, tgt));
                    assert forall|g: int|
                        0 <= g < i + 1 && in_subtree(cs1, rid, g) implies exists|k: int|
                        0 <= k < ms.len() && #[trigger] ms[k] == g by {
                        if g < i {
                            let k = choose|k: int| 0 <= k < mpre.len() && #[trigger] mpre[k] == g;
                            assert(ms[k] == g);
                        } else {
                            assert(ms[ms.len() - 1] == g);
                        }
                    }
                }
            } else {
                let ghost kpre = ks;
                kept.push(row);
                proof {
                    ks = ks.push(i as int);
                    assert forall|g: int|
                        0 <= g < i + 1 && !in_subtree(cs1, rid, g) implies exists|k: int|
                        0 <= k < ks.len() && #[trigger] ks[k] == g by {
                        if g < i {
                            let k = choose|k: int| 0 <= k < kpre.len() && #[trigger] kpre[k] == g;
                            assert(ks[k] == g);
                        } else {
                            assert(ks[ks.len() - 1] == g);
                        }
                    }
                }
            }
            i = i + 1;
        }
        let ghost kn = ks.len();
        let ghost keptm = Seq::new(kept@.len(), |k: int| kept@[k]@);
        let ghost movedm = Seq::new(moved@.len(), |k: int| moved@[k]@);
        self.containers = kept;
        self.containers.append(&mut moved);
        proof {
            let csn = self@.containers;
            assert(csn =~= keptm + movedm);
            assert(forall|k: int| 0 <= k < kn ==> csn[k] == cs1[#[trigger] ks[k]]);
            assert(forall|k: int|
                0 <= k < ms.len() ==> csn[kn + k] == patched(cs1, #[trigger] ms[k], rid, tgt));
            let src_i = container_index(cs1, rid);
            assert(0 <= src_i < cs1.len() && cs1[src_i].id == rid) by {
                assert(has_container(cs1, rid));
            }
            let tgt_i = container_index(cs1, tgt);
            assert(0 <= tgt_i < cs1.len() && cs1[tgt_i].id == tgt) by {
                assert(has_container(cs1, tgt));
            }
            assert(!in_subtree(cs1, rid, tgt_i)) by {
                lemma_subtree_has_at(cs1, m1.next_container_id, rid, tgt_i);
            }
            assert(in_subtree(cs1, rid, src_i));
            // the root row stays first
            assert(rid != crate::ROOT_CONTAINER_ID as int);
            lemma_root_not_in_subtree(cs1, m1.next_container_id, rid);
            assert(kn >= 1 && ks[0] == 0 && csn[0] == cs1[0]) by {
                let k0 = choose|k: int| 0 <= k < ks.len() && #[trigger] ks[k] == 0;
                if k0 != 0 {
                    assert(ks[0] < ks[k0]);
                }
            }
            // every original row lands exactly once, with its id
            assert forall|id: int|
                #[trigger] has_container(csn, id) <==> has_container(cs1, id) by {
                if has_container(csn, id) {
                    let k = choose|k: int| 0 <= k < csn.len() && csn[k].id == id;
                    if k < kn {
                        assert(cs1[ks[k]].id == id);
                    } else {
                        assert(cs1[ms[k - kn]].id == id);
                    }
                }
                if has_container(cs1, id) {
                    let g = container_index(cs1, id);
                    assert(0 <= g < cs1.len() && cs1[g].id == id);
                    if in_subtree(cs1, rid, g) {
                        let k = choose|k: int| 0 <= k < ms.len() && #[trigger] ms[k] == g;
                        assert(csn[kn + k].id == id);
                    } else {
                        let k = choose|k: int| 0 <= k < ks.len() && #[trigger] ks[k] == g;
                        assert(csn[k].id == id);
                    }
                }
            }
            // distinct ids
            assert forall|a: int, b: int|
                0 <= a < b < csn.len() implies (#[trigger] csn[a].id) != (#[trigger] csn[b].id) by {
                let ga: int = if a < kn {
                    ks[a]
                } else {
                    ms[a - kn]
                };
                let gb: int = if b < kn {
                    ks[b]
                } else {
                    ms[b - kn]
                };
                assert(csn[a].id == cs1[ga].id);
                assert(csn[b].id == cs1[gb].id);
                if ga == gb {
                    if a < kn && b >= kn {
                        assert(!in_subtree(cs1, rid, ga) && in_subtree(cs1, rid, gb));
                    }
                    assert(false);
                } else if ga < gb {
                    assert(cs1[ga].id != cs1[gb].id);
                } else {
                    assert(cs1[gb].id != cs1[ga].id);
                }
            }
            // parents first
            assert forall|k: int| 1 <= k < csn.len() implies #[trigger] parent_linked(csn, k) by {
                if k < kn {
                    let g = ks[k];
                    assert(csn[k] == cs1[g]);
                    assert(g >= 1) by {
                        if g == 0 {
                            assert(ks[0] < ks[k]);
                        }
                    }
                    assert(parent_linked(cs1, g));
                    let j = parent_index(cs1, g);
                    lemma_in_subtree_step(cs1, m1.next_container_id, rid, g);
                    assert(!in_subtree(cs1, rid, j)) by {
                        if in_subtree(cs1, rid, j) {
                            assert(in_subtree(cs1, rid, g));
                        }
                    }
                    let kj = choose|kj: int| 0 <= kj < ks.len() && #[trigger] ks[kj] == j;
                    assert(kj < k) by {
                        if kj > k {
                            assert(ks[k] < ks[kj]);
                        }
                        if kj == k {
                            assert(ks[k] == j && ks[k] == g);
                        }
                    }
                    assert(csn[kj].id == cs1[j].id);
                    assert(csn[kj].id == csn[k].contained_by->0);
                } else {
                    let q = k - kn;
                    let g = ms[q];
                    assert(csn[k] == patched(cs1, g, rid, tgt));
                    if cs1[g].id == rid {
                        // the source row: its parent is now the target
                        assert(csn[k].contained_by == Some(tgt));
                        let kj = choose|kj: int| 0 <= kj < ks.len() && #[trigger] ks[kj] == tgt_i;
                        assert(csn[kj].id == tgt);
                        assert(kj < kn);
                        assert(kj < k);
                        assert(parent_linked(csn, k));
                    } else {
                        // another subtree member: its parent is in the
                        // subtree, at an earlier original row
                        assert(g >= 1) by {
                            if g == 0 {
                                assert(cs1[0].contained_by is None);
                                assert(in_subtree(cs1, rid, 0));
                                assert(cs1[0].id == rid || false);
                            }
                        }
                        assert(parent_linked(cs1, g));
                        let j = parent_index(cs1, g);
                        lemma_in_subtree_step(cs1, m1.next_container_id, rid, g);
                        assert(in_subtree(cs1, rid, j));
                        let qj = choose|qj: int| 0 <= qj < ms.len() && #[trigger] ms[qj] == j;
                        assert(qj < q) by {
                            if qj > q {
                                assert(ms[q] < ms[qj]);
                            }
                            if qj == q {
                                assert(ms[q] == j && ms[q] == g);
                            }
                        }
                        assert(csn[kn + qj] == patched(cs1, j, rid, tgt));
                        assert(csn[kn + qj].id == cs1[j].id);
                        assert(csn[k].contained_by == cs1[g].contained_by);
                        assert(parent_linked(csn, k)) by {
                            assert(0 <= kn + qj < k && csn[kn + qj].id == csn[k].contained_by->0);
                        }
                    }
                }
            }
            // id bounds carry over row by row
            assert forall|k: int|
                0 <= k < csn.len() implies 1 <= (#[trigger] csn[k].id) < m1.next_container_id by {
                let g: int = if k < kn {
                    ks[k]
                } else {
                    ms[k - kn]
                };
                assert(csn[k].id == cs1[g].id);
            }
            assert(containers_wf(csn, m1.next_container_id));
            assert(self@.items =~= m1.items);
            assert(self@.embeddings =~= m1.embeddings);
            assert(self@.imports =~= m1.imports);
            lemma_has_container_same_ids_any(cs1, csn);
            assert(store_wf(self@)) by {
                assert forall|q: int|
                    0 <= q < self@.items.len() implies has_container(
                    csn,
                    #[trigger] self@.items[q].contained_by,
                ) by {
                    assert(has_container(cs1, m1.items[q].contained_by));
                }
            }
            // per-id record facts
            assert forall|id: int|
                has_container(cs1, id) implies container_at(csn, id).name == container_at(
                cs1,
                id,
            ).name && container_at(csn, id).location == container_at(cs1, id).location
                && container_at(csn, id).id == id && (id != rid ==> container_at(
                csn,
                id,
            ).contained_by == container_at(cs1, id).contained_by) && (id == rid
                ==> container_at(csn, id).contained_by == Some(tgt)) by {
                let g = container_index(cs1, id);
                assert(0 <= g < cs1.len() && cs1[g].id == id);
                lemma_container_found(cs1, id, g);
                if in_subtree(cs1, rid, g) {
                    let k = choose|k: int| 0 <= k < ms.len() && #[trigger] ms[k] == g;
                    assert(csn[kn + k] == patched(cs1, g, rid, tgt));
                    lemma_container_found(csn, id, kn + k);
                } else {
                    let k = choose|k: int| 0 <= k < ks.len() && #[trigger] ks[k] == g;
                    assert(csn[k] == cs1[g]);
                    lemma_container_found(csn, id, k);
                    assert(id != rid) by {
                        if id == rid {
                            assert(g == src_i) by {
                                lemma_container_found(cs1, rid, g);
                            }
                        }
                    }
                }
            }
        }
    }
}

/// Membership depends only on ids, also for sequences of different layout.
pub proof fn lemma_has_container_same_ids_any(cs1: Seq<ContainerModel>, cs2: Seq<ContainerModel>)
    requires
        forall|id: int| #[trigger] has_container(cs2, id) <==> has_container(cs1, id),
    ensures
        forall|id: int| has_container(cs1, id) ==> has_container(cs2, id),
{
}

impl Database {
    /// Moves `container_source_id` (with its whole subtree) under
    /// `container_target_id`, never creating a cycle: when the target is
    /// currently a descendant of the source, the target is first spliced up
    /// to the source's old parent, and only then is the source reparented
    /// under it.
    ///
    /// Moving a container onto itself changes nothing. Moving the root is
    /// refused with `InvalidInput`; a missing source or target gives
    /// `NotFound`; nothing is changed on any error.
    #[verifier::rlimit(100)]
    pub fn move_container(&mut self, container_source_id: i64, container_target_id: i64) -> (res:
        Result<(), StoreError>)
        requires
            old(self).wf(),
        ensures
            final(self).wf(),
            match res {
                Ok(()) => ({
                    if container_source_id == container_target_id {
                        final(self)@ == old(self)@
                    } else {
                        let cs0 = old(self)@.containers;
                        let src = container_source_id as int;
                        let tgt = container_target_id as int;
                        let was_desc = subtree_has(cs0, src, tgt);
                        &&& container_source_id != crate::ROOT_CONTAINER_ID
                        &&& has_container(cs0, src)
                        &&& has_container(cs0, tgt)
                        &&& (forall|id: int|
                            #[trigger] has_container(final(self)@.containers, id) <==> has_container(
                                cs0,
                                id,
                            ))
                        &&& (forall|id: int|
                            has_container(cs0, id) ==> container_at(final(self)@.containers, id).name
                                == container_at(cs0, id).name && container_at(
                                final(self)@.containers,
                                id,
                            ).location == container_at(cs0, id).location)
                        &&& container_at(final(self)@.containers, src).contained_by == Some(tgt)
                        &&& (was_desc ==> container_at(final(self)@.containers, tgt).contained_by
                            == container_at(cs0, src).contained_by)
                        &&& (forall|id: int|
                            has_container(cs0, id) && id != src && !(id == tgt && was_desc)
                                ==> container_at(final(self)@.containers, id).contained_by
                                == container_at(cs0, id).contained_by)
                        &&& final(self)@.items == old(self)@.items
                        &&& final(self)@.embeddings == old(self)@.embeddings
                        &&& final(self)@.imports == old(self)@.imports
                        &&& final(self)@.next_container_id == old(self)@.next_container_id
                        &&& final(self)@.next_item_id == old(self)@.next_item_id
                        &&& final(self)@.next_embedding_id == old(self)@.next_embedding_id
                        &&& final(self)@.next_import_id == old(self)@.next_import_id
                    }
                }),
                Err(e) => {
                    &&& final(self)@ == old(self)@
                    &&& container_source_id != container_target_id
                    &&& (e == StoreError::InvalidInput <==> container_source_id
                        == crate::ROOT_CONTAINER_ID)
                    &&& (e == StoreError::NotFound ==> (!has_container(
                        old(self)@.containers,
                        container_source_id as int,
                    ) || !has_container(old(self)@.containers, container_target_id as int)))
                    &&& (e == StoreError::InvalidInput || e == StoreError::NotFound)
                },
            },
    {
        if container_source_id == container_target_id {
            return Ok(());
        }
        if container_source_id == crate::ROOT_CONTAINER_ID {
            return Err(StoreError::InvalidInput);
        }
        let src_idx = match self.find_container(container_source_id) {
            Some(i) => i,
            None => {
                return Err(StoreError::NotFound);
            },
        };
        if self.find_container(container_target_id).is_none() {
            return Err(StoreError::NotFound);
        }
        let ghost m0 = self@;
        let ghost cs0 = m0.containers;
        let ghost src = container_source_id as int;
        let ghost tgt = container_target_id as int;
        proof {
            lemma_container_found(cs0, src, src_idx as int);
        }
        let sub = self.collect_subtree(container_source_id);
        let was_desc = contains_i64(&sub, container_target_id);
        if was_desc {
            proof {
                assert(src_idx as int >= 1) by {
                    if src_idx == 0 {
                        assert(cs0[0].id == crate::ROOT_CONTAINER_ID as int);
                    }
                }
                assert(parent_linked(cs0, src_idx as int));
            }
            let sp = match self.containers[src_idx].contained_by {
                Some(p) => p,
                None => {
                    proof {
                        assert(false);
                    }
                    return Err(StoreError::Storage);
                },
            };
            let tgt_idx = match self.find_container(container_target_id) {
                Some(i) => i,
                None => {
                    proof {
                        assert(false);
                    }
                    return Err(StoreError::Storage);
                },
            };
            proof {
                lemma_container_found(cs0, tgt, tgt_idx as int);
                assert(subtree_has(cs0, src, tgt)) by {
                    assert(sub@.contains(container_target_id));
                }
                lemma_subtree_has_at(cs0, m0.next_container_id, src, tgt_idx as int);
                assert(in_subtree(cs0, src, tgt_idx as int));
                lemma_subtree_at_or_after(cs0, m0.next_container_id, src, tgt_idx as int);
                assert(container_index(cs0, src) == src_idx as int);
                assert(src_idx as int <= tgt_idx as int);
                assert(tgt_idx as int != src_idx as int) by {
                    assert(cs0[src_idx as int].id == src && cs0[tgt_idx as int].id == tgt);
                }
            }
            let row = clone_container_row(&self.containers[tgt_idx]);
            let row2 = ContainerRow {
                id: row.id,
                name: row.name,
                location: row.location,
                contained_by: Some(sp),
            };
            self.containers[tgt_idx] = row2;
            proof {
                let cs1 = self@.containers;
                let patched_tgt = ContainerModel {
                    contained_by: Some(sp as int),
                    ..cs0[tgt_idx as int]
                };
                assert(cs1 =~= cs0.update(tgt_idx as int, patched_tgt));
                assert(forall|k: int| 0 <= k < cs1.len() ==> (#[trigger] cs1[k]).id == cs0[k].id);
                assert(cs0[src_idx as int].contained_by == Some(sp as int));
                let j0 = choose|j: int|
                    0 <= j < src_idx as int && (#[trigger] cs0[j].id) == cs0[src_idx as int].contained_by->0;
                assert(cs0[j0].id == sp as int);
                assert forall|k: int| 1 <= k < cs1.len() implies #[trigger] parent_linked(
                    cs1,
                    k,
                ) by {
                    if k == tgt_idx as int {
                        assert(cs1[k].contained_by == Some(sp as int));
                        assert(j0 < k);
                        assert(cs1[j0].id == sp as int);
                    } else {
                        assert(parent_linked(cs0, k));
                        let j = choose|j: int|
                            0 <= j < k && (#[trigger] cs0[j].id) == cs0[k].contained_by->0;
                        assert(cs1[j].id == cs0[j].id);
                        assert(cs1[k].contained_by == cs0[k].contained_by);
                    }
                }
                assert(containers_wf(cs1, m0.next_container_id));
                lemma_has_container_same_ids(cs0, cs1);
                assert(store_wf(self@)) by {
                    assert(self@.items =~= m0.items);
                    assert(self@.embeddings =~= m0.embeddings);
                    assert(self@.imports =~= m0.imports);
                    assert forall|q: int|
                        0 <= q < self@.items.len() implies has_container(
                        cs1,
                        #[trigger] self@.items[q].contained_by,
                    ) by {
                        assert(has_container(cs0, m0.items[q].contained_by));
                    }
                }
                // after the splice, the target is outside the source's subtree
                assert(container_index(cs1, src) == src_idx as int) by {
                    lemma_container_found(cs1, src, src_idx as int);
                }
                assert(!in_subtree(cs1, src, tgt_idx as int)) by {
                    if in_subtree(cs1, src, tgt_idx as int) {
                        assert(cs1[tgt_idx as int].id == tgt);
                        lemma_in_subtree_step(cs1, m0.next_container_id, src, tgt_idx as int);
                        let j = parent_index(cs1, tgt_idx as int);
                        assert(cs1[j].id == sp as int);
                        assert(j == j0) by {
                            if j < j0 {
                                assert(cs1[j].id != cs1[j0].id);
                            }
                            if j0 < j {
                                assert(cs1[j0].id != cs1[j].id);
                            }
                        }
                        assert(in_subtree(cs1, src, j0));
                        lemma_subtree_at_or_after(cs1, m0.next_container_id, src, j0);
                        assert(container_index(cs1, src) <= j0);
                        assert(false);
                    }
                }
                assert(!subtree_has(cs1, src, tgt)) by {
                    lemma_subtree_has_at(cs1, m0.next_container_id, src, tgt_idx as int);
                }
                // the splice changed nothing but the target's parent
                assert forall|id: int| #[trigger] has_container(cs1, id) <==> has_container(
                    cs0,
                    id,
                ) by {}
                assert forall|id: int|
                    has_container(cs0, id) implies container_at(cs1, id).name == container_at(
                    cs0,
                    id,
                ).name && container_at(cs1, id).location == container_at(cs0, id).location
                    && container_at(cs1, id).id == id && (id != tgt ==> container_at(
                    cs1,
                    id,
                ).contained_by == container_at(cs0, id).contained_by) && (id == tgt
                    ==> container_at(cs1, id).contained_by == Some(sp as int)) by {
                    let g = container_index(cs0, id);
                    assert(0 <= g < cs0.len() && cs0[g].id == id);
                    lemma_container_found(cs0, id, g);
                    lemma_container_found(cs1, id, g);
                    if id == tgt {
                        assert(g == tgt_idx as int) by {
                            lemma_container_found(cs0, tgt, tgt_idx as int);
                        }
                    } else {
                        assert(g != tgt_idx as int) by {
                            assert(cs0[tgt_idx as int].id == tgt);
                        }
                    }
                }
                assert(container_at(cs0, src).contained_by == Some(sp as int)) by {
                    lemma_container_found(cs0, src, src_idx as int);
                }
            }
        }
        let ghost m1 = self@;
        proof {
            if !was_desc {
                assert(m1 == m0);
                assert(!subtree_has(cs0, src, tgt)) by {
                    if subtree_has(cs0, src, tgt) {
                        assert(sub@.contains(container_target_id));
                    }
                }
            }
            assert(has_container(m1.containers, src));
            assert(has_container(m1.containers, tgt));
            assert(!subtree_has(m1.containers, src, tgt));
        }
        self.reorder_subtree_to_end(container_source_id, container_target_id);
        proof {
            let csn = final(self)@.containers;
            assert forall|id: int| #[trigger] has_container(csn, id) <==> has_container(
                cs0,
                id,
            ) by {
                assert(has_container(csn, id) <==> has_container(m1.containers, id));
                assert(has_container(m1.containers, id) <==> has_container(cs0, id));
            }
            assert forall|id: int|
                has_container(cs0, id) implies container_at(csn, id).name == container_at(
                cs0,
                id,
            ).name && container_at(csn, id).location == container_at(cs0, id).location by {
                assert(has_container(m1.containers, id));
                assert(container_at(csn, id).name == container_at(m1.containers, id).name);
                assert(container_at(csn, id).location == container_at(m1.containers, id).location);
            }
            assert(container_at(csn, src).contained_by == Some(tgt));
            if was_desc {
                assert(has_container(cs0, tgt));
                assert(tgt != src);
                assert(container_at(csn, tgt).contained_by == container_at(
                    m1.containers,
                    tgt,
                ).contained_by);
                assert(container_at(csn, tgt).contained_by == container_at(
                    cs0,
                    src,
                ).contained_by);
            }
            assert forall|id: int|
                has_container(cs0, id) && id != src && !(id == tgt && subtree_has(cs0, src, tgt))
                    implies container_at(csn, id).contained_by == container_at(
                cs0,
                id,
            ).contained_by by {
                assert(has_container(m1.containers, id));
                assert(container_at(csn, id).contained_by == container_at(
                    m1.containers,
                    id,
                ).contained_by);
                if was_desc {
                    assert(id != tgt);
                    assert(container_at(m1.containers, id).contained_by == container_at(
                        cs0,
                        id,
                    ).contained_by);
                } else {
                    assert(m1.containers == cs0);
                }
            }
            assert(subtree_has(cs0, src, tgt) <==> was_desc) by {
                if subtree_has(cs0, src, tgt) {
                    assert(sub@.contains(container_target_id));
                }
                if was_desc {
                    assert(sub@.contains(container_target_id));
                }
            }
        }
        Ok(())
    }
}

} // verus!

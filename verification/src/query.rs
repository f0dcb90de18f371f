//! Ranking query hits: nearest-neighbour hits on embedding rows are mapped
//! to their owning items and aggregated by item, so that an item matched by
//! several of its facets outranks an item matched by one.
//!
//! The caller passes the hit embedding ids in ascending-distance order. The
//! result has one row per distinct item: ranked by the number of that item's
//! embeddings among the hits, descending, with ties broken by the first
//! occurrence among the hits.

use vstd::prelude::*;

use crate::database::{
    container_at, embedding_at, has_container, has_embedding, has_item, item_at,
    lemma_container_found, lemma_item_found, Database, EmbeddingModel, ItemResult,
    ItemResultModel, StoreModel,
};
use crate::errors::StoreError;
use crate::subtree::lemma_embedding_found;

verus! {

// ---------------------------------------------------------------------------
// Spec: owners, first occurrences, counts
// ---------------------------------------------------------------------------

/// Every hit id names a live embedding row.
pub open spec fn all_hits_resolve(es: Seq<EmbeddingModel>, hits: Seq<i64>) -> bool {
    forall|k: int| 0 <= k < hits.len() ==> has_embedding(es, #[trigger] hits[k] as int)
}

/// The owning item of each hit embedding, in hit order.
pub open spec fn hit_items(es: Seq<EmbeddingModel>, hits: Seq<i64>) -> Seq<int> {
    Seq::new(hits.len(), |k: int| embedding_at(es, hits[k] as int).item_id)
}

/// The distinct values of `s` in order of first occurrence.
pub open spec fn firsts(s: Seq<int>) -> Seq<int>
    decreases s.len(),
{
    if s.len() == 0 {
        seq![]
    } else {
        let rest = firsts(s.drop_last());
        if rest.contains(s.last()) {
            rest
        } else {
            rest.push(s.last())
        }
    }
}

/// How often `x` occurs in `s`.
pub open spec fn count_of(s: Seq<int>, x: int) -> int
    decreases s.len(),
{
    if s.len() == 0 {
        0int
    } else {
        count_of(s.drop_last(), x) + if s.last() == x {
            1int
        } else {
            0int
        }
    }
}

/// The unique index of `x` in a duplicate-free sequence.
pub open spec fn first_index_of(s: Seq<int>, x: int) -> int {
    choose|k: int| 0 <= k < s.len() && s[k] == x
}

/// The row a query answer shows for item `iid`.
pub open spec fn query_row(m: StoreModel, iid: int) -> ItemResultModel {
    ItemResultModel {
        id: iid,
        name: item_at(m.items, iid).name,
        description: item_at(m.items, iid).description,
        container_name: container_at(m.containers, item_at(m.items, iid).contained_by).name,
        container_id: item_at(m.items, iid).contained_by,
    }
}

pub proof fn lemma_firsts_contains(s: Seq<int>, x: int)
    ensures
        firsts(s).contains(x) <==> s.contains(x),
    decreases s.len(),
{
    if s.len() > 0 {
        lemma_firsts_contains(s.drop_last(), x);
        assert(s.contains(x) <==> (s.drop_last().contains(x) || s.last() == x)) by {
            if s.contains(x) {
                let k = choose|k: int| 0 <= k < s.len() && s[k] == x;
                if k < s.len() - 1 {
                    assert(s.drop_last()[k] == x);
                }
            }
            if s.drop_last().contains(x) {
                let k = choose|k: int| 0 <= k < s.drop_last().len() && s.drop_last()[k] == x;
                assert(s[k] == x);
            }
            if s.last() == x {
                assert(s[s.len() - 1] == x);
            }
        }
        let rest = firsts(s.drop_last());
        if !rest.contains(s.last()) {
            assert forall|y: int| #[trigger] rest.push(s.last()).contains(y) <==> (rest.contains(y)
                || y == s.last()) by {
                if rest.push(s.last()).contains(y) {
                    let k = choose|k: int|
                        0 <= k < rest.push(s.last()).len() && rest.push(s.last())[k] == y;
                    if k < rest.len() {
                        assert(rest[k] == y);
                    }
                }
                if rest.contains(y) {
                    let k = choose|k: int| 0 <= k < rest.len() && rest[k] == y;
                    assert(rest.push(s.last())[k] == y);
                }
                if y == s.last() {
                    assert(rest.push(s.last())[rest.len() as int] == y);
                }
            }
        }
    }
}

pub proof fn lemma_firsts_distinct(s: Seq<int>)
    ensures
        forall|a: int, b: int|
            0 <= a < b < firsts(s).len() ==> firsts(s)[a] != firsts(s)[b],
    decreases s.len(),
{
    if s.len() > 0 {
        lemma_firsts_distinct(s.drop_last());
        let rest = firsts(s.drop_last());
        if !rest.contains(s.last()) {
            assert forall|a: int, b: int|
                0 <= a < b < firsts(s).len() implies firsts(s)[a] != firsts(s)[b] by {
                if b == firsts(s).len() - 1 {
                    assert(firsts(s)[a] == rest[a]);
                    assert(rest.contains(rest[a]));
                }
            }
        }
    }
}

pub proof fn lemma_count_zero(s: Seq<int>, x: int)
    ensures
        count_of(s, x) >= 0,
        (count_of(s, x) == 0) <==> !s.contains(x),
    decreases s.len(),
{
    if s.len() > 0 {
        lemma_count_zero(s.drop_last(), x);
        assert(s.contains(x) <==> (s.drop_last().contains(x) || s.last() == x)) by {
            if s.contains(x) {
                let k = choose|k: int| 0 <= k < s.len() && s[k] == x;
                if k < s.len() - 1 {
                    assert(s.drop_last()[k] == x);
                }
            }
            if s.drop_last().contains(x) {
                let k = choose|k: int| 0 <= k < s.drop_last().len() && s.drop_last()[k] == x;
                assert(s[k] == x);
            }
            if s.last() == x {
                assert(s[s.len() - 1] == x);
            }
        }
    }
}

// ---------------------------------------------------------------------------
// Sorting rank entries
// ---------------------------------------------------------------------------

/// One aggregated item: its id, its hit count, and its first-occurrence
/// position among the hits.
#[derive(Clone, Copy)]
pub(crate) struct RankEntry {
    pub id: i64,
    pub count: usize,
    pub pos: usize,
}

/// The rank order: more hits first; on equal hits, earlier first occurrence
/// first.
pub(crate) open spec fn rank_le(a: RankEntry, b: RankEntry) -> bool {
    a.count > b.count || (a.count == b.count && a.pos <= b.pos)
}

/// Sorts rank entries by `rank_le`; the entries keep their fields and, as
/// their positions are distinct, the order is unique.
pub(crate) fn sort_entries(src: Vec<RankEntry>) -> (r: Vec<RankEntry>)
    requires
        forall|a: int, b: int| 0 <= a < b < src@.len() ==> src@[a].pos != src@[b].pos,
    ensures
        r@.len() == src@.len(),
        forall|k: int| 0 <= k < r@.len() ==> src@.contains(#[trigger] r@[k]),
        forall|j: int| 0 <= j < src@.len() ==> r@.contains(#[trigger] src@[j]),
        forall|a: int, b: int| 0 <= a < b < r@.len() ==> rank_le(#[trigger] r@[a], #[trigger] r@[b]),
        forall|a: int, b: int| 0 <= a < b < r@.len() ==> r@[a].pos != r@[b].pos,
{
    let ghost orig = src@;
    let mut work = src;
    let mut out: Vec<RankEntry> = Vec::new();
    proof {
        assert forall|k: int| 0 <= k < work@.len() implies orig.contains(#[trigger] work@[k]) by {
            assert(orig[k] == work@[k]);
        }
        assert forall|j: int|
            0 <= j < orig.len() implies out@.contains(#[trigger] orig[j]) || work@.contains(
            orig[j],
        ) by {
            assert(work@[j] == orig[j]);
        }
    }
    while work.len() > 0
        invariant
            out@.len() + work@.len() == orig.len(),
            forall|a: int, b: int| 0 <= a < b < work@.len() ==> work@[a].pos != work@[b].pos,
            forall|a: int, b: int| 0 <= a < b < out@.len() ==> out@[a].pos != out@[b].pos,
            forall|a: int, b: int|
                0 <= a < out@.len() && 0 <= b < work@.len() ==> out@[a].pos != work@[b].pos,
            forall|k: int| 0 <= k < out@.len() ==> orig.contains(#[trigger] out@[k]),
            forall|k: int| 0 <= k < work@.len() ==> orig.contains(#[trigger] work@[k]),
            forall|j: int|
                0 <= j < orig.len() ==> out@.contains(#[trigger] orig[j]) || work@.contains(
                    orig[j],
                ),
            forall|a: int, b: int|
                0 <= a < b < out@.len() ==> rank_le(#[trigger] out@[a], #[trigger] out@[b]),
            forall|a: int, b: int|
                0 <= a < out@.len() && 0 <= b < work@.len() ==> rank_le(
                    #[trigger] out@[a],
                    #[trigger] work@[b],
                ),
        decreases work@.len(),
    {
        let mut best: usize = 0;
        let mut j: usize = 1;
        while j < work.len()
            invariant
                work@.len() >= 1,
                0 <= best < j <= work@.len(),
                forall|k: int| 0 <= k < j ==> rank_le(work@[best as int], #[trigger] work@[k]),
            decreases work@.len() - j,
        {
            let c = work[j];
            let b = work[best];
            if c.count > b.count || (c.count == b.count && c.pos < b.pos) {
                best = j;
            }
            j = j + 1;
        }
        let ghost pre = work@;
        let ghost outpre = out@;
        let x = work.remove(best);
        out.push(x);
        proof {
            assert(work@ =~= pre.remove(best as int));
            assert(forall|k: int|
                0 <= k < work@.len() ==> #[trigger] work@[k] == (if k < best as int {
                    pre[k]
                } else {
                    pre[k + 1]
                }));
            assert(out@ =~= outpre.push(x));
            assert forall|k: int| 0 <= k < out@.len() implies orig.contains(#[trigger] out@[k]) by {
                if k < outpre.len() {
                    assert(out@[k] == outpre[k]);
                } else {
                    assert(out@[k] == pre[best as int]);
                    assert(orig.contains(pre[best as int]));
                }
            }
            assert forall|j2: int|
                0 <= j2 < orig.len() implies out@.contains(#[trigger] orig[j2]) || work@.contains(
                orig[j2],
            ) by {
                if outpre.contains(orig[j2]) {
                    let k = choose|k: int| 0 <= k < outpre.len() && outpre[k] == orig[j2];
                    assert(out@[k] == orig[j2]);
                } else if pre.contains(orig[j2]) {
                    let k = choose|k: int| 0 <= k < pre.len() && pre[k] == orig[j2];
                    if k == best as int {
                        assert(out@[out@.len() - 1] == orig[j2]);
                    } else if k < best as int {
                        assert(work@[k] == orig[j2]);
                    } else {
                        assert(work@[k - 1] == orig[j2]);
                    }
                }
            }
        }
    }
    out
}

// ---------------------------------------------------------------------------
// The query itself
// ---------------------------------------------------------------------------

impl Database {
    pub(crate) fn find_embedding(&self, id: i64) -> (r: Option<usize>)
        ensures
            match r {
                Some(i) => 0 <= i < self@.embeddings.len() && self@.embeddings[i as int].id
                    == id as int,
                None => !has_embedding(self@.embeddings, id as int),
            },
    {
        let mut i: usize = 0;
        while i < self.embeddings.len()
            invariant
                0 <= i <= self@.embeddings.len(),
                self@.embeddings.len() == self.embeddings@.len(),
                forall|j: int| 0 <= j < i ==> (#[trigger] self@.embeddings[j]).id != id as int,
            decreases self@.embeddings.len() - i,
        {
            if self.embeddings[i].id == id {
                return Some(i);
            }
            i = i + 1;
        }
        None
    }

    /// Looks up the position of `x` in the aggregation table.
    fn find_entry(&self, ids: &Vec<i64>, x: i64) -> (r: Option<usize>)
        ensures
            match r {
                Some(p) => 0 <= p < ids@.len() && ids@[p as int] == x,
                None => forall|k: int| 0 <= k < ids@.len() ==> ids@[k] != x,
            },
    {
        let mut i: usize = 0;
        while i < ids.len()
            invariant
                0 <= i <= ids@.len(),
                forall|j: int| 0 <= j < i ==> ids@[j] != x,
            decreases ids@.len() - i,
        {
            if ids[i] == x {
                return Some(i);
            }
            i = i + 1;
        }
        None
    }

    /// Ranks the hit list of a nearest-neighbour search.
    ///
    /// `hits` holds embedding ids in ascending-distance order, as the vector
    /// index returned them. The result lists each matched item once, with
    /// its current container name, ordered by how many of the item's
    /// embeddings were hit (descending), ties by first occurrence.
    ///
    /// Fails with `NotFound` exactly when some hit id is not a live
    /// embedding row.
    #[verifier::rlimit(100)]
    pub fn query(&self, hits: &Vec<i64>) -> (r: Result<Vec<ItemResult>, StoreError>)
        requires
            self.wf(),
        ensures
            match r {
                Ok(v) => ({
                    let hi = hit_items(self@.embeddings, hits@);
                    let fs = firsts(hi);
                    &&& all_hits_resolve(self@.embeddings, hits@)
                    &&& v@.len() == fs.len()
                    &&& (forall|k: int|
                        0 <= k < v@.len() ==> fs.contains(#[trigger] v@[k]@.id) && v@[k]@
                            == query_row(self@, v@[k]@.id))
                    &&& (forall|x: int|
                        #[trigger] fs.contains(x) ==> exists|k: int|
                            0 <= k < v@.len() && (#[trigger] v@[k]@.id) == x)
                    &&& (forall|a: int, b: int|
                        0 <= a < b < v@.len() ==> (#[trigger] v@[a]@.id) != (#[trigger] v@[b]@.id))
                    &&& (forall|a: int, b: int|
                        0 <= a < b < v@.len() ==> count_of(hi, (#[trigger] v@[a]@).id) >= count_of(
                            hi,
                            (#[trigger] v@[b]@).id,
                        ))
                    &&& (forall|a: int, b: int|
                        0 <= a < b < v@.len() && count_of(hi, (#[trigger] v@[a]@).id) == count_of(
                            hi,
                            (#[trigger] v@[b]@).id,
                        ) ==> first_index_of(fs, v@[a]@.id) < first_index_of(fs, v@[b]@.id))
                }),
                Err(e) => {
                    &&& e == StoreError::NotFound
                    &&& !all_hits_resolve(self@.embeddings, hits@)
                },
            },
    {
        let ghost es = self@.embeddings;
        let ghost hi = hit_items(es, hits@);
        // aggregate hits by owning item
        let mut ids: Vec<i64> = Vec::new();
        let mut counts: Vec<usize> = Vec::new();
        let mut j: usize = 0;
        proof {
            assert(hi.take(0) =~= Seq::<int>::empty());
        }
        while j < hits.len()
            invariant
                0 <= j <= hits@.len(),
                self.wf(),
                es == self@.embeddings,
                hi == hit_items(es, hits@),
                hi.len() == hits@.len(),
                ids@.len() == counts@.len(),
                Seq::new(ids@.len(), |k: int| ids@[k] as int) == firsts(hi.take(j as int)),
                forall|k: int|
                    0 <= k < counts@.len() ==> counts@[k] == count_of(
                        hi.take(j as int),
                        #[trigger] ids@[k] as int,
                    ) && counts@[k] <= j,
                forall|k: int| 0 <= k < hits@.len() ==> k < j ==> has_embedding(es, #[trigger] hits@[k] as int),
                forall|k: int| 0 <= k < ids@.len() ==> has_item(self@.items, #[trigger] ids@[k] as int),
                forall|a: int, b: int| 0 <= a < b < ids@.len() ==> ids@[a] != ids@[b],
            decreases hits@.len() - j,
        {
            let eidx = match self.find_embedding(hits[j]) {
                Some(e) => e,
                None => {
                    return Err(StoreError::NotFound);
                },
            };
            let owner = self.embeddings[eidx].item_id;
            proof {
                lemma_embedding_found(es, hits@[j as int] as int, eidx as int);
                assert(hi[j as int] == owner as int);
                assert(has_item(self@.items, owner as int));
                assert(hi.take(j as int + 1).drop_last() =~= hi.take(j as int));
                assert(hi.take(j as int + 1).last() == hi[j as int]);
            }
            let ghost ids_int = Seq::new(ids@.len(), |k: int| ids@[k] as int);
            match self.find_entry(&ids, owner) {
                Some(p) => {
                    proof {
                        assert(ids_int[p as int] == owner as int);
                        assert(firsts(hi.take(j as int)).contains(owner as int));
                        assert(firsts(hi.take(j as int + 1)) == firsts(hi.take(j as int)));
                    }
                    let c = counts[p];
                    counts[p] = c + 1;
                    proof {
                        assert forall|k: int|
                            0 <= k < counts@.len() implies counts@[k] == count_of(
                            hi.take(j as int + 1),
                            #[trigger] ids@[k] as int,
                        ) && counts@[k] <= j + 1 by {
                            if k == p as int {
                                assert(hi.take(j as int + 1).last() == ids@[k] as int);
                            } else {
                                assert(ids@[k] != ids@[p as int]);
                                assert(ids@[k] as int != owner as int);
                            }
                        }
                        assert(Seq::new(ids@.len(), |k: int| ids@[k] as int) == firsts(
                            hi.take(j as int + 1),
                        ));
                    }
                },
                None => {
                    proof {
                        assert(!ids_int.contains(owner as int)) by {
                            if ids_int.contains(owner as int) {
                                let k = choose|k: int|
                                    0 <= k < ids_int.len() && ids_int[k] == owner as int;
                                assert(ids@[k] == owner);
                            }
                        }
                        assert(!firsts(hi.take(j as int)).contains(owner as int));
                        lemma_firsts_contains(hi.take(j as int), owner as int);
                        lemma_count_zero(hi.take(j as int), owner as int);
                    }
                    ids.push(owner);
                    counts.push(1);
                    proof {
                        assert(Seq::new(ids@.len(), |k: int| ids@[k] as int) =~= ids_int.push(
                            owner as int,
                        ));
                        assert(firsts(hi.take(j as int + 1)) == ids_int.push(owner as int));
                        assert forall|k: int|
                            0 <= k < counts@.len() implies counts@[k] == count_of(
                            hi.take(j as int + 1),
                            #[trigger] ids@[k] as int,
                        ) && counts@[k] <= j + 1 by {
                            if k < counts@.len() - 1 {
                                assert(ids@[k] as int != owner as int) by {
                                    assert(ids_int[k] == ids@[k] as int);
                                }
                            } else {
                                assert(count_of(hi.take(j as int + 1), owner as int) == 1);
                            }
                        }
                    }
                },
            }
            j = j + 1;
        }
        proof {
            assert(hi.take(hi.len() as int) =~= hi);
        }
        let ghost fs = firsts(hi);
        // build and sort the rank entries
        let mut entries: Vec<RankEntry> = Vec::new();
        let mut k: usize = 0;
        while k < ids.len()
            invariant
                0 <= k <= ids@.len(),
                ids@.len() == counts@.len(),
                entries@.len() == k,
                forall|q: int|
                    0 <= q < k ==> (#[trigger] entries@[q]).id == ids@[q] && entries@[q].count
                        == counts@[q] && entries@[q].pos == q,
            decreases ids@.len() - k,
        {
            entries.push(RankEntry { id: ids[k], count: counts[k], pos: k });
            k = k + 1;
        }
        proof {
            assert(forall|a: int, b: int|
                0 <= a < b < entries@.len() ==> (#[trigger] entries@[a]).pos != (
                #[trigger] entries@[b]).pos);
        }
        let ghost entries0 = entries@;
        let sorted = sort_entries(entries);
        // map the sorted entries to item summaries
        let ghost ids_int = Seq::new(ids@.len(), |k: int| ids@[k] as int);
        let mut v: Vec<ItemResult> = Vec::new();
        let mut q: usize = 0;
        proof {
            lemma_firsts_distinct(hi);
        }
        while q < sorted.len()
            invariant
                0 <= q <= sorted@.len(),
                self.wf(),
                es == self@.embeddings,
                hi == hit_items(es, hits@),
                fs == firsts(hi),
                ids_int == Seq::new(ids@.len(), |k: int| ids@[k] as int),
                ids_int == fs,
                ids@.len() == counts@.len(),
                forall|k2: int|
                    0 <= k2 < ids@.len() ==> has_item(self@.items, #[trigger] ids@[k2] as int),
                forall|k2: int|
                    0 <= k2 < counts@.len() ==> counts@[k2] == count_of(
                        hi,
                        #[trigger] ids@[k2] as int,
                    ),
                sorted@.len() == entries0.len(),
                entries0.len() == ids@.len(),
                forall|k2: int|
                    0 <= k2 < entries0.len() ==> (#[trigger] entries0[k2]).id == ids@[k2]
                        && entries0[k2].count == counts@[k2] && entries0[k2].pos == k2,
                forall|k2: int|
                    0 <= k2 < sorted@.len() ==> entries0.contains(#[trigger] sorted@[k2]),
                forall|j2: int|
                    0 <= j2 < entries0.len() ==> sorted@.contains(#[trigger] entries0[j2]),
                forall|a: int, b: int|
                    0 <= a < b < sorted@.len() ==> rank_le(
                        #[trigger] sorted@[a],
                        #[trigger] sorted@[b],
                    ),
                forall|a: int, b: int|
                    0 <= a < b < sorted@.len() ==> sorted@[a].pos != sorted@[b].pos,
                v@.len() == q,
                forall|k2: int|
                    0 <= k2 < q ==> (#[trigger] v@[k2]@).id == sorted@[k2].id as int && v@[k2]@
                        == query_row(self@, sorted@[k2].id as int),
            decreases sorted@.len() - q,
        {
            let e = sorted[q];
            proof {
                assert(entries0.contains(sorted@[q as int]));
                let j2 = choose|j2: int| 0 <= j2 < entries0.len() && entries0[j2] == sorted@[q as int];
                assert(e.id == ids@[j2]);
                assert(has_item(self@.items, ids@[j2] as int));
            }
            let iidx = match self.find_item(e.id) {
                Some(i) => i,
                None => {
                    proof {
                        assert(false);
                    }
                    return Err(StoreError::Storage);
                },
            };
            proof {
                lemma_item_found(self@.items, e.id as int, iidx as int);
                assert(has_container(self@.containers, self@.items[iidx as int].contained_by));
            }
            let cidx = match self.find_container(self.items[iidx].contained_by) {
                Some(c) => c,
                None => {
                    proof {
                        assert(false);
                    }
                    return Err(StoreError::Storage);
                },
            };
            proof {
                lemma_container_found(
                    self@.containers,
                    self@.items[iidx as int].contained_by,
                    cidx as int,
                );
            }
            let row = ItemResult {
                id: e.id,
                name: self.items[iidx].name.clone(),
                description: self.items[iidx].description.clone(),
                container_name: self.containers[cidx].name.clone(),
                container_id: self.items[iidx].contained_by,
            };
            v.push(row);
            q = q + 1;
        }
        proof {
            // each result row's id is an entry id; entries are the firsts
            assert forall|k2: int|
                0 <= k2 < v@.len() implies fs.contains(#[trigger] v@[k2]@.id) && v@[k2]@
                == query_row(self@, v@[k2]@.id) by {
                assert(entries0.contains(sorted@[k2]));
                let j2 = choose|j2: int| 0 <= j2 < entries0.len() && entries0[j2] == sorted@[k2];
                assert(v@[k2]@.id == ids@[j2] as int);
                assert(fs[j2] == ids@[j2] as int);
                assert(fs.contains(fs[j2]));
            }
            assert forall|x: int| #[trigger] fs.contains(x) implies exists|k2: int|
                0 <= k2 < v@.len() && (#[trigger] v@[k2]@.id) == x by {
                let j2 = choose|j2: int| 0 <= j2 < fs.len() && fs[j2] == x;
                assert(entries0[j2].id == ids@[j2]);
                assert(sorted@.contains(entries0[j2]));
                let k2 = choose|k2: int| 0 <= k2 < sorted@.len() && sorted@[k2] == entries0[j2];
                assert(v@[k2]@.id == ids@[j2] as int);
                assert(ids_int[j2] == ids@[j2] as int);
            }
            // ranking facts, via each sorted entry's original fields
            assert forall|a: int, b: int|
                0 <= a < b < v@.len() implies (#[trigger] v@[a]@.id) != (#[trigger] v@[b]@.id)
                && count_of(hi, v@[a]@.id) >= count_of(hi, v@[b]@.id) && (count_of(hi, v@[a]@.id)
                == count_of(hi, v@[b]@.id) ==> first_index_of(fs, v@[a]@.id) < first_index_of(
                fs,
                v@[b]@.id,
            )) by {
                assert(entries0.contains(sorted@[a]));
                assert(entries0.contains(sorted@[b]));
                let ja = choose|ja: int| 0 <= ja < entries0.len() && entries0[ja] == sorted@[a];
                let jb = choose|jb: int| 0 <= jb < entries0.len() && entries0[jb] == sorted@[b];
                assert(sorted@[a].pos == ja && sorted@[b].pos == jb);
                assert(ja != jb);
                assert(v@[a]@.id == ids@[ja] as int && v@[b]@.id == ids@[jb] as int);
                assert(fs[ja] == ids@[ja] as int && fs[jb] == ids@[jb] as int);
                assert(ids@[ja] as int != ids@[jb] as int) by {
                    if ja < jb {
                        assert(fs[ja] != fs[jb]);
                    } else {
                        assert(fs[jb] != fs[ja]);
                    }
                }
                assert(sorted@[a].count == count_of(hi, v@[a]@.id));
                assert(sorted@[b].count == count_of(hi, v@[b]@.id));
                assert(rank_le(sorted@[a], sorted@[b]));
                assert(first_index_of(fs, v@[a]@.id) == ja) by {
                    let w = first_index_of(fs, v@[a]@.id);
                    assert(fs.contains(fs[ja]));
                    assert(0 <= w < fs.len() && fs[w] == fs[ja]);
                    if w != ja {
                        if w < ja {
                            assert(fs[w] != fs[ja]);
                        } else {
                            assert(fs[ja] != fs[w]);
                        }
                    }
                }
                assert(first_index_of(fs, v@[b]@.id) == jb) by {
                    let w = first_index_of(fs, v@[b]@.id);
                    assert(fs.contains(fs[jb]));
                    assert(0 <= w < fs.len() && fs[w] == fs[jb]);
                    if w != jb {
                        if w < jb {
                            assert(fs[w] != fs[jb]);
                        } else {
                            assert(fs[jb] != fs[w]);
                        }
                    }
                }
            }
        }
        Ok(v)
    }
}

} // verus!

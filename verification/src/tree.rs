//! Rendering the container rows as a tree: each node's children are exactly
//! the rows that name it as parent, sorted case-insensitively by name.

use vstd::prelude::*;
use vstd::string::StringExecFns;

use crate::database::{
    clone_opt_string, container_at, container_index, has_container, lemma_container_found,
    parent_linked, ContainerModel, ContainerRow, Database,
};
use crate::errors::StoreError;
use crate::strutil::{lemma_lex_le_total, lemma_lex_le_trans, lex_le, str_lex_le};

verus! {

/// The container tree as presented: a node with its children, each child a
/// full subtree.
pub struct ContainerTree {
    pub id: i64,
    pub name: String,
    pub location: Option<String>,
    pub containers: Vec<ContainerTree>,
}

/// What `str::to_lowercase` returns; it depends on the characters alone.
pub uninterp spec fn lower_of(s: Seq<char>) -> Seq<char>;

/// Relies on `str::to_lowercase` for case-insensitive ordering of container
/// names.
#[verifier::external_body]
fn lowercase(s: &str) -> (r: String)
    ensures
        r@ == lower_of(s@),
{
    s.to_lowercase()
}

/// The models of a sequence of container rows.
pub open spec fn container_models(rs: Seq<ContainerRow>) -> Seq<ContainerModel> {
    Seq::new(rs.len(), |i: int| rs[i]@)
}

/// The shape that `fill_tree` needs of the rows: a root first, every parent
/// at an earlier row, and distinct ids.
pub open spec fn rows_ok(cs: Seq<ContainerModel>) -> bool {
    &&& 1 <= cs.len()
    &&& cs[0].id == crate::ROOT_CONTAINER_ID as int
    &&& cs[0].contained_by is None
    &&& forall|i: int| 1 <= i < cs.len() ==> #[trigger] parent_linked(cs, i)
    &&& forall|i: int, j: int|
        0 <= i < j < cs.len() ==> (#[trigger] cs[i].id) != (#[trigger] cs[j].id)
}

/// The view of an optional string.
pub open spec fn opt_view(o: Option<String>) -> Option<Seq<char>> {
    match o {
        Some(s) => Some(s@),
        None => None,
    }
}

/// A collected child node: its fields match its row, it has no children
/// yet, and its row lies strictly after its parent's row.
pub open spec fn child_row_ok(
    cs: Seq<ContainerModel>,
    me: int,
    my_idx: int,
    c: ContainerTree,
) -> bool {
    &&& has_container(cs, c.id as int)
    &&& container_at(cs, c.id as int).contained_by == Some(me)
    &&& c.name@ == container_at(cs, c.id as int).name
    &&& opt_view(c.location) == container_at(cs, c.id as int).location
    &&& c.containers@.len() == 0
    &&& my_idx < container_index(cs, c.id as int) < cs.len()
}

/// Under node `t`, the children are exactly the rows whose parent is `t`,
/// each with its row's fields, sorted case-insensitively by name, with no
/// id repeated, and each child recursively filled the same way.
pub open spec fn children_filled(cs: Seq<ContainerModel>, t: ContainerTree) -> bool
    decreases t,
{
    &&& forall|k: int|
        0 <= k < t.containers@.len() ==> {
            let c = #[trigger] t.containers@[k];
            &&& has_container(cs, c.id as int)
            &&& container_at(cs, c.id as int).contained_by == Some(t.id as int)
            &&& c.name@ == container_at(cs, c.id as int).name
            &&& opt_view(c.location) == container_at(cs, c.id as int).location
            &&& children_filled(cs, c)
        }
    &&& forall|id: int|
        has_container(cs, id) && (#[trigger] container_at(cs, id)).contained_by == Some(
            t.id as int,
        ) ==> exists|k: int| 0 <= k < t.containers@.len() && (#[trigger] t.containers@[k].id) as int == id
    &&& forall|a: int, b: int|
        0 <= a < b < t.containers@.len() ==> t.containers@[a].id != t.containers@[b].id
    &&& forall|a: int, b: int|
        0 <= a < b < t.containers@.len() ==> lex_le(
            lower_of(t.containers@[a].name@),
            lower_of(t.containers@[b].name@),
        )
}

/// The whole tree agrees with the rows: the node's own fields match its
/// row, and its children are filled as `children_filled` says.
pub open spec fn tree_matches(cs: Seq<ContainerModel>, t: ContainerTree) -> bool {
    &&& has_container(cs, t.id as int)
    &&& t.name@ == container_at(cs, t.id as int).name
    &&& opt_view(t.location) == container_at(cs, t.id as int).location
    &&& children_filled(cs, t)
}

/// Compares two nodes by the lowercased name.
fn tree_name_le(a: &ContainerTree, b: &ContainerTree) -> (r: bool)
    ensures
        r == lex_le(lower_of(a.name@), lower_of(b.name@)),
{
    let la = lowercase(a.name.as_str());
    let lb = lowercase(b.name.as_str());
    str_lex_le(la.as_str(), lb.as_str())
}

/// Sorts sibling nodes case-insensitively by name; ids stay distinct and no
/// node is lost or invented.
fn sort_trees(src: Vec<ContainerTree>) -> (r: Vec<ContainerTree>)
    requires
        forall|a: int, b: int| 0 <= a < b < src@.len() ==> src@[a].id != src@[b].id,
    ensures
        r@.len() == src@.len(),
        forall|k: int| 0 <= k < r@.len() ==> src@.contains(#[trigger] r@[k]),
        forall|j: int| 0 <= j < src@.len() ==> r@.contains(#[trigger] src@[j]),
        forall|a: int, b: int| 0 <= a < b < r@.len() ==> r@[a].id != r@[b].id,
        forall|a: int, b: int|
            0 <= a < b < r@.len() ==> lex_le(lower_of(r@[a].name@), lower_of(r@[b].name@)),
{
    let ghost orig = src@;
    let mut work = src;
    let mut out: Vec<ContainerTree> = Vec::new();
    proof {
        assert forall|k: int| 0 <= k < work@.len() implies orig.contains(#[trigger] work@[k]) by {
            assert(orig[k] == work@[k]);
        }
        assert forall|j: int|
            0 <= j < orig.len() implies out@.contains(#[trigger] orig[j]) || work@.contains(
            orig[j],
        ) by {
            assert(work@[j] == orig[j]);
        }
    }
    while work.len() > 0
        invariant
            out@.len() + work@.len() == orig.len(),
            forall|a: int, b: int| 0 <= a < b < work@.len() ==> work@[a].id != work@[b].id,
            forall|a: int, b: int| 0 <= a < b < out@.len() ==> out@[a].id != out@[b].id,
            forall|a: int, b: int|
                0 <= a < out@.len() && 0 <= b < work@.len() ==> out@[a].id != work@[b].id,
            forall|k: int| 0 <= k < out@.len() ==> orig.contains(#[trigger] out@[k]),
            forall|k: int| 0 <= k < work@.len() ==> orig.contains(#[trigger] work@[k]),
            forall|j: int|
                0 <= j < orig.len() ==> out@.contains(#[trigger] orig[j]) || work@.contains(
                    orig[j],
                ),
            forall|a: int, b: int|
                0 <= a < b < out@.len() ==> lex_le(
                    lower_of(#[trigger] out@[a].name@),
                    lower_of(#[trigger] out@[b].name@),
                ),
            forall|a: int, b: int|
                0 <= a < out@.len() && 0 <= b < work@.len() ==> lex_le(
                    lower_of(#[trigger] out@[a].name@),
                    lower_of(#[trigger] work@[b].name@),
                ),
        decreases work@.len(),
    {
        let mut best: usize = 0;
        let mut j: usize = 1;
        proof {
            lemma_lex_le_total(lower_of(work@[0].name@), lower_of(work@[0].name@));
        }
        while j < work.len()
            invariant
                work@.len() >= 1,
                0 <= best < j <= work@.len(),
                forall|k: int|
                    0 <= k < j ==> lex_le(
                        lower_of(work@[best as int].name@),
                        lower_of(#[trigger] work@[k].name@),
                    ),
            decreases work@.len() - j,
        {
            if tree_name_le(&work[j], &work[best]) {
                let ghost old_best = best;
                best = j;
                proof {
                    assert forall|k: int|
                        0 <= k < j + 1 implies lex_le(
                        lower_of(work@[best as int].name@),
                        lower_of(#[trigger] work@[k].name@),
                    ) by {
                        if k < j {
                            lemma_lex_le_trans(
                                lower_of(work@[best as int].name@),
                                lower_of(work@[old_best as int].name@),
                                lower_of(work@[k].name@),
                            );
                        } else {
                            lemma_lex_le_total(
                                lower_of(work@[best as int].name@),
                                lower_of(work@[best as int].name@),
                            );
                        }
                    }
                }
            } else {
                proof {
                    lemma_lex_le_total(
                        lower_of(work@[j as int].name@),
                        lower_of(work@[best as int].name@),
                    );
                }
            }
            j = j + 1;
        }
        let ghost pre = work@;
        let ghost outpre = out@;
        let x = work.remove(best);
        out.push(x);
        proof {
            assert(work@ =~= pre.remove(best as int));
            assert(forall|k: int|
                0 <= k < work@.len() ==> #[trigger] work@[k] == (if k < best as int {
                    pre[k]
                } else {
                    pre[k + 1]
                }));
            assert(out@ =~= outpre.push(x));
            assert forall|k: int| 0 <= k < out@.len() implies orig.contains(#[trigger] out@[k]) by {
                if k < outpre.len() {
                    assert(out@[k] == outpre[k]);
                } else {
                    assert(out@[k] == pre[best as int]);
                    assert(orig.contains(pre[best as int]));
                }
            }
            assert forall|j2: int|
                0 <= j2 < orig.len() implies out@.contains(#[trigger] orig[j2]) || work@.contains(
                orig[j2],
            ) by {
                if outpre.contains(orig[j2]) {
                    let k = choose|k: int| 0 <= k < outpre.len() && outpre[k] == orig[j2];
                    assert(out@[k] == orig[j2]);
                } else if pre.contains(orig[j2]) {
                    let k = choose|k: int| 0 <= k < pre.len() && pre[k] == orig[j2];
                    if k == best as int {
                        assert(out@[out@.len() - 1] == orig[j2]);
                    } else if k < best as int {
                        assert(work@[k] == orig[j2]);
                    } else {
                        assert(work@[k - 1] == orig[j2]);
                    }
                }
            }
        }
    }
    out
}

/// Attaches to `cur_node` all rows whose parent is `cur_node`, recursively,
/// each sibling group sorted case-insensitively by name.
#[verifier::rlimit(100)]
pub fn fill_tree(cur_node: &mut ContainerTree, rows: &Vec<ContainerRow>)
    requires
        rows_ok(container_models(rows@)),
        has_container(container_models(rows@), old(cur_node).id as int),
        old(cur_node).containers@.len() == 0,
    ensures
        final(cur_node).id == old(cur_node).id,
        final(cur_node).name == old(cur_node).name,
        final(cur_node).location == old(cur_node).location,
        children_filled(container_models(rows@), *final(cur_node)),
    decreases rows@.len() - container_index(container_models(rows@), old(cur_node).id as int),
{
    let ghost cs = container_models(rows@);
    let ghost me = cur_node.id as int;
    let ghost my_idx = container_index(cs, me);
    proof {
        let g = choose|g: int| 0 <= g < cs.len() && cs[g].id == me;
        lemma_container_found(cs, me, g);
    }
    // collect the direct children
    let mut children: Vec<ContainerTree> = Vec::new();
    let mut i: usize = 0;
    while i < rows.len()
        invariant
            0 <= i <= rows@.len(),
            cs == container_models(rows@),
            cs.len() == rows@.len(),
            rows_ok(cs),
            me == cur_node.id as int,
            0 <= my_idx < cs.len(),
            cs[my_idx].id == me,
            container_index(cs, me) == my_idx,
            forall|k: int|
                0 <= k < children@.len() ==> child_row_ok(cs, me, my_idx, #[trigger] children@[k]),
            forall|k: int|
                0 <= k < children@.len() ==> container_index(
                    cs,
                    (#[trigger] children@[k]).id as int,
                ) < i,
            forall|a: int, b: int|
                0 <= a < b < children@.len() ==> children@[a].id != children@[b].id,
            forall|g: int|
                0 <= g < i && cs[g].contained_by == Some(me) ==> exists|k: int|
                    0 <= k < children@.len() && (#[trigger] children@[k].id) as int == cs[g].id,
        decreases rows@.len() - i,
    {
        let keep = match rows[i].contained_by {
            Some(p) => p == cur_node.id,
            None => false,
        };
        if keep {
            let ghost pre = children@;
            let node = ContainerTree {
                id: rows[i].id,
                name: rows[i].name.clone(),
                location: clone_opt_string(&rows[i].location),
                containers: Vec::new(),
            };
            children.push(node);
            proof {
                lemma_container_found(cs, cs[i as int].id, i as int);
                assert(my_idx < i as int) by {
                    assert(i as int >= 1) by {
                        if i == 0 {
                            assert(cs[0].contained_by is None);
                        }
                    }
                    assert(parent_linked(cs, i as int));
                    let j = choose|j: int|
                        0 <= j < i as int && (#[trigger] cs[j].id) == cs[i as int].contained_by->0;
                    assert(cs[j].id == me);
                    if j != my_idx {
                        if j < my_idx {
                            assert(cs[j].id != cs[my_idx].id);
                        } else {
                            assert(cs[my_idx].id != cs[j].id);
                        }
                    }
                }
                let newc = children@[children@.len() - 1];
                assert(newc.id as int == cs[i as int].id);
                assert(container_index(cs, newc.id as int) == i as int);
                assert(child_row_ok(cs, me, my_idx, newc));
                assert forall|a: int, b: int|
                    0 <= a < b < children@.len() implies children@[a].id != children@[b].id by {
                    if b == children@.len() - 1 {
                        assert(children@[a] == pre[a]);
                        assert(container_index(cs, pre[a].id as int) < i as int);
                        if pre[a].id == newc.id {
                            assert(container_index(cs, pre[a].id as int) == i as int);
                        }
                    }
                }
                assert forall|g: int|
                    0 <= g < i + 1 && cs[g].contained_by == Some(me) implies exists|k: int|
                    0 <= k < children@.len() && (#[trigger] children@[k].id) as int == cs[g].id by {
                    if g < i {
                        let k = choose|k: int|
                            0 <= k < pre.len() && (#[trigger] pre[k].id) as int == cs[g].id;
                        assert(children@[k].id as int == cs[g].id);
                    } else {
                        assert(children@[children@.len() - 1].id as int == cs[g].id);
                    }
                }
            }
        }
        i = i + 1;
    }
    // sort the siblings case-insensitively
    let ghost children0 = children@;
    let sorted = sort_trees(children);
    let ghost sorted0 = sorted@;
    proof {
        assert forall|k: int|
            0 <= k < sorted0.len() implies child_row_ok(cs, me, my_idx, #[trigger] sorted0[k]) by {
            assert(children0.contains(sorted0[k]));
            let j = choose|j: int| 0 <= j < children0.len() && children0[j] == sorted0[k];
            assert(child_row_ok(cs, me, my_idx, children0[j]));
        }
    }
    // recursively fill each child, keeping the sorted order
    let mut work = sorted;
    let mut filled: Vec<ContainerTree> = Vec::new();
    proof {
        assert(work@ =~= sorted0);
    }
    while work.len() > 0
        invariant
            cs == container_models(rows@),
            rows_ok(cs),
            me == cur_node.id as int,
            0 <= my_idx < cs.len(),
            cs[my_idx].id == me,
            container_index(cs, me) == my_idx,
            filled@.len() + work@.len() == sorted0.len(),
            forall|k: int| 0 <= k < work@.len() ==> work@[k] == sorted0[filled@.len() + k],
            forall|k: int|
                0 <= k < sorted0.len() ==> child_row_ok(cs, me, my_idx, #[trigger] sorted0[k]),
            forall|k: int|
                0 <= k < filled@.len() ==> {
                    let c = #[trigger] filled@[k];
                    &&& c.id == sorted0[k].id
                    &&& c.name == sorted0[k].name
                    &&& c.location == sorted0[k].location
                    &&& children_filled(cs, c)
                },
        decreases work@.len(),
    {
        let ghost pre = work@;
        let mut c = work.remove(0);
        proof {
            assert(work@ =~= pre.remove(0));
            assert(c == sorted0[filled@.len() as int]);
            assert(child_row_ok(cs, me, my_idx, c));
        }
        fill_tree(&mut c, rows);
        filled.push(c);
        proof {
            assert(forall|k: int|
                0 <= k < work@.len() ==> #[trigger] work@[k] == pre[k + 1]);
        }
    }
    cur_node.containers = filled;
    proof {
        let t = *cur_node;
        assert forall|id: int|
            has_container(cs, id) && (#[trigger] container_at(cs, id)).contained_by == Some(
            me,
        ) implies exists|k: int|
            0 <= k < t.containers@.len() && (#[trigger] t.containers@[k].id) as int == id by {
            let g = container_index(cs, id);
            assert(0 <= g < cs.len() && cs[g].id == id) by {
                let g0 = choose|g0: int| 0 <= g0 < cs.len() && cs[g0].id == id;
                lemma_container_found(cs, id, g0);
            }
            assert(cs[g].contained_by == Some(me)) by {
                lemma_container_found(cs, id, g);
            }
            // from the collection loop, some collected child had this id,
            // and sorting then filling kept ids positionally
            let kc = choose|kc: int|
                0 <= kc < children0.len() && (#[trigger] children0[kc].id) as int == cs[g].id;
            assert(sorted0.contains(children0[kc]));
            let k = choose|k: int| 0 <= k < sorted0.len() && sorted0[k] == children0[kc];
            assert(sorted0[k].id as int == id);
            assert(t.containers@[k].id == sorted0[k].id);
        }
        assert forall|k: int|
            0 <= k < t.containers@.len() implies {
            let c = #[trigger] t.containers@[k];
            &&& has_container(cs, c.id as int)
            &&& container_at(cs, c.id as int).contained_by == Some(t.id as int)
            &&& c.name@ == container_at(cs, c.id as int).name
            &&& opt_view(c.location) == container_at(cs, c.id as int).location
            &&& children_filled(cs, c)
        } by {
            assert(child_row_ok(cs, me, my_idx, sorted0[k]));
            assert(t.containers@[k].id == sorted0[k].id);
            assert(t.containers@[k].name == sorted0[k].name);
            assert(t.containers@[k].location == sorted0[k].location);
        }
        assert forall|a: int, b: int|
            0 <= a < b < t.containers@.len() implies t.containers@[a].id != t.containers@[b].id by {
            assert(t.containers@[a].id == sorted0[a].id);
            assert(t.containers@[b].id == sorted0[b].id);
        }
        assert forall|a: int, b: int|
            0 <= a < b < t.containers@.len() implies lex_le(
            lower_of(t.containers@[a].name@),
            lower_of(t.containers@[b].name@),
        ) by {
            assert(t.containers@[a].name == sorted0[a].name);
            assert(t.containers@[b].name == sorted0[b].name);
        }
    }
}

impl Database {
    /// The whole container tree, rooted at the root container, every
    /// sibling group sorted case-insensitively by name.
    pub fn get_container_tree(&self) -> (r: Result<ContainerTree, StoreError>)
        requires
            self.wf(),
        ensures
            (r matches Ok(t) && t.id == crate::ROOT_CONTAINER_ID && tree_matches(
                self@.containers,
                t,
            )),
    {
        let ghost cs = self@.containers;
        proof {
            assert(cs =~= container_models(self.containers@));
            lemma_container_found(cs, crate::ROOT_CONTAINER_ID as int, 0);
        }
        let root_row = &self.containers[0];
        let mut root = ContainerTree {
            id: root_row.id,
            name: root_row.name.clone(),
            location: clone_opt_string(&root_row.location),
            containers: Vec::new(),
        };
        fill_tree(&mut root, &self.containers);
        Ok(root)
    }
}

} // verus!

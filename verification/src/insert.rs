//! Structural insertion: new nodes threaded into an existing sibling ring.
//!
//! Every insertion appends to the arena (references are the arena length at
//! creation time) and relinks exactly the neighbours of the insertion
//! point. Under an `Array` parent the new node is a `Null`; under an
//! `Object` parent it is a keyless entry whose value is a fresh `Null` in a
//! singleton ring.

use vstd::prelude::*;

use crate::buffer::JsonBuffer;
use crate::node::JsonNode;
use crate::node::JsonVariant;
use crate::node::NodeModel;
use crate::node::VariantModel;
use crate::node::arena;
use crate::wf::in_list_ok;
use crate::wf::sels_ok;
use crate::wf::list_ok;
use crate::wf::node_ok;
use crate::wf::nodes_ok;

verus! {

broadcast use crate::node::lemma_arena_push, crate::node::lemma_arena_update, crate::node::lemma_arena_index;

/// Insertion of a child at position `t` of the child list of `p`, on the
/// model: the list grows by the fresh reference, the two neighbours of the
/// insertion point (or the parent, at a ring end) are relinked, and the new
/// node (plus, under an `Object`, its fresh `Null` value) is appended.
pub open spec fn insert_child_m(nodes: Seq<NodeModel>, p: usize, t: int) -> Seq<NodeModel> {
    let nd = nodes[p as int];
    let cs = nd.variant.children();
    let nu = nodes.len() as usize;
    let lf = if t == 0 {
        p
    } else {
        cs[t - 1]
    };
    let rt = if t == cs.len() {
        p
    } else {
        cs[t]
    };
    let list2 = cs.insert(t, nu);
    let v2 = if nd.variant is Array {
        VariantModel::Array(list2)
    } else {
        VariantModel::Object(list2)
    };
    let s0 = nodes.update(p as int, NodeModel { variant: v2, ..nd });
    let s1 = if t == 0 {
        s0
    } else {
        s0.update(cs[t - 1] as int, NodeModel { right: nu, ..s0[cs[t - 1] as int] })
    };
    let s2 = if t == cs.len() {
        s1
    } else {
        s1.update(cs[t] as int, NodeModel { left: nu, ..s1[cs[t] as int] })
    };
    if nd.variant is Array {
        s2.push(NodeModel { variant: VariantModel::Null, parent: p, left: lf, right: rt })
    } else {
        s2.push(
            NodeModel {
                variant: VariantModel::Entry { key: Seq::empty(), value: (nu + 1) as usize },
                parent: p,
                left: lf,
                right: rt,
            },
        ).push(NodeModel { variant: VariantModel::Null, parent: nu, left: nu, right: nu })
    }
}

/// Inserting a child preserves the arena invariant and appends one node
/// under an `Array` parent, two under an `Object` parent.
#[verifier::rlimit(100)]
#[verifier::spinoff_prover]
pub proof fn lemma_insert_child_ok(nodes: Seq<NodeModel>, p: usize, t: int)
    requires
        nodes_ok(nodes),
        nodes.len() <= usize::MAX,
        nodes[p as int].variant is Object ==> nodes.len() + 1 <= usize::MAX,
        p < nodes.len(),
        nodes[p as int].variant.is_listing(),
        0 <= t <= nodes[p as int].variant.children().len(),
    ensures
        nodes_ok(insert_child_m(nodes, p, t)),
        insert_child_m(nodes, p, t).len() == nodes.len() + (if nodes[p as int].variant is Array {
            1int
        } else {
            2int
        }),
        forall|j: int|
            0 <= j < nodes.len() && j != p ==> (#[trigger] insert_child_m(nodes, p, t)[j]).variant
                == nodes[j].variant,
        insert_child_m(nodes, p, t)[p as int].variant.children() == nodes[p as int].variant.children().insert(t, nodes.len() as usize),
{
    let nd = nodes[p as int];
    let cs = nd.variant.children();
    let m = cs.len() as int;
    let n = nodes.len() as int;
    let nu = n as usize;
    let r = insert_child_m(nodes, p, t);
    let list2 = cs.insert(t, nu);
    let lf = if t == 0 {
        p
    } else {
        cs[t - 1]
    };
    let rt = if t == m {
        p
    } else {
        cs[t]
    };
    assert(node_ok(nodes, p as int));
    assert(list_ok(nodes, p, cs));
    cs.insert_ensures(t, nu);
    if t > 0 {
        assert(in_list_ok(nodes, p, cs, t - 1));
    }
    if t < m {
        assert(in_list_ok(nodes, p, cs, t));
    }
    // Pointwise shape of the result over the old indices: only the parent's
    // list and the two neighbours' facing links changed.
    assert(r[p as int].parent == nd.parent && r[p as int].left == nd.left && r[p as int].right
        == nd.right);
    assert(r[p as int].variant.children() =~= list2);
    assert forall|j: int| 0 <= j < n && j != p implies #[trigger] r[j] == (if t > 0 && j == cs[t
        - 1] {
        NodeModel { right: nu, ..nodes[j] }
    } else if t < m && j == cs[t] {
        NodeModel { left: nu, ..nodes[j] }
    } else {
        nodes[j]
    }) by {}
    // The new nodes.
    if nd.variant is Array {
        assert(r[n] == NodeModel { variant: VariantModel::Null, parent: p, left: lf, right: rt });
    } else {
        assert(r[n] == NodeModel {
            variant: VariantModel::Entry { key: Seq::empty(), value: (nu + 1) as usize },
            parent: p,
            left: lf,
            right: rt,
        });
        assert(r[n + 1] == NodeModel {
            variant: VariantModel::Null,
            parent: nu,
            left: nu,
            right: nu,
        });
    }
    assert forall|i: int| 0 <= i < r.len() implies #[trigger] node_ok(r, i) by {
        if i == p {
            assert forall|k: int| 0 <= k < list2.len() implies #[trigger] in_list_ok(
                r,
                p,
                list2,
                k,
            ) by {
                if k < t - 1 {
                    assert(in_list_ok(nodes, p, cs, k));
                } else if k == t - 1 {
                    assert(in_list_ok(nodes, p, cs, k));
                } else if k == t {
                    // the fresh node
                } else if k == t + 1 {
                    assert(in_list_ok(nodes, p, cs, k - 1));
                } else {
                    assert(in_list_ok(nodes, p, cs, k - 1));
                }
            }
            assert forall|k1: int, k2: int| 0 <= k1 < k2 < list2.len() implies list2[k1]
                != list2[k2] by {
                if k1 < t {
                    assert(list2[k1] == cs[k1]);
                    assert(in_list_ok(nodes, p, cs, k1));
                } else if k1 == t {
                    assert(list2[k1] == nu);
                } else {
                    assert(list2[k1] == cs[k1 - 1]);
                    assert(in_list_ok(nodes, p, cs, k1 - 1));
                }
                if k2 < t {
                    assert(list2[k2] == cs[k2]);
                    assert(in_list_ok(nodes, p, cs, k2));
                } else if k2 == t {
                    assert(list2[k2] == nu);
                } else {
                    assert(list2[k2] == cs[k2 - 1]);
                    assert(in_list_ok(nodes, p, cs, k2 - 1));
                }
            }
            assert(node_ok(r, i));
        } else if i == n || (nd.variant is Object && i == n + 1) {
            if nd.variant is Object && i == n {
                // the fresh entry's value sits right behind it
                assert(r[i].variant->Entry_value == n + 1);
            }
            assert(node_ok(r, i));
        } else {
            assert(node_ok(nodes, i));
            // Any node the clauses of `i` speak of has unchanged links: the
            // relinked neighbours belong to `p`, not to `i`.
            match nodes[i].variant {
                VariantModel::Entry { key: _, value: v } => {
                    assert(nodes[v as int].parent == i);
                    if t > 0 {
                        assert(nodes[cs[t - 1] as int].parent == p);
                    }
                    if t < m {
                        assert(nodes[cs[t] as int].parent == p);
                    }
                    assert(r[v as int].parent == i && r[v as int].left == i && r[v as int].right
                        == i);
                    assert(node_ok(r, i));
                },
                VariantModel::Array(ds) => {
                    assert forall|k: int| 0 <= k < ds.len() implies #[trigger] in_list_ok(
                        r,
                        i as usize,
                        ds,
                        k,
                    ) by {
                        assert(in_list_ok(nodes, i as usize, ds, k));
                        assert(nodes[ds[k] as int].parent == i);
                        if t > 0 {
                            assert(nodes[cs[t - 1] as int].parent == p);
                        }
                        if t < m {
                            assert(nodes[cs[t] as int].parent == p);
                        }
                    }
                    assert(node_ok(r, i));
                },
                VariantModel::Object(ds) => {
                    assert forall|k: int| 0 <= k < ds.len() implies #[trigger] in_list_ok(
                        r,
                        i as usize,
                        ds,
                        k,
                    ) by {
                        assert(in_list_ok(nodes, i as usize, ds, k));
                        assert(nodes[ds[k] as int].parent == i);
                        if t > 0 {
                            assert(nodes[cs[t - 1] as int].parent == p);
                        }
                        if t < m {
                            assert(nodes[cs[t] as int].parent == p);
                        }
                    }
                    assert(node_ok(r, i));
                },
                _ => {
                    assert(node_ok(r, i));
                },
            }
        }
    }
}

/// Extend the child list of a listing node by reference `idx` at position
/// `t`, leaving everything else of the node unchanged.
fn list_insert(node: &mut JsonNode, t: usize, idx: usize)
    requires
        old(node)@.variant.is_listing(),
        t <= old(node)@.variant.children().len(),
    ensures
        final(node)@.parent == old(node)@.parent,
        final(node)@.left == old(node)@.left,
        final(node)@.right == old(node)@.right,
        final(node)@.variant == (if old(node)@.variant is Array {
            VariantModel::Array(old(node)@.variant.children().insert(t as int, idx))
        } else {
            VariantModel::Object(old(node)@.variant.children().insert(t as int, idx))
        }),
{
    match &mut node.variant {
        JsonVariant::Array(cs) => {
            cs.insert(t, idx);
        },
        JsonVariant::Object(cs) => {
            cs.insert(t, idx);
        },
        _ => {},
    }
}

/// Point an entry node at a new value reference, keeping its key.
fn set_entry_value(node: &mut JsonNode, v: usize)
    requires
        old(node)@.variant is Entry,
    ensures
        final(node)@ == (NodeModel {
            variant: (VariantModel::Entry { key: old(node)@.variant->Entry_key, value: v }),
            ..old(node)@
        }),
{
    match &mut node.variant {
        JsonVariant::ObjectEntry(_, val) => {
            *val = v;
        },
        _ => {},
    }
}

/// Scan the child list of `p` for `target`, returning its position, or
/// `None` when `p` has no child list or does not list it.
fn find_child(nodes: &Vec<JsonNode>, p: usize, target: usize) -> (r: Option<usize>)
    requires
        p < nodes@.len(),
    ensures
        ({
            let cs = arena(nodes@)[p as int].variant.children();
            match r {
                Some(pos) => pos < cs.len() && cs.len() <= usize::MAX && cs[pos as int]
                    == target,
                None => !cs.contains(target),
            }
        }),
{
    match &nodes[p].variant {
        JsonVariant::Array(cs) => {
            let mut k: usize = 0;
            while k < cs.len()
                invariant
                    k <= cs@.len(),
                    p < nodes@.len(),
                    arena(nodes@)[p as int].variant.children() == cs@,
                    forall|q: int| 0 <= q < k ==> cs@[q] != target,
                decreases cs@.len() - k,
            {
                if cs[k] == target {
                    return Some(k);
                }
                k += 1;
            }
            None
        },
        JsonVariant::Object(cs) => {
            let mut k: usize = 0;
            while k < cs.len()
                invariant
                    k <= cs@.len(),
                    p < nodes@.len(),
                    arena(nodes@)[p as int].variant.children() == cs@,
                    forall|q: int| 0 <= q < k ==> cs@[q] != target,
                decreases cs@.len() - k,
            {
                if cs[k] == target {
                    return Some(k);
                }
                k += 1;
            }
            None
        },
        _ => None,
    }
}

/// Append and thread a new child at position `t` under the listing node
/// `p`, returning the new child's reference (under an `Object`, the entry's).
pub(crate) fn insert_child(nodes: &mut Vec<JsonNode>, p: usize, t: usize) -> (idx: usize)
    requires
        nodes_ok(arena(old(nodes)@)),
        p < old(nodes)@.len(),
        arena(old(nodes)@)[p as int].variant.is_listing(),
        t <= arena(old(nodes)@)[p as int].variant.children().len(),
    ensures
        arena(final(nodes)@) == insert_child_m(arena(old(nodes)@), p, t as int),
        nodes_ok(arena(final(nodes)@)),
        idx == old(nodes)@.len(),
        final(nodes)@.len() > old(nodes)@.len(),
{
    let ghost nodes0 = arena(nodes@);
    proof {
        assert(node_ok(nodes0, p as int));
    }
    let idx = nodes.len();
    let is_array = matches!(&nodes[p].variant, JsonVariant::Array(_));
    let (m, lf, rt) = match &nodes[p].variant {
        JsonVariant::Array(cs) => (
            cs.len(),
            if t == 0 {
                p
            } else {
                cs[t - 1]
            },
            if t == cs.len() {
                p
            } else {
                cs[t]
            },
        ),
        JsonVariant::Object(cs) => (
            cs.len(),
            if t == 0 {
                p
            } else {
                cs[t - 1]
            },
            if t == cs.len() {
                p
            } else {
                cs[t]
            },
        ),
        _ => (0, p, p),
    };
    proof {
        if t > 0 {
            assert(in_list_ok(nodes0, p, nodes0[p as int].variant.children(), t as int - 1));
        }
        if (t as int) < m {
            assert(in_list_ok(nodes0, p, nodes0[p as int].variant.children(), t as int));
        }
    }
    list_insert(&mut nodes[p], t, idx);
    if t != 0 {
        nodes[lf].right = idx;
    }
    if t != m {
        nodes[rt].left = idx;
    }
    if is_array {
        nodes.push(JsonNode { variant: JsonVariant::Null, parent: p, left: lf, right: rt });
    } else {
        nodes.push(
            JsonNode {
                variant: JsonVariant::ObjectEntry(String::new(), 0),
                parent: p,
                left: lf,
                right: rt,
            },
        );
        let value_idx = nodes.len();
        nodes.push(JsonNode { variant: JsonVariant::Null, parent: idx, left: idx, right: idx });
        set_entry_value(&mut nodes[idx], value_idx);
        proof {
            assert(nodes0.len() + 1 == value_idx);
        }
    }
    proof {
        assert(arena(nodes@) =~~= insert_child_m(nodes0, p, t as int));
        lemma_insert_child_ok(nodes0, p, t as int);
    }
    idx
}

/// Where an insertion operation places its new node relative to each
/// selected node.
#[derive(Clone, Copy, Debug, PartialEq, Eq)]
pub enum InsertPlace {
    FirstChild,
    Before,
    After,
}

/// Insertion of a sibling next to `s`, on the model: a no-op when `s` is a
/// root, or when its parent keeps no child list, or does not list it (a
/// node cut loose by an earlier destructive conversion). `off` is 0 to
/// insert before `s`, 1 to insert after it.
pub open spec fn sibling_insert(nodes: Seq<NodeModel>, s: usize, off: int) -> (
    Seq<NodeModel>,
    usize,
) {
    let p = nodes[s as int].parent;
    let pv = nodes[p as int].variant;
    if p != s && pv.is_listing() && pv.children().contains(s) {
        (insert_child_m(nodes, p, pv.children().index_of(s) + off), nodes.len() as usize)
    } else {
        (nodes, s)
    }
}

/// The per-selection transform of the insertion operations: the new arena
/// and the reference the cursor moves to (the fresh node, or the unchanged
/// selection on a no-op).
pub open spec fn new_child_one(nodes: Seq<NodeModel>, s: usize, place: InsertPlace) -> (
    Seq<NodeModel>,
    usize,
) {
    match place {
        InsertPlace::FirstChild => {
            if nodes[s as int].variant.is_listing() {
                (insert_child_m(nodes, s, 0), nodes.len() as usize)
            } else {
                (nodes, s)
            }
        },
        InsertPlace::Before => sibling_insert(nodes, s, 0),
        InsertPlace::After => sibling_insert(nodes, s, 1),
    }
}

/// The fold of an insertion operation over the whole selection list, each
/// cursor transformed against the arena its predecessors left behind.
pub open spec fn new_child_all(nodes: Seq<NodeModel>, sels: Seq<usize>, place: InsertPlace) -> (
    Seq<NodeModel>,
    Seq<usize>,
)
    decreases sels.len(),
{
    if sels.len() == 0 {
        (nodes, Seq::empty())
    } else {
        let (n1, x) = new_child_one(nodes, sels[0], place);
        let (n2, xs) = new_child_all(n1, sels.drop_first(), place);
        (n2, seq![x] + xs)
    }
}

/// Apply one insertion step for the cursor on `s`, returning the new
/// cursor reference.
fn step_insert(nodes: &mut Vec<JsonNode>, s: usize, place: InsertPlace) -> (r: usize)
    requires
        nodes_ok(arena(old(nodes)@)),
        s < old(nodes)@.len(),
    ensures
        arena(final(nodes)@) == new_child_one(arena(old(nodes)@), s, place).0,
        r == new_child_one(arena(old(nodes)@), s, place).1,
        nodes_ok(arena(final(nodes)@)),
        old(nodes)@.len() <= final(nodes)@.len(),
        r < final(nodes)@.len(),
{
    match place {
        InsertPlace::FirstChild => {
            let is_listing = matches!(
                &nodes[s].variant,
                JsonVariant::Array(_) | JsonVariant::Object(_)
            );
            if is_listing {
                insert_child(nodes, s, 0)
            } else {
                s
            }
        },
        InsertPlace::Before | InsertPlace::After => {
            let p = nodes[s].parent;
            proof {
                assert(node_ok(arena(nodes@), s as int));
            }
            if p == s {
                return s;
            }
            let is_listing = matches!(
                &nodes[p].variant,
                JsonVariant::Array(_) | JsonVariant::Object(_)
            );
            if !is_listing {
                return s;
            }
            match find_child(nodes, p, s) {
                Some(pos) => {
                    proof {
                        let nodes0 = arena(nodes@);
                        let cs = nodes0[p as int].variant.children();
                        assert(cs[pos as int] == s);
                        assert(cs.contains(s));
                        let ci = cs.index_of(s);
                        assert(0 <= ci < cs.len() && cs[ci] == s);
                        assert(node_ok(nodes0, p as int));
                        assert(ci == pos as int) by {
                            if ci < pos as int {
                                assert(cs[ci] != cs[pos as int]);
                            } else if ci > pos as int {
                                assert(cs[pos as int] != cs[ci]);
                            }
                        }
                    }
                    let t = if matches!(place, InsertPlace::After) {
                        pos + 1
                    } else {
                        pos
                    };
                    insert_child(nodes, p, t)
                },
                None => s,
            }
        },
    }
}

impl JsonBuffer {
    /// Run one insertion operation over every cursor, in selection order,
    /// each against the arena as its predecessors left it.
    fn insert_for_each(&mut self, place: InsertPlace)
        requires
            old(self).wf(),
        ensures
            final(self).wf(),
            final(self)@.nodes == new_child_all(old(self)@.nodes, old(self)@.selections, place).0,
            final(self)@.selections == new_child_all(
                old(self)@.nodes,
                old(self)@.selections,
                place,
            ).1,
            final(self)@.mode == old(self)@.mode,
            final(self)@.selections.len() == old(self)@.selections.len(),
    {
        let ghost orig = self@;
        let ghost full = new_child_all(orig.nodes, orig.selections, place);
        let mut new_sels: Vec<usize> = Vec::new();
        proof {
            assert(orig.selections.subrange(0, orig.selections.len() as int) =~= orig.selections);
            assert(new_sels@ + full.1 =~= full.1);
        }
        let mut j: usize = 0;
        while j < self.selections.len()
            invariant
                self.selections == old(self).selections,
                self.mode == old(self).mode,
                orig == old(self)@,
                full == new_child_all(orig.nodes, orig.selections, place),
                j <= self.selections@.len(),
                new_sels@.len() == j,
                nodes_ok(self@.nodes),
                orig.nodes.len() <= self@.nodes.len(),
                sels_ok(self@.nodes, self@.selections),
                sels_ok(self@.nodes, new_sels@),
                new_child_all(
                    self@.nodes,
                    self@.selections.subrange(j as int, self@.selections.len() as int),
                    place,
                ).0 == full.0,
                new_sels@ + new_child_all(
                    self@.nodes,
                    self@.selections.subrange(j as int, self@.selections.len() as int),
                    place,
                ).1 == full.1,
            decreases self.selections@.len() - j,
        {
            let ghost pre = self@.nodes;
            let ghost sl = self@.selections;
            let s = self.selections[j];
            let r = step_insert(&mut self.nodes, s, place);
            new_sels.push(r);
            proof {
                assert(sl.subrange(j as int, sl.len() as int)[0] == sl[j as int]);
                assert(sl.subrange(j as int, sl.len() as int).drop_first() =~= sl.subrange(
                    j as int + 1,
                    sl.len() as int,
                ));
                let rest = new_child_all(
                    self@.nodes,
                    sl.subrange(j as int + 1, sl.len() as int),
                    place,
                );
                assert((new_sels@.drop_last() + seq![r]) + rest.1 =~= new_sels@.drop_last() + (
                seq![r] + rest.1));
                assert(new_sels@.drop_last() =~= new_sels@.subrange(0, j as int));
                assert forall|q: int| 0 <= q < new_sels@.len() implies (#[trigger] new_sels@[q])
                    < self@.nodes.len() by {}
            }
            j += 1;
        }
        proof {
            assert(self@.selections.subrange(
                self@.selections.len() as int,
                self@.selections.len() as int,
            ) =~= Seq::<usize>::empty());
            assert(new_sels@ + Seq::<usize>::empty() =~= new_sels@);
        }
        self.selections = new_sels;
    }

    /// For each selected listing node, thread a fresh first child into its
    /// ring (a `Null` under an `Array`, a keyless entry with a fresh `Null`
    /// value under an `Object`) and move the cursor to it; every other
    /// cursor stays put.
    pub fn new_first_child(&mut self)
        requires
            old(self).wf(),
        ensures
            final(self).wf(),
            final(self)@.nodes == new_child_all(
                old(self)@.nodes,
                old(self)@.selections,
                InsertPlace::FirstChild,
            ).0,
            final(self)@.selections == new_child_all(
                old(self)@.nodes,
                old(self)@.selections,
                InsertPlace::FirstChild,
            ).1,
            final(self)@.mode == old(self)@.mode,
            final(self)@.selections.len() == old(self)@.selections.len(),
    {
        self.insert_for_each(InsertPlace::FirstChild)
    }

    /// For each selected node with a listing parent, thread a fresh sibling
    /// into the ring immediately before it and move the cursor to the new
    /// node; cursors on roots and on nodes without a listing parent stay
    /// put.
    pub fn new_up_sibling(&mut self)
        requires
            old(self).wf(),
        ensures
            final(self).wf(),
            final(self)@.nodes == new_child_all(
                old(self)@.nodes,
                old(self)@.selections,
                InsertPlace::Before,
            ).0,
            final(self)@.selections == new_child_all(
                old(self)@.nodes,
                old(self)@.selections,
                InsertPlace::Before,
            ).1,
            final(self)@.mode == old(self)@.mode,
            final(self)@.selections.len() == old(self)@.selections.len(),
    {
        self.insert_for_each(InsertPlace::Before)
    }

    /// For each selected node with a listing parent, thread a fresh sibling
    /// into the ring immediately after it and move the cursor to the new
    /// node; cursors on roots and on nodes without a listing parent stay
    /// put.
    pub fn new_down_sibling(&mut self)
        requires
            old(self).wf(),
        ensures
            final(self).wf(),
            final(self)@.nodes == new_child_all(
                old(self)@.nodes,
                old(self)@.selections,
                InsertPlace::After,
            ).0,
            final(self)@.selections == new_child_all(
                old(self)@.nodes,
                old(self)@.selections,
                InsertPlace::After,
            ).1,
            final(self)@.mode == old(self)@.mode,
            final(self)@.selections.len() == old(self)@.selections.len(),
    {
        self.insert_for_each(InsertPlace::After)
    }
}

} // verus!

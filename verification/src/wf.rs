//! The linkage invariant of a document arena.
//!
//! Well-formedness is stated per node, downward: every listing node's child
//! list mirrors the sibling ring, every entry's value sits in a singleton
//! ring under the entry, and a root (a node that is its own parent) has
//! self links. Nodes cut loose by a destructive conversion keep coherent
//! links of their own, so no upward ownership clause is demanded.

use vstd::prelude::*;

use crate::node::NodeModel;
use crate::node::VariantModel;

verus! {

/// Position `k` of child list `cs` under parent `p` is coherently linked:
/// the child exists, points back at `p`, and its `left`/`right` mirror the
/// list order, closing the ring at `p` on both ends.
pub open spec fn in_list_ok(nodes: Seq<NodeModel>, p: usize, cs: Seq<usize>, k: int) -> bool {
    &&& cs[k] < nodes.len()
    &&& cs[k] != p
    &&& nodes[cs[k] as int].parent == p
    &&& nodes[cs[k] as int].left == (if k == 0 { p } else { cs[k - 1] })
    &&& nodes[cs[k] as int].right == (if k == cs.len() - 1 { p } else { cs[k + 1] })
}

/// The whole child list of `p` is coherently linked and duplicate-free.
pub open spec fn list_ok(nodes: Seq<NodeModel>, p: usize, cs: Seq<usize>) -> bool {
    &&& forall|k: int| 0 <= k < cs.len() ==> #[trigger] in_list_ok(nodes, p, cs, k)
    &&& forall|k1: int, k2: int| 0 <= k1 < k2 < cs.len() ==> cs[k1] != cs[k2]
}

/// Node `i` satisfies the invariant: links in range, self links if it is a
/// root, its child list coherent if it is a listing node, and its value in
/// a singleton ring if it is an entry.
pub open spec fn node_ok(nodes: Seq<NodeModel>, i: int) -> bool {
    let nd = nodes[i];
    &&& nd.parent < nodes.len()
    &&& nd.left < nodes.len()
    &&& nd.right < nodes.len()
    &&& (nd.parent == i ==> nd.left == i && nd.right == i)
    &&& match nd.variant {
        VariantModel::Entry { key: _, value: v } => {
            &&& v < nodes.len()
            &&& v != i
            &&& nodes[v as int].parent == i
            &&& nodes[v as int].left == i
            &&& nodes[v as int].right == i
        },
        VariantModel::Array(cs) => list_ok(nodes, i as usize, cs),
        VariantModel::Object(cs) => list_ok(nodes, i as usize, cs),
        _ => true,
    }
}

/// Every node of the arena satisfies the invariant.
pub open spec fn nodes_ok(nodes: Seq<NodeModel>) -> bool {
    forall|i: int| 0 <= i < nodes.len() ==> #[trigger] node_ok(nodes, i)
}

/// Every selection refers into the arena.
pub open spec fn sels_ok(nodes: Seq<NodeModel>, sels: Seq<usize>) -> bool {
    forall|j: int| 0 <= j < sels.len() ==> (#[trigger] sels[j]) < nodes.len()
}

/// Replacing only the variant of one node preserves the invariant, as long
/// as the new variant either takes over the obligations of the old one (an
/// entry keeping its value, a listing keeping its list) or has none (a leaf
/// or an empty listing).
pub proof fn lemma_update_variant_ok(nodes: Seq<NodeModel>, s: int, v2: VariantModel)
    requires
        nodes_ok(nodes),
        0 <= s < nodes.len(),
        v2 is Entry ==> nodes[s].variant == (VariantModel::Entry {
            key: nodes[s].variant->Entry_key,
            value: v2->Entry_value,
        }),
        v2.is_listing() ==> v2.children() =~= nodes[s].variant.children() || v2.children()
            =~= Seq::<usize>::empty(),
    ensures
        nodes_ok(nodes.update(s, (NodeModel { variant: v2, ..nodes[s] }))),
{
    let r = nodes.update(s, NodeModel { variant: v2, ..nodes[s] });
    assert forall|i: int| 0 <= i < r.len() implies #[trigger] node_ok(r, i) by {
        assert(node_ok(nodes, i));
        // Only the variant of `s` differs; every link field of every node is
        // unchanged, so the list and entry clauses of untouched nodes carry
        // over, and the new variant's own obligations follow from the old
        // node's, which covered the same child or value references.
        if i == s {
            match v2 {
                VariantModel::Entry { key: _, value: v } => {
                    assert(node_ok(nodes, s));
                },
                VariantModel::Array(cs) => {
                    if cs =~= nodes[s].variant.children() {
                        assert forall|k: int| 0 <= k < cs.len() implies #[trigger] in_list_ok(
                            r,
                            s as usize,
                            cs,
                            k,
                        ) by {
                            assert(in_list_ok(nodes, s as usize, nodes[s].variant.children(), k));
                        }
                    }
                },
                VariantModel::Object(cs) => {
                    if cs =~= nodes[s].variant.children() {
                        assert forall|k: int| 0 <= k < cs.len() implies #[trigger] in_list_ok(
                            r,
                            s as usize,
                            cs,
                            k,
                        ) by {
                            assert(in_list_ok(nodes, s as usize, nodes[s].variant.children(), k));
                        }
                    }
                },
                _ => {},
            }
        } else {
            match r[i].variant {
                VariantModel::Entry { key: _, value: v } => {},
                VariantModel::Array(cs) => {
                    assert forall|k: int| 0 <= k < cs.len() implies #[trigger] in_list_ok(
                        r,
                        i as usize,
                        cs,
                        k,
                    ) by {
                        assert(in_list_ok(nodes, i as usize, cs, k));
                    }
                },
                VariantModel::Object(cs) => {
                    assert forall|k: int| 0 <= k < cs.len() implies #[trigger] in_list_ok(
                        r,
                        i as usize,
                        cs,
                        k,
                    ) by {
                        assert(in_list_ok(nodes, i as usize, cs, k));
                    }
                },
                _ => {},
            }
        }
    }
}

} // verus!

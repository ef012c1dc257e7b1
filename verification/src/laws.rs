//! The general laws of the document model, proved once and for all: the
//! ring invariant read off by link-following, preservation of the cursor
//! count, idempotence of the conversions, and navigation round trips.

use vstd::prelude::*;

use crate::buffer::BufferModel;
use crate::buffer::fanout;
use crate::buffer::fanout_all;
use crate::buffer::select_down_m;
use crate::buffer::select_first_child_m;
use crate::buffer::select_parent_m;
use crate::buffer::select_up_m;
use crate::convert::objectify_all;
use crate::convert::objectify_one;
use crate::convert::stringify_all;
use crate::convert::stringify_one;
use crate::insert::InsertPlace;
use crate::insert::new_child_all;
use crate::insert::new_child_one;
use crate::node::NodeModel;
use crate::wf::in_list_ok;
use crate::wf::node_ok;
use crate::wf::nodes_ok;

verus! {

/// The reference reached from `from` by following `right` links `steps`
/// times.
pub open spec fn follow_right(nodes: Seq<NodeModel>, from: usize, steps: nat) -> usize
    decreases steps,
{
    if steps == 0 {
        from
    } else {
        let prev = follow_right(nodes, from, (steps - 1) as nat);
        nodes[prev as int].right
    }
}

/// The reference reached from `from` by following `left` links `steps`
/// times.
pub open spec fn follow_left(nodes: Seq<NodeModel>, from: usize, steps: nat) -> usize
    decreases steps,
{
    if steps == 0 {
        from
    } else {
        let prev = follow_left(nodes, from, (steps - 1) as nat);
        nodes[prev as int].left
    }
}

/// Ring invariant, rightward: under the invariant, the child list of a
/// listing node is exactly what `right`-following enumerates, starting
/// from the leftmost child (the one whose `left` is the parent), and one
/// more step from the last child closes the ring at the parent.
pub proof fn lemma_ring_right(nodes: Seq<NodeModel>, p: usize, k: int)
    requires
        nodes_ok(nodes),
        p < nodes.len(),
        nodes[p as int].variant.is_listing(),
        0 <= k < nodes[p as int].variant.children().len(),
    ensures
        follow_right(nodes, nodes[p as int].variant.children()[0], k as nat) == nodes[p as int].variant.children()[k],
        nodes[nodes[p as int].variant.children()[0] as int].left == p,
        k == nodes[p as int].variant.children().len() - 1 ==> nodes[nodes[p as int].variant.children()[k] as int].right == p,
    decreases k,
{
    let cs = nodes[p as int].variant.children();
    assert(node_ok(nodes, p as int));
    assert(in_list_ok(nodes, p, cs, 0));
    assert(in_list_ok(nodes, p, cs, k));
    if k > 0 {
        lemma_ring_right(nodes, p, k - 1);
        assert(in_list_ok(nodes, p, cs, k - 1));
    }
}

/// Ring invariant, leftward: `left`-following from the rightmost child
/// (the one whose `right` is the parent) enumerates the child list in
/// reverse, and one more step from the first child closes the ring at the
/// parent.
pub proof fn lemma_ring_left(nodes: Seq<NodeModel>, p: usize, k: int)
    requires
        nodes_ok(nodes),
        p < nodes.len(),
        nodes[p as int].variant.is_listing(),
        0 <= k < nodes[p as int].variant.children().len(),
    ensures
        follow_left(
            nodes,
            nodes[p as int].variant.children()[nodes[p as int].variant.children().len() - 1],
            k as nat,
        ) == nodes[p as int].variant.children()[nodes[p as int].variant.children().len() - 1 - k],
        nodes[nodes[p as int].variant.children()[nodes[p as int].variant.children().len()
            - 1] as int].right == p,
        k == nodes[p as int].variant.children().len() - 1 ==> nodes[nodes[p as int].variant.children()[0] as int].left == p,
    decreases k,
{
    let cs = nodes[p as int].variant.children();
    let m = cs.len() as int;
    assert(node_ok(nodes, p as int));
    assert(in_list_ok(nodes, p, cs, m - 1));
    assert(in_list_ok(nodes, p, cs, m - 1 - k));
    if k > 0 {
        lemma_ring_left(nodes, p, k - 1);
        assert(in_list_ok(nodes, p, cs, m - k));
    }
}

/// Navigation round trip: away from the ring ends, `select_down` then
/// `select_up` returns a cursor to the child it started on, and so does
/// `select_up` then `select_down`; at the ends, the step beyond the list
/// lands on the parent instead.
pub proof fn lemma_round_trip(nodes: Seq<NodeModel>, p: usize, k: int)
    requires
        nodes_ok(nodes),
        p < nodes.len(),
        nodes[p as int].variant.is_listing(),
        0 <= k < nodes[p as int].variant.children().len(),
    ensures
        k < nodes[p as int].variant.children().len() - 1 ==> nodes[nodes[nodes[p as int].variant.children()[k] as int].right as int].left == nodes[p as int].variant.children()[k],
        k > 0 ==> nodes[nodes[nodes[p as int].variant.children()[k] as int].left as int].right
            == nodes[p as int].variant.children()[k],
        k == 0 ==> nodes[nodes[p as int].variant.children()[k] as int].left == p,
        k == nodes[p as int].variant.children().len() - 1 ==> nodes[nodes[p as int].variant.children()[k] as int].right == p,
{
    let cs = nodes[p as int].variant.children();
    assert(node_ok(nodes, p as int));
    assert(in_list_ok(nodes, p, cs, k));
    if k > 0 {
        assert(in_list_ok(nodes, p, cs, k - 1));
    }
    if k < cs.len() - 1 {
        assert(in_list_ok(nodes, p, cs, k + 1));
    }
}

/// The singleton-ring round trip of an entry's value: both links lead to
/// the entry, which is its parent.
pub proof fn lemma_entry_round_trip(nodes: Seq<NodeModel>, e: usize)
    requires
        nodes_ok(nodes),
        e < nodes.len(),
        nodes[e as int].variant is Entry,
    ensures
        nodes[nodes[e as int].variant->Entry_value as int].left == e,
        nodes[nodes[e as int].variant->Entry_value as int].right == e,
        nodes[nodes[e as int].variant->Entry_value as int].parent == e,
{
    assert(node_ok(nodes, e as int));
}

/// The four cursor-per-cursor navigation operations keep the cursor count.
pub proof fn lemma_navigation_count(m: BufferModel)
    ensures
        select_up_m(m).selections.len() == m.selections.len(),
        select_down_m(m).selections.len() == m.selections.len(),
        select_parent_m(m).selections.len() == m.selections.len(),
        select_first_child_m(m).selections.len() == m.selections.len(),
{
}

/// The insertion operations keep the cursor count: every cursor maps to
/// exactly one reference, fresh or unchanged.
pub proof fn lemma_insert_count(nodes: Seq<NodeModel>, sels: Seq<usize>, place: InsertPlace)
    ensures
        new_child_all(nodes, sels, place).1.len() == sels.len(),
    decreases sels.len(),
{
    if sels.len() > 0 {
        let (n1, x) = new_child_one(nodes, sels[0], place);
        lemma_insert_count(n1, sels.drop_first(), place);
    }
}

/// The cursor fan-out of one node under `select_all_children`: one cursor
/// for a leaf or an entry, one per child for a listing node.
pub proof fn lemma_fanout_size(nodes: Seq<NodeModel>, s: usize)
    ensures
        fanout(nodes, s).len() == (if nodes[s as int].variant.is_listing() {
            nodes[s as int].variant.children().len()
        } else {
            1
        }),
{
}

/// The running count of `fanout_all`, selection by selection.
pub open spec fn fanout_count(nodes: Seq<NodeModel>, sels: Seq<usize>) -> int
    decreases sels.len(),
{
    if sels.len() == 0 {
        0
    } else {
        fanout_count(nodes, sels.drop_last()) + fanout(nodes, sels.last()).len()
    }
}

/// `select_all_children` changes the cursor count by exactly the sum of
/// the per-cursor fan-outs.
pub proof fn lemma_fanout_count(nodes: Seq<NodeModel>, sels: Seq<usize>)
    ensures
        fanout_all(nodes, sels).len() == fanout_count(nodes, sels),
    decreases sels.len(),
{
    if sels.len() > 0 {
        lemma_fanout_count(nodes, sels.drop_last());
    }
}

/// `objectify` is a no-op on a node that is already an `Object` or an
/// entry.
pub proof fn lemma_objectify_idempotent(nodes: Seq<NodeModel>, s: usize)
    requires
        s < nodes.len(),
        nodes[s as int].variant is Object || nodes[s as int].variant is Entry,
    ensures
        objectify_one(nodes, s) == nodes,
{
}

/// `stringify` is a no-op on a node that is already a `String` or an
/// entry.
pub proof fn lemma_stringify_idempotent(nodes: Seq<NodeModel>, s: usize)
    requires
        s < nodes.len(),
        nodes[s as int].variant is Text || nodes[s as int].variant is Entry,
    ensures
        stringify_one(nodes, s) == nodes,
{
    assert(stringify_one(nodes, s) =~= nodes);
}

/// A whole `objectify` call leaves the arena untouched when every cursor
/// stands on an `Object` or an entry.
pub proof fn lemma_objectify_all_idempotent(nodes: Seq<NodeModel>, sels: Seq<usize>)
    requires
        forall|j: int|
            0 <= j < sels.len() ==> (#[trigger] sels[j]) < nodes.len() && (nodes[sels[j] as int].variant is Object || nodes[sels[j] as int].variant is Entry),
    ensures
        objectify_all(nodes, sels) == nodes,
    decreases sels.len(),
{
    if sels.len() > 0 {
        lemma_objectify_idempotent(nodes, sels[0]);
        assert forall|j: int| 0 <= j < sels.drop_first().len() implies (#[trigger] sels.drop_first()[j])
            < nodes.len() && (nodes[sels.drop_first()[j] as int].variant is Object || nodes[sels.drop_first()[j] as int].variant is Entry) by {
            assert(sels.drop_first()[j] == sels[j + 1]);
        }
        lemma_objectify_all_idempotent(nodes, sels.drop_first());
    }
}

/// A whole `stringify` call leaves the arena untouched when every cursor
/// stands on a `String` or an entry.
pub proof fn lemma_stringify_all_idempotent(nodes: Seq<NodeModel>, sels: Seq<usize>)
    requires
        forall|j: int|
            0 <= j < sels.len() ==> (#[trigger] sels[j]) < nodes.len() && (nodes[sels[j] as int].variant is Text || nodes[sels[j] as int].variant is Entry),
    ensures
        stringify_all(nodes, sels) == nodes,
    decreases sels.len(),
{
    if sels.len() > 0 {
        lemma_stringify_idempotent(nodes, sels[0]);
        assert forall|j: int| 0 <= j < sels.drop_first().len() implies (#[trigger] sels.drop_first()[j])
            < nodes.len() && (nodes[sels.drop_first()[j] as int].variant is Text || nodes[sels.drop_first()[j] as int].variant is Entry) by {
            assert(sels.drop_first()[j] == sels[j + 1]);
        }
        lemma_stringify_all_idempotent(nodes, sels.drop_first());
    }
}

} // verus!

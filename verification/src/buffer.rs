//! The document buffer: the node arena, the multi-cursor selection list and
//! the edit mode, together with the navigation operations.
//!
//! Navigation never touches the arena: each operation maps every cursor to
//! a new reference. All but `select_all_children` keep the cursor count;
//! that one replaces each cursor by the full child fan-out of its node.

use vstd::prelude::*;

use crate::node::JsonBufferMode;
use crate::node::JsonNode;
use crate::node::JsonVariant;
use crate::node::NodeModel;
use crate::node::VariantModel;
use crate::node::arena;
use crate::wf::node_ok;
use crate::wf::nodes_ok;
use crate::wf::in_list_ok;
use crate::wf::list_ok;
use crate::wf::sels_ok;

verus! {

/// A JSON document under edit.
pub struct JsonBuffer {
    pub nodes: Vec<JsonNode>,
    pub selections: Vec<usize>,
    pub mode: JsonBufferMode,
}

/// Model of a whole buffer.
#[verifier::ext_equal]
pub struct BufferModel {
    pub nodes: Seq<NodeModel>,
    pub selections: Seq<usize>,
    pub mode: JsonBufferMode,
}

impl View for JsonBuffer {
    type V = BufferModel;

    open spec fn view(&self) -> BufferModel {
        BufferModel {
            nodes: arena(self.nodes@),
            selections: self.selections@,
            mode: self.mode,
        }
    }
}

/// The reference a cursor on `s` moves to under `select_first_child`: an
/// entry descends to its value, a non-empty listing to its first child,
/// and anything else stays put.
pub open spec fn first_child_target(nodes: Seq<NodeModel>, s: usize) -> usize {
    match nodes[s as int].variant {
        VariantModel::Entry { key: _, value: v } => v,
        VariantModel::Array(cs) => if cs.len() > 0 {
            cs[0]
        } else {
            s
        },
        VariantModel::Object(cs) => if cs.len() > 0 {
            cs[0]
        } else {
            s
        },
        _ => s,
    }
}

/// The cursor fan-out of `select_all_children` at one node: a leaf keeps
/// its single cursor, an entry moves it to the value, a listing replaces it
/// by all children in order (possibly none).
pub open spec fn fanout(nodes: Seq<NodeModel>, s: usize) -> Seq<usize> {
    match nodes[s as int].variant {
        VariantModel::Entry { key: _, value: v } => seq![v],
        VariantModel::Array(cs) => cs,
        VariantModel::Object(cs) => cs,
        _ => seq![s],
    }
}

/// The concatenated fan-out of a whole selection list, in selection order.
pub open spec fn fanout_all(nodes: Seq<NodeModel>, sels: Seq<usize>) -> Seq<usize>
    decreases sels.len(),
{
    if sels.len() == 0 {
        Seq::empty()
    } else {
        fanout_all(nodes, sels.drop_last()) + fanout(nodes, sels.last())
    }
}

/// Model transform of `select_up`.
pub open spec fn select_up_m(m: BufferModel) -> BufferModel {
    BufferModel {
        selections: Seq::new(m.selections.len(), |j: int| m.nodes[m.selections[j] as int].left),
        ..m
    }
}

/// Model transform of `select_down`.
pub open spec fn select_down_m(m: BufferModel) -> BufferModel {
    BufferModel {
        selections: Seq::new(m.selections.len(), |j: int| m.nodes[m.selections[j] as int].right),
        ..m
    }
}

/// Model transform of `select_parent`.
pub open spec fn select_parent_m(m: BufferModel) -> BufferModel {
    BufferModel {
        selections: Seq::new(m.selections.len(), |j: int| m.nodes[m.selections[j] as int].parent),
        ..m
    }
}

/// Model transform of `select_first_child`.
pub open spec fn select_first_child_m(m: BufferModel) -> BufferModel {
    BufferModel {
        selections: Seq::new(
            m.selections.len(),
            |j: int| first_child_target(m.nodes, m.selections[j]),
        ),
        ..m
    }
}

/// Model transform of `select_all_children`.
pub open spec fn select_all_children_m(m: BufferModel) -> BufferModel {
    BufferModel { selections: fanout_all(m.nodes, m.selections), ..m }
}

impl JsonBuffer {
    /// The document invariant: every node coherently linked, every cursor
    /// inside the arena.
    pub open spec fn wf(self) -> bool {
        &&& nodes_ok(self@.nodes)
        &&& sels_ok(self@.nodes, self@.selections)
    }

    /// A fresh document: a single root `Null` in a self-ring, one cursor
    /// on it, `Normal` mode.
    pub fn new() -> (b: JsonBuffer)
        ensures
            b.wf(),
            b@.nodes == seq![
                NodeModel { variant: VariantModel::Null, parent: 0usize, left: 0usize, right: 0usize },
            ],
            b@.selections == seq![0usize],
            b@.mode == JsonBufferMode::Normal,
    {
        let mut nodes: Vec<JsonNode> = Vec::new();
        nodes.push(JsonNode { variant: JsonVariant::Null, parent: 0, left: 0, right: 0 });
        let mut selections: Vec<usize> = Vec::new();
        selections.push(0);
        let b = JsonBuffer { nodes, selections, mode: JsonBufferMode::Normal };
        proof {
            assert(b@.nodes =~= seq![
                NodeModel { variant: VariantModel::Null, parent: 0usize, left: 0usize, right: 0usize },
            ]);
            assert(b@.selections =~= seq![0usize]);
            assert forall|i: int| 0 <= i < b@.nodes.len() implies #[trigger] node_ok(b@.nodes, i) by {}
        }
        b
    }

    /// Move every cursor to its `left` link: the previous sibling, or the
    /// parent when the cursor sits on a leftmost child or on a root.
    pub fn select_up(&mut self)
        requires
            old(self).wf(),
        ensures
            final(self).wf(),
            final(self)@ == select_up_m(old(self)@),
    {
        let ghost orig = self@;
        let mut new_sels: Vec<usize> = Vec::new();
        let mut j: usize = 0;
        while j < self.selections.len()
            invariant
                *self == *old(self),
                old(self).wf(),
                j <= self.selections@.len(),
                new_sels@.len() == j,
                forall|q: int| 0 <= q < j ==> new_sels@[q] == self@.nodes[self@.selections[q] as int].left,
            decreases self.selections@.len() - j,
        {
            let s = self.selections[j];
            proof {
                assert(node_ok(self@.nodes, s as int));
            }
            new_sels.push(self.nodes[s].left);
            j += 1;
        }
        self.selections = new_sels;
        proof {
            assert(self@ =~= select_up_m(orig));
            assert forall|q: int| 0 <= q < self@.selections.len() implies (#[trigger] self@.selections[q])
                < self@.nodes.len() by {
                assert(node_ok(self@.nodes, orig.selections[q] as int));
            }
        }
    }

    /// Move every cursor to its `right` link: the next sibling, or the
    /// parent when the cursor sits on a rightmost child or on a root.
    pub fn select_down(&mut self)
        requires
            old(self).wf(),
        ensures
            final(self).wf(),
            final(self)@ == select_down_m(old(self)@),
    {
        let ghost orig = self@;
        let mut new_sels: Vec<usize> = Vec::new();
        let mut j: usize = 0;
        while j < self.selections.len()
            invariant
                *self == *old(self),
                old(self).wf(),
                j <= self.selections@.len(),
                new_sels@.len() == j,
                forall|q: int| 0 <= q < j ==> new_sels@[q] == self@.nodes[self@.selections[q] as int].right,
            decreases self.selections@.len() - j,
        {
            let s = self.selections[j];
            proof {
                assert(node_ok(self@.nodes, s as int));
            }
            new_sels.push(self.nodes[s].right);
            j += 1;
        }
        self.selections = new_sels;
        proof {
            assert(self@ =~= select_down_m(orig));
            assert forall|q: int| 0 <= q < self@.selections.len() implies (#[trigger] self@.selections[q])
                < self@.nodes.len() by {
                assert(node_ok(self@.nodes, orig.selections[q] as int));
            }
        }
    }

    /// Move every cursor to its parent; a cursor on a root stays put.
    pub fn select_parent(&mut self)
        requires
            old(self).wf(),
        ensures
            final(self).wf(),
            final(self)@ == select_parent_m(old(self)@),
    {
        let ghost orig = self@;
        let mut new_sels: Vec<usize> = Vec::new();
        let mut j: usize = 0;
        while j < self.selections.len()
            invariant
                *self == *old(self),
                old(self).wf(),
                j <= self.selections@.len(),
                new_sels@.len() == j,
                forall|q: int| 0 <= q < j ==> new_sels@[q] == self@.nodes[self@.selections[q] as int].parent,
            decreases self.selections@.len() - j,
        {
            let s = self.selections[j];
            proof {
                assert(node_ok(self@.nodes, s as int));
            }
            new_sels.push(self.nodes[s].parent);
            j += 1;
        }
        self.selections = new_sels;
        proof {
            assert(self@ =~= select_parent_m(orig));
            assert forall|q: int| 0 <= q < self@.selections.len() implies (#[trigger] self@.selections[q])
                < self@.nodes.len() by {
                assert(node_ok(self@.nodes, orig.selections[q] as int));
            }
        }
    }

    /// Move every cursor one step down: an entry's cursor to its value, a
    /// non-empty listing's cursor to its first child; leaves and empty
    /// listings keep their cursor.
    pub fn select_first_child(&mut self)
        requires
            old(self).wf(),
        ensures
            final(self).wf(),
            final(self)@ == select_first_child_m(old(self)@),
    {
        let ghost orig = self@;
        let mut new_sels: Vec<usize> = Vec::new();
        let mut j: usize = 0;
        while j < self.selections.len()
            invariant
                *self == *old(self),
                old(self).wf(),
                j <= self.selections@.len(),
                new_sels@.len() == j,
                forall|q: int| 0 <= q < j ==> new_sels@[q] == first_child_target(
                    self@.nodes,
                    self@.selections[q],
                ),
            decreases self.selections@.len() - j,
        {
            let s = self.selections[j];
            proof {
                assert(node_ok(self@.nodes, s as int));
            }
            let t = match &self.nodes[s].variant {
                JsonVariant::ObjectEntry(_, v) => *v,
                JsonVariant::Array(cs) => {
                    if cs.len() > 0 {
                        cs[0]
                    } else {
                        s
                    }
                },
                JsonVariant::Object(cs) => {
                    if cs.len() > 0 {
                        cs[0]
                    } else {
                        s
                    }
                },
                _ => s,
            };
            new_sels.push(t);
            j += 1;
        }
        self.selections = new_sels;
        proof {
            assert(self@ =~= select_first_child_m(orig));
            assert forall|q: int| 0 <= q < self@.selections.len() implies (#[trigger] self@.selections[q])
                < self@.nodes.len() by {
                let s = orig.selections[q];
                assert(node_ok(self@.nodes, s as int));
                match self@.nodes[s as int].variant {
                    VariantModel::Array(cs) => {
                        if cs.len() > 0 {
                            assert(in_list_ok(self@.nodes, s, cs, 0));
                        }
                    },
                    VariantModel::Object(cs) => {
                        if cs.len() > 0 {
                            assert(in_list_ok(self@.nodes, s, cs, 0));
                        }
                    },
                    _ => {},
                }
            }
        }
    }

    /// Replace every cursor by its full child fan-out, concatenated in
    /// selection order: the one operation that may change the cursor count.
    pub fn select_all_children(&mut self)
        requires
            old(self).wf(),
        ensures
            final(self).wf(),
            final(self)@ == select_all_children_m(old(self)@),
    {
        let ghost orig = self@;
        let mut new_sels: Vec<usize> = Vec::new();
        let mut j: usize = 0;
        while j < self.selections.len()
            invariant
                *self == *old(self),
                old(self).wf(),
                j <= self.selections@.len(),
                new_sels@ == fanout_all(self@.nodes, self@.selections.take(j as int)),
            decreases self.selections@.len() - j,
        {
            let ghost pre = new_sels@;
            let s = self.selections[j];
            proof {
                assert(node_ok(self@.nodes, s as int));
            }
            match &self.nodes[s].variant {
                JsonVariant::ObjectEntry(_, v) => {
                    new_sels.push(*v);
                },
                JsonVariant::Array(cs) => {
                    let mut k: usize = 0;
                    while k < cs.len()
                        invariant
                            k <= cs@.len(),
                            new_sels@ == pre + cs@.take(k as int),
                        decreases cs@.len() - k,
                    {
                        new_sels.push(cs[k]);
                        proof {
                            assert(new_sels@ =~= pre + cs@.take(k as int + 1));
                        }
                        k += 1;
                    }
                    proof {
                        assert(cs@.take(cs@.len() as int) =~= cs@);
                    }
                },
                JsonVariant::Object(cs) => {
                    let mut k: usize = 0;
                    while k < cs.len()
                        invariant
                            k <= cs@.len(),
                            new_sels@ == pre + cs@.take(k as int),
                        decreases cs@.len() - k,
                    {
                        new_sels.push(cs[k]);
                        proof {
                            assert(new_sels@ =~= pre + cs@.take(k as int + 1));
                        }
                        k += 1;
                    }
                    proof {
                        assert(cs@.take(cs@.len() as int) =~= cs@);
                    }
                },
                _ => {
                    new_sels.push(s);
                },
            }
            proof {
                let sels = self@.selections;
                assert(sels.take(j as int + 1).drop_last() =~= sels.take(j as int));
                assert(sels.take(j as int + 1).last() == sels[j as int]);
                assert(new_sels@ =~= pre + fanout(self@.nodes, s));
            }
            j += 1;
        }
        self.selections = new_sels;
        proof {
            assert(orig.selections.take(orig.selections.len() as int) =~= orig.selections);
            assert(self@ =~= select_all_children_m(orig));
            lemma_fanout_all_bounds(orig.nodes, orig.selections);
        }
    }
}

/// Decide whether position `k` of the child list `cs` under `p` is
/// coherently linked, for every position.
fn check_list(nodes: &Vec<JsonNode>, p: usize, cs: &Vec<usize>) -> (r: bool)
    requires
        p < nodes@.len(),
    ensures
        r == list_ok(arena(nodes@), p, cs@),
{
    let ghost a = arena(nodes@);
    let n = nodes.len();
    let m = cs.len();
    let mut k: usize = 0;
    while k < m
        invariant
            n == nodes@.len(),
            p < n,
            m == cs@.len(),
            a == arena(nodes@),
            k <= m,
            forall|q: int| 0 <= q < k ==> #[trigger] in_list_ok(a, p, cs@, q),
        decreases m - k,
    {
        let c = cs[k];
        if c >= n || c == p {
            proof {
                assert(!in_list_ok(a, p, cs@, k as int));
            }
            return false;
        }
        if nodes[c].parent != p {
            proof {
                assert(!in_list_ok(a, p, cs@, k as int));
            }
            return false;
        }
        let want_left = if k == 0 {
            p
        } else {
            cs[k - 1]
        };
        if nodes[c].left != want_left {
            proof {
                assert(!in_list_ok(a, p, cs@, k as int));
            }
            return false;
        }
        let want_right = if k == m - 1 {
            p
        } else {
            cs[k + 1]
        };
        if nodes[c].right != want_right {
            proof {
                assert(!in_list_ok(a, p, cs@, k as int));
            }
            return false;
        }
        proof {
            assert(in_list_ok(a, p, cs@, k as int));
        }
        k += 1;
    }
    let mut k1: usize = 0;
    while k1 < m
        invariant
            m == cs@.len(),
            a == arena(nodes@),
            p < nodes@.len(),
            k1 <= m,
            forall|q: int| 0 <= q < m ==> #[trigger] in_list_ok(a, p, cs@, q),
            forall|q1: int, q2: int| 0 <= q1 < k1 && q1 < q2 < m ==> cs@[q1] != cs@[q2],
        decreases m - k1,
    {
        let mut k2: usize = k1 + 1;
        while k2 < m
            invariant
                m == cs@.len(),
                k1 < m,
                k1 < k2 <= m,
                forall|q: int| k1 < q < k2 ==> cs@[k1 as int] != cs@[q],
            decreases m - k2,
        {
            if cs[k1] == cs[k2] {
                return false;
            }
            k2 += 1;
        }
        k1 += 1;
    }
    true
}

/// Decide whether node `i` satisfies the invariant.
fn check_node(nodes: &Vec<JsonNode>, i: usize) -> (r: bool)
    requires
        i < nodes@.len(),
    ensures
        r == node_ok(arena(nodes@), i as int),
{
    let ghost a = arena(nodes@);
    let n = nodes.len();
    let parent = nodes[i].parent;
    let left = nodes[i].left;
    let right = nodes[i].right;
    if parent >= n || left >= n || right >= n {
        return false;
    }
    if parent == i && !(left == i && right == i) {
        return false;
    }
    match &nodes[i].variant {
        JsonVariant::ObjectEntry(_, v) => {
            let v = *v;
            if v >= n || v == i {
                return false;
            }
            if nodes[v].parent != i || nodes[v].left != i || nodes[v].right != i {
                return false;
            }
            true
        },
        JsonVariant::Array(cs) => check_list(nodes, i, cs),
        JsonVariant::Object(cs) => check_list(nodes, i, cs),
        _ => true,
    }
}

impl JsonBuffer {
    /// Decide the document invariant at run time: every structural and
    /// editing operation expects it, and a host that assembles a buffer by
    /// hand can test it before calling them.
    pub fn check_wf(&self) -> (r: bool)
        ensures
            r == self.wf(),
    {
        let n = self.nodes.len();
        let mut j: usize = 0;
        while j < self.selections.len()
            invariant
                n == self.nodes@.len(),
                j <= self.selections@.len(),
                forall|q: int| 0 <= q < j ==> (#[trigger] self.selections@[q]) < n,
            decreases self.selections@.len() - j,
        {
            if self.selections[j] >= n {
                proof {
                    assert(!sels_ok(self@.nodes, self@.selections));
                }
                return false;
            }
            j += 1;
        }
        let mut i: usize = 0;
        while i < n
            invariant
                n == self.nodes@.len(),
                i <= n,
                sels_ok(self@.nodes, self@.selections),
                forall|q: int| 0 <= q < i ==> #[trigger] node_ok(self@.nodes, q),
            decreases n - i,
        {
            if !check_node(&self.nodes, i) {
                proof {
                    assert(!node_ok(self@.nodes, i as int));
                }
                return false;
            }
            i += 1;
        }
        true
    }
}

/// Under the invariant every reference produced by the fan-out of a valid
/// selection list lies inside the arena.
pub proof fn lemma_fanout_all_bounds(nodes: Seq<NodeModel>, sels: Seq<usize>)
    requires
        nodes_ok(nodes),
        sels_ok(nodes, sels),
    ensures
        sels_ok(nodes, fanout_all(nodes, sels)),
    decreases sels.len(),
{
    if sels.len() > 0 {
        lemma_fanout_all_bounds(nodes, sels.drop_last());
        let s = sels.last();
        assert(sels[sels.len() - 1] < nodes.len());
        assert(node_ok(nodes, s as int));
        let f = fanout(nodes, s);
        assert forall|q: int| 0 <= q < f.len() implies (#[trigger] f[q]) < nodes.len() by {
            match nodes[s as int].variant {
                VariantModel::Array(cs) => {
                    assert(in_list_ok(nodes, s, cs, q));
                },
                VariantModel::Object(cs) => {
                    assert(in_list_ok(nodes, s, cs, q));
                },
                _ => {},
            }
        }
        assert forall|j: int|
            0 <= j < sels.len() - 1 implies (#[trigger] sels.drop_last()[j]) == sels[j] by {}
    }
}

} // verus!

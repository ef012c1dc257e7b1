//! Leaf text editing and in-place kind conversion.
//!
//! `input` appends to or shortens the text payload of selected `String`
//! nodes and entry keys. `stringify` turns selected nodes into `String`s,
//! cutting any child tree loose. `objectify` turns scalars into empty
//! `Object`s and re-threads an `Array`'s elements as the values of fresh
//! keyless entries.

use vstd::prelude::*;

use crate::buffer::JsonBuffer;
use crate::node::JsonInput;
use crate::node::JsonNode;
use crate::node::JsonVariant;
use crate::node::NodeModel;
use crate::node::VariantModel;
use crate::node::arena;
use crate::wf::in_list_ok;
use crate::wf::list_ok;
use crate::wf::node_ok;
use crate::wf::nodes_ok;
use crate::wf::sels_ok;
use crate::wf::lemma_update_variant_ok;

verus! {

broadcast use crate::node::lemma_arena_push, crate::node::lemma_arena_update, crate::node::lemma_arena_index;

/// One text editing step: append the character, or drop the last one if
/// any (backspace on empty text is a no-op).
pub open spec fn edit_text(t: Seq<char>, inp: JsonInput) -> Seq<char> {
    match inp {
        JsonInput::Char(c) => t.push(c),
        JsonInput::Backspace => if t.len() == 0 {
            t
        } else {
            t.drop_last()
        },
    }
}

/// What `input` does to one node's variant: it edits the text of a
/// `String` and the key of an entry, and leaves every other kind alone.
pub open spec fn input_variant(v: VariantModel, inp: JsonInput) -> VariantModel {
    match v {
        VariantModel::Text(t) => VariantModel::Text(edit_text(t, inp)),
        VariantModel::Entry { key, value } => VariantModel::Entry {
            key: edit_text(key, inp),
            value,
        },
        _ => v,
    }
}

/// The per-selection transform of `input` on the arena.
pub open spec fn input_one(nodes: Seq<NodeModel>, s: usize, inp: JsonInput) -> Seq<NodeModel> {
    nodes.update(
        s as int,
        (NodeModel { variant: input_variant(nodes[s as int].variant, inp), ..nodes[s as int] }),
    )
}

/// The fold of `input` over the whole selection list: a cursor standing
/// twice on one node edits it twice.
pub open spec fn input_all(nodes: Seq<NodeModel>, sels: Seq<usize>, inp: JsonInput) -> Seq<
    NodeModel,
>
    decreases sels.len(),
{
    if sels.len() == 0 {
        nodes
    } else {
        input_all(input_one(nodes, sels[0], inp), sels.drop_first(), inp)
    }
}

/// The canonical text of a boolean.
pub open spec fn canon_bool(b: bool) -> Seq<char> {
    if b {
        "true"@
    } else {
        "false"@
    }
}

/// What `stringify` does to one node's variant: `Null` and the containers
/// become empty text, a boolean or number its canonical text; `String`s
/// and entries are left alone.
pub open spec fn stringify_variant(v: VariantModel) -> VariantModel {
    match v {
        VariantModel::Null => VariantModel::Text(Seq::empty()),
        VariantModel::Array(_) => VariantModel::Text(Seq::empty()),
        VariantModel::Object(_) => VariantModel::Text(Seq::empty()),
        VariantModel::Bool(b) => VariantModel::Text(canon_bool(b)),
        VariantModel::Number(t) => VariantModel::Text(t),
        _ => v,
    }
}

/// The per-selection transform of `stringify` on the arena.
pub open spec fn stringify_one(nodes: Seq<NodeModel>, s: usize) -> Seq<NodeModel> {
    nodes.update(
        s as int,
        (NodeModel { variant: stringify_variant(nodes[s as int].variant), ..nodes[s as int] }),
    )
}

/// The fold of `stringify` over the whole selection list.
pub open spec fn stringify_all(nodes: Seq<NodeModel>, sels: Seq<usize>) -> Seq<NodeModel>
    decreases sels.len(),
{
    if sels.len() == 0 {
        nodes
    } else {
        stringify_all(stringify_one(nodes, sels[0]), sels.drop_first())
    }
}

/// The fresh entry created by `objectify` for element `k` of an `Array`
/// with child list `cs`, in an arena of `n` nodes: a keyless entry whose
/// value is the original element, threaded into a ring of the `m` entries
/// under the converted node `s`.
pub open spec fn obj_entry(s: usize, cs: Seq<usize>, n: int, k: int) -> NodeModel {
    NodeModel {
        variant: (VariantModel::Entry { key: Seq::empty(), value: cs[k] }),
        parent: s,
        left: if k == 0 {
            s
        } else {
            (n + k - 1) as usize
        },
        right: if k == cs.len() - 1 {
            s
        } else {
            (n + k + 1) as usize
        },
    }
}

/// The per-selection transform of `objectify` on the arena: a scalar
/// becomes an empty `Object`; an entry or `Object` is left alone; an
/// `Array` becomes an `Object` of fresh keyless entries, one per element
/// in order, each element re-threaded as its entry's value in a singleton
/// ring.
pub open spec fn objectify_one(nodes: Seq<NodeModel>, s: usize) -> Seq<NodeModel> {
    let nd = nodes[s as int];
    match nd.variant {
        VariantModel::Entry { key: _, value: _ } => nodes,
        VariantModel::Object(_) => nodes,
        VariantModel::Array(cs) => {
            let n = nodes.len() as int;
            let m = cs.len() as int;
            Seq::new(
                (n + m) as nat,
                |j: int|
                    if j == s {
                        NodeModel {
                            variant: VariantModel::Object(
                                Seq::new(m as nat, |k: int| (n + k) as usize),
                            ),
                            ..nd
                        }
                    } else if n <= j {
                        obj_entry(s, cs, n, j - n)
                    } else if cs.contains(j as usize) {
                        let k = cs.index_of(j as usize);
                        NodeModel {
                            parent: (n + k) as usize,
                            left: (n + k) as usize,
                            right: (n + k) as usize,
                            ..nodes[j]
                        }
                    } else {
                        nodes[j]
                    },
            )
        },
        _ => nodes.update(
            s as int,
            (NodeModel { variant: VariantModel::Object(Seq::empty()), ..nd }),
        ),
    }
}

/// The fold of `objectify` over the whole selection list.
pub open spec fn objectify_all(nodes: Seq<NodeModel>, sels: Seq<usize>) -> Seq<NodeModel>
    decreases sels.len(),
{
    if sels.len() == 0 {
        nodes
    } else {
        objectify_all(objectify_one(nodes, sels[0]), sels.drop_first())
    }
}

/// Under the invariant each element of a duplicate-free child list is
/// found at its own position.
pub proof fn lemma_index_of_child(cs: Seq<usize>, k: int)
    requires
        forall|k1: int, k2: int| 0 <= k1 < k2 < cs.len() ==> cs[k1] != cs[k2],
        0 <= k < cs.len(),
    ensures
        cs.index_of(cs[k]) == k,
        cs.contains(cs[k]),
{
    assert(cs.contains(cs[k]));
    let ci = cs.index_of(cs[k]);
    assert(0 <= ci < cs.len() && cs[ci] == cs[k]);
    if ci < k {
        assert(cs[ci] != cs[k]);
    } else if ci > k {
        assert(cs[k] != cs[ci]);
    }
}

/// Objectifying an `Array` preserves the arena invariant: the fresh entry
/// ring under `s` mirrors the new child list, each original element sits
/// in a singleton ring under its entry, and no other node's clauses speak
/// of a changed link.
#[verifier::rlimit(100)]
#[verifier::spinoff_prover]
pub proof fn lemma_objectify_array_ok(nodes: Seq<NodeModel>, s: usize)
    requires
        nodes_ok(nodes),
        s < nodes.len(),
        nodes[s as int].variant is Array,
        nodes.len() + nodes[s as int].variant.children().len() <= usize::MAX,
    ensures
        nodes_ok(objectify_one(nodes, s)),
        objectify_one(nodes, s).len() == nodes.len()
            + nodes[s as int].variant.children().len(),
{
    let nd = nodes[s as int];
    let cs = nd.variant.children();
    let n = nodes.len() as int;
    let m = cs.len() as int;
    let r = objectify_one(nodes, s);
    let idxs = Seq::new(m as nat, |k: int| (n + k) as usize);
    assert(node_ok(nodes, s as int));
    assert(list_ok(nodes, s, cs));
    assert forall|k: int| 0 <= k < m implies cs.index_of(cs[k]) == k && cs.contains(cs[k]) by {
        lemma_index_of_child(cs, k);
    }
    // Pointwise shape of the result.
    assert(r[s as int].variant == VariantModel::Object(idxs) && r[s as int].parent == nd.parent
        && r[s as int].left == nd.left && r[s as int].right == nd.right);
    assert forall|k: int| 0 <= k < m implies r[n + k] == obj_entry(s, cs, n, k) by {}
    assert forall|k: int| 0 <= k < m implies #[trigger] r[cs[k] as int] == (NodeModel {
        parent: (n + k) as usize,
        left: (n + k) as usize,
        right: (n + k) as usize,
        ..nodes[cs[k] as int]
    }) by {
        assert(in_list_ok(nodes, s, cs, k));
        assert(cs[k] != s);
    }
    assert forall|j: int|
        0 <= j < n && j != s && !cs.contains(j as usize) implies r[j] == nodes[j] by {}
    assert forall|i: int| 0 <= i < r.len() implies #[trigger] node_ok(r, i) by {
        if i == s {
            assert forall|k: int| 0 <= k < idxs.len() implies #[trigger] in_list_ok(
                r,
                s,
                idxs,
                k,
            ) by {
                assert(r[n + k] == obj_entry(s, cs, n, k));
            }
            assert(node_ok(r, i));
        } else if n <= i {
            let k = i - n;
            assert(r[i] == obj_entry(s, cs, n, k));
            assert(in_list_ok(nodes, s, cs, k));
            assert(r[cs[k] as int].parent == i && r[cs[k] as int].left == i && r[cs[k] as int].right
                == i);
            assert(node_ok(r, i));
        } else if cs.contains(i as usize) {
            let k = cs.index_of(i as usize);
            assert(in_list_ok(nodes, s, cs, k));
            assert(node_ok(nodes, i));
            match nodes[i].variant {
                VariantModel::Entry { key: _, value: v } => {
                    assert(nodes[v as int].parent == i);
                    assert(!cs.contains(v)) by {
                        if cs.contains(v) {
                            let q = cs.index_of(v);
                            assert(in_list_ok(nodes, s, cs, q));
                        }
                    }
                    assert(node_ok(r, i));
                },
                VariantModel::Array(ds) => {
                    assert forall|q: int| 0 <= q < ds.len() implies #[trigger] in_list_ok(
                        r,
                        i as usize,
                        ds,
                        q,
                    ) by {
                        assert(in_list_ok(nodes, i as usize, ds, q));
                        assert(nodes[ds[q] as int].parent == i);
                        assert(!cs.contains(ds[q])) by {
                            if cs.contains(ds[q]) {
                                let w = cs.index_of(ds[q]);
                                assert(in_list_ok(nodes, s, cs, w));
                            }
                        }
                    }
                    assert(node_ok(r, i));
                },
                VariantModel::Object(ds) => {
                    assert forall|q: int| 0 <= q < ds.len() implies #[trigger] in_list_ok(
                        r,
                        i as usize,
                        ds,
                        q,
                    ) by {
                        assert(in_list_ok(nodes, i as usize, ds, q));
                        assert(nodes[ds[q] as int].parent == i);
                        assert(!cs.contains(ds[q])) by {
                            if cs.contains(ds[q]) {
                                let w = cs.index_of(ds[q]);
                                assert(in_list_ok(nodes, s, cs, w));
                            }
                        }
                    }
                    assert(node_ok(r, i));
                },
                _ => {
                    assert(node_ok(r, i));
                },
            }
        } else {
            assert(node_ok(nodes, i));
            match nodes[i].variant {
                VariantModel::Entry { key: _, value: v } => {
                    assert(nodes[v as int].parent == i);
                    assert(!cs.contains(v)) by {
                        if cs.contains(v) {
                            let q = cs.index_of(v);
                            assert(in_list_ok(nodes, s, cs, q));
                        }
                    }
                    assert(node_ok(r, i));
                },
                VariantModel::Array(ds) => {
                    assert forall|q: int| 0 <= q < ds.len() implies #[trigger] in_list_ok(
                        r,
                        i as usize,
                        ds,
                        q,
                    ) by {
                        assert(in_list_ok(nodes, i as usize, ds, q));
                        assert(nodes[ds[q] as int].parent == i);
                        assert(!cs.contains(ds[q])) by {
                            if cs.contains(ds[q]) {
                                let w = cs.index_of(ds[q]);
                                assert(in_list_ok(nodes, s, cs, w));
                            }
                        }
                    }
                    assert(node_ok(r, i));
                },
                VariantModel::Object(ds) => {
                    assert forall|q: int| 0 <= q < ds.len() implies #[trigger] in_list_ok(
                        r,
                        i as usize,
                        ds,
                        q,
                    ) by {
                        assert(in_list_ok(nodes, i as usize, ds, q));
                        assert(nodes[ds[q] as int].parent == i);
                        assert(!cs.contains(ds[q])) by {
                            if cs.contains(ds[q]) {
                                let w = cs.index_of(ds[q]);
                                assert(in_list_ok(nodes, s, cs, w));
                            }
                        }
                    }
                    assert(node_ok(r, i));
                },
                _ => {
                    assert(node_ok(r, i));
                },
            }
        }
    }
}

/// Copy a list of arena references.
fn copy_refs(cs: &Vec<usize>) -> (r: Vec<usize>)
    ensures
        r@ == cs@,
{
    let mut r: Vec<usize> = Vec::new();
    let mut k: usize = 0;
    while k < cs.len()
        invariant
            k <= cs@.len(),
            r@ == cs@.take(k as int),
        decreases cs@.len() - k,
    {
        r.push(cs[k]);
        proof {
            assert(r@ =~= cs@.take(k as int + 1));
        }
        k += 1;
    }
    proof {
        assert(cs@.take(cs@.len() as int) =~= cs@);
    }
    r
}

/// Apply one `objectify` step for the cursor on `s`.
fn step_objectify(nodes: &mut Vec<JsonNode>, s: usize)
    requires
        nodes_ok(arena(old(nodes)@)),
        s < old(nodes)@.len(),
    ensures
        arena(final(nodes)@) == objectify_one(arena(old(nodes)@), s),
        nodes_ok(arena(final(nodes)@)),
        old(nodes)@.len() <= final(nodes)@.len(),
{
    let ghost pre = arena(nodes@);
    let elements: Option<Vec<usize>> = match &nodes[s].variant {
        JsonVariant::Array(cs) => Some(copy_refs(cs)),
        _ => None,
    };
    match elements {
        Some(cs2) => {
            proof {
                assert(node_ok(pre, s as int));
                assert(list_ok(pre, s, cs2@));
            }
            let n = nodes.len();
            let m = cs2.len();
            let mut new_children: Vec<usize> = Vec::new();
            let mut k: usize = 0;
            while k < m
                invariant
                    nodes_ok(pre),
                    pre.len() == n,
                    s < n,
                    m == cs2@.len(),
                    pre[s as int].variant == VariantModel::Array(cs2@),
                    list_ok(pre, s, cs2@),
                    k <= m,
                    nodes@.len() == n + k,
                    new_children@.len() == k,
                    forall|q: int| 0 <= q < k ==> new_children@[q] == (n + q) as usize,
                    forall|j: int| 0 <= j < n ==> arena(nodes@)[j] == pre[j],
                    forall|q: int|
                        0 <= q < k ==> arena(nodes@)[n + q] == (NodeModel {
                            variant: (VariantModel::Entry { key: Seq::empty(), value: cs2@[q] }),
                            parent: s,
                            left: if q == 0 {
                                s
                            } else {
                                (n + q - 1) as usize
                            },
                            right: if q == k - 1 {
                                s
                            } else {
                                (n + q + 1) as usize
                            },
                        }),
                decreases m - k,
            {
                let e = nodes.len();
                let lf = if k == 0 {
                    s
                } else {
                    e - 1
                };
                nodes.push(
                    JsonNode {
                        variant: JsonVariant::ObjectEntry(String::new(), cs2[k]),
                        parent: s,
                        left: lf,
                        right: s,
                    },
                );
                if k != 0 {
                    nodes[e - 1].right = e;
                }
                new_children.push(e);
                k += 1;
            }
            let total = nodes.len();
            proof {
                assert(total == n + m);
            }
            let mut k: usize = 0;
            while k < m
                invariant
                    nodes_ok(pre),
                    pre.len() == n,
                    s < n,
                    m == cs2@.len(),
                    n + m <= usize::MAX,
                    pre[s as int].variant == VariantModel::Array(cs2@),
                    list_ok(pre, s, cs2@),
                    k <= m,
                    nodes@.len() == n + m,
                    forall|j: int|
                        0 <= j < n && j != s && !cs2@.take(k as int).contains(j as usize)
                            ==> arena(nodes@)[j] == pre[j],
                    arena(nodes@)[s as int] == pre[s as int],
                    forall|q: int|
                        0 <= q < k ==> #[trigger] arena(nodes@)[cs2@[q] as int] == (NodeModel {
                            parent: (n + q) as usize,
                            left: (n + q) as usize,
                            right: (n + q) as usize,
                            ..pre[cs2@[q] as int]
                        }),
                    forall|q: int|
                        0 <= q < m ==> arena(nodes@)[n + q] == (NodeModel {
                            variant: (VariantModel::Entry { key: Seq::empty(), value: cs2@[q] }),
                            parent: s,
                            left: if q == 0 {
                                s
                            } else {
                                (n + q - 1) as usize
                            },
                            right: if q == m - 1 {
                                s
                            } else {
                                (n + q + 1) as usize
                            },
                        }),
                decreases m - k,
            {
                let c = cs2[k];
                let ghost before = arena(nodes@);
                proof {
                    assert(in_list_ok(pre, s, cs2@, k as int));
                    assert(cs2@.take(k as int + 1)[k as int] == c);
                    assert(cs2@.take(k as int + 1).contains(c));
                    assert(!cs2@.take(k as int).contains(c)) by {
                        if cs2@.take(k as int).contains(c) {
                            let w = choose|w: int| 0 <= w < k && cs2@.take(k as int)[w] == c;
                            assert(cs2@[w] == cs2@[k as int]);
                        }
                    }
                    assert(before[c as int] == pre[c as int]);
                    assert forall|j: int|
                        0 <= j < n && j != s && !(#[trigger] cs2@.take(k as int + 1).contains(
                            j as usize,
                        )) implies !cs2@.take(k as int).contains(j as usize) by {
                        if cs2@.take(k as int).contains(j as usize) {
                            let w = choose|w: int|
                                0 <= w < k && cs2@.take(k as int)[w] == j as usize;
                            assert(cs2@.take(k as int + 1)[w] == j as usize);
                        }
                    }
                }
                let e = n + k;
                nodes[c].parent = e;
                nodes[c].left = e;
                nodes[c].right = e;
                proof {
                    assert forall|q: int|
                        0 <= q < k + 1 implies #[trigger] arena(nodes@)[cs2@[q] as int]
                        == (NodeModel {
                        parent: (n + q) as usize,
                        left: (n + q) as usize,
                        right: (n + q) as usize,
                        ..pre[cs2@[q] as int]
                    }) by {
                        if q < k {
                            assert(in_list_ok(pre, s, cs2@, q));
                            assert(cs2@[q] != cs2@[k as int]);
                            assert(arena(nodes@)[cs2@[q] as int] == before[cs2@[q] as int]);
                        } else {
                            assert(arena(nodes@)[c as int] == (NodeModel {
                                parent: e,
                                left: e,
                                right: e,
                                ..before[c as int]
                            }));
                        }
                    }
                }
                k += 1;
            }
            self_set_object(nodes, s, new_children);
            proof {
                let r = objectify_one(pre, s);
                assert forall|k: int| 0 <= k < m implies cs2@.index_of(cs2@[k]) == k
                    && cs2@.contains(cs2@[k]) by {
                    lemma_index_of_child(cs2@, k);
                }
                assert forall|j: int|
                    0 <= j < n && j != s && !(#[trigger] cs2@.contains(j as usize))
                        implies !cs2@.take(m as int).contains(j as usize) by {
                    if cs2@.take(m as int).contains(j as usize) {
                        let w = choose|w: int| 0 <= w < m && cs2@.take(m as int)[w] == j as usize;
                        assert(cs2@[w] == j as usize);
                    }
                }
                assert forall|q: int| 0 <= q < m implies #[trigger] arena(nodes@)[cs2@[q] as int]
                    == r[cs2@[q] as int] by {
                    assert(in_list_ok(pre, s, cs2@, q));
                }
                assert(arena(nodes@) =~~= r);
                lemma_objectify_array_ok(pre, s);
            }
        },
        None => {
            let scalar = matches!(
                &nodes[s].variant,
                JsonVariant::Null | JsonVariant::Bool(_) | JsonVariant::Number(_)
                    | JsonVariant::String(_)
            );
            if scalar {
                nodes[s].variant = JsonVariant::Object(Vec::new());
                proof {
                    assert(arena(nodes@) =~~= objectify_one(pre, s));
                    lemma_update_variant_ok(pre, s as int, VariantModel::Object(Seq::empty()));
                }
            } else {
                proof {
                    assert(arena(nodes@) =~~= objectify_one(pre, s));
                }
            }
        },
    }
}

/// Replace the variant of `s` by an `Object` over the given child list.
fn self_set_object(nodes: &mut Vec<JsonNode>, s: usize, children: Vec<usize>)
    requires
        s < old(nodes)@.len(),
    ensures
        final(nodes)@.len() == old(nodes)@.len(),
        arena(final(nodes)@) == arena(old(nodes)@).update(
            s as int,
            (NodeModel {
                variant: VariantModel::Object(children@),
                ..arena(old(nodes)@)[s as int]
            }),
        ),
{
    nodes[s].variant = JsonVariant::Object(children);
    proof {
        assert(arena(nodes@) =~~= arena(old(nodes)@).update(
            s as int,
            (NodeModel {
                variant: VariantModel::Object(children@),
                ..arena(old(nodes)@)[s as int]
            }),
        ));
    }
}

/// Relies on `String::push`: it appends exactly the given character.
#[verifier::external_body]
fn string_push(s: &mut String, c: char)
    ensures
        final(s)@ == old(s)@.push(c),
{
    s.push(c);
}

/// Relies on `String::pop`: it removes the last character when one exists
/// and leaves an empty string empty.
#[verifier::external_body]
fn string_pop(s: &mut String)
    ensures
        final(s)@ == (if old(s)@.len() == 0 {
            old(s)@
        } else {
            old(s)@.drop_last()
        }),
{
    s.pop();
}

/// Apply one text editing step to one node, in place.
fn apply_input_node(node: &mut JsonNode, inp: JsonInput)
    ensures
        final(node)@ == (NodeModel {
            variant: input_variant(old(node)@.variant, inp),
            ..old(node)@
        }),
{
    match &mut node.variant {
        JsonVariant::String(t) => {
            match inp {
                JsonInput::Char(c) => string_push(t, c),
                JsonInput::Backspace => string_pop(t),
            }
        },
        JsonVariant::ObjectEntry(k, _) => {
            match inp {
                JsonInput::Char(c) => string_push(k, c),
                JsonInput::Backspace => string_pop(k),
            }
        },
        _ => {},
    }
}

/// Editing a node's text payload preserves the arena invariant: no link
/// and no child reference changes.
pub proof fn lemma_input_one_ok(nodes: Seq<NodeModel>, s: usize, inp: JsonInput)
    requires
        nodes_ok(nodes),
        s < nodes.len(),
    ensures
        nodes_ok(input_one(nodes, s, inp)),
        input_one(nodes, s, inp).len() == nodes.len(),
{
    lemma_update_variant_ok(nodes, s as int, input_variant(nodes[s as int].variant, inp));
}

/// Turning a node into a `String` preserves the arena invariant: the links
/// of a cut-loose child tree stay coherent among themselves, and nothing
/// demands its old parent still list it.
pub proof fn lemma_stringify_one_ok(nodes: Seq<NodeModel>, s: usize)
    requires
        nodes_ok(nodes),
        s < nodes.len(),
    ensures
        nodes_ok(stringify_one(nodes, s)),
        stringify_one(nodes, s).len() == nodes.len(),
{
    lemma_update_variant_ok(nodes, s as int, stringify_variant(nodes[s as int].variant));
}

impl JsonBuffer {
    /// Feed one text editing event to every cursor, in selection order: it
    /// edits the text of selected `String` nodes and the key of selected
    /// entries, and leaves every other selected node alone.
    pub fn input(&mut self, input: JsonInput)
        requires
            old(self).wf(),
        ensures
            final(self).wf(),
            final(self)@.nodes == input_all(old(self)@.nodes, old(self)@.selections, input),
            final(self)@.selections == old(self)@.selections,
            final(self)@.mode == old(self)@.mode,
    {
        let ghost orig = self@;
        let ghost full = input_all(orig.nodes, orig.selections, input);
        proof {
            assert(orig.selections.subrange(0, orig.selections.len() as int) =~= orig.selections);
        }
        let mut j: usize = 0;
        while j < self.selections.len()
            invariant
                self.selections == old(self).selections,
                self.mode == old(self).mode,
                orig == old(self)@,
                full == input_all(orig.nodes, orig.selections, input),
                j <= self.selections@.len(),
                nodes_ok(self@.nodes),
                self@.nodes.len() == orig.nodes.len(),
                sels_ok(self@.nodes, self@.selections),
                input_all(
                    self@.nodes,
                    self@.selections.subrange(j as int, self@.selections.len() as int),
                    input,
                ) == full,
            decreases self.selections@.len() - j,
        {
            let ghost pre = self@.nodes;
            let ghost sl = self@.selections;
            let s = self.selections[j];
            apply_input_node(&mut self.nodes[s], input);
            proof {
                assert(arena(self.nodes@) =~= input_one(pre, s, input));
                lemma_input_one_ok(pre, s, input);
                assert(sl.subrange(j as int, sl.len() as int)[0] == sl[j as int]);
                assert(sl.subrange(j as int, sl.len() as int).drop_first() =~= sl.subrange(
                    j as int + 1,
                    sl.len() as int,
                ));
            }
            j += 1;
        }
        proof {
            assert(self@.selections.subrange(
                self@.selections.len() as int,
                self@.selections.len() as int,
            ) =~= Seq::<usize>::empty());
        }
    }

    /// Convert every selected node towards an `Object`: scalars become
    /// empty `Object`s, an `Array` becomes an `Object` whose fresh keyless
    /// entries hold the original elements in order, and entries and
    /// `Object`s are left alone.
    pub fn objectify(&mut self)
        requires
            old(self).wf(),
        ensures
            final(self).wf(),
            final(self)@.nodes == objectify_all(old(self)@.nodes, old(self)@.selections),
            final(self)@.selections == old(self)@.selections,
            final(self)@.mode == old(self)@.mode,
    {
        let ghost orig = self@;
        let ghost full = objectify_all(orig.nodes, orig.selections);
        proof {
            assert(orig.selections.subrange(0, orig.selections.len() as int) =~= orig.selections);
        }
        let mut j: usize = 0;
        while j < self.selections.len()
            invariant
                self.selections == old(self).selections,
                self.mode == old(self).mode,
                orig == old(self)@,
                full == objectify_all(orig.nodes, orig.selections),
                j <= self.selections@.len(),
                nodes_ok(self@.nodes),
                orig.nodes.len() <= self@.nodes.len(),
                sels_ok(self@.nodes, self@.selections),
                objectify_all(
                    self@.nodes,
                    self@.selections.subrange(j as int, self@.selections.len() as int),
                ) == full,
            decreases self.selections@.len() - j,
        {
            let ghost pre = self@.nodes;
            let ghost sl = self@.selections;
            let s = self.selections[j];
            step_objectify(&mut self.nodes, s);
            proof {
                assert(sl.subrange(j as int, sl.len() as int)[0] == sl[j as int]);
                assert(sl.subrange(j as int, sl.len() as int).drop_first() =~= sl.subrange(
                    j as int + 1,
                    sl.len() as int,
                ));
            }
            j += 1;
        }
        proof {
            assert(self@.selections.subrange(
                self@.selections.len() as int,
                self@.selections.len() as int,
            ) =~= Seq::<usize>::empty());
        }
    }

    /// Convert every selected node to a `String`: `Null`, `Array` and
    /// `Object` become empty text (any child tree is cut loose but stays
    /// in the arena), a boolean or number becomes its canonical text, and
    /// `String`s and entries are left alone.
    pub fn stringify(&mut self)
        requires
            old(self).wf(),
        ensures
            final(self).wf(),
            final(self)@.nodes == stringify_all(old(self)@.nodes, old(self)@.selections),
            final(self)@.selections == old(self)@.selections,
            final(self)@.mode == old(self)@.mode,
    {
        let ghost orig = self@;
        let ghost full = stringify_all(orig.nodes, orig.selections);
        proof {
            assert(orig.selections.subrange(0, orig.selections.len() as int) =~= orig.selections);
        }
        let mut j: usize = 0;
        while j < self.selections.len()
            invariant
                self.selections == old(self).selections,
                self.mode == old(self).mode,
                orig == old(self)@,
                full == stringify_all(orig.nodes, orig.selections),
                j <= self.selections@.len(),
                nodes_ok(self@.nodes),
                self@.nodes.len() == orig.nodes.len(),
                sels_ok(self@.nodes, self@.selections),
                stringify_all(
                    self@.nodes,
                    self@.selections.subrange(j as int, self@.selections.len() as int),
                ) == full,
            decreases self.selections@.len() - j,
        {
            let ghost pre = self@.nodes;
            let ghost sl = self@.selections;
            let s = self.selections[j];
            let replacement: Option<String> = match &self.nodes[s].variant {
                JsonVariant::Null => Some(String::new()),
                JsonVariant::Array(_) => Some(String::new()),
                JsonVariant::Object(_) => Some(String::new()),
                JsonVariant::Bool(b) => Some(
                    if *b {
                        "true".to_owned()
                    } else {
                        "false".to_owned()
                    },
                ),
                JsonVariant::Number(t) => Some(t.clone()),
                JsonVariant::String(_) => None,
                JsonVariant::ObjectEntry(_, _) => None,
            };
            match replacement {
                Some(text) => {
                    self.nodes[s].variant = JsonVariant::String(text);
                },
                None => {},
            }
            proof {
                assert(arena(self.nodes@) =~= stringify_one(pre, s));
                lemma_stringify_one_ok(pre, s);
                assert(sl.subrange(j as int, sl.len() as int)[0] == sl[j as int]);
                assert(sl.subrange(j as int, sl.len() as int).drop_first() =~= sl.subrange(
                    j as int + 1,
                    sl.len() as int,
                ));
            }
            j += 1;
        }
        proof {
            assert(self@.selections.subrange(
                self@.selections.len() as int,
                self@.selections.len() as int,
            ) =~= Seq::<usize>::empty());
        }
    }
}

} // verus!

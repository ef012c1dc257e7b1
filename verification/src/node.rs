//! The node types of the document arena, and their mathematical models.
//!
//! Exec nodes hold `String` and `Vec` payloads; contracts never compare
//! those directly. Instead every node maps through `View` to a `NodeModel`
//! whose payloads are `Seq`s, and all specifications speak of models.

use vstd::prelude::*;

verus! {

/// Whether the editor currently takes structural commands or leaf text.
#[derive(Debug, PartialEq, Eq, Clone, Copy)]
pub enum JsonBufferMode {
    Normal,
    Insert,
}

/// One leaf-text editing event.
#[derive(Debug, PartialEq, Eq, Clone, Copy)]
pub enum JsonInput {
    Char(char),
    Backspace,
}

/// The JSON value kind held by one arena node.
///
/// A `Number` carries the decimal text of its value; the host converts
/// machine numbers to text at the boundary. `ObjectEntry` carries a key and
/// the arena reference of its value node. `Array` and `Object` carry their
/// ordered child references.
#[derive(Debug, PartialEq)]
pub enum JsonVariant {
    Null,
    Bool(bool),
    Number(String),
    String(String),
    ObjectEntry(String, usize),
    Array(Vec<usize>),
    Object(Vec<usize>),
}

/// One slot of the arena: a variant plus the three tree links.
///
/// The children of one parent form a ring: the leftmost child's `left` and
/// the rightmost child's `right` are the parent itself, and each inner
/// neighbour pair mirrors adjacency in the parent's child list. A root's
/// `parent`, `left` and `right` are its own reference.
#[derive(Debug, PartialEq)]
pub struct JsonNode {
    pub variant: JsonVariant,
    pub parent: usize,
    pub left: usize,
    pub right: usize,
}

/// Model of a `JsonVariant`: the same shape over `Seq` payloads.
#[verifier::ext_equal]
pub enum VariantModel {
    Null,
    Bool(bool),
    Number(Seq<char>),
    Text(Seq<char>),
    Entry { key: Seq<char>, value: usize },
    Array(Seq<usize>),
    Object(Seq<usize>),
}

/// Model of a `JsonNode`.
#[verifier::ext_equal]
pub struct NodeModel {
    pub variant: VariantModel,
    pub parent: usize,
    pub left: usize,
    pub right: usize,
}

impl View for JsonVariant {
    type V = VariantModel;

    open spec fn view(&self) -> VariantModel {
        match self {
            JsonVariant::Null => VariantModel::Null,
            JsonVariant::Bool(b) => VariantModel::Bool(*b),
            JsonVariant::Number(t) => VariantModel::Number(t@),
            JsonVariant::String(t) => VariantModel::Text(t@),
            JsonVariant::ObjectEntry(k, v) => VariantModel::Entry { key: k@, value: *v },
            JsonVariant::Array(cs) => VariantModel::Array(cs@),
            JsonVariant::Object(cs) => VariantModel::Object(cs@),
        }
    }
}

impl View for JsonNode {
    type V = NodeModel;

    open spec fn view(&self) -> NodeModel {
        NodeModel {
            variant: self.variant@,
            parent: self.parent,
            left: self.left,
            right: self.right,
        }
    }
}

impl VariantModel {
    /// The ordered child list of a listing variant; empty for all others.
    pub open spec fn children(self) -> Seq<usize> {
        match self {
            VariantModel::Array(cs) => cs,
            VariantModel::Object(cs) => cs,
            _ => Seq::empty(),
        }
    }

    /// Whether the variant keeps an ordered child list of its own.
    pub open spec fn is_listing(self) -> bool {
        self is Array || self is Object
    }
}

/// The model of a whole arena: each node through its view.
pub open spec fn arena(nodes: Seq<JsonNode>) -> Seq<NodeModel> {
    nodes.map_values(|n: JsonNode| n@)
}

/// The model of a node is read off at its index.
pub broadcast proof fn lemma_arena_index(nodes: Seq<JsonNode>, i: int)
    requires
        0 <= i < nodes.len(),
    ensures
        #[trigger] arena(nodes)[i] == nodes[i]@,
{
}

/// Appending a node appends its model.
pub broadcast proof fn lemma_arena_push(nodes: Seq<JsonNode>, x: JsonNode)
    ensures
        #[trigger] arena(nodes.push(x)) == arena(nodes).push(x@),
{
    assert(arena(nodes.push(x)) =~= arena(nodes).push(x@));
}

/// Replacing a node replaces its model.
pub broadcast proof fn lemma_arena_update(nodes: Seq<JsonNode>, i: int, x: JsonNode)
    requires
        0 <= i < nodes.len(),
    ensures
        #[trigger] arena(nodes.update(i, x)) == arena(nodes).update(i, x@),
{
    assert(arena(nodes.update(i, x)) =~= arena(nodes).update(i, x@));
}

} // verus!

//! Core of a structural editor for JSON-shaped documents.
//!
//! A document is an arena of nodes. Each node carries a JSON variant and
//! three links: its parent, and a `left`/`right` pair that threads the
//! children of one parent into a ring whose two ends are the parent itself.
//! A list of cursor positions (the selection) and an edit-mode flag complete
//! the document. The operations navigate the ring, insert fresh nodes next
//! to selected ones, edit leaf text, and convert node kinds in place, all
//! while preserving the linkage invariant.

pub mod buffer;
pub mod command;
pub mod convert;
pub mod insert;
pub mod laws;
pub mod node;
pub mod wf;

pub use crate::buffer::BufferModel;
pub use crate::buffer::JsonBuffer;
pub use crate::command::JsonCommand;
pub use crate::node::JsonBufferMode;
pub use crate::node::JsonInput;
pub use crate::node::JsonNode;
pub use crate::node::JsonVariant;
pub use crate::node::NodeModel;
pub use crate::node::VariantModel;

//! Kind conversion and leaf text editing: idempotence, the destructive
//! `stringify`, the `objectify` re-threading, and the text payload edits.

use json_buffer::JsonBuffer;
use json_buffer::JsonBufferMode;
use json_buffer::JsonInput;
use json_buffer::JsonNode;
use json_buffer::JsonVariant;

fn node(variant: JsonVariant, parent: usize, left: usize, right: usize) -> JsonNode {
    JsonNode { variant, parent, left, right }
}

/// `Array[ Null, Null, Object{ "name": "Charlie Stanton", "age": 20 } ]`.
fn sample_doc() -> JsonBuffer {
    JsonBuffer {
        nodes: vec![
            node(JsonVariant::Array(vec![1, 2, 3]), 0, 0, 0),
            node(JsonVariant::Null, 0, 0, 2),
            node(JsonVariant::Null, 0, 1, 3),
            node(JsonVariant::Object(vec![4, 5]), 0, 2, 0),
            node(JsonVariant::ObjectEntry("name".to_string(), 6), 3, 3, 5),
            node(JsonVariant::ObjectEntry("age".to_string(), 7), 3, 4, 3),
            node(JsonVariant::String("Charlie Stanton".to_string()), 4, 4, 4),
            node(JsonVariant::Number("20".to_string()), 5, 5, 5),
        ],
        selections: vec![3],
        mode: JsonBufferMode::Normal,
    }
}

#[test]
fn objectify_scalar_becomes_empty_object() {
    let mut buf = sample_doc();
    buf.selections = vec![1];
    buf.objectify();
    match &buf.nodes[1].variant {
        JsonVariant::Object(cs) => assert!(cs.is_empty()),
        _ => panic!("a scalar must become an empty object"),
    }
    assert_eq!(buf.nodes.len(), 8);
    assert!(buf.check_wf());
}

#[test]
fn objectify_on_object_and_entry_is_a_no_op() {
    let mut buf = sample_doc();
    buf.selections = vec![3, 4];
    buf.objectify();
    assert_eq!(buf.nodes.len(), 8);
    match &buf.nodes[3].variant {
        JsonVariant::Object(cs) => assert_eq!(cs, &vec![4, 5]),
        _ => panic!("an object must stay as it is"),
    }
    match &buf.nodes[4].variant {
        JsonVariant::ObjectEntry(key, value) => {
            assert_eq!(key, "name");
            assert_eq!(*value, 6);
        },
        _ => panic!("an entry must stay as it is"),
    }
    assert!(buf.check_wf());
}

#[test]
fn objectify_array_rethreads_elements_as_entry_values() {
    let mut buf = JsonBuffer {
        nodes: vec![
            node(JsonVariant::Array(vec![1, 2]), 0, 0, 0),
            node(JsonVariant::Bool(true), 0, 0, 2),
            node(JsonVariant::Null, 0, 1, 0),
        ],
        selections: vec![0],
        mode: JsonBufferMode::Normal,
    };
    buf.objectify();
    assert_eq!(buf.nodes.len(), 5);
    match &buf.nodes[0].variant {
        JsonVariant::Object(cs) => assert_eq!(cs, &vec![3, 4]),
        _ => panic!("the array must become an object"),
    }
    // fresh keyless entries hold the original elements, in order
    match &buf.nodes[3].variant {
        JsonVariant::ObjectEntry(key, value) => {
            assert_eq!(key, "");
            assert_eq!(*value, 1);
        },
        _ => panic!("expected a fresh entry"),
    }
    match &buf.nodes[4].variant {
        JsonVariant::ObjectEntry(key, value) => {
            assert_eq!(key, "");
            assert_eq!(*value, 2);
        },
        _ => panic!("expected a fresh entry"),
    }
    // the entries take the elements' place in the ring
    assert_eq!(buf.nodes[3].left, 0);
    assert_eq!(buf.nodes[3].right, 4);
    assert_eq!(buf.nodes[4].left, 3);
    assert_eq!(buf.nodes[4].right, 0);
    // each element now sits in a singleton ring under its entry
    assert_eq!(buf.nodes[1].parent, 3);
    assert_eq!(buf.nodes[1].left, 3);
    assert_eq!(buf.nodes[1].right, 3);
    assert_eq!(buf.nodes[2].parent, 4);
    assert!(matches!(buf.nodes[1].variant, JsonVariant::Bool(true)));
    assert!(buf.check_wf());
}

#[test]
fn objectify_empty_array_becomes_empty_object() {
    let mut buf = JsonBuffer {
        nodes: vec![node(JsonVariant::Array(vec![]), 0, 0, 0)],
        selections: vec![0],
        mode: JsonBufferMode::Normal,
    };
    buf.objectify();
    assert_eq!(buf.nodes.len(), 1);
    match &buf.nodes[0].variant {
        JsonVariant::Object(cs) => assert!(cs.is_empty()),
        _ => panic!("an empty array must become an empty object"),
    }
    assert!(buf.check_wf());
}

#[test]
fn objectify_array_of_containers_keeps_their_subtrees() {
    // the elements re-threaded under fresh entries may themselves be
    // containers; their own rings stay intact
    let mut buf = JsonBuffer {
        nodes: vec![
            node(JsonVariant::Array(vec![1]), 0, 0, 0),
            node(JsonVariant::Array(vec![2]), 0, 0, 0),
            node(JsonVariant::String("x".to_string()), 1, 1, 1),
        ],
        selections: vec![0],
        mode: JsonBufferMode::Normal,
    };
    assert!(buf.check_wf());
    buf.objectify();
    assert_eq!(buf.nodes.len(), 4);
    match &buf.nodes[3].variant {
        JsonVariant::ObjectEntry(key, value) => {
            assert_eq!(key, "");
            assert_eq!(*value, 1);
        },
        _ => panic!("expected a fresh entry"),
    }
    assert_eq!(buf.nodes[1].parent, 3);
    // the inner array still lists and links its own child
    assert!(matches!(&buf.nodes[1].variant, JsonVariant::Array(cs) if cs == &vec![2]));
    assert_eq!(buf.nodes[2].parent, 1);
    assert_eq!(buf.nodes[2].left, 1);
    assert!(buf.check_wf());
}

#[test]
fn objectify_twice_adds_entries_only_once() {
    let mut buf = JsonBuffer {
        nodes: vec![
            node(JsonVariant::Array(vec![1]), 0, 0, 0),
            node(JsonVariant::Null, 0, 0, 0),
        ],
        selections: vec![0],
        mode: JsonBufferMode::Normal,
    };
    buf.objectify();
    assert_eq!(buf.nodes.len(), 3);
    buf.objectify();
    // the node is an object now: the second call is a no-op
    assert_eq!(buf.nodes.len(), 3);
    assert!(matches!(&buf.nodes[0].variant, JsonVariant::Object(cs) if cs == &vec![2]));
    assert!(buf.check_wf());
}

#[test]
fn stringify_destroys_array_but_keeps_arena() {
    // `stringify` on the outer array replaces it with an empty string;
    // the children and grandchildren stay in the arena, unreferenced by
    // the root.
    let mut buf = sample_doc();
    buf.selections = vec![0];
    buf.stringify();
    match &buf.nodes[0].variant {
        JsonVariant::String(s) => assert_eq!(s, ""),
        _ => panic!("the array must become an empty string"),
    }
    assert_eq!(buf.nodes.len(), 8);
    // the cut-loose nodes still exist and navigation over them must not
    // crash
    assert!(matches!(&buf.nodes[6].variant, JsonVariant::String(s) if s == "Charlie Stanton"));
    assert!(buf.check_wf());
    buf.selections = vec![6];
    buf.select_parent();
    assert_eq!(buf.selections, vec![4]);
}

#[test]
fn stringify_canonical_texts() {
    let mut buf = JsonBuffer {
        nodes: vec![
            node(JsonVariant::Array(vec![1, 2, 3, 4]), 0, 0, 0),
            node(JsonVariant::Bool(true), 0, 0, 2),
            node(JsonVariant::Bool(false), 0, 1, 3),
            node(JsonVariant::Number("20".to_string()), 0, 2, 4),
            node(JsonVariant::Null, 0, 3, 0),
        ],
        selections: vec![1, 2, 3, 4],
        mode: JsonBufferMode::Normal,
    };
    buf.stringify();
    assert!(matches!(&buf.nodes[1].variant, JsonVariant::String(s) if s == "true"));
    assert!(matches!(&buf.nodes[2].variant, JsonVariant::String(s) if s == "false"));
    assert!(matches!(&buf.nodes[3].variant, JsonVariant::String(s) if s == "20"));
    assert!(matches!(&buf.nodes[4].variant, JsonVariant::String(s) if s == ""));
    assert!(buf.check_wf());
}

#[test]
fn stringify_on_string_and_entry_is_a_no_op() {
    let mut buf = sample_doc();
    buf.selections = vec![6, 4];
    buf.stringify();
    assert!(matches!(&buf.nodes[6].variant, JsonVariant::String(s) if s == "Charlie Stanton"));
    assert!(matches!(&buf.nodes[4].variant, JsonVariant::ObjectEntry(k, 6) if k == "name"));
    assert!(buf.check_wf());
}

#[test]
fn input_appends_to_string_payload() {
    let mut buf = sample_doc();
    buf.selections = vec![6];
    buf.input(JsonInput::Char('!'));
    assert!(matches!(&buf.nodes[6].variant, JsonVariant::String(s) if s == "Charlie Stanton!"));
}

#[test]
fn input_edits_entry_key_not_value() {
    let mut buf = sample_doc();
    buf.selections = vec![4];
    buf.input(JsonInput::Char('s'));
    match &buf.nodes[4].variant {
        JsonVariant::ObjectEntry(key, value) => {
            assert_eq!(key, "names");
            assert_eq!(*value, 6);
        },
        _ => panic!("the entry must keep its shape"),
    }
    assert!(matches!(&buf.nodes[6].variant, JsonVariant::String(s) if s == "Charlie Stanton"));
}

#[test]
fn backspace_shortens_and_stops_at_empty() {
    let mut buf = JsonBuffer {
        nodes: vec![node(JsonVariant::String("ab".to_string()), 0, 0, 0)],
        selections: vec![0],
        mode: JsonBufferMode::Normal,
    };
    buf.input(JsonInput::Backspace);
    assert!(matches!(&buf.nodes[0].variant, JsonVariant::String(s) if s == "a"));
    buf.input(JsonInput::Backspace);
    assert!(matches!(&buf.nodes[0].variant, JsonVariant::String(s) if s == ""));
    // backspace on empty text is a harmless no-op
    buf.input(JsonInput::Backspace);
    assert!(matches!(&buf.nodes[0].variant, JsonVariant::String(s) if s == ""));
}

#[test]
fn input_on_non_text_is_a_no_op() {
    let mut buf = sample_doc();
    buf.selections = vec![1, 3];
    buf.input(JsonInput::Char('x'));
    assert!(matches!(buf.nodes[1].variant, JsonVariant::Null));
    assert!(matches!(&buf.nodes[3].variant, JsonVariant::Object(cs) if cs == &vec![4, 5]));
}

#[test]
fn duplicate_cursors_edit_twice() {
    let mut buf = sample_doc();
    buf.selections = vec![6, 6];
    buf.input(JsonInput::Char('!'));
    assert!(matches!(&buf.nodes[6].variant, JsonVariant::String(s) if s == "Charlie Stanton!!"));
}

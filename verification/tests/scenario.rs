//! The full editing scenario over the sample document, driven through the
//! command dispatcher and its mode machine.

use json_buffer::JsonBuffer;
use json_buffer::JsonBufferMode;
use json_buffer::JsonCommand;
use json_buffer::JsonInput;
use json_buffer::JsonNode;
use json_buffer::JsonVariant;

fn node(variant: JsonVariant, parent: usize, left: usize, right: usize) -> JsonNode {
    JsonNode { variant, parent, left, right }
}

/// `Array[ Null, Null, Object{ "name": "Charlie Stanton", "age": 20 } ]`,
/// with the cursor on the inner object.
fn sample_doc() -> JsonBuffer {
    JsonBuffer {
        nodes: vec![
            node(JsonVariant::Array(vec![1, 2, 3]), 0, 0, 0),
            node(JsonVariant::Null, 0, 0, 2),
            node(JsonVariant::Null, 0, 1, 3),
            node(JsonVariant::Object(vec![4, 5]), 0, 2, 0),
            node(JsonVariant::ObjectEntry("name".to_string(), 6), 3, 3, 5),
            node(JsonVariant::ObjectEntry("age".to_string(), 7), 3, 4, 3),
            node(JsonVariant::String("Charlie Stanton".to_string()), 4, 4, 4),
            node(JsonVariant::Number("20".to_string()), 5, 5, 5),
        ],
        selections: vec![3],
        mode: JsonBufferMode::Normal,
    }
}

#[test]
fn walk_into_object_then_edit_value() {
    let mut buf = sample_doc();
    assert!(buf.check_wf());
    // from the object, the first child is the "name" entry
    buf.select_first_child();
    assert_eq!(buf.selections, vec![4]);
    // one step down is the "age" entry
    buf.select_down();
    assert_eq!(buf.selections, vec![5]);
    // with the cursor instead on the string value, a character in Insert
    // mode lands on the value's text
    buf.selections = vec![6];
    buf.apply(JsonCommand::EnterInsert);
    assert_eq!(buf.mode, JsonBufferMode::Insert);
    buf.apply(JsonCommand::Input(JsonInput::Char('!')));
    assert!(matches!(&buf.nodes[6].variant, JsonVariant::String(s) if s == "Charlie Stanton!"));
    buf.apply(JsonCommand::ExitInsert);
    assert_eq!(buf.mode, JsonBufferMode::Normal);
    assert!(buf.check_wf());
}

#[test]
fn commands_route_to_the_matching_operations() {
    let mut buf = sample_doc();
    buf.apply(JsonCommand::SelectFirstChild);
    assert_eq!(buf.selections, vec![4]);
    buf.apply(JsonCommand::SelectDown);
    assert_eq!(buf.selections, vec![5]);
    buf.apply(JsonCommand::SelectUp);
    assert_eq!(buf.selections, vec![4]);
    buf.apply(JsonCommand::SelectParent);
    assert_eq!(buf.selections, vec![3]);
    buf.apply(JsonCommand::SelectAllChildren);
    assert_eq!(buf.selections, vec![4, 5]);
    assert!(buf.check_wf());
}

#[test]
fn structural_commands_work_in_any_mode() {
    // the model exposes every operation unconditionally; routing by mode
    // is the host input mapper's policy
    let mut buf = sample_doc();
    buf.apply(JsonCommand::EnterInsert);
    buf.selections = vec![1];
    buf.apply(JsonCommand::NewDownSibling);
    assert_eq!(buf.nodes.len(), 9);
    assert_eq!(buf.selections, vec![8]);
    assert_eq!(buf.mode, JsonBufferMode::Insert);
    assert!(buf.check_wf());
}

#[test]
fn grow_a_document_from_one_null() {
    let mut buf = JsonBuffer::new();
    assert!(buf.check_wf());
    assert!(matches!(buf.nodes[0].variant, JsonVariant::Null));
    assert_eq!(buf.selections, vec![0]);
    assert_eq!(buf.mode, JsonBufferMode::Normal);
    buf.apply(JsonCommand::Objectify);
    match &buf.nodes[0].variant {
        JsonVariant::Object(cs) => assert!(cs.is_empty()),
        _ => panic!("the null must have become an object"),
    }
    buf.apply(JsonCommand::NewFirstChild);
    assert_eq!(buf.selections, vec![1]);
    buf.apply(JsonCommand::EnterInsert);
    buf.apply(JsonCommand::Input(JsonInput::Char('i')));
    buf.apply(JsonCommand::Input(JsonInput::Char('d')));
    assert!(matches!(&buf.nodes[1].variant, JsonVariant::ObjectEntry(k, 2) if k == "id"));
    buf.apply(JsonCommand::ExitInsert);
    // descend to the value and make it an empty string to type into
    buf.apply(JsonCommand::SelectFirstChild);
    assert_eq!(buf.selections, vec![2]);
    buf.apply(JsonCommand::Stringify);
    buf.apply(JsonCommand::EnterInsert);
    buf.apply(JsonCommand::Input(JsonInput::Char('7')));
    assert!(matches!(&buf.nodes[2].variant, JsonVariant::String(s) if s == "7"));
    assert!(buf.check_wf());
}

#[test]
fn stringify_after_objectify_keeps_the_arena_sound() {
    let mut buf = sample_doc();
    // destroy the object subtree, then objectify the remaining root
    buf.selections = vec![3];
    buf.apply(JsonCommand::Stringify);
    assert!(matches!(&buf.nodes[3].variant, JsonVariant::String(s) if s == ""));
    // the cut-loose entries still exist; a sibling insertion from inside
    // the dead subtree is a harmless no-op
    buf.selections = vec![4];
    buf.apply(JsonCommand::NewUpSibling);
    assert_eq!(buf.nodes.len(), 8);
    assert_eq!(buf.selections, vec![4]);
    assert!(buf.check_wf());
}

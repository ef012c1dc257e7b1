//! Structural insertion: sibling placement in the ring, first children
//! under arrays and objects, and the no-op cases.

use json_buffer::JsonBuffer;
use json_buffer::JsonBufferMode;
use json_buffer::JsonNode;
use json_buffer::JsonVariant;

fn node(variant: JsonVariant, parent: usize, left: usize, right: usize) -> JsonNode {
    JsonNode { variant, parent, left, right }
}

/// `Array[ x, y ]` with both elements `Null`.
fn two_element_array() -> JsonBuffer {
    JsonBuffer {
        nodes: vec![
            node(JsonVariant::Array(vec![1, 2]), 0, 0, 0),
            node(JsonVariant::Null, 0, 0, 2),
            node(JsonVariant::Null, 0, 1, 0),
        ],
        selections: vec![2],
        mode: JsonBufferMode::Normal,
    }
}

#[test]
fn up_sibling_threads_between_neighbours() {
    // Array with children [x, y]: a new sibling above y gives [x, new, y]
    // with new.left == x, x.right == new, new.right == y, y.left == new.
    let mut buf = two_element_array();
    buf.new_up_sibling();
    assert_eq!(buf.nodes.len(), 4);
    match &buf.nodes[0].variant {
        JsonVariant::Array(cs) => assert_eq!(cs, &vec![1, 3, 2]),
        _ => panic!("root must stay an array"),
    }
    assert_eq!(buf.nodes[3].left, 1);
    assert_eq!(buf.nodes[1].right, 3);
    assert_eq!(buf.nodes[3].right, 2);
    assert_eq!(buf.nodes[2].left, 3);
    assert_eq!(buf.nodes[3].parent, 0);
    assert!(matches!(buf.nodes[3].variant, JsonVariant::Null));
    assert_eq!(buf.selections, vec![3]);
    assert!(buf.check_wf());
}

#[test]
fn up_sibling_on_first_child_starts_at_ring_end() {
    let mut buf = two_element_array();
    buf.selections = vec![1];
    buf.new_up_sibling();
    match &buf.nodes[0].variant {
        JsonVariant::Array(cs) => assert_eq!(cs, &vec![3, 1, 2]),
        _ => panic!("root must stay an array"),
    }
    // inserting at position 0 points the new node's left at the parent
    assert_eq!(buf.nodes[3].left, 0);
    assert_eq!(buf.nodes[3].right, 1);
    assert_eq!(buf.nodes[1].left, 3);
    assert!(buf.check_wf());
}

#[test]
fn down_sibling_at_end_closes_ring_at_parent() {
    let mut buf = two_element_array();
    buf.new_down_sibling();
    match &buf.nodes[0].variant {
        JsonVariant::Array(cs) => assert_eq!(cs, &vec![1, 2, 3]),
        _ => panic!("root must stay an array"),
    }
    assert_eq!(buf.nodes[3].left, 2);
    assert_eq!(buf.nodes[3].right, 0);
    assert_eq!(buf.nodes[2].right, 3);
    assert_eq!(buf.selections, vec![3]);
    assert!(buf.check_wf());
}

#[test]
fn sibling_on_root_is_a_no_op() {
    let mut buf = two_element_array();
    buf.selections = vec![0];
    buf.new_up_sibling();
    assert_eq!(buf.nodes.len(), 3);
    assert_eq!(buf.selections, vec![0]);
    buf.new_down_sibling();
    assert_eq!(buf.nodes.len(), 3);
    assert_eq!(buf.selections, vec![0]);
}

#[test]
fn sibling_under_object_creates_entry_and_value() {
    let mut buf = JsonBuffer {
        nodes: vec![
            node(JsonVariant::Object(vec![1]), 0, 0, 0),
            node(JsonVariant::ObjectEntry("k".to_string(), 2), 0, 0, 0),
            node(JsonVariant::Null, 1, 1, 1),
        ],
        selections: vec![1],
        mode: JsonBufferMode::Normal,
    };
    assert!(buf.check_wf());
    buf.new_down_sibling();
    assert_eq!(buf.nodes.len(), 5);
    match &buf.nodes[0].variant {
        JsonVariant::Object(cs) => assert_eq!(cs, &vec![1, 3]),
        _ => panic!("root must stay an object"),
    }
    // the new entry is keyless and holds a fresh null value in a
    // singleton ring
    match &buf.nodes[3].variant {
        JsonVariant::ObjectEntry(key, value) => {
            assert_eq!(key, "");
            assert_eq!(*value, 4);
        },
        _ => panic!("expected a fresh entry"),
    }
    assert!(matches!(buf.nodes[4].variant, JsonVariant::Null));
    assert_eq!(buf.nodes[4].parent, 3);
    assert_eq!(buf.nodes[4].left, 3);
    assert_eq!(buf.nodes[4].right, 3);
    assert_eq!(buf.selections, vec![3]);
    assert!(buf.check_wf());
}

#[test]
fn first_child_into_empty_array() {
    let mut buf = JsonBuffer {
        nodes: vec![node(JsonVariant::Array(vec![]), 0, 0, 0)],
        selections: vec![0],
        mode: JsonBufferMode::Normal,
    };
    buf.new_first_child();
    assert_eq!(buf.nodes.len(), 2);
    match &buf.nodes[0].variant {
        JsonVariant::Array(cs) => assert_eq!(cs, &vec![1]),
        _ => panic!("root must stay an array"),
    }
    // the sole child's ring closes at the parent on both sides
    assert_eq!(buf.nodes[1].left, 0);
    assert_eq!(buf.nodes[1].right, 0);
    assert_eq!(buf.selections, vec![1]);
    assert!(buf.check_wf());
}

#[test]
fn first_child_into_non_empty_array_relinks_old_first() {
    let mut buf = two_element_array();
    buf.selections = vec![0];
    buf.new_first_child();
    match &buf.nodes[0].variant {
        JsonVariant::Array(cs) => assert_eq!(cs, &vec![3, 1, 2]),
        _ => panic!("root must stay an array"),
    }
    assert_eq!(buf.nodes[3].left, 0);
    assert_eq!(buf.nodes[3].right, 1);
    assert_eq!(buf.nodes[1].left, 3);
    assert_eq!(buf.selections, vec![3]);
    assert!(buf.check_wf());
}

#[test]
fn first_child_into_empty_object() {
    let mut buf = JsonBuffer {
        nodes: vec![node(JsonVariant::Object(vec![]), 0, 0, 0)],
        selections: vec![0],
        mode: JsonBufferMode::Normal,
    };
    buf.new_first_child();
    assert_eq!(buf.nodes.len(), 3);
    match &buf.nodes[1].variant {
        JsonVariant::ObjectEntry(key, value) => {
            assert_eq!(key, "");
            assert_eq!(*value, 2);
        },
        _ => panic!("expected a fresh entry"),
    }
    assert_eq!(buf.selections, vec![1]);
    assert!(buf.check_wf());
}

#[test]
fn first_child_on_leaf_is_a_no_op() {
    let mut buf = two_element_array();
    buf.selections = vec![1];
    buf.new_first_child();
    assert_eq!(buf.nodes.len(), 3);
    assert_eq!(buf.selections, vec![1]);
}

#[test]
fn insertions_preserve_cursor_count() {
    let mut buf = two_element_array();
    buf.selections = vec![1, 2, 0];
    buf.new_up_sibling();
    assert_eq!(buf.selections.len(), 3);
    buf.new_down_sibling();
    assert_eq!(buf.selections.len(), 3);
    buf.new_first_child();
    assert_eq!(buf.selections.len(), 3);
    assert!(buf.check_wf());
}

#[test]
fn two_cursors_insert_two_siblings_in_order() {
    let mut buf = two_element_array();
    buf.selections = vec![1, 2];
    buf.new_down_sibling();
    // the first cursor inserts node 3 after x, the second node 4 after y
    match &buf.nodes[0].variant {
        JsonVariant::Array(cs) => assert_eq!(cs, &vec![1, 3, 2, 4]),
        _ => panic!("root must stay an array"),
    }
    assert_eq!(buf.selections, vec![3, 4]);
    assert!(buf.check_wf());
}

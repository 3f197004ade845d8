use merkledag::cid_set::CidSet;
use merkledag::codec::{canonical_form, derive_cid};
use merkledag::node::Node;

#[test]
fn canonical_form_frames_the_two_texts() {
    assert_eq!(
        canonical_form("[\"add\",1]", "[]"),
        "{\"payload\":[\"add\",1],\"child_cids\":[]}"
    );
    assert_eq!(canonical_form("", ""), "{\"payload\":,\"child_cids\":}");
    assert_eq!(
        canonical_form("P", "C"),
        "{\"payload\":P,\"child_cids\":C}"
    );
}

#[test]
fn leaf_cid_is_the_digest_of_its_canonical_text() {
    let node = Node::new(("add".to_string(), 1), CidSet::new()).unwrap();
    assert_eq!(
        node.cid,
        "ab836d1dc10521e7072b350e499e687b2e2bc480f24670c1e3e08ca0ad018c03"
    );
    assert_eq!(node.payload, ("add".to_string(), 1));
    assert!(node.child_cids.is_empty());
}

#[test]
fn parent_cid_covers_the_children_in_ascending_order() {
    let node1 = Node::new(("add".to_string(), 1), CidSet::new()).unwrap();
    let node2 = Node::new(
        ("add".to_string(), 2),
        CidSet::from_vec(vec![node1.cid.clone()]),
    )
    .unwrap();
    assert_eq!(
        node2.cid,
        "6927c2c06031087f13a40db07c4b43c0b1414c1ea3e0172a9d76731a7e89c6a8"
    );
    let node3 = Node::new(("add".to_string(), 3), CidSet::new()).unwrap();
    assert_eq!(
        node3.cid,
        "522f8fa523f3fc0026a428dd5e9085bc7e15def15c45adf70b05a183da8ff5a2"
    );
    // node2 is given first, yet node3, whose identifier is smaller, is
    // listed first in the text that is hashed.
    let node4 = Node::new(
        ("add".to_string(), 4),
        CidSet::from_vec(vec![node2.cid.clone(), node3.cid.clone()]),
    )
    .unwrap();
    assert_eq!(
        node4.cid,
        "888c7eaf00c3faa076fbe65ccd27ecc798b0eced6c3a9bab3b35e1d0216309d9"
    );
    assert_eq!(
        node4.child_cids.to_vec(),
        vec![node3.cid.clone(), node2.cid.clone()]
    );
}

#[test]
fn cid_does_not_depend_on_how_the_children_were_given() {
    let a = Node::new(("add".to_string(), 1), CidSet::new()).unwrap();
    let b = Node::new(("add".to_string(), 2), CidSet::new()).unwrap();
    let one = Node::new(
        ("add".to_string(), 3),
        CidSet::from_vec(vec![a.cid.clone(), b.cid.clone()]),
    )
    .unwrap();
    let other = Node::new(
        ("add".to_string(), 3),
        CidSet::from_vec(vec![b.cid.clone(), a.cid.clone(), b.cid.clone()]),
    )
    .unwrap();
    assert_eq!(one.cid, other.cid);
    let again = Node::new(
        ("add".to_string(), 3),
        CidSet::from_vec(vec![a.cid.clone(), b.cid.clone()]),
    )
    .unwrap();
    assert_eq!(one.cid, again.cid);
}

#[test]
fn cid_depends_on_label_value_and_children() {
    let base = Node::new(("add".to_string(), 1), CidSet::new()).unwrap();
    let other_value = Node::new(("add".to_string(), 2), CidSet::new()).unwrap();
    let other_label = Node::new(("sub".to_string(), 1), CidSet::new()).unwrap();
    let with_child = Node::new(
        ("add".to_string(), 1),
        CidSet::from_vec(vec![base.cid.clone()]),
    )
    .unwrap();
    assert_ne!(base.cid, other_value.cid);
    assert_ne!(base.cid, other_label.cid);
    assert_ne!(base.cid, with_child.cid);
}

#[test]
fn payload_text_is_escaped_json() {
    let node = Node::new(("a\"b\\c".to_string(), -5), CidSet::new()).unwrap();
    assert_eq!(
        node.cid,
        "f514313b15f7dda98a4842f73d863065b7018dd233c4ce09e539c93ae2b98439"
    );
    let empty = Node::new((String::new(), 0), CidSet::new()).unwrap();
    assert_eq!(
        empty.cid,
        "665eab4930352438e83681c7485db2c2a5d2fbdd8b55730b0cc8607b1781e098"
    );
    let least = Node::new(("add".to_string(), i64::MIN), CidSet::new()).unwrap();
    assert_eq!(
        least.cid,
        "18fda2980ac3bbb4929e74bec5e06a8583f666c9bf3474620a92e6443e33f28c"
    );
}

#[test]
fn derive_cid_agrees_with_node_new() {
    let child = Node::new(("add".to_string(), 1), CidSet::new()).unwrap();
    let children = CidSet::from_vec(vec![child.cid.clone()]);
    let cid = derive_cid(&("add".to_string(), 2), children.as_slice()).unwrap();
    assert_eq!(
        cid,
        "6927c2c06031087f13a40db07c4b43c0b1414c1ea3e0172a9d76731a7e89c6a8"
    );
    assert_eq!(cid.len(), 64);
}

#[test]
fn clone_of_a_node_keeps_its_fields() {
    let child = Node::new(("add".to_string(), 1), CidSet::new()).unwrap();
    let node = Node::new(
        ("add".to_string(), 2),
        CidSet::from_vec(vec![child.cid.clone()]),
    )
    .unwrap();
    let copy = node.clone();
    assert_eq!(copy.cid, node.cid);
    assert_eq!(copy.payload, node.payload);
    assert_eq!(copy.child_cids.to_vec(), node.child_cids.to_vec());
}

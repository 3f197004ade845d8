use merkledag::cid::cid_less;
use merkledag::cid_set::CidSet;
use merkledag::dag_syncer::DagSyncer;
use merkledag::graph::Graph;
use merkledag::node::Node;
use merkledag::visited::Visited;

fn s(text: &str) -> String {
    text.to_string()
}

#[test]
fn cid_less_is_the_order_of_strings() {
    assert!(cid_less(&s("a"), &s("b")));
    assert!(!cid_less(&s("b"), &s("a")));
    assert!(!cid_less(&s("a"), &s("a")));
    assert!(cid_less(&s(""), &s("a")));
    assert!(!cid_less(&s(""), &s("")));
    assert!(cid_less(&s("ab"), &s("abc")));
    assert!(!cid_less(&s("abc"), &s("ab")));
    assert!(cid_less(&s("abc"), &s("abd")));
    assert!(cid_less(&s("Z"), &s("a")));
    assert!(cid_less(&s("z"), &s("é")));
    assert!(cid_less(&s("é"), &s("€")));
    let words = ["", "0", "09", "1", "a", "ab", "b", "é", "€"];
    for x in words {
        for y in words {
            assert_eq!(cid_less(&s(x), &s(y)), x < y);
        }
    }
}

#[test]
fn cid_set_keeps_members_once_and_in_order() {
    let mut set = CidSet::new();
    assert!(set.is_empty());
    assert_eq!(set.len(), 0);
    assert!(set.insert(s("m")));
    assert!(set.insert(s("a")));
    assert!(set.insert(s("z")));
    assert!(!set.insert(s("m")));
    assert!(set.insert(s("b")));
    assert_eq!(set.len(), 4);
    assert!(!set.is_empty());
    assert_eq!(set.to_vec(), vec![s("a"), s("b"), s("m"), s("z")]);
    assert_eq!(set.as_slice().to_vec(), vec![s("a"), s("b"), s("m"), s("z")]);
    assert_eq!(set.get(0), Some(&s("a")));
    assert_eq!(set.get(3), Some(&s("z")));
    assert_eq!(set.get(4), None);
    assert_eq!(CidSet::new().get(0), None);
    assert!(set.contains(&s("a")));
    assert!(set.contains(&s("z")));
    assert!(!set.contains(&s("c")));
    assert!(!set.contains(&s("")));
}

#[test]
fn cid_set_from_vec_sorts_and_drops_repeats() {
    let set = CidSet::from_vec(vec![s("c"), s("a"), s("c"), s("b"), s("a")]);
    assert_eq!(set.to_vec(), vec![s("a"), s("b"), s("c")]);
    assert!(CidSet::from_vec(Vec::new()).is_empty());
}

#[test]
fn cid_set_equality_is_by_members() {
    let one = CidSet::from_vec(vec![s("a"), s("b")]);
    let other = CidSet::from_vec(vec![s("b"), s("a"), s("a")]);
    let less = CidSet::from_vec(vec![s("a")]);
    let different = CidSet::from_vec(vec![s("a"), s("c")]);
    assert!(one.equals(&other));
    assert!(other.equals(&one));
    assert!(!one.equals(&less));
    assert!(!one.equals(&different));
    assert!(CidSet::new().equals(&CidSet::new()));
    assert!(one.equals(&one.clone()));
}

#[test]
fn graph_roots_are_a_set() {
    let mut graph = Graph::new();
    assert!(graph.get_nodes().is_empty());
    assert!(graph.add_node(s("b")));
    assert!(graph.add_node(s("a")));
    assert!(!graph.add_node(s("b")));
    assert_eq!(graph.get_nodes().to_vec(), vec![s("a"), s("b")]);
    assert!(graph.search(s("a")));
    assert!(!graph.search(s("c")));
    let copy = graph.clone();
    graph.delete_all_nodes();
    assert!(graph.get_nodes().is_empty());
    assert!(!graph.search(s("a")));
    assert_eq!(copy.get_nodes().to_vec(), vec![s("a"), s("b")]);
}

#[test]
fn store_returns_what_was_put() {
    let mut store = DagSyncer::new();
    assert_eq!(store.len(), 0);
    let node = Node::new((s("add"), 1), CidSet::new()).unwrap();
    assert!(store.get_node(&node.cid).is_none());
    assert!(!store.contains(&node.cid));
    store.put_node(node.cid.clone(), node.clone());
    assert_eq!(store.len(), 1);
    assert!(store.contains(&node.cid));
    let got = store.get_node(&node.cid).unwrap();
    assert_eq!(got.cid, node.cid);
    assert_eq!(got.payload, (s("add"), 1));
    assert!(store.get_node(&s("none")).is_none());
}

#[test]
fn store_put_twice_is_put_once() {
    let mut store = DagSyncer::new();
    let node = Node::new((s("add"), 1), CidSet::new()).unwrap();
    store.put_node(node.cid.clone(), node.clone());
    store.put_node(node.cid.clone(), node.clone());
    assert_eq!(store.len(), 1);
    let got = store.get_node(&node.cid).unwrap();
    assert_eq!(got.payload, (s("add"), 1));
}

#[test]
fn store_keeps_the_first_node_under_an_identifier() {
    let mut store = DagSyncer::new();
    let first = Node::new((s("add"), 1), CidSet::new()).unwrap();
    let second = Node::new((s("add"), 2), CidSet::new()).unwrap();
    store.put_node(s("k"), first);
    store.put_node(s("k"), second);
    assert_eq!(store.len(), 1);
    assert_eq!(store.get_node(&s("k")).unwrap().payload, (s("add"), 1));
}

#[test]
fn visited_lists_each_identifier_once_in_order_of_arrival() {
    let mut seen = Visited::new();
    assert_eq!(seen.len(), 0);
    assert!(!seen.contains(&s("x")));
    assert!(seen.insert(s("x")));
    assert!(seen.insert(s("a")));
    assert!(!seen.insert(s("x")));
    assert_eq!(seen.len(), 2);
    assert_eq!(seen.get(0), Some(&s("x")));
    assert_eq!(seen.get(1), Some(&s("a")));
    assert_eq!(seen.get(2), None);
    assert_eq!(seen.as_slice().to_vec(), vec![s("x"), s("a")]);
    assert!(seen.contains(&s("x")));
    assert!(seen.contains(&s("a")));
    assert!(!seen.contains(&s("b")));
}

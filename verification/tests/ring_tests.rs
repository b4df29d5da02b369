use consistent_hash::DefaultHash;
use consistent_hash::Node;
use consistent_hash::StaticHashRing;

fn keys_for(ring: &StaticHashRing<(), DefaultHash>, item: &str) -> Vec<String> {
    ring.calc_candidates(item).iter().map(|n| n.key.clone()).collect()
}

#[test]
fn it_works() {
    let mut nodes = Vec::new();
    nodes.push(Node::new("foo".to_string()).quantity(5));
    nodes.push(Node::new("bar".to_string()).quantity(5));
    nodes.push(Node::new("baz".to_string()).quantity(1));
    nodes.push(Node::new("baz".to_string()).quantity(2)); // ignored (duplicate key)

    let ring = StaticHashRing::new(DefaultHash, nodes);
    assert_eq!(ring.len(), 11);
    assert_eq!(ring.nodes().len(), 3);

    assert_eq!(keys_for(&ring, "aa"), ["bar", "foo", "baz"]);
    assert_eq!(keys_for(&ring, "bb"), ["foo", "bar", "baz"]);
}

#[test]
fn take_works() {
    let mut nodes = Vec::new();
    nodes.push(Node::new("foo".to_string()).quantity(5));
    nodes.push(Node::new("bar".to_string()).quantity(5));
    nodes.push(Node::new("baz".to_string()).quantity(1));

    let mut ring = StaticHashRing::new(DefaultHash, nodes);
    assert_eq!(ring.take("aa").unwrap().key, "bar");
    assert_eq!(ring.take("aa").unwrap().key, "foo");
    assert_eq!(ring.take("aa").unwrap().key, "bar");
    assert_eq!(ring.take("aa").unwrap().key, "bar");
    assert_eq!(ring.take("aa").unwrap().key, "foo");
    assert_eq!(ring.take("aa").unwrap().key, "foo");
    assert_eq!(ring.take("aa").unwrap().key, "foo");
    assert_eq!(ring.take("aa").unwrap().key, "bar");
    assert_eq!(ring.take("aa").unwrap().key, "baz");
}

#[test]
fn counts_after_construction() {
    let mut nodes = Vec::new();
    nodes.push(Node::new("a".to_string()).quantity(3));
    nodes.push(Node::new("b".to_string()).quantity(0));
    nodes.push(Node::new("c".to_string()).quantity(7));
    nodes.push(Node::new("a".to_string()).quantity(100)); // duplicate, ignored

    let ring = StaticHashRing::new(DefaultHash, nodes);
    assert_eq!(ring.real_node_count(), 3);
    assert_eq!(ring.virtual_node_count(), 10);
    assert_eq!(ring.len(), 10);
    assert_eq!(ring.nodes().len(), 3);
}

#[test]
fn duplicate_key_first_wins() {
    let mut nodes = Vec::new();
    nodes.push(Node::new("baz".to_string()).quantity(1));
    nodes.push(Node::new("baz".to_string()).quantity(2)); // ignored (duplicate key)

    let ring = StaticHashRing::new(DefaultHash, nodes);
    assert_eq!(ring.real_node_count(), 1);
    assert_eq!(ring.virtual_node_count(), 1);
    assert_eq!(ring.nodes()[0].quantity, 1);
}

#[test]
fn candidates_deterministic_without_mutation() {
    let mut nodes = Vec::new();
    nodes.push(Node::new("foo".to_string()).quantity(5));
    nodes.push(Node::new("bar".to_string()).quantity(5));
    nodes.push(Node::new("baz".to_string()).quantity(1));

    let ring = StaticHashRing::new(DefaultHash, nodes);
    let first = keys_for(&ring, "some-key");
    let second = keys_for(&ring, "some-key");
    assert_eq!(first, second);
    assert_eq!(ring.len(), 11);
}

#[test]
fn candidates_on_empty_ring() {
    let nodes: Vec<Node<()>> = Vec::new();
    let mut ring = StaticHashRing::new(DefaultHash, nodes);
    assert_eq!(ring.len(), 0);
    assert_eq!(ring.real_node_count(), 0);
    assert!(ring.calc_candidates("anything").is_empty());
    assert!(ring.take("anything").is_none());
}

#[test]
fn candidates_with_zero_quantity_node() {
    let mut nodes = Vec::new();
    nodes.push(Node::new("alive".to_string()).quantity(4));
    nodes.push(Node::new("idle".to_string()).quantity(0));

    let ring = StaticHashRing::new(DefaultHash, nodes);
    assert_eq!(ring.real_node_count(), 2);
    assert_eq!(ring.virtual_node_count(), 4);
    let keys = keys_for(&ring, "zz");
    assert_eq!(keys, ["alive"]);
}

#[test]
fn take_until_empty() {
    let mut nodes = Vec::new();
    nodes.push(Node::new("foo".to_string()).quantity(5));
    nodes.push(Node::new("bar".to_string()).quantity(5));
    nodes.push(Node::new("baz".to_string()).quantity(1));

    let mut ring = StaticHashRing::new(DefaultHash, nodes);
    for step in 0..11 {
        assert_eq!(ring.len(), 11 - step);
        assert!(ring.take("aa").is_some());
        assert_eq!(ring.real_node_count(), 3);
    }
    assert_eq!(ring.len(), 0);
    assert!(ring.take("aa").is_none());
    assert_eq!(ring.real_node_count(), 3);
}

#[test]
fn take_if_predicate_never_matches() {
    let mut nodes = Vec::new();
    nodes.push(Node::new("foo".to_string()).quantity(2));
    nodes.push(Node::new("bar".to_string()).quantity(2));

    let mut ring = StaticHashRing::new(DefaultHash, nodes);
    let taken = ring.take_if("aa", |_n| false);
    assert!(taken.is_none());
    assert_eq!(ring.len(), 4);
}

#[test]
fn take_if_selects_matching_node() {
    let mut nodes = Vec::new();
    nodes.push(Node::new("foo".to_string()).quantity(5));
    nodes.push(Node::new("bar".to_string()).quantity(5));
    nodes.push(Node::new("baz".to_string()).quantity(1));

    let mut ring = StaticHashRing::new(DefaultHash, nodes);
    let taken = ring.take_if("aa", |n| n.key == "baz");
    assert_eq!(taken.unwrap().key, "baz");
    assert_eq!(ring.len(), 10);
    assert_eq!(ring.real_node_count(), 3);
}

#[test]
fn exhausted_node_leaves_candidates_but_stays_registered() {
    let mut nodes = Vec::new();
    nodes.push(Node::new("foo".to_string()).quantity(5));
    nodes.push(Node::new("bar".to_string()).quantity(5));
    nodes.push(Node::new("baz".to_string()).quantity(1));

    let mut ring = StaticHashRing::new(DefaultHash, nodes);
    // "baz" has a single virtual node; removing it exhausts the real node.
    let taken = ring.take_if("aa", |n| n.key == "baz");
    assert_eq!(taken.unwrap().key, "baz");

    let keys = keys_for(&ring, "aa");
    assert!(!keys.contains(&"baz".to_string()));
    assert_eq!(keys.len(), 2);
    assert_eq!(ring.nodes().len(), 3);
    assert!(ring.nodes().iter().any(|n| n.key == "baz"));
}

#[test]
fn node_builders() {
    let node0 = Node { key: "foo".to_string(), value: 123, quantity: 7 };
    let node1 = Node::new("foo".to_string()).value(123).quantity(7);
    assert_eq!(node0, node1);

    let plain = Node::new("bar".to_string());
    assert_eq!(plain.key, "bar");
    assert_eq!(plain.value, ());
    assert_eq!(plain.quantity, 1);
}

#[test]
fn values_ride_along() {
    let mut nodes = Vec::new();
    nodes.push(Node::new("foo".to_string()).value(10u32).quantity(5));
    nodes.push(Node::new("bar".to_string()).value(20u32).quantity(5));
    nodes.push(Node::new("baz".to_string()).value(30u32).quantity(1));

    let ring = StaticHashRing::new(DefaultHash, nodes);
    let cands = ring.calc_candidates("aa");
    let pairs: Vec<(String, u32)> = cands.iter().map(|n| (n.key.clone(), n.value)).collect();
    assert_eq!(
        pairs,
        [
            ("bar".to_string(), 20),
            ("foo".to_string(), 10),
            ("baz".to_string(), 30),
        ]
    );
}

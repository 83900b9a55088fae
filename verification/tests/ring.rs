use conhash::{ConsistentHash, Hasher, Node};

#[derive(Debug, Clone, Eq, PartialEq)]
struct ServerNode {
    host: String,
    port: u16,
}

impl Node for ServerNode {
    // Ghost member of the trait; it has no run-time meaning and is never
    // called.
    fn spec_name(&self) -> vstd::seq::Seq<char> {
        panic!()
    }

    fn name(&self) -> String {
        format!("{}:{}", self.host, self.port)
    }

    fn duplicate(&self) -> Self {
        self.clone()
    }
}

impl ServerNode {
    fn new(host: &str, port: u16) -> ServerNode {
        ServerNode {
            host: host.to_owned(),
            port: port,
        }
    }
}

#[test]
fn test_basic() {
    let nodes = [
        ServerNode::new("localhost", 12345),
        ServerNode::new("localhost", 12346),
        ServerNode::new("localhost", 12347),
        ServerNode::new("localhost", 12348),
        ServerNode::new("localhost", 12349),
        ServerNode::new("localhost", 12350),
        ServerNode::new("localhost", 12351),
        ServerNode::new("localhost", 12352),
        ServerNode::new("localhost", 12353),
    ];

    const REPLICAS: usize = 20;

    let mut ch = ConsistentHash::new();

    for node in nodes.iter() {
        ch.add(node, REPLICAS);
    }

    assert_eq!(ch.len(), nodes.len() * REPLICAS);

    let node_for_hello = ch.get_str("hello").unwrap().clone();
    assert_eq!(node_for_hello, ServerNode::new("localhost", 12347));

    ch.remove(&ServerNode::new("localhost", 12350));
    assert_eq!(ch.get_str("hello").unwrap().clone(), node_for_hello);

    assert_eq!(ch.len(), (nodes.len() - 1) * REPLICAS);

    ch.remove(&ServerNode::new("localhost", 12347));
    assert_ne!(ch.get_str("hello").unwrap().clone(), node_for_hello);

    assert_eq!(ch.len(), (nodes.len() - 2) * REPLICAS);
}

#[test]
fn empty_ring_resolves_nothing() {
    let mut ch = ConsistentHash::<ServerNode, _>::new();
    assert!(ch.is_empty());
    assert_eq!(ch.len(), 0);
    assert!(ch.get(b"anything").is_none());
    assert!(ch.get_str("anything").is_none());
    assert!(ch.get_mut(b"anything").is_none());
    assert!(ch.get_str_mut("anything").is_none());
}

#[test]
fn nonempty_ring_always_resolves() {
    let mut ch = ConsistentHash::new();
    ch.add(&ServerNode::new("only", 1), 3);
    let keys: [&str; 5] = ["", "a", "hello", "zzzzzzzz", "\u{1f600}"];
    for key in keys.iter() {
        assert!(ch.get_str(key).is_some());
        assert_eq!(ch.get_str(key).unwrap().port, 1);
    }
}

#[test]
fn zero_replicas_registers_nothing() {
    let mut ch = ConsistentHash::new();
    ch.add(&ServerNode::new("ghost", 9), 0);
    assert_eq!(ch.len(), 0);
    assert!(ch.get_str("hello").is_none());
}

#[test]
fn removing_unknown_node_is_a_no_op() {
    let mut ch = ConsistentHash::new();
    ch.add(&ServerNode::new("kept", 1), 5);
    ch.remove(&ServerNode::new("never-added", 2));
    assert_eq!(ch.len(), 5);
}

#[test]
fn re_add_replaces_instead_of_duplicating() {
    let mut ch = ConsistentHash::new();
    let node = ServerNode::new("localhost", 4000);
    ch.add(&node, 7);
    let before = ch.get_str("some key").unwrap().clone();
    ch.add(&node, 7);
    assert_eq!(ch.len(), 7);
    assert_eq!(ch.get_str("some key").unwrap().clone(), before);
}

#[test]
fn re_add_with_new_count_rebalances() {
    let mut ch = ConsistentHash::new();
    let node = ServerNode::new("localhost", 4000);
    ch.add(&node, 12);
    assert_eq!(ch.len(), 12);
    ch.add(&node, 3);
    assert_eq!(ch.len(), 3);
    ch.add(&node, 0);
    assert_eq!(ch.len(), 0);
}

#[test]
fn removal_is_complete() {
    let mut ch = ConsistentHash::new();
    let a = ServerNode::new("a", 1);
    let b = ServerNode::new("b", 2);
    ch.add(&a, 10);
    ch.add(&b, 15);
    assert_eq!(ch.len(), 25);
    ch.remove(&b);
    assert_eq!(ch.len(), 10);
    for key in ["x", "y", "z", "hello", "world"].iter() {
        assert_eq!(ch.get_str(key).unwrap().clone(), a);
    }
    ch.remove(&a);
    assert!(ch.is_empty());
    assert!(ch.get_str("x").is_none());
}

#[test]
fn get_mut_reaches_the_stored_copy() {
    let mut ch = ConsistentHash::new();
    ch.add(&ServerNode::new("mutable", 80), 4);
    {
        let handle = ch.get_str_mut("some key").unwrap();
        assert_eq!(handle.host, "mutable");
        handle.port = 8080;
    }
    assert_eq!(ch.get_str("some key").unwrap().port, 8080);
    let again = ch.get_mut("some key".as_bytes()).unwrap();
    assert_eq!(again.port, 8080);
}

#[test]
fn default_is_an_empty_ring() {
    let ch: ConsistentHash<ServerNode, conhash::Md5Hasher> = Default::default();
    assert!(ch.is_empty());
}

/// A transparent digest function: the key itself is the ring position.
struct IdentityHasher;

impl Hasher for IdentityHasher {
    // Ghost member of the trait; it has no run-time meaning and is never
    // called.
    fn spec_hash(&self, _input: vstd::seq::Seq<u8>) -> vstd::seq::Seq<u8> {
        panic!()
    }

    fn hash(&self, input: &[u8]) -> Vec<u8> {
        input.to_vec()
    }
}

#[test]
fn custom_hash_wraparound_order() {
    let mut ch = ConsistentHash::with_hash(IdentityHasher);
    let a = ServerNode::new("a", 1);
    let c = ServerNode::new("c", 3);
    ch.add(&a, 1); // occupies position "a:1:0"
    ch.add(&c, 1); // occupies position "c:3:0"
    assert_eq!(ch.len(), 2);

    // "b" sits between "a:1:0" and "c:3:0": its successor is c's slot.
    assert_eq!(ch.get_str("b").unwrap().clone(), c);
    // "d" is past the greatest position: the lookup wraps to a's slot.
    assert_eq!(ch.get_str("d").unwrap().clone(), a);
    // A key at or before the smallest position resolves to a's slot.
    assert_eq!(ch.get_str("a").unwrap().clone(), a);
    // The exact smallest position resolves to itself.
    assert_eq!(ch.get(b"a:1:0").unwrap().clone(), a);
}

#[test]
fn decimal_replica_identifiers() {
    let mut ch = ConsistentHash::with_hash(IdentityHasher);
    let a = ServerNode::new("a", 1);
    let b = ServerNode::new("b", 2);
    // a's 12 slots sit at "a:1:0" .. "a:1:11"; b's single slot at "b:2:0".
    ch.add(&a, 12);
    ch.add(&b, 1);
    assert_eq!(ch.len(), 13);

    // Exact hits on multi-digit replica numbers.
    assert_eq!(ch.get(b"a:1:11").unwrap().clone(), a);
    assert_eq!(ch.get(b"a:1:9").unwrap().clone(), a);
    // "a:1:85" sorts before "a:1:9", a's last slot; with a leading zero in
    // the identifiers ("a:1:09") it would fall through to b instead.
    assert_eq!(ch.get(b"a:1:85").unwrap().clone(), a);
    // Past every slot of a, the next position is b's.
    assert_eq!(ch.get(b"a:1:95").unwrap().clone(), b);
}

#[test]
fn unrelated_removal_keeps_resolution() {
    let mut ch = ConsistentHash::with_hash(IdentityHasher);
    let a = ServerNode::new("a", 1);
    let c = ServerNode::new("c", 3);
    ch.add(&a, 2);
    ch.add(&c, 2);
    let owner = ch.get_str("b").unwrap().clone();
    assert_eq!(owner, c);
    ch.remove(&a);
    assert_eq!(ch.get_str("b").unwrap().clone(), owner);
}

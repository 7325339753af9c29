use shard_distribution::consistent_hashing::ConsistentHashing;

fn five_nodes() -> Vec<(String, i64)> {
    vec![
        ("node1".to_string(), 15),
        ("node2".to_string(), 25),
        ("node3".to_string(), 30),
        ("node4".to_string(), 35),
        ("node5".to_string(), 42),
    ]
}

#[test]
fn consistent_hashing_basic() {
    let nodes = five_nodes();
    let mut hasher = ConsistentHashing::new(nodes, 5);
    let nodes = hasher.distribute("key1".to_string(), Some(3), Some(10));
    let mut nodes = nodes.iter().cloned().collect::<Vec<String>>();
    nodes.sort_unstable();
    println!("key1 {nodes:?}");
    println!("nodes {:?}", hasher.nodes());
    println!();
    assert_eq!(nodes.len(), 3);

    let node = nodes.last().unwrap().clone();
    hasher.remove(node.clone());
    let nodes = hasher.distribute("key1".to_string(), Some(3), None);
    println!("{node} removed key1 {nodes:?}");
    println!("nodes {:?}", hasher.nodes());
    println!();
    assert!(!nodes.contains(&node));

    let nodes = hasher.distribute("key2".to_string(), None, None);
    println!("key2 no replicas {nodes:?}");
    println!("nodes {:?}", hasher.nodes());
    println!();
    assert!(nodes.is_empty());

    hasher.add("node6".to_string(), 10);
    let nodes = hasher.distribute("key2".to_string(), Some(3), Some(10));
    println!("node6 added key2 {nodes:?}");
    println!();
    println!("nodes {:?}", hasher.nodes());
    assert_eq!(nodes.len(), 3);

    hasher.remove("node6".to_string());
    hasher.remove("node5".to_string());
    hasher.remove("node4".to_string());
    hasher.remove("node3".to_string());
    let nodes = hasher.distribute("key3".to_string(), Some(3), Some(1));
    println!("node[3-6] removed key3 {nodes:?}");
    println!("nodes {:?}", hasher.nodes());
    println!();
    assert_eq!(nodes.len(), 2);

    let nodes = hasher.distribute("key4".to_string(), Some(3), Some(50));
    println!("use too many resources key4 {nodes:?}");
    println!("nodes {:?}", hasher.nodes());
    println!();
    assert_eq!(nodes.len(), 0);

    hasher.remove("node2".to_string());
    let nodes = hasher.distribute("key3".to_string(), Some(3), None);
    println!("node2 removed, lookup key3 {nodes:?}");
    println!("nodes {:?}", hasher.nodes());
    println!();
    assert_eq!(nodes.len(), 1);

    hasher.remove("node1".to_string());
    let nodes = hasher.distribute("key3".to_string(), Some(3), Some(5));
    println!("node1 removed key3 {nodes:?}");
    println!("nodes {:?}", hasher.nodes());
    assert_eq!(nodes.len(), 0);
}

#[test]
fn shard_distribution_basic() {
    let nodes = five_nodes();
    let mut hasher = ConsistentHashing::new(nodes, 5);
    let nodes = hasher.distribute("key1".to_string(), Some(3), Some(10));
    let mut nodes = nodes.iter().cloned().collect::<Vec<String>>();
    nodes.sort_unstable();
    println!("key1 {nodes:?}");
    println!("nodes {:?}", hasher.nodes());
    println!();
    assert_eq!(nodes.len(), 3);

    let node = nodes.last().unwrap().clone();
    hasher.remove(node.clone());
    let nodes = hasher.distribute("key1".to_string(), Some(3), None);
    println!("{node} removed key1 {nodes:?}");
    println!("nodes {:?}", hasher.nodes());
    println!();
    assert!(!nodes.contains(&node));

    let nodes = hasher.distribute("key2".to_string(), None, None);
    println!("key2 no replicas {nodes:?}");
    println!("nodes {:?}", hasher.nodes());
    println!();
    assert!(nodes.is_empty());

    hasher.add("node6".to_string(), 10);
    let nodes = hasher.distribute("key2".to_string(), Some(3), Some(10));
    println!("node6 added key2 {nodes:?}");
    println!();
    println!("nodes {:?}", hasher.nodes());
    assert_eq!(nodes.len(), 3);

    hasher.remove("node6".to_string());
    hasher.remove("node5".to_string());
    hasher.remove("node4".to_string());
    hasher.remove("node3".to_string());
    let nodes = hasher.distribute("key3".to_string(), Some(3), Some(1));
    println!("node[3-6] removed key3 {nodes:?}");
    println!("nodes {:?}", hasher.nodes());
    println!();
    assert_eq!(nodes.len(), 2);

    let nodes = hasher.distribute("key4".to_string(), Some(3), Some(50));
    println!("use too many resources key4 {nodes:?}");
    println!("nodes {:?}", hasher.nodes());
    println!();
    assert_eq!(nodes.len(), 0);

    hasher.remove("node2".to_string());
    let nodes = hasher.distribute("key3".to_string(), Some(3), None);
    println!("node2 removed, lookup key3 {nodes:?}");
    println!("nodes {:?}", hasher.nodes());
    println!();
    assert_eq!(nodes.len(), 1);

    hasher.remove("node1".to_string());
    let nodes = hasher.distribute("key3".to_string(), Some(3), Some(5));
    println!("node1 removed key3 {nodes:?}");
    println!("nodes {:?}", hasher.nodes());
    assert_eq!(nodes.len(), 0);
}

#[test]
fn lookup_is_deterministic() {
    let mut hasher = ConsistentHashing::new(five_nodes(), 5);
    let first = hasher.distribute("entity".to_string(), Some(3), None);
    let second = hasher.distribute("entity".to_string(), Some(3), None);
    assert_eq!(first, second);
    // a lookup changes no budget
    let budgets = hasher.nodes().clone();
    let _ = hasher.distribute("entity".to_string(), Some(5), None);
    assert_eq!(&budgets, hasher.nodes());
}

#[test]
fn replica_bound_holds() {
    let mut hasher = ConsistentHashing::new(five_nodes(), 5);
    for replica in 0..8u16 {
        let picked = hasher.distribute("some-key".to_string(), Some(replica), None);
        assert!(picked.len() <= replica as usize);
        assert!(picked.len() <= 5);
        let mut sorted = picked.clone();
        sorted.sort_unstable();
        sorted.dedup();
        assert_eq!(sorted.len(), picked.len());
    }
    // more replicas than nodes: every node is used, none twice
    let picked = hasher.distribute("other-key".to_string(), Some(9), None);
    assert_eq!(picked.len(), 5);
}

#[test]
fn overloaded_node_is_excluded() {
    let nodes: Vec<(String, i64)> = vec![
        ("small".to_string(), 1),
        ("big1".to_string(), 100),
        ("big2".to_string(), 100),
    ];
    let mut hasher = ConsistentHashing::new(nodes, 7);
    for k in 0..20 {
        let picked = hasher.distribute(format!("key{k}"), Some(3), Some(50));
        assert!(!picked.contains(&"small".to_string()));
    }
}

#[test]
fn budgets_are_debited_immediately() {
    let mut hasher = ConsistentHashing::new(vec![("only".to_string(), 10)], 3);
    let picked = hasher.distribute("entity".to_string(), Some(1), Some(4));
    assert_eq!(picked, vec!["only".to_string()]);
    assert_eq!(hasher.nodes(), &vec![("only".to_string(), 6)]);
    let picked = hasher.distribute("entity".to_string(), Some(1), Some(4));
    assert_eq!(picked, vec!["only".to_string()]);
    assert_eq!(hasher.nodes(), &vec![("only".to_string(), 2)]);
    // now below the bound: excluded, and the budget stays untouched
    let picked = hasher.distribute("entity".to_string(), Some(1), Some(4));
    assert!(picked.is_empty());
    assert_eq!(hasher.nodes(), &vec![("only".to_string(), 2)]);
}

#[test]
fn update_overwrites_known_nodes_only() {
    let mut hasher = ConsistentHashing::new(vec![("a".to_string(), 5)], 2);
    hasher.update("a".to_string(), 99);
    assert_eq!(hasher.nodes(), &vec![("a".to_string(), 99)]);
    hasher.update("ghostly".to_string(), 7);
    assert_eq!(hasher.nodes(), &vec![("a".to_string(), 99)]);
}

#[test]
fn removal_is_idempotent() {
    let mut once = ConsistentHashing::new(five_nodes(), 4);
    let mut twice = ConsistentHashing::new(five_nodes(), 4);
    once.remove("node3".to_string());
    twice.remove("node3".to_string());
    twice.remove("node3".to_string());
    assert_eq!(once.nodes(), twice.nodes());
    for k in 0..10 {
        let a = once.distribute(format!("key{k}"), Some(3), None);
        let b = twice.distribute(format!("key{k}"), Some(3), None);
        assert_eq!(a, b);
    }
}

#[test]
fn minimal_disruption_on_add_and_remove() {
    let mut hasher = ConsistentHashing::new(five_nodes(), 5);
    let mut owners = Vec::new();
    for k in 0..20 {
        let picked = hasher.distribute(format!("key{k}"), Some(1), None);
        owners.push(picked[0].clone());
    }
    // adding one node moves an entity only onto that node
    hasher.add("node6".to_string(), 50);
    for k in 0..20usize {
        let picked = hasher.distribute(format!("key{k}"), Some(1), None);
        assert!(picked[0] == owners[k] || picked[0] == "node6");
    }
    // removing it again restores every placement
    hasher.remove("node6".to_string());
    for k in 0..20usize {
        let picked = hasher.distribute(format!("key{k}"), Some(1), None);
        assert_eq!(picked[0], owners[k]);
    }
}

#[test]
fn empty_ring_yields_empty_results() {
    let mut hasher = ConsistentHashing::new(Vec::new(), 5);
    assert!(hasher.distribute("key".to_string(), Some(3), Some(10)).is_empty());
    assert!(hasher.distribute("key".to_string(), None, None).is_empty());
    hasher.remove("nobody".to_string());
    assert!(hasher.nodes().is_empty());
}

#[test]
fn zero_replicas_leave_the_ring_empty() {
    let mut hasher = ConsistentHashing::new(vec![("a".to_string(), 10)], 0);
    assert!(hasher.distribute("key".to_string(), Some(3), Some(1)).is_empty());
    assert_eq!(hasher.nodes(), &vec![("a".to_string(), 10)]);
    hasher.remove("a".to_string());
    assert!(hasher.nodes().is_empty());
}

#[test]
fn re_adding_a_node_replaces_it() {
    let mut hasher = ConsistentHashing::new(vec![("a".to_string(), 10)], 3);
    hasher.add("a".to_string(), 20);
    assert_eq!(hasher.nodes(), &vec![("a".to_string(), 20)]);
    let picked = hasher.distribute("key".to_string(), Some(1), None);
    assert_eq!(picked, vec!["a".to_string()]);
}

use shard_distribution::consistent_hashing::build_ring;
use shard_distribution::hash::hash;

#[test]
fn hash_is_deterministic() {
    assert_eq!(hash("node1-0"), hash("node1-0"));
    assert_ne!(hash("node1-0"), hash("node1-1"));
}

#[test]
fn hash_of_empty_string_is_pinned() {
    // the first eight bytes of the BLAKE3 digest of the empty string, read
    // big-endian
    assert_eq!(hash(""), 0xaf1349b9f5f9a1a6);
}

#[test]
fn build_ring_sorts_and_indexes_every_position() {
    let (ring, hash_to_node, node_to_hashes) =
        build_ring(vec!["a".to_string(), "b".to_string()], 4);
    assert_eq!(ring.len(), 8);
    assert!(ring.windows(2).all(|w| w[0] < w[1]));
    assert_eq!(hash_to_node.len(), 8);
    for (h, n) in &hash_to_node {
        assert!(ring.contains(h));
        assert!(n == "a" || n == "b");
    }
    assert_eq!(node_to_hashes.len(), 2);
    for (_, hs) in &node_to_hashes {
        assert_eq!(hs.len(), 4);
    }
}

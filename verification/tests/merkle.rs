use shard_distribution::merkle::Tree;

#[test]
fn create_a_merkle_tree() {
    let data: Vec<&[u8]> = vec![b"This", b"creates", b"a", b"balanced", b"merkle", b"tree"];

    let m_tree_root = Tree::new(data);

    assert!(m_tree_root.is_ok());
}

#[test]
fn no_chunks_is_an_error() {
    let data: Vec<&[u8]> = vec![];
    assert!(Tree::new(data).is_err());
}

#[test]
fn single_chunk_renders_its_digest() {
    // the BLAKE3 digest of the empty string starts with the byte 0xaf
    let data: Vec<&[u8]> = vec![b""];
    let tree = Tree::new(data).unwrap();
    assert_eq!(tree.render(), "Node(hash: [175..])\n");
}

#[test]
fn render_lists_children_one_level_deeper() {
    let data: Vec<&[u8]> = vec![b"", b""];
    let tree = Tree::new(data).unwrap();
    let text = tree.render();
    let lines: Vec<&str> = text.lines().collect();
    assert_eq!(lines.len(), 3);
    assert!(lines[0].starts_with("Node(hash: ["));
    assert_eq!(lines[1], "L:     Node(hash: [175..])");
    assert_eq!(lines[2], "R:     Node(hash: [175..])");
}

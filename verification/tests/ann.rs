use haystack_embedded::constants::{K, QUANTIZED_VECTOR_SIZE};
use haystack_embedded::errors::HaystackError;
use haystack_embedded::math::hamming_distance;
use haystack_embedded::structures::ann_tree::k_modes::{balanced_k_modes, find_modes};
use haystack_embedded::structures::ann_tree::node::{
    deserialize_node_type, serialize_node_type, Node, NodeType,
};
use haystack_embedded::structures::ann_tree::{collect_top_k, Tree};
use haystack_embedded::structures::filters::Filter;
use haystack_embedded::structures::metadata_index::KVPair;

type Vector = [u8; QUANTIZED_VECTOR_SIZE];

struct Lcg(u64);

impl Lcg {
    fn next(&mut self) -> u64 {
        self.0 = self.0.wrapping_mul(6364136223846793005).wrapping_add(1442695040888963407);
        self.0 >> 11
    }

    fn vector(&mut self) -> Vector {
        let mut v = [0u8; QUANTIZED_VECTOR_SIZE];
        for b in v.iter_mut() {
            *b = self.next() as u8;
        }
        v
    }

    fn perturb(&mut self, v: &Vector) -> Vector {
        let mut out = *v;
        for i in 0..QUANTIZED_VECTOR_SIZE * 8 {
            if self.next() % 40 == 0 {
                out[i / 8] ^= 1 << (i % 8);
            }
        }
        out
    }
}

fn kv(key: &str, value: &str) -> KVPair {
    KVPair::new(key.to_string(), value.to_string())
}

fn key_value() -> Filter {
    Filter::Eq("key".to_string(), "value".to_string())
}

#[test]
fn node_kinds_have_their_bytes() {
    assert_eq!(serialize_node_type(&NodeType::Leaf), [0]);
    assert_eq!(serialize_node_type(&NodeType::Internal), [1]);
    assert_eq!(deserialize_node_type(&[0]).unwrap(), NodeType::Leaf);
    assert_eq!(deserialize_node_type(&[1, 9]).unwrap(), NodeType::Internal);
    assert_eq!(deserialize_node_type(&[2]).err(), Some(HaystackError::Corruption));
    assert_eq!(deserialize_node_type(&[]).err(), Some(HaystackError::Corruption));
}

#[test]
fn new_nodes_are_empty() {
    let leaf = Node::new_leaf();
    assert_eq!(leaf.node_type, NodeType::Leaf);
    assert_eq!(leaf.offset, -1);
    assert_eq!(leaf.k, K);
    assert!(leaf.vectors.is_empty() && leaf.ids.is_empty() && leaf.metadata.is_empty());
    assert!(!leaf.is_full());
    let internal = Node::new_internal();
    assert_eq!(internal.node_type, NodeType::Internal);
    assert!(internal.children.is_empty());
    let default = Node::default();
    assert_eq!(default.node_type, NodeType::Leaf);
}

#[test]
fn mode_is_the_bitwise_majority() {
    let a = [0b0000_1111u8; QUANTIZED_VECTOR_SIZE];
    let b = [0b0011_0011u8; QUANTIZED_VECTOR_SIZE];
    let c = [0b0101_0101u8; QUANTIZED_VECTOR_SIZE];
    let mode = find_modes(&vec![a, b, c]);
    assert_eq!(mode.to_vec(), vec![0b0001_0111u8; QUANTIZED_VECTOR_SIZE]);
    let tie = find_modes(&vec![a, b]);
    assert_eq!(tie.to_vec(), vec![0b0000_0011u8; QUANTIZED_VECTOR_SIZE]);
    let none = find_modes(&vec![]);
    assert_eq!(none.to_vec(), vec![0u8; QUANTIZED_VECTOR_SIZE]);
}

#[test]
fn clusters_are_balanced() {
    let mut rng = Lcg(7);
    let low = [0u8; QUANTIZED_VECTOR_SIZE];
    let high = [0xffu8; QUANTIZED_VECTOR_SIZE];
    let mut vectors = Vec::new();
    for i in 0..64 {
        vectors.push(rng.perturb(if i < 60 { &low } else { &high }));
    }
    let side = balanced_k_modes(&vectors);
    assert_eq!(side.len(), 64);
    let ones = side.iter().filter(|s| **s).count();
    assert!(ones >= 16 && ones <= 48);
    for i in 60..64 {
        assert_eq!(side[i], side[60]);
    }
    let pair = balanced_k_modes(&vec![low, high]);
    assert!(pair[0] != pair[1]);
}

#[test]
fn split_keeps_every_entry() {
    let mut rng = Lcg(11);
    let mut node = Node::new_leaf();
    for i in 0..64u128 {
        node.vectors.push(rng.vector());
        node.ids.push(i);
        node.metadata.push(vec![kv("n", &i.to_string())]);
    }
    assert!(node.is_full());
    let originals = node.vectors.clone();
    let siblings = node.split().unwrap();
    assert_eq!(siblings.len(), 1);
    let sibling = &siblings[0];
    assert_eq!(node.vectors.len() + sibling.vectors.len(), 64);
    assert!(node.vectors.len() >= 16 && sibling.vectors.len() >= 16);
    assert_eq!(node.ids.len(), node.vectors.len());
    assert_eq!(sibling.metadata.len(), sibling.vectors.len());
    let mut ids: Vec<u128> = node.ids.iter().chain(sibling.ids.iter()).cloned().collect();
    ids.sort();
    assert_eq!(ids, (0..64u128).collect::<Vec<u128>>());
    for (place, id) in node.ids.iter().enumerate() {
        assert_eq!(node.vectors[place], originals[*id as usize]);
        assert_eq!(node.metadata[place][0].value, id.to_string());
    }
    let mut small = Node::new_leaf();
    small.vectors.push(rng.vector());
    small.ids.push(1);
    small.metadata.push(vec![]);
    assert_eq!(small.split().err(), Some(HaystackError::Corruption));
    assert_eq!(small.vectors.len(), 1);
}

#[test]
fn node_image_round_trips() {
    let mut rng = Lcg(3);
    let mut node = Node::new_leaf();
    node.offset = 4;
    node.is_root = true;
    node.parent_offset = Some(2);
    for i in 0..3u128 {
        node.vectors.push(rng.vector());
        node.ids.push(i + 100);
        node.metadata.push(vec![kv("key", "value"), kv("n", &i.to_string())]);
    }
    let bytes = node.serialize();
    assert_eq!(bytes[0], 0);
    assert_eq!(bytes[1], 1);
    assert_eq!(&bytes[2..10], &[2, 0, 0, 0, 0, 0, 0, 0]);
    assert_eq!(&bytes[10..18], &[4, 0, 0, 0, 0, 0, 0, 0]);
    assert_eq!(&bytes[18..22], &[3, 0, 0, 0]);
    let back = Node::deserialize(&bytes).unwrap();
    assert_eq!(back.vectors, node.vectors);
    assert_eq!(back.ids, node.ids);
    assert_eq!(back.children, node.children);
    assert_eq!(back.offset, 4);
    assert_eq!(back.parent_offset, Some(2));
    assert!(back.is_root);
    assert_eq!(back.metadata.len(), 3);
    assert_eq!(back.metadata[2][1].value, "2");
    assert_eq!(
        Node::deserialize(&bytes[..bytes.len() - 1]).err(),
        Some(HaystackError::Corruption)
    );

    let mut internal = Node::new_internal();
    internal.vectors.push(rng.vector());
    internal.children.push(7);
    let back = Node::deserialize(&internal.serialize()).unwrap();
    assert_eq!(back.node_type, NodeType::Internal);
    assert_eq!(back.children, vec![7]);
    assert_eq!(back.parent_offset, None);
}

#[test]
fn nearest_items_come_first() {
    let query = [0u8; QUANTIZED_VECTOR_SIZE];
    let mut items = Vec::new();
    for ones in [5usize, 1, 3, 1, 9] {
        let mut v = [0u8; QUANTIZED_VECTOR_SIZE];
        for i in 0..ones {
            v[i] = 1;
        }
        items.push(v);
    }
    assert_eq!(collect_top_k(&query, &items, 3), vec![(1, 1), (3, 1), (2, 3)]);
    assert_eq!(collect_top_k(&query, &items, 0), vec![]);
    assert_eq!(collect_top_k(&query, &items, 9).len(), 5);
}

#[test]
fn insert_keeps_every_entry() {
    let mut rng = Lcg(5);
    let mut tree = Tree::new().unwrap();
    let mut vectors = Vec::new();
    for i in 0..1500u128 {
        let v = rng.vector();
        vectors.push(v);
        tree.insert(v, i, vec![kv("key", "value")]).unwrap();
    }
    assert_eq!(tree.len(), 1500);
    let lines = tree.summarize_tree();
    assert_eq!(lines[0].depth, 0);
    assert_eq!(lines[0].offset, tree.storage_manager.root_offset());
    assert_eq!(lines[0].node_type, NodeType::Internal);
    for node in tree.storage_manager.data.iter() {
        assert!(node.vectors.len() <= K);
        match node.node_type {
            NodeType::Internal => assert_eq!(node.children.len(), node.vectors.len()),
            NodeType::Leaf => {
                assert_eq!(node.ids.len(), node.vectors.len());
                assert_eq!(node.metadata.len(), node.vectors.len());
            }
        }
    }
    let leaves: usize = lines
        .iter()
        .filter(|l| l.node_type == NodeType::Leaf)
        .map(|l| l.vectors)
        .sum();
    assert_eq!(leaves, 1500);
    let found = tree.search(vectors[700], 1, key_value());
    assert_eq!(found.len(), 1);
}

#[test]
fn search_is_exact_in_a_single_leaf() {
    let mut rng = Lcg(9);
    let mut tree = Tree::new().unwrap();
    let query = rng.vector();
    let mut expected: Vec<(u16, u128)> = Vec::new();
    for i in 0..40u128 {
        let v = rng.perturb(&query);
        let color = if i % 2 == 0 { "red" } else { "blue" };
        tree.insert(v, i, vec![kv("color", color)]).unwrap();
        if i % 2 == 0 {
            expected.push((hamming_distance(&query, &v), i));
        }
    }
    expected.sort();
    let red = Filter::Eq("color".to_string(), "red".to_string());
    let found = tree.search(query, 5, red);
    let want: Vec<u128> = expected.iter().take(5).map(|h| h.1).collect();
    assert_eq!(found, want);
    assert!(tree
        .search(query, 0, Filter::Eq("color".to_string(), "red".to_string()))
        .is_empty());
    assert!(tree
        .search(query, 5, Filter::Eq("color".to_string(), "green".to_string()))
        .is_empty());
}

#[test]
fn bulk_load_finds_the_perturbed_cohort() {
    let mut rng = Lcg(42);
    let query = rng.vector();
    let mut vectors = Vec::new();
    let mut ids = Vec::new();
    let mut metadata = Vec::new();
    for i in 0..20u128 {
        vectors.push(rng.perturb(&query));
        ids.push(i);
        metadata.push(vec![kv("key", "value")]);
    }
    for i in 0..1000u128 {
        vectors.push(rng.vector());
        ids.push(1000 + i);
        metadata.push(vec![kv("key", "value")]);
    }
    let mut tree = Tree::new().unwrap();
    tree.bulk_insert_and_calibrate(vectors, ids, metadata).unwrap();
    assert_eq!(tree.len(), 1020);
    let found = tree.search(query, 10, key_value());
    assert_eq!(found.len(), 10);
    assert!(found.iter().filter(|id| **id < 20).count() >= 8);

    tree.true_calibrate().unwrap();
    assert_eq!(tree.len(), 1020);
    let found = tree.search(query, 10, key_value());
    assert_eq!(found.len(), 10);
    assert!(found.iter().filter(|id| **id < 20).count() >= 8);
}

#[test]
fn clustering_calibration_keeps_nodes_within_the_cap() {
    let mut rng = Lcg(13);
    let mut tree = Tree::new().unwrap();
    let mut vectors = Vec::new();
    let mut ids = Vec::new();
    let mut metadata = Vec::new();
    for i in 0..6000u128 {
        vectors.push(rng.vector());
        ids.push(i);
        metadata.push(vec![]);
    }
    tree.batch_insert(vectors[..100].to_vec(), ids[..100].to_vec(), metadata[..100].to_vec())
        .unwrap();
    tree.bulk_insert_and_calibrate(vectors[100..].to_vec(), ids[100..].to_vec(), metadata[100..].to_vec())
        .unwrap();
    tree.true_calibrate().unwrap();
    assert_eq!(tree.len(), 6000);
    let lines = tree.summarize_tree();
    let reached: usize = lines
        .iter()
        .filter(|l| l.node_type == NodeType::Leaf)
        .map(|l| l.vectors)
        .sum();
    assert_eq!(reached, 6000);
    for line in lines.iter() {
        assert!(line.vectors <= K);
        if line.node_type == NodeType::Internal {
            assert_eq!(line.children, line.vectors);
            assert!(line.children >= 1);
        }
    }
    assert!(lines.iter().map(|l| l.depth).max().unwrap() >= 2);
}

#[test]
fn tree_image_round_trips() {
    let mut rng = Lcg(21);
    let mut tree = Tree::new().unwrap();
    let query = rng.vector();
    for i in 0..300u128 {
        tree.insert(rng.perturb(&query), i, vec![kv("key", "value"), kv("n", &i.to_string())])
            .unwrap();
    }
    let bytes = tree.to_binary();
    assert_eq!(&bytes[..8], &[64, 0, 0, 0, 0, 0, 0, 0]);
    let mut back = Tree::from_binary(bytes).unwrap();
    assert_eq!(back.len(), 300);
    assert_eq!(back.k, 64);
    let mut ids: Vec<u128> = back
        .storage_manager
        .data
        .iter()
        .filter(|n| n.node_type == NodeType::Leaf)
        .flat_map(|n| n.ids.clone())
        .collect();
    ids.sort();
    assert_eq!(ids, (0..300u128).collect::<Vec<u128>>());
    assert_eq!(back.search(query, 3, key_value()).len(), 3);
    assert_eq!(
        Tree::from_binary(vec![9, 9, 9]).err(),
        Some(HaystackError::Corruption)
    );
}

#[test]
fn clusters_follow_the_nearer_centroid() {
    let low = [0u8; QUANTIZED_VECTOR_SIZE];
    let high = [0xffu8; QUANTIZED_VECTOR_SIZE];
    let mut nearly_low = low;
    nearly_low[0] = 1;
    let mut nearly_high = high;
    nearly_high[5] = 0x7f;
    let vectors = vec![low, high, nearly_low, nearly_high, low, high, nearly_high, low];
    let side = balanced_k_modes(&vectors);
    assert_eq!(side, vec![false, true, false, true, false, true, true, false]);
}

#[test]
fn a_lonely_outlier_gets_company_from_the_border() {
    let low = [0u8; QUANTIZED_VECTOR_SIZE];
    let high = [0xffu8; QUANTIZED_VECTOR_SIZE];
    let mut vectors = vec![low; 7];
    vectors.push(high);
    let mut lean = low;
    for b in lean.iter_mut().take(40) {
        *b = 0xff;
    }
    vectors[3] = lean;
    let side = balanced_k_modes(&vectors);
    assert_eq!(side.iter().filter(|s| **s).count(), 2);
    assert!(side[7]);
    assert!(side[3]);
}

#[test]
fn calibration_puts_every_leaf_at_one_depth() {
    let mut rng = Lcg(17);
    let mut tree = Tree::new().unwrap();
    for i in 0..700u128 {
        tree.insert(rng.vector(), i, vec![]).unwrap();
    }
    for clustering in [false, true] {
        if clustering {
            tree.true_calibrate().unwrap();
        } else {
            tree.calibrate().unwrap();
        }
        let lines = tree.summarize_tree();
        let depths: Vec<usize> = lines
            .iter()
            .filter(|l| l.node_type == NodeType::Leaf)
            .map(|l| l.depth)
            .collect();
        assert!(depths.iter().all(|d| *d == depths[0]));
        let leaves = tree
            .storage_manager
            .data
            .iter()
            .filter(|n| n.node_type == NodeType::Leaf)
            .count();
        assert_eq!(depths.len(), leaves);
        let reached: usize = lines
            .iter()
            .filter(|l| l.node_type == NodeType::Leaf)
            .map(|l| l.vectors)
            .sum();
        assert_eq!(reached, 700);
    }
}

#[test]
fn a_summary_has_a_line_for_every_child() {
    let mut rng = Lcg(23);
    let mut tree = Tree::new().unwrap();
    for i in 0..400u128 {
        tree.insert(rng.vector(), i, vec![]).unwrap();
    }
    let lines = tree.summarize_tree();
    for line in lines.iter() {
        let node = &tree.storage_manager.data[line.offset as usize];
        assert_eq!(line.children, node.children.len());
        for child in node.children.iter() {
            assert!(lines
                .iter()
                .any(|l| l.offset == *child && l.depth == line.depth + 1));
        }
    }
}

#[test]
fn every_leaf_is_reached_after_inserts() {
    let mut rng = Lcg(29);
    let mut tree = Tree::new().unwrap();
    for i in 0..3000u128 {
        tree.insert(rng.vector(), i, vec![]).unwrap();
    }
    let lines = tree.summarize_tree();
    let leaves = tree
        .storage_manager
        .data
        .iter()
        .filter(|n| n.node_type == NodeType::Leaf)
        .count();
    let with_line = lines.iter().filter(|l| l.node_type == NodeType::Leaf).count();
    assert_eq!(with_line, leaves);
    let mut offsets: Vec<i64> = lines.iter().map(|l| l.offset).collect();
    offsets.sort();
    offsets.dedup();
    assert_eq!(offsets.len(), lines.len());
}

#[test]
fn a_new_tree_has_room() {
    let tree = Tree::new().unwrap();
    assert!(tree.has_room_for(0));
    assert!(tree.has_room_for(1));
    assert!(tree.has_room_for(0x1000_0000));
    assert!(tree.has_room_for(3_037_000_497));
    assert!(!tree.has_room_for(3_037_000_499));
    assert!(!tree.has_room_for(usize::MAX));
    assert!(tree.has_room_to_rebuild());
    assert!(tree.has_room_for_bulk(1_000_000));
    assert!(!tree.has_room_for_bulk(usize::MAX));
}

#[test]
fn a_rebuild_leaves_centroids_and_parents_in_order() {
    let mut rng = Lcg(31);
    let mut tree = Tree::new().unwrap();
    for i in 0..900u128 {
        tree.insert(rng.vector(), i, vec![]).unwrap();
    }
    for clustering in [true, false] {
        let first = tree.storage_manager.data.len();
        if clustering {
            tree.true_calibrate().unwrap();
        } else {
            tree.calibrate().unwrap();
        }
        let nodes = &tree.storage_manager.data;
        assert!(nodes.len() > first);
        let root = tree.storage_manager.root_offset() as usize;
        assert!(root >= first);
        assert!(nodes[root].is_root);
        assert_eq!(nodes[root].parent_offset, None);
        for at in first..nodes.len() {
            let node = &nodes[at];
            assert_eq!(node.node_type, NodeType::Internal);
            assert_eq!(node.children.len(), node.vectors.len());
            assert!(node.children.len() >= 1 && node.children.len() <= tree.k);
            for (slot, child) in node.children.iter().enumerate() {
                let below = &nodes[*child as usize];
                assert_eq!(node.vectors[slot], find_modes(&below.vectors));
                assert_eq!(below.parent_offset, Some(at as i64));
            }
        }
    }
}

#[test]
fn no_child_stands_twice_under_a_parent() {
    let mut rng = Lcg(37);
    let mut tree = Tree::new().unwrap();
    for i in 0..2500u128 {
        tree.insert(rng.vector(), i, vec![]).unwrap();
    }
    let nodes = &tree.storage_manager.data;
    for node in nodes.iter() {
        let mut children = node.children.clone();
        children.sort();
        children.dedup();
        assert_eq!(children.len(), node.children.len());
        assert!(children.iter().all(|c| *c >= 0 && (*c as usize) < nodes.len()));
    }
    let mut ids: Vec<u128> = tree.search(rng.vector(), 2500, key_value_or_all());
    let found = ids.len();
    ids.sort();
    ids.dedup();
    assert_eq!(ids.len(), found);
}

fn key_value_or_all() -> Filter {
    Filter::And(vec![])
}

#[test]
fn an_entry_goes_to_the_leaf_of_the_root_while_it_has_room() {
    let mut rng = Lcg(41);
    let mut tree = Tree::new().unwrap();
    for i in 0..10u128 {
        let v = rng.vector();
        tree.insert(v, i, vec![kv("n", &i.to_string())]).unwrap();
        let root = &tree.storage_manager.data[tree.storage_manager.root_offset() as usize];
        assert_eq!(root.node_type, NodeType::Leaf);
        assert_eq!(root.vectors.len(), i as usize + 1);
        assert_eq!(root.vectors[i as usize], v);
        assert_eq!(root.ids[i as usize], i);
        assert_eq!(root.metadata[i as usize][0].value, i.to_string());
    }
}

#[test]
fn an_image_gives_the_nodes_back_at_their_offsets() {
    let mut rng = Lcg(43);
    let mut tree = Tree::new().unwrap();
    for i in 0..1200u128 {
        tree.insert(rng.vector(), i, vec![kv("n", &i.to_string())]).unwrap();
    }
    tree.true_calibrate().unwrap();
    let image = tree.to_binary();
    let mut back = Tree::from_binary(image.clone()).unwrap();
    assert_eq!(back.k, tree.k);
    assert_eq!(back.storage_manager.root_offset(), tree.storage_manager.root_offset());
    assert_eq!(back.storage_manager.data.len(), tree.storage_manager.data.len());
    for (a, b) in tree.storage_manager.data.iter().zip(back.storage_manager.data.iter()) {
        assert_eq!(a.vectors, b.vectors);
        assert_eq!(a.ids, b.ids);
        assert_eq!(a.children, b.children);
        assert_eq!(a.node_type, b.node_type);
        assert_eq!(a.offset, b.offset);
        assert_eq!(a.is_root, b.is_root);
        assert_eq!(a.metadata.len(), b.metadata.len());
    }
    assert_eq!(back.to_binary(), image);
    let query = rng.vector();
    assert_eq!(
        back.search(query, 7, Filter::And(vec![])),
        tree.search(query, 7, Filter::And(vec![]))
    );
}

#[test]
fn an_image_of_nodes_out_of_order_is_rejected() {
    let mut rng = Lcg(47);
    let mut tree = Tree::new().unwrap();
    for i in 0..200u128 {
        tree.insert(rng.vector(), i, vec![]).unwrap();
    }
    let root = tree.storage_manager.root_offset() as usize;
    assert_eq!(tree.storage_manager.data[root].node_type, NodeType::Internal);
    let good = tree.to_binary();
    assert!(Tree::from_binary(good).is_ok());

    let first = tree.storage_manager.data[root].children[0];
    let second = tree.storage_manager.data[root].children[1];

    tree.storage_manager.data[root].children[1] = first;
    assert_eq!(
        Tree::from_binary(tree.to_binary()).err(),
        Some(HaystackError::Corruption)
    );
    tree.storage_manager.data[root].children[1] = second;

    tree.storage_manager.data[root].children[0] = root as i64;
    assert_eq!(
        Tree::from_binary(tree.to_binary()).err(),
        Some(HaystackError::Corruption)
    );
    tree.storage_manager.data[root].children[0] = first;

    tree.storage_manager.data[root].children[0] = 1_000_000;
    assert_eq!(
        Tree::from_binary(tree.to_binary()).err(),
        Some(HaystackError::Corruption)
    );
    tree.storage_manager.data[root].children[0] = first;

    let centroid = tree.storage_manager.data[root].vectors.pop().unwrap();
    assert_eq!(
        Tree::from_binary(tree.to_binary()).err(),
        Some(HaystackError::Corruption)
    );
    tree.storage_manager.data[root].vectors.push(centroid);

    let lost = tree.storage_manager.data[root].children.pop().unwrap();
    let spare = tree.storage_manager.data[root].vectors.pop().unwrap();
    assert_eq!(
        Tree::from_binary(tree.to_binary()).err(),
        Some(HaystackError::Corruption)
    );
    tree.storage_manager.data[root].children.push(lost);
    tree.storage_manager.data[root].vectors.push(spare);
    assert!(Tree::from_binary(tree.to_binary()).is_ok());
}

use haystack_embedded::errors::HaystackError;
use haystack_embedded::structures::inverted_index::{InvertedIndex, InvertedIndexItem};
use haystack_embedded::structures::metadata_index::{KVPair, MetadataIndexItem};
use haystack_embedded::structures::tree::key_order::{bytes_less, TreeKey};
use haystack_embedded::structures::tree::node::{read_length, serialize_length, NodeType};
use haystack_embedded::structures::tree::serialization::{TreeDeserialization, TreeSerialization};
use haystack_embedded::structures::tree::Tree;

fn kv(key: &str, value: &str) -> KVPair {
    KVPair::new(key.to_string(), value.to_string())
}

#[test]
fn attribute_image_has_lengths_in_eight_bytes() {
    let bytes = kv("ab", "xyz").serialize();
    assert_eq!(
        bytes,
        vec![2, 0, 0, 0, 0, 0, 0, 0, b'a', b'b', 3, 0, 0, 0, 0, 0, 0, 0, b'x', b'y', b'z']
    );
}

#[test]
fn attribute_round_trips() {
    for (key, value) in [("color", "red"), ("", ""), ("k", "grüße ☃"), ("a b", "c\n")] {
        let pair = kv(key, value);
        let back = KVPair::deserialize(&pair.serialize()).unwrap();
        assert_eq!(back.key, key);
        assert_eq!(back.value, value);
    }
}

#[test]
fn attribute_image_is_checked() {
    assert_eq!(KVPair::deserialize(&[1, 2]).err(), Some(HaystackError::Corruption));
    let mut bytes = kv("ab", "xyz").serialize();
    bytes.push(0);
    assert_eq!(KVPair::deserialize(&bytes).err(), Some(HaystackError::Corruption));
    let broken = vec![1, 0, 0, 0, 0, 0, 0, 0, 0xff, 0, 0, 0, 0, 0, 0, 0, 0];
    assert_eq!(KVPair::deserialize(&broken).err(), Some(HaystackError::Corruption));
}

#[test]
fn attributes_are_ordered_by_key_then_value() {
    assert!(kv("a", "z").less_than(&kv("b", "a")));
    assert!(kv("a", "a").less_than(&kv("a", "b")));
    assert!(kv("a", "").less_than(&kv("a", "a")));
    assert!(kv("a", "b").less_than(&kv("ab", "")));
    assert!(!kv("a", "b").less_than(&kv("a", "b")));
    assert!(!kv("b", "a").less_than(&kv("a", "z")));
    assert!(kv("a", "b").same(&kv("a", "b")));
    assert!(!kv("a", "b").same(&kv("a", "c")));
    assert_eq!(kv("a", "z") < kv("b", "a"), kv("a", "z").less_than(&kv("b", "a")));
    assert!(bytes_less(b"abc", b"abd"));
    assert!(bytes_less(b"ab", b"abc"));
    assert!(!bytes_less(b"abc", b"ab"));
    assert!(!bytes_less(b"", b""));
}

#[test]
fn record_round_trips() {
    let item = MetadataIndexItem {
        kvs: vec![kv("color", "red"), kv("size", "xl"), kv("color", "red")],
        id: 0x0123_4567_89ab_cdef_0011_2233_4455_6677,
        vector_index: 42,
    };
    let back = MetadataIndexItem::deserialize(&item.serialize()).unwrap();
    assert_eq!(back.id, item.id);
    assert_eq!(back.vector_index, 42);
    assert_eq!(back.kvs.len(), 3);
    assert_eq!(back.kvs[1].key, "size");
    assert_eq!(back.kvs[2].value, "red");
    assert_eq!(
        MetadataIndexItem::deserialize(&[0, 0, 0]).err(),
        Some(HaystackError::Corruption)
    );
}

#[test]
fn posting_list_round_trips() {
    let item = InvertedIndexItem { indices: vec![0, 3, 9], ids: vec![7, 8, 9] };
    let bytes = item.serialize();
    assert_eq!(bytes.len(), 8 + 3 * 8 + 8 + 3 * 16);
    let back = InvertedIndexItem::deserialize(&bytes).unwrap();
    assert_eq!(back.indices, vec![0, 3, 9]);
    assert_eq!(back.ids, vec![7, 8, 9]);
    assert_eq!(
        InvertedIndexItem::deserialize(&bytes[..bytes.len() - 1]).err(),
        Some(HaystackError::Corruption)
    );
}

#[test]
fn insert_append_concatenates_posting_lists() {
    let mut index = InvertedIndex::new();
    index
        .insert_append(kv("a", "x"), InvertedIndexItem { indices: vec![0], ids: vec![10] })
        .unwrap();
    index
        .insert_append(kv("a", "x"), InvertedIndexItem { indices: vec![2, 5], ids: vec![12, 15] })
        .unwrap();
    index
        .insert_append(kv("a", "y"), InvertedIndexItem { indices: vec![1], ids: vec![11] })
        .unwrap();
    let list = index.get(kv("a", "x")).unwrap();
    assert_eq!(list.indices, vec![0, 2, 5]);
    assert_eq!(list.ids, vec![10, 12, 15]);
    assert_eq!(index.get(kv("a", "y")).unwrap().ids, vec![11]);
    assert!(index.get(kv("a", "z")).is_none());
    assert_eq!(index.len(), 2);

    let bytes = index.to_binary();
    let mut back = InvertedIndex::from_binary(bytes).unwrap();
    assert_eq!(back.get(kv("a", "x")).unwrap().indices, vec![0, 2, 5]);
    assert_eq!(back.len(), 2);
}

#[test]
fn tree_of_strings_keeps_every_key() {
    let mut tree: Tree<KVPair, String> = Tree::new().unwrap();
    for i in 0..2000 {
        let key = kv(&format!("k{}", (i * 7919) % 2000), &format!("v{}", i % 3));
        tree.insert(key, format!("{}", i)).unwrap();
    }
    assert_eq!(tree.len(), 2000);
    for i in 0..2000 {
        let key = kv(&format!("k{}", (i * 7919) % 2000), &format!("v{}", i % 3));
        assert_eq!(tree.search(key).unwrap(), Some(format!("{}", i)));
    }
    assert_eq!(tree.has_key(kv("k1", "v9")).unwrap(), false);
    let all = tree.entries();
    assert_eq!(all.len(), 2000);
}

#[test]
fn tree_image_is_checked() {
    assert_eq!(
        Tree::<i32, String>::from_binary(vec![1, 2, 3]).err(),
        Some(HaystackError::Corruption)
    );
    let mut tree: Tree<i32, String> = Tree::new().unwrap();
    tree.insert(1, "one".to_string()).unwrap();
    let mut bytes = tree.to_binary();
    assert_eq!(&bytes[..8], &[128, 0, 0, 0, 0, 0, 0, 0]);
    bytes.pop();
    assert_eq!(
        Tree::<i32, String>::from_binary(bytes).err(),
        Some(HaystackError::Corruption)
    );
    let mut small = tree.to_binary();
    small[0] = 2;
    assert_eq!(
        Tree::<i32, String>::from_binary(small).err(),
        Some(HaystackError::Corruption)
    );
}

#[test]
fn range_is_half_open_and_ascending() {
    let mut tree: Tree<i32, String> = Tree::new().unwrap();
    for i in 0..1000 {
        let key = (i * 389) % 1000;
        tree.insert(key * 2, format!("v{}", key)).unwrap();
    }
    let found = tree.get_range(100, 121).unwrap();
    let keys: Vec<i32> = found.iter().map(|e| e.0).collect();
    assert_eq!(keys, vec![100, 102, 104, 106, 108, 110, 112, 114, 116, 118, 120]);
    assert_eq!(found[0].1, "v50");
    assert_eq!(found[10].1, "v60");
    let found = tree.get_range(101, 104).unwrap();
    assert_eq!(found, vec![(102, "v51".to_string())]);
    assert!(tree.get_range(101, 102).unwrap().is_empty());
    assert!(tree.get_range(104, 104).unwrap().is_empty());
    assert!(tree.get_range(200, 100).unwrap().is_empty());
    assert!(tree.get_range(5000, 6000).unwrap().is_empty());
    let all = tree.get_range(i32::MIN, i32::MAX).unwrap();
    assert_eq!(all.len(), 1000);
    for (place, entry) in all.iter().enumerate() {
        assert_eq!(entry.0, 2 * place as i32);
    }
    let head = tree.get_range(-5, 3).unwrap();
    assert_eq!(head.iter().map(|e| e.0).collect::<Vec<i32>>(), vec![0, 2]);
}

#[test]
fn range_of_an_empty_tree_is_empty() {
    let mut tree: Tree<i32, String> = Tree::new().unwrap();
    assert!(tree.get_range(0, 10).unwrap().is_empty());
}

#[test]
fn a_subtree_holds_the_keys_of_its_range() {
    let mut tree: Tree<i32, String> = Tree::new().unwrap();
    for i in 0..500 {
        tree.insert(i, i.to_string()).unwrap();
    }
    let root = tree.storage_manager.root_offset();
    assert_eq!(tree.has_key_node(root, 77).unwrap(), true);
    assert_eq!(tree.has_key_node(root, 500).unwrap(), false);
    let nodes = tree.storage_manager.data.len() as i64;
    assert!(nodes > 1);
    let mut seen = 0;
    for offset in 0..nodes {
        if tree.has_key_node(offset, 77).unwrap() {
            seen += 1;
        }
    }
    assert_eq!(seen, 2);
    assert_eq!(tree.has_key_node(nodes, 77).err(), Some(HaystackError::OutOfBounds));
    assert_eq!(tree.has_key_node(-1, 77).err(), Some(HaystackError::OutOfBounds));
}

#[test]
fn lengths_take_four_bytes() {
    let mut out = vec![9u8];
    serialize_length(&mut out, 0x0102_0304);
    assert_eq!(out, vec![9, 4, 3, 2, 1]);
    assert_eq!(read_length(&out[1..]), 0x0102_0304);
    let mut none = Vec::new();
    serialize_length(&mut none, 0);
    assert_eq!(none, vec![0, 0, 0, 0]);
    assert_eq!(read_length(&none), 0);
}

#[test]
fn entries_list_every_key_once() {
    let mut tree: Tree<i32, String> = Tree::new().unwrap();
    for round in 0..3 {
        for i in 0..700 {
            tree.insert((i * 13) % 700, format!("{}-{}", round, i)).unwrap();
        }
    }
    let mut keys: Vec<i32> = tree.entries().iter().map(|e| e.0).collect();
    assert_eq!(keys.len(), 700);
    keys.sort();
    assert_eq!(keys, (0..700).collect::<Vec<i32>>());
    assert_eq!(tree.search(13).unwrap(), Some("2-1".to_string()));
}

#[test]
fn separators_stand_between_the_keys_of_their_children() {
    let mut tree: Tree<i32, String> = Tree::new().unwrap();
    for i in 0..5000 {
        tree.insert((i * 7919) % 5003, i.to_string()).unwrap();
    }
    let nodes = &tree.storage_manager.data;
    let mut internal = 0;
    for node in nodes.iter() {
        assert!(node.keys.windows(2).all(|w| w[0] < w[1]));
        assert!(node.keys.len() <= tree.b);
        if node.children.is_empty() {
            assert_eq!(node.values.len(), node.keys.len());
            continue;
        }
        internal += 1;
        assert_eq!(node.children.len(), node.keys.len() + 1);
        for (slot, separator) in node.keys.iter().enumerate() {
            let left = &nodes[node.children[slot] as usize];
            let right = &nodes[node.children[slot + 1] as usize];
            assert!(left.keys.iter().all(|k| k < separator));
            assert!(right.keys.iter().all(|k| k >= separator));
        }
    }
    assert!(internal >= 1);
}

#[test]
fn a_new_index_has_room() {
    let tree: Tree<i32, String> = Tree::new().unwrap();
    assert!(tree.has_room_for(0));
    assert!(tree.has_room_for(0x1000_0000));
    assert!(tree.has_room_for(3_037_000_497));
    assert!(!tree.has_room_for(3_037_000_499));
    assert!(!tree.has_room_for(usize::MAX));
    let mut tree: Tree<i32, String> = Tree::new().unwrap();
    tree.insert(1, "one".to_string()).unwrap();
    tree.insert(1, "one_duplicate".to_string()).unwrap();
    assert_eq!(tree.len(), 1);
    assert_eq!(tree.search(1).unwrap(), Some("one_duplicate".to_string()));
    let entries: Vec<(i32, String)> = (0..300).rev().map(|i| (i % 100, i.to_string())).collect();
    tree.batch_insert(entries).unwrap();
    assert_eq!(tree.len(), 100);
    assert_eq!(tree.search(7).unwrap(), Some("7".to_string()));
    let bytes = tree.to_binary();
    let mut back: Tree<i32, String> = Tree::from_binary(bytes).unwrap();
    assert_eq!(back.len(), 100);
    assert_eq!(back.search(99).unwrap(), Some("99".to_string()));
}

fn grown_tree() -> Tree<i32, String> {
    let mut tree: Tree<i32, String> = Tree::new().unwrap();
    for i in 0..1000 {
        tree.insert((i * 37) % 1000, format!("v{}", (i * 37) % 1000)).unwrap();
    }
    tree
}

#[test]
fn a_tree_read_from_its_image_has_that_image_again() {
    let mut tree = grown_tree();
    let image = tree.to_binary();
    let mut back: Tree<i32, String> = Tree::from_binary(image.clone()).unwrap();
    assert_eq!(back.to_binary(), image);
    assert_eq!(back.storage_manager.data.len(), tree.storage_manager.data.len());
    assert_eq!(back.storage_manager.root_offset(), tree.storage_manager.root_offset());
    assert_eq!(back.b, tree.b);
    assert_eq!(back.len(), 1000);
    assert_eq!(back.levels, tree.levels);
    for i in 0..back.storage_manager.data.len() {
        assert_eq!(back.storage_manager.data[i].keys, tree.storage_manager.data[i].keys);
        assert_eq!(back.storage_manager.data[i].children, tree.storage_manager.data[i].children);
    }
    for i in 0..1000 {
        assert_eq!(back.search(i).unwrap(), Some(format!("v{}", i)));
    }
    back.insert(1000, "more".to_string()).unwrap();
    assert_eq!(back.len(), 1001);
    assert_eq!(back.get_range(998, 1002).unwrap().len(), 3);
    let empty: Tree<i32, String> = Tree::new().unwrap();
    let mut empty = empty;
    let mut same: Tree<i32, String> = Tree::from_binary(empty.to_binary()).unwrap();
    assert_eq!(same.len(), 0);
    assert_eq!(same.to_binary(), empty.to_binary());
}

#[test]
fn a_tree_image_out_of_order_is_rejected() {
    let mut tree = grown_tree();
    let root = tree.storage_manager.root_offset() as usize;
    assert_eq!(tree.storage_manager.data[root].node_type, NodeType::Internal);
    assert!(Tree::<i32, String>::from_binary(tree.to_binary()).is_ok());
    let bad = Some(HaystackError::Corruption);
    let first = tree.storage_manager.data[root].children[0];
    let second = tree.storage_manager.data[root].children[1];
    let leaf = first as usize;
    assert_eq!(tree.storage_manager.data[leaf].node_type, NodeType::Leaf);

    // keys of a leaf that do not ascend
    tree.storage_manager.data[leaf].keys.swap(0, 1);
    assert_eq!(Tree::<i32, String>::from_binary(tree.to_binary()).err(), bad);
    tree.storage_manager.data[leaf].keys.swap(0, 1);

    // a key that is not below the separator above its leaf
    let last = tree.storage_manager.data[leaf].keys.len() - 1;
    let kept = tree.storage_manager.data[leaf].keys[last];
    let separator = tree.storage_manager.data[root].keys[0];
    tree.storage_manager.data[leaf].keys[last] = separator;
    assert_eq!(Tree::<i32, String>::from_binary(tree.to_binary()).err(), bad);
    tree.storage_manager.data[leaf].keys[last] = kept;

    // a key that is below the separator in front of its leaf
    let low = tree.storage_manager.data[second as usize].keys[0];
    tree.storage_manager.data[second as usize].keys[0] = separator - 1;
    assert_eq!(Tree::<i32, String>::from_binary(tree.to_binary()).err(), bad);
    tree.storage_manager.data[second as usize].keys[0] = low;

    // a child that stands in two slots
    tree.storage_manager.data[root].children[1] = first;
    assert_eq!(Tree::<i32, String>::from_binary(tree.to_binary()).err(), bad);
    tree.storage_manager.data[root].children[1] = second;

    // the root as a child
    tree.storage_manager.data[root].children[0] = root as i64;
    assert_eq!(Tree::<i32, String>::from_binary(tree.to_binary()).err(), bad);
    tree.storage_manager.data[root].children[0] = first;

    // a child that is no node
    tree.storage_manager.data[root].children[0] = 1_000_000;
    assert_eq!(Tree::<i32, String>::from_binary(tree.to_binary()).err(), bad);
    tree.storage_manager.data[root].children[0] = -1;
    assert_eq!(Tree::<i32, String>::from_binary(tree.to_binary()).err(), bad);
    tree.storage_manager.data[root].children[0] = first;

    // a leaf that no slot leads to
    let lost = tree.storage_manager.data[root].children.pop().unwrap();
    let gone = tree.storage_manager.data[root].keys.pop().unwrap();
    assert_eq!(Tree::<i32, String>::from_binary(tree.to_binary()).err(), bad);
    tree.storage_manager.data[root].children.push(lost);
    tree.storage_manager.data[root].keys.push(gone);

    // one child too few
    let lost = tree.storage_manager.data[root].children.pop().unwrap();
    assert_eq!(Tree::<i32, String>::from_binary(tree.to_binary()).err(), bad);
    tree.storage_manager.data[root].children.push(lost);

    // a key without a value
    let taken = tree.storage_manager.data[leaf].values[0].take();
    assert_eq!(Tree::<i32, String>::from_binary(tree.to_binary()).err(), bad);
    tree.storage_manager.data[leaf].values[0] = taken;
    let taken = tree.storage_manager.data[leaf].values.pop().unwrap();
    assert_eq!(Tree::<i32, String>::from_binary(tree.to_binary()).err(), bad);
    tree.storage_manager.data[leaf].values.push(taken);

    // a leaf as the root of many nodes
    tree.storage_manager.set_root_offset(first);
    assert_eq!(Tree::<i32, String>::from_binary(tree.to_binary()).err(), bad);
    tree.storage_manager.set_root_offset(root as i64);

    // more keys than the fan-out
    let fan_out = tree.b;
    tree.b = 3;
    assert_eq!(Tree::<i32, String>::from_binary(tree.to_binary()).err(), bad);
    tree.b = fan_out;

    // an internal node among the leaves
    tree.storage_manager.data[leaf].node_type = NodeType::Internal;
    assert_eq!(Tree::<i32, String>::from_binary(tree.to_binary()).err(), bad);
    tree.storage_manager.data[leaf].node_type = NodeType::Leaf;

    assert!(Tree::<i32, String>::from_binary(tree.to_binary()).is_ok());
}

#[test]
fn a_deep_tree_comes_back_node_for_node() {
    let mut tree: Tree<i32, String> = Tree::empty(3);
    for i in 0..500 {
        tree.insert((i * 211) % 500, i.to_string()).unwrap();
    }
    assert!(tree.levels >= 4);
    let image = tree.to_binary();
    let mut back: Tree<i32, String> = Tree::from_binary(image.clone()).unwrap();
    assert_eq!(back.to_binary(), image);
    assert_eq!(back.levels, tree.levels);
    assert_eq!(back.len(), 500);
    let all = back.entries();
    assert_eq!(all.len(), 500);
    let got = back.get_range(100, 110).unwrap();
    assert_eq!(got.iter().map(|e| e.0).collect::<Vec<i32>>(), (100..110).collect::<Vec<i32>>());
    // two leaves that stand at different depths
    let root = back.storage_manager.root_offset() as usize;
    let child = back.storage_manager.data[root].children[0] as usize;
    let grandchild = back.storage_manager.data[child].children[0];
    let kept = back.storage_manager.data[root].children[0];
    back.storage_manager.data[root].children[0] = grandchild;
    assert_eq!(
        Tree::<i32, String>::from_binary(back.to_binary()).err(),
        Some(HaystackError::Corruption)
    );
    back.storage_manager.data[root].children[0] = kept;
    assert!(Tree::<i32, String>::from_binary(back.to_binary()).is_ok());
}

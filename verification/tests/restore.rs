use haystack_embedded::structures::tree::node::NodeType;
use haystack_embedded::structures::tree::restore::{
    check_nodes, find_heights, find_parents, height_of, keys_ascend, keys_in_range, lower_of,
    node_has_shape, upper_of,
};
use haystack_embedded::structures::tree::Tree;

fn small_tree() -> Tree<i32, String> {
    let mut tree: Tree<i32, String> = Tree::empty(3);
    for i in 0..40 {
        tree.insert(i, i.to_string()).unwrap();
    }
    tree
}

#[test]
fn keys_ascend_strictly_or_not() {
    assert!(keys_ascend::<i32>(&vec![]));
    assert!(keys_ascend(&vec![7]));
    assert!(keys_ascend(&vec![1, 2, 5, 9]));
    assert!(!keys_ascend(&vec![1, 2, 2, 9]));
    assert!(!keys_ascend(&vec![1, 3, 2]));
    assert!(!keys_ascend(&vec![2, 1]));
}

#[test]
fn every_node_of_a_tree_has_the_shape_of_a_node() {
    let mut tree = small_tree();
    let b = tree.b;
    let n = tree.storage_manager.data.len();
    for i in 0..n {
        assert!(node_has_shape(&tree.storage_manager.data, b, i));
    }
    assert!(!node_has_shape(&tree.storage_manager.data, 0, 0));
    let root = tree.storage_manager.root_offset() as usize;
    tree.storage_manager.data[root].children.push(0);
    assert!(!node_has_shape(&tree.storage_manager.data, b, root));
    tree.storage_manager.data[root].children.pop();
    tree.storage_manager.data[root].children[0] = n as i64;
    assert!(!node_has_shape(&tree.storage_manager.data, b, root));
}

#[test]
fn the_parents_of_a_tree_are_found() {
    let tree = small_tree();
    let nodes = &tree.storage_manager.data;
    let root = tree.storage_manager.root_offset();
    let up = find_parents(nodes, tree.b, root).unwrap();
    assert_eq!(up.len(), nodes.len());
    for (i, slot) in up.iter().enumerate() {
        if i as i64 != root {
            assert_eq!(nodes[slot.0].children[slot.1], i as i64);
        }
    }
    let mut slots = 0;
    for node in nodes.iter() {
        slots += node.children.len();
    }
    assert_eq!(slots, nodes.len() - 1);
}

#[test]
fn a_shared_child_has_no_parents() {
    let mut tree = small_tree();
    let root = tree.storage_manager.root_offset();
    let first = tree.storage_manager.data[root as usize].children[0];
    tree.storage_manager.data[root as usize].children[1] = first;
    assert!(find_parents(&tree.storage_manager.data, tree.b, root).is_none());
    assert!(find_parents(&tree.storage_manager.data, tree.b, first).is_none());
}

#[test]
fn the_heights_of_a_tree_are_the_steps_to_the_leaves() {
    let tree = small_tree();
    let nodes = &tree.storage_manager.data;
    let root = tree.storage_manager.root_offset();
    let h = find_heights(nodes, tree.b, root).unwrap();
    assert_eq!(h[root as usize] as u64, tree.levels);
    assert!(tree.levels >= 2);
    for (i, node) in nodes.iter().enumerate() {
        assert_eq!(height_of(nodes, tree.b, i), Some(h[i]));
        match node.node_type {
            NodeType::Leaf => assert_eq!(h[i], 0),
            NodeType::Internal => {
                for c in node.children.iter() {
                    assert_eq!(h[*c as usize] + 1, h[i]);
                }
            }
        }
    }
    let leaf = nodes.iter().position(|n| n.node_type == NodeType::Leaf).unwrap();
    assert!(find_heights(nodes, tree.b, leaf as i64).is_none());
}

#[test]
fn the_separators_around_a_node_are_found() {
    let tree = small_tree();
    let nodes = &tree.storage_manager.data;
    let root = tree.storage_manager.root_offset();
    let up = find_parents(nodes, tree.b, root).unwrap();
    let h = find_heights(nodes, tree.b, root).unwrap();
    assert_eq!(lower_of(nodes, &up, &h, tree.b, root, root as usize), None);
    assert_eq!(upper_of(nodes, &up, &h, tree.b, root, root as usize), None);
    let mut leftmost = 0;
    let mut rightmost = 0;
    for (i, node) in nodes.iter().enumerate() {
        assert!(keys_in_range(nodes, &up, &h, tree.b, root, i));
        if node.keys.is_empty() {
            continue;
        }
        match lower_of(nodes, &up, &h, tree.b, root, i) {
            Some((q, t)) => assert!(nodes[q].keys[t] <= node.keys[0]),
            None => {
                if node.node_type == NodeType::Leaf {
                    leftmost += 1;
                    assert_eq!(node.keys[0], 0);
                }
            }
        }
        match upper_of(nodes, &up, &h, tree.b, root, i) {
            Some((q, t)) => assert!(*node.keys.last().unwrap() < nodes[q].keys[t]),
            None => {
                if node.node_type == NodeType::Leaf {
                    rightmost += 1;
                    assert_eq!(*node.keys.last().unwrap(), 39);
                }
            }
        }
    }
    assert_eq!(leftmost, 1);
    assert_eq!(rightmost, 1);
}

#[test]
fn the_nodes_of_a_tree_are_in_order() {
    let mut tree = small_tree();
    let root = tree.storage_manager.root_offset();
    let levels = tree.levels;
    let found = check_nodes(&tree.storage_manager.data, tree.b, root);
    assert_eq!(found.map(|x| x.0), Some(levels));
    assert!(check_nodes(&tree.storage_manager.data, 2, root).is_none());
    assert!(check_nodes(&tree.storage_manager.data, tree.b, -1).is_none());
    assert!(check_nodes(&tree.storage_manager.data, tree.b, 1_000).is_none());
    let leaf = tree
        .storage_manager
        .data
        .iter()
        .position(|n| n.node_type == NodeType::Leaf && n.keys.contains(&20))
        .unwrap();
    let at = tree.storage_manager.data[leaf].keys.iter().position(|k| *k == 20).unwrap();
    tree.storage_manager.data[leaf].keys[at] = if at == 0 { 0 } else { 39 };
    let broken = tree.storage_manager.data[leaf].keys.len() > 1 || leaf != 0;
    assert!(broken);
    assert!(check_nodes(&tree.storage_manager.data, tree.b, root).is_none());
}

use algorithms::binary_search_tree::BinarySearchTree;

#[test]
fn empty_tree_doesnt_contain_element() {
    let bst = BinarySearchTree::new();
    assert!(!bst.contains(1));
}

#[test]
fn inserted_element_exists() {
    let mut bst = BinarySearchTree::new();
    bst.insert(1);
    assert!(bst.contains(1));
}

#[test]
fn non_insterted_element_does_not_exist() {
    let mut bst = BinarySearchTree::new();
    bst.insert(1);
    assert!(!bst.contains(2));
}

#[test]
fn two_inserted_elements_exist() {
    let mut bst = BinarySearchTree::new();
    bst.insert('a');
    bst.insert('c');

    assert!(bst.contains('a'));
    assert!(bst.contains('c'));
    assert!(!bst.contains('b'));
}

#[test]
fn multiple_inserted_items_exist() {
    let mut bst = BinarySearchTree::new();
    bst.insert(5);
    bst.insert(6);
    bst.insert(3);
    bst.insert(4);
    bst.insert(2);
    bst.insert(1);

    for i in 1..7 {
        assert!(bst.contains(i));
    }
}

#[test]
fn deleted_item_does_not_exist() {
    let mut bst = BinarySearchTree::new();
    bst.insert(1);
    bst.delete(1);

    assert!(!bst.contains(1));
}

#[test]
fn delete_item_that_does_not_exist() {
    let mut bst = BinarySearchTree::new();
    bst.delete(1);
}

#[test]
fn other_items_exist_after_root_with_only_right_child_deleted() {
    let mut bst = BinarySearchTree::new();
    bst.insert(1);
    bst.insert(3);
    bst.insert(2);
    bst.delete(1);

    assert!(bst.contains(2));
    assert!(bst.contains(3));

    assert!(!bst.contains(1));
}

#[test]
fn other_items_exist_after_root_with_only_left_child_deleted() {
    let mut bst = BinarySearchTree::new();
    bst.insert(3);
    bst.insert(1);
    bst.insert(2);
    bst.delete(3);

    assert!(bst.contains(1));
    assert!(bst.contains(2));

    assert!(!bst.contains(3));
}

#[test]
fn other_items_exist_after_root_with_two_children_deleted() {
    let mut bst = BinarySearchTree::new();
    bst.insert(2);
    bst.insert(1);
    bst.insert(5);
    bst.insert(3);
    // The roots succeeding node gets a right child
    bst.insert(4);

    bst.delete(2);

    assert!(bst.contains(1));
    assert!(bst.contains(3));
    assert!(bst.contains(4));
    assert!(bst.contains(5));
    assert!(!bst.contains(2));
}

#[test]
fn inserting_twice_is_inserting_once() {
    let mut bst = BinarySearchTree::new();
    bst.insert(7);
    bst.insert(7);
    assert!(bst.contains(7));
    bst.delete(7);
    assert!(!bst.contains(7));
}

#[test]
fn default_tree_is_empty() {
    let bst: BinarySearchTree<u8> = BinarySearchTree::default();
    for item in 0..=255u8 {
        assert!(!bst.contains(item));
    }
}

#[test]
fn tree_follows_a_set_through_inserts_and_deletes() {
    let mut bst = BinarySearchTree::new();
    let mut present = [false; 64];
    let mut x: u64 = 12345;
    for _ in 0..2000 {
        x = x.wrapping_mul(6364136223846793005).wrapping_add(1442695040888963407);
        let item = ((x >> 33) % 64) as usize;
        if (x >> 20) % 3 == 0 {
            bst.delete(item);
            present[item] = false;
        } else {
            bst.insert(item);
            present[item] = true;
        }
        let probe = ((x >> 40) % 64) as usize;
        assert_eq!(bst.contains(probe), present[probe]);
    }
    for item in 0..64 {
        assert_eq!(bst.contains(item), present[item]);
    }
}

#[test]
fn deleting_down_to_nothing() {
    let mut bst = BinarySearchTree::new();
    for item in [50, 30, 70, 20, 40, 60, 80, 35, 45, 65] {
        bst.insert(item);
    }
    for item in [30, 50, 70, 20, 80, 40, 60, 35, 65, 45] {
        assert!(bst.contains(item));
        bst.delete(item);
        assert!(!bst.contains(item));
    }
    for item in 0..100 {
        assert!(!bst.contains(item));
    }
}

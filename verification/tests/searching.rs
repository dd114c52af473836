use itualgs_rs::searching::BST::BST2;

#[test]
fn test_deletion() {
    let mut bst: BST2<i32, &str> = BST2::new();
    bst.put(24, "Ferris");
    bst.put(20, "John");
    bst.put(25, "Jane");
    assert_eq!(bst.get_root().unwrap(), &"Ferris");
    assert_eq!(bst.get(&20).unwrap(), &"John");
    assert_eq!(bst.get(&25).unwrap(), &"Jane");
    bst.remove(&25);
    assert!(bst.get(&25).is_none());
    assert_eq!(bst.get_root().unwrap(), &"Ferris");
    assert_eq!(bst.get(&20).unwrap(), &"John");
}

#[test]
fn test_deletion_2() {
    let mut bst: BST2<i32, &str> = BST2::new();
    bst.put(23, "Ferris");
    bst.put(20, "John");
    bst.put(25, "Jane");
    bst.put(30, "Doe");
    bst.put(24, "wut");
    assert_eq!(bst.get_root().unwrap(), &"Ferris");
    assert_eq!(bst.get(&20).unwrap(), &"John");
    assert_eq!(bst.get(&25).unwrap(), &"Jane");
    bst.remove(&25);
    assert!(bst.get(&25).is_none());
    assert_eq!(bst.get_root().unwrap(), &"Ferris");
    assert_eq!(bst.get(&20).unwrap(), &"John");
    assert_eq!(bst.get(&30).unwrap(), &"Doe");
}

#[test]
fn test_get() {
    let mut bst: BST2<u8, &str> = BST2::new();
    bst.put(4, "val4");
    bst.put(10, "val10");
    bst.put(2, "val2");
    bst.put(3, "val3");
    bst.put(11, "val11");
    let val = bst.get(&4).unwrap();
    assert_eq!(val, &"val4");
    let val2 = bst.get(&11).unwrap();
    assert_eq!(val2, &"val11");
}

#[test]
fn test_put() {
    let mut bst: BST2<u8, &str> = BST2::new();
    bst.put(4, "val4");
    bst.put(10, "val10");
    bst.put(2, "val2");
    bst.put(3, "val3");
    bst.put(11, "val11");

    let val = bst.get_root().unwrap();
    assert_eq!(val, &"val4");
}

#[test]
fn test_delete_min() {
    let mut bst: BST2<u8, &str> = BST2::new();
    bst.put(4, "val4");
    bst.put(10, "val10");
    bst.put(2, "val2");
    bst.put(3, "val3");
    bst.put(11, "val11");

    assert_eq!(bst.get(&2).unwrap(), &"val2");
    bst.take_min();
    assert!(bst.get(&2).is_none());
}

#[test]
fn test_delete_max() {
    let mut bst: BST2<u8, &str> = BST2::new();
    bst.put(4, "val4");
    bst.put(10, "val10");
    bst.put(2, "val2");
    bst.put(3, "val3");
    bst.put(11, "val11");

    assert_eq!(bst.get(&11).unwrap(), &"val11");
    bst.take_max();
    assert!(bst.get(&11).is_none());
    assert!(bst.get(&3).is_some());
}

#[test]
fn test_null_root() {
    let mut bst: BST2<u8, &str> = BST2::new();
    assert!(bst.take_max().is_none());
}

#[test]
fn tree_replaces_the_value_of_a_key_it_has() {
    let mut bst: BST2<u8, u32> = BST2::new();
    bst.put(4, 1);
    bst.put(4, 2);
    assert_eq!(bst.get(&4), Some(&2));
    assert_eq!(bst.remove(&4), Some(2));
    assert_eq!(bst.remove(&4), None);
    assert_eq!(bst.get_root(), None);
}

#[test]
fn tree_changes_a_value_in_place() {
    let mut bst: BST2<u8, u32> = BST2::new();
    bst.put(4, 1);
    bst.put(2, 5);
    bst.put(9, 7);
    *bst.get_mut(9).unwrap() = 70;
    *bst.get_mut(2).unwrap() += 1;
    assert!(bst.get_mut(3).is_none());
    assert_eq!(bst.get(&9), Some(&70));
    assert_eq!(bst.get(&2), Some(&6));
    assert_eq!(bst.get(&4), Some(&1));
}

#[test]
fn tree_takes_only_the_least_key() {
    let mut bst: BST2<u8, &str> = BST2::new();
    bst.put(4, "val4");
    bst.put(10, "val10");
    bst.put(2, "val2");
    bst.put(3, "val3");
    bst.put(11, "val11");
    assert_eq!(bst.take_min(), Some("val2"));
    assert_eq!(bst.get(&3), Some(&"val3"));
    assert_eq!(bst.take_min(), Some("val3"));
    assert_eq!(bst.take_min(), Some("val4"));
    assert_eq!(bst.take_max(), Some("val11"));
    assert_eq!(bst.take_max(), Some("val10"));
    assert_eq!(bst.take_max(), None);
    assert_eq!(bst.take_min(), None);
}

#[test]
fn tree_removes_a_node_with_two_children() {
    let mut bst: BST2<i32, i32> = BST2::new();
    for k in [50, 30, 70, 20, 40, 60, 80, 65, 62, 68] {
        bst.put(k, k * 10);
    }
    assert_eq!(bst.remove(&50), Some(500));
    assert_eq!(bst.get_root(), Some(&600));
    for k in [30, 70, 20, 40, 60, 80, 65, 62, 68] {
        assert_eq!(bst.get(&k), Some(&(k * 10)));
    }
    assert_eq!(bst.get(&50), None);
    assert_eq!(bst.remove(&70), Some(700));
    for k in [30, 20, 40, 60, 80, 65, 62, 68] {
        assert_eq!(bst.get(&k), Some(&(k * 10)));
    }
}

#[test]
fn default_tree_is_empty() {
    let mut bst: BST2<u8, u8> = BST2::default();
    assert_eq!(bst.get_root(), None);
    assert_eq!(bst.get(&1), None);
    assert_eq!(bst.take_min(), None);
    bst.put(1, 2);
    assert_eq!(bst.get_root(), Some(&2));
}

#[test]
fn tree_agrees_with_the_standard_map() {
    let mut state: u64 = 13;
    let mut next = move || {
        state = state.wrapping_mul(6364136223846793005).wrapping_add(1442695040888963407);
        state >> 33
    };
    let mut bst: BST2<u64, u64> = BST2::new();
    let mut model = std::collections::BTreeMap::new();
    for _ in 0..3000 {
        let key = next() % 40;
        let val = next();
        match next() % 6 {
            0 | 1 => {
                bst.put(key, val);
                model.insert(key, val);
            }
            2 => assert_eq!(bst.remove(&key), model.remove(&key)),
            3 => assert_eq!(bst.take_min(), model.pop_first().map(|e| e.1)),
            4 => assert_eq!(bst.take_max(), model.pop_last().map(|e| e.1)),
            _ => {
                if let Some(v) = bst.get_mut(key) {
                    *v = val;
                }
                if let Some(v) = model.get_mut(&key) {
                    *v = val;
                }
            }
        }
        for k in 0..40 {
            assert_eq!(bst.get(&k), model.get(&k));
        }
    }
}

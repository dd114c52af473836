use itualgs_rs::sorting::index_min_pq::{IndexMinPQ, PqError};
use itualgs_rs::sorting::{insertion, merge, selection};

#[test]
fn index_min_pq_test_create_graph() {
    let mut pq = IndexMinPQ::<&str>::new(1000);
    pq.insert(600, "hej").unwrap();
    pq.insert(900, "hej").unwrap();
    pq.insert(7, "hej").unwrap();
}

#[test]
fn insertion_test_sort() {
    let mut list = vec![4, 2, 4, 1];

    insertion::sort(&mut list);

    assert_eq!(list, vec![1, 2, 4, 4]);
}

#[test]
fn test_sort_slice() {
    let mut list = vec![4, 2, 4, 1];

    insertion::sort_slice(&mut list, 0, 2);

    assert_eq!(list, vec![2, 4, 4, 1]);
}

#[test]
fn insertion_test_sort_index() {
    let list = vec![4, 2, 4, 1];

    let index = insertion::index_sort(&list);

    assert_eq!(list, vec![4, 2, 4, 1]);
    assert_eq!(index, vec![1, 2, 4, 4]);
}

#[test]
fn insertion_test_sort_char() {
    let mut list = vec!['f', 'e', 'r', 'r', 'i', 's'];

    insertion::sort(&mut list);

    assert_eq!(list, vec!['e', 'f', 'i', 'r', 'r', 's']);
}

#[test]
fn insertion_test_sort_string() {
    let mut list = vec!["does", "the", "bed", "bugs", "bite", "?"];

    insertion::sort(&mut list);

    assert_eq!(list, vec!["?", "bed", "bite", "bugs", "does", "the"]);
}

#[test]
fn merge_test_sort() {
    let mut list = vec![4, 2, 4, 1];

    merge::sort(&mut list);

    assert_eq!(list, vec![1, 2, 4, 4]);
}

#[test]
fn merge_test_sort_index() {
    let list = vec![4, 2, 4, 1];

    let index = merge::index_sort(&list);

    assert_eq!(list, vec![4, 2, 4, 1]);
    assert_eq!(index, vec![1, 2, 4, 4]);
}

#[test]
fn merge_test_sort_char() {
    let mut list = vec!['f', 'e', 'r', 'r', 'i', 's'];

    merge::sort(&mut list);

    assert_eq!(list, vec!['e', 'f', 'i', 'r', 'r', 's']);
}

#[test]
fn merge_test_sort_string() {
    let mut list = vec!["does", "the", "bed", "bugs", "bite", "?"];

    merge::sort(&mut list);

    assert_eq!(list, vec!["?", "bed", "bite", "bugs", "does", "the"]);
}

#[test]
fn selection_test_sort() {
    let mut list = vec![4, 2, 4, 1];

    selection::sort(&mut list);

    assert_eq!(list, vec![1, 2, 4, 4]);
}

#[test]
fn selection_test_sort_char() {
    let mut list = vec!['f', 'e', 'r', 'r', 'i', 's'];

    selection::sort(&mut list);

    assert_eq!(list, vec!['e', 'f', 'i', 'r', 'r', 's']);
}

#[test]
fn selection_test_sort_string() {
    let mut list = vec!["does", "the", "bed", "bugs", "bite", "?"];

    selection::sort(&mut list);

    assert_eq!(list, vec!["?", "bed", "bite", "bugs", "does", "the"]);
}

#[test]
fn sorts_take_empty_and_single_lists() {
    let mut none: Vec<i32> = Vec::new();
    insertion::sort(&mut none);
    selection::sort(&mut none);
    merge::sort(&mut none);
    assert!(none.is_empty());
    assert!(merge::index_sort(&none).is_empty());
    let mut one = vec![3];
    insertion::sort(&mut one);
    selection::sort(&mut one);
    merge::sort(&mut one);
    assert_eq!(one, vec![3]);
}

#[test]
fn sorts_agree_on_a_longer_list() {
    let list = vec![5, -1, 9, 3, 3, 0, 12, -7, 8, 2, 2, 6];
    let expected = vec![-7, -1, 0, 2, 2, 3, 3, 5, 6, 8, 9, 12];
    let mut a = list.clone();
    insertion::sort(&mut a);
    assert_eq!(a, expected);
    let mut b = list.clone();
    selection::sort(&mut b);
    assert_eq!(b, expected);
    let mut c = list.clone();
    merge::sort(&mut c);
    assert_eq!(c, expected);
}

#[test]
fn merge_sort_orders_pairs_by_first_then_second() {
    let mut list = vec![(2u128, 0usize), (1, 1), (2, 2), (1, 3)];
    merge::sort(&mut list);
    assert_eq!(list, vec![(1, 1), (1, 3), (2, 0), (2, 2)]);
}

#[test]
fn sort_slice_with_an_empty_range_changes_nothing() {
    let mut list = vec![3, 2, 1];
    insertion::sort_slice(&mut list, 2, 2);
    insertion::sort_slice(&mut list, 2, 1);
    insertion::sort_slice(&mut list, 1, 2);
    assert_eq!(list, vec![3, 2, 1]);
    insertion::sort_slice(&mut list, 1, 3);
    assert_eq!(list, vec![3, 1, 2]);
}

#[test]
fn queue_hands_out_indices_by_ascending_key() {
    let mut pq = IndexMinPQ::<u32>::new(10);
    assert!(pq.is_empty());
    pq.insert(3, 30).unwrap();
    pq.insert(7, 10).unwrap();
    pq.insert(1, 20).unwrap();
    pq.insert(9, 40).unwrap();
    assert_eq!(pq.size(), 4);
    assert_eq!(pq.min_index(), Ok(7));
    assert_eq!(pq.min_key(), Some(&10));
    assert_eq!(pq.delete_min(), Ok(7));
    assert_eq!(pq.contains(7), Ok(false));
    assert_eq!(pq.contains(1), Ok(true));
    assert_eq!(pq.delete_min(), Ok(1));
    assert_eq!(pq.delete_min(), Ok(3));
    assert_eq!(pq.delete_min(), Ok(9));
    assert!(pq.is_empty());
    assert_eq!(pq.delete_min(), Err(PqError::Empty));
}

#[test]
fn queue_follows_changed_keys() {
    let mut pq = IndexMinPQ::<u32>::new(8);
    for i in 0..8 {
        pq.insert(i, 100 + (i as u32) * 10).unwrap();
    }
    pq.decrease_key(5, 1).unwrap();
    assert_eq!(pq.min_index(), Ok(5));
    assert_eq!(pq.key_of(5), Ok(Some(&1)));
    pq.increase_key(5, 500).unwrap();
    assert_eq!(pq.min_index(), Ok(0));
    pq.change_key(0, 300).unwrap();
    assert_eq!(pq.min_index(), Ok(1));
    pq.change_key(7, 2).unwrap();
    assert_eq!(pq.min_index(), Ok(7));
    pq.delete(7).unwrap();
    assert_eq!(pq.contains(7), Ok(false));
    assert_eq!(pq.key_of(7), Ok(None));
    let mut order = Vec::new();
    while !pq.is_empty() {
        order.push(pq.delete_min().unwrap());
    }
    assert_eq!(order, vec![1, 2, 3, 4, 6, 0, 5]);
}

#[test]
fn queue_refuses_what_it_cannot_do() {
    let mut pq = IndexMinPQ::<u32>::new(4);
    assert_eq!(pq.min_index(), Err(PqError::Empty));
    assert_eq!(pq.min_key(), None);
    assert_eq!(pq.insert(4, 1), Err(PqError::OutOfRange));
    assert_eq!(pq.contains(4), Err(PqError::OutOfRange));
    assert_eq!(pq.key_of(9), Err(PqError::OutOfRange));
    assert_eq!(pq.insert(2, 1), Ok(()));
    assert_eq!(pq.insert(2, 5), Err(PqError::Occupied));
    assert_eq!(pq.key_of(2), Ok(Some(&1)));
    assert_eq!(pq.change_key(1, 5), Err(PqError::Vacant));
    assert_eq!(pq.decrease_key(1, 5), Err(PqError::Vacant));
    assert_eq!(pq.increase_key(1, 5), Err(PqError::Vacant));
    assert_eq!(pq.delete(1), Err(PqError::Vacant));
    assert_eq!(pq.change_key(4, 5), Err(PqError::OutOfRange));
    assert_eq!(pq.decrease_key(4, 5), Err(PqError::OutOfRange));
    assert_eq!(pq.increase_key(4, 5), Err(PqError::OutOfRange));
    assert_eq!(pq.delete(4), Err(PqError::OutOfRange));
    assert_eq!(pq.size(), 1);
}

#[test]
fn queue_of_no_indices_is_empty() {
    let mut pq = IndexMinPQ::<u8>::new(0);
    assert!(pq.is_empty());
    assert_eq!(pq.insert(0, 1), Err(PqError::OutOfRange));
    assert_eq!(pq.delete_min(), Err(PqError::Empty));
}

#[test]
fn queue_agrees_with_a_plain_list() {
    let mut state: u64 = 7;
    let mut next = move || {
        state = state.wrapping_mul(6364136223846793005).wrapping_add(1442695040888963407);
        state >> 33
    };
    let mut pq = IndexMinPQ::<u64>::new(16);
    let mut model: Vec<Option<u64>> = vec![None; 16];
    for _ in 0..2000 {
        let i = (next() % 16) as usize;
        let key = next() % 50;
        match next() % 6 {
            0 => {
                let expected = if model[i].is_some() { Err(PqError::Occupied) } else { Ok(()) };
                assert_eq!(pq.insert(i, key), expected);
                if expected.is_ok() {
                    model[i] = Some(key);
                }
            }
            1 => {
                let expected = if model[i].is_some() { Ok(()) } else { Err(PqError::Vacant) };
                assert_eq!(pq.change_key(i, key), expected);
                if expected.is_ok() {
                    model[i] = Some(key);
                }
            }
            2 => match model[i] {
                Some(old) => {
                    let lower = old.min(key);
                    assert_eq!(pq.decrease_key(i, lower), Ok(()));
                    model[i] = Some(lower);
                }
                None => assert_eq!(pq.decrease_key(i, key), Err(PqError::Vacant)),
            },
            3 => match model[i] {
                Some(old) => {
                    let higher = old.max(key);
                    assert_eq!(pq.increase_key(i, higher), Ok(()));
                    model[i] = Some(higher);
                }
                None => assert_eq!(pq.increase_key(i, key), Err(PqError::Vacant)),
            },
            4 => {
                let expected = if model[i].is_some() { Ok(()) } else { Err(PqError::Vacant) };
                assert_eq!(pq.delete(i), expected);
                model[i] = None;
            }
            _ => {
                let least = model.iter().flatten().min().copied();
                match pq.delete_min() {
                    Ok(index) => {
                        assert_eq!(model[index], least);
                        model[index] = None;
                    }
                    Err(e) => {
                        assert_eq!(e, PqError::Empty);
                        assert_eq!(least, None);
                    }
                }
            }
        }
        assert_eq!(pq.size(), model.iter().flatten().count());
        assert_eq!(pq.min_key().copied(), model.iter().flatten().min().copied());
        for j in 0..16 {
            assert_eq!(pq.contains(j), Ok(model[j].is_some()));
            assert_eq!(pq.key_of(j), Ok(model[j].as_ref()));
        }
    }
}

#[test]
fn sorts_agree_with_the_standard_sort() {
    let mut state: u64 = 9;
    let mut next = move || {
        state = state.wrapping_mul(6364136223846793005).wrapping_add(1442695040888963407);
        state >> 33
    };
    for round in 0..60 {
        let list: Vec<u64> = (0..round).map(|_| next() % 20).collect();
        let mut expected = list.clone();
        expected.sort();
        let mut a = list.clone();
        insertion::sort(&mut a);
        assert_eq!(a, expected);
        let mut b = list.clone();
        selection::sort(&mut b);
        assert_eq!(b, expected);
        let mut c = list.clone();
        merge::sort(&mut c);
        assert_eq!(c, expected);
        assert_eq!(merge::index_sort(&list), expected);
        assert_eq!(insertion::index_sort(&list), expected);
    }
}

use itualgs_rs::fundamentals::bag::Bag;
use itualgs_rs::fundamentals::binary_search::index_of;
use itualgs_rs::fundamentals::queue::Queue;
use itualgs_rs::fundamentals::stack::Stack;
use itualgs_rs::fundamentals::uf::WeightedQuickUnionUF;
use itualgs_rs::sorting::insertion;

#[test]
fn test_bag() {
    let list = vec!['f', 'e', 'r', 'r', 'i', 's'];
    let bag = Bag::new_from_vec_clone(&list);

    let to_list = bag.as_vec();
    assert_eq!(&to_list, &list);
}

#[test]
fn test_search_last_index() {
    let list = vec![0, 3, 5, 7, 9, 10, 23, 31, 32, 94];
    let var = index_of(&list, 94);
    assert!(var.unwrap() == list.len() - 1);
}

#[test]
fn test_search_first_index() {
    let list = vec![0, 3, 5, 7, 9, 10, 23, 31, 32, 94];
    let var = index_of(&list, 0);
    assert!(var.unwrap() == 0);
}

#[test]
fn test_non_existent() {
    let list = vec![0, 3, 5, 7, 9, 10, 23, 31, 32, 94];
    let var = index_of(&list, 69);
    assert!(var.is_none() == true)
}

#[test]
fn test_string_alphabetical() {
    let list = vec!["abc", "abcd", "abcde", "abcdef", "abcdefg", "abcdefgh"];
    let var = index_of(&list, "abcdefgh");
    assert!(var.unwrap() == 5)
}

#[test]
fn test_fundamentals_stack() {
    let mut stack: Stack<u8> = Stack::new();
    stack.push(30);
    stack.push(40);

    assert!(stack.size() == 2);
}

#[test]
fn test_string_result_queue() {
    let mut queue: Queue<String> = Queue::new();
    queue.enqueue("Bob".to_string());

    let dequeued = queue.dequeue();
    assert!(Some("Bob".to_string()) == dequeued);
}

#[test]
fn test_list_sorting() {
    let mut list = vec![9, 8, 7, 6, 5, 4, 3, 2, 1, 0];
    println!("{:?}", insertion::sort_slice(&mut list, 3, 8));
    assert_eq!(list, vec![9, 8, 7, 2, 3, 4, 5, 6, 1, 0]);
}

#[test]
fn bag_keeps_the_order_of_adding() {
    let mut bag: Bag<u32> = Bag::new();
    assert!(bag.is_empty());
    assert_eq!(bag.size(), 0);
    bag.add(7);
    bag.add(3);
    bag.add(7);
    assert!(!bag.is_empty());
    assert_eq!(bag.size(), 3);
    assert_eq!(bag.len(), 3);
    assert_eq!(*bag.get(1), 3);
    let seen: Vec<u32> = bag.iterator().copied().collect();
    assert_eq!(seen, vec![7, 3, 7]);
    assert_eq!(bag.as_vec(), vec![7, 3, 7]);
}

#[test]
fn bag_of_references_points_into_the_vector() {
    let list = vec![String::from("a"), String::from("b")];
    let bag = Bag::new_from_vec(&list);
    assert_eq!(bag.len(), 2);
    assert_eq!(*bag.get(0), &list[0]);
    assert_eq!(*bag.get(1), &list[1]);
}

#[test]
fn search_in_an_empty_slice_finds_nothing() {
    let list: Vec<i32> = Vec::new();
    assert_eq!(index_of(&list, 3), None);
}

#[test]
fn search_below_the_first_item_finds_nothing() {
    let list = vec![10, 20, 30];
    assert_eq!(index_of(&list, 5), None);
    assert_eq!(index_of(&list, 35), None);
    assert_eq!(index_of(&list, 20), Some(1));
}

#[test]
fn stack_pops_the_last_pushed_first() {
    let mut stack: Stack<u8> = Stack::new();
    assert!(stack.is_empty());
    assert_eq!(stack.pop(), None);
    assert_eq!(stack.peek(), None);
    stack.push(1);
    stack.push(2);
    assert_eq!(stack.peek(), Some(&2));
    assert_eq!(stack.pop(), Some(2));
    assert_eq!(stack.pop(), Some(1));
    assert_eq!(stack.pop(), None);
    assert_eq!(stack.size(), 0);
}

#[test]
fn queue_hands_out_the_first_enqueued_first() {
    let mut queue: Queue<u8> = Queue::new();
    assert!(queue.is_empty());
    assert_eq!(queue.dequeue(), None);
    queue.enqueue(1);
    queue.enqueue(2);
    assert_eq!(queue.size(), 2);
    assert_eq!(queue.dequeue(), Some(1));
    assert_eq!(queue.dequeue(), Some(2));
    assert_eq!(queue.dequeue(), None);
}

#[test]
fn union_find_merges_classes() {
    let mut uf = WeightedQuickUnionUF::new(5);
    assert_eq!(uf.count(), 5);
    assert!(!uf.connected(0, 1));
    uf.union(0, 1);
    uf.union(3, 4);
    assert_eq!(uf.count(), 3);
    assert!(uf.connected(1, 0));
    assert!(!uf.connected(1, 3));
    uf.union(1, 4);
    assert_eq!(uf.count(), 2);
    assert!(uf.connected(0, 3));
    assert_eq!(uf.find(0), uf.find(4));
    assert_eq!(uf.find(2), 2);
    uf.union(0, 3);
    assert_eq!(uf.count(), 2);
}

#[test]
fn default_bag_is_empty_and_a_clone_is_apart() {
    let mut bag: Bag<u8> = Bag::default();
    assert!(bag.is_empty());
    bag.add(1);
    let mut copy = bag.clone();
    copy.add(2);
    assert_eq!(bag.as_vec(), vec![1]);
    assert_eq!(copy.as_vec(), vec![1, 2]);
}

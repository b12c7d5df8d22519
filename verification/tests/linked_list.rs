use std::convert::TryInto;

use data_structures::linked_list::{LinkedList, ListError, Node};

fn list_of(values: &[i32]) -> LinkedList<i32> {
    let mut list = LinkedList::<i32>::new();
    for v in values {
        list.insert_at_tail(*v);
    }
    list
}

fn contents(list: &LinkedList<i32>) -> Vec<i32> {
    let mut values = Vec::new();
    let mut iter = list.iterate();
    while let Some(v) = iter.next() {
        values.push(*v);
    }
    values
}

fn contents_back(list: &LinkedList<i32>) -> Vec<i32> {
    let mut values = Vec::new();
    let mut iter = list.iterate_back();
    while let Some(v) = iter.next() {
        values.push(*v);
    }
    values
}

#[test]
fn insert_at_tail_works() {
    let mut list = LinkedList::<i32>::new();
    let second_value = 2;
    list.insert_at_tail(1);
    list.insert_at_tail(second_value);
    println!("Linked List is {list}", list = list.render());
    match list.get(1) {
        Some(val) => assert_eq!(*val, second_value),
        None => panic!("Expected to find {second_value} at index 1"),
    }
}

#[test]
fn insert_at_head_works() {
    let mut list = LinkedList::<i32>::new();
    let second_value = 2;
    list.insert_at_head(1);
    list.insert_at_head(second_value);
    println!("Linked List is {list}", list = list.render());
    match list.get(0) {
        Some(val) => assert_eq!(*val, second_value),
        None => panic!("Expected to find {second_value} at index 0"),
    }
}

#[test]
fn insert_at_ith_can_add_to_tail() {
    let mut list = LinkedList::<i32>::new();
    let second_value = 2;
    list.insert_at_ith(0, 0).unwrap();
    list.insert_at_ith(1, second_value).unwrap();
    println!("Linked List is {list}", list = list.render());
    match list.get(1) {
        Some(val) => assert_eq!(*val, second_value),
        None => panic!("Expected to find {second_value} at index 1"),
    }
}

#[test]
fn insert_at_ith_can_add_to_head() {
    let mut list = LinkedList::<i32>::new();
    let second_value = 2;
    list.insert_at_ith(0, 1).unwrap();
    list.insert_at_ith(0, second_value).unwrap();
    println!("Linked List is {list}", list = list.render());
    match list.get(0) {
        Some(val) => assert_eq!(*val, second_value),
        None => panic!("Expected to find {second_value} at index 0"),
    }
}

#[test]
fn insert_at_ith_can_add_to_middle() {
    let mut list = LinkedList::<i32>::new();
    let second_value = 2;
    let third_value = 3;
    list.insert_at_ith(0, 1).unwrap();
    list.insert_at_ith(1, second_value).unwrap();
    list.insert_at_ith(1, third_value).unwrap();
    println!("Linked List is {list}", list = list.render());
    match list.get(1) {
        Some(val) => assert_eq!(*val, third_value),
        None => panic!("Expected to find {third_value} at index 1"),
    }

    match list.get(2) {
        Some(val) => assert_eq!(*val, second_value),
        None => panic!("Expected to find {second_value} at index 1"),
    }
}

#[test]
fn insert_at_ith_and_delete_at_ith_in_the_middle() {
    // Insert and delete in the middle of the list to ensure the links are updated correctly
    let mut list = LinkedList::<i32>::new();
    let first_value = 0;
    let second_value = 1;
    let third_value = 2;
    let fourth_value = 3;

    list.insert_at_ith(0, first_value).unwrap();
    list.insert_at_ith(1, fourth_value).unwrap();
    list.insert_at_ith(1, third_value).unwrap();
    list.insert_at_ith(1, second_value).unwrap();

    list.delete_ith(2).unwrap();
    list.insert_at_ith(2, third_value).unwrap();

    for (i, expected) in [
        (0, first_value),
        (1, second_value),
        (2, third_value),
        (3, fourth_value),
    ] {
        match list.get(i) {
            Some(val) => assert_eq!(*val, expected),
            None => panic!("Expected to find {expected} at index {i}"),
        }
    }
}

#[test]
fn insert_at_ith_and_delete_ith_work_over_many_iterations() {
    let mut list = LinkedList::<i32>::new();
    for i in 0..100 {
        list.insert_at_ith(i, i.try_into().unwrap()).unwrap();
    }

    // Pop even numbers to 50
    for i in 0..50 {
        println!("list.length {}", list.length);
        if i % 2 == 0 {
            list.delete_ith(i).unwrap();
        }
    }

    assert_eq!(list.length, 75);

    // Insert even numbers back
    for i in 0..50 {
        if i % 2 == 0 {
            list.insert_at_ith(i, i.try_into().unwrap()).unwrap();
        }
    }

    assert_eq!(list.length, 100);

    // Ensure numbers were added back and we're able to traverse nodes
    if let Some(val) = list.get(78) {
        assert_eq!(*val, 78);
    } else {
        panic!("Expected to find 78 at index 78");
    }
}

#[test]
fn delete_tail_works() {
    let mut list = LinkedList::<i32>::new();
    let first_value = 1;
    let second_value = 2;
    list.insert_at_tail(first_value);
    list.insert_at_tail(second_value);
    match list.delete_tail() {
        Some(val) => assert_eq!(val, 2),
        None => panic!("Expected to remove {second_value} at tail"),
    }

    println!("Linked List is {list}", list = list.render());
    match list.get(0) {
        Some(val) => assert_eq!(*val, first_value),
        None => panic!("Expected to find {first_value} at index 0"),
    }
}

#[test]
fn delete_head_works() {
    let mut list = LinkedList::<i32>::new();
    let first_value = 1;
    let second_value = 2;
    list.insert_at_tail(first_value);
    list.insert_at_tail(second_value);
    match list.delete_head() {
        Some(val) => assert_eq!(val, 1),
        None => panic!("Expected to remove {first_value} at head"),
    }

    println!("Linked List is {list}", list = list.render());
    match list.get(0) {
        Some(val) => assert_eq!(*val, second_value),
        None => panic!("Expected to find {second_value} at index 0"),
    }
}

#[test]
fn delete_ith_can_delete_at_tail() {
    let mut list = LinkedList::<i32>::new();
    let first_value = 1;
    let second_value = 2;
    list.insert_at_tail(first_value);
    list.insert_at_tail(second_value);
    match list.delete_ith(1).unwrap() {
        Some(val) => assert_eq!(val, 2),
        None => panic!("Expected to remove {second_value} at tail"),
    }

    assert_eq!(list.length, 1);
}

#[test]
fn delete_ith_can_delete_at_head() {
    let mut list = LinkedList::<i32>::new();
    let first_value = 1;
    let second_value = 2;
    list.insert_at_tail(first_value);
    list.insert_at_tail(second_value);
    match list.delete_ith(0).unwrap() {
        Some(val) => assert_eq!(val, 1),
        None => panic!("Expected to remove {first_value} at tail"),
    }

    assert_eq!(list.length, 1);
}

#[test]
fn delete_ith_can_delete_in_middle() {
    let mut list = LinkedList::<i32>::new();
    let first_value = 1;
    let second_value = 2;
    let third_value = 3;
    list.insert_at_tail(first_value);
    list.insert_at_tail(second_value);
    list.insert_at_tail(third_value);
    match list.delete_ith(1).unwrap() {
        Some(val) => assert_eq!(val, 2),
        None => panic!("Expected to remove {second_value} at tail"),
    }

    match list.get(1) {
        Some(val) => assert_eq!(*val, third_value),
        None => panic!("Expected to find {third_value} at index 1"),
    }
}

#[test]
fn create_numeric_list() {
    let mut list = LinkedList::<i32>::new();
    list.insert_at_tail(1);
    list.insert_at_tail(2);
    list.insert_at_tail(3);
    println!("Linked List is {list}", list = list.render());
    assert_eq!(3, list.length);
}

#[test]
fn create_string_list() {
    let mut list_str = LinkedList::<String>::new();
    list_str.insert_at_tail("A".to_string());
    list_str.insert_at_tail("B".to_string());
    list_str.insert_at_tail("C".to_string());
    println!("Linked List is {list_str}", list_str = list_str.render());
    assert_eq!(3, list_str.length);
}

#[test]
fn get_by_index_in_numeric_list() {
    let mut list = LinkedList::<i32>::new();
    list.insert_at_tail(1);
    list.insert_at_tail(2);
    println!("Linked List is {list}", list = list.render());
    let retrived_item = list.get(1);
    assert!(retrived_item.is_some());
    assert_eq!(2, *retrived_item.unwrap());
}

#[test]
fn get_by_index_in_string_list() {
    let mut list_str = LinkedList::<String>::new();
    list_str.insert_at_tail("A".to_string());
    list_str.insert_at_tail("B".to_string());
    println!("Linked List is {list_str}", list_str = list_str.render());
    let retrived_item = list_str.get(1);
    assert!(retrived_item.is_some());
    assert_eq!("B", *retrived_item.unwrap());
}

#[test]
fn new_list_is_empty() {
    let list = LinkedList::<i32>::new();
    assert_eq!(list.length, 0);
    assert!(list.head.is_none());
    assert!(list.tail.is_none());
    assert!(list.get(0).is_none());
    assert!(list.iterate().next().is_none());
    assert!(list.iterate_back().next().is_none());
    assert_eq!(list.render(), "");
}

#[test]
fn length_counts_the_linked_nodes() {
    let mut list = LinkedList::<i32>::new();
    for step in 0..40u32 {
        match step % 5 {
            0 => list.insert_at_head(step as i32),
            1 => list.insert_at_tail(step as i32),
            2 => list.insert_at_ith(list.length / 2, step as i32).unwrap(),
            3 => {
                list.delete_ith(list.length / 2).unwrap();
            }
            _ => {
                list.delete_head();
            }
        }
        assert_eq!(contents(&list).len(), list.length as usize);
        assert_eq!(contents_back(&list).len(), list.length as usize);
    }
    assert_eq!(list.length, 8);
}

#[test]
fn backward_traversal_is_the_reverse_of_forward() {
    let mut list = list_of(&[4, 8, 15, 16, 23, 42]);
    list.insert_at_ith(3, 99).unwrap();
    list.delete_ith(1).unwrap();
    let forward = contents(&list);
    let mut backward = contents_back(&list);
    assert_eq!(forward, vec![4, 15, 99, 16, 23, 42]);
    assert_eq!(backward, vec![42, 23, 16, 99, 15, 4]);
    backward.reverse();
    assert_eq!(forward, backward);
}

#[test]
fn insert_at_front_then_get_front() {
    for prior in [&[][..], &[1][..], &[1, 2, 3][..]] {
        let mut list = list_of(prior);
        list.insert_at_ith(0, 77).unwrap();
        assert_eq!(list.get(0), Some(&77));
        assert_eq!(list.length as usize, prior.len() + 1);
    }
}

#[test]
fn insert_tail_then_delete_tail_restores_the_list() {
    for prior in [&[][..], &[1][..], &[1, 2, 3][..]] {
        let mut list = list_of(prior);
        list.insert_at_tail(77);
        assert_eq!(list.delete_tail(), Some(77));
        assert_eq!(list.length as usize, prior.len());
        assert_eq!(contents(&list), prior.to_vec());
    }
}

#[test]
fn insert_head_then_delete_head_restores_the_list() {
    for prior in [&[][..], &[1][..], &[1, 2, 3][..]] {
        let mut list = list_of(prior);
        list.insert_at_head(77);
        assert_eq!(list.delete_head(), Some(77));
        assert_eq!(list.length as usize, prior.len());
        assert_eq!(contents(&list), prior.to_vec());
    }
}

#[test]
fn get_out_of_range_is_absent() {
    let empty = LinkedList::<i32>::new();
    assert_eq!(empty.get(0), None);
    assert_eq!(empty.get(-1), None);
    let list = list_of(&[10, 20, 30]);
    assert_eq!(list.get(-1), None);
    assert_eq!(list.get(i32::MIN), None);
    assert_eq!(list.get(3), None);
    assert_eq!(list.get(i32::MAX), None);
    assert_eq!(list.get(2), Some(&30));
}

#[test]
fn insert_beyond_the_length_is_refused() {
    let mut list = list_of(&[10, 20, 30]);
    assert_eq!(list.insert_at_ith(4, 40), Err(ListError::OutOfBounds));
    assert_eq!(list.insert_at_ith(u32::MAX, 40), Err(ListError::OutOfBounds));
    assert_eq!(list.length, 3);
    assert_eq!(contents(&list), vec![10, 20, 30]);
    assert_eq!(list.insert_at_ith(3, 40), Ok(()));
    assert_eq!(contents(&list), vec![10, 20, 30, 40]);

    let mut empty = LinkedList::<i32>::new();
    assert_eq!(empty.insert_at_ith(1, 5), Err(ListError::OutOfBounds));
    assert_eq!(empty.length, 0);
    assert!(empty.head.is_none());
}

#[test]
fn delete_beyond_the_length_is_refused() {
    let mut list = list_of(&[10, 20, 30]);
    assert_eq!(list.delete_ith(4), Err(ListError::OutOfBounds));
    assert_eq!(list.length, 3);
    assert_eq!(contents(&list), vec![10, 20, 30]);
}

#[test]
fn delete_at_the_length_removes_the_last() {
    let mut list = list_of(&[10, 20, 30]);
    assert_eq!(list.delete_ith(3), Ok(Some(30)));
    assert_eq!(contents(&list), vec![10, 20]);
    assert_eq!(list.delete_ith(1), Ok(Some(20)));
    assert_eq!(contents(&list), vec![10]);
    assert_eq!(list.get(0), Some(&10));
    list.insert_at_tail(50);
    assert_eq!(contents(&list), vec![10, 50]);
    assert_eq!(contents_back(&list), vec![50, 10]);
}

#[test]
fn delete_on_an_empty_list_gives_nothing() {
    let mut list = LinkedList::<i32>::new();
    assert_eq!(list.delete_head(), None);
    assert_eq!(list.delete_tail(), None);
    assert_eq!(list.delete_ith(0), Ok(None));
    assert_eq!(list.delete_ith(1), Err(ListError::OutOfBounds));
    assert_eq!(list.length, 0);
}

#[test]
fn deleting_the_only_element_empties_the_anchors() {
    let mut list = list_of(&[7]);
    assert_eq!(list.head, list.tail);
    assert_eq!(list.delete_tail(), Some(7));
    assert!(list.head.is_none());
    assert!(list.tail.is_none());
    list.insert_at_head(8);
    assert_eq!(list.head, list.tail);
    assert_eq!(list.delete_ith(0), Ok(Some(8)));
    assert!(list.head.is_none());
    assert!(list.tail.is_none());
}

#[test]
fn released_slots_are_used_again() {
    let mut list = LinkedList::<i32>::new();
    for round in 0..10 {
        for v in 0..5 {
            list.insert_at_tail(round * 5 + v);
        }
        for _ in 0..5 {
            list.delete_head();
        }
    }
    assert_eq!(list.length, 0);
    assert_eq!(list.slots.len(), 5);
    assert_eq!(list.free.len(), 5);
}

#[test]
fn render_joins_with_comma_and_space() {
    assert_eq!(list_of(&[1, 2, 3]).render(), "1, 2, 3");
    assert_eq!(list_of(&[-5]).render(), "-5");
    let mut words = LinkedList::<String>::new();
    words.insert_at_tail("A".to_string());
    words.insert_at_tail("B".to_string());
    words.insert_at_head("C".to_string());
    assert_eq!(words.render(), "C, A, B");
}

#[test]
fn clear_removes_everything() {
    let mut list = list_of(&[1, 2, 3, 4]);
    list.clear();
    assert_eq!(list.length, 0);
    assert!(list.head.is_none());
    assert!(list.tail.is_none());
    assert!(list.iterate().next().is_none());
    list.insert_at_tail(9);
    assert_eq!(contents(&list), vec![9]);
}

#[test]
fn successive_middle_insertions_then_delete_and_reinsert() {
    let mut list = LinkedList::<i32>::new();
    list.insert_at_ith(0, 0).unwrap();
    list.insert_at_ith(1, 3).unwrap();
    list.insert_at_ith(1, 2).unwrap();
    list.insert_at_ith(1, 1).unwrap();
    assert_eq!(contents(&list), vec![0, 1, 2, 3]);
    assert_eq!(list.delete_ith(2), Ok(Some(2)));
    assert_eq!(contents(&list), vec![0, 1, 3]);
    list.insert_at_ith(2, 2).unwrap();
    assert_eq!(contents(&list), vec![0, 1, 2, 3]);
}

#[test]
fn traversal_gives_each_value_once_and_then_nothing() {
    let list = list_of(&[3, 1, 2]);
    let mut iter = list.iterate();
    assert_eq!(iter.next(), Some(&3));
    assert_eq!(iter.next(), Some(&1));
    assert_eq!(iter.next(), Some(&2));
    assert_eq!(iter.next(), None);
    assert_eq!(iter.next(), None);
    let mut again = list.iterate();
    assert_eq!(again.next(), Some(&3));
    let mut back = list.iterate_back();
    assert_eq!(back.next(), Some(&2));
    assert_eq!(back.next(), Some(&1));
    assert_eq!(back.next(), Some(&3));
    assert_eq!(back.next(), None);
    assert_eq!(back.next(), None);
}

#[test]
fn new_node_is_linked_to_nothing() {
    let node = Node::new(41);
    assert_eq!(node.val, 41);
    assert!(node.next.is_none());
    assert!(node.prev.is_none());
}

#[test]
fn links_name_the_neighbours() {
    let list = list_of(&[10, 20, 30]);
    let first = list.head.unwrap();
    let last = list.tail.unwrap();
    let middle = list.slots[first].as_ref().unwrap().next.unwrap();
    assert_eq!(list.slots[middle].as_ref().unwrap().val, 20);
    assert_eq!(list.slots[middle].as_ref().unwrap().prev, Some(first));
    assert_eq!(list.slots[middle].as_ref().unwrap().next, Some(last));
    assert_eq!(list.slots[last].as_ref().unwrap().prev, Some(middle));
    assert!(list.slots[last].as_ref().unwrap().next.is_none());
    assert!(list.slots[first].as_ref().unwrap().prev.is_none());
}

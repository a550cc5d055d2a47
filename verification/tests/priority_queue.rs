use rusty_structures::priority_queue::dheap::{DHeap, DHeapError};
use rusty_structures::priority_queue::pair::Pair;

fn testing_dheap() -> DHeap<String> {
    let mut heap = DHeap::new(None, None);
    for i in 1..10 {
        let example_pair = Pair::new(i.to_string(), i);
        _ = heap.insert_pair(example_pair);
    }
    heap
}

fn testing_plain_dheap() -> DHeap<String> {
    let mut heap = DHeap::new(None, None);
    for i in 1..10 {
        let example_pair = Pair { priority: i, element: i.to_string() };
        heap.insert(example_pair);
    }
    heap
}

fn six_pairs() -> Vec<Pair<&'static str>> {
    vec![
        Pair::new("9", 9),
        Pair::new("4", 4),
        Pair::new("11", 11),
        Pair::new("10", 10),
        Pair::new("6", 6),
        Pair::new("20", 20),
    ]
}

#[test]
fn lib_get_top_test() {
    let mut heap = testing_dheap();
    let received = heap.top().unwrap();
    let expected = Pair::new("9", 9);

    assert_eq!(expected.priority, received.priority);
    assert_eq!(*expected.get_element(), *received.get_element());
}

#[test]
fn lib_peek_test() {
    let heap = testing_dheap();
    let pair = heap.peek().unwrap();
    assert_eq!(9, pair.priority);
}

#[test]
fn lib_update_is_correct() {
    let mut heap = testing_dheap();
    _ = heap.update_priority("9".to_string(), 10);
    let top_pair = heap.top().unwrap();
    assert_eq!(10, top_pair.priority);
}

#[test]
fn heapify_top_correct() {
    let pairs = vec![
        Pair::new("9", 9),
        Pair::new("4", 4),
        Pair::new("11", 11),
        Pair::new("10", 10),
        Pair::new("6", 6),
        Pair::new("20", 20),
    ];
    let mut heap = DHeap::with_pairs(pairs, None, Some(4)).unwrap();
    assert_eq!(20, heap.top().unwrap().priority);
}

#[test]
fn remove_element() {
    let pairs = vec![
        Pair::new("9", 9),
        Pair::new("4", 4),
        Pair::new("11", 11),
        Pair::new("10", 10),
        Pair::new("6", 6),
        Pair::new("20", 20),
    ];
    let mut heap = DHeap::with_pairs(pairs, None, Some(4)).unwrap();
    assert_eq!("11", *heap.remove("11").unwrap().get_element());
}

#[test]
fn contains_correct() {
    let pairs = vec![
        Pair::new("9", 9),
        Pair::new("4", 4),
        Pair::new("11", 11),
        Pair::new("10", 10),
        Pair::new("6", 6),
        Pair::new("20", 20),
    ];
    let heap = DHeap::with_pairs(pairs, None, Some(4)).unwrap();
    assert!(heap.contains(&"11"));
}

#[test]
fn dheap_get_top_test() {
    let mut heap = testing_plain_dheap();
    let received = heap.top().unwrap();
    let expected = Pair { priority: 9, element: 9.to_string() };

    assert_eq!(expected.priority, received.priority);
    assert_eq!(expected.element, received.element);
}

#[test]
fn dheap_peek_test() {
    let heap = testing_plain_dheap();
    let pair = heap.peek().unwrap();
    assert_eq!(9, pair.priority);
}

#[test]
fn dheap_update_is_correct() {
    let mut heap = testing_plain_dheap();
    heap.update_priority("9".to_string(), 10);
    let top_pair = heap.top().unwrap();
    assert_eq!(10, top_pair.priority);
}

#[test]
fn top_empties_the_heap_in_descending_order() {
    let mut heap: DHeap<u32> = DHeap::new(Some(16), Some(3));
    for priority in [5usize, 1, 9, 3, 7, 2, 8, 6, 4, 0, 9] {
        heap.insert(Pair::new(priority as u32, priority));
    }
    assert_eq!(heap.len(), 11);
    let mut taken = Vec::new();
    while let Some(pair) = heap.top() {
        assert_eq!(pair.element as usize, pair.priority);
        taken.push(pair.priority);
    }
    assert_eq!(taken, vec![9, 9, 8, 7, 6, 5, 4, 3, 2, 1, 0]);
    assert!(heap.peek().is_none());
    assert!(heap.top().is_none());
}

#[test]
fn heap_of_two_gives_both() {
    let mut heap = DHeap::new(None, Some(2));
    heap.insert(Pair::new('a', 1));
    heap.insert(Pair::new('b', 2));
    assert_eq!(heap.top().unwrap().element, 'b');
    assert_eq!(heap.top().unwrap().element, 'a');
    assert!(heap.top().is_none());
}

#[test]
fn default_branching_factor_is_four() {
    let heap: DHeap<u8> = DHeap::new(None, None);
    assert_eq!(heap.branching_factor(), 4);
    let heap: DHeap<u8> = DHeap::new(None, Some(7));
    assert_eq!(heap.branching_factor(), 7);
}

#[test]
fn insert_value_refuses_duplicates_and_the_highest_priority() {
    let mut heap = DHeap::new(None, None);
    assert_eq!(heap.insert_value("a", 1), Ok(()));
    assert_eq!(heap.insert_value("a", 2), Err(DHeapError::ElementAlreadyExists));
    assert_eq!(heap.insert_value("b", usize::MAX), Err(DHeapError::UnavailablePriority));
    assert_eq!(heap.insert_pair(Pair::new("a", 5)), Err(DHeapError::ElementAlreadyExists));
    assert_eq!(heap.insert_pair(Pair::new("c", usize::MAX)), Err(DHeapError::UnavailablePriority));
    assert_eq!(heap.insert_pair(Pair::new("c", 3)), Ok(()));
    assert_eq!(heap.len(), 2);
    assert_eq!(heap.peek().unwrap().element, "c");
}

#[test]
fn with_pairs_refuses_the_highest_priority() {
    let pairs = vec![Pair::new("a", 1), Pair::new("b", usize::MAX)];
    assert!(matches!(
        DHeap::with_pairs(pairs, None, None),
        Err(DHeapError::UnavailablePriority)
    ));
    let empty: Vec<Pair<&str>> = Vec::new();
    let mut heap = DHeap::with_pairs(empty, Some(3), Some(2)).unwrap();
    assert!(heap.top().is_none());
}

#[test]
fn remove_takes_the_element_out_and_keeps_the_order() {
    let mut heap = DHeap::with_pairs(six_pairs(), None, Some(2)).unwrap();
    assert!(heap.remove("7").is_none());
    assert_eq!(heap.len(), 6);
    let removed = heap.remove("10").unwrap();
    assert_eq!(removed.element, "10");
    assert_eq!(removed.priority, usize::MAX);
    assert!(!heap.contains(&"10"));
    let mut rest = Vec::new();
    while let Some(pair) = heap.top() {
        rest.push(pair.priority);
    }
    assert_eq!(rest, vec![20, 11, 9, 6, 4]);
}

#[test]
fn update_priority_keeps_the_heap_in_order() {
    let mut heap = DHeap::with_pairs(six_pairs(), None, Some(2)).unwrap();
    heap.update_priority("20", 1);
    heap.update_priority("4", 15);
    heap.update_priority("unknown", 100);
    let mut order = Vec::new();
    while let Some(pair) = heap.top() {
        order.push((pair.element, pair.priority));
    }
    assert_eq!(order, vec![("4", 15), ("11", 11), ("10", 10), ("9", 9), ("6", 6), ("20", 1)]);
}

#[test]
fn highest_priority_child_is_the_first_of_the_highest() {
    let pairs = vec![Pair::new(0, 9), Pair::new(1, 5), Pair::new(2, 7), Pair::new(3, 7)];
    let heap = DHeap::with_pairs(pairs, None, Some(3)).unwrap();
    assert_eq!(heap.peek().unwrap().priority, 9);
    assert_eq!(heap.highest_priority_child_index(0), 0);
    assert_eq!(heap.highest_priority_child_index(1), 1);
    assert_eq!(heap.highest_priority_child_index(17), 17);

    let mut unordered: DHeap<u8> = DHeap::new(None, Some(3));
    unordered.insert(Pair::new(0, 1));
    unordered.insert(Pair::new(1, 1));
    assert_eq!(unordered.highest_priority_child_index(0), 0);
}

#[test]
fn pair_gives_its_element() {
    let pair = Pair::new(String::from("x"), 3);
    assert_eq!(pair.get_element(), "x");
    assert_eq!(pair.get_cloned_element(), "x");
    let copy = pair.clone();
    assert_eq!(copy.priority, 3);
    assert_eq!(copy.element, "x");
}

use std::collections::BTreeMap;
use std::collections::BTreeSet;
use std::collections::BinaryHeap;

#[test]
fn test_binaryheap() {
    let mut heap = BinaryHeap::new();
    heap.push(1);
    heap.push(5);
    heap.push(3);
    println!("Top element in max-heap is: {:?}", heap.peek().unwrap());
    println!("Popped element in max-heap: {:?}", heap.pop().unwrap());
    for element in heap.clone().into_sorted_vec() {
        println!("Heap element in max-heap: {}", element);
    }
    let mut min_heap = BinaryHeap::new();
    min_heap.push(std::cmp::Reverse(1));
    min_heap.push(std::cmp::Reverse(5));
    min_heap.push(std::cmp::Reverse(3));
    println!("Top element in min-heap is: {:?}", min_heap.peek().map(|x| x.0).unwrap());
    println!("Popped element from min-heap: {:?}", min_heap.pop().map(|x| x.0).unwrap());
    for element in min_heap.clone().into_sorted_vec() {
        println!("Min-heap element in min-heap: {}", element.0);
    }
}

#[test]
fn test_binaryheap_pop() {
    let mut heap = BinaryHeap::new();
    heap.push(1);
    heap.push(5);
    heap.push(3);
    assert_eq!(heap.pop(), Some(5));
}

#[test]
fn test_binaryheap_peek() {
    let mut heap = BinaryHeap::new();
    heap.push(1);
    heap.push(5);
    heap.push(3);
    assert_eq!(heap.peek(), Some(&5));
}

#[test]
fn test_binaryheap_into_sorted_vec() {
    let mut heap = BinaryHeap::new();
    heap.push(1);
    heap.push(5);
    heap.push(3);
    let sorted_vec = heap.clone().into_sorted_vec();
    assert_eq!(sorted_vec, vec![1, 3, 5]);
}

#[test]
fn test_binaryheap_eq() {
    let mut heap1 = BinaryHeap::new();
    heap1.push(1);
    let mut heap2 = BinaryHeap::new();
    heap2.push(1);
    let heap_vec: Vec<_> = heap1.clone().into_sorted_vec();
    let heap2_vec: Vec<_> = heap2.clone().into_sorted_vec();
    assert_eq!(heap_vec, heap2_vec);
}

#[test]
fn test_binaryheap_ne() {
    let mut heap1 = BinaryHeap::new();
    heap1.push(1);
    let mut heap2 = BinaryHeap::new();
    heap2.push(2);
    let heap_vec: Vec<_> = heap1.clone().into_sorted_vec();
    let heap2_vec: Vec<_> = heap2.clone().into_sorted_vec();
    assert_ne!(heap_vec, heap2_vec);
}

#[test]
fn test_binaryheap_clone() {
    let mut heap = BinaryHeap::new();
    heap.push(1);
    let cloned_heap = heap.clone();
    let heap_vec: Vec<_> = heap.clone().into_sorted_vec();
    let cloned_heap_vec: Vec<_> = cloned_heap.clone().into_sorted_vec();
    assert_eq!(heap_vec, cloned_heap_vec);
}

#[test]
fn test_btreemap() {
    let mut map = BTreeMap::new();
    map.insert("c", 3);
    map.insert("a", 1);
    map.insert("b", 2);
    for (key, value) in &map {
        println!("{}: {}", key, value);
    }
    if let Some(value) = map.get("a") {
        println!("The value for 'a' is: {}", value);
    }
}

#[test]
fn test_btreemap_get() {
    let mut map = BTreeMap::new();
    map.insert("c", 3);
    map.insert("a", 1);
    map.insert("b", 2);
    assert_eq!(map.get("a"), Some(&1));
}

#[test]
fn test_btreemap_iter() {
    let mut map = BTreeMap::new();
    map.insert("c", 3);
    map.insert("a", 1);
    map.insert("b", 2);
    let mut iter = map.iter();
    assert_eq!(iter.next(), Some((&"a", &1)));
    assert_eq!(iter.next(), Some((&"b", &2)));
    assert_eq!(iter.next(), Some((&"c", &3)));
    assert_eq!(iter.next(), None);
}

#[test]
fn test_btreemap_eq() {
    let mut map1 = BTreeMap::new();
    map1.insert("c", 3);
    map1.insert("a", 1);
    map1.insert("b", 2);
    let mut map2 = BTreeMap::new();
    map2.insert("a", 1);
    map2.insert("b", 2);
    map2.insert("c", 3);
    assert_eq!(map1, map2);
}

#[test]
fn test_btreemap_ne() {
    let mut map1 = BTreeMap::new();
    map1.insert("c", 3);
    map1.insert("a", 1);
    map1.insert("b", 2);
    let mut map2 = BTreeMap::new();
    map2.insert("a", 1);
    map2.insert("b", 2);
    assert_ne!(map1, map2);
}

#[test]
fn test_btreemap_clone() {
    let mut map = BTreeMap::new();
    map.insert("c", 3);
    map.insert("a", 1);
    map.insert("b", 2);
    let cloned_map = map.clone();
    assert_eq!(map, cloned_map);
}

#[test]
fn test_btreeset_contains() {
    let mut set: BTreeSet<i32> = BTreeSet::new();
    set.insert(3);
    set.insert(1);
    set.insert(2);
    assert!(set.contains(&2));
}

#[test]
fn test_btreeset_iter() {
    let mut set: BTreeSet<i32> = BTreeSet::new();
    set.insert(3);
    set.insert(1);
    set.insert(2);
    let mut iter = set.iter();
    assert_eq!(iter.next(), Some(&1));
    assert_eq!(iter.next(), Some(&2));
    assert_eq!(iter.next(), Some(&3));
    assert_eq!(iter.next(), None);
}

#[test]
fn test_btreeset_eq() {
    let mut set1: BTreeSet<i32> = BTreeSet::new();
    set1.insert(3);
    set1.insert(1);
    set1.insert(2);
    let mut set2: BTreeSet<i32> = BTreeSet::new();
    set2.insert(1);
    set2.insert(2);
    set2.insert(3);
    assert_eq!(set1, set2);
}

#[test]
fn test_btreeset_ne() {
    let mut set1: BTreeSet<i32> = BTreeSet::new();
    set1.insert(3);
    set1.insert(1);
    let mut set2: BTreeSet<i32> = BTreeSet::new();
    set2.insert(1);
    assert_ne!(set1, set2);
}

#[test]
fn test_btreeset_clone() {
    let mut set: BTreeSet<i32> = BTreeSet::new();
    set.insert(3);
    set.insert(1);
    let cloned_set = set.clone();
    assert_eq!(set, cloned_set);
}

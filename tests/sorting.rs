use graph_cycles::sorting::heap::{self, EmptyHeap, Heap, HeapType};
use graph_cycles::sorting::insertion;
use graph_cycles::sorting::merge;
use graph_cycles::sorting::Config;

#[test]
fn test_heapsort_antiordered() {
    let unordered: Vec<u32> = vec![1, 3, 5, 7, 9, 11, 13, 15, 17, 19];
    let ordered = heap::sort(&unordered, HeapType::MAX);
    assert_eq!(ordered.0, vec![19, 17, 15, 13, 11, 9, 7, 5, 3, 1]);
}

#[test]
fn test_heapsort_ordered() {
    let unordered: Vec<u32> = vec![10, 9, 8, 7, 6, 5, 4, 3, 2, 1];
    let ordered = heap::sort(&unordered, HeapType::MAX);
    assert_eq!(ordered.0, unordered);
}

#[test]
fn test_heapsort_random() {
    let unordered: Vec<u32> = vec![1, 15, 4, 1905, 45, 14, 5, 15, 2, 100];
    let sorted = heap::sort(&unordered, HeapType::MAX);
    assert_eq!(sorted.0, vec![1905, 100, 45, 15, 15, 14, 5, 4, 2, 1])
}

#[test]
fn test_heapsort_a_shape() {
    let unordered: Vec<u32> = vec![3, 7, 11, 15, 19, 17, 13, 9, 5, 1];
    let sorted = heap::sort(&unordered, HeapType::MAX);
    assert_eq!(sorted.0, vec![19, 17, 15, 13, 11, 9, 7, 5, 3, 1]);
}

#[test]
fn test_heapsort_v_shape() {
    let unordered: Vec<u32> = vec![17, 13, 9, 5, 1, 3, 7, 11, 15, 19];
    let sorted = heap::sort(&unordered, HeapType::MAX);
    assert_eq!(sorted.0, vec![19, 17, 15, 13, 11, 9, 7, 5, 3, 1]);
}

#[test]
fn min_heap_sorts_ascending() {
    let sorted = heap::sort(&[5, 1, 4, 1, 3], HeapType::MIN);
    assert_eq!(sorted.0, vec![1, 1, 3, 4, 5]);
    assert!(heap::sort(&[], HeapType::MIN).0.is_empty());
}

#[test]
fn heap_gives_roots_until_empty() {
    let mut h = Heap::new(&[2, 9, 4], HeapType::MAX);
    assert_eq!(h.size(), 3);
    assert_eq!(h.left(3), 6);
    assert_eq!(h.right(3), 7);
    assert_eq!(h.root(), Ok(9));
    assert_eq!(h.root(), Ok(4));
    assert_eq!(h.root(), Ok(2));
    assert_eq!(h.size(), 0);
    assert_eq!(h.root(), Err(EmptyHeap));
}

#[test]
fn test_insertionsort_ordered() {
    let unordered: Vec<u32> = vec![10, 9, 8, 7, 6, 5, 4, 3, 2, 1];
    let ordered = insertion::sort(&unordered, |x, y| y as i32 - x as i32);
    assert_eq!(ordered.0, unordered);
}

#[test]
fn test_insertionsort_antiordered() {
    let unordered: Vec<u32> = vec![1, 2, 3, 4, 5, 6, 7, 8, 9, 10];
    let ordered = insertion::sort(&unordered, |x, y| y as i32 - x as i32);
    assert_eq!(ordered.0, vec![10, 9, 8, 7, 6, 5, 4, 3, 2, 1]);
}

#[test]
fn test_insertionsort_random() {
    let unordered: Vec<u32> = vec![15, 4, 8, 5, 16, 1, 21, 3, 30, 6];
    let ordered = insertion::sort(&unordered, |x, y| y as i32 - x as i32);
    assert_eq!(ordered.0, vec![30, 21, 16, 15, 8, 6, 5, 4, 3, 1]);
}

#[test]
fn test_insertionsort_a_shape() {
    let unordered: Vec<u32> = vec![2, 4, 6, 8, 10, 9, 7, 5, 3, 1];
    let ordered = insertion::sort(&unordered, |x, y| y as i32 - x as i32);
    assert_eq!(ordered.0, vec![10, 9, 8, 7, 6, 5, 4, 3, 2, 1]);
}

#[test]
fn test_insertionsort_v_shape() {
    let unordered: Vec<u32> = vec![9, 7, 5, 3, 1, 2, 4, 6, 8, 10];
    let ordered = insertion::sort(&unordered, |x, y| y as i32 - x as i32);
    assert_eq!(ordered.0, vec![10, 9, 8, 7, 6, 5, 4, 3, 2, 1]);
}

#[test]
fn insertion_sort_counts_its_work() {
    // Ascending input under a descending order: every item walks to the front.
    let (ordered, comparisons, swaps) = insertion::sort(&[1, 2, 3], |x, y| y as i32 - x as i32);
    assert_eq!(ordered, vec![3, 2, 1]);
    assert_eq!(comparisons, 3);
    assert_eq!(swaps, 1);
    // Already ordered: one comparison per item after the first.
    let (_, comparisons, swaps) = insertion::sort(&[3, 2, 1], |x, y| y as i32 - x as i32);
    assert_eq!(comparisons, 2);
    assert_eq!(swaps, 0);
}

#[test]
fn default_config() {
    let config = Config::new();
    assert_eq!(config.input, None);
    assert_eq!(config.output, "./results.txt");
    assert_eq!(config.size, 10_000);
    assert!(!config.append);
    assert!(!config.generate);
}

#[test]
fn test_mergesort_ordered() {
    let unordered: Vec<u32> = vec![10, 9, 8, 7, 6, 5, 4, 3, 2, 1];
    let ordered = merge::sort(&unordered, |x, y| y - x);
    assert_eq!(ordered.0, unordered);
}

#[test]
fn test_mergesort_antiordered() {
    let unordered: Vec<u32> = vec![1, 2, 3, 4, 5, 6, 7, 8, 9, 10];
    let ordered = merge::sort(&unordered, |x, y| y - x);
    assert_eq!(ordered.0, vec![10, 9, 8, 7, 6, 5, 4, 3, 2, 1]);
}

#[test]
fn test_mergesort_random() {
    let unordered: Vec<u32> = vec![15, 4, 8, 5, 16, 1, 21, 3, 30, 6];
    let ordered = merge::sort(&unordered, |x, y| y - x);
    assert_eq!(ordered.0, vec![30, 21, 16, 15, 8, 6, 5, 4, 3, 1]);
}

#[test]
fn test_mergesort_a_shape() {
    let unordered: Vec<u32> = vec![2, 4, 6, 8, 10, 9, 7, 5, 3, 1];
    let ordered = merge::sort(&unordered, |x, y| y - x);
    assert_eq!(ordered.0, vec![10, 9, 8, 7, 6, 5, 4, 3, 2, 1]);
}

#[test]
fn test_mergesort_v_shape() {
    let unordered: Vec<u32> = vec![9, 7, 5, 3, 1, 2, 4, 6, 8, 10];
    let ordered = merge::sort(&unordered, |x, y| y - x);
    assert_eq!(ordered.0, vec![10, 9, 8, 7, 6, 5, 4, 3, 2, 1]);
}

#[test]
fn merge_sort_keeps_duplicates_and_counts_steps() {
    let (ordered, steps, from_right) = merge::sort(&[2, 7, 2, 5], |x, y| y - x);
    assert_eq!(ordered, vec![7, 5, 2, 2]);
    // Two runs of one, two runs of one, then one run of four.
    assert_eq!(steps, 8);
    assert!(from_right <= steps);
    assert_eq!(merge::sort(&[4], |x, y| y - x).0, vec![4]);
}

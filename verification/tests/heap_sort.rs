use algorithms::heap_sort::heap_sort;
use algorithms::heap_sort::InPlaceHeap;

#[test]
fn empty() {
    let mut v: Vec<i32> = vec![];
    heap_sort(&mut v);
    assert_eq!(v, vec![]);
}

#[test]
fn heap_sort_small() {
    let mut v = vec![6, 5, 4, 3, 2, 1];
    heap_sort(&mut v);
    assert_eq!(v, vec![1, 2, 3, 4, 5, 6]);
}

#[test]
fn heap_sort_sorted() {
    let mut v = vec![1, 2, 3, 4, 5, 6];
    heap_sort(&mut v);
    assert_eq!(v, vec![1, 2, 3, 4, 5, 6]);
}

#[test]
fn heap_sort_odd_elements() {
    let mut v = vec![3, 1, 2];
    heap_sort(&mut v);
    assert_eq!(v, vec![1, 2, 3]);
}

#[test]
fn heap_sort_sort_chars() {
    let mut v = vec!['a', 'b', 'b', 'a'];
    heap_sort(&mut v);
    assert_eq!(v, vec!['a', 'a', 'b', 'b']);
}

#[test]
fn heap_sort_keeps_duplicates_and_negatives() {
    let mut v = vec![0, -5, 7, -5, 7, 3, i32::MIN, i32::MAX, 0];
    heap_sort(&mut v);
    assert_eq!(v, vec![i32::MIN, -5, -5, 0, 0, 3, 7, 7, i32::MAX]);
}

#[test]
fn heap_sort_single_element() {
    let mut v = vec![42u8];
    heap_sort(&mut v);
    assert_eq!(v, vec![42]);
}

#[test]
fn build_heap_puts_the_greatest_first() {
    let mut v = vec![3, 9, 1, 12, 5, 7, 12, 0];
    {
        let heap = InPlaceHeap::build_heap(&mut v);
        assert_eq!(heap.heap_size, 8);
        for child in 1..heap.heap_size {
            assert!(heap.elements[(child - 1) / 2] >= heap.elements[child]);
        }
    }
    assert_eq!(v[0], 12);
    let mut elements = v.clone();
    elements.sort();
    assert_eq!(elements, vec![0, 1, 3, 5, 7, 9, 12, 12]);
}

#[test]
fn heapify_lets_a_small_root_sink() {
    let mut v = vec![1, 9, 8, 4, 5, 6, 7];
    {
        let mut heap = InPlaceHeap { elements: &mut v, heap_size: 7 };
        heap.heapify(0);
    }
    assert_eq!(v, vec![9, 5, 8, 4, 1, 6, 7]);
}

#[test]
fn heapify_stays_inside_the_heap() {
    let mut v = vec![1, 9, 8, 4];
    {
        let mut heap = InPlaceHeap { elements: &mut v, heap_size: 2 };
        heap.heapify(0);
    }
    assert_eq!(v, vec![9, 1, 8, 4]);
}

#[test]
fn heap_sort_of_a_heap_with_a_sorted_rest() {
    let mut v = vec![5, 3, 4, 1, 8, 9];
    {
        let mut heap = InPlaceHeap { elements: &mut v, heap_size: 4 };
        heap.heap_sort();
        assert_eq!(heap.heap_size, 0);
    }
    assert_eq!(v, vec![1, 3, 4, 5, 8, 9]);
}

#[test]
fn heap_sort_agrees_with_the_standard_sort() {
    let mut x: u64 = 99;
    for len in 0..60 {
        let mut v: Vec<i64> = Vec::new();
        for _ in 0..len {
            x = x.wrapping_mul(6364136223846793005).wrapping_add(1442695040888963407);
            v.push(((x >> 40) % 50) as i64 - 25);
        }
        let mut expected = v.clone();
        expected.sort();
        heap_sort(&mut v);
        assert_eq!(v, expected);
    }
}

#[test]
fn heap_sort_leaves_what_stands_behind_the_heap() {
    let mut v = vec![5, 3, 4, 1, 0, 9, 2];
    {
        let mut heap = InPlaceHeap { elements: &mut v, heap_size: 4 };
        heap.heap_sort();
        assert_eq!(heap.heap_size, 0);
    }
    assert_eq!(v, vec![1, 3, 4, 5, 0, 9, 2]);
}

#[test]
fn heapify_changes_only_the_subtree_of_its_place() {
    let mut v = vec![0, 1, 2, 9, 8, 7, 6, 5, 4, 3];
    {
        let mut heap = InPlaceHeap { elements: &mut v, heap_size: 10 };
        heap.heapify(1);
    }
    assert_eq!(v, vec![0, 9, 2, 5, 8, 7, 6, 1, 4, 3]);
}

#[test]
fn heapify_of_a_place_behind_the_heap_does_nothing() {
    let mut v = vec![1, 2, 3, 4, 5];
    {
        let mut heap = InPlaceHeap { elements: &mut v, heap_size: 2 };
        heap.heapify(3);
        heap.heapify(1000);
    }
    assert_eq!(v, vec![1, 2, 3, 4, 5]);
}

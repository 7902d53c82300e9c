use algorithms::merge_sort::merge_sort;

#[test]
fn merge_sort_empy() {
    let mut v = vec![];
    merge_sort(&mut v);
    assert_eq!(v, vec![]);
}

#[test]
fn merge_sort_small() {
    let mut v = vec![6, 5, 4, 3, 2, 1];
    merge_sort(&mut v);
    assert_eq!(v, vec![1, 2, 3, 4, 5, 6]);
}

#[test]
fn merge_sort_sorted() {
    let mut v = vec![1, 2, 3, 4, 5, 6];
    merge_sort(&mut v);
    assert_eq!(v, vec![1, 2, 3, 4, 5, 6]);
}

#[test]
fn merge_sort_odd_elements() {
    let mut v = vec![3, 1, 2];
    merge_sort(&mut v);
    assert_eq!(v, vec![1, 2, 3]);
}

#[test]
fn merge_sort_keeps_duplicates_and_negatives() {
    let mut v = vec![0, -5, 7, -5, 7, 3, i32::MIN, i32::MAX, 0];
    merge_sort(&mut v);
    assert_eq!(v, vec![i32::MIN, -5, -5, 0, 0, 3, 7, 7, i32::MAX]);
}

#[test]
fn merge_sort_single_element() {
    let mut v = vec![42];
    merge_sort(&mut v);
    assert_eq!(v, vec![42]);
}

#[test]
fn merge_sort_agrees_with_the_standard_sort() {
    let mut x: u64 = 7;
    for len in 0..60 {
        let mut v: Vec<i32> = Vec::new();
        for _ in 0..len {
            x = x.wrapping_mul(6364136223846793005).wrapping_add(1442695040888963407);
            v.push(((x >> 40) % 50) as i32 - 25);
        }
        let mut expected = v.clone();
        expected.sort();
        merge_sort(&mut v);
        assert_eq!(v, expected);
    }
}

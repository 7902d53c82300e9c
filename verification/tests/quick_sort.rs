use algorithms::quick_sort::quick_sort;

#[test]
fn quick_sort_empy() {
    let mut v: Vec<i32> = vec![];
    quick_sort(&mut v);
    assert_eq!(v, vec![]);
}

#[test]
fn quick_sort_small() {
    let mut v = vec![6, 5, 4, 3, 2, 1];
    quick_sort(&mut v);
    assert_eq!(v, vec![1, 2, 3, 4, 5, 6]);
}

#[test]
fn quick_sort_sorted() {
    let mut v = vec![1, 2, 3, 4, 5, 6];
    quick_sort(&mut v);
    assert_eq!(v, vec![1, 2, 3, 4, 5, 6]);
}

#[test]
fn quick_sort_odd_elements() {
    let mut v = vec![3, 1, 2];
    quick_sort(&mut v);
    assert_eq!(v, vec![1, 2, 3]);
}

#[test]
fn quick_sort_sort_chars() {
    let mut v = vec!['a', 'b', 'b', 'a'];
    quick_sort(&mut v);
    assert_eq!(v, vec!['a', 'a', 'b', 'b']);
}

#[test]
fn quick_sort_keeps_duplicates_and_negatives() {
    let mut v = vec![0, -5, 7, -5, 7, 3, i32::MIN, i32::MAX, 0];
    quick_sort(&mut v);
    assert_eq!(v, vec![i32::MIN, -5, -5, 0, 0, 3, 7, 7, i32::MAX]);
}

#[test]
fn quick_sort_gives_one_result_whatever_the_pivots() {
    let mut x: u64 = 2024;
    for len in 0..40 {
        let mut v: Vec<u16> = Vec::new();
        for _ in 0..len {
            x = x.wrapping_mul(6364136223846793005).wrapping_add(1442695040888963407);
            v.push(((x >> 40) % 30) as u16);
        }
        let mut expected = v.clone();
        expected.sort();
        for _ in 0..5 {
            let mut again = v.clone();
            quick_sort(&mut again);
            assert_eq!(again, expected);
        }
    }
}

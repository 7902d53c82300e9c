use algorithms::exchange::swap;

#[test]
fn swap_exchanges_two_elements() {
    let mut v = vec![10, 20, 30, 40];
    swap(&mut v, 0, 3);
    assert_eq!(v, vec![40, 20, 30, 10]);
    swap(&mut v, 2, 1);
    assert_eq!(v, vec![40, 30, 20, 10]);
}

#[test]
fn swap_of_a_place_with_itself_changes_nothing() {
    let mut v = vec!['x', 'y'];
    swap(&mut v, 1, 1);
    assert_eq!(v, vec!['x', 'y']);
}

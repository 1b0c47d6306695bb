use rust_utils::set_range::SetRange;

#[test]
fn range() {
    let mut vals = vec![0; 5];
    vals[1..3].set(2);

    assert_eq!(vals, vec![0, 2, 2, 0, 0]);
}

#[test]
fn whole_and_empty_slices() {
    let mut vals = vec![1, 2, 3];
    vals[..].set(7);
    assert_eq!(vals, vec![7, 7, 7]);

    vals[1..1].set(0);
    assert_eq!(vals, vec![7, 7, 7]);
}

use dicemind::minmax::MinMax;

#[test]
fn random() {
    let random: Vec<i32> = vec![1, 2, 9, 2, -4, 12, 0, -11];
    let minmax = MinMax::from_vec(random.iter().cloned().collect());

    assert!(minmax.vec().is_sorted());
    assert_eq!(minmax.max().cloned(), random.iter().cloned().max());
    assert_eq!(minmax.min().cloned(), random.iter().cloned().min());
}

#[test]
fn insort_returns_the_place() {
    let mut minmax: MinMax<i32> = MinMax::default();
    assert_eq!(minmax.max(), None);
    assert_eq!(minmax.min(), None);
    assert_eq!(minmax.insort(5), 0);
    assert_eq!(minmax.insort(1), 0);
    assert_eq!(minmax.insort(9), 2);
    assert_eq!(minmax.insort(5), 1);
    assert_eq!(minmax.into_inner(), vec![1, 5, 5, 9]);
}

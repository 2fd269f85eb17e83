use gui::arrange::allocate;

#[test]
fn allocate_nothing_for_no_children() {
    assert_eq!(allocate(&vec![], 100), Vec::<u32>::new());
}

#[test]
fn allocate_splits_spare_evenly() {
    assert_eq!(allocate(&vec![10, 20, 30], 90), vec![20, 30, 40]);
}

#[test]
fn allocate_exact_fit() {
    assert_eq!(allocate(&vec![10, 20, 30], 60), vec![10, 20, 30]);
}

#[test]
fn allocate_with_enough_space_uses_all_of_it() {
    let mins = vec![10, 20, 30];
    let sizes = allocate(&mins, 120);
    assert_eq!(sizes.iter().sum::<u32>(), 120);
    for (s, m) in sizes.iter().zip(mins.iter()) {
        assert!(s >= m);
    }
}

#[test]
fn allocate_gives_the_units_left_over_to_the_first_children() {
    assert_eq!(allocate(&vec![10, 20, 30], 61), vec![11, 20, 30]);
    assert_eq!(allocate(&vec![10, 20, 30], 62), vec![11, 21, 30]);
    assert_eq!(allocate(&vec![10, 20, 30], 63), vec![11, 21, 31]);
    assert_eq!(allocate(&vec![0, 0, 0], 10), vec![4, 3, 3]);
}

#[test]
fn allocate_hands_out_all_of_the_length() {
    for mins in [vec![0, 0, 0], vec![10, 20, 30], vec![1, 1, 1], vec![7], vec![3, 0, 5, 0]] {
        for avail in [0u32, 1, 2, 7, 8, 59, 60, 61, 100, 1001, u32::MAX] {
            let sizes = allocate(&mins, avail);
            assert_eq!(sizes.iter().map(|s| *s as u64).sum::<u64>(), avail as u64);
            let need: u64 = mins.iter().map(|m| *m as u64).sum();
            if avail as u64 >= need {
                for (s, m) in sizes.iter().zip(mins.iter()) {
                    assert!(s >= m);
                }
            }
        }
    }
}

#[test]
fn allocate_scales_down_when_short() {
    assert_eq!(allocate(&vec![10, 20, 30], 30), vec![5, 10, 15]);
    assert_eq!(allocate(&vec![10, 20, 30], 0), vec![0, 0, 0]);
    assert_eq!(allocate(&vec![3, 3, 3], 8), vec![2, 3, 3]);
    assert_eq!(allocate(&vec![1, 1, 1], 2), vec![0, 1, 1]);
    assert_eq!(allocate(&vec![30, 90], 60), vec![15, 45]);
}

#[test]
fn allocate_with_no_demand_splits_everything() {
    assert_eq!(allocate(&vec![0, 0], 10), vec![5, 5]);
    assert_eq!(allocate(&vec![0, 0, 0], 0), vec![0, 0, 0]);
}

#[test]
fn allocate_at_the_limits() {
    assert_eq!(allocate(&vec![u32::MAX, u32::MAX], u32::MAX), vec![u32::MAX / 2, u32::MAX / 2 + 1]);
    assert_eq!(allocate(&vec![u32::MAX], u32::MAX), vec![u32::MAX]);
    assert_eq!(allocate(&vec![0], u32::MAX), vec![u32::MAX]);
}

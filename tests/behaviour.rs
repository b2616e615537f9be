use stepgroup::{sequential_group, sequential_ungroup, AtomicStep};

#[test]
fn round_trip_keeps_order_and_repeats() {
    let input: Vec<i64> = vec![5, 6, 7, 7, 8, 3, 2, 1, 100, 101, -4];
    let groups = sequential_group(input.clone());
    assert_eq!(
        groups,
        vec![(5, 7), (7, 8), (3, 3), (2, 2), (1, 1), (100, 101), (-4, -4)]
    );
    assert_eq!(sequential_ungroup(groups), input);
}

#[test]
fn single_value_makes_one_range() {
    assert_eq!(sequential_group(vec![0u8]), vec![(0u8, 0u8)]);
    assert_eq!(sequential_ungroup(vec![(0u8, 0u8)]), vec![0u8]);
}

#[test]
fn unbroken_run_makes_one_range() {
    let input: Vec<u32> = (10..20).collect();
    assert_eq!(sequential_group(input), vec![(10u32, 19u32)]);
}

#[test]
fn descending_values_each_stand_alone() {
    assert_eq!(
        sequential_group(vec![3i8, 2, 1]),
        vec![(3i8, 3i8), (2, 2), (1, 1)]
    );
}

#[test]
fn last_value_may_be_the_largest() {
    assert_eq!(sequential_group(vec![254u8, 255]), vec![(254u8, 255u8)]);
    assert_eq!(
        sequential_group(vec![i128::MAX - 1, i128::MAX]),
        vec![(i128::MAX - 1, i128::MAX)]
    );
}

#[test]
fn range_with_start_after_end_expands_to_nothing() {
    assert_eq!(sequential_ungroup(vec![(9i32, 3i32), (1, 2)]), vec![1, 2]);
    assert_eq!(sequential_ungroup(Vec::<(u64, u64)>::new()), Vec::<u64>::new());
}

#[test]
fn ungroup_expands_each_range_inclusively() {
    assert_eq!(
        sequential_ungroup(vec![(-2isize, 1isize), (7, 7)]),
        vec![-2isize, -1, 0, 1, 7]
    );
    assert_eq!(sequential_ungroup(vec![(3usize, 5usize)]), vec![3usize, 4, 5]);
}

#[test]
fn integer_steps_are_one() {
    assert_eq!(7usize.atomic_step(), 1);
    assert_eq!(7u8.atomic_step(), 1);
    assert_eq!(7u32.atomic_step(), 1);
    assert_eq!(7u64.atomic_step(), 1);
    assert_eq!(7u128.atomic_step(), 1);
    assert_eq!((-7isize).atomic_step(), 1);
    assert_eq!((-7i8).atomic_step(), 1);
    assert_eq!((-7i32).atomic_step(), 1);
    assert_eq!((-7i64).atomic_step(), 1);
    assert_eq!((-7i128).atomic_step(), 1);
}

use std::ops::Add;

use stepgroup::{sequential_group, sequential_ungroup, AtomicStep};

#[derive(PartialEq, Eq, Ord, PartialOrd, Clone, Copy, Debug)]
pub struct Evens(pub u32);

impl Add for Evens {
    type Output = Self;
    fn add(self, rhs: Self) -> Self::Output {
        Self(self.0 + rhs.0)
    }
}

impl AtomicStep for Evens {
    fn atomic_step(&self) -> Self {
        Self(2)
    }
}

fn positives() -> impl Iterator<Item = i32> {
    (0..10).chain(20..31).chain(45..50).chain(60..61)
}

fn negatives() -> impl Iterator<Item = i32> {
    (-50..-45).chain(-20..-5).chain(-3..10)
}

fn overlap() -> impl Iterator<Item = i32> {
    (-50..-45).chain(-48..-20).chain(0..10).chain(-5..10)
}

#[test]
fn test_empty() {
    let mut group = sequential_group((0..1).collect::<Vec<i32>>());
    assert_eq!(group, Vec::from([(0, 0)]));
    assert_eq!(sequential_ungroup(group.clone()), Vec::from([0]));
    group = sequential_group((0..0).collect::<Vec<i32>>());
    assert_eq!(group, Vec::new());
    assert_eq!(sequential_ungroup(group), Vec::new());
}

#[test]
fn test_positives() {
    let group = sequential_group(positives().collect::<Vec<_>>());
    assert_eq!(group, Vec::from([(0, 9), (20, 30), (45, 49), (60, 60)]));
    assert_eq!(sequential_ungroup(group.clone()), positives().collect::<Vec<_>>());
    let chained_group = sequential_group(positives().chain(61..65).collect::<Vec<_>>());
    assert_eq!(chained_group, Vec::from([(0, 9), (20, 30), (45, 49), (60, 64)]));
}

#[test]
fn test_negatives() {
    let group = sequential_group(negatives().collect::<Vec<_>>());
    assert_eq!(group, Vec::from([(-50, -46), (-20, -6), (-3, 9)]));
    assert_eq!(sequential_ungroup(group.clone()), negatives().collect::<Vec<_>>());
}

#[test]
fn test_overlap() {
    let group = sequential_group(overlap().collect::<Vec<_>>());
    assert_eq!(group, Vec::from([(-50, -46), (-48, -21), (0, 9), (-5, 9)]));
    assert_eq!(sequential_ungroup(group.clone()), overlap().collect::<Vec<_>>());
}

#[test]
fn larger_step() {
    let evens = Vec::from([Evens(2), Evens(4), Evens(6), Evens(10)]);
    let group = sequential_group(evens);
    assert_eq!(group, Vec::from([(Evens(2), Evens(6)), (Evens(10), Evens(10))]));
    let evens = Vec::from([Evens(2), Evens(4), Evens(6), Evens(4), Evens(6), Evens(8)]);
    let group = sequential_group(evens);
    assert_eq!(group, Vec::from([(Evens(2), Evens(6)), (Evens(4), Evens(8))]));
    assert_eq!(
        sequential_ungroup(group),
        Vec::from([Evens(2), Evens(4), Evens(6), Evens(4), Evens(6), Evens(8)])
    );
}

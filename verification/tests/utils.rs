use empyrean::utils::partition;
use glam::{ivec3, IVec3};

#[test]
fn test_partition() {
    const N: i32 = 5;

    let mut values: Vec<_> = (-N..N)
        .flat_map(|x| (-N..N).flat_map(move |y| (-N..N).map(move |z| ivec3(x, y, z))))
        .collect();

    let predicates: Vec<Box<dyn Fn(&IVec3) -> bool>> = vec![
        Box::new(|_| true),
        Box::new(|p| p.x > 3),
        Box::new(|p| p.x > 3 && p.z < -2),
        Box::new(|p| p.x > 3 && p.z < -2 && p.y % 3 == 1),
        Box::new(|_| false),
    ];

    for (index, predicate) in predicates.into_iter().enumerate() {
        let first_false = partition(&mut values, &predicate);

        for i in 0..first_false {
            assert!(
                predicate(&values[i]),
                "predicate = predicates[{index}] expected = true i = {i:<4} first_false = {first_false:<4} value = {}",
                values[i]
            );
        }

        for i in first_false..values.len() {
            assert!(
                !predicate(&values[i]),
                "predicate = predicates[{index}] expected = false i = {i:<4} first_false = {first_false:<4} value = {}",
                values[i]
            );
        }
    }
}

fn sorted(mut v: Vec<i64>) -> Vec<i64> {
    v.sort();
    v
}

#[test]
fn partition_empty_slice_returns_zero() {
    let mut values: Vec<i64> = Vec::new();
    assert_eq!(partition(&mut values, |x: &i64| *x > 0), 0);
    assert!(values.is_empty());
}

#[test]
fn partition_single_items() {
    let mut yes = vec![4i64];
    assert_eq!(partition(&mut yes, |x: &i64| *x > 0), 1);
    let mut no = vec![-4i64];
    assert_eq!(partition(&mut no, |x: &i64| *x > 0), 0);
}

#[test]
fn partition_keeps_items_and_splits_at_count() {
    let initial = vec![5i64, -1, 7, 2, -8, 0, 3, -3, 9];
    let mut values = initial.clone();
    let split = partition(&mut values, |x: &i64| *x > 2);
    assert_eq!(split, 4);
    assert!(values[..split].iter().all(|x| *x > 2));
    assert!(values[split..].iter().all(|x| *x <= 2));
    assert_eq!(sorted(values), sorted(initial));
}

#[test]
fn partition_all_true_and_all_false() {
    let initial = vec![3i64, 1, 2];
    let mut values = initial.clone();
    assert_eq!(partition(&mut values, |_: &i64| true), 3);
    assert_eq!(values, initial);
    let mut values = initial.clone();
    assert_eq!(partition(&mut values, |_: &i64| false), 0);
    assert_eq!(values, initial);
}

#[test]
fn partition_alternating_items() {
    let mut values: Vec<i64> = (0..20).collect();
    let split = partition(&mut values, |x: &i64| x % 2 == 0);
    assert_eq!(split, 10);
    assert!(values[..10].iter().all(|x| x % 2 == 0));
    assert!(values[10..].iter().all(|x| x % 2 == 1));
    assert_eq!(sorted(values), (0..20).collect::<Vec<i64>>());
}

#[test]
fn partition_leaves_a_partitioned_slice_unchanged() {
    let mut values = vec![5i64, -1, 7, 2, -8, 0, 3, -3, 9];
    let first = partition(&mut values, |x: &i64| *x > 2);
    let once = values.clone();
    let second = partition(&mut values, |x: &i64| *x > 2);
    assert_eq!(first, second);
    assert_eq!(values, once);
    let mut ready = vec![9i64, 8, 1, 0, -2];
    assert_eq!(partition(&mut ready, |x: &i64| *x > 5), 2);
    assert_eq!(ready, vec![9, 8, 1, 0, -2]);
}

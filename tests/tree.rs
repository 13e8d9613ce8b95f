use std::cmp::Ordering;

use interval_tree::Interval;
use interval_tree::IntervalTree;

fn values_of(tree: &IntervalTree<u32, u32>, q: Interval<u32>) -> Vec<u32> {
    let mut it = tree.query(q);
    let mut out = Vec::new();
    while let Some(e) = it.next() {
        out.push(*e.value);
    }
    out.sort();
    out
}

fn verify(tree: &IntervalTree<u32, u32>, i: u32, expected: &[u32]) {
    let v1 = values_of(tree, Interval::from_inclusive(i, i).unwrap());
    let v2 = values_of(tree, Interval::new(i, i + 1));
    assert_eq!(v1, expected);
    assert_eq!(v2, expected);
}

fn count(tree: &IntervalTree<usize, bool>, q: Interval<usize>) -> usize {
    let mut it = tree.query(q);
    let mut cnt = 0;
    while it.next().is_some() {
        cnt += 1;
    }
    cnt
}

fn sample() -> IntervalTree<u32, u32> {
    IntervalTree::from_entries(vec![
        (Interval::new(0, 3), 1),
        (Interval::new(1, 4), 2),
        (Interval::new(2, 5), 3),
        (Interval::new(3, 6), 4),
        (Interval::new(4, 7), 5),
        (Interval::new(5, 8), 6),
        (Interval::new(4, 5), 7),
        (Interval::new(2, 7), 8),
    ])
}

#[test]
fn query_1() {
    let mut tree = IntervalTree::<usize, bool>::new();
    for i in 0..10 {
        tree.insert(Interval::new(i * 10, i * 10 + 10), false);
    }
    assert_eq!(count(&tree, Interval::new(0, 10000)), 10);
}

#[test]
fn query_2() {
    let mut tree = IntervalTree::<usize, bool>::new();
    for i in 0..10 {
        tree.insert(Interval::new(i * 10, i * 10 + 10), false);
    }
    assert_eq!(count(&tree, Interval::new(0, 30)), 3);
}

#[test]
fn it_works() {
    let tree = sample();

    verify(&tree, 0, &[1]);
    verify(&tree, 1, &[1, 2]);
    verify(&tree, 2, &[1, 2, 3, 8]);
    verify(&tree, 3, &[2, 3, 4, 8]);
    verify(&tree, 4, &[3, 4, 5, 7, 8]);
    verify(&tree, 5, &[4, 5, 6, 8]);
    verify(&tree, 6, &[5, 6, 8]);
    verify(&tree, 7, &[6]);
    verify(&tree, 8, &[]);
    verify(&tree, 9, &[]);

    assert_eq!(tree.query(Interval::new(1, 1)).next(), None);
    let q12 = Interval::from_inclusive(1, 2).unwrap();
    assert_eq!(tree.query(q12).next().unwrap().interval.end, 4);
    assert_eq!(tree.query(q12).next().unwrap().value, &2);
    let q15 = Interval::from_inclusive(1, 5).unwrap();
    assert_eq!(tree.query(q15).next().unwrap().value, &4);
}

#[test]
fn empty() {
    let tree: IntervalTree<u32, u32> = IntervalTree::new();
    verify(&tree, 42, &[]);
}

#[test]
fn empty_tree_reports_nothing() {
    let tree: IntervalTree<u32, u32> = IntervalTree::new();
    assert!(tree.is_empty());
    assert_eq!(tree.size(), 0);
    assert_eq!(tree.height(), -1);
    assert_eq!(values_of(&tree, Interval::new(0, u32::MAX)), Vec::<u32>::new());
}

#[test]
fn point_queries_on_sample() {
    let tree = sample();
    assert_eq!(values_of(&tree, Interval::new(4, 5)), vec![3, 4, 5, 7, 8]);
    assert_eq!(values_of(&tree, Interval::new(8, 9)), Vec::<u32>::new());
    assert_eq!(values_of(&tree, Interval::new(1, 1)), Vec::<u32>::new());
    assert_eq!(tree.size(), 8);
    assert!(!tree.is_empty());
}

#[test]
fn duplicate_insert_keeps_first_value() {
    let mut tree: IntervalTree<u32, u32> = IntervalTree::new();
    tree.insert(Interval::new(5, 10), 1);
    tree.insert(Interval::new(5, 10), 2);
    assert_eq!(tree.size(), 1);
    assert_eq!(values_of(&tree, Interval::new(6, 7)), vec![1]);
}

#[test]
fn bulk_build_keeps_first_of_duplicates() {
    let tree = IntervalTree::from_entries(vec![
        (Interval::new(1u32, 2u32), 10u32),
        (Interval::new(1, 2), 20),
        (Interval::new(3, 4), 30),
    ]);
    assert_eq!(tree.size(), 2);
    assert_eq!(values_of(&tree, Interval::new(0, 10)), vec![10, 30]);
}

#[test]
fn delete_absent_changes_nothing() {
    let mut tree = sample();
    tree.delete(Interval::new(0, 4));
    tree.delete(Interval::new(100, 200));
    assert_eq!(tree.size(), 8);
    assert_eq!(values_of(&tree, Interval::new(0, 100)), vec![1, 2, 3, 4, 5, 6, 7, 8]);

    let mut empty: IntervalTree<u32, u32> = IntervalTree::new();
    empty.delete(Interval::new(0, 1));
    assert!(empty.is_empty());
}

#[test]
fn delete_present_removes_one() {
    let mut tree = sample();
    tree.delete(Interval::new(2, 7));
    assert_eq!(tree.size(), 7);
    assert_eq!(values_of(&tree, Interval::new(4, 5)), vec![3, 4, 5, 7]);
    tree.delete(Interval::new(3, 6));
    assert_eq!(values_of(&tree, Interval::new(4, 5)), vec![3, 5, 7]);
    assert_eq!(tree.size(), 6);
}

#[test]
fn delete_min_and_max() {
    let mut tree = sample();
    tree.delete_min();
    assert_eq!(values_of(&tree, Interval::new(0, 100)), vec![2, 3, 4, 5, 6, 7, 8]);
    tree.delete_max();
    assert_eq!(values_of(&tree, Interval::new(0, 100)), vec![2, 3, 4, 5, 7, 8]);
    for _ in 0..6 {
        tree.delete_max();
    }
    assert!(tree.is_empty());
    tree.delete_min();
    tree.delete_max();
    assert!(tree.is_empty());
}

#[test]
fn clear_empties_the_tree() {
    let mut tree = sample();
    tree.clear();
    assert!(tree.is_empty());
    assert_eq!(tree.height(), -1);
    assert_eq!(values_of(&tree, Interval::new(0, 100)), Vec::<u32>::new());
}

#[test]
fn heights_stay_logarithmic() {
    let mut tree: IntervalTree<u32, u32> = IntervalTree::new();
    assert_eq!(tree.height(), -1);
    tree.insert(Interval::new(0, 1), 0);
    assert_eq!(tree.height(), 0);
    for i in 1..1024u32 {
        tree.insert(Interval::new(i, i + 1), i);
    }
    assert_eq!(tree.size(), 1024);
    assert_eq!(tree.height(), 10);
}

#[test]
fn degenerate_intervals_never_match() {
    let mut tree: IntervalTree<u32, u32> = IntervalTree::new();
    tree.insert(Interval::new(5, 5), 1);
    tree.insert(Interval::new(7, 3), 2);
    tree.insert(Interval::new(0, 10), 3);
    assert_eq!(tree.size(), 3);
    assert_eq!(values_of(&tree, Interval::new(0, 10)), vec![3]);
    assert_eq!(values_of(&tree, Interval::new(5, 5)), Vec::<u32>::new());
}

#[test]
fn intersect_gives_common_part() {
    let a = Interval::new(2u32, 8u32);
    let b = Interval::new(5u32, 12u32);
    assert_eq!(a.intersect(&b), Some(Interval::new(5, 8)));
    assert_eq!(b.intersect(&a), Some(Interval::new(5, 8)));
    assert_eq!(a.intersect(&Interval::new(8, 9)), None);
    assert_eq!(Interval::new(3u32, 3u32).intersect(&Interval::new(3, 3)), None);
    assert!(a.is_valid());
    assert!(!Interval::new(4u32, 4u32).is_valid());
    assert!(!Interval::new(5u32, 4u32).is_valid());
}

#[test]
fn compare_is_by_start_then_end() {
    let a = Interval::new(1u32, 5u32);
    assert_eq!(a.compare(&Interval::new(2, 3)), Ordering::Less);
    assert_eq!(a.compare(&Interval::new(1, 6)), Ordering::Less);
    assert_eq!(a.compare(&Interval::new(1, 4)), Ordering::Greater);
    assert_eq!(a.compare(&Interval::new(0, 9)), Ordering::Greater);
    assert_eq!(a.compare(&Interval::new(1, 5)), Ordering::Equal);
    assert!(a < Interval::new(1, 6));
}

#[test]
fn inclusive_bounds() {
    let i = Interval::from_inclusive(3u32, 7u32).unwrap();
    assert_eq!(i, Interval::new(3, 8));
    assert_eq!(Interval::from_inclusive(0u32, u32::MAX), None);
    assert_eq!(Interval::from_inclusive(0u8, 254u8), Some(Interval::new(0, 255)));
}

#[test]
fn matches_brute_force() {
    let mut tree: IntervalTree<u32, u32> = IntervalTree::new();
    let mut model: Vec<(u32, u32, u32)> = Vec::new();
    let mut seed: u64 = 12345;
    let mut next = || {
        seed = seed.wrapping_mul(6364136223846793005).wrapping_add(1442695040888963407);
        (seed >> 33) as u32
    };
    for step in 0..600u32 {
        let s = next() % 200;
        let len = next() % 30;
        let iv = Interval::new(s, s + len);
        if next() % 3 == 0 {
            tree.delete(iv);
            model.retain(|&(a, b, _)| !(a == s && b == s + len));
        } else {
            tree.insert(iv, step);
            if !model.iter().any(|&(a, b, _)| a == s && b == s + len) {
                model.push((s, s + len, step));
            }
        }
        assert_eq!(tree.size(), model.len());
        if step % 20 == 0 {
            for qs in (0..240).step_by(7) {
                let qe = qs + (step % 13);
                let mut expected: Vec<u32> = model
                    .iter()
                    .filter(|&&(a, b, _)| a.max(qs) < b.min(qe))
                    .map(|&(_, _, v)| v)
                    .collect();
                expected.sort();
                assert_eq!(values_of(&tree, Interval::new(qs, qe)), expected);
            }
        }
    }
    let n = tree.size() as f64;
    assert!((tree.height() as f64) <= 1.45 * (n + 2.0).log2());
}

#[test]
fn query_mut_changes_overlapping_values() {
    let mut tree = sample();
    let mut it = tree.query_mut(Interval::new(4, 5));
    let mut seen = 0;
    while let Some(e) = it.next() {
        assert!(e.interval.start < 5 && 4 < e.interval.end);
        *e.value += 100;
        seen += 1;
    }
    assert_eq!(seen, 5);
    assert_eq!(values_of(&tree, Interval::new(0, 100)), vec![1, 2, 6, 103, 104, 105, 107, 108]);
    assert_eq!(tree.size(), 8);
    assert_eq!(values_of(&tree, Interval::new(7, 8)), vec![6]);
}

#[test]
fn query_mut_on_empty_tree_yields_nothing() {
    let mut tree: IntervalTree<u32, u32> = IntervalTree::new();
    assert!(tree.query_mut(Interval::new(0, 10)).next().is_none());
}

#[test]
fn ranges_convert_to_intervals() {
    let a: Interval<u32> = (3..8).into();
    assert_eq!(a, Interval::new(3, 8));
    let r = 10u64..20u64;
    let b: Interval<u64> = Interval::from(&r);
    assert_eq!(b.start, 10);
    assert_eq!(b.end, 20);
    let mut tree: IntervalTree<u32, u32> = IntervalTree::default();
    assert!(tree.is_empty());
    tree.insert((0..5).into(), 9);
    assert_eq!(values_of(&tree, (4..6).into()), vec![9]);
}

#[test]
fn signed_keys_work() {
    let mut tree: IntervalTree<i64, u32> = IntervalTree::new();
    tree.insert(Interval::new(-10, -5), 1);
    tree.insert(Interval::new(-6, 3), 2);
    tree.insert(Interval::new(0, 1), 3);
    let mut it = tree.query(Interval::new(-7, -5));
    let mut got = Vec::new();
    while let Some(e) = it.next() {
        got.push(*e.value);
    }
    got.sort();
    assert_eq!(got, vec![1, 2]);
    assert_eq!(Interval::from_inclusive(-1i64, i64::MAX), None);
}

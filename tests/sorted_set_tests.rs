use std::collections::HashSet;
use ilnlp::set::SortedSet;

fn ids(s: &SortedSet) -> Vec<usize> {
    s.iter().to_vec()
}

#[test]
fn new_sorts_and_dedups() {
    let s = SortedSet::new(vec![5, 1, 3, 1, 5, 2]);
    assert_eq!(ids(&s), vec![1, 2, 3, 5]);
    assert_eq!(s.len(), 4);
    assert!(!s.is_empty());
    assert!(SortedSet::new(vec![]).is_empty());
}

#[test]
fn union_of_multisets() {
    let a = SortedSet::new(vec![3, 1, 1, 7]);
    let b = SortedSet::new(vec![2, 7, 3, 9, 9]);
    assert_eq!(ids(&a.union(&b)), vec![1, 2, 3, 7, 9]);
    assert_eq!(ids(&a.union(&SortedSet::new(vec![]))), vec![1, 3, 7]);
}

#[test]
fn intersection_and_difference() {
    let a = SortedSet::new(vec![1, 2, 3, 4, 8]);
    let b = SortedSet::new(vec![2, 4, 6, 8, 10]);
    assert_eq!(ids(&a.intersection(&b)), vec![2, 4, 8]);
    assert_eq!(ids(&a.difference(&b)), vec![1, 3]);
    assert_eq!(ids(&b.difference(&a)), vec![6, 10]);
    assert!(a.intersection(&SortedSet::new(vec![5, 9])).is_empty());
}

#[test]
fn subset_superset_disjoint() {
    let a = SortedSet::new(vec![2, 4]);
    let b = SortedSet::new(vec![1, 2, 3, 4]);
    let c = SortedSet::new(vec![5, 6]);
    let e = SortedSet::new(vec![]);
    assert!(a.is_subset(&b));
    assert!(!b.is_subset(&a));
    assert!(b.is_superset(&a));
    assert!(e.is_subset(&a));
    assert!(a.is_subset(&a));
    assert!(!SortedSet::new(vec![2, 5]).is_subset(&b));
    assert!(a.is_disjoint(&c));
    assert!(!a.is_disjoint(&b));
    assert!(e.is_disjoint(&e));
}

#[test]
fn set_ops_match_hash_sets() {
    let samples: Vec<Vec<usize>> = vec![
        vec![],
        vec![1],
        vec![4, 4, 2],
        vec![1, 2, 3, 4, 5],
        vec![9, 1, 5, 1],
        vec![2, 4],
    ];
    for x in &samples {
        for y in &samples {
            let a = SortedSet::new(x.clone());
            let b = SortedSet::new(y.clone());
            let ha: HashSet<usize> = x.iter().cloned().collect();
            let hb: HashSet<usize> = y.iter().cloned().collect();
            let mut u: Vec<usize> = ha.union(&hb).cloned().collect();
            u.sort();
            let mut i: Vec<usize> = ha.intersection(&hb).cloned().collect();
            i.sort();
            let mut d: Vec<usize> = ha.difference(&hb).cloned().collect();
            d.sort();
            assert_eq!(ids(&a.union(&b)), u);
            assert_eq!(ids(&a.intersection(&b)), i);
            assert_eq!(ids(&a.difference(&b)), d);
            assert_eq!(a.is_subset(&b), ha.is_subset(&hb));
            assert_eq!(a.is_disjoint(&b), ha.is_disjoint(&hb));
        }
    }
}

#[test]
fn renormalizing_is_a_noop() {
    let s = SortedSet::new(vec![8, 3, 3, 1, 8]);
    let again = SortedSet::new(s.iter().to_vec());
    assert!(again == s);
    assert_eq!(ids(&again), ids(&s));
}

#[test]
fn contains_and_insert() {
    let mut s = SortedSet::new(vec![4, 2]);
    assert!(s.contains(&2));
    assert!(!s.contains(&3));
    s.insert(3);
    s.insert(3);
    s.insert(1);
    assert_eq!(ids(&s), vec![2, 4, 3, 3, 1]);
    assert_eq!(ids(&SortedSet::new(ids(&s))), vec![1, 2, 3, 4]);
}

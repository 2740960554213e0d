use route_solver::arena::CompactLinkedVector;
use route_solver::linked_vector::LinkedVectorWIthErrorValuesAsEmptyNodes;
use rand::SeedableRng;
use rand::rngs::SmallRng;
use std::collections::HashSet;

fn check_list_integrity(lv: &CompactLinkedVector<usize>) {
    let forward = lv.collect_forward();
    let backward = lv.collect_backward();
    assert_eq!(forward.len(), backward.len());
    for (k, i) in forward.iter().enumerate() {
        assert_eq!(backward[forward.len() - 1 - k], *i);
    }
    if forward.is_empty() {
        assert!(lv.get_head_index().is_none());
        assert!(lv.get_tail_index().is_none());
    } else {
        assert_eq!(lv.get_head_index(), Some(forward[0]));
        assert_eq!(lv.get_tail_index(), Some(forward[forward.len() - 1]));
    }
}

fn is_compacted(lv: &CompactLinkedVector<usize>) {
    assert_eq!(lv.free_count(), 0);
    let mut iter_count = 0;
    let mut it = lv.iter();
    while let Some(_) = it.next() {
        iter_count += 1;
    }
    assert_eq!(iter_count, lv.len());
}

#[test]
fn push_back_to_empty_list() {
    let mut lv = CompactLinkedVector::new();
    lv.push_back(1);
    assert_eq!(lv.get_head_index().unwrap(), 0, "yay");
    assert_eq!(lv.get_value(lv.get_head_index().unwrap()).unwrap(), 1, "yay");
    assert_eq!(lv.get_value(lv.get_tail_index().unwrap()).unwrap(), 1, "yay");
}

#[test]
fn push_front_to_empty_list() {
    let mut lv = CompactLinkedVector::new();
    lv.push_front(1);
    assert_eq!(lv.get_head_index().unwrap(), 0, "yay");
    assert_eq!(lv.get_value(lv.get_head_index().unwrap()).unwrap(), 1, "yay");
    assert_eq!(lv.get_value(lv.get_tail_index().unwrap()).unwrap(), 1, "yay");
}

#[test]
fn push_back_and_remove() {
    let mut lv = CompactLinkedVector::new();
    let node1 = lv.push_back(1);
    let node2 = lv.push_back(2);
    assert_eq!(lv.get_value(lv.get_head_index().unwrap()).unwrap(), 1);
    assert_eq!(lv.get_value(lv.get_tail_index().unwrap()).unwrap(), 2);
    lv.remove(node2);
    assert_eq!(lv.get_value(lv.get_head_index().unwrap()).unwrap(), 1);
    assert_eq!(lv.get_value(lv.get_tail_index().unwrap()).unwrap(), 1);
    lv.remove(node1);
    assert!(lv.get_head_index().is_none());
    assert!(lv.get_tail_index().is_none());
    assert_eq!(lv.free_count(), 2)
}

#[test]
fn insert_front_and_back_multiple() {
    let mut lv = CompactLinkedVector::new();
    let a = lv.push_back(1);
    let b = lv.push_back(2);
    let c = lv.push_back(3);

    assert_eq!(lv.get_head_index(), Some(a));
    assert_eq!(lv.get_tail_index(), Some(c));

    assert_eq!(lv.get_next(a), Some(b));
    assert_eq!(lv.get_next(b), Some(c));
    assert_eq!(lv.get_prev(c), Some(b));
}

#[test]
fn insert_before_middle() {
    let mut lv = CompactLinkedVector::new();
    lv.push_back(1);
    let b = lv.push_back(3);
    lv.push_back(4);

    let inserted = lv.insert_before(b, 2);

    assert_eq!(lv.get_value(inserted).unwrap(), 2);
    assert_eq!(lv.get_next(inserted), Some(b));
    assert_eq!(lv.get_prev(b), Some(inserted));
}

#[test]
fn insert_after_middle() {
    let mut lv = CompactLinkedVector::new();
    let a = lv.push_back(1);
    let b = lv.push_back(3);

    let inserted = lv.insert_after(a, 2);

    assert_eq!(lv.get_value(inserted).unwrap(), 2);
    assert_eq!(lv.get_prev(inserted), Some(a));
    assert_eq!(lv.get_next(inserted), Some(b));
    assert_eq!(lv.get_next(a), Some(inserted));
    assert_eq!(lv.get_prev(b), Some(inserted));
}

#[test]
fn remove_head() {
    let mut lv = CompactLinkedVector::new();
    let a = lv.push_back(1);
    let b = lv.push_back(2);

    lv.remove(a);

    assert_eq!(lv.get_head_index(), Some(b));
    assert_eq!(lv.get_prev(b), None);
    assert_eq!(lv.get_value(b).unwrap(), 2);
}

#[test]
fn remove_tail() {
    let mut lv = CompactLinkedVector::new();
    let a = lv.push_back(1);
    let b = lv.push_back(2);

    lv.remove(b);

    assert_eq!(lv.get_tail_index(), Some(a));
    assert_eq!(lv.get_next(a), None);
}

#[test]
fn remove_middle() {
    let mut lv = CompactLinkedVector::new();
    let a = lv.push_back(1);
    let b = lv.push_back(2);
    let c = lv.push_back(3);

    lv.remove(b);

    assert_eq!(lv.get_next(a), Some(c));
    assert_eq!(lv.get_prev(c), Some(a));
}

#[test]
fn reuse_empty_nodes() {
    let mut lv = CompactLinkedVector::new();
    let a = lv.push_back(10);
    let b = lv.push_back(20);

    lv.remove(a);

    let c = lv.push_back(30);

    assert_eq!(c, a, "Empty slot was not reused");
    assert_eq!(lv.get_value(c).unwrap(), 30);
    assert_eq!(lv.get_next(b), Some(c));
}

#[test]
fn insert_after_tail() {
    let mut lv = CompactLinkedVector::new();
    let a = lv.push_back(1);
    let b = lv.insert_after(a, 2);

    assert_eq!(lv.get_tail_index(), Some(b));
    assert_eq!(lv.get_next(a), Some(b));
    assert_eq!(lv.get_prev(b), Some(a));
}

#[test]
fn insert_before_head() {
    let mut lv = CompactLinkedVector::new();
    let a = lv.push_back(2);
    let b = lv.insert_before(a, 1);

    assert_eq!(lv.get_head_index(), Some(b));
    assert_eq!(lv.get_next(b), Some(a));
}

#[test]
fn random_insertions_and_removals_stay_consistent() {
    let mut lv = CompactLinkedVector::new();
    let mut nodes = vec![];

    for i in 0..10 {
        nodes.push(lv.push_back(i));
    }

    for &n in &nodes {
        if lv.get_value(n).unwrap() % 2 == 0 {
            lv.remove(n);
        }
    }

    let forward = lv.collect_forward();
    let mut last = None;
    for i in forward {
        if let Some(prev) = lv.get_prev(i) {
            assert_eq!(lv.get_next(prev), Some(i));
        }
        last = Some(i);
    }
    assert_eq!(last, lv.get_tail_index());
}

#[test]
fn get_random_never_returns_empty_nodes() {
    let mut lv = CompactLinkedVector::new();
    let a = lv.push_back(10);
    lv.push_back(20);

    lv.remove(a);

    lv.compact();
    let mut rng = SmallRng::seed_from_u64(7);
    lv.compact();
    for _ in 0..100 {
        let (_, value) = lv.get_random(&mut rng).unwrap();
        assert_eq!(value, 20);
    }
}

#[test]
fn compact() {
    let mut lv = CompactLinkedVector::new();
    let mut nodes = vec![];

    for i in 0..10 {
        nodes.push(lv.push_back(i));
    }

    for &n in &nodes {
        if lv.get_value(n).unwrap() % 2 == 0 {
            lv.remove(n);
        }
    }
    lv.compact();
    is_compacted(&lv);
}

#[test]
fn compact_empty_list() {
    let mut lv = CompactLinkedVector::new();
    let mut nodes = vec![];
    for i in 0..2 {
        nodes.push(lv.push_back(i))
    }

    for &n in &nodes {
        lv.remove(n);
    }
    lv.compact();
    is_compacted(&lv);
}

fn fill_linked_vector(indices: usize) -> CompactLinkedVector<usize> {
    let mut lv = CompactLinkedVector::new();
    for i in 0..indices {
        lv.push_back(i);
    }
    lv
}

#[test]
fn compact_creates_no_self_loops_bug4() {
    let mut lv = CompactLinkedVector::new();

    lv.push_back(10);
    let b = lv.push_back(20);
    let c = lv.push_back(30);
    lv.push_back(40);

    lv.remove(b);
    lv.remove(c);
    lv.compact();

    for i in lv.collect_forward() {
        if let Some(next) = lv.get_next(i) {
            assert_ne!(next, i, "BUG: compact created a self-loop at index {}", i);
        }
    }
}

#[test]
fn compact_on_middle_removals() {
    let mut lv = CompactLinkedVector::new();

    lv.push_back(1);
    let b = lv.push_back(2);
    let c = lv.push_back(3);
    lv.push_back(4);

    lv.remove(b);
    lv.remove(c);

    lv.compact();

    let _ = lv.collect_forward();
    is_compacted(&lv);
}

#[test]
fn compact_when_head_tail_removed() {
    let mut lv = CompactLinkedVector::new();

    let a = lv.push_back(1);
    lv.push_back(2);
    let c = lv.push_back(3);

    lv.remove(a);
    lv.remove(c);

    lv.compact();

    assert_eq!(lv.get_head_index(), Some(0));
    assert_eq!(lv.get_tail_index(), Some(0));
    is_compacted(&lv);
}

#[test]
fn stress_test_with_continuous_correctness_checks() {
    let mut rng = SmallRng::seed_from_u64(12345);
    let mut lv = fill_linked_vector(10_000);

    let mut random_var_val = 10_000;
    let mut random_indices = HashSet::new();

    for _ in 0..300 {
        random_indices.clear();
        let action_count: u64 = route_solver::rng::rng_below(&mut rng, 256);

        for _ in 0..(action_count % 30) {
            random_indices.insert(lv.get_random(&mut rng).unwrap().0);
        }

        for j in &random_indices {
            let action: u64 = route_solver::rng::rng_below(&mut rng, 256);

            if !lv.is_occupied(*j) {
                continue;
            }
            match action % 4 {
                0 => {
                    lv.insert_after(*j, random_var_val);
                    random_var_val += 1;
                }
                1 => {
                    lv.insert_before(*j, random_var_val);
                    random_var_val += 1;
                }
                _ => {
                    lv.remove(*j);
                }
            }
        }
        check_list_integrity(&lv);
        lv.compact();
        check_list_integrity(&lv);
        is_compacted(&lv);
    }
}

#[test]
fn stress_test_only_check_at_the_end() {
    let mut rng = SmallRng::seed_from_u64(12345);
    let mut lv = fill_linked_vector(10_000);

    let mut random_var_val = 10_000;
    let mut random_indices = HashSet::new();

    for _ in 0..5_000 {
        random_indices.clear();

        for _ in 0..5 {
            random_indices.insert(lv.get_random(&mut rng).unwrap().0);
        }

        for j in &random_indices {
            let action: u64 = route_solver::rng::rng_below(&mut rng, 256);

            if !lv.is_occupied(*j) {
                continue;
            }
            match action % 4 {
                0 => {
                    lv.insert_after(*j, random_var_val);
                    random_var_val += 1;
                }
                1 => {
                    lv.insert_before(*j, random_var_val);
                    random_var_val += 1;
                }
                _ => {
                    lv.remove(*j);
                }
            }
        }
        lv.compact();
    }
    check_list_integrity(&lv);
    lv.compact();
    let mut n = 0;
    let mut it = lv.iter();
    while let Some(_) = it.next() {
        n += 1;
    }
    assert_eq!(n, lv.len());
    check_list_integrity(&lv);
    is_compacted(&lv);
}

#[test]
fn linked_vector_push_back_to_empty_list() {
    let mut lv = LinkedVectorWIthErrorValuesAsEmptyNodes::new();
    lv.push_back(1);
    assert_eq!(lv.get_head_index().unwrap(), 0, "yay");
    assert_eq!(lv.get_value(lv.get_head_index().unwrap()).unwrap(), 1, "yay");
    assert_eq!(lv.get_value(lv.get_tail_index().unwrap()).unwrap(), 1, "yay");
}

#[test]
fn linked_vector_push_front_to_empty_list() {
    let mut lv = LinkedVectorWIthErrorValuesAsEmptyNodes::new();
    lv.push_front(1);
    assert_eq!(lv.get_head_index().unwrap(), 0, "yay");
    assert_eq!(lv.get_value(lv.get_head_index().unwrap()).unwrap(), 1, "yay");
    assert_eq!(lv.get_value(lv.get_tail_index().unwrap()).unwrap(), 1, "yay");
}

#[test]
fn linked_vector_push_back_and_remove() {
    let mut lv = LinkedVectorWIthErrorValuesAsEmptyNodes::new();
    let node1 = lv.push_back(1);
    let node2 = lv.push_back(2);
    assert_eq!(lv.get_value(lv.get_head_index().unwrap()).unwrap(), 1);
    assert_eq!(lv.get_value(lv.get_tail_index().unwrap()).unwrap(), 2);
    lv.remove(node2);
    assert_eq!(lv.get_value(lv.get_head_index().unwrap()).unwrap(), 1);
    assert_eq!(lv.get_value(lv.get_tail_index().unwrap()).unwrap(), 1);
    lv.remove(node1);
    assert!(lv.get_head_index().is_none());
    assert!(lv.get_tail_index().is_none());
}

#[test]
fn arena_scenario_push_push_remove() {
    let mut lv = CompactLinkedVector::new();
    let first = lv.push_back(1);
    assert_eq!(lv.get_head_index(), Some(first));
    assert_eq!(lv.get_tail_index(), Some(first));
    assert_eq!(lv.get_value(first).unwrap(), 1);

    let second = lv.push_back(2);
    assert_eq!(lv.get_next(first), Some(second));
    assert_eq!(lv.get_prev(second), Some(first));

    lv.remove(first);
    assert_eq!(lv.get_head_index(), Some(second));
    assert_eq!(lv.get_prev(second), None);
}

use sat_nexus::idx::IdxHeap;
use sat_nexus::var::Var;

#[test]
fn idx_heap_test_min_heap_insert_by() {
    let mut heap = IdxHeap::<u32>::new();
    let cmp = |&a: &u32, &b: &u32| a < b;
    heap.insert_by(3, cmp);
    heap.insert_by(1, cmp);
    heap.insert_by(5, cmp);
    heap.insert_by(2, cmp);
    heap.insert_by(4, cmp);
    assert_eq!(heap.as_slice(), &[1, 2, 5, 3, 4]);

    let sorted = heap.into_sorted_vec_by(&cmp);
    assert_eq!(sorted, vec![1, 2, 3, 4, 5]);
}

#[test]
fn idx_heap_test_max_heap_insert_by() {
    let mut heap = IdxHeap::<u32>::new();
    let cmp = |&a: &u32, &b: &u32| a > b;
    heap.insert_by(3, cmp);
    heap.insert_by(1, cmp);
    heap.insert_by(5, cmp);
    heap.insert_by(2, cmp);
    heap.insert_by(4, cmp);
    assert_eq!(heap.as_slice(), &[5, 4, 3, 1, 2]);

    let sorted = heap.into_sorted_vec_by(&cmp);
    assert_eq!(sorted, vec![5, 4, 3, 2, 1]);
}

#[test]
fn idx_heap_test_heap_insert() {
    let mut heap = IdxHeap::<u32>::new();
    heap.insert(3);
    heap.insert(1);
    heap.insert(5);
    heap.insert(2);
    heap.insert(4);
    assert_eq!(heap.as_slice(), &[5, 4, 3, 1, 2]);

    let sorted = heap.into_sorted_vec();
    assert_eq!(sorted, vec![5, 4, 3, 2, 1]);
}

#[test]
fn index_map_test_min_heap_insert_by() {
    let mut heap = IdxHeap::<u32>::new();
    let cmp = |&a: &u32, &b: &u32| a < b;
    heap.insert_by(3, cmp);
    heap.insert_by(1, cmp);
    heap.insert_by(5, cmp);
    heap.insert_by(2, cmp);
    heap.insert_by(4, cmp);
    assert_eq!(heap.as_slice(), &[1, 2, 5, 3, 4]);

    let sorted = heap.into_sorted_vec_by(&cmp);
    assert_eq!(sorted, vec![1, 2, 3, 4, 5]);
}

#[test]
fn index_map_test_max_heap_insert_by() {
    let mut heap = IdxHeap::<u32>::new();
    let cmp = |&a: &u32, &b: &u32| a > b;
    heap.insert_by(3, cmp);
    heap.insert_by(1, cmp);
    heap.insert_by(5, cmp);
    heap.insert_by(2, cmp);
    heap.insert_by(4, cmp);
    assert_eq!(heap.as_slice(), &[5, 4, 3, 1, 2]);

    let sorted = heap.into_sorted_vec_by(&cmp);
    assert_eq!(sorted, vec![5, 4, 3, 2, 1]);
}

#[test]
fn index_map_test_heap_insert() {
    let mut heap = IdxHeap::<u32>::new();
    heap.insert(3);
    heap.insert(1);
    heap.insert(5);
    heap.insert(2);
    heap.insert(4);
    assert_eq!(heap.as_slice(), &[5, 4, 3, 1, 2]);

    let sorted = heap.into_sorted_vec();
    assert_eq!(sorted, vec![5, 4, 3, 2, 1]);
}

#[test]
fn heap_membership_and_updates() {
    let mut heap = IdxHeap::<Var>::new();
    assert!(heap.is_empty());
    assert!(heap.insert(Var::new(4)));
    assert!(heap.insert(Var::new(9)));
    assert!(!heap.insert(Var::new(4)));
    assert_eq!(heap.len(), 2);
    assert!(heap.contains(&Var::new(9)));
    assert!(!heap.contains(&Var::new(5)));
    assert_eq!(heap.peek(), Some(&Var::new(9)));
    assert_eq!(heap.pop(), Some(Var::new(9)));
    assert!(!heap.contains(&Var::new(9)));
    heap.update(Var::new(4));
    assert_eq!(heap.pop(), Some(Var::new(4)));
    assert_eq!(heap.pop(), None);

    // A priority that changes: the heap is restored with `update_by`.
    let mut prio = vec![5u32, 1, 3];
    let mut heap = IdxHeap::<u32>::heapify_by(vec![0, 1, 2], |&a: &u32, &b: &u32| prio[a as usize] > prio[b as usize]);
    assert_eq!(heap.peek(), Some(&0));
    prio[2] = 9;
    heap.update_by(2, |&a: &u32, &b: &u32| prio[a as usize] > prio[b as usize]);
    assert_eq!(heap.peek(), Some(&2));
    heap.clear();
    assert!(heap.is_empty());
    let heap = IdxHeap::<u32>::heapify(vec![2, 7, 1]);
    assert_eq!(heap.into_sorted_vec(), vec![7, 2, 1]);
}

#[test]
fn heap_pops_in_decreasing_order() {
    let mut heap = IdxHeap::<u32>::heapify(vec![4, 11, 0, 7, 3, 9]);
    let slice = heap.as_slice().to_vec();
    for j in 1..slice.len() {
        assert!(slice[j] <= slice[(j - 1) / 2]);
    }
    assert_eq!(heap.pop(), Some(11));
    assert!(heap.as_slice().iter().all(|&k| k < 11));
    heap.insert(6);
    heap.decrease_by(6, |&a: &u32, &b: &u32| a > b);
    heap.increase_by(6, |&a: &u32, &b: &u32| a > b);
    assert_eq!(heap.into_sorted_vec(), vec![9, 7, 6, 4, 3, 0]);
}

#[test]
fn heap_reorders_a_key_whose_priority_changed() {
    // Priorities live outside the heap; after changing one, the update methods restore the
    // order and the keys come out by decreasing priority.
    let mut prio: Vec<u32> = vec![10, 20, 30, 40, 50];
    let mut heap = IdxHeap::<u32>::new();
    for k in 0..5u32 {
        let p = prio.clone();
        heap.insert_by(k, |a: &u32, b: &u32| p[*a as usize] > p[*b as usize]);
    }
    assert_eq!(heap.as_slice()[0], 4);
    prio[0] = 60;
    {
        let p = prio.clone();
        heap.decrease_by(0, |a: &u32, b: &u32| p[*a as usize] > p[*b as usize]);
    }
    assert_eq!(heap.as_slice()[0], 0);
    prio[0] = 5;
    {
        let p = prio.clone();
        heap.increase_by(0, |a: &u32, b: &u32| p[*a as usize] > p[*b as usize]);
    }
    assert_eq!(heap.as_slice()[0], 4);
    prio[2] = 70;
    {
        let p = prio.clone();
        heap.update_by(2, |a: &u32, b: &u32| p[*a as usize] > p[*b as usize]);
    }
    let p = prio.clone();
    let sorted = heap.into_sorted_vec_by(|a: &u32, b: &u32| p[*a as usize] > p[*b as usize]);
    assert_eq!(sorted, vec![2, 4, 3, 1, 0]);
}

#[test]
fn heap_pop_by_follows_the_given_order() {
    let mut heap: IdxHeap<Var> = IdxHeap::new();
    // Ordered by the negated index: the smallest variable comes first.
    let cmp = |a: &Var, b: &Var| a.index() < b.index();
    for i in [4u32, 1, 3, 0, 2] {
        heap.insert_by(Var::new(i), cmp);
    }
    let mut out = Vec::new();
    while let Some(v) = heap.pop_by(cmp) {
        out.push(v.index());
    }
    assert_eq!(out, vec![0, 1, 2, 3, 4]);
}

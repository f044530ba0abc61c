use rsds::list_set::{CoarseSet, ConcurrentSet, FineGrainedSet, List, OrderedList};

#[test]
fn linked_list() {
    let len = 5_000_000;
    let mut list = List::default();
    assert!(list.is_empty());
    for i in 0..len {
        list.add(i);
    }
    assert!(list.len() == len);
    let mut it = list.iter();
    let mut expected = 0;
    while let Some(elem) = it.next() {
        assert_eq!(*elem, expected);
        expected += 1;
    }
    assert_eq!(expected, len);
}

#[test]
fn ordered_list() {
    let min = 0;
    let max = 10_000;

    let mut list = OrderedList::<usize>::default();
    for i in min..max {
        list.add(i);
    }
    assert_eq!(list.len(), max - min);
    let mut it = list.iter();
    let mut expected = min;
    while let Some(elem) = it.next() {
        assert_eq!(*elem, expected);
        expected += 1;
    }
    assert_eq!(expected, max);

    let mut rev_list = OrderedList::<usize>::default();
    for i in (min..max).rev() {
        rev_list.add(i);
    }
    assert_eq!(list.len(), max - min);
    let mut it = list.iter();
    let mut expected = min;
    while let Some(elem) = it.next() {
        assert_eq!(*elem, expected);
        expected += 1;
    }
    assert_eq!(expected, max);

    assert_eq!(rev_list.len(), max - min);
    let mut it = rev_list.iter();
    let mut expected = min;
    while let Some(elem) = it.next() {
        assert_eq!(*elem, expected);
        expected += 1;
    }
    assert_eq!(expected, max);
}

#[test]
fn ordered_list_find() {
    let min = 0;
    let max = 10_000;

    let mut list = OrderedList::<usize>::default();
    for i in min..max {
        list.add(i);
    }

    assert!(list.find(&min));
    assert!(!list.find(&max));
    assert!(list.find(&((min + max) / 2)));
}

#[test]
fn coarse_set_single_thread() {
    let set = CoarseSet::<usize>::default();
    assert!(set.add(3));
    assert!(set.add(1));
    assert!(!set.add(3));
    assert!(set.contains(&1));
    assert!(set.remove(&1));
    assert!(!set.remove(&1));
    assert!(!set.contains(&1));
    assert!(set.contains(&3));
}

fn insert_contains_delete<S>(s: &S, elems: &[S::Elem])
where
    S: ConcurrentSet,
    S::Elem: Clone,
{
    for v in elems {
        assert!(s.add(v.clone()));
    }
    for v in elems {
        assert!(s.contains(v));
    }
    for v in elems {
        assert!(s.remove(v));
    }
    for v in elems {
        assert!(!s.contains(v));
    }
}

fn test_set<S>(elems: Vec<S::Elem>, num_thrs: usize)
where
    S: ConcurrentSet + Send + Sync + Default,
    S::Elem: Sync + Send + Clone,
{
    let num_inserts = elems.len() / num_thrs;
    let set = S::default();
    let set = &set;
    let elems = &elems;
    crossbeam::thread::scope(|scope| {
        let handles: Vec<_> = (0..num_thrs)
            .map(|i| {
                let start = i * num_inserts;
                let end = start + num_inserts;
                scope.spawn(move |_| insert_contains_delete(set, &elems[start..end]))
            })
            .collect();
        for h in handles {
            h.join().unwrap();
        }
    })
    .unwrap();
}

#[test]
fn coarse_set() {
    test_set::<CoarseSet<usize>>((0..10_000).collect(), 8);
}

#[test]
fn fine_grained_set() {
    test_set::<FineGrainedSet<usize>>((0..10_000).collect(), 8);
}

#[test]
fn fine_grained_set_single_thread() {
    let set = FineGrainedSet::<usize>::default();
    assert!(!set.contains(&3));
    assert!(!set.remove(&3));
    assert!(set.add(3));
    assert!(set.add(1));
    assert!(set.add(2));
    assert!(set.add(5));
    assert!(!set.add(3));
    assert!(!set.add(1));
    assert!(!set.add(5));
    assert!(set.contains(&1));
    assert!(set.contains(&2));
    assert!(set.contains(&3));
    assert!(set.contains(&5));
    assert!(!set.contains(&4));
    assert!(!set.contains(&0));
    assert!(!set.contains(&6));
    assert!(set.remove(&1));
    assert!(!set.remove(&1));
    assert!(!set.contains(&1));
    assert!(set.contains(&2));
    assert!(set.remove(&3));
    assert!(set.contains(&2));
    assert!(set.contains(&5));
    assert!(!set.contains(&3));
    assert!(set.remove(&5));
    assert!(set.remove(&2));
    assert!(!set.contains(&2));
    assert!(!set.remove(&2));
    assert!(set.add(2));
    assert!(set.contains(&2));
}

/// Eight threads, each with its own ten thousand values. Thread `t` has the
/// values that leave the remainder `t` when divided by eight.
#[test]
fn coarse_set_partitioned_stress() {
    let threads = 8usize;
    let per_thread = 10_000usize;
    let set = CoarseSet::<usize>::default();
    let set = &set;

    // The threads add from the greatest value down and wait for each other
    // after every hundred values, so that every addition is near the head.
    let in_step = std::sync::Barrier::new(threads);
    let in_step = &in_step;
    crossbeam::thread::scope(|scope| {
        for t in 0..threads {
            scope.spawn(move |_| {
                for i in (0..per_thread).rev() {
                    assert!(set.add(i * threads + t));
                    if i % 100 == 0 {
                        in_step.wait();
                    }
                }
            });
        }
    })
    .unwrap();

    assert_eq!(set.to_vec(), (0..threads * per_thread).collect::<Vec<_>>());
    crossbeam::thread::scope(|scope| {
        for t in 0..threads {
            scope.spawn(move |_| {
                for i in 0..per_thread {
                    assert!(set.contains(&(i * threads + t)));
                }
            });
        }
    })
    .unwrap();

    // The threads remove from the least value up, in step again, so that
    // every removal is near the head.
    crossbeam::thread::scope(|scope| {
        for t in 0..threads {
            scope.spawn(move |_| {
                for i in 0..per_thread {
                    assert!(set.remove(&(i * threads + t)));
                    if i % 100 == 0 {
                        in_step.wait();
                    }
                }
            });
        }
    })
    .unwrap();

    assert!(set.to_vec().is_empty());
    for v in 0..threads * per_thread {
        assert!(!set.contains(&v));
    }
}

/// A chain of a hundred thousand nodes is walked, emptied from its far end
/// and dropped without more stack than a chain of one.
#[test]
fn fine_grained_set_long_chain() {
    let set = FineGrainedSet::<usize>::default();
    let n = 100_000usize;
    for i in (0..n).rev() {
        assert!(set.add(i));
    }
    assert!(set.contains(&(n - 1)));
    assert!(!set.contains(&n));
    assert!(set.add(n));
    assert!(!set.add(n));
    assert!(set.remove(&(n - 1)));
    assert!(!set.contains(&(n - 1)));
    assert!(set.contains(&n));
    assert!(set.remove(&0));
    assert!(!set.contains(&0));
    assert!(set.contains(&1));
}

/// Values come and go many times over: the nodes that leave the chain are
/// used again, and the set answers as before.
#[test]
fn fine_grained_set_reuses_nodes() {
    let set = FineGrainedSet::<u32>::default();
    for round in 0..200u32 {
        for v in 0..16u32 {
            assert!(set.add(v * 3 + round % 3));
        }
        for v in 0..16u32 {
            assert!(set.contains(&(v * 3 + round % 3)));
            assert!(!set.contains(&(v * 3 + (round + 1) % 3)));
        }
        // From the head, from the middle and from the end in turn.
        for v in (0..16u32).rev() {
            let pick = if round % 2 == 0 { v } else { 15 - v };
            assert!(set.remove(&(pick * 3 + round % 3)));
            assert!(!set.remove(&(pick * 3 + round % 3)));
        }
        assert!(!set.contains(&(round % 3)));
    }
}

/// Threads add and remove values of one small range at once. Afterwards the
/// set holds just the values whose last call was an addition.
#[test]
fn fine_grained_set_shared_range() {
    let set = FineGrainedSet::<usize>::default();
    let set = &set;
    crossbeam::thread::scope(|scope| {
        for t in 0..4usize {
            scope.spawn(move |_| {
                for round in 0..500usize {
                    for v in 0..8usize {
                        let value = v * 4 + t;
                        assert!(set.add(value));
                        assert!(set.contains(&value));
                        if (round + v) % 2 == 0 {
                            assert!(set.remove(&value));
                            assert!(!set.contains(&value));
                            assert!(set.add(value));
                        }
                        assert!(set.remove(&value));
                    }
                }
                for v in 0..8usize {
                    if v % 2 == 0 {
                        assert!(set.add(v * 4 + t));
                    }
                }
            });
        }
    })
    .unwrap();
    for value in 0..32usize {
        assert_eq!(set.contains(&value), (value / 4) % 2 == 0);
    }
}

/// Eight threads, each with its own ten thousand values, on the set with a
/// lock per node. Thread `t` has the values that leave the remainder `t`
/// when divided by eight.
#[test]
fn fine_grained_set_partitioned_stress() {
    let threads = 8usize;
    let per_thread = 10_000usize;
    let set = FineGrainedSet::<usize>::default();
    let set = &set;

    // The threads add from the greatest value down and wait for each other
    // after every hundred values, so that every addition is near the head.
    let in_step = std::sync::Barrier::new(threads);
    let in_step = &in_step;
    crossbeam::thread::scope(|scope| {
        for t in 0..threads {
            scope.spawn(move |_| {
                for i in (0..per_thread).rev() {
                    assert!(set.add(i * threads + t));
                    if i % 100 == 0 {
                        in_step.wait();
                    }
                }
            });
        }
    })
    .unwrap();

    // A walk to a value passes every smaller one, so each thread looks for
    // the values near the head and for every hundredth of the others.
    crossbeam::thread::scope(|scope| {
        for t in 0..threads {
            scope.spawn(move |_| {
                for i in 0..per_thread {
                    if i < 200 || i % 100 == 0 {
                        assert!(set.contains(&(i * threads + t)));
                        assert!(!set.add(i * threads + t));
                    }
                }
                assert!(!set.contains(&(per_thread * threads + t)));
            });
        }
    })
    .unwrap();

    // The threads remove from the least value up, in step again, so that
    // every removal is near the head. Each removal finds its value: none was
    // lost on the way in.
    crossbeam::thread::scope(|scope| {
        for t in 0..threads {
            scope.spawn(move |_| {
                for i in 0..per_thread {
                    assert!(set.remove(&(i * threads + t)));
                    if i % 100 == 0 {
                        in_step.wait();
                    }
                }
            });
        }
    })
    .unwrap();

    for v in 0..threads * per_thread {
        assert!(!set.contains(&v));
        assert!(!set.remove(&v));
    }
    assert!(set.add(7));
    assert!(set.contains(&7));
}

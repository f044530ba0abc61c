use rsds::list_set::fine_grained_set::{
    absorb_step, add_step, contains_step, follower_of, remove_head_step, unlink_step, AddStep,
    HeadStep, LockedNode, Step,
};
use rsds::list_set::inner::ListInner;
use rsds::list_set::node::Node;
use rsds::list_set::sorted::SortedChain;
use rsds::list_set::{CoarseSet, ConcurrentSet, FineGrainedSet, List, OrderedList};

fn values<T: Copy>(list: &ListInner<T>) -> Vec<T> {
    list.to_vec()
}

#[test]
fn node_holds_value_and_link() {
    let mut tail = Node::new_tail(7u32);
    assert_eq!(*tail.get(), 7);
    assert_eq!(tail.next(), None);
    let mid = Node::new_intermediate(3u32, 9);
    assert_eq!(*mid.get(), 3);
    assert_eq!(mid.next(), Some(9));
    tail.set_next(Some(4));
    assert_eq!(*tail.get(), 7);
    assert_eq!(tail.next(), Some(4));
}

#[test]
fn chain_grows_at_both_ends() {
    let mut list = ListInner::new();
    assert!(list.is_empty());
    list.push_back(2);
    list.push_back(3);
    list.insert_front(1);
    list.add(4);
    assert_eq!(list.len(), 4);
    assert!(!list.is_empty());
    assert_eq!(values(&list), vec![1, 2, 3, 4]);
    list.remove_front();
    assert_eq!(values(&list), vec![2, 3, 4]);
    list.push_back(5);
    assert_eq!(values(&list), vec![2, 3, 4, 5]);
    assert_eq!(list.len(), 4);
    let mut it = list.iter();
    assert_eq!(it.next(), Some(&2));
    assert_eq!(it.next(), Some(&3));
    assert_eq!(it.next(), Some(&4));
    assert_eq!(it.next(), Some(&5));
    assert_eq!(it.next(), None);
    assert_eq!(it.next(), None);
}

#[test]
fn chain_finds_values() {
    let mut list = ListInner::new();
    for v in [5, 1, 4] {
        list.add(v);
    }
    assert!(list.find(&5));
    assert!(list.find(&4));
    assert!(!list.find(&2));
}

#[test]
fn ordered_insert_goes_behind_equals_and_in_front_of_greater() {
    let mut list = ListInner::new();
    for v in [5, 3, 9, 3, 1, 9, 4] {
        list.add_ordered(v);
    }
    assert_eq!(values(&list), vec![1, 3, 3, 4, 5, 9, 9]);
    assert!(list.find_ordered(&4));
    assert!(list.find_ordered(&1));
    assert!(list.find_ordered(&9));
    assert!(!list.find_ordered(&0));
    assert!(!list.find_ordered(&6));
    assert!(!list.find_ordered(&10));
}

#[test]
fn unique_insert_and_remove_reuse_slots() {
    let mut list = ListInner::new();
    assert!(!list.remove_ordered(&1));
    assert!(list.add_unique(4));
    assert!(list.add_unique(2));
    assert!(list.add_unique(6));
    assert!(!list.add_unique(4));
    assert!(!list.add_unique(2));
    assert!(!list.add_unique(6));
    assert_eq!(values(&list), vec![2, 4, 6]);
    assert!(list.remove_ordered(&4));
    assert!(!list.remove_ordered(&4));
    assert!(!list.remove_ordered(&3));
    assert!(!list.remove_ordered(&7));
    assert_eq!(values(&list), vec![2, 6]);
    assert!(list.add_unique(5));
    assert!(list.add_unique(1));
    assert!(list.add_unique(7));
    assert_eq!(values(&list), vec![1, 2, 5, 6, 7]);
    assert!(list.remove_ordered(&7));
    list.push_back(8);
    assert_eq!(values(&list), vec![1, 2, 5, 6, 8]);
    assert!(list.remove_ordered(&1));
    assert!(list.remove_ordered(&2));
    assert!(list.remove_ordered(&5));
    assert!(list.remove_ordered(&6));
    assert!(list.remove_ordered(&8));
    assert!(list.is_empty());
    list.push_back(3);
    assert_eq!(values(&list), vec![3]);
}

#[test]
fn linked_list_search_existing() {
    for elem in [0usize, 1, 17, usize::MAX] {
        let mut list = List::default();
        list.add(elem);
        assert!(list.find(&elem));
    }
}

#[test]
fn linked_list_search_nonexisting() {
    for elem in [0usize, 1, 17, usize::MAX] {
        let list = List::default();
        assert!(!list.find(&elem));
    }
}

#[test]
fn ordered_list_sorts_whatever_the_order_of_arrival() {
    let mut list = OrderedList::<i32>::default();
    assert!(list.is_empty());
    for v in [5, -3, 5, 0, 12, -3] {
        list.add(v);
    }
    assert_eq!(list.len(), 6);
    assert!(!list.is_empty());
    let mut seen = Vec::new();
    let mut it = list.iter();
    while let Some(v) = it.next() {
        seen.push(*v);
    }
    assert_eq!(seen, vec![-3, -3, 0, 5, 5, 12]);
    assert!(list.find(&0));
    assert!(!list.find(&1));
}

#[test]
fn sorted_chain_is_a_set() {
    let mut set = SortedChain::new();
    assert_eq!(set.len(), 0);
    for v in [8u8, 3, 5, 3, 8, 1] {
        set.add(v);
    }
    assert_eq!(set.to_vec(), vec![1, 3, 5, 8]);
    assert_eq!(set.len(), 4);
    assert!(set.contains(&5));
    assert!(!set.contains(&4));
    assert!(set.remove(&5));
    assert!(!set.remove(&5));
    assert!(!set.contains(&5));
    let mut it = set.iter();
    assert_eq!(it.next(), Some(&1));
    assert_eq!(it.next(), Some(&3));
    assert_eq!(it.next(), Some(&8));
    assert_eq!(it.next(), None);
}

fn round_trip<S: ConcurrentSet<Elem = u32> + Default>() {
    let set = S::default();
    assert!(!set.remove(&7));
    assert!(set.add(7));
    assert!(!set.add(7));
    assert!(set.contains(&7));
    assert!(set.remove(&7));
    assert!(!set.contains(&7));
    assert!(!set.remove(&7));
    assert!(set.add(7));
    assert!(set.add(2));
    assert!(set.add(9));
    assert!(set.remove(&7));
    assert!(set.remove(&9));
    assert!(set.remove(&2));
    assert!(!set.contains(&2));
    assert!(!set.contains(&7));
    assert!(!set.contains(&9));
}

#[test]
fn add_remove_round_trip_and_rejections() {
    round_trip::<CoarseSet<u32>>();
    round_trip::<FineGrainedSet<u32>>();
}

#[test]
fn coarse_set_stays_ascending_under_threads() {
    let set = CoarseSet::<u32>::default();
    let set = &set;
    crossbeam::thread::scope(|scope| {
        for t in 0..8u32 {
            scope.spawn(move |_| {
                for i in 0..500u32 {
                    set.add((i * 7 + t * 13) % 1000);
                }
            });
        }
    })
    .unwrap();
    let seen = set.to_vec();
    assert!(!seen.is_empty());
    assert!(seen.windows(2).all(|w| w[0] < w[1]));
    for v in &seen {
        assert!(set.contains(v));
    }
}

#[test]
fn locked_node_parts() {
    let node = LockedNode::<u8>::new_tail(4);
    assert_eq!(*node.elem(), 4);
    assert!(!node.has_next());
    assert!(node.next().is_none());
    let (elem, next) = node.into_parts();
    assert_eq!(elem, 4);
    assert!(next.is_none());
    let node = LockedNode::<u8>::from_parts((6, None));
    assert_eq!(node.into_elem(), 6);
}

#[test]
fn steps_at_a_node() {
    let mut slot: Option<LockedNode<u8>> = None;
    let mut spare: Option<LockedNode<u8>> = None;
    assert!(matches!(contains_step(&slot, &3), Step::Done(false)));
    assert!(matches!(remove_head_step(&mut slot, &3), HeadStep::Absent));
    assert!(follower_of(&slot).is_none());

    assert!(matches!(add_step(&mut slot, &mut spare, 7, 5), AddStep::Done(true)));
    assert_eq!(*slot.as_ref().unwrap().elem(), 5);
    assert!(spare.is_none());
    assert!(matches!(contains_step(&slot, &5), Step::Done(true)));
    assert!(matches!(contains_step(&slot, &4), Step::Done(false)));
    assert!(matches!(contains_step(&slot, &6), Step::Done(false)));
    assert!(matches!(add_step(&mut slot, &mut spare, 7, 5), AddStep::Done(false)));
    assert!(spare.is_none());
    assert!(follower_of(&slot).is_none());

    // A smaller value takes the node and pushes the old content into the
    // spare node, which the node now points to.
    assert!(matches!(add_step(&mut slot, &mut spare, 7, 2), AddStep::Linked));
    assert_eq!(*slot.as_ref().unwrap().elem(), 2);
    assert_eq!(slot.as_ref().unwrap().next(), Some(7));
    assert_eq!(*spare.as_ref().unwrap().elem(), 5);
    assert_eq!(spare.as_ref().unwrap().next(), None);
    assert_eq!(follower_of(&slot), Some(7));
    assert!(matches!(contains_step(&slot, &5), Step::Onward(7)));
    let mut other: Option<LockedNode<u8>> = None;
    assert!(matches!(add_step(&mut slot, &mut other, 8, 9), AddStep::Onward(7, 9)));
    assert!(other.is_none());
    assert_eq!(*slot.as_ref().unwrap().elem(), 2);
    assert!(matches!(remove_head_step(&mut slot, &1), HeadStep::Absent));
    assert!(matches!(remove_head_step(&mut slot, &5), HeadStep::Onward));
    assert!(matches!(remove_head_step(&mut slot, &2), HeadStep::Absorb(7)));
    assert!(slot.is_some());

    // A greater value behind a last node goes into the spare node, the new
    // last one.
    let mut last = Some(LockedNode::<u8>::new_tail(1));
    let mut spare: Option<LockedNode<u8>> = None;
    assert!(matches!(add_step(&mut last, &mut spare, 4, 3), AddStep::Linked));
    assert_eq!(*last.as_ref().unwrap().elem(), 1);
    assert_eq!(last.as_ref().unwrap().next(), Some(4));
    assert_eq!(*spare.as_ref().unwrap().elem(), 3);
    assert_eq!(spare.as_ref().unwrap().next(), None);

    let mut only = Some(LockedNode::<u8>::new_tail(1));
    assert!(matches!(remove_head_step(&mut only, &1), HeadStep::Cleared));
    assert!(only.is_none());
}

#[test]
fn head_takes_over_its_follower() {
    let mut head = Some(LockedNode::<u8>::new_intermediate(2, 7));
    let mut follower = Some(LockedNode::<u8>::new_intermediate(5, 3));
    assert!(matches!(remove_head_step(&mut head, &2), HeadStep::Absorb(7)));
    absorb_step(&mut head, &mut follower);
    assert!(follower.is_none());
    assert_eq!(*head.as_ref().unwrap().elem(), 5);
    assert_eq!(head.as_ref().unwrap().next(), Some(3));

    // A follower that ends the chain leaves the head as the only node.
    let mut follower = Some(LockedNode::<u8>::new_tail(9));
    absorb_step(&mut head, &mut follower);
    assert!(follower.is_none());
    assert_eq!(*head.as_ref().unwrap().elem(), 9);
    assert_eq!(head.as_ref().unwrap().next(), None);
}

#[test]
fn unlinking_behind_a_node() {
    let mut node = Some(LockedNode::<u8>::new_intermediate(2, 7));
    let mut follower = Some(LockedNode::<u8>::new_intermediate(5, 3));
    assert!(matches!(unlink_step(&mut node, &mut follower, 7, &4), Step::Done(false)));
    assert!(matches!(unlink_step(&mut node, &mut follower, 7, &6), Step::Onward(7)));
    assert_eq!(*follower.as_ref().unwrap().elem(), 5);
    assert_eq!(node.as_ref().unwrap().next(), Some(7));
    assert!(matches!(unlink_step(&mut node, &mut follower, 7, &5), Step::Done(true)));
    assert!(follower.is_none());
    assert_eq!(*node.as_ref().unwrap().elem(), 2);
    assert_eq!(node.as_ref().unwrap().next(), Some(3));
    assert!(matches!(unlink_step(&mut node, &mut follower, 3, &5), Step::Done(false)));
    assert_eq!(node.as_ref().unwrap().next(), Some(3));
}

#[test]
fn sets_of_strings() {
    let coarse = CoarseSet::<String>::default();
    let fine = FineGrainedSet::<String>::default();
    for word in ["pear", "apple", "quince", "fig"] {
        assert!(coarse.add(word.to_string()));
        assert!(fine.add(word.to_string()));
    }
    assert!(!coarse.add("fig".to_string()));
    assert!(!fine.add("fig".to_string()));
    assert!(coarse.contains(&"apple".to_string()));
    assert!(fine.contains(&"quince".to_string()));
    assert!(!fine.contains(&"plum".to_string()));
    assert!(coarse.remove(&"pear".to_string()));
    assert!(fine.remove(&"apple".to_string()));
    assert!(!coarse.contains(&"pear".to_string()));
    assert!(!fine.contains(&"apple".to_string()));
    assert!(fine.contains(&"fig".to_string()));
}

//! A set with one lock per node, walked hand over hand.
//!
//! The nodes stand in an array and name their followers by index. The node at
//! index 0 is the head: it is empty just when the set is. A thread that walks
//! the chain holds the lock of the node it stands on. To move on it first
//! takes the lock of the follower and only then lets go of its own, so nobody
//! can unlink the follower in between.
//!
//! The verifier sees one node at a time: what a lock guards is known only
//! while the lock is held. The steps below are therefore stated node by node,
//! over the content of the locked nodes, and the walks string them together
//! in loops. A walk returns, as a ghost value, what it saw in the nodes and
//! what it put back; the laws that hold these against a chain stand beside
//! the walk model.

use vstd::prelude::*;
use std::sync::Mutex;
use std::sync::MutexGuard;
use std::sync::RwLock;
use crate::list_set::ConcurrentSet;
use crate::list_set::walk_model::{add_case, look_case, unlink_case, AddCase, LookCase};
use crate::list_set::walk_trace::{
    kept,
    look_at,
    onward_until_last,
    planted,
    searched,
    taken,
    unlink_at,
    unlinked,
    AddTrace,
    RemoveTrace,
};
use crate::order::strict_total_order;
use crate::sync::{
    mutex_guard_mut,
    mutex_guard_ref,
    mutex_lock,
    mutex_new,
    mutex_unlock,
    read_guard_ref,
    read_unlock,
    rwlock_new,
    rwlock_read,
    rwlock_write,
    write_guard_mut,
    write_unlock,
};

verus! {

/// The most steps a walk takes. Nodes that other threads link in ahead of a
/// walk make it longer, so the array's length is no bound; a walk that ran
/// this long would take longer than any machine runs.
pub const WALK_BUDGET: usize = usize::MAX;

/// The content of a node while its lock is held: a value and the index of the
/// node that follows.
pub struct LockedNode<T> {
    pub elem: T,
    pub next: Option<usize>,
}

impl<T> LockedNode<T> {
    /// The content of a node that ends the chain.
    pub fn new_tail(elem: T) -> (node: Self)
        ensures
            node == (LockedNode { elem, next: None }),
    {
        LockedNode { elem, next: None }
    }

    /// The content of a node that is followed by the node at `rest`.
    pub fn new_intermediate(elem: T, rest: usize) -> (node: Self)
        ensures
            node == (LockedNode { elem, next: Some(rest) }),
    {
        LockedNode { elem, next: Some(rest) }
    }

    /// The content made of a value and an optional follower.
    pub fn from_parts(parts: (T, Option<usize>)) -> (node: Self)
        ensures
            node == (LockedNode { elem: parts.0, next: parts.1 }),
    {
        let (elem, next) = parts;
        LockedNode { elem, next }
    }

    /// The value of the node.
    pub fn elem(&self) -> (elem: &T)
        ensures
            *elem == self.elem,
    {
        &self.elem
    }

    /// Whether a node follows.
    pub fn has_next(&self) -> (has: bool)
        ensures
            has == self.next is Some,
    {
        self.next.is_some()
    }

    /// The index of the node that follows, if there is one.
    pub fn next(&self) -> (next: Option<usize>)
        ensures
            next == self.next,
    {
        self.next
    }

    /// The value and the follower.
    pub fn into_parts(self) -> (parts: (T, Option<usize>))
        ensures
            parts.0 == self.elem,
            parts.1 == self.next,
    {
        (self.elem, self.next)
    }

    /// The value alone.
    pub fn into_elem(self) -> (elem: T)
        ensures
            elem == self.elem,
    {
        self.elem
    }
}

/// A node of the chain: a lock around the content. The content is `None` in
/// a head that holds nothing and in a node that is not in the chain.
#[verifier::reject_recursive_types(T)]
pub struct Node<T> {
    slot: Mutex<Option<LockedNode<T>>>,
}

impl<T> Node<T> {
    /// A node that holds nothing.
    pub(crate) fn new_head() -> Self {
        Node { slot: mutex_new(None) }
    }

    /// Waits until the node's lock is held. What the node holds is known only
    /// to the program as it runs.
    pub(crate) fn locked(&self) -> LockedNodeRef<'_, T> {
        LockedNodeRef { guard: mutex_lock(&self.slot) }
    }
}

/// A node whose lock is held. Dropping it releases the lock.
#[verifier::reject_recursive_types(T)]
pub(crate) struct LockedNodeRef<'a, T> {
    guard: MutexGuard<'a, Option<LockedNode<T>>>,
}

impl<'a, T> LockedNodeRef<'a, T> {
    /// The content of the node.
    pub(crate) fn content(&self) -> &Option<LockedNode<T>> {
        mutex_guard_ref(&self.guard)
    }

    /// The content of the node, to read and to change.
    pub(crate) fn content_mut(&mut self) -> &mut Option<LockedNode<T>> {
        mutex_guard_mut(&mut self.guard)
    }

    /// Takes the content out of the node and leaves it empty.
    pub(crate) fn take(&mut self) -> Option<LockedNode<T>> {
        self.content_mut().take()
    }

    /// Puts `content` into the node in place of what it holds.
    pub(crate) fn put(&mut self, content: Option<LockedNode<T>>) {
        let slot = self.content_mut();
        *slot = content;
    }

    /// Releases the lock of the node.
    pub(crate) fn release(self) {
        mutex_unlock(self.guard)
    }
}

/// The value that a node holds, if it holds one.
pub open spec fn value_in<T>(slot: Option<LockedNode<T>>) -> Option<T> {
    match slot {
        None => None,
        Some(node) => Some(node.elem),
    }
}

/// Whether a node is followed by another.
pub open spec fn has_follower<T>(slot: Option<LockedNode<T>>) -> bool {
    slot matches Some(node) && node.next is Some
}

/// How a walk goes on after it has looked at a node.
pub enum Step {
    /// The walk is over and the call returns this.
    Done(bool),
    /// The walk moves on to the node at this index.
    Onward(usize),
}

/// One step of `contains` at a locked node: the value is found here, cannot
/// come any more because the node's value sorts after it or the chain ends,
/// or may come later. The walk moves on only to the node's own follower;
/// which of the three it is holds where the order of `T` is strict and total.
pub fn contains_step<T: PartialOrd>(slot: &Option<LockedNode<T>>, elem: &T) -> (step: Step)
    ensures
        step matches Step::Onward(next) ==> slot matches Some(node) && node.next == Some(next),
        strict_total_order::<T>() ==> match look_case(
            value_in(*slot),
            has_follower(*slot),
            *elem,
        ) {
            LookCase::Found => step == Step::Done(true),
            LookCase::Absent => step == Step::Done(false),
            LookCase::Onward => step == Step::Onward(slot.unwrap().next.unwrap()),
        },
{
    match slot {
        None => Step::Done(false),
        Some(node) => {
            if node.elem == *elem {
                Step::Done(true)
            } else if *elem < node.elem {
                Step::Done(false)
            } else {
                match node.next() {
                    None => Step::Done(false),
                    Some(next) => Step::Onward(next),
                }
            }
        },
    }
}

/// How the walk of `add` goes on after it has looked at a node.
pub enum AddStep<T> {
    /// The walk is over without the spare node, and the call returns this.
    Done(bool),
    /// The value is in the set and the spare node is in the chain.
    Linked,
    /// The walk moves on to the node at this index and takes the value along.
    Onward(usize, T),
}

/// What becomes of the node and of the spare node where the spare node is
/// linked in behind the node: either the node takes `elem` and the spare
/// node takes over what the node held, or the node was the last and the
/// spare node holds `elem` as the new last.
pub open spec fn linked_in<T>(
    before: Option<LockedNode<T>>,
    after: Option<LockedNode<T>>,
    spare: Option<LockedNode<T>>,
    at: usize,
    elem: T,
) -> bool {
    before matches Some(node) && ({
        ||| after == Some(LockedNode { elem, next: Some(at) }) && spare == before
        ||| node.next is None && after == Some(LockedNode { elem: node.elem, next: Some(at) })
            && spare == Some(LockedNode { elem, next: None })
    })
}

/// One step of `add` at a locked node, with the spare node at index `at`
/// locked beside it.
///
/// An empty node takes the value. A node with the same value ends the walk.
/// A node whose value sorts after `elem` takes `elem` and points to the
/// spare node, which takes over what the node held. A last node whose value
/// sorts before `elem` points to the spare node, which takes `elem`.
/// Otherwise the walk moves on and gets `elem` back. Which of these happens
/// holds where the order of `T` is strict and total; what each of them does
/// to the two nodes holds of every `T`.
pub fn add_step<T: PartialOrd>(
    slot: &mut Option<LockedNode<T>>,
    spare: &mut Option<LockedNode<T>>,
    at: usize,
    elem: T,
) -> (step: AddStep<T>)
    ensures
        match step {
            AddStep::Done(fresh) => {
                &&& *final(spare) == *old(spare)
                &&& fresh == (*old(slot) is None)
                &&& *final(slot) == if fresh {
                    Some(LockedNode { elem, next: None })
                } else {
                    *old(slot)
                }
            },
            AddStep::Linked => linked_in(*old(slot), *final(slot), *final(spare), at, elem),
            AddStep::Onward(next, back) => {
                &&& back == elem
                &&& *final(slot) == *old(slot)
                &&& *final(spare) == *old(spare)
                &&& *old(slot) matches Some(node) && node.next == Some(next)
            },
        },
        strict_total_order::<T>() ==> match add_case(
            value_in(*old(slot)),
            has_follower(*old(slot)),
            elem,
        ) {
            AddCase::Install => step == AddStep::<T>::Done(true),
            AddCase::Duplicate => step == AddStep::<T>::Done(false),
            AddCase::Before => {
                &&& step == AddStep::<T>::Linked
                &&& *final(slot) == Some(LockedNode { elem, next: Some(at) })
                &&& *final(spare) == *old(slot)
            },
            AddCase::Append => {
                &&& step == AddStep::<T>::Linked
                &&& *final(slot) == Some(
                    LockedNode { elem: old(slot).unwrap().elem, next: Some(at) },
                )
                &&& *final(spare) == Some(LockedNode { elem, next: None })
            },
            AddCase::Onward => step == AddStep::Onward(old(slot).unwrap().next.unwrap(), elem),
        },
{
    match slot.take() {
        None => {
            *slot = Some(LockedNode::new_tail(elem));
            AddStep::Done(true)
        },
        Some(node) => {
            if node.elem == elem {
                *slot = Some(node);
                AddStep::Done(false)
            } else if elem < node.elem {
                *spare = Some(node);
                *slot = Some(LockedNode::new_intermediate(elem, at));
                AddStep::Linked
            } else {
                match node.next() {
                    None => {
                        *spare = Some(LockedNode::new_tail(elem));
                        *slot = Some(LockedNode::new_intermediate(node.into_elem(), at));
                        AddStep::Linked
                    },
                    Some(next) => {
                        *slot = Some(node);
                        AddStep::Onward(next, elem)
                    },
                }
            }
        },
    }
}

/// What `remove` finds at the head.
pub enum HeadStep {
    /// The head does not hold the value and no later node can.
    Absent,
    /// The head held the value and was the only node. It is empty now.
    Cleared,
    /// The head holds the value and the node at this index follows. The head
    /// is to take over what the follower holds.
    Absorb(usize),
    /// The head's value sorts before the value. The walk goes on behind it.
    Onward,
}

/// The step of `remove` at the locked head. Only a head without a follower
/// is changed, and it is emptied; which step it is holds where the order of
/// `T` is strict and total.
pub fn remove_head_step<T: PartialOrd>(slot: &mut Option<LockedNode<T>>, elem: &T) -> (step:
    HeadStep)
    ensures
        match step {
            HeadStep::Cleared => *old(slot) matches Some(node) && node.next is None && *final(slot)
                is None,
            HeadStep::Absorb(next) => *old(slot) matches Some(node) && node.next == Some(next)
                && *final(slot) == *old(slot),
            HeadStep::Absent => *final(slot) == *old(slot),
            HeadStep::Onward => *old(slot) is Some && *final(slot) == *old(slot),
        },
        strict_total_order::<T>() ==> match look_case(value_in(*old(slot)), true, *elem) {
            LookCase::Found => match old(slot).unwrap().next {
                None => step == HeadStep::Cleared,
                Some(next) => step == HeadStep::Absorb(next),
            },
            LookCase::Absent => step == HeadStep::Absent,
            LookCase::Onward => step == HeadStep::Onward,
        },
{
    let verdict = match &*slot {
        None => HeadStep::Absent,
        Some(node) => {
            if node.elem == *elem {
                match node.next() {
                    None => HeadStep::Cleared,
                    Some(next) => HeadStep::Absorb(next),
                }
            } else if *elem < node.elem {
                HeadStep::Absent
            } else {
                HeadStep::Onward
            }
        },
    };
    match verdict {
        HeadStep::Cleared => {
            *slot = None;
            HeadStep::Cleared
        },
        other => other,
    }
}

/// The head takes over what its follower holds, value and link, and the
/// follower is left empty: the head's old value is gone from the chain.
pub fn absorb_step<T>(head: &mut Option<LockedNode<T>>, follower: &mut Option<LockedNode<T>>)
    ensures
        *final(head) == *old(follower),
        *final(follower) is None,
{
    *head = follower.take();
}

/// One step of `remove` behind the head, with a node and its follower, the
/// node at index `next`, both locked. If the follower holds the value it is
/// emptied and the node is linked to what came behind the follower. If the
/// follower's value sorts after the value, the value is not in the set.
/// Otherwise the walk moves on to the follower. Which of these happens holds
/// where the order of `T` is strict and total; what each of them does to the
/// two nodes holds of every `T`.
pub fn unlink_step<T: PartialOrd>(
    slot: &mut Option<LockedNode<T>>,
    follower: &mut Option<LockedNode<T>>,
    next: usize,
    elem: &T,
) -> (step: Step)
    ensures
        match step {
            Step::Done(true) => {
                &&& *old(slot) is Some
                &&& *old(follower) is Some
                &&& *final(follower) is None
                &&& *final(slot) == Some(
                    LockedNode {
                        elem: old(slot).unwrap().elem,
                        next: old(follower).unwrap().next,
                    },
                )
            },
            Step::Done(false) => *final(slot) == *old(slot) && *final(follower) == *old(follower),
            Step::Onward(to) => to == next && *old(slot) is Some && *old(follower) is Some
                && *final(slot) == *old(slot) && *final(follower) == *old(follower),
        },
        strict_total_order::<T>() ==> match *old(slot) {
            None => step == Step::Done(false),
            Some(node) => match unlink_case(value_in(*old(follower)), *elem) {
                LookCase::Found => step == Step::Done(true),
                LookCase::Absent => step == Step::Done(false),
                LookCase::Onward => step == Step::Onward(next),
            },
        },
{
    let node = match slot.take() {
        None => {
            return Step::Done(false);
        },
        Some(node) => node,
    };
    let after = match follower.take() {
        None => {
            *slot = Some(node);
            return Step::Done(false);
        },
        Some(after) => after,
    };
    if after.elem == *elem {
        let (_, rest) = after.into_parts();
        *slot = Some(LockedNode::from_parts((node.into_elem(), rest)));
        Step::Done(true)
    } else if *elem < after.elem {
        *slot = Some(node);
        *follower = Some(after);
        Step::Done(false)
    } else {
        *slot = Some(node);
        *follower = Some(after);
        Step::Onward(next)
    }
}

/// The index of the follower of a locked node.
pub fn follower_of<T>(slot: &Option<LockedNode<T>>) -> (next: Option<usize>)
    ensures
        next == match *slot {
            None => None,
            Some(node) => node.next,
        },
{
    match slot {
        None => None,
        Some(node) => node.next(),
    }
}

/// The nodes of a set. The node at index 0 is the head; the others are in the
/// chain or vacant. The array only grows.
#[verifier::reject_recursive_types(T)]
pub(crate) struct Arena<T> {
    nodes: Vec<Node<T>>,
}

impl<T> Arena<T> {
    #[verifier::type_invariant]
    spec fn inv(self) -> bool {
        self.nodes@.len() > 0
    }

    /// The number of nodes.
    pub(crate) closed spec fn spec_len(self) -> nat {
        self.nodes@.len()
    }

    /// An array that holds an empty head and nothing else.
    pub(crate) fn new() -> (arena: Self)
        ensures
            arena.spec_len() == 1,
    {
        let mut nodes: Vec<Node<T>> = Vec::new();
        nodes.push(Node::new_head());
        Arena { nodes }
    }

    /// The number of nodes.
    pub(crate) fn len(&self) -> (n: usize)
        ensures
            n == self.spec_len(),
            n > 0,
    {
        proof {
            use_type_invariant(self);
        }
        self.nodes.len()
    }

    /// The head.
    pub(crate) fn head(&self) -> &Node<T> {
        proof {
            use_type_invariant(self);
        }
        &self.nodes[0]
    }

    /// The array has a node at index `i` behind the head.
    pub(crate) open spec fn has(self, i: usize) -> bool {
        0 < i < self.spec_len()
    }

    /// The link of a node with this content leads to a node of the array.
    pub(crate) open spec fn leads(self, content: Option<LockedNode<T>>) -> bool {
        content matches Some(node) && node.next matches Some(i) && self.has(i)
    }

    /// The node at index `i` behind the head, if the array has one there.
    pub(crate) fn node(&self, i: usize) -> (node: Option<&Node<T>>)
        ensures
            node is Some <==> self.has(i),
    {
        if 0 < i && i < self.nodes.len() {
            Some(&self.nodes[i])
        } else {
            None
        }
    }

    /// Doubles the array with empty nodes and returns their indices, the
    /// lowest first.
    pub(crate) fn grow(&mut self) -> (fresh: Vec<usize>)
        ensures
            final(self).spec_len() == 2 * old(self).spec_len(),
            fresh@.len() == old(self).spec_len(),
            fresh@.len() > 0,
            forall|j: int| 0 <= j < fresh@.len() ==> fresh@[j] == old(self).spec_len() + j,
    {
        proof {
            use_type_invariant(&*self);
        }
        let mut nodes: Vec<Node<T>> = Vec::new();
        nodes.push(Node::new_head());
        std::mem::swap(&mut self.nodes, &mut nodes);
        let start = nodes.len();
        let mut fresh: Vec<usize> = Vec::new();
        let mut made: usize = 0;
        while made < start
            invariant
                made <= start,
                nodes@.len() == start + made,
                fresh@.len() == made,
                forall|j: int| 0 <= j < fresh@.len() ==> fresh@[j] == start + j,
            decreases start - made,
        {
            fresh.push(nodes.len());
            nodes.push(Node::new_head());
            made = made + 1;
        }
        self.nodes = nodes;
        fresh
    }
}

/// The walk of `contains` along the chain, from the head on. Returns the
/// answer and what the walk saw: the contents of the nodes it locked, head
/// first. Where the order of `T` is strict and total, the walk went onward at
/// every node but the last; it stopped at a node that sent it onward only
/// where the budget was used up or the node's link leads out of the array.
pub(crate) fn contains_walk<T: PartialOrd>(arena: &Arena<T>, elem: &T, budget: usize) -> (out: (
    bool,
    Ghost<Seq<Option<LockedNode<T>>>>,
))
    ensures
        0 < out.1@.len() <= budget + 1,
        strict_total_order::<T>() ==> searched(out.1@, *elem, out.0),
        strict_total_order::<T>() && look_at(out.1@.last(), *elem) == LookCase::Onward
            ==> out.1@.len() == budget + 1 || !arena.leads(out.1@.last()),
{
    let mut at = arena.head().locked();
    let mut left = budget;
    let ghost mut passed: Seq<Option<LockedNode<T>>> = Seq::empty();
    loop
        invariant
            passed.len() + left == budget,
            strict_total_order::<T>() ==> forall|i: int|
                0 <= i < passed.len() ==> look_at(#[trigger] passed[i], *elem) == LookCase::Onward,
        decreases left,
    {
        let content = at.content();
        let ghost seen = passed.push(*content);
        match contains_step(content, elem) {
            Step::Done(found) => {
                return (found, Ghost(seen));
            },
            Step::Onward(next) => {
                if left == 0 {
                    return (false, Ghost(seen));
                }
                match arena.node(next) {
                    None => {
                        return (false, Ghost(seen));
                    },
                    Some(node) => {
                        let follower = node.locked();
                        at.release();
                        at = follower;
                        left = left - 1;
                        proof {
                            passed = seen;
                        }
                    },
                }
            },
        }
    }
}

/// The walk of `add` along the chain, from the head on, with the vacant node
/// at index `spare` to link in. A node's content is taken out while the walk
/// looks at it and put back, as the step left it, before the walk moves on.
///
/// Returns whether `elem` was added, whether the spare node is in the chain
/// now, and what the walk saw and did. It put back what it found into every
/// node but the last. Where the order of `T` is strict and total, the walk
/// went onward at every node but the last and did there what `add` does at
/// such a node; it stopped at a node that sent it onward only where the
/// budget was used up or the node's link leads out of the array.
pub(crate) fn add_walk<T: PartialOrd>(arena: &Arena<T>, spare: usize, elem: T, budget: usize) -> (out:
    (bool, bool, Ghost<AddTrace<T>>))
    ensures
        out.1 ==> out.0 && arena.has(spare),
        arena.has(spare) ==> 0 < out.2@.seen.len() <= budget + 1 && kept(
            out.2@.seen,
            out.2@.wrote,
            1,
        ),
        strict_total_order::<T>() && arena.has(spare) ==> {
            &&& onward_until_last(out.2@.seen, elem)
            &&& planted(
                out.2@.seen.last(),
                out.2@.wrote.last(),
                out.2@.spare_after,
                spare,
                elem,
                out.0,
                out.1,
            )
        },
        strict_total_order::<T>() && arena.has(spare) && look_at(out.2@.seen.last(), elem)
            == LookCase::Onward ==> out.2@.seen.len() == budget + 1 || !arena.leads(
            out.2@.seen.last(),
        ),
{
    let mut held = match arena.node(spare) {
        None => {
            let ghost nothing = AddTrace::<T> {
                seen: Seq::empty(),
                wrote: Seq::empty(),
                spare_after: None,
            };
            return (false, false, Ghost(nothing));
        },
        Some(node) => node.locked(),
    };
    let mut vacant = held.take();
    let mut at = arena.head().locked();
    let mut carried = elem;
    let mut left = budget;
    let ghost mut passed: Seq<Option<LockedNode<T>>> = Seq::empty();
    loop
        invariant
            carried == elem,
            arena.has(spare),
            passed.len() + left == budget,
            strict_total_order::<T>() ==> forall|i: int|
                0 <= i < passed.len() ==> look_at(#[trigger] passed[i], elem) == LookCase::Onward,
        decreases left,
    {
        let mut here = at.take();
        let ghost seen = passed.push(here);
        match add_step(&mut here, &mut vacant, spare, carried) {
            AddStep::Done(fresh) => {
                let ghost trace = AddTrace { seen, wrote: passed.push(here), spare_after: vacant };
                at.put(here);
                held.put(vacant);
                return (fresh, false, Ghost(trace));
            },
            AddStep::Linked => {
                let ghost trace = AddTrace { seen, wrote: passed.push(here), spare_after: vacant };
                at.put(here);
                held.put(vacant);
                return (true, true, Ghost(trace));
            },
            AddStep::Onward(next, back) => {
                let ghost trace = AddTrace { seen, wrote: passed.push(here), spare_after: vacant };
                at.put(here);
                if left == 0 {
                    held.put(vacant);
                    return (false, false, Ghost(trace));
                }
                match arena.node(next) {
                    None => {
                        held.put(vacant);
                        return (false, false, Ghost(trace));
                    },
                    Some(node) => {
                        let follower = node.locked();
                        at.release();
                        at = follower;
                        carried = back;
                        left = left - 1;
                        proof {
                            passed = seen;
                        }
                    },
                }
            },
        }
    }
}

/// The walk of `remove` along the chain, from the head on. A node's content
/// is taken out while the walk looks at it and put back, as the step left it,
/// before the walk lets go of the node.
///
/// Returns whether `elem` was removed, the index of the node that left the
/// chain, if one did, and what the walk saw and did. What it did to the
/// nodes holds of every `T`. Where the order of `T` is strict and total, the
/// walk went onward at every node but the last and found the value there or
/// not; it stopped at a node that sent it onward only where the chain ends
/// there, the budget was used up or the node's link leads out of the array.
pub(crate) fn remove_walk<T: PartialOrd>(arena: &Arena<T>, elem: &T, budget: usize) -> (out: (
    bool,
    Option<usize>,
    Ghost<RemoveTrace<T>>,
))
    ensures
        out.1 matches Some(index) ==> out.0 && arena.has(index),
        0 < out.2@.seen.len() <= budget + 2,
        taken(out.2@, out.0, arena.leads(out.2@.seen[0])),
        strict_total_order::<T>() ==> unlinked(out.2@.seen, *elem, out.0),
        strict_total_order::<T>() && unlink_at(out.2@.seen.last(), *elem) == LookCase::Onward
            ==> out.2@.seen.len() == budget + 2 || !arena.leads(out.2@.seen.last()),
{
    let mut at = arena.head().locked();
    let mut here = at.take();
    let ghost first = Seq::<Option<LockedNode<T>>>::empty().push(here);
    match remove_head_step(&mut here, elem) {
        HeadStep::Absent => {
            at.put(here);
            return (false, None, Ghost(RemoveTrace { seen: first, wrote: first, absorbed: None }));
        },
        HeadStep::Cleared => {
            let ghost wrote = Seq::<Option<LockedNode<T>>>::empty().push(here);
            at.put(here);
            return (true, None, Ghost(RemoveTrace { seen: first, wrote, absorbed: None }));
        },
        HeadStep::Absorb(next) => {
            match arena.node(next) {
                None => {
                    let ghost wrote = Seq::<Option<LockedNode<T>>>::empty().push(None);
                    at.put(None);
                    return (true, None, Ghost(RemoveTrace { seen: first, wrote, absorbed: None }));
                },
                Some(node) => {
                    let mut follower = node.locked();
                    let mut behind = follower.take();
                    let ghost absorbed = behind;
                    absorb_step(&mut here, &mut behind);
                    let ghost wrote = Seq::<Option<LockedNode<T>>>::empty().push(here);
                    follower.put(behind);
                    at.put(here);
                    return (true, Some(next), Ghost(RemoveTrace { seen: first, wrote, absorbed }));
                },
            }
        },
        HeadStep::Onward => {},
    }
    let mut left = budget;
    let ghost mut passed: Seq<Option<LockedNode<T>>> = Seq::empty();
    loop
        invariant
            passed.len() + left == budget,
            strict_total_order::<T>() ==> unlink_at(here, *elem) == LookCase::Onward,
            strict_total_order::<T>() ==> forall|i: int|
                0 <= i < passed.len() ==> unlink_at(#[trigger] passed[i], *elem)
                    == LookCase::Onward,
        decreases left,
    {
        let ghost seen = passed.push(here);
        let next = match follower_of(&here) {
            None => {
                at.put(here);
                return (false, None, Ghost(RemoveTrace { seen, wrote: seen, absorbed: None }));
            },
            Some(next) => next,
        };
        let mut follower = match arena.node(next) {
            None => {
                at.put(here);
                return (false, None, Ghost(RemoveTrace { seen, wrote: seen, absorbed: None }));
            },
            Some(node) => node.locked(),
        };
        let mut behind = follower.take();
        let ghost judged = seen.push(behind);
        match unlink_step(&mut here, &mut behind, next, elem) {
            Step::Done(found) => {
                let ghost wrote = passed.push(here).push(behind);
                follower.put(behind);
                at.put(here);
                if found {
                    return (
                        true,
                        Some(next),
                        Ghost(RemoveTrace { seen: judged, wrote, absorbed: None }),
                    );
                }
                return (false, None, Ghost(RemoveTrace { seen: judged, wrote, absorbed: None }));
            },
            Step::Onward(_) => {
                at.put(here);
                if left == 0 {
                    follower.put(behind);
                    return (
                        false,
                        None,
                        Ghost(RemoveTrace { seen: judged, wrote: judged, absorbed: None }),
                    );
                }
                at.release();
                at = follower;
                here = behind;
                left = left - 1;
                proof {
                    passed = seen;
                }
            },
        }
    }
}

/// A set kept as a sorted chain with a lock in every node.
///
/// A call walks from the head to the place of its value and holds the locks
/// of at most two nodes of the chain at any time, so calls at different
/// places of the chain go on side by side. The nodes stand in an array that
/// every call reads and only a call that finds no vacant node widens; a node
/// that leaves the chain is vacant and is used again.
#[verifier::reject_recursive_types(T)]
pub struct FineGrainedSet<T> {
    arena: RwLock<Arena<T>>,
    vacant: Mutex<Vec<usize>>,
}

impl<T> Default for FineGrainedSet<T> {
    fn default() -> Self {
        FineGrainedSet { arena: rwlock_new(Arena::new()), vacant: mutex_new(Vec::new()) }
    }
}

impl<T> FineGrainedSet<T> {
    /// The index of a vacant node, which is the caller's until it is linked
    /// in or given back. Widens the array when no node is vacant. Must be
    /// called with no lock of the set held.
    fn reserve(&self) -> usize {
        let mut list = mutex_lock(&self.vacant);
        let known = mutex_guard_mut(&mut list).pop();
        mutex_unlock(list);
        match known {
            Some(index) => index,
            None => {
                let mut nodes = rwlock_write(&self.arena);
                let mut fresh = write_guard_mut(&mut nodes).grow();
                write_unlock(nodes);
                let index = fresh.pop().unwrap();
                let mut list = mutex_lock(&self.vacant);
                mutex_guard_mut(&mut list).append(&mut fresh);
                mutex_unlock(list);
                index
            },
        }
    }

    /// Puts the node at `index`, which is empty and out of the chain, among
    /// the vacant ones.
    fn give_back(&self, index: usize) {
        let mut list = mutex_lock(&self.vacant);
        mutex_guard_mut(&mut list).push(index);
        mutex_unlock(list);
    }
}

impl<T: PartialOrd> ConcurrentSet for FineGrainedSet<T> {
    type Elem = T;

    fn add(&self, elem: T) -> bool {
        let spare = self.reserve();
        let nodes = rwlock_read(&self.arena);
        let (fresh, linked, _) = add_walk(read_guard_ref(&nodes), spare, elem, WALK_BUDGET);
        read_unlock(nodes);
        if !linked {
            self.give_back(spare);
        }
        fresh
    }

    fn remove(&self, elem: &T) -> bool {
        let nodes = rwlock_read(&self.arena);
        let (found, left, _) = remove_walk(read_guard_ref(&nodes), elem, WALK_BUDGET);
        read_unlock(nodes);
        match left {
            Some(index) => self.give_back(index),
            None => {},
        }
        found
    }

    fn contains(&self, elem: &T) -> bool {
        let nodes = rwlock_read(&self.arena);
        let (found, _) = contains_walk(read_guard_ref(&nodes), elem, WALK_BUDGET);
        read_unlock(nodes);
        found
    }
}

} // verus!

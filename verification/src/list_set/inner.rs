//! The chain itself: nodes in an arena, linked by slot.

use vstd::prelude::*;
use crate::list_set::node::Node;

verus! {

/// A singly linked chain of values.
///
/// The nodes sit in `slots`; `head` and `tail` name the slots of the first and
/// last node, and each node names the slot of its successor. Slots whose node
/// was removed are listed in `free` and used again before the arena grows.
/// `order` is the chain as the sequence of slots it runs through.
pub struct ListInner<T> {
    slots: Vec<Option<Node<T>>>,
    free: Vec<usize>,
    head: Option<usize>,
    tail: Option<usize>,
    len: usize,
    order: Ghost<Seq<usize>>,
}

impl<T> View for ListInner<T> {
    type V = Seq<T>;

    /// The values of the chain from head to tail.
    closed spec fn view(&self) -> Seq<T> {
        values(self.slots@, self.order@)
    }
}

/// The values that the chain `order` runs through in the arena `slots`.
spec fn values<T>(slots: Seq<Option<Node<T>>>, order: Seq<usize>) -> Seq<T> {
    Seq::new(order.len(), |i: int| slots[order[i] as int].unwrap().elem)
}

/// Position `i` of `order` names an occupied slot whose node points at the
/// slot of position `i + 1`, or at nothing when `i` is the last position.
spec fn node_ok<T>(slots: Seq<Option<Node<T>>>, order: Seq<usize>, i: int) -> bool {
    &&& order[i] < slots.len()
    &&& slots[order[i] as int] is Some
    &&& slots[order[i] as int].unwrap().next == (if i + 1 < order.len() {
        Some(order[i + 1])
    } else {
        None
    })
}

/// `order` is a chain in `slots`: it visits no slot twice and follows the links.
spec fn chain_ok<T>(slots: Seq<Option<Node<T>>>, order: Seq<usize>) -> bool {
    &&& forall|i: int| 0 <= i < order.len() ==> #[trigger] node_ok(slots, order, i)
    &&& forall|i: int, j: int| 0 <= i < j < order.len() ==> order[i] != order[j]
}

/// The vacant slots of an arena are in range, empty, and listed once.
spec fn vacant_ok<T>(slots: Seq<Option<Node<T>>>, free: Seq<usize>) -> bool {
    &&& forall|j: int| 0 <= j < free.len() ==> (#[trigger] free[j]) < slots.len() && slots[free[j] as int] is None
    &&& forall|j: int, k: int| 0 <= j < k < free.len() ==> free[j] != free[k]
}

/// Puts `node` into a vacant slot, or into a new one when none is vacant.
fn alloc_slot<T>(slots: &mut Vec<Option<Node<T>>>, free: &mut Vec<usize>, node: Node<T>) -> (p: usize)
    requires
        vacant_ok(old(slots)@, old(free)@),
    ensures
        vacant_ok(final(slots)@, final(free)@),
        p < final(slots).len(),
        final(slots)[p as int] == Some(node),
        final(slots).len() >= old(slots).len(),
        final(slots).len() - final(free).len() == old(slots).len() - old(free).len() + 1,
        p >= old(slots).len() || old(slots)[p as int] is None,
        forall|q: int| 0 <= q < old(slots).len() && q != p ==> final(slots)[q] == old(slots)[q],
{
    match free.pop() {
        Some(p) => {
            assert(p == old(free)@[old(free)@.len() - 1]);
            slots[p] = Some(node);
            assert forall|j: int| 0 <= j < free@.len() implies (#[trigger] free@[j]) < slots@.len()
                && slots@[free@[j] as int] is None by {
                assert(free@[j] == old(free)@[j]);
            }
            p
        },
        None => {
            slots.push(Some(node));
            slots.len() - 1
        },
    }
}

/// Linking a vacant slot `q` in behind position `i` of a chain (in front of the
/// chain when `i` is -1) gives the chain with `q` at position `i + 1`.
proof fn lemma_link_in<T>(
    slots: Seq<Option<Node<T>>>,
    order: Seq<usize>,
    linked: Seq<Option<Node<T>>>,
    i: int,
    q: usize,
    elem: T,
)
    requires
        chain_ok(slots, order),
        -1 <= i < order.len(),
        slots.len() <= linked.len(),
        q < linked.len(),
        q >= slots.len() || slots[q as int] is None,
        linked[q as int] == Some(
            Node { elem, next: if i + 1 < order.len() { Some(order[i + 1]) } else { None } },
        ),
        i >= 0 ==> linked[order[i] as int] == Some(
            Node { elem: slots[order[i] as int].unwrap().elem, next: Some(q) },
        ),
        forall|r: int|
            0 <= r < slots.len() && r != q && (i < 0 || r != order[i]) ==> linked[r] == slots[r],
    ensures
        chain_ok(linked, order.insert(i + 1, q)),
        values(linked, order.insert(i + 1, q)) == values(slots, order).insert(i + 1, elem),
{
    let after = order.insert(i + 1, q);
    assert forall|k: int| 0 <= k < order.len() implies order[k] != q by {
        assert(node_ok(slots, order, k));
    }
    assert forall|k: int, j: int| 0 <= k < j < after.len() implies after[k] != after[j] by {
        let a = if k <= i { k } else { k - 1 };
        let b = if j <= i { j } else { j - 1 };
        if k != i + 1 && j != i + 1 {
            assert(order[a] != order[b]);
        }
    }
    assert forall|k: int| 0 <= k < after.len() implies #[trigger] node_ok(linked, after, k) by {
        if k < i {
            assert(node_ok(slots, order, k));
            assert(order[k] != order[i]);
        } else if k == i {
            assert(node_ok(slots, order, k));
        } else if k == i + 1 {
        } else {
            assert(node_ok(slots, order, k - 1));
            if i >= 0 {
                assert(order[k - 1] != order[i]);
            }
        }
    }
    assert(values(linked, after) =~= values(slots, order).insert(i + 1, elem)) by {
        assert forall|k: int| 0 <= k < after.len() implies values(linked, after)[k] == values(
            slots,
            order,
        ).insert(i + 1, elem)[k] by {
            if k < i {
                assert(node_ok(slots, order, k));
                assert(order[k] != order[i]);
            } else if k == i {
                assert(node_ok(slots, order, k));
            } else if k == i + 1 {
            } else {
                assert(node_ok(slots, order, k - 1));
                if i >= 0 {
                    assert(order[k - 1] != order[i]);
                }
            }
        }
    }
}

/// Taking the slot at position `i + 1` out of a chain (the first slot when `i`
/// is -1) gives the chain without that position.
proof fn lemma_link_out<T>(
    slots: Seq<Option<Node<T>>>,
    order: Seq<usize>,
    unlinked: Seq<Option<Node<T>>>,
    i: int,
)
    requires
        chain_ok(slots, order),
        -1 <= i,
        i + 1 < order.len(),
        unlinked.len() == slots.len(),
        unlinked[order[i + 1] as int] is None,
        i >= 0 ==> unlinked[order[i] as int] == Some(
            Node {
                elem: slots[order[i] as int].unwrap().elem,
                next: if i + 2 < order.len() { Some(order[i + 2]) } else { None },
            },
        ),
        forall|r: int|
            0 <= r < slots.len() && r != order[i + 1] && (i < 0 || r != order[i]) ==> unlinked[r]
                == slots[r],
    ensures
        chain_ok(unlinked, order.remove(i + 1)),
        values(unlinked, order.remove(i + 1)) == values(slots, order).remove(i + 1),
{
    let after = order.remove(i + 1);
    assert forall|k: int, j: int| 0 <= k < j < after.len() implies after[k] != after[j] by {
        let a = if k <= i { k } else { k + 1 };
        let b = if j <= i { j } else { j + 1 };
        assert(order[a] != order[b]);
    }
    assert forall|k: int| 0 <= k < after.len() implies #[trigger] node_ok(unlinked, after, k) by {
        let a = if k <= i { k } else { k + 1 };
        assert(node_ok(slots, order, a));
        assert(order[a] != order[i + 1]);
        if i >= 0 && a != i {
            assert(order[a] != order[i]);
        }
    }
    assert(values(unlinked, after) =~= values(slots, order).remove(i + 1)) by {
        assert forall|k: int| 0 <= k < after.len() implies values(unlinked, after)[k] == values(
            slots,
            order,
        ).remove(i + 1)[k] by {
            let a = if k <= i { k } else { k + 1 };
            assert(node_ok(slots, order, a));
            assert(order[a] != order[i + 1]);
            if i >= 0 && a != i {
                assert(order[a] != order[i]);
            }
        }
    }
}

impl<T> Default for ListInner<T> {
    fn default() -> (list: Self)
        ensures
            list.wf(),
            list@ == Seq::<T>::empty(),
    {
        ListInner::new()
    }
}

impl<T> ListInner<T> {
    /// The arena, the links and the bookkeeping fit together.
    pub closed spec fn wf(&self) -> bool {
        let order = self.order@;
        let n = order.len();
        &&& n == self.len
        &&& n + self.free@.len() == self.slots@.len()
        &&& chain_ok(self.slots@, order)
        &&& self.head == (if n == 0 { None } else { Some(order[0]) })
        &&& self.tail == (if n == 0 { None } else { Some(order[n - 1]) })
        &&& vacant_ok(self.slots@, self.free@)
    }

    /// Slot `p` holds the node at position `i` of the chain.
    pub closed spec fn holds(&self, p: usize, i: int) -> bool {
        0 <= i < self.order@.len() && self.order@[i] == p
    }

    /// An empty chain.
    pub fn new() -> (list: Self)
        ensures
            list.wf(),
            list@ == Seq::<T>::empty(),
    {
        let list = ListInner {
            slots: Vec::new(),
            free: Vec::new(),
            head: None,
            tail: None,
            len: 0,
            order: Ghost(Seq::empty()),
        };
        assert(list@ =~= Seq::<T>::empty());
        list
    }

    /// The number of values in the chain.
    pub fn len(&self) -> (n: usize)
        requires
            self.wf(),
        ensures
            n == self@.len(),
    {
        self.len
    }

    /// Whether the chain holds no value.
    pub fn is_empty(&self) -> (empty: bool)
        requires
            self.wf(),
        ensures
            empty == (self@.len() == 0),
    {
        self.len() == 0
    }

    /// The slot of the first node.
    pub(crate) fn first(&self) -> (p: Option<usize>)
        requires
            self.wf(),
        ensures
            match p {
                Some(p) => self.holds(p, 0) && self@.len() > 0,
                None => self@.len() == 0,
            },
    {
        self.head
    }

    /// The slot of the last node.
    pub(crate) fn last(&self) -> (p: Option<usize>)
        requires
            self.wf(),
        ensures
            match p {
                Some(p) => self.holds(p, self@.len() - 1) && self@.len() > 0,
                None => self@.len() == 0,
            },
    {
        self.tail
    }

    /// The slot of the node that follows the one in slot `p`.
    pub(crate) fn next_of(&self, p: usize, Ghost(i): Ghost<int>) -> (q: Option<usize>)
        requires
            self.wf(),
            self.holds(p, i),
        ensures
            0 <= i < self@.len(),
            match q {
                Some(q) => self.holds(q, i + 1) && i + 1 < self@.len(),
                None => i + 1 == self@.len(),
            },
    {
        proof {
            assert(node_ok(self.slots@, self.order@, i));
        }
        self.slots[p].as_ref().unwrap().next()
    }

    /// The node in slot `p`: its value, and the slot of the node that follows.
    pub(crate) fn node_at(&self, p: usize, Ghost(i): Ghost<int>) -> (node: &Node<T>)
        requires
            self.wf(),
            self.holds(p, i),
        ensures
            0 <= i < self@.len(),
            node.elem == self@[i],
            match node.next {
                Some(q) => self.holds(q, i + 1) && i + 1 < self@.len(),
                None => i + 1 == self@.len(),
            },
    {
        proof {
            assert(node_ok(self.slots@, self.order@, i));
        }
        self.slots[p].as_ref().unwrap()
    }

    /// The value of the node in slot `p`.
    pub(crate) fn elem_at(&self, p: usize, Ghost(i): Ghost<int>) -> (elem: &T)
        requires
            self.wf(),
            self.holds(p, i),
        ensures
            0 <= i < self@.len(),
            *elem == self@[i],
    {
        proof {
            assert(node_ok(self.slots@, self.order@, i));
        }
        self.slots[p].as_ref().unwrap().get()
    }
    /// Puts `elem` in front of the chain.
    pub fn insert_front(&mut self, elem: T)
        requires
            old(self).wf(),
        ensures
            final(self).wf(),
            final(self)@ == old(self)@.insert(0, elem),
    {
        let q = alloc_slot(&mut self.slots, &mut self.free, Node { elem, next: self.head });
        self.head = Some(q);
        if self.tail.is_none() {
            self.tail = Some(q);
        }
        self.len = self.len + 1;
        proof {
            lemma_link_in(old(self).slots@, old(self).order@, self.slots@, -1, q, elem);
            self.order@ = old(self).order@.insert(0, q);
        }
    }

    /// Puts `elem` right behind the node in slot `p`.
    pub(crate) fn insert_after(&mut self, p: usize, Ghost(i): Ghost<int>, elem: T)
        requires
            old(self).wf(),
            old(self).holds(p, i),
        ensures
            final(self).wf(),
            final(self)@ == old(self)@.insert(i + 1, elem),
    {
        proof {
            assert(node_ok(self.slots@, self.order@, i));
        }
        let next = self.slots[p].as_ref().unwrap().next();
        let q = alloc_slot(&mut self.slots, &mut self.free, Node { elem, next });
        match &mut self.slots[p] {
            Some(node) => {
                node.set_next(Some(q));
            },
            None => {},
        }
        if next.is_none() {
            self.tail = Some(q);
        }
        self.len = self.len + 1;
        proof {
            lemma_link_in(old(self).slots@, old(self).order@, self.slots@, i, q, elem);
            self.order@ = old(self).order@.insert(i + 1, q);
        }
    }

    /// Puts `elem` behind the last node.
    pub fn push_back(&mut self, elem: T)
        requires
            old(self).wf(),
        ensures
            final(self).wf(),
            final(self)@ == old(self)@.push(elem),
    {
        match self.tail {
            Some(t) => {
                self.insert_after(t, Ghost(self@.len() - 1), elem);
                assert(old(self)@.insert(old(self)@.len() as int, elem) =~= old(self)@.push(elem));
            },
            None => {
                self.insert_front(elem);
                assert(old(self)@.insert(0, elem) =~= old(self)@.push(elem));
            },
        }
    }
    /// Takes the first node out of the chain and drops its value.
    pub fn remove_front(&mut self)
        requires
            old(self).wf(),
            old(self)@.len() > 0,
        ensures
            final(self).wf(),
            final(self)@ == old(self)@.remove(0),
    {
        proof {
            assert(node_ok(self.slots@, self.order@, 0));
        }
        let q = self.head.unwrap();
        let next = self.slots[q].as_ref().unwrap().next();
        self.slots[q] = None;
        self.free.push(q);
        self.head = next;
        if next.is_none() {
            self.tail = None;
        }
        self.len = self.len - 1;
        proof {
            lemma_link_out(old(self).slots@, old(self).order@, self.slots@, -1);
            self.order@ = old(self).order@.remove(0);
            assert forall|j: int| 0 <= j < old(self).free@.len() implies old(self).free@[j] != q by {
                assert(old(self).slots@[old(self).free@[j] as int] is None);
            }
        }
    }

    /// Takes the node behind the one in slot `p` out of the chain and drops
    /// its value.
    pub(crate) fn remove_after(&mut self, p: usize, Ghost(i): Ghost<int>)
        requires
            old(self).wf(),
            old(self).holds(p, i),
            i + 1 < old(self)@.len(),
        ensures
            final(self).wf(),
            final(self)@ == old(self)@.remove(i + 1),
    {
        proof {
            assert(node_ok(self.slots@, self.order@, i));
            assert(node_ok(self.slots@, self.order@, i + 1));
        }
        let q = self.slots[p].as_ref().unwrap().next().unwrap();
        let next = self.slots[q].as_ref().unwrap().next();
        self.slots[q] = None;
        self.free.push(q);
        match &mut self.slots[p] {
            Some(node) => {
                node.set_next(next);
            },
            None => {},
        }
        if next.is_none() {
            self.tail = Some(p);
        }
        self.len = self.len - 1;
        proof {
            lemma_link_out(old(self).slots@, old(self).order@, self.slots@, i);
            self.order@ = old(self).order@.remove(i + 1);
            assert forall|j: int| 0 <= j < old(self).free@.len() implies old(self).free@[j] != q
                && old(self).free@[j] != p by {
                assert(old(self).slots@[old(self).free@[j] as int] is None);
            }
        }
    }
}

} // verus!

//! Lists over a chain: in order of arrival, or kept sorted.

use vstd::prelude::*;
use crate::list_set::inner::ListInner;
use crate::order::{ascending, exact_eq, less, strict_total_order};

verus! {

/// `k` is where `x` goes into the ascending sequence `s`: behind every element
/// that does not sort after it, and in front of the first one that does.
pub open spec fn is_insertion_point<T: PartialOrd>(s: Seq<T>, x: T, k: int) -> bool {
    &&& 0 <= k <= s.len()
    &&& forall|j: int| 0 <= j < k ==> !less(x, #[trigger] s[j])
    &&& k < s.len() ==> less(x, s[k])
}

/// An ascending sequence offers a value one place only.
pub proof fn lemma_insertion_point_unique<T: PartialOrd>(s: Seq<T>, x: T, k: int, m: int)
    requires
        strict_total_order::<T>(),
        ascending(s),
        is_insertion_point(s, x, k),
        is_insertion_point(s, x, m),
    ensures
        k == m,
{
    if k < m {
        assert(!less(x, s[k]));
    }
    if m < k {
        assert(!less(x, s[m]));
    }
}

/// A value put in at its insertion point leaves the sequence ascending.
pub proof fn lemma_insert_keeps_ascending<T: PartialOrd>(s: Seq<T>, x: T, k: int)
    requires
        strict_total_order::<T>(),
        ascending(s),
        is_insertion_point(s, x, k),
    ensures
        ascending(s.insert(k, x)),
{
    let t = s.insert(k, x);
    assert forall|i: int, j: int| 0 <= i < j < t.len() implies !less(#[trigger] t[j], #[trigger] t[i]) by {
        if j == k {
            assert(t[i] == s[i]);
            assert(!less(x, s[i]));
        } else if i == k {
            assert(t[j] == s[j - 1]);
            assert(less(x, s[k]));
            if j - 1 > k {
                assert(!less(s[j - 1], s[k]));
            }
        } else {
            let a = if i < k { i } else { i - 1 };
            let b = if j < k { j } else { j - 1 };
            assert(t[i] == s[a] && t[j] == s[b]);
            assert(!less(s[b], s[a]));
        }
    }
}

impl<T> ListInner<T> {
    /// Appends `elem` to the chain.
    pub fn add(&mut self, elem: T)
        requires
            old(self).wf(),
        ensures
            final(self).wf(),
            final(self)@ == old(self)@.push(elem),
    {
        self.push_back(elem)
    }

    /// Puts `elem` into the chain at one place. Where the order of `T` is
    /// strict and total and the chain ascends, the place is behind the values
    /// that do not sort after `elem` and in front of the first one that does,
    /// and the chain ascends afterwards.
    pub fn add_ordered(&mut self, elem: T) where T: PartialOrd
        requires
            old(self).wf(),
            strict_total_order::<T>() ==> ascending(old(self)@),
        ensures
            final(self).wf(),
            exists|k: int| 0 <= k <= old(self)@.len() && final(self)@ == old(self)@.insert(k, elem),
            strict_total_order::<T>() ==> ascending(final(self)@),
            strict_total_order::<T>() ==> exists|k: int|
                is_insertion_point(old(self)@, elem, k) && final(self)@ == old(self)@.insert(k, elem),
    {
        let ghost before = self@;
        match self.first() {
            None => {
                proof {
                    if strict_total_order::<T>() {
                        assert(is_insertion_point(before, elem, 0));
                        lemma_insert_keeps_ascending(before, elem, 0);
                    }
                }
                self.insert_front(elem);
                assert(self@ == before.insert(0, elem));
            },
            Some(head) => {
                if elem < *self.elem_at(head, Ghost(0)) {
                    proof {
                        if strict_total_order::<T>() {
                            assert(is_insertion_point(before, elem, 0));
                            lemma_insert_keeps_ascending(before, elem, 0);
                        }
                    }
                    self.insert_front(elem);
                    assert(self@ == before.insert(0, elem));
                } else {
                    let mut cur = head;
                    let ghost mut i: int = 0;
                    loop
                        invariant_except_break
                            self.wf(),
                            self@ == before,
                            self.holds(cur, i),
                            0 <= i < before.len(),
                            strict_total_order::<T>() ==> forall|j: int|
                                0 <= j <= i ==> !less(elem, #[trigger] before[j]),
                        ensures
                            self.wf(),
                            self@ == before,
                            self.holds(cur, i),
                            0 <= i < before.len(),
                            strict_total_order::<T>() ==> is_insertion_point(before, elem, i + 1),
                        decreases before.len() - i,
                    {
                        match self.next_of(cur, Ghost(i)) {
                            None => {
                                break ;
                            },
                            Some(next) => {
                                if elem < *self.elem_at(next, Ghost(i + 1)) {
                                    break ;
                                }
                                cur = next;
                                proof {
                                    i = i + 1;
                                }
                            },
                        }
                    }
                    proof {
                        if strict_total_order::<T>() {
                            lemma_insert_keeps_ascending(before, elem, i + 1);
                        }
                    }
                    self.insert_after(cur, Ghost(i), elem);
                    assert(self@ == before.insert(i + 1, elem));
                }
            },
        }
    }

    /// Whether a value of the chain equals `target` by `==`. Where `==` of
    /// `T` is identity, that is whether `target` is a value of the chain.
    pub fn find(&self, target: &T) -> (found: bool) where T: PartialEq
        requires
            self.wf(),
        ensures
            exact_eq::<T>() ==> found == self@.contains(*target),
    {
        let mut cur = self.first();
        let ghost mut i: int = 0;
        loop
            invariant
                self.wf(),
                0 <= i <= self@.len(),
                match cur {
                    Some(p) => self.holds(p, i),
                    None => i == self@.len(),
                },
                exact_eq::<T>() ==> forall|j: int| 0 <= j < i ==> self@[j] != *target,
            decreases self@.len() - i,
        {
            match cur {
                None => {
                    return false;
                },
                Some(p) => {
                    if *self.elem_at(p, Ghost(i)) == *target {
                        assert(exact_eq::<T>() ==> self@[i] == *target);
                        return true;
                    }
                    cur = self.next_of(p, Ghost(i));
                    proof {
                        i = i + 1;
                    }
                },
            }
        }
    }

    /// Searches the chain for `target` and gives up at the first value that
    /// `target` sorts before. Where the order of `T` is strict and total and
    /// the chain ascends, the result is whether `target` is a value of the
    /// chain.
    pub fn find_ordered(&self, target: &T) -> (found: bool) where T: PartialOrd
        requires
            self.wf(),
            strict_total_order::<T>() ==> ascending(self@),
        ensures
            strict_total_order::<T>() ==> found == self@.contains(*target),
    {
        let mut cur = self.first();
        let ghost mut i: int = 0;
        loop
            invariant
                self.wf(),
                strict_total_order::<T>() ==> ascending(self@),
                0 <= i <= self@.len(),
                match cur {
                    Some(p) => self.holds(p, i),
                    None => i == self@.len(),
                },
                strict_total_order::<T>() ==> forall|j: int| 0 <= j < i ==> self@[j] != *target,
            decreases self@.len() - i,
        {
            match cur {
                None => {
                    return false;
                },
                Some(p) => {
                    let node = self.node_at(p, Ghost(i));
                    let elem = node.get();
                    if *target < *elem {
                        proof {
                            if strict_total_order::<T>() {
                                assert forall|j: int| i <= j < self@.len() implies self@[j]
                                    != *target by {
                                    if i < j {
                                        assert(!less(self@[j], self@[i]));
                                    }
                                }
                            }
                        }
                        return false;
                    } else if *elem == *target {
                        assert(strict_total_order::<T>() ==> self@[i] == *target);
                        return true;
                    }
                    cur = node.next();
                    proof {
                        i = i + 1;
                    }
                },
            }
        }
    }

    /// The values from head to tail, copied into a vector.
    pub fn to_vec(&self) -> (values: Vec<T>) where T: Copy
        requires
            self.wf(),
        ensures
            values@ == self@,
    {
        let mut values: Vec<T> = Vec::new();
        let mut cur = self.first();
        let ghost mut i: int = 0;
        loop
            invariant_except_break
                self.wf(),
                0 <= i <= self@.len(),
                match cur {
                    Some(p) => self.holds(p, i),
                    None => i == self@.len(),
                },
                values@ == self@.take(i),
            ensures
                values@ == self@,
            decreases self@.len() - i,
        {
            match cur {
                None => {
                    assert(self@.take(i) =~= self@);
                    break ;
                },
                Some(p) => {
                    let elem = *self.elem_at(p, Ghost(i));
                    values.push(elem);
                    assert(self@.take(i).push(elem) =~= self@.take(i + 1));
                    cur = self.next_of(p, Ghost(i));
                    proof {
                        i = i + 1;
                    }
                },
            }
        }
        values
    }

    /// A walk over the values from head to tail.
    pub fn iter(&self) -> (it: ListIter<'_, T>)
        requires
            self.wf(),
        ensures
            it.remaining() == self@,
    {
        let it = ListIter { list: self, cur: self.first(), pos: Ghost(0) };
        assert(it.remaining() =~= self@);
        it
    }
}

/// A walk over the values of a chain, from head to tail.
pub struct ListIter<'a, T> {
    list: &'a ListInner<T>,
    cur: Option<usize>,
    pos: Ghost<int>,
}

impl<'a, T> ListIter<'a, T> {
    #[verifier::type_invariant]
    spec fn inv(self) -> bool {
        &&& self.list.wf()
        &&& 0 <= self.pos@ <= self.list@.len()
        &&& match self.cur {
            Some(p) => self.list.holds(p, self.pos@),
            None => self.pos@ == self.list@.len(),
        }
    }

    /// The values that the walk has not handed out yet, in order.
    pub closed spec fn remaining(self) -> Seq<T> {
        self.list@.subrange(self.pos@, self.list@.len() as int)
    }

    /// Hands out the next value, or `None` when the walk is over.
    pub fn next(&mut self) -> (item: Option<&'a T>)
        ensures
            match item {
                Some(elem) => old(self).remaining().len() > 0 && *elem == old(self).remaining()[0]
                    && final(self).remaining() == old(self).remaining().subrange(
                    1,
                    old(self).remaining().len() as int,
                ),
                None => old(self).remaining().len() == 0 && final(self).remaining() == old(
                    self,
                ).remaining(),
            },
    {
        proof {
            use_type_invariant(&*self);
        }
        match self.cur {
            None => None,
            Some(p) => {
                let list = self.list;
                let elem = list.elem_at(p, Ghost(self.pos@));
                let next = list.next_of(p, Ghost(self.pos@));
                *self = ListIter { list, cur: next, pos: Ghost(old(self).pos@ + 1) };
                assert(self.remaining() =~= old(self).remaining().subrange(
                    1,
                    old(self).remaining().len() as int,
                ));
                Some(elem)
            },
        }
    }
}

/// A linked list that keeps its values in order of arrival.
pub struct List<T> {
    inner: ListInner<T>,
}

impl<T> View for List<T> {
    type V = Seq<T>;

    closed spec fn view(&self) -> Seq<T> {
        self.inner@
    }
}

impl<T> Default for List<T> {
    fn default() -> (list: Self)
        ensures
            list@ == Seq::<T>::empty(),
    {
        List { inner: ListInner::new() }
    }
}

impl<T> List<T> {
    #[verifier::type_invariant]
    spec fn inv(self) -> bool {
        self.inner.wf()
    }

    /// Appends `elem` to the end of the list.
    pub fn add(&mut self, elem: T)
        ensures
            final(self)@ == old(self)@.push(elem),
    {
        proof {
            use_type_invariant(&*self);
        }
        let mut inner = ListInner::new();
        std::mem::swap(&mut self.inner, &mut inner);
        inner.push_back(elem);
        self.inner = inner;
    }

    /// Whether `target` is a value of the list.
    pub fn find(&self, target: &T) -> (found: bool) where T: PartialEq
        ensures
            exact_eq::<T>() ==> found == self@.contains(*target),
    {
        proof {
            use_type_invariant(self);
        }
        self.inner.find(target)
    }

    /// A walk over the values, first to last.
    pub fn iter(&self) -> (it: ListIter<'_, T>)
        ensures
            it.remaining() == self@,
    {
        proof {
            use_type_invariant(self);
        }
        self.inner.iter()
    }

    /// The number of values in the list.
    pub fn len(&self) -> (n: usize)
        ensures
            n == self@.len(),
    {
        proof {
            use_type_invariant(self);
        }
        self.inner.len()
    }

    /// Whether the list holds no value.
    pub fn is_empty(&self) -> (empty: bool)
        ensures
            empty == (self@.len() == 0),
    {
        proof {
            use_type_invariant(self);
        }
        self.inner.is_empty()
    }
}

/// A linked list that keeps its values ascending. Equal values may occur more
/// than once; a new one goes behind those already there.
pub struct OrderedList<T: PartialOrd> {
    inner: ListInner<T>,
}

impl<T: PartialOrd> View for OrderedList<T> {
    type V = Seq<T>;

    closed spec fn view(&self) -> Seq<T> {
        self.inner@
    }
}

impl<T: PartialOrd> Default for OrderedList<T> {
    fn default() -> (list: Self)
        ensures
            list@ == Seq::<T>::empty(),
    {
        OrderedList { inner: ListInner::new() }
    }
}

impl<T: PartialOrd> OrderedList<T> {
    #[verifier::type_invariant]
    spec fn inv(self) -> bool {
        &&& self.inner.wf()
        &&& strict_total_order::<T>() ==> ascending(self.inner@)
    }

    /// Puts `elem` into the list at its place in the order: behind the values
    /// that do not sort after it, in front of the first one that does.
    pub fn add(&mut self, elem: T)
        ensures
            exists|k: int| 0 <= k <= old(self)@.len() && final(self)@ == old(self)@.insert(k, elem),
            strict_total_order::<T>() ==> ascending(final(self)@),
            strict_total_order::<T>() ==> exists|k: int|
                is_insertion_point(old(self)@, elem, k) && final(self)@ == old(self)@.insert(k, elem),
    {
        proof {
            use_type_invariant(&*self);
        }
        let mut inner = ListInner::new();
        std::mem::swap(&mut self.inner, &mut inner);
        let ghost before = inner@;
        inner.add_ordered(elem);
        let ghost at = choose|k: int| 0 <= k <= before.len() && inner@ == before.insert(k, elem);
        let ghost k = choose|k: int|
            is_insertion_point(before, elem, k) && inner@ == before.insert(k, elem);
        self.inner = inner;
        assert(0 <= at <= old(self)@.len() && self@ == old(self)@.insert(at, elem));
        assert(strict_total_order::<T>() ==> is_insertion_point(old(self)@, elem, k) && self@
            == old(self)@.insert(k, elem));
    }

    /// Whether `target` is a value of the list.
    pub fn find(&self, target: &T) -> (found: bool)
        ensures
            strict_total_order::<T>() ==> found == self@.contains(*target),
    {
        proof {
            use_type_invariant(self);
        }
        self.inner.find_ordered(target)
    }

    /// A walk over the values in ascending order.
    pub fn iter(&self) -> (it: ListIter<'_, T>)
        ensures
            it.remaining() == self@,
            strict_total_order::<T>() ==> ascending(it.remaining()),
    {
        proof {
            use_type_invariant(self);
        }
        self.inner.iter()
    }

    /// The number of values in the list.
    pub fn len(&self) -> (n: usize)
        ensures
            n == self@.len(),
    {
        proof {
            use_type_invariant(self);
        }
        self.inner.len()
    }

    /// Whether the list holds no value.
    pub fn is_empty(&self) -> (empty: bool)
        ensures
            empty == (self@.len() == 0),
    {
        proof {
            use_type_invariant(self);
        }
        self.inner.is_empty()
    }
}

} // verus!

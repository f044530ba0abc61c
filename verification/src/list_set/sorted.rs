//! The chain as a set: strictly ascending, every value at most once.

use vstd::prelude::*;
use crate::list_set::inner::ListInner;
use crate::list_set::list::{is_insertion_point, ListIter};
use crate::order::{ascending, less, strict_total_order, strictly_ascending};

verus! {

/// What adding `elem` makes of the strictly ascending sequence `before`:
/// nothing when `elem` is in it already, else `elem` goes in at its place.
/// `fresh` tells the two apart.
pub open spec fn added<T: PartialOrd>(before: Seq<T>, after: Seq<T>, elem: T, fresh: bool) -> bool {
    &&& fresh == !before.contains(elem)
    &&& !fresh ==> after == before
    &&& fresh ==> exists|k: int|
        is_insertion_point(before, elem, k) && after == before.insert(k, elem)
}

/// What removing `elem` makes of the sequence `before`: nothing when `elem` is
/// not in it, else the sequence without the place that held `elem`. `found`
/// tells the two apart.
pub open spec fn removed<T>(before: Seq<T>, after: Seq<T>, elem: T, found: bool) -> bool {
    &&& found == before.contains(elem)
    &&& !found ==> after == before
    &&& found ==> exists|k: int|
        0 <= k < before.len() && before[k] == elem && after == before.remove(k)
}

/// A place taken out of a strictly ascending sequence leaves it so.
pub proof fn lemma_remove_keeps_strict<T: PartialOrd>(s: Seq<T>, k: int)
    requires
        strictly_ascending(s),
        0 <= k < s.len(),
    ensures
        strictly_ascending(s.remove(k)),
{
    let t = s.remove(k);
    assert forall|i: int, j: int| 0 <= i < j < t.len() implies less(#[trigger] t[i], #[trigger] t[j]) by {
        let a = if i < k { i } else { i + 1 };
        let b = if j < k { j } else { j + 1 };
        assert(t[i] == s[a] && t[j] == s[b]);
        assert(less(s[a], s[b]));
    }
}

/// A value that is not in a strictly ascending sequence, put in at its
/// insertion point, leaves the sequence strictly ascending.
pub proof fn lemma_insert_keeps_strict<T: PartialOrd>(s: Seq<T>, x: T, k: int)
    requires
        strict_total_order::<T>(),
        strictly_ascending(s),
        !s.contains(x),
        is_insertion_point(s, x, k),
    ensures
        strictly_ascending(s.insert(k, x)),
{
    let t = s.insert(k, x);
    assert forall|i: int, j: int| 0 <= i < j < t.len() implies less(#[trigger] t[i], #[trigger] t[j]) by {
        if j == k {
            assert(t[i] == s[i]);
            assert(!less(x, s[i]));
            assert(s.contains(s[i]));
        } else if i == k {
            assert(t[j] == s[j - 1]);
            assert(less(x, s[k]));
            if j - 1 > k {
                assert(less(s[k], s[j - 1]));
            }
        } else {
            let a = if i < k { i } else { i - 1 };
            let b = if j < k { j } else { j - 1 };
            assert(t[i] == s[a] && t[j] == s[b]);
            assert(less(s[a], s[b]));
        }
    }
}

/// Adding makes the value a member and changes no other membership.
pub proof fn lemma_added_members<T: PartialOrd>(before: Seq<T>, after: Seq<T>, elem: T, fresh: bool)
    requires
        added(before, after, elem, fresh),
    ensures
        after.to_set() == before.to_set().insert(elem),
        after.len() == before.len() + if fresh { 1int } else { 0 },
{
    if fresh {
        let k = choose|k: int| is_insertion_point(before, elem, k) && after == before.insert(k, elem);
        assert forall|x: T| after.to_set().contains(x) <==> before.to_set().insert(elem).contains(
            x,
        ) by {
            if after.contains(x) {
                let i = choose|i: int| 0 <= i < after.len() && after[i] == x;
                if i < k {
                    assert(before[i] == x);
                } else if i > k {
                    assert(before[i - 1] == x);
                }
            }
            if before.contains(x) {
                let i = choose|i: int| 0 <= i < before.len() && before[i] == x;
                if i < k {
                    assert(after[i] == x);
                } else {
                    assert(after[i + 1] == x);
                }
            }
            if x == elem {
                assert(after[k] == x);
            }
        }
        assert(after.to_set() =~= before.to_set().insert(elem));
    } else {
        assert(before.to_set().contains(elem));
        assert(before.to_set() =~= before.to_set().insert(elem));
    }
}

/// Removing from a strictly ascending sequence ends the value's membership
/// and changes no other.
pub proof fn lemma_removed_members<T: PartialOrd>(before: Seq<T>, after: Seq<T>, elem: T, found: bool)
    requires
        strict_total_order::<T>(),
        strictly_ascending(before),
        removed(before, after, elem, found),
    ensures
        after.to_set() == before.to_set().remove(elem),
        after.len() == before.len() - if found { 1int } else { 0 },
{
    if found {
        let k = choose|k: int|
            0 <= k < before.len() && before[k] == elem && after == before.remove(k);
        assert forall|x: T| after.to_set().contains(x) <==> before.to_set().remove(elem).contains(
            x,
        ) by {
            if after.contains(x) {
                let i = choose|i: int| 0 <= i < after.len() && after[i] == x;
                let a = if i < k { i } else { i + 1 };
                assert(before[a] == x);
                if a < k {
                    assert(less(before[a], before[k]));
                } else {
                    assert(less(before[k], before[a]));
                }
            }
            if before.contains(x) && x != elem {
                let i = choose|i: int| 0 <= i < before.len() && before[i] == x;
                if i < k {
                    assert(after[i] == x);
                } else {
                    assert(after[i - 1] == x);
                }
            }
        }
        assert(after.to_set() =~= before.to_set().remove(elem));
    } else {
        assert(!before.to_set().contains(elem));
        assert(before.to_set() =~= before.to_set().remove(elem));
    }
}

/// What adding makes of a sequence, whatever the order of its values: nothing
/// when `fresh` is false, else `elem` has gone in at one place.
pub open spec fn put_in<T>(before: Seq<T>, after: Seq<T>, elem: T, fresh: bool) -> bool {
    if fresh {
        exists|k: int| 0 <= k <= before.len() && after == before.insert(k, elem)
    } else {
        after == before
    }
}

/// What removing makes of a sequence, whatever the order of its values:
/// nothing when `found` is false, else one place is gone.
pub open spec fn taken_out<T>(before: Seq<T>, after: Seq<T>, found: bool) -> bool {
    if found {
        exists|k: int| 0 <= k < before.len() && after == before.remove(k)
    } else {
        after == before
    }
}

impl<T: PartialOrd> ListInner<T> {
    /// Adds `elem` to the chain unless the walk meets a value equal to it.
    /// Returns whether it was added. Where the order of `T` is strict and
    /// total and the chain strictly ascends, `elem` is added just when the
    /// chain does not hold it, at its place, and the chain strictly ascends
    /// afterwards.
    pub fn add_unique(&mut self, elem: T) -> (fresh: bool)
        requires
            old(self).wf(),
            strict_total_order::<T>() ==> strictly_ascending(old(self)@),
        ensures
            final(self).wf(),
            put_in(old(self)@, final(self)@, elem, fresh),
            strict_total_order::<T>() ==> strictly_ascending(final(self)@),
            strict_total_order::<T>() ==> added(old(self)@, final(self)@, elem, fresh),
    {
        let ghost before = self@;
        let head = match self.first() {
            None => {
                proof {
                    if strict_total_order::<T>() {
                        assert(is_insertion_point(before, elem, 0));
                        lemma_insert_keeps_strict(before, elem, 0);
                    }
                }
                self.insert_front(elem);
                assert(self@ == before.insert(0, elem));
                return true;
            },
            Some(head) => head,
        };
        let head_val = self.elem_at(head, Ghost(0));
        if *head_val == elem {
            assert(strict_total_order::<T>() ==> before[0] == elem);
            return false;
        } else if elem < *head_val {
            proof {
                if strict_total_order::<T>() {
                    assert(is_insertion_point(before, elem, 0));
                    assert forall|j: int| 0 <= j < before.len() implies before[j] != elem by {
                        if j > 0 {
                            assert(less(before[0], before[j]));
                        }
                    }
                    lemma_insert_keeps_strict(before, elem, 0);
                }
            }
            self.insert_front(elem);
            assert(self@ == before.insert(0, elem));
            return true;
        }
        let mut cur = head;
        let ghost mut i: int = 0;
        loop
            invariant_except_break
                strict_total_order::<T>() ==> strictly_ascending(before),
                before == old(self)@,
                self.wf(),
                self@ == before,
                self.holds(cur, i),
                0 <= i < before.len(),
                strict_total_order::<T>() ==> forall|j: int|
                    0 <= j <= i ==> less(#[trigger] before[j], elem),
            ensures
                self.wf(),
                self@ == before,
                self.holds(cur, i),
                0 <= i < before.len(),
                strict_total_order::<T>() ==> is_insertion_point(before, elem, i + 1),
                strict_total_order::<T>() ==> !before.contains(elem),
            decreases before.len() - i,
        {
            match self.next_of(cur, Ghost(i)) {
                None => {
                    proof {
                        if strict_total_order::<T>() {
                            assert forall|j: int| 0 <= j < before.len() implies before[j]
                                != elem by {
                                assert(less(before[j], elem));
                            }
                        }
                    }
                    break ;
                },
                Some(next) => {
                    let next_val = self.elem_at(next, Ghost(i + 1));
                    if *next_val == elem {
                        assert(strict_total_order::<T>() ==> before[i + 1] == elem);
                        return false;
                    } else if *next_val < elem {
                        cur = next;
                        proof {
                            i = i + 1;
                        }
                    } else {
                        proof {
                            if strict_total_order::<T>() {
                                assert forall|j: int| 0 <= j < before.len() implies before[j]
                                    != elem by {
                                    if j > i + 1 {
                                        assert(less(before[i + 1], before[j]));
                                    } else if j <= i {
                                        assert(less(before[j], elem));
                                    }
                                }
                            }
                        }
                        break ;
                    }
                },
            }
        }
        proof {
            if strict_total_order::<T>() {
                lemma_insert_keeps_strict(before, elem, i + 1);
            }
        }
        self.insert_after(cur, Ghost(i), elem);
        assert(self@ == before.insert(i + 1, elem));
        true
    }

    /// Removes the first value equal to `elem` that the walk meets, and gives
    /// up at the first value that `elem` sorts before. Returns whether a value
    /// was removed. Where the order of `T` is strict and total and the chain
    /// strictly ascends, `elem` is removed just when the chain holds it, and
    /// the chain strictly ascends afterwards.
    pub fn remove_ordered(&mut self, elem: &T) -> (found: bool)
        requires
            old(self).wf(),
            strict_total_order::<T>() ==> strictly_ascending(old(self)@),
        ensures
            final(self).wf(),
            taken_out(old(self)@, final(self)@, found),
            strict_total_order::<T>() ==> strictly_ascending(final(self)@),
            strict_total_order::<T>() ==> removed(old(self)@, final(self)@, *elem, found),
    {
        let ghost before = self@;
        let head = match self.first() {
            None => {
                return false;
            },
            Some(head) => head,
        };
        let head_val = self.elem_at(head, Ghost(0));
        if *head_val == *elem {
            proof {
                if strict_total_order::<T>() {
                    assert(before[0] == *elem);
                    lemma_remove_keeps_strict(before, 0);
                }
            }
            self.remove_front();
            assert(self@ == before.remove(0));
            return true;
        } else if *elem < *head_val {
            proof {
                if strict_total_order::<T>() {
                    assert forall|j: int| 0 <= j < before.len() implies before[j] != *elem by {
                        if j > 0 {
                            assert(less(before[0], before[j]));
                        }
                    }
                }
            }
            return false;
        }
        let mut cur = head;
        let ghost mut i: int = 0;
        loop
            invariant
                strict_total_order::<T>() ==> strictly_ascending(before),
                before == old(self)@,
                self.wf(),
                self@ == before,
                self.holds(cur, i),
                0 <= i < before.len(),
                strict_total_order::<T>() ==> forall|j: int|
                    0 <= j <= i ==> less(#[trigger] before[j], *elem),
            decreases before.len() - i,
        {
            match self.next_of(cur, Ghost(i)) {
                None => {
                    proof {
                        if strict_total_order::<T>() {
                            assert forall|j: int| 0 <= j < before.len() implies before[j]
                                != *elem by {
                                assert(less(before[j], *elem));
                            }
                        }
                    }
                    return false;
                },
                Some(next) => {
                    let next_val = self.elem_at(next, Ghost(i + 1));
                    if *next_val == *elem {
                        proof {
                            if strict_total_order::<T>() {
                                assert(before[i + 1] == *elem);
                                lemma_remove_keeps_strict(before, i + 1);
                            }
                        }
                        self.remove_after(cur, Ghost(i));
                        assert(self@ == before.remove(i + 1));
                        return true;
                    } else if *next_val < *elem {
                        cur = next;
                        proof {
                            i = i + 1;
                        }
                    } else {
                        proof {
                            if strict_total_order::<T>() {
                                assert forall|j: int| 0 <= j < before.len() implies before[j]
                                    != *elem by {
                                    if j > i + 1 {
                                        assert(less(before[i + 1], before[j]));
                                    } else if j <= i {
                                        assert(less(before[j], *elem));
                                    }
                                }
                            }
                        }
                        return false;
                    }
                },
            }
        }
    }
}

/// A chain kept strictly ascending: the sequential form of a set.
pub struct SortedChain<T: PartialOrd> {
    inner: ListInner<T>,
}

impl<T: PartialOrd> View for SortedChain<T> {
    type V = Seq<T>;

    /// The values of the set in ascending order.
    closed spec fn view(&self) -> Seq<T> {
        self.inner@
    }
}

impl<T: PartialOrd> SortedChain<T> {
    #[verifier::type_invariant]
    spec fn inv(self) -> bool {
        &&& self.inner.wf()
        &&& strict_total_order::<T>() ==> strictly_ascending(self.inner@)
    }

    /// The empty set.
    pub fn new() -> (chain: Self)
        ensures
            chain@ == Seq::<T>::empty(),
    {
        SortedChain { inner: ListInner::new() }
    }

    /// Adds `elem` unless the set holds it already. Returns whether it was
    /// added.
    pub fn add(&mut self, elem: T) -> (fresh: bool)
        ensures
            put_in(old(self)@, final(self)@, elem, fresh),
            strict_total_order::<T>() ==> added(old(self)@, final(self)@, elem, fresh),
            strict_total_order::<T>() ==> strictly_ascending(final(self)@),
    {
        proof {
            use_type_invariant(&*self);
        }
        let mut inner = ListInner::new();
        std::mem::swap(&mut self.inner, &mut inner);
        let fresh = inner.add_unique(elem);
        self.inner = inner;
        fresh
    }

    /// Removes `elem` from the set. Returns whether the set held it.
    pub fn remove(&mut self, elem: &T) -> (found: bool)
        ensures
            taken_out(old(self)@, final(self)@, found),
            strict_total_order::<T>() ==> removed(old(self)@, final(self)@, *elem, found),
            strict_total_order::<T>() ==> strictly_ascending(final(self)@),
    {
        proof {
            use_type_invariant(&*self);
        }
        let mut inner = ListInner::new();
        std::mem::swap(&mut self.inner, &mut inner);
        let found = inner.remove_ordered(elem);
        self.inner = inner;
        found
    }

    /// Whether the set holds `elem`.
    pub fn contains(&self, elem: &T) -> (found: bool)
        ensures
            strict_total_order::<T>() ==> found == self@.contains(*elem),
    {
        proof {
            use_type_invariant(self);
        }
        self.inner.find_ordered(elem)
    }

    /// The number of values in the set.
    pub fn len(&self) -> (n: usize)
        ensures
            n == self@.len(),
    {
        proof {
            use_type_invariant(self);
        }
        self.inner.len()
    }

    /// The values of the set in ascending order, copied into a vector.
    pub fn to_vec(&self) -> (values: Vec<T>) where T: Copy
        ensures
            values@ == self@,
            strict_total_order::<T>() ==> strictly_ascending(values@),
    {
        proof {
            use_type_invariant(self);
        }
        self.inner.to_vec()
    }

    /// A walk over the values of the set. It yields them strictly ascending.
    pub fn iter(&self) -> (it: ListIter<'_, T>)
        ensures
            it.remaining() == self@,
            strict_total_order::<T>() ==> strictly_ascending(it.remaining()),
    {
        proof {
            use_type_invariant(self);
        }
        self.inner.iter()
    }
}

/// Whatever was added, a set then holds the value; removing it once succeeds
/// and ends its membership.
pub proof fn lemma_add_remove_round_trip<T: PartialOrd>(
    s0: Seq<T>,
    s1: Seq<T>,
    s2: Seq<T>,
    x: T,
    fresh: bool,
    found: bool,
)
    requires
        strict_total_order::<T>(),
        strictly_ascending(s0),
        added(s0, s1, x, fresh),
        removed(s1, s2, x, found),
    ensures
        s1.contains(x),
        found,
        !s2.contains(x),
{
    lemma_added_members(s0, s1, x, fresh);
    assert(s1.to_set().contains(x));
    if fresh {
        let k = choose|k: int| is_insertion_point(s0, x, k) && s1 == s0.insert(k, x);
        lemma_insert_keeps_strict(s0, x, k);
    }
    lemma_removed_members(s1, s2, x, found);
    assert(!s2.to_set().contains(x));
}

/// A value that a set does not hold is added once: the first `add` reports
/// it as fresh, the second does not and leaves the set as it is.
pub proof fn lemma_add_twice<T: PartialOrd>(
    s0: Seq<T>,
    s1: Seq<T>,
    s2: Seq<T>,
    x: T,
    first: bool,
    second: bool,
)
    requires
        !s0.contains(x),
        added(s0, s1, x, first),
        added(s1, s2, x, second),
    ensures
        first,
        !second,
        s2 == s1,
{
    lemma_added_members(s0, s1, x, first);
    assert(s1.to_set().contains(x));
}

/// Removing a value that a set does not hold reports so and changes nothing.
pub proof fn lemma_remove_absent<T: PartialOrd>(s0: Seq<T>, s1: Seq<T>, x: T, found: bool)
    requires
        !s0.contains(x),
        removed(s0, s1, x, found),
    ensures
        !found,
        s1 == s0,
{
}

/// A value that a set holds is removed once: the first `remove` finds it, the
/// second does not.
pub proof fn lemma_remove_twice<T: PartialOrd>(
    s0: Seq<T>,
    s1: Seq<T>,
    s2: Seq<T>,
    x: T,
    first: bool,
    second: bool,
)
    requires
        strict_total_order::<T>(),
        strictly_ascending(s0),
        s0.contains(x),
        removed(s0, s1, x, first),
        removed(s1, s2, x, second),
    ensures
        first,
        !second,
        s2 == s1,
{
    lemma_removed_members(s0, s1, x, first);
    assert(!s1.to_set().contains(x));
}

/// Every state that `add` and `remove` lead to from a strictly ascending one
/// is strictly ascending, so no value occurs twice in it.
pub proof fn lemma_set_stays_strict<T: PartialOrd>(before: Seq<T>, after: Seq<T>, x: T, flag: bool)
    requires
        strict_total_order::<T>(),
        strictly_ascending(before),
        added(before, after, x, flag) || removed(before, after, x, flag),
    ensures
        strictly_ascending(after),
        after.no_duplicates(),
        ascending(after),
{
    if added(before, after, x, flag) {
        if flag {
            let k = choose|k: int| is_insertion_point(before, x, k) && after == before.insert(k, x);
            lemma_insert_keeps_strict(before, x, k);
        }
    } else {
        if flag {
            let k = choose|k: int|
                0 <= k < before.len() && before[k] == x && after == before.remove(k);
            lemma_remove_keeps_strict(before, k);
        }
    }
}

} // verus!

//! The walks of the fine-grained set, told over plain values.
//!
//! A walk looks at one node at a time and decides there how to go on. The
//! decisions are the spec functions of this file; the steps of the set are
//! held to them. Strung together along a chain that no other thread touches,
//! the decisions add to, remove from and search a strictly ascending
//! sequence: that is what the laws at the end state.

use vstd::prelude::*;
use crate::list_set::list::is_insertion_point;
use crate::list_set::sorted::{added, lemma_insert_keeps_strict, lemma_remove_keeps_strict, removed};
use crate::order::{less, strict_total_order, strictly_ascending};

verus! {

/// What `add` does at a node.
pub enum AddCase {
    /// The node is empty and takes the value.
    Install,
    /// The node holds the value already.
    Duplicate,
    /// The node's value sorts after the value: the value goes in front of it.
    Before,
    /// The node is the last and its value sorts before the value: the value
    /// goes behind it.
    Append,
    /// The value belongs further on.
    Onward,
}

/// What `add` does with `elem` at a node that holds `here` and has a
/// follower or not.
pub open spec fn add_case<T: PartialOrd>(here: Option<T>, has_next: bool, elem: T) -> AddCase {
    match here {
        None => AddCase::Install,
        Some(value) => if value == elem {
            AddCase::Duplicate
        } else if less(elem, value) {
            AddCase::Before
        } else if !has_next {
            AddCase::Append
        } else {
            AddCase::Onward
        },
    }
}

/// What a search finds at a node.
pub enum LookCase {
    /// The node holds the value.
    Found,
    /// The value is not here and cannot come any more.
    Absent,
    /// The value may come further on.
    Onward,
}

/// What a search for `elem` finds at a node that holds `here` and has a
/// follower or not.
pub open spec fn look_case<T: PartialOrd>(here: Option<T>, has_next: bool, elem: T) -> LookCase {
    match here {
        None => LookCase::Absent,
        Some(value) => if value == elem {
            LookCase::Found
        } else if less(elem, value) || !has_next {
            LookCase::Absent
        } else {
            LookCase::Onward
        },
    }
}

/// What `remove` does at the follower of the node it stands on.
pub open spec fn unlink_case<T: PartialOrd>(follower: Option<T>, elem: T) -> LookCase {
    match follower {
        None => LookCase::Absent,
        Some(value) => if value == elem {
            LookCase::Found
        } else if less(elem, value) {
            LookCase::Absent
        } else {
            LookCase::Onward
        },
    }
}

/// The walk of `add` along the values `vals` from position `i` on: the
/// values afterwards, and whether `elem` was added.
pub open spec fn add_from<T: PartialOrd>(vals: Seq<T>, i: int, elem: T) -> (Seq<T>, bool)
    decreases vals.len() - i,
{
    if vals.len() == 0 {
        (seq![elem], true)
    } else if i < 0 || i >= vals.len() {
        (vals, false)
    } else {
        match add_case(Some(vals[i]), i + 1 < vals.len(), elem) {
            AddCase::Install => (vals, false),
            AddCase::Duplicate => (vals, false),
            AddCase::Before => (vals.insert(i, elem), true),
            AddCase::Append => (vals.push(elem), true),
            AddCase::Onward => add_from(vals, i + 1, elem),
        }
    }
}

/// The walk of a search along the values `vals` from position `i` on.
pub open spec fn look_from<T: PartialOrd>(vals: Seq<T>, i: int, elem: T) -> bool
    decreases vals.len() - i,
{
    if i < 0 || i >= vals.len() {
        false
    } else {
        match look_case(Some(vals[i]), i + 1 < vals.len(), elem) {
            LookCase::Found => true,
            LookCase::Absent => false,
            LookCase::Onward => look_from(vals, i + 1, elem),
        }
    }
}

/// The walk of `remove` behind the head, standing on position `i`: the
/// values afterwards, and whether `elem` was removed.
pub open spec fn unlink_from<T: PartialOrd>(vals: Seq<T>, i: int, elem: T) -> (Seq<T>, bool)
    decreases vals.len() - i,
{
    if i < 0 || i + 1 >= vals.len() {
        (vals, false)
    } else {
        match unlink_case(Some(vals[i + 1]), elem) {
            LookCase::Found => (vals.remove(i + 1), true),
            LookCase::Absent => (vals, false),
            LookCase::Onward => unlink_from(vals, i + 1, elem),
        }
    }
}

/// The whole of `remove`: the head is tried first. A head that holds the
/// value takes over what its follower holds, or is emptied when it has none.
pub open spec fn remove_from_head<T: PartialOrd>(vals: Seq<T>, elem: T) -> (Seq<T>, bool) {
    if vals.len() == 0 {
        (vals, false)
    } else {
        match look_case(Some(vals[0]), true, elem) {
            LookCase::Found => (vals.remove(0), true),
            LookCase::Absent => (vals, false),
            LookCase::Onward => unlink_from(vals, 0, elem),
        }
    }
}

/// The walk of `add` adds to a strictly ascending chain as a set does.
pub proof fn lemma_add_walk<T: PartialOrd>(vals: Seq<T>, i: int, elem: T)
    requires
        strict_total_order::<T>(),
        strictly_ascending(vals),
        0 <= i,
        vals.len() > 0 ==> i < vals.len(),
        forall|j: int| 0 <= j < i ==> less(#[trigger] vals[j], elem),
    ensures
        added(vals, add_from(vals, i, elem).0, elem, add_from(vals, i, elem).1),
        strictly_ascending(add_from(vals, i, elem).0),
    decreases vals.len() - i,
{
    if vals.len() == 0 {
        assert(is_insertion_point(vals, elem, 0));
        assert(vals.insert(0, elem) =~= seq![elem]);
        lemma_insert_keeps_strict(vals, elem, 0);
    } else {
        match add_case(Some(vals[i]), i + 1 < vals.len(), elem) {
            AddCase::Install => {},
            AddCase::Duplicate => {
                assert(vals[i] == elem);
            },
            AddCase::Before => {
                lemma_absent(vals, i, elem);
                assert(is_insertion_point(vals, elem, i));
                lemma_insert_keeps_strict(vals, elem, i);
            },
            AddCase::Append => {
                assert forall|j: int| 0 <= j < vals.len() implies vals[j] != elem by {
                    if j < i {
                        assert(less(vals[j], elem));
                    }
                }
                assert(is_insertion_point(vals, elem, vals.len() as int)) by {
                    assert forall|j: int| 0 <= j < vals.len() implies !less(elem, #[trigger] vals[j]) by {
                        if j < i {
                            assert(less(vals[j], elem));
                        }
                    }
                }
                assert(vals.insert(vals.len() as int, elem) =~= vals.push(elem));
                lemma_insert_keeps_strict(vals, elem, vals.len() as int);
            },
            AddCase::Onward => {
                lemma_add_walk(vals, i + 1, elem);
            },
        }
    }
}

/// A value that sorts before the one at position `i` and after all in front
/// of it is not in a strictly ascending chain.
proof fn lemma_absent<T: PartialOrd>(vals: Seq<T>, i: int, elem: T)
    requires
        strict_total_order::<T>(),
        strictly_ascending(vals),
        0 <= i < vals.len(),
        less(elem, vals[i]),
        forall|j: int| 0 <= j < i ==> less(#[trigger] vals[j], elem),
    ensures
        !vals.contains(elem),
{
    assert forall|j: int| 0 <= j < vals.len() implies vals[j] != elem by {
        if j < i {
            assert(less(vals[j], elem));
        } else if j > i {
            assert(less(vals[i], vals[j]));
        }
    }
}

/// The walk of a search finds just the values of a strictly ascending chain.
pub proof fn lemma_look_walk<T: PartialOrd>(vals: Seq<T>, i: int, elem: T)
    requires
        strict_total_order::<T>(),
        strictly_ascending(vals),
        0 <= i,
        vals.len() > 0 ==> i < vals.len(),
        forall|j: int| 0 <= j < i ==> less(#[trigger] vals[j], elem),
    ensures
        look_from(vals, i, elem) == vals.contains(elem),
    decreases vals.len() - i,
{
    if vals.len() > 0 {
        match look_case(Some(vals[i]), i + 1 < vals.len(), elem) {
            LookCase::Found => {
                assert(vals[i] == elem);
            },
            LookCase::Absent => {
                if less(elem, vals[i]) {
                    lemma_absent(vals, i, elem);
                } else {
                    assert forall|j: int| 0 <= j < vals.len() implies vals[j] != elem by {
                        if j < i {
                            assert(less(vals[j], elem));
                        }
                    }
                }
            },
            LookCase::Onward => {
                lemma_look_walk(vals, i + 1, elem);
            },
        }
    }
}

/// The walk of `remove` behind the head removes from a strictly ascending
/// chain as a set does.
pub proof fn lemma_unlink_walk<T: PartialOrd>(vals: Seq<T>, i: int, elem: T)
    requires
        strict_total_order::<T>(),
        strictly_ascending(vals),
        0 <= i < vals.len(),
        forall|j: int| 0 <= j <= i ==> less(#[trigger] vals[j], elem),
    ensures
        removed(vals, unlink_from(vals, i, elem).0, elem, unlink_from(vals, i, elem).1),
        strictly_ascending(unlink_from(vals, i, elem).0),
    decreases vals.len() - i,
{
    if i + 1 >= vals.len() {
        assert forall|j: int| 0 <= j < vals.len() implies vals[j] != elem by {
            assert(less(vals[j], elem));
        }
    } else {
        match unlink_case(Some(vals[i + 1]), elem) {
            LookCase::Found => {
                assert(vals[i + 1] == elem);
                lemma_remove_keeps_strict(vals, i + 1);
            },
            LookCase::Absent => {
                lemma_absent(vals, i + 1, elem);
            },
            LookCase::Onward => {
                lemma_unlink_walk(vals, i + 1, elem);
            },
        }
    }
}

/// `remove` removes from a strictly ascending chain as a set does.
pub proof fn lemma_remove_walk<T: PartialOrd>(vals: Seq<T>, elem: T)
    requires
        strict_total_order::<T>(),
        strictly_ascending(vals),
    ensures
        removed(vals, remove_from_head(vals, elem).0, elem, remove_from_head(vals, elem).1),
        strictly_ascending(remove_from_head(vals, elem).0),
{
    if vals.len() > 0 {
        match look_case(Some(vals[0]), true, elem) {
            LookCase::Found => {
                assert(vals[0] == elem);
                lemma_remove_keeps_strict(vals, 0);
            },
            LookCase::Absent => {
                lemma_absent(vals, 0, elem);
            },
            LookCase::Onward => {
                lemma_unlink_walk(vals, 0, elem);
            },
        }
    }
}

} // verus!

//! What the walks of the fine-grained set saw, held against a chain.
//!
//! A walk reads each node under that node's lock, so the verifier knows what
//! the walk saw only node by node. The walks therefore return, as ghost
//! values, the contents they met, head first, and state how they went on at
//! each. The laws of this file say what that comes to along a chain that no
//! other thread changes meanwhile: the decisions of a set.

use vstd::prelude::*;
use crate::list_set::fine_grained_set::{has_follower, value_in, LockedNode};
use crate::list_set::sorted::{added, removed};
use crate::list_set::walk_model::{
    add_case,
    add_from,
    lemma_add_walk,
    lemma_look_walk,
    lemma_remove_walk,
    look_case,
    look_from,
    unlink_case,
    unlink_from,
    AddCase,
    LookCase,
};
use crate::order::{strict_total_order, strictly_ascending};

verus! {

/// The contents `seen` are those of the first nodes of a chain that holds
/// the values `vals`, in their order: each node holds its value, and each but
/// the chain's last has a follower. The head of an empty chain holds nothing.
pub open spec fn along<T>(seen: Seq<Option<LockedNode<T>>>, vals: Seq<T>) -> bool {
    if vals.len() == 0 {
        seen.len() == 1 && seen[0] is None
    } else {
        &&& 0 < seen.len() <= vals.len()
        &&& forall|i: int|
            0 <= i < seen.len() ==> value_in(#[trigger] seen[i]) == Some(vals[i]) && has_follower(
                seen[i],
            ) == (i + 1 < vals.len())
    }
}

/// What a walk of `add` saw and did.
pub struct AddTrace<T> {
    /// The contents of the nodes that the walk locked, head first, as it
    /// found them.
    pub seen: Seq<Option<LockedNode<T>>>,
    /// What the walk put back into each of them.
    pub wrote: Seq<Option<LockedNode<T>>>,
    /// What the walk put into the spare node.
    pub spare_after: Option<LockedNode<T>>,
}

/// What a walk of `remove` saw and did.
pub struct RemoveTrace<T> {
    /// The contents of the nodes whose values the walk compared, head first,
    /// as it found them.
    pub seen: Seq<Option<LockedNode<T>>>,
    /// What the walk put back into each of them.
    pub wrote: Seq<Option<LockedNode<T>>>,
    /// What the follower of the head held, where the head took it over.
    pub absorbed: Option<LockedNode<T>>,
}

/// The walk put back what it found into every node but the last `n`.
pub open spec fn kept<T>(
    seen: Seq<Option<LockedNode<T>>>,
    wrote: Seq<Option<LockedNode<T>>>,
    n: int,
) -> bool {
    &&& wrote.len() == seen.len()
    &&& forall|i: int| 0 <= i < seen.len() - n ==> #[trigger] wrote[i] == seen[i]
}

/// What a walk of `remove` did to the nodes it saw. Where nothing was found
/// it changed none. Where the head held the value, the head holds afterwards
/// what its follower held, or nothing where no follower could be had
/// (`follower_had` tells). Where a later node held the value, that node is
/// empty afterwards and the node in front of it has taken over its link.
pub open spec fn taken<T>(t: RemoveTrace<T>, found: bool, follower_had: bool) -> bool {
    let n = t.seen.len() as int;
    &&& n > 0
    &&& t.wrote.len() == n
    &&& if !found {
        t.wrote == t.seen
    } else if n == 1 {
        t.seen[0] is Some && t.wrote[0] == if follower_had {
            t.absorbed
        } else {
            None
        }
    } else {
        &&& kept(t.seen, t.wrote, 2)
        &&& t.seen[n - 2] is Some
        &&& t.seen[n - 1] is Some
        &&& t.wrote[n - 2] == Some(
            LockedNode { elem: t.seen[n - 2].unwrap().elem, next: t.seen[n - 1].unwrap().next },
        )
        &&& t.wrote[n - 1] is None
    }
}

/// How a search for `elem` went on at a node with this content.
pub open spec fn look_at<T: PartialOrd>(content: Option<LockedNode<T>>, elem: T) -> LookCase {
    look_case(value_in(content), has_follower(content), elem)
}

/// A walk that saw `seen` went onward at every node but the last.
pub open spec fn onward_until_last<T: PartialOrd>(
    seen: Seq<Option<LockedNode<T>>>,
    elem: T,
) -> bool {
    &&& seen.len() > 0
    &&& forall|i: int|
        0 <= i < seen.len() - 1 ==> look_at(#[trigger] seen[i], elem) == LookCase::Onward
}

/// A search for `elem` that saw `seen` answered `found`: it went onward up to
/// the last node and found the value there or not.
pub open spec fn searched<T: PartialOrd>(
    seen: Seq<Option<LockedNode<T>>>,
    elem: T,
    found: bool,
) -> bool {
    &&& onward_until_last(seen, elem)
    &&& found == (look_at(seen.last(), elem) == LookCase::Found)
}

/// What `add` did at the last node of its walk, by what the node held: what
/// it put back into the node and into the spare node, the node at index
/// `spare`, whether the value was added, and whether the spare node is in the
/// chain now.
pub open spec fn planted<T: PartialOrd>(
    last: Option<LockedNode<T>>,
    node_after: Option<LockedNode<T>>,
    spare_after: Option<LockedNode<T>>,
    spare: usize,
    elem: T,
    fresh: bool,
    linked: bool,
) -> bool {
    match add_case(value_in(last), has_follower(last), elem) {
        AddCase::Install => fresh && !linked && node_after == Some(
            LockedNode { elem, next: None },
        ),
        AddCase::Duplicate => !fresh && !linked && node_after == last,
        AddCase::Before => {
            &&& fresh && linked
            &&& node_after == Some(LockedNode { elem, next: Some(spare) })
            &&& spare_after == last
        },
        AddCase::Append => {
            &&& fresh && linked
            &&& node_after == Some(LockedNode { elem: last.unwrap().elem, next: Some(spare) })
            &&& spare_after == Some(LockedNode { elem, next: None })
        },
        AddCase::Onward => !fresh && !linked && node_after == last,
    }
}

/// How `remove` went on at a node with this content, once the node's value
/// was compared.
pub open spec fn unlink_at<T: PartialOrd>(content: Option<LockedNode<T>>, elem: T) -> LookCase {
    unlink_case(value_in(content), elem)
}

/// A removal of `elem` that saw `seen` answered `found`: it went onward up to
/// the last node and found the value there or not.
pub open spec fn unlinked<T: PartialOrd>(
    seen: Seq<Option<LockedNode<T>>>,
    elem: T,
    found: bool,
) -> bool {
    &&& seen.len() > 0
    &&& forall|i: int|
        0 <= i < seen.len() - 1 ==> unlink_at(#[trigger] seen[i], elem) == LookCase::Onward
    &&& found == (unlink_at(seen.last(), elem) == LookCase::Found)
}

/// Along a chain, a walk that went onward up to position `k` and was not cut
/// short answers as the search from `k` on does.
proof fn lemma_search_from<T: PartialOrd>(
    seen: Seq<Option<LockedNode<T>>>,
    vals: Seq<T>,
    elem: T,
    k: int,
)
    requires
        vals.len() > 0,
        along(seen, vals),
        onward_until_last(seen, elem),
        look_at(seen.last(), elem) != LookCase::Onward,
        0 <= k < seen.len(),
    ensures
        look_from(vals, k, elem) == (look_at(seen.last(), elem) == LookCase::Found),
    decreases seen.len() - k,
{
    assert(look_at(seen[k], elem) == look_case(Some(vals[k]), k + 1 < vals.len(), elem));
    if k < seen.len() - 1 {
        lemma_search_from(seen, vals, elem, k + 1);
    }
}

/// A search that walked along a strictly ascending chain, and was not cut
/// short, answers whether the chain holds the value.
pub proof fn lemma_search_along<T: PartialOrd>(
    seen: Seq<Option<LockedNode<T>>>,
    vals: Seq<T>,
    elem: T,
    found: bool,
)
    requires
        strict_total_order::<T>(),
        strictly_ascending(vals),
        along(seen, vals),
        searched(seen, elem, found),
        look_at(seen.last(), elem) != LookCase::Onward,
    ensures
        found == vals.contains(elem),
{
    if vals.len() > 0 {
        lemma_search_from(seen, vals, elem, 0);
        lemma_look_walk(vals, 0, elem);
    }
}

/// The values of a chain after `add` did at its position `k`, where the walk
/// ended, what it does at a node with the content `last`, and whether the
/// value was added.
pub open spec fn planted_values<T: PartialOrd>(
    vals: Seq<T>,
    k: int,
    last: Option<LockedNode<T>>,
    elem: T,
) -> (Seq<T>, bool) {
    match add_case(value_in(last), has_follower(last), elem) {
        AddCase::Install => (seq![elem], true),
        AddCase::Duplicate => (vals, false),
        AddCase::Before => (vals.insert(k, elem), true),
        AddCase::Append => (vals.push(elem), true),
        AddCase::Onward => (vals, false),
    }
}

/// Along a chain, a walk of `add` that went onward up to position `k` and was
/// not cut short does what the walk over the values from `k` on does.
proof fn lemma_add_from<T: PartialOrd>(
    seen: Seq<Option<LockedNode<T>>>,
    vals: Seq<T>,
    elem: T,
    k: int,
)
    requires
        vals.len() > 0,
        along(seen, vals),
        onward_until_last(seen, elem),
        look_at(seen.last(), elem) != LookCase::Onward,
        0 <= k < seen.len(),
    ensures
        add_from(vals, k, elem) == planted_values(vals, seen.len() - 1, seen.last(), elem),
    decreases seen.len() - k,
{
    assert(look_at(seen[k], elem) == look_case(Some(vals[k]), k + 1 < vals.len(), elem));
    if k < seen.len() - 1 {
        lemma_add_from(seen, vals, elem, k + 1);
    }
}

/// A walk of `add` along a strictly ascending chain, not cut short, adds as a
/// set does: the value goes in just when the chain does not hold it, at the
/// place that keeps the chain strictly ascending, which is where the walk
/// ended.
pub proof fn lemma_add_along<T: PartialOrd>(
    seen: Seq<Option<LockedNode<T>>>,
    vals: Seq<T>,
    elem: T,
)
    requires
        strict_total_order::<T>(),
        strictly_ascending(vals),
        along(seen, vals),
        onward_until_last(seen, elem),
        look_at(seen.last(), elem) != LookCase::Onward,
    ensures
        ({
            let after = planted_values(vals, seen.len() - 1, seen.last(), elem);
            added(vals, after.0, elem, after.1) && strictly_ascending(after.0)
        }),
{
    if vals.len() > 0 {
        lemma_add_from(seen, vals, elem, 0);
    }
    lemma_add_walk(vals, 0, elem);
}

/// Along a chain, a walk of `remove` that stands on position `k`, having gone
/// onward there, and was not cut short does what the walk over the values
/// from `k` on does.
proof fn lemma_unlink_from<T: PartialOrd>(
    seen: Seq<Option<LockedNode<T>>>,
    vals: Seq<T>,
    elem: T,
    found: bool,
    k: int,
)
    requires
        vals.len() > 0,
        along(seen, vals),
        unlinked(seen, elem, found),
        unlink_at(seen.last(), elem) == LookCase::Onward ==> !has_follower(seen.last()),
        0 <= k < seen.len(),
        unlink_at(seen[k], elem) == LookCase::Onward,
    ensures
        unlink_from(vals, k, elem) == (
            if found {
                vals.remove(seen.len() - 1)
            } else {
                vals
            },
            found,
        ),
    decreases seen.len() - k,
{
    if k < seen.len() - 1 {
        assert(unlink_at(seen[k + 1], elem) == unlink_case(Some(vals[k + 1]), elem));
        if unlink_at(seen[k + 1], elem) == LookCase::Onward {
            lemma_unlink_from(seen, vals, elem, found, k + 1);
        }
    }
}

/// A walk of `remove` along a strictly ascending chain, not cut short,
/// removes as a set does: the value is found just when the chain holds it,
/// at the place where the walk ended, and the other values stay as they are.
pub proof fn lemma_remove_along<T: PartialOrd>(
    seen: Seq<Option<LockedNode<T>>>,
    vals: Seq<T>,
    elem: T,
    found: bool,
)
    requires
        strict_total_order::<T>(),
        strictly_ascending(vals),
        along(seen, vals),
        unlinked(seen, elem, found),
        unlink_at(seen.last(), elem) == LookCase::Onward ==> !has_follower(seen.last()),
    ensures
        found == vals.contains(elem),
        found ==> vals[seen.len() - 1] == elem,
        ({
            let after = if found {
                vals.remove(seen.len() - 1)
            } else {
                vals
            };
            removed(vals, after, elem, found) && strictly_ascending(after)
        }),
{
    lemma_remove_walk(vals, elem);
    if vals.len() > 0 {
        assert(unlink_at(seen[0], elem) == look_case(Some(vals[0]), true, elem));
        if unlink_at(seen[0], elem) == LookCase::Onward {
            lemma_unlink_from(seen, vals, elem, found, 0);
        }
    }
}

/// The node that follows the one at position `i` of a chain through the
/// nodes `order`.
pub open spec fn link(order: Seq<usize>, i: int) -> Option<usize> {
    if i + 1 < order.len() {
        Some(order[i + 1])
    } else {
        None
    }
}

/// The nodes `mem`, told by index, hold the values `vals` as a chain: it
/// starts at the head, the node at index 0, and runs through the nodes
/// `order`, each of which holds its value and names the next. A chain without
/// values is a head that holds nothing.
pub open spec fn chained<T>(
    mem: Seq<Option<LockedNode<T>>>,
    order: Seq<usize>,
    vals: Seq<T>,
) -> bool {
    &&& order.len() > 0
    &&& order[0] == 0
    &&& forall|i: int, j: int| 0 <= i < j < order.len() ==> order[i] != order[j]
    &&& forall|i: int| 0 <= i < order.len() ==> (#[trigger] order[i]) < mem.len()
    &&& if vals.len() == 0 {
        order.len() == 1 && mem[0] is None
    } else {
        &&& order.len() == vals.len()
        &&& forall|i: int|
            0 <= i < order.len() ==> mem[#[trigger] order[i] as int] == Some(
                LockedNode { elem: vals[i], next: link(order, i) },
            )
    }
}

/// What a walk sees that locks the first `n` nodes of a chain.
pub open spec fn sight<T>(mem: Seq<Option<LockedNode<T>>>, order: Seq<usize>, n: int) -> Seq<
    Option<LockedNode<T>>,
> {
    Seq::new(n as nat, |i: int| mem[order[i] as int])
}

/// What a walk sees of a chain's nodes is what the chain holds.
pub proof fn lemma_sight_along<T>(
    mem: Seq<Option<LockedNode<T>>>,
    order: Seq<usize>,
    vals: Seq<T>,
    n: int,
)
    requires
        chained(mem, order, vals),
        0 < n <= order.len(),
    ensures
        along(sight(mem, order, n), vals),
{
    let seen = sight(mem, order, n);
    if vals.len() > 0 {
        assert forall|i: int| 0 <= i < seen.len() implies value_in(#[trigger] seen[i]) == Some(
            vals[i],
        ) && has_follower(seen[i]) == (i + 1 < vals.len()) by {
            assert(mem[order[i] as int] == Some(LockedNode { elem: vals[i], next: link(order, i) }));
        }
    }
}

/// The nodes of a chain after `add` did its work at position `k` with the
/// spare node at index `spare`, and the indices that the chain runs through
/// then.
pub open spec fn planted_nodes<T>(
    mem: Seq<Option<LockedNode<T>>>,
    order: Seq<usize>,
    k: int,
    spare: usize,
    node_after: Option<LockedNode<T>>,
    spare_after: Option<LockedNode<T>>,
    linked: bool,
) -> (Seq<Option<LockedNode<T>>>, Seq<usize>) {
    if linked {
        (
            mem.update(order[k] as int, node_after).update(spare as int, spare_after),
            order.insert(k + 1, spare),
        )
    } else {
        (mem.update(order[k] as int, node_after), order)
    }
}

/// A value put in front of the one at position `k`: the node there takes the
/// value and names the spare node, which takes over what the node held.
#[verifier::rlimit(40)]
proof fn lemma_plant_before<T>(
    mem: Seq<Option<LockedNode<T>>>,
    order: Seq<usize>,
    vals: Seq<T>,
    k: int,
    spare: usize,
    elem: T,
)
    requires
        chained(mem, order, vals),
        0 <= k < vals.len(),
        spare < mem.len(),
        !order.contains(spare),
    ensures
        chained(
            mem.update(order[k] as int, Some(LockedNode { elem, next: Some(spare) })).update(
                spare as int,
                mem[order[k] as int],
            ),
            order.insert(k + 1, spare),
            vals.insert(k, elem),
        ),
{
    let after = mem.update(order[k] as int, Some(LockedNode { elem, next: Some(spare) })).update(
        spare as int,
        mem[order[k] as int],
    );
    let path = order.insert(k + 1, spare);
    let out = vals.insert(k, elem);
    assert forall|i: int| 0 <= i < order.len() implies order[i] != spare by {
        assert(order.contains(order[i]));
    }
    assert forall|i: int| 0 <= i < path.len() implies after[#[trigger] path[i] as int] == Some(
        LockedNode { elem: out[i], next: link(path, i) },
    ) by {
        if i < k {
            assert(path[i] == order[i]);
            assert(mem[order[i] as int] == Some(LockedNode { elem: vals[i], next: link(order, i) }));
            assert(order[i] != order[k]);
        } else if i == k {
            assert(path[i] == order[k]);
            assert(path[k + 1] == spare);
        } else if i == k + 1 {
            assert(path[i] == spare);
            assert(mem[order[k] as int] == Some(LockedNode { elem: vals[k], next: link(order, k) }));
        } else {
            assert(path[i] == order[i - 1]);
            assert(mem[order[i - 1] as int] == Some(
                LockedNode { elem: vals[i - 1], next: link(order, i - 1) },
            ));
            assert(order[i - 1] != order[k]);
        }
    }
    assert forall|i: int, j: int| 0 <= i < j < path.len() implies path[i] != path[j] by {
        let a = if i <= k { i } else { i - 1 };
        let b = if j <= k { j } else { j - 1 };
        if i != k + 1 && j != k + 1 {
            assert(path[i] == order[a] && path[j] == order[b]);
        } else if i == k + 1 {
            assert(path[j] == order[b]);
        } else {
            assert(path[i] == order[a]);
        }
    }
    assert forall|i: int| 0 <= i < path.len() implies (#[trigger] path[i]) < after.len() by {
        if i <= k {
            assert(path[i] == order[i]);
        } else if i > k + 1 {
            assert(path[i] == order[i - 1]);
        }
    }
}

/// A value put behind the last one: the last node names the spare node, which
/// takes the value.
#[verifier::rlimit(40)]
proof fn lemma_plant_behind<T>(
    mem: Seq<Option<LockedNode<T>>>,
    order: Seq<usize>,
    vals: Seq<T>,
    spare: usize,
    elem: T,
)
    requires
        chained(mem, order, vals),
        vals.len() > 0,
        spare < mem.len(),
        !order.contains(spare),
    ensures
        chained(
            mem.update(
                order.last() as int,
                Some(LockedNode { elem: vals.last(), next: Some(spare) }),
            ).update(spare as int, Some(LockedNode { elem, next: None })),
            order.push(spare),
            vals.push(elem),
        ),
{
    let k = order.len() - 1;
    let after = mem.update(
        order.last() as int,
        Some(LockedNode { elem: vals.last(), next: Some(spare) }),
    ).update(spare as int, Some(LockedNode { elem, next: None }));
    let path = order.push(spare);
    let out = vals.push(elem);
    assert forall|i: int| 0 <= i < order.len() implies order[i] != spare by {
        assert(order.contains(order[i]));
    }
    assert forall|i: int| 0 <= i < path.len() implies after[#[trigger] path[i] as int] == Some(
        LockedNode { elem: out[i], next: link(path, i) },
    ) by {
        if i < k {
            assert(path[i] == order[i]);
            assert(mem[order[i] as int] == Some(LockedNode { elem: vals[i], next: link(order, i) }));
            assert(order[i] != order[k]);
        } else if i == k {
            assert(path[i] == order[k]);
            assert(path[k + 1] == spare);
        } else {
            assert(path[i] == spare);
        }
    }
    assert forall|i: int, j: int| 0 <= i < j < path.len() implies path[i] != path[j] by {
        if j <= k {
            assert(path[i] == order[i] && path[j] == order[j]);
        } else {
            assert(path[i] == order[i]);
        }
    }
    assert forall|i: int| 0 <= i < path.len() implies (#[trigger] path[i]) < after.len() by {
        if i <= k {
            assert(path[i] == order[i]);
        }
    }
}

/// What `add` does at the node where its walk ends keeps the chain a chain:
/// with a spare node that was not in the chain, the nodes afterwards hold the
/// values with `elem` put in at that place, or the same values where nothing
/// was added.
#[verifier::rlimit(40)]
pub proof fn lemma_add_keeps_chain<T: PartialOrd>(
    mem: Seq<Option<LockedNode<T>>>,
    order: Seq<usize>,
    vals: Seq<T>,
    k: int,
    spare: usize,
    elem: T,
    node_after: Option<LockedNode<T>>,
    spare_after: Option<LockedNode<T>>,
    fresh: bool,
    linked: bool,
)
    requires
        chained(mem, order, vals),
        0 <= k < order.len(),
        spare < mem.len(),
        !order.contains(spare),
        look_at(mem[order[k] as int], elem) != LookCase::Onward,
        planted(mem[order[k] as int], node_after, spare_after, spare, elem, fresh, linked),
    ensures
        ({
            let after = planted_nodes(mem, order, k, spare, node_after, spare_after, linked);
            chained(after.0, after.1, planted_values(vals, k, mem[order[k] as int], elem).0)
        }),
{
    let last = mem[order[k] as int];
    let after = planted_nodes(mem, order, k, spare, node_after, spare_after, linked);
    let out = planted_values(vals, k, last, elem).0;
    if vals.len() > 0 {
        assert(last == Some(LockedNode { elem: vals[k], next: link(order, k) }));
    }
    match add_case(value_in(last), has_follower(last), elem) {
        AddCase::Install => {
            assert(out.len() == 1);
            assert(link(after.1, 0) == None::<usize>);
            assert(after.0[0] == Some(LockedNode { elem: out[0], next: link(after.1, 0) }));
        },
        AddCase::Duplicate => {
            assert(after.0 =~= mem);
        },
        AddCase::Before => {
            lemma_plant_before(mem, order, vals, k, spare, elem);
        },
        AddCase::Append => {
            assert(k == order.len() - 1);
            assert(order.insert(k + 1, spare) =~= order.push(spare));
            lemma_plant_behind(mem, order, vals, spare, elem);
        },
        AddCase::Onward => {},
    }
}

/// A node unlinked behind its predecessor leaves a chain without the node's
/// value: the predecessor at position `k - 1` takes over the link of the
/// node at position `k`, which is left empty.
#[verifier::rlimit(40)]
pub proof fn lemma_unlink_keeps_chain<T>(
    mem: Seq<Option<LockedNode<T>>>,
    order: Seq<usize>,
    vals: Seq<T>,
    k: int,
)
    requires
        chained(mem, order, vals),
        0 < k < vals.len(),
    ensures
        chained(
            mem.update(
                order[k - 1] as int,
                Some(
                    LockedNode {
                        elem: mem[order[k - 1] as int].unwrap().elem,
                        next: mem[order[k] as int].unwrap().next,
                    },
                ),
            ).update(order[k] as int, None),
            order.remove(k),
            vals.remove(k),
        ),
{
    let left = order.remove(k);
    let out = vals.remove(k);
    let after = mem.update(
        order[k - 1] as int,
        Some(
            LockedNode {
                elem: mem[order[k - 1] as int].unwrap().elem,
                next: mem[order[k] as int].unwrap().next,
            },
        ),
    ).update(order[k] as int, None);
    assert(mem[order[k] as int] == Some(LockedNode { elem: vals[k], next: link(order, k) }));
    assert(mem[order[k - 1] as int] == Some(
        LockedNode { elem: vals[k - 1], next: link(order, k - 1) },
    ));
    assert forall|i: int| 0 <= i < left.len() implies after[#[trigger] left[i] as int] == Some(
        LockedNode { elem: out[i], next: link(left, i) },
    ) by {
        let a = if i < k { i } else { i + 1 };
        assert(left[i] == order[a]);
        assert(mem[order[a] as int] == Some(LockedNode { elem: vals[a], next: link(order, a) }));
        assert(order[a] != order[k]);
        if a != k - 1 {
            assert(order[a] != order[k - 1]);
        }
    }
    assert forall|i: int, j: int| 0 <= i < j < left.len() implies left[i] != left[j] by {
        let a = if i < k { i } else { i + 1 };
        let b = if j < k { j } else { j + 1 };
        assert(left[i] == order[a] && left[j] == order[b]);
    }
}

/// A head that takes over what its follower holds, the follower being left
/// empty, leaves a chain without the head's old value.
#[verifier::rlimit(40)]
pub proof fn lemma_absorb_keeps_chain<T>(
    mem: Seq<Option<LockedNode<T>>>,
    order: Seq<usize>,
    vals: Seq<T>,
)
    requires
        chained(mem, order, vals),
        vals.len() >= 2,
    ensures
        chained(
            mem.update(0, mem[order[1] as int]).update(order[1] as int, None),
            order.remove(1),
            vals.remove(0),
        ),
{
    let left = order.remove(1);
    let out = vals.remove(0);
    let after = mem.update(0, mem[order[1] as int]).update(order[1] as int, None);
    assert(mem[order[1] as int] == Some(LockedNode { elem: vals[1], next: link(order, 1) }));
    assert(order[0] != order[1]);
    assert forall|i: int| 0 <= i < left.len() implies after[#[trigger] left[i] as int] == Some(
        LockedNode { elem: out[i], next: link(left, i) },
    ) by {
        if i > 0 {
            assert(left[i] == order[i + 1]);
            assert(mem[order[i + 1] as int] == Some(
                LockedNode { elem: vals[i + 1], next: link(order, i + 1) },
            ));
            assert(order[i + 1] != order[1]);
            assert(order[i + 1] != order[0]);
        }
    }
    assert forall|i: int, j: int| 0 <= i < j < left.len() implies left[i] != left[j] by {
        let a = if i < 1 { i } else { i + 1 };
        let b = if j < 1 { j } else { j + 1 };
        assert(left[i] == order[a] && left[j] == order[b]);
    }
}

/// A head that was the only node and is emptied leaves the empty chain.
pub proof fn lemma_clear_keeps_chain<T>(
    mem: Seq<Option<LockedNode<T>>>,
    order: Seq<usize>,
    vals: Seq<T>,
)
    requires
        chained(mem, order, vals),
        vals.len() == 1,
    ensures
        chained(mem.update(0, None), order, vals.remove(0)),
{
}

/// The nodes of a chain after the value at position `k` was removed, and the
/// indices that the chain runs through then.
pub open spec fn unlinked_nodes<T>(mem: Seq<Option<LockedNode<T>>>, order: Seq<usize>, k: int) -> (
    Seq<Option<LockedNode<T>>>,
    Seq<usize>,
) {
    if k > 0 {
        (
            mem.update(
                order[k - 1] as int,
                Some(
                    LockedNode {
                        elem: mem[order[k - 1] as int].unwrap().elem,
                        next: mem[order[k] as int].unwrap().next,
                    },
                ),
            ).update(order[k] as int, None),
            order.remove(k),
        )
    } else if order.len() > 1 {
        (mem.update(0, mem[order[1] as int]).update(order[1] as int, None), order.remove(1))
    } else {
        (mem.update(0, None), order)
    }
}

/// What `remove` does where it finds the value keeps the chain a chain: the
/// nodes afterwards hold the values without the one at that place.
pub proof fn lemma_remove_keeps_chain<T>(
    mem: Seq<Option<LockedNode<T>>>,
    order: Seq<usize>,
    vals: Seq<T>,
    k: int,
)
    requires
        chained(mem, order, vals),
        0 <= k < vals.len(),
    ensures
        chained(unlinked_nodes(mem, order, k).0, unlinked_nodes(mem, order, k).1, vals.remove(k)),
{
    if k > 0 {
        lemma_unlink_keeps_chain(mem, order, vals, k);
    } else if order.len() > 1 {
        lemma_absorb_keeps_chain(mem, order, vals);
    } else {
        lemma_clear_keeps_chain(mem, order, vals);
    }
}

/// `contains`, run while no other thread changes the chain, answers as a
/// set does: a walk that saw the first nodes of a strictly ascending chain
/// and was not cut short found the value just when the chain holds it.
pub proof fn lemma_contains_alone<T: PartialOrd>(
    mem: Seq<Option<LockedNode<T>>>,
    order: Seq<usize>,
    vals: Seq<T>,
    elem: T,
    seen: Seq<Option<LockedNode<T>>>,
    found: bool,
)
    requires
        strict_total_order::<T>(),
        strictly_ascending(vals),
        chained(mem, order, vals),
        0 < seen.len() <= order.len(),
        seen == sight(mem, order, seen.len() as int),
        searched(seen, elem, found),
        look_at(seen.last(), elem) != LookCase::Onward,
    ensures
        found == vals.contains(elem),
{
    lemma_sight_along(mem, order, vals, seen.len() as int);
    lemma_search_along(seen, vals, elem, found);
}

/// `add`, run while no other thread changes the chain, adds as a set does.
/// Of a walk that saw the first nodes of a strictly ascending chain, was not
/// cut short and had a spare node from outside the chain: the value was
/// added just when the chain did not hold it, and the nodes as the walk left
/// them are a chain of the values with `elem` at its place, strictly
/// ascending again.
pub proof fn lemma_add_alone<T: PartialOrd>(
    mem: Seq<Option<LockedNode<T>>>,
    order: Seq<usize>,
    vals: Seq<T>,
    spare: usize,
    elem: T,
    t: AddTrace<T>,
    fresh: bool,
    linked: bool,
)
    requires
        strict_total_order::<T>(),
        strictly_ascending(vals),
        chained(mem, order, vals),
        spare < mem.len(),
        !order.contains(spare),
        0 < t.seen.len() <= order.len(),
        t.seen == sight(mem, order, t.seen.len() as int),
        onward_until_last(t.seen, elem),
        look_at(t.seen.last(), elem) != LookCase::Onward,
        planted(t.seen.last(), t.wrote.last(), t.spare_after, spare, elem, fresh, linked),
    ensures
        fresh == !vals.contains(elem),
        ({
            let k = t.seen.len() - 1;
            let nodes = planted_nodes(mem, order, k, spare, t.wrote.last(), t.spare_after, linked);
            let after = planted_values(vals, k, t.seen.last(), elem).0;
            &&& chained(nodes.0, nodes.1, after)
            &&& added(vals, after, elem, fresh)
            &&& strictly_ascending(after)
        }),
{
    let k = t.seen.len() - 1;
    assert(t.seen.last() == mem[order[k] as int]);
    lemma_sight_along(mem, order, vals, t.seen.len() as int);
    lemma_add_along(t.seen, vals, elem);
    lemma_add_keeps_chain(
        mem,
        order,
        vals,
        k,
        spare,
        elem,
        t.wrote.last(),
        t.spare_after,
        fresh,
        linked,
    );
}

/// `remove`, run while no other thread changes the chain, removes as a set
/// does. Of a walk that saw the first nodes of a strictly ascending chain and
/// went as far as the chain: the value was found just when the chain held
/// it; the nodes with the value's node unlinked are then a chain of the other
/// values, strictly ascending, and hold what the walk wrote; a walk that
/// found nothing changed nothing.
#[verifier::rlimit(40)]
pub proof fn lemma_remove_alone<T: PartialOrd>(
    mem: Seq<Option<LockedNode<T>>>,
    order: Seq<usize>,
    vals: Seq<T>,
    elem: T,
    t: RemoveTrace<T>,
    found: bool,
)
    requires
        strict_total_order::<T>(),
        strictly_ascending(vals),
        chained(mem, order, vals),
        0 < t.seen.len() <= order.len(),
        t.seen == sight(mem, order, t.seen.len() as int),
        unlinked(t.seen, elem, found),
        unlink_at(t.seen.last(), elem) == LookCase::Onward ==> !has_follower(t.seen.last()),
        t.absorbed == if order.len() > 1 {
            mem[order[1] as int]
        } else {
            None
        },
        taken(t, found, has_follower(t.seen[0])),
    ensures
        found == vals.contains(elem),
        !found ==> t.wrote == t.seen,
        found ==> ({
            let k = t.seen.len() - 1;
            let nodes = unlinked_nodes(mem, order, k);
            &&& k < vals.len()
            &&& vals[k] == elem
            &&& chained(nodes.0, nodes.1, vals.remove(k))
            &&& strictly_ascending(vals.remove(k))
            &&& forall|i: int| 0 <= i <= k ==> nodes.0[#[trigger] order[i] as int] == t.wrote[i]
        }),
{
    let k = t.seen.len() - 1;
    lemma_sight_along(mem, order, vals, t.seen.len() as int);
    lemma_remove_along(t.seen, vals, elem, found);
    if found {
        assert(vals.len() > 0) by {
            if vals.len() == 0 {
                assert(!vals.contains(elem));
            }
        }
        lemma_remove_keeps_chain(mem, order, vals, k);
        let nodes = unlinked_nodes(mem, order, k);
        assert forall|i: int| 0 <= i <= k implies nodes.0[#[trigger] order[i] as int]
            == t.wrote[i] by {
            assert(t.seen[i] == mem[order[i] as int]);
            assert(mem[order[i] as int] == Some(LockedNode { elem: vals[i], next: link(order, i) }));
            if k > 0 {
                assert(t.seen[k - 1] == mem[order[k - 1] as int]);
                assert(t.seen[k] == mem[order[k] as int]);
                if i < k - 1 {
                    assert(order[i] != order[k - 1]);
                    assert(order[i] != order[k]);
                } else if i == k - 1 {
                    assert(order[i] != order[k]);
                }
            } else if order.len() > 1 {
                assert(order[0] != order[1]);
                assert(mem[order[0] as int] == Some(
                    LockedNode { elem: vals[0], next: link(order, 0) },
                ));
            }
        }
    }
}

} // verus!

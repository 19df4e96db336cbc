//! The walk of a stored graph, as mathematics.
//!
//! A walk starts from a stack that holds the root, and repeatedly takes the
//! id on top of the stack: an id already seen is skipped; an id under which
//! nothing is stored ends the walk; otherwise the node is visited and the
//! targets of its edges go onto the stack, so that the target listed last is
//! taken next. The executable traversals are specified by these functions,
//! and what holds of every walk is proved about them here.

use vstd::prelude::*;
use crate::node::{ContentView, NodeId, NodeView};
use crate::repo::NodeRepoError;
use crate::store::{well_formed, Store};

verus! {

/// A predicate on tag sets: what a filter computes.
pub type Accept = spec_fn(Set<Seq<char>>) -> bool;

/// The outcome of a walk.
pub struct Walk {
    /// The ids of the nodes visited, in the order of their visit.
    pub order: Seq<NodeId>,
    /// The id at which the walk stopped because no node is stored under it.
    pub missing: Option<NodeId>,
}

/// The stored ids that a walk has not seen yet.
pub open spec fn unseen(store: Store, seen: Set<NodeId>) -> Set<NodeId> {
    store.dom().difference(seen)
}

/// Visiting a stored node that was not seen before leaves fewer unseen ones.
pub proof fn lemma_unseen_shrinks(store: Store, seen: Set<NodeId>, id: NodeId)
    requires
        store.dom().finite(),
        store.contains_key(id),
        !seen.contains(id),
    ensures
        unseen(store, seen.insert(id)).len() < unseen(store, seen).len(),
{
    assert(unseen(store, seen.insert(id)) =~= unseen(store, seen).remove(id));
    assert(unseen(store, seen).contains(id));
}

/// The rest of a walk that has `stack` still to take and has seen `seen`.
pub open spec fn walk_from(store: Store, stack: Seq<NodeId>, seen: Set<NodeId>) -> Walk
    decreases unseen(store, seen).len(), stack.len(),
    when store.dom().finite()
    via walk_from_terminates
{
    if stack.len() == 0 {
        Walk { order: Seq::empty(), missing: None }
    } else {
        let id = stack.last();
        let rest = stack.drop_last();
        if seen.contains(id) {
            walk_from(store, rest, seen)
        } else if !store.contains_key(id) {
            Walk { order: Seq::empty(), missing: Some(id) }
        } else {
            let tail = walk_from(store, rest + store[id].content.targets(), seen.insert(id));
            Walk { order: seq![id] + tail.order, missing: tail.missing }
        }
    }
}

#[via_fn]
proof fn walk_from_terminates(store: Store, stack: Seq<NodeId>, seen: Set<NodeId>) {
    if stack.len() > 0 {
        let id = stack.last();
        if !seen.contains(id) && store.contains_key(id) {
            lemma_unseen_shrinks(store, seen, id);
        }
    }
}

/// The walk of `store` from `root`.
pub open spec fn walk(store: Store, root: NodeId) -> Walk {
    walk_from(store, seq![root], Set::empty())
}

/// Whether a walk that keeps of the leaves those in `chosen` keeps the node
/// stored under `id`. A container is never kept, chosen or not.
pub open spec fn picks(store: Store, chosen: Set<NodeId>, id: NodeId) -> bool {
    store[id].content.is_leaf() && chosen.contains(id)
}

/// The contents that a walk in the order `order` collects when it keeps of
/// the leaves those in `chosen`: the contents of the visited nodes that are
/// kept, in the order of their visit.
pub open spec fn collect_chosen(store: Store, order: Seq<NodeId>, chosen: Set<NodeId>) -> Seq<
    ContentView,
> {
    order.filter(|id: NodeId| picks(store, chosen, id)).map_values(|id: NodeId| store[id].content)
}

/// The ids of the nodes whose tags `accept` accepts.
pub open spec fn accepted(store: Store, accept: Accept) -> Set<NodeId> {
    Set::new(|id: NodeId| accept(store[id].tags))
}

/// The contents that a walk in the order `order` collects when it keeps the
/// leaves whose tags `accept` accepts. The tags of a container are never
/// looked at.
pub open spec fn collect(store: Store, order: Seq<NodeId>, accept: Accept) -> Seq<ContentView> {
    collect_chosen(store, order, accepted(store, accept))
}

/// The nodes that a walk in the order `order` visits.
pub open spec fn nodes_at(store: Store, order: Seq<NodeId>) -> Seq<NodeView> {
    order.map_values(|id: NodeId| store[id])
}

/// How a walk ends: well, or with the id that is missing.
pub open spec fn verdict(w: Walk) -> Result<(), NodeRepoError> {
    match w.missing {
        Some(id) => Err(NodeRepoError::UnknownNodeId(id)),
        None => Ok(()),
    }
}

/// What traversing `store` from `root` yields: the failure, where the walk
/// reaches an id that is missing, and else the collected contents. A failed
/// traversal yields no contents at all.
pub open spec fn traversal(store: Store, root: NodeId, accept: Accept) -> Result<
    Seq<ContentView>,
    NodeRepoError,
> {
    let w = walk(store, root);
    match verdict(w) {
        Err(e) => Err(e),
        Ok(_) => Ok(collect(store, w.order, accept)),
    }
}

/// The predicate that accepts every tag set, the empty one too.
pub open spec fn accept_all() -> Accept {
    |tags: Set<Seq<char>>| true
}

/// The predicate that accepts the tag sets of which `tag` is a member.
pub open spec fn match_tag(tag: Seq<char>) -> Accept {
    |tags: Set<Seq<char>>| tags.contains(tag)
}

/// Whether a walk `whole` is made of the visits in `order` followed by the
/// walk `rest`: the state of a walk that is under way.
pub open spec fn continues(whole: Walk, order: Seq<NodeId>, rest: Walk) -> bool {
    whole.order == order + rest.order && whole.missing == rest.missing
}

/// A walk is under way from its start, with nothing visited yet.
pub proof fn lemma_walk_starts(store: Store, root: NodeId)
    ensures
        continues(walk(store, root), Seq::empty(), walk_from(store, seq![root], Set::empty())),
{
    assert(Seq::<NodeId>::empty() + walk(store, root).order =~= walk(store, root).order);
}

/// One step of a walk that is under way, for each of the three things that
/// the id on top of the stack can be: seen before, missing from the store, or
/// a stored node to visit.
pub proof fn lemma_walk_steps(
    store: Store,
    stack: Seq<NodeId>,
    seen: Set<NodeId>,
    whole: Walk,
    order: Seq<NodeId>,
)
    requires
        store.dom().finite(),
        stack.len() > 0,
        continues(whole, order, walk_from(store, stack, seen)),
    ensures
        seen.contains(stack.last()) ==> continues(
            whole,
            order,
            walk_from(store, stack.drop_last(), seen),
        ),
        !seen.contains(stack.last()) && !store.contains_key(stack.last()) ==> whole.order == order
            && whole.missing == Some(stack.last()),
        !seen.contains(stack.last()) && store.contains_key(stack.last()) ==> {
            &&& continues(
                whole,
                order.push(stack.last()),
                walk_from(
                    store,
                    stack.drop_last() + store[stack.last()].content.targets(),
                    seen.insert(stack.last()),
                ),
            )
            &&& unseen(store, seen.insert(stack.last())).len() < unseen(store, seen).len()
        },
{
    let id = stack.last();
    if !seen.contains(id) {
        if store.contains_key(id) {
            let tail = walk_from(
                store,
                stack.drop_last() + store[id].content.targets(),
                seen.insert(id),
            );
            lemma_unseen_shrinks(store, seen, id);
            assert(order.push(id) + tail.order =~= order + (seq![id] + tail.order));
        } else {
            assert(order + Seq::<NodeId>::empty() =~= order);
        }
    }
}

/// A walk that is under way with an empty stack is over: all of it is
/// visited, and no id was missing.
pub proof fn lemma_walk_ends(store: Store, seen: Set<NodeId>, whole: Walk, order: Seq<NodeId>)
    requires
        store.dom().finite(),
        continues(whole, order, walk_from(store, Seq::empty(), seen)),
    ensures
        whole.order == order,
        whole.missing is None,
{
    assert(order + Seq::<NodeId>::empty() =~= order);
}

/// Nothing is collected before the first visit.
pub proof fn lemma_collect_nothing(store: Store, chosen: Set<NodeId>)
    ensures
        collect_chosen(store, Seq::empty(), chosen) == Seq::<ContentView>::empty(),
{
    assert(collect_chosen(store, Seq::empty(), chosen) =~= Seq::<ContentView>::empty());
}

/// Visiting one more node adds its content to what is collected exactly when
/// the node is kept.
pub proof fn lemma_collect_push(store: Store, order: Seq<NodeId>, chosen: Set<NodeId>, id: NodeId)
    ensures
        collect_chosen(store, order.push(id), chosen) == if picks(store, chosen, id) {
            collect_chosen(store, order, chosen).push(store[id].content)
        } else {
            collect_chosen(store, order, chosen)
        },
{
    let pred = |id: NodeId| picks(store, chosen, id);
    let content = |id: NodeId| store[id].content;
    Seq::lemma_filter_push(order, id, pred);
    if picks(store, chosen, id) {
        assert(order.filter(pred).push(id).map_values(content) =~= order.filter(pred).map_values(
            content,
        ).push(store[id].content));
    }
}

/// What is collected depends on the choice at the visited nodes only.
pub proof fn lemma_collect_agrees(
    store: Store,
    order: Seq<NodeId>,
    one: Set<NodeId>,
    other: Set<NodeId>,
)
    requires
        forall|i: int|
            0 <= i < order.len() ==> picks(store, one, #[trigger] order[i]) == picks(
                store,
                other,
                order[i],
            ),
    ensures
        collect_chosen(store, order, one) == collect_chosen(store, order, other),
    decreases order.len(),
{
    if order.len() == 0 {
        lemma_collect_nothing(store, one);
        lemma_collect_nothing(store, other);
        assert(order =~= Seq::empty());
    } else {
        let front = order.drop_last();
        let id = order.last();
        assert(order =~= front.push(id));
        assert forall|i: int| 0 <= i < front.len() implies picks(store, one, #[trigger] front[i])
            == picks(store, other, front[i]) by {
            assert(front[i] == order[i]);
        }
        assert(picks(store, one, order[order.len() - 1]) == picks(
            store,
            other,
            order[order.len() - 1],
        ));
        lemma_collect_agrees(store, front, one, other);
        lemma_collect_push(store, front, one, id);
        lemma_collect_push(store, front, other, id);
    }
}

/// What holds of the rest of a walk: it visits stored nodes only, none that
/// was seen before and none twice, and where it stops at an id, nothing is
/// stored under that id.
pub proof fn lemma_walk_from_visits_once(store: Store, stack: Seq<NodeId>, seen: Set<NodeId>)
    requires
        store.dom().finite(),
    ensures
        walk_from(store, stack, seen).order.no_duplicates(),
        forall|i: int|
            0 <= i < walk_from(store, stack, seen).order.len() ==> {
                &&& store.contains_key(#[trigger] walk_from(store, stack, seen).order[i])
                &&& !seen.contains(walk_from(store, stack, seen).order[i])
            },
        walk_from(store, stack, seen).missing matches Some(id) ==> !store.contains_key(id),
    decreases unseen(store, seen).len(), stack.len(),
{
    if stack.len() > 0 {
        let id = stack.last();
        let rest = stack.drop_last();
        if seen.contains(id) {
            lemma_walk_from_visits_once(store, rest, seen);
        } else if store.contains_key(id) {
            let next = rest + store[id].content.targets();
            lemma_unseen_shrinks(store, seen, id);
            lemma_walk_from_visits_once(store, next, seen.insert(id));
            let tail = walk_from(store, next, seen.insert(id));
            let order = walk_from(store, stack, seen).order;
            assert(order == seq![id] + tail.order);
            assert forall|i: int, j: int| 0 <= i < order.len() && 0 <= j < order.len() && i != j
                implies order[i] != order[j] by {
                if i > 0 {
                    assert(order[i] == tail.order[i - 1]);
                }
                if j > 0 {
                    assert(order[j] == tail.order[j - 1]);
                }
            }
            assert forall|i: int| 0 <= i < order.len() implies store.contains_key(
                #[trigger] order[i],
            ) && !seen.contains(order[i]) by {
                if i > 0 {
                    assert(order[i] == tail.order[i - 1]);
                }
            }
        }
    }
}

/// A walk ends, whatever cycles the graph holds, and visits no node twice:
/// the ids in its order are distinct and stored, so there are no more of them
/// than nodes in the store. Where it stops at an id, nothing is stored under
/// that id.
pub proof fn lemma_walk_visits_once(store: Store, root: NodeId)
    requires
        store.dom().finite(),
    ensures
        walk(store, root).order.no_duplicates(),
        forall|i: int|
            0 <= i < walk(store, root).order.len() ==> store.contains_key(
                #[trigger] walk(store, root).order[i],
            ),
        walk(store, root).order.len() <= store.dom().len(),
        walk(store, root).missing matches Some(id) ==> !store.contains_key(id),
{
    lemma_walk_from_visits_once(store, seq![root], Set::empty());
    let order = walk(store, root).order;
    order.unique_seq_to_set();
    assert forall|id: NodeId| order.to_set().contains(id) implies store.dom().contains(id) by {
        let i = choose|i: int| 0 <= i < order.len() && order[i] == id;
        assert(store.contains_key(order[i]));
    }
    vstd::set_lib::lemma_len_subset(order.to_set(), store.dom());
}

/// In a well-formed store the nodes that a walk visits are distinct nodes:
/// each has the id under which the walk found it, and no two have one id.
pub proof fn lemma_walk_visits_distinct_nodes(store: Store, root: NodeId)
    requires
        well_formed(store),
    ensures
        forall|i: int|
            0 <= i < walk(store, root).order.len() ==> (#[trigger] nodes_at(
                store,
                walk(store, root).order,
            )[i]).id == walk(store, root).order[i],
        forall|i: int, j: int|
            0 <= i < j < walk(store, root).order.len() ==> (#[trigger] nodes_at(
                store,
                walk(store, root).order,
            )[i]).id != (#[trigger] nodes_at(store, walk(store, root).order)[j]).id,
{
    lemma_walk_visits_once(store, root);
}

/// Whatever the graph and the choice among its leaves, a walk collects
/// payloads only: no content that it yields is a list of edges.
pub proof fn lemma_collect_leaves_only(store: Store, order: Seq<NodeId>, chosen: Set<NodeId>)
    ensures
        forall|i: int|
            0 <= i < collect_chosen(store, order, chosen).len() ==> (#[trigger] collect_chosen(
                store,
                order,
                chosen,
            )[i]).is_leaf(),
{
    let pred = |id: NodeId| picks(store, chosen, id);
    let kept = order.filter(pred);
    assert forall|i: int| 0 <= i < collect_chosen(store, order, chosen).len() implies (
    #[trigger] collect_chosen(store, order, chosen)[i]).is_leaf() by {
        order.lemma_filter_pred(pred, i);
        assert(pred(kept[i]));
    }
}

} // verus!

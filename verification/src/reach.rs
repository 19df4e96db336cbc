//! Reachability along edges, and that a walk visits what is reachable.

use vstd::prelude::*;
use crate::node::NodeId;
use crate::store::Store;
use crate::walk::{lemma_unseen_shrinks, unseen, walk, walk_from};

verus! {

/// Whether the graph has an edge from `from` to `to`: a container is stored
/// under `from`, and it lists `to`.
pub open spec fn has_edge(store: Store, from: NodeId, to: NodeId) -> bool {
    store.contains_key(from) && store[from].content.targets().contains(to)
}

/// Whether `path` follows edges of the graph, from each of its ids to the
/// next.
pub open spec fn follows_edges(store: Store, path: Seq<NodeId>) -> bool {
    forall|i: int| 0 <= i < path.len() - 1 ==> #[trigger] has_edge(store, path[i], path[i + 1])
}

/// Whether edges lead from `from` to `to`, in any number of steps; every id
/// is reachable from itself.
pub open spec fn reachable(store: Store, from: NodeId, to: NodeId) -> bool {
    exists|path: Seq<NodeId>|
        path.len() > 0 && path.first() == from && path.last() == to && #[trigger] follows_edges(
            store,
            path,
        )
}

/// Whether `to` is reachable from one of `starts`.
pub open spec fn reachable_from_any(store: Store, starts: Seq<NodeId>, to: NodeId) -> bool {
    exists|k: int| 0 <= k < starts.len() && reachable(store, #[trigger] starts[k], to)
}

/// Every id is reachable from itself.
pub proof fn lemma_reachable_self(store: Store, id: NodeId)
    ensures
        reachable(store, id, id),
{
    let path = seq![id];
    assert(follows_edges(store, path));
    assert(path.first() == id && path.last() == id);
}

/// What is reachable from the far end of an edge is reachable from its near
/// end.
pub proof fn lemma_reachable_step(store: Store, id: NodeId, target: NodeId, to: NodeId)
    requires
        has_edge(store, id, target),
        reachable(store, target, to),
    ensures
        reachable(store, id, to),
{
    let rest = choose|path: Seq<NodeId>|
        path.len() > 0 && path.first() == target && path.last() == to && #[trigger] follows_edges(
            store,
            path,
        );
    let path = seq![id] + rest;
    assert forall|i: int| 0 <= i < path.len() - 1 implies #[trigger] has_edge(
        store,
        path[i],
        path[i + 1],
    ) by {
        if i > 0 {
            assert(path[i] == rest[i - 1]);
            assert(path[i + 1] == rest[i]);
            assert(has_edge(store, rest[i - 1], rest[i - 1 + 1]));
        } else {
            assert(path[0] == id);
            assert(path[1] == rest[0]);
        }
    }
    assert(follows_edges(store, path));
    assert(path.first() == id && path.last() == to);
}

/// What is reachable from one of `starts` is reachable from one of any
/// sequence that holds every id of `starts`.
proof fn lemma_reachable_from_more(store: Store, starts: Seq<NodeId>, more: Seq<NodeId>, to: NodeId)
    requires
        reachable_from_any(store, starts, to),
        forall|k: int| 0 <= k < starts.len() ==> more.contains(#[trigger] starts[k]),
    ensures
        reachable_from_any(store, more, to),
{
    let k = choose|k: int| 0 <= k < starts.len() && reachable(store, #[trigger] starts[k], to);
    assert(more.contains(starts[k]));
    let m = choose|m: int| 0 <= m < more.len() && more[m] == starts[k];
    assert(reachable(store, more[m], to));
}

/// What is reachable from the stack of the next step of a walk, after a
/// visit of the id on top, was reachable from the stack before.
proof fn lemma_reachable_after_visit(store: Store, stack: Seq<NodeId>, to: NodeId)
    requires
        stack.len() > 0,
        store.contains_key(stack.last()),
        reachable_from_any(
            store,
            stack.drop_last() + store[stack.last()].content.targets(),
            to,
        ),
    ensures
        reachable_from_any(store, stack, to),
{
    let id = stack.last();
    let rest = stack.drop_last();
    let targets = store[id].content.targets();
    let next = rest + targets;
    let k = choose|k: int| 0 <= k < next.len() && reachable(store, #[trigger] next[k], to);
    if k < rest.len() {
        assert(stack[k] == next[k]);
    } else {
        assert(next[k] == targets[k - rest.len()]);
        assert(has_edge(store, id, next[k]));
        lemma_reachable_step(store, id, next[k], to);
        assert(stack[stack.len() - 1] == id);
    }
}

/// The rest of a walk visits only what is reachable from its stack, and
/// where it stops at an id, that id is reachable from its stack.
pub proof fn lemma_walk_from_stays_in_reach(store: Store, stack: Seq<NodeId>, seen: Set<NodeId>)
    requires
        store.dom().finite(),
    ensures
        forall|i: int|
            0 <= i < walk_from(store, stack, seen).order.len() ==> reachable_from_any(
                store,
                stack,
                #[trigger] walk_from(store, stack, seen).order[i],
            ),
        walk_from(store, stack, seen).missing matches Some(id) ==> reachable_from_any(
            store,
            stack,
            id,
        ),
    decreases unseen(store, seen).len(), stack.len(),
{
    if stack.len() > 0 {
        let id = stack.last();
        let rest = stack.drop_last();
        let w = walk_from(store, stack, seen);
        assert(reachable_from_any(store, stack, id)) by {
            lemma_reachable_self(store, id);
            assert(stack[stack.len() - 1] == id);
        }
        if seen.contains(id) {
            lemma_walk_from_stays_in_reach(store, rest, seen);
            assert forall|k: int| 0 <= k < rest.len() implies stack.contains(#[trigger] rest[k]) by {
                assert(stack[k] == rest[k]);
            }
            assert forall|i: int| 0 <= i < w.order.len() implies reachable_from_any(
                store,
                stack,
                #[trigger] w.order[i],
            ) by {
                lemma_reachable_from_more(store, rest, stack, w.order[i]);
            }
            if w.missing is Some {
                lemma_reachable_from_more(store, rest, stack, w.missing.unwrap());
            }
        } else if store.contains_key(id) {
            let next = rest + store[id].content.targets();
            lemma_unseen_shrinks(store, seen, id);
            lemma_walk_from_stays_in_reach(store, next, seen.insert(id));
            let tail = walk_from(store, next, seen.insert(id));
            assert(w.order == seq![id] + tail.order);
            assert forall|i: int| 0 <= i < w.order.len() implies reachable_from_any(
                store,
                stack,
                #[trigger] w.order[i],
            ) by {
                if i > 0 {
                    assert(w.order[i] == tail.order[i - 1]);
                    lemma_reachable_after_visit(store, stack, tail.order[i - 1]);
                }
            }
            if w.missing is Some {
                lemma_reachable_after_visit(store, stack, w.missing.unwrap());
            }
        }
    }
}

/// The last place at which `id` occurs on a path that holds it.
proof fn lemma_last_occurrence(path: Seq<NodeId>, id: NodeId) -> (k: int)
    requires
        path.contains(id),
    ensures
        0 <= k < path.len(),
        path[k] == id,
        forall|j: int| k < j < path.len() ==> path[j] != id,
    decreases path.len(),
{
    if path.last() == id {
        path.len() - 1
    } else {
        let i = choose|i: int| 0 <= i < path.len() && path[i] == id;
        let shorter = path.drop_last();
        assert(shorter[i] == id);
        let k = lemma_last_occurrence(shorter, id);
        assert forall|j: int| k < j < path.len() implies path[j] != id by {
            if j < shorter.len() {
                assert(path[j] == shorter[j]);
            }
        }
        k
    }
}

/// The part of a path behind one of its places follows edges as the path
/// does, and starts at the far end of an edge from that place.
proof fn lemma_path_onward(store: Store, path: Seq<NodeId>, k: int)
    requires
        follows_edges(store, path),
        0 <= k < path.len() - 1,
    ensures
        follows_edges(store, path.subrange(k + 1, path.len() as int)),
        has_edge(store, path[k], path.subrange(k + 1, path.len() as int).first()),
        path.subrange(k + 1, path.len() as int).last() == path.last(),
{
    let onward = path.subrange(k + 1, path.len() as int);
    assert(has_edge(store, path[k], path[k + 1]));
    assert forall|i: int| 0 <= i < onward.len() - 1 implies #[trigger] has_edge(
        store,
        onward[i],
        onward[i + 1],
    ) by {
        assert(onward[i] == path[k + 1 + i]);
        assert(onward[i + 1] == path[k + 1 + i + 1]);
        assert(has_edge(store, path[k + 1 + i], path[k + 1 + i + 1]));
    }
}

/// A walk that does not stop at a missing id visits the end of every path
/// that starts on its stack and holds no id seen before.
pub proof fn lemma_walk_from_covers(
    store: Store,
    stack: Seq<NodeId>,
    seen: Set<NodeId>,
    path: Seq<NodeId>,
)
    requires
        store.dom().finite(),
        walk_from(store, stack, seen).missing is None,
        path.len() > 0,
        stack.contains(path.first()),
        follows_edges(store, path),
        forall|i: int| 0 <= i < path.len() ==> !seen.contains(#[trigger] path[i]),
    ensures
        walk_from(store, stack, seen).order.contains(path.last()),
    decreases unseen(store, seen).len(), stack.len(),
{
    let id = stack.last();
    let rest = stack.drop_last();
    let w = walk_from(store, stack, seen);
    let at = choose|i: int| 0 <= i < stack.len() && stack[i] == path.first();
    assert(!seen.contains(path[0]));
    if seen.contains(id) {
        assert(rest[at] == path.first());
        lemma_walk_from_covers(store, rest, seen, path);
    } else {
        let targets = store[id].content.targets();
        let next = rest + targets;
        let tail = walk_from(store, next, seen.insert(id));
        lemma_unseen_shrinks(store, seen, id);
        assert(w.order == seq![id] + tail.order);
        assert(w.order[0] == id);
        assert forall|i: int| 0 <= i < tail.order.len() implies w.order.contains(
            #[trigger] tail.order[i],
        ) by {
            assert(w.order[i + 1] == tail.order[i]);
        }
        if path.contains(id) {
            let k = lemma_last_occurrence(path, id);
            if k < path.len() - 1 {
                let onward = path.subrange(k + 1, path.len() as int);
                lemma_path_onward(store, path, k);
                let t = choose|t: int| 0 <= t < targets.len() && targets[t] == onward.first();
                assert(next[rest.len() + t] == onward.first());
                assert forall|i: int| 0 <= i < onward.len() implies !seen.insert(id).contains(
                    #[trigger] onward[i],
                ) by {
                    assert(onward[i] == path[k + 1 + i]);
                    assert(!seen.contains(path[k + 1 + i]));
                }
                lemma_walk_from_covers(store, next, seen.insert(id), onward);
            }
        } else {
            assert forall|i: int| 0 <= i < path.len() implies !seen.insert(id).contains(
                #[trigger] path[i],
            ) by {
                assert(path.contains(path[i]));
                assert(!seen.contains(path[i]));
            }
            assert(next[at] == path.first());
            lemma_walk_from_covers(store, next, seen.insert(id), path);
        }
    }
}

/// A walk stays within what is reachable from the root, and a walk that does
/// not stop at a missing id visits all of it: its order holds exactly the ids
/// that are reachable from the root.
pub proof fn lemma_walk_visits_the_reachable(store: Store, root: NodeId)
    requires
        store.dom().finite(),
    ensures
        forall|id: NodeId| walk(store, root).order.contains(id) ==> reachable(store, root, id),
        walk(store, root).missing matches Some(id) ==> reachable(store, root, id),
        walk(store, root).missing is None ==> forall|id: NodeId|
            reachable(store, root, id) ==> walk(store, root).order.contains(id),
{
    let stack = seq![root];
    let w = walk(store, root);
    lemma_walk_from_stays_in_reach(store, stack, Set::empty());
    assert forall|id: NodeId| reachable_from_any(store, stack, id) implies reachable(
        store,
        root,
        id,
    ) by {
        let k = choose|k: int| 0 <= k < stack.len() && reachable(store, #[trigger] stack[k], id);
        assert(stack[k] == root);
    }
    assert forall|id: NodeId| w.order.contains(id) implies reachable(store, root, id) by {
        let i = choose|i: int| 0 <= i < w.order.len() && w.order[i] == id;
        assert(reachable_from_any(store, stack, w.order[i]));
    }
    if w.missing is None {
        assert forall|id: NodeId| reachable(store, root, id) implies w.order.contains(id) by {
            let path = choose|path: Seq<NodeId>|
                path.len() > 0 && path.first() == root && path.last() == id
                    && #[trigger] follows_edges(store, path);
            assert(stack[0] == path.first());
            lemma_walk_from_covers(store, stack, Set::empty(), path);
        }
    }
}

} // verus!

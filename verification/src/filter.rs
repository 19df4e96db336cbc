//! What a filter is to a traversal: a function from tag sets to answers.
//!
//! A filter is an executable function value, so all that is known of it is
//! its contract. Where that contract fixes the answer as a predicate of the
//! tag set, the filter computes that predicate. Where it leaves the answer
//! open, a traversal still keeps each leaf as the filter answered for it: the
//! leaves kept are a choice that the filter may make.

use vstd::prelude::*;
use crate::node::{ContentView, NodeId};
use crate::store::Store;
use crate::tags::TagSet;
use crate::walk::{
    accepted, collect, collect_chosen, lemma_collect_agrees, lemma_collect_push, picks, Accept,
};

verus! {

/// Whether `filter` can be called on every tag set.
pub open spec fn total<F: Fn(TagSet) -> bool>(filter: F) -> bool {
    forall|tags: TagSet| #[trigger] filter.requires((tags,))
}

/// Whether `filter` computes `accept`: whatever it returns for a tag set is
/// the value of `accept` on that set.
pub open spec fn computes<F: Fn(TagSet) -> bool>(filter: F, accept: Accept) -> bool {
    forall|tags: TagSet, kept: bool| #[trigger]
        filter.ensures((tags,), kept) ==> kept == accept(tags@)
}

/// Whether `filter` may answer `kept` when it is asked about a tag set with
/// the value `tags`.
pub open spec fn answers<F: Fn(TagSet) -> bool>(
    filter: F,
    tags: Set<Seq<char>>,
    kept: bool,
) -> bool {
    exists|asked: TagSet| #[trigger] filter.ensures((asked,), kept) && asked@ == tags
}

/// Whether `chosen` is a choice that `filter` may make on a walk in the order
/// `order`: of each leaf visited, `filter` may answer that it is kept if it
/// is in `chosen`, and that it is not if it is not. Only visited nodes are
/// chosen.
pub open spec fn chooses<F: Fn(TagSet) -> bool>(
    filter: F,
    store: Store,
    order: Seq<NodeId>,
    chosen: Set<NodeId>,
) -> bool {
    &&& forall|id: NodeId| chosen.contains(id) ==> order.contains(id)
    &&& forall|i: int|
        0 <= i < order.len() && store[#[trigger] order[i]].content.is_leaf() ==> answers(
            filter,
            store[order[i]].tags,
            chosen.contains(order[i]),
        )
}

/// Whether a walk in the order `order` that asks `filter` about each leaf may
/// collect `found`: `found` holds the contents of the leaves of some choice
/// that `filter` may make, in the order of their visit.
pub open spec fn may_collect<F: Fn(TagSet) -> bool>(
    filter: F,
    store: Store,
    order: Seq<NodeId>,
    found: Seq<ContentView>,
) -> bool {
    exists|chosen: Set<NodeId>| #[trigger]
        chooses(filter, store, order, chosen) && found == collect_chosen(store, order, chosen)
}

/// The choice of a filter that computes a predicate is that of the predicate.
pub proof fn lemma_choice_of_computed<F: Fn(TagSet) -> bool>(
    filter: F,
    store: Store,
    order: Seq<NodeId>,
    chosen: Set<NodeId>,
    accept: Accept,
)
    requires
        computes(filter, accept),
        chooses(filter, store, order, chosen),
    ensures
        collect_chosen(store, order, chosen) == collect(store, order, accept),
{
    assert forall|i: int| 0 <= i < order.len() implies picks(store, chosen, #[trigger] order[i])
        == picks(store, accepted(store, accept), order[i]) by {
        if store[order[i]].content.is_leaf() {
            assert(answers(filter, store[order[i]].tags, chosen.contains(order[i])));
        }
    }
    lemma_collect_agrees(store, order, chosen, accepted(store, accept));
}

/// A walk that visits a container next chooses and collects as before.
pub proof fn lemma_visit_container<F: Fn(TagSet) -> bool>(
    filter: F,
    store: Store,
    order: Seq<NodeId>,
    chosen: Set<NodeId>,
    id: NodeId,
)
    requires
        chooses(filter, store, order, chosen),
        !store[id].content.is_leaf(),
    ensures
        chooses(filter, store, order.push(id), chosen),
        collect_chosen(store, order.push(id), chosen) == collect_chosen(store, order, chosen),
{
    let longer = order.push(id);
    assert forall|x: NodeId| chosen.contains(x) implies longer.contains(x) by {
        let i = choose|i: int| 0 <= i < order.len() && order[i] == x;
        assert(longer[i] == x);
    }
    assert forall|i: int|
        0 <= i < longer.len() && store[#[trigger] longer[i]].content.is_leaf() implies answers(
        filter,
        store[longer[i]].tags,
        chosen.contains(longer[i]),
    ) by {
        assert(longer[i] == order[i]);
    }
    lemma_collect_push(store, order, chosen, id);
}

/// A walk that visits a leaf next, one not visited before, and keeps it as
/// the filter answered, chooses it or not accordingly, and collects its
/// content if it is kept.
pub proof fn lemma_visit_leaf<F: Fn(TagSet) -> bool>(
    filter: F,
    store: Store,
    order: Seq<NodeId>,
    chosen: Set<NodeId>,
    id: NodeId,
    asked: TagSet,
    kept: bool,
)
    requires
        chooses(filter, store, order, chosen),
        !order.contains(id),
        store[id].content.is_leaf(),
        filter.ensures((asked,), kept),
        asked@ == store[id].tags,
    ensures
        chooses(filter, store, order.push(id), if kept { chosen.insert(id) } else { chosen }),
        collect_chosen(store, order.push(id), if kept { chosen.insert(id) } else { chosen })
            == if kept {
            collect_chosen(store, order, chosen).push(store[id].content)
        } else {
            collect_chosen(store, order, chosen)
        },
{
    let longer = order.push(id);
    let next = if kept { chosen.insert(id) } else { chosen };
    assert(longer[order.len() as int] == id);
    assert forall|x: NodeId| next.contains(x) implies longer.contains(x) by {
        if x != id {
            let i = choose|i: int| 0 <= i < order.len() && order[i] == x;
            assert(longer[i] == x);
        }
    }
    assert forall|i: int|
        0 <= i < longer.len() && store[#[trigger] longer[i]].content.is_leaf() implies answers(
        filter,
        store[longer[i]].tags,
        next.contains(longer[i]),
    ) by {
        if i < order.len() {
            assert(longer[i] == order[i]);
            assert(order.contains(order[i]));
        }
    }
    assert forall|i: int| 0 <= i < order.len() implies picks(store, next, #[trigger] order[i])
        == picks(store, chosen, order[i]) by {
        assert(order.contains(order[i]));
    }
    lemma_collect_agrees(store, order, next, chosen);
    lemma_collect_push(store, order, next, id);
}

} // verus!

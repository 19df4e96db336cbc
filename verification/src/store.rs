//! What a repository holds, as mathematics: a finite map from ids to nodes,
//! and what a lookup and an insertion do to it.

use vstd::prelude::*;
use crate::node::{NodeId, NodeView};

verus! {

/// What a repository holds: the node stored under each id.
pub type Store = Map<NodeId, NodeView>;

/// What holds of the store of every repository: it holds finitely many
/// nodes, and each stands under its own id.
pub open spec fn well_formed(store: Store) -> bool {
    &&& store.dom().finite()
    &&& forall|id: NodeId| store.contains_key(id) ==> (#[trigger] store[id]).id == id
}

/// What `store` holds under `id`, if anything.
pub open spec fn lookup(store: Store, id: NodeId) -> Option<NodeView> {
    if store.contains_key(id) {
        Some(store[id])
    } else {
        None
    }
}

/// The store after `node` was put into `store`: `node` stands under its id,
/// in place of what stood there, and every other entry is as before.
pub open spec fn stored(store: Store, node: NodeView) -> Store {
    store.insert(node.id, node)
}

/// The store after each node of `nodes` was put into `store`, in turn.
pub open spec fn stored_all(store: Store, nodes: Seq<NodeView>) -> Store
    decreases nodes.len(),
{
    if nodes.len() == 0 {
        store
    } else {
        stored(stored_all(store, nodes.drop_last()), nodes.last())
    }
}

/// The empty store is well formed, and putting a node keeps a store so.
pub proof fn lemma_put_keeps_well_formed(store: Store, node: NodeView)
    ensures
        well_formed(Store::empty()),
        well_formed(store) ==> well_formed(stored(store, node)),
{
}

/// A node that was put is found under its id, as it was put.
pub proof fn lemma_put_then_get(store: Store, node: NodeView)
    ensures
        lookup(stored(store, node), node.id) == Some(node),
{
}

/// Of two nodes put under one id, the later one replaces the earlier one
/// wholly: the store is as if the earlier had never been put, and a lookup
/// finds the later.
pub proof fn lemma_put_overwrites(store: Store, earlier: NodeView, later: NodeView)
    requires
        earlier.id == later.id,
    ensures
        stored(stored(store, earlier), later) == stored(store, later),
        lookup(stored(stored(store, earlier), later), earlier.id) == Some(later),
        later != earlier ==> lookup(stored(stored(store, earlier), later), earlier.id) != Some(
            earlier,
        ),
{
    assert(stored(stored(store, earlier), later) =~= stored(store, later));
}

/// Putting a node changes nothing under any other id.
pub proof fn lemma_put_keeps_others(store: Store, node: NodeView, id: NodeId)
    requires
        id != node.id,
    ensures
        lookup(stored(store, node), id) == lookup(store, id),
{
}

/// Under an id that no put has named, nothing is found: neither in the empty
/// store nor after any number of puts of nodes with other ids.
pub proof fn lemma_never_put_is_absent(nodes: Seq<NodeView>, id: NodeId)
    requires
        forall|i: int| 0 <= i < nodes.len() ==> (#[trigger] nodes[i]).id != id,
    ensures
        lookup(stored_all(Store::empty(), nodes), id) is None,
    decreases nodes.len(),
{
    if nodes.len() > 0 {
        lemma_never_put_is_absent(nodes.drop_last(), id);
        assert(nodes.last() == nodes[nodes.len() - 1]);
    }
}

} // verus!

//! Repositories: stores of nodes by id, and the traversals over them.

use vstd::prelude::*;
use std::collections::HashMap;
use std::collections::HashSet;
use crate::node::{content_views, node_views, Content, ContentView, Node, NodeId};
use crate::tags::TagSet;
use crate::store::{lookup, stored, well_formed, Store};
use crate::filter::{
    chooses, computes, lemma_choice_of_computed, lemma_visit_container, lemma_visit_leaf,
    may_collect, total,
};
use crate::walk::{
    accept_all, collect, collect_chosen, continues, lemma_collect_leaves_only,
    lemma_collect_nothing, lemma_walk_ends, lemma_walk_starts, lemma_walk_steps,
    lemma_walk_visits_once, match_tag, nodes_at, traversal, unseen, verdict, walk, walk_from,
    Accept,
};

verus! {

/// Why an operation of a repository failed.
#[derive(Debug)]
pub enum NodeRepoError {
    /// An edge points at this id, and no node is stored under it.
    UnknownNodeId(NodeId),
    /// A fault that has no class of its own.
    Unknown,
}

/// The result of a traversal, with each content as its value.
pub open spec fn found_view(r: Result<Vec<Content>, NodeRepoError>) -> Result<
    Seq<ContentView>,
    NodeRepoError,
> {
    match r {
        Ok(found) => Ok(content_views(found@)),
        Err(e) => Err(e),
    }
}

/// A store of nodes by id with a fixed root, and the traversals from that
/// root.
///
/// An implementation says what it holds (`store`), where walks start
/// (`root_id`) and whether its lookups and insertions can fail
/// (`infallible`). The traversals are written once, against these.
pub trait NodeRepo: Sized {
    /// The node stored under each id.
    spec fn store(&self) -> Store;

    /// The id at which every traversal starts.
    spec fn root_id(&self) -> NodeId;

    /// Whether `get` and `put` of this kind of repository always succeed.
    spec fn infallible() -> bool;

    /// The store of a repository is well formed: it holds finitely many
    /// nodes, each under its own id.
    proof fn lemma_store_well_formed(&self)
        ensures
            well_formed(self.store()),
    ;

    /// The id of the root node.
    fn root(&self) -> (r: NodeId)
        ensures
            r == self.root_id(),
    ;

    /// A copy of the node stored under `id`, or `None` where there is none.
    /// That no node is stored is an answer, not a failure.
    fn get(&self, id: &NodeId) -> (r: Result<Option<Node>, NodeRepoError>)
        ensures
            Self::infallible() ==> r is Ok,
            r matches Ok(found) ==> match found {
                Some(n) => lookup(self.store(), *id) == Some(n@) && n.id == *id,
                None => lookup(self.store(), *id) is None,
            },
    ;

    /// Stores a copy of `node` under its id, in place of what was stored
    /// there. A failed call leaves the store as it was.
    fn put(&mut self, node: &Node) -> (r: Result<(), NodeRepoError>)
        ensures
            Self::infallible() ==> r is Ok,
            final(self).root_id() == old(self).root_id(),
            final(self).store() == if r is Ok {
                stored(old(self).store(), node@)
            } else {
                old(self).store()
            },
    ;

    /// Walks the graph from the root and returns the contents of the leaves
    /// whose tags `filter` accepts, in the order of their visit.
    ///
    /// The walk takes ids from a stack, so it goes depth first, and of the
    /// targets of a container the one listed last is visited first. A node is
    /// visited once, however many edges lead to it, so the walk ends on every
    /// graph. Containers are expanded and never filtered; leaves are filtered
    /// and never expanded. An edge to an id under which nothing is stored
    /// fails the whole traversal with that id, and nothing is returned of
    /// what was collected before.
    ///
    /// The filter has to be callable on every tag set. Whatever the filter,
    /// each leaf visited is kept as the filter answered for it. Where the
    /// filter computes a predicate of the tag set, as the two filters made in
    /// this module do, that fixes the result.
    fn traverse<F>(&self, filter: F) -> (r: Result<Vec<Content>, NodeRepoError>) where
        F: Fn(TagSet) -> bool,

        requires
            total(filter),
        ensures
            r matches Ok(found) ==> {
                &&& walk(self.store(), self.root_id()).missing is None
                &&& forall|i: int| 0 <= i < found@.len() ==> (#[trigger] found@[i])@.is_leaf()
                &&& may_collect(
                    filter,
                    self.store(),
                    walk(self.store(), self.root_id()).order,
                    content_views(found@),
                )
            },
            Self::infallible() ==> match walk(self.store(), self.root_id()).missing {
                Some(id) => r == Err::<Vec<Content>, _>(NodeRepoError::UnknownNodeId(id)),
                None => r is Ok,
            },
            r is Ok || Self::infallible() ==> forall|accept: Accept| #[trigger]
                computes(filter, accept) ==> found_view(r) == traversal(
                    self.store(),
                    self.root_id(),
                    accept,
                ),
    {
        let mut content: Vec<Content> = Vec::new();
        let root = self.root();
        let mut stack: Vec<NodeId> = Vec::new();
        stack.push(root);
        let mut visited: HashSet<usize> = HashSet::new();
        let ghost store = self.store();
        let ghost whole = walk(store, root);
        let ghost mut order: Seq<NodeId> = Seq::empty();
        let ghost mut seen: Set<NodeId> = Set::empty();
        let ghost mut chosen: Set<NodeId> = Set::empty();
        proof {
            self.lemma_store_well_formed();
            lemma_walk_starts(store, root);
            lemma_walk_visits_once(store, root);
            lemma_collect_nothing(store, chosen);
            assert(stack@ =~= seq![root]);
            assert(content_views(content@) =~= Seq::empty());
        }
        while stack.len() > 0
            invariant
                total(filter),
                store == self.store(),
                store.dom().finite(),
                whole == walk(store, self.root_id()),
                whole.order.no_duplicates(),
                forall|id: NodeId| seen.contains(id) <==> visited@.contains(id.0),
                continues(whole, order, walk_from(store, stack@, seen)),
                chooses(filter, store, order, chosen),
                content_views(content@) == collect_chosen(store, order, chosen),
            decreases unseen(store, seen).len(), stack@.len(),
        {
            broadcast use vstd::std_specs::hash::group_hash_axioms;

            let ghost before = stack@;
            let id = stack.pop().unwrap();
            proof {
                lemma_walk_steps(store, before, seen, whole, order);
                assert(before.drop_last() =~= stack@);
            }
            if !visited.contains(&id.0) {
                visited.insert(id.0);
                if let Some(n) = self.get(&id)? {
                    let ghost rest = stack@;
                    let ghost found = content@;
                    proof {
                        assert(whole.order[order.len() as int] == id);
                        assert forall|i: int| 0 <= i < order.len() implies order[i] != id by {
                            assert(whole.order[i] == order[i]);
                        }
                    }
                    match n.content {
                        Content::Edges(e) => {
                            stack.extend_from_slice(e.as_slice());
                            proof {
                                lemma_visit_container(filter, store, order, chosen, id);
                            }
                        },
                        leaf => {
                            let ghost asked = n.tags;
                            let kept = filter(n.tags);
                            if kept {
                                content.push(leaf);
                            }
                            proof {
                                lemma_visit_leaf(filter, store, order, chosen, id, asked, kept);
                                if kept {
                                    assert(content_views(content@) =~= content_views(found).push(
                                        store[id].content,
                                    ));
                                    chosen = chosen.insert(id);
                                }
                            }
                        },
                    }
                    proof {
                        assert(stack@ =~= rest + store[id].content.targets());
                        order = order.push(id);
                        seen = seen.insert(id);
                        assert forall|x: NodeId| seen.contains(x) <==> visited@.contains(x.0) by {
                            assert(x == NodeId(x.0));
                        }
                    }
                } else {
                    return Err(NodeRepoError::UnknownNodeId(id));
                }
            }
        }
        proof {
            lemma_walk_ends(store, seen, whole, order);
            lemma_collect_leaves_only(store, order, chosen);
            assert forall|i: int| 0 <= i < content@.len() implies (#[trigger] content@[i])@.is_leaf() by {
                assert(content_views(content@)[i] == content@[i]@);
            }
            assert forall|accept: Accept| #[trigger] computes(filter, accept) implies content_views(
                content@,
            ) == collect(store, order, accept) by {
                lemma_choice_of_computed(filter, store, order, chosen, accept);
            }
        }
        Ok(content)
    }

    /// Walks the graph as `traverse` does and returns every node visited,
    /// containers too, in the order of the visit, for the caller to inspect
    /// or print, together with how the walk ended.
    ///
    /// Whatever the name suggests, the walk is that of `traverse`: it takes
    /// ids from a stack and so goes depth first. Where it reaches an id under
    /// which nothing is stored, the nodes returned are those visited before
    /// that, and the failure names the id.
    fn bfs_dump(&self) -> (r: (Vec<Node>, Result<(), NodeRepoError>))
        ensures
            node_views(r.0@).is_prefix_of(
                nodes_at(self.store(), walk(self.store(), self.root_id()).order),
            ),
            r.1 is Ok || Self::infallible() ==> {
                &&& node_views(r.0@) == nodes_at(
                    self.store(),
                    walk(self.store(), self.root_id()).order,
                )
                &&& r.1 == verdict(walk(self.store(), self.root_id()))
            },
    {
        let mut trace: Vec<Node> = Vec::new();
        let root = self.root();
        let mut stack: Vec<NodeId> = Vec::new();
        stack.push(root);
        let mut visited: HashSet<usize> = HashSet::new();
        let ghost store = self.store();
        let ghost whole = walk(store, root);
        let ghost mut order: Seq<NodeId> = Seq::empty();
        let ghost mut seen: Set<NodeId> = Set::empty();
        proof {
            self.lemma_store_well_formed();
            lemma_walk_starts(store, root);
            assert(stack@ =~= seq![root]);
            assert(node_views(trace@) =~= nodes_at(store, order));
        }
        while stack.len() > 0
            invariant
                store == self.store(),
                store.dom().finite(),
                whole == walk(store, self.root_id()),
                forall|id: NodeId| seen.contains(id) <==> visited@.contains(id.0),
                continues(whole, order, walk_from(store, stack@, seen)),
                node_views(trace@) == nodes_at(store, order),
            decreases unseen(store, seen).len(), stack@.len(),
        {
            broadcast use vstd::std_specs::hash::group_hash_axioms;

            let ghost before = stack@;
            let id = stack.pop().unwrap();
            proof {
                lemma_walk_steps(store, before, seen, whole, order);
                assert(before.drop_last() =~= stack@);
                assert(nodes_at(store, order).is_prefix_of(nodes_at(store, whole.order)));
            }
            if !visited.contains(&id.0) {
                visited.insert(id.0);
                match self.get(&id) {
                    Ok(Some(n)) => {
                        let ghost rest = stack@;
                        let ghost listed = trace@;
                        if let Content::Edges(e) = &n.content {
                            stack.extend_from_slice(e.as_slice());
                        }
                        trace.push(n);
                        proof {
                            assert(stack@ =~= rest + store[id].content.targets());
                            assert(node_views(trace@) =~= node_views(listed).push(store[id]));
                            assert(nodes_at(store, order.push(id)) =~= nodes_at(store, order).push(
                                store[id],
                            ));
                            order = order.push(id);
                            seen = seen.insert(id);
                            assert forall|x: NodeId| seen.contains(x) <==> visited@.contains(
                                x.0,
                            ) by {
                                assert(x == NodeId(x.0));
                            }
                        }
                    },
                    Ok(None) => {
                        return (trace, Err(NodeRepoError::UnknownNodeId(id)));
                    },
                    Err(e) => {
                        return (trace, Err(e));
                    },
                }
            }
        }
        proof {
            lemma_walk_ends(store, seen, whole, order);
        }
        (trace, Ok(()))
    }
}

/// A filter for `traverse` that accepts a leaf exactly when `tag` is among
/// its tags.
pub fn create_match_tag_filter(tag: &str) -> (filter: impl Fn(TagSet) -> bool)
    ensures
        total(filter),
        computes(filter, match_tag(tag@)),
{
    let t = tag.to_owned();
    move |tags: TagSet| -> (kept: bool)
        ensures
            kept == tags@.contains(t@),
        { tags.contains(t.as_str()) }
}

/// A filter for `traverse` that accepts every leaf, whatever its tags, the
/// empty set too.
pub fn create_accept_all_filter() -> (filter: impl Fn(TagSet) -> bool)
    ensures
        total(filter),
        computes(filter, accept_all()),
{
    move |tags: TagSet| -> (kept: bool)
        ensures
            kept,
        { true }
}

/// A repository that keeps its nodes in a hash map, keyed by the integer of
/// the id. Its root is the id 0. Lookups and insertions never fail.
pub struct HashMapRepo {
    root: NodeId,
    repo: HashMap<usize, Node>,
}

impl HashMapRepo {
    /// Every node is kept under the integer of its own id.
    #[verifier::type_invariant]
    spec fn keyed(&self) -> bool {
        forall|k: usize| self.repo@.contains_key(k) ==> (#[trigger] self.repo@[k]).id == NodeId(k)
    }

    /// The empty repository with root 0.
    pub fn new() -> (r: Self)
        ensures
            r.store() == Store::empty(),
            r.root_id() == NodeId(0),
    {
        let root: NodeId = NodeId::from(0);
        let r = HashMapRepo { root, repo: HashMap::new() };
        assert(r.store() =~= Store::empty());
        r
    }
}

impl Default for HashMapRepo {
    /// The empty repository with root 0.
    fn default() -> (r: Self)
        ensures
            r.store() == Store::empty(),
            r.root_id() == NodeId(0),
    {
        Self::new()
    }
}

impl NodeRepo for HashMapRepo {
    closed spec fn store(&self) -> Store {
        Map::new(
            |id: NodeId| self.repo@.contains_key(id.0) && self.repo@[id.0].id == id,
            |id: NodeId| self.repo@[id.0]@,
        )
    }

    closed spec fn root_id(&self) -> NodeId {
        self.root
    }

    open spec fn infallible() -> bool {
        true
    }

    proof fn lemma_store_well_formed(&self) {
        broadcast use vstd::std_specs::hash::group_hash_axioms;

        let keys = self.repo@.dom();
        let ids = keys.map(|k: usize| NodeId(k));
        keys.lemma_map_finite(|k: usize| NodeId(k));
        assert forall|id: NodeId| self.store().dom().contains(id) implies ids.contains(id) by {
            assert(keys.contains(id.0));
            assert(NodeId(id.0) == id);
        }
        vstd::set_lib::lemma_set_subset_finite(ids, self.store().dom());
    }

    fn root(&self) -> (r: NodeId) {
        self.root
    }

    fn get(&self, id: &NodeId) -> (r: Result<Option<Node>, NodeRepoError>) {
        broadcast use vstd::std_specs::hash::group_hash_axioms;

        let key: usize = id.0;
        let found = self.repo.get(&key).cloned();
        proof {
            use_type_invariant(self);
            assert(self.store().contains_key(*id) == self.repo@.contains_key(key));
            if self.repo@.contains_key(key) {
                assert(self.store()[*id] == self.repo@[key]@);
            }
        }
        Ok(found)
    }

    fn put(&mut self, node: &Node) -> (r: Result<(), NodeRepoError>) {
        broadcast use vstd::std_specs::hash::group_hash_axioms;

        proof {
            use_type_invariant(&*self);
        }
        let key: usize = node.id.0;
        let value = node.clone();
        let mut repo: HashMap<usize, Node> = HashMap::new();
        std::mem::swap(&mut repo, &mut self.repo);
        repo.insert(key, value);
        self.repo = repo;
        proof {
            assert forall|id: NodeId| id != node.id implies id.0 != key by {
                assert(id == NodeId(id.0));
            }
            assert(self.store() =~= old(self).store().insert(node.id, node@));
        }
        Ok(())
    }
}

} // verus!

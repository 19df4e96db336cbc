//! A small in-memory graph of content nodes.
//!
//! Nodes are addressed by integer ids. A node either routes to other nodes
//! (a container of edges) or carries a payload (a leaf), and it carries a set
//! of tags. A repository stores nodes by id and walks the graph from its
//! root, collecting the payload of every leaf whose tags a caller's filter
//! accepts.
//!
//! The graph form lives in [`node`], [`tags`] and [`repo`]. [`store`],
//! [`walk`] and [`filter`] say in mathematical terms what a repository holds,
//! what a walk over it yields and what a filter decides, and [`reach`] shows
//! that a walk visits what is reachable from the root. The types of this
//! module are the tree form: a node that owns its children, for data without
//! sharing or cycles.

pub mod filter;
pub mod node;
pub mod reach;
pub mod repo;
pub mod store;
pub mod tags;
pub mod walk;

use vstd::prelude::*;

verus! {

/// What a tree node holds.
#[derive(Debug)]
pub enum Content {
    /// Nothing.
    Empty,
    /// The children of the node, owned by it.
    Edges(Vec<Node>),
    /// A text.
    String(String),
}

/// A node of a tree: an id, a list of tags and a content.
#[derive(Debug)]
pub struct Node {
    pub id: u32,
    pub tags: Vec<String>,
    pub content: Content,
}

impl Node {
    /// The node with the given id, without tags and without content.
    pub fn new(id: u32) -> (r: Self)
        ensures
            r.id == id,
            r.tags@ == Seq::<String>::empty(),
            r.content == Content::Empty,
    {
        Node { id, tags: Vec::new(), content: Content::Empty }
    }

    /// The node with the given id, without tags, that holds `edges` as its
    /// children.
    pub fn new_edges(id: u32, edges: Vec<Node>) -> (r: Self)
        ensures
            r.id == id,
            r.tags@ == Seq::<String>::empty(),
            r.content == Content::Edges(edges),
    {
        Node { id, tags: Vec::new(), content: Content::Edges(edges) }
    }

    /// The node with the given id, without tags, that holds the text `s`.
    pub fn new_string(id: u32, s: &str) -> (r: Self)
        ensures
            r.id == id,
            r.tags@ == Seq::<String>::empty(),
            r.content matches Content::String(text) && text@ == s@,
    {
        Node { id, tags: Vec::new(), content: Content::String(s.to_owned()) }
    }
}

impl Default for Node {
    /// The node with id 0, without tags and without content.
    fn default() -> (r: Self)
        ensures
            r.id == 0,
            r.tags@ == Seq::<String>::empty(),
            r.content == Content::Empty,
    {
        Self { id: 0, tags: Vec::new(), content: Content::Empty }
    }
}

} // verus!

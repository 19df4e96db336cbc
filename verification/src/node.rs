//! The node model: identity, content and tags of one vertex of the graph.

use vstd::prelude::*;
use vstd::std_specs::convert::FromSpecImpl;
use crate::tags::{tags_of, TagSet};

verus! {

/// What can go wrong with a node by itself.
#[derive(Debug)]
pub enum NodeError {
    /// A fault that has no class of its own.
    Unknown,
}

/// The identity of a node: a wrapper over a non-negative integer.
///
/// Two ids are equal exactly when their integers are. An id serves as the key
/// under which a node is stored and as the target of an edge.
#[derive(Copy, Clone, Debug, PartialEq, Eq, Structural)]
pub struct NodeId(pub usize);

impl From<NodeId> for usize {
    /// The integer of an id.
    fn from(n: NodeId) -> (r: usize) {
        n.0
    }
}

impl FromSpecImpl<NodeId> for usize {
    open spec fn obeys_from_spec() -> bool {
        true
    }

    open spec fn from_spec(n: NodeId) -> usize {
        n.0
    }
}

impl From<usize> for NodeId {
    /// The id with the given integer.
    fn from(n: usize) -> (r: NodeId) {
        NodeId(n)
    }
}

impl FromSpecImpl<usize> for NodeId {
    open spec fn obeys_from_spec() -> bool {
        true
    }

    open spec fn from_spec(n: usize) -> NodeId {
        NodeId(n)
    }
}

/// What a node holds: edges to other nodes, or a payload.
#[derive(Debug)]
pub enum Content {
    /// The node is a container: it has no payload and forwards a walk to the
    /// nodes it lists.
    Edges(Vec<NodeId>),
    /// A leaf whose payload is a text.
    String(String),
    /// A leaf whose payload is a path, kept as a text.
    Path(String),
}

/// The mathematical value of a [`Content`].
pub enum ContentView {
    Edges(Seq<NodeId>),
    String(Seq<char>),
    Path(Seq<char>),
}

impl ContentView {
    /// Whether this is a payload, not a list of edges.
    pub open spec fn is_leaf(self) -> bool {
        !(self is Edges)
    }

    /// The nodes a walk goes on to from here: the listed ids of a container,
    /// none for a leaf.
    pub open spec fn targets(self) -> Seq<NodeId> {
        match self {
            ContentView::Edges(ids) => ids,
            _ => Seq::empty(),
        }
    }
}

impl View for Content {
    type V = ContentView;

    open spec fn view(&self) -> ContentView {
        match self {
            Content::Edges(ids) => ContentView::Edges(ids@),
            Content::String(text) => ContentView::String(text@),
            Content::Path(text) => ContentView::Path(text@),
        }
    }
}

impl Clone for Content {
    /// A copy of the same variant with the same edges or payload.
    fn clone(&self) -> (r: Self)
        ensures
            r@ == self@,
    {
        match self {
            Content::Edges(ids) => {
                let mut copy: Vec<NodeId> = Vec::new();
                let mut i: usize = 0;
                while i < ids.len()
                    invariant
                        i <= ids@.len(),
                        copy@ == ids@.take(i as int),
                    decreases ids@.len() - i,
                {
                    copy.push(ids[i]);
                    assert(ids@.take(i + 1) =~= ids@.take(i as int).push(ids@[i as int]));
                    i += 1;
                }
                assert(ids@.take(ids@.len() as int) =~= ids@);
                Content::Edges(copy)
            },
            Content::String(text) => Content::String(text.clone()),
            Content::Path(text) => Content::Path(text.clone()),
        }
    }
}

/// One vertex of the graph: an id, a set of tags and a content.
///
/// A node is a passive value. The tags of a container play no part in
/// filtering: a walk looks at the tags of leaves only.
#[derive(Debug)]
pub struct Node {
    pub id: NodeId,
    pub tags: TagSet,
    pub content: Content,
}

/// The mathematical value of a [`Node`].
pub struct NodeView {
    pub id: NodeId,
    pub tags: Set<Seq<char>>,
    pub content: ContentView,
}

/// The values of a sequence of contents, one by one.
pub open spec fn content_views(contents: Seq<Content>) -> Seq<ContentView> {
    contents.map_values(|c: Content| c@)
}

/// The values of a sequence of nodes, one by one.
pub open spec fn node_views(nodes: Seq<Node>) -> Seq<NodeView> {
    nodes.map_values(|n: Node| n@)
}

impl View for Node {
    type V = NodeView;

    open spec fn view(&self) -> NodeView {
        NodeView { id: self.id, tags: self.tags@, content: self.content@ }
    }
}

impl Node {
    /// The node with the given id, tags and content. Any integer is accepted
    /// as id; a tag given more than once counts once.
    pub fn new(id: usize, tags: Vec<&str>, content: Content) -> (r: Self)
        ensures
            r.id == NodeId(id),
            r.tags@ == tags_of(tags@.map_values(|s: &str| s@)),
            r.content == content,
    {
        Node { id: NodeId(id), tags: TagSet::from_strs(&tags), content }
    }
}

impl Default for Node {
    /// The container with id 0, no tags and no edges.
    fn default() -> (r: Self)
        ensures
            r@ == (NodeView {
                id: NodeId(0),
                tags: Set::empty(),
                content: ContentView::Edges(Seq::empty()),
            }),
    {
        Node { id: NodeId(0), tags: TagSet::new(), content: Content::Edges(Vec::new()) }
    }
}

impl Clone for Node {
    /// An independent copy with the same id, tags and content.
    fn clone(&self) -> (r: Self)
        ensures
            r@ == self@,
    {
        Node { id: self.id, tags: self.tags.clone(), content: self.content.clone() }
    }
}

} // verus!

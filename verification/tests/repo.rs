use nodes::node;
use nodes::node::Content;
use nodes::node::Node;
use nodes::node::NodeId;
use nodes::repo::{
    create_accept_all_filter, create_match_tag_filter, HashMapRepo, NodeRepo, NodeRepoError,
};
use nodes::tags::TagSet;

#[test]
fn hash_map_repo_puts_and_gets() {
    let mut repo = HashMapRepo::new();

    let root_id = repo.root();
    let id = root_id.into();

    let root = node::Node::new(id, vec![], node::Content::Edges(vec![]));
    repo.put(&root).unwrap();

    let x = repo.get(&root_id).unwrap();
    assert!(x.is_some());
}

#[test]
fn hash_map_repo_can_traverse() {
    let mut repo = HashMapRepo::new();

    for (id, s, tags, e) in vec![
        (1, "aaa", vec!["tag1"], vec![]),
        (2, "", vec![], vec![1]),
        (0, "", vec![], vec![2]),
    ] {
        let mut edges: Vec<NodeId> = Vec::new();
        for e_id in e {
            edges.push(e_id.into())
        }
        let content = if s.is_empty() {
            Content::Edges(edges)
        } else {
            Content::String(s.to_string())
        };
        let n = Node::new(id, tags, content);
        repo.put(&n).unwrap();
    }

    let res = repo.traverse(create_accept_all_filter()).unwrap();
    assert_eq!(res.len(), 1);

    match &res[0] {
        node::Content::String(res_string) => assert_eq!(res_string, "aaa"),
        _ => panic!("invalid content"),
    };
}

#[test]
fn hash_map_repo_can_find_a_tag() {
    let mut repo = HashMapRepo::new();

    for (id, s, tags, e) in vec![
        (1, "aaa", vec!["tag1"], vec![]),
        (2, "bbb", vec!["tag2"], vec![]),
        (3, "", vec![], vec![1, 2]),
        (0, "", vec![], vec![3]),
    ] {
        let mut edges: Vec<NodeId> = Vec::new();
        for e_id in e {
            edges.push(e_id.into())
        }
        let content = if s.is_empty() {
            Content::Edges(edges)
        } else {
            Content::String(s.to_string())
        };
        let n = Node::new(id, tags, content);
        repo.put(&n).unwrap();
    }

    let res = repo.traverse(create_match_tag_filter("tag2")).unwrap();
    assert_eq!(res.len(), 1);

    match &res[0] {
        node::Content::String(res_string) => assert_eq!(res_string, "bbb"),
        _ => panic!("invalid content"),
    };
}

#[test]
fn hash_map_repo_can_handles_a_loop() {
    let mut repo = HashMapRepo::new();

    for (id, s, tags, e) in vec![
        (1, "aaa", vec!["tag1"], vec![]),
        (2, "bbb", vec!["tag2"], vec![]),
        (3, "", vec![], vec![1, 2]),
        (0, "", vec![], vec![3]),
    ] {
        let mut edges: Vec<NodeId> = Vec::new();
        for e_id in e {
            edges.push(e_id.into())
        }
        let content = if s.is_empty() {
            Content::Edges(edges)
        } else {
            Content::String(s.to_string())
        };
        let n = Node::new(id, tags, content);
        repo.put(&n).unwrap();
    }
    repo.get(&3.into()).unwrap();

    let res = repo.traverse(create_match_tag_filter("tag2")).unwrap();
    assert_eq!(res.len(), 1);

    match &res[0] {
        node::Content::String(res_string) => assert_eq!(res_string, "bbb"),
        _ => panic!("invalid content"),
    };
}

fn leaf(id: usize, text: &str, tags: Vec<&str>) -> Node {
    Node::new(id, tags, Content::String(text.to_string()))
}

fn container(id: usize, targets: Vec<usize>) -> Node {
    Node::new(id, vec![], Content::Edges(targets.into_iter().map(NodeId::from).collect()))
}

fn repo_of(nodes: Vec<Node>) -> HashMapRepo {
    let mut repo = HashMapRepo::new();
    for n in nodes {
        repo.put(&n).unwrap();
    }
    repo
}

fn texts(found: &[Content]) -> Vec<String> {
    found
        .iter()
        .map(|c| match c {
            Content::String(s) => format!("S:{}", s),
            Content::Path(s) => format!("P:{}", s),
            Content::Edges(e) => format!("E:{}", e.len()),
        })
        .collect()
}

fn ids(trace: &[Node]) -> Vec<usize> {
    trace.iter().map(|n| usize::from(n.id)).collect()
}

#[test]
fn new_repo_has_root_zero_and_is_empty() {
    let repo = HashMapRepo::new();
    assert_eq!(repo.root(), NodeId(0));
    assert!(repo.get(&NodeId(0)).unwrap().is_none());
    let d = HashMapRepo::default();
    assert_eq!(d.root(), NodeId(0));
    assert!(d.get(&NodeId(0)).unwrap().is_none());
}

#[test]
fn get_returns_what_was_put() {
    let mut repo = HashMapRepo::new();
    let n = Node::new(5, vec!["t1", "t2"], Content::Path("/a/b".to_string()));
    repo.put(&n).unwrap();
    let got = repo.get(&NodeId(5)).unwrap().unwrap();
    assert_eq!(got.id, NodeId(5));
    assert_eq!(got.tags.len(), 2);
    assert!(got.tags.contains("t1"));
    assert!(got.tags.contains("t2"));
    assert!(matches!(got.content, Content::Path(p) if p == "/a/b"));
}

#[test]
fn put_overwrites_the_whole_entry() {
    let mut repo = HashMapRepo::new();
    repo.put(&Node::new(5, vec!["old"], Content::Edges(vec![NodeId(1), NodeId(2)]))).unwrap();
    repo.put(&Node::new(5, vec!["new"], Content::String("fresh".to_string()))).unwrap();
    let got = repo.get(&NodeId(5)).unwrap().unwrap();
    assert_eq!(got.tags.len(), 1);
    assert!(got.tags.contains("new"));
    assert!(!got.tags.contains("old"));
    assert!(matches!(got.content, Content::String(s) if s == "fresh"));
}

#[test]
fn put_leaves_other_entries_alone() {
    let mut repo = repo_of(vec![leaf(1, "one", vec![]), leaf(2, "two", vec![])]);
    repo.put(&leaf(1, "uno", vec![])).unwrap();
    let two = repo.get(&NodeId(2)).unwrap().unwrap();
    assert!(matches!(two.content, Content::String(s) if s == "two"));
    assert_eq!(repo.root(), NodeId(0));
}

#[test]
fn get_of_an_id_never_put_is_absent() {
    let repo = repo_of(vec![leaf(1, "one", vec![]), container(0, vec![1, 7])]);
    assert!(repo.get(&NodeId(7)).unwrap().is_none());
    assert!(repo.get(&NodeId(2)).unwrap().is_none());
    assert!(repo.get(&NodeId(usize::MAX)).unwrap().is_none());
}

#[test]
fn stored_node_is_independent_of_the_callers() {
    let mut repo = HashMapRepo::new();
    let mut n = leaf(0, "before", vec!["t"]);
    repo.put(&n).unwrap();
    n.tags.insert("extra");
    n.content = Content::String("after".to_string());
    let mut got = repo.get(&NodeId(0)).unwrap().unwrap();
    assert_eq!(got.tags.len(), 1);
    assert!(matches!(&got.content, Content::String(s) if s == "before"));
    got.tags.insert("mine");
    let again = repo.get(&NodeId(0)).unwrap().unwrap();
    assert_eq!(again.tags.len(), 1);
    assert!(!again.tags.contains("mine"));
}

#[test]
fn accept_all_yields_leaves_in_stack_order() {
    let repo = repo_of(vec![
        leaf(1, "aaa", vec![]),
        leaf(2, "bbb", vec![]),
        container(3, vec![2, 1]),
        container(0, vec![3]),
    ]);
    let res = repo.traverse(create_accept_all_filter()).unwrap();
    assert_eq!(texts(&res), vec!["S:aaa", "S:bbb"]);
}

#[test]
fn target_listed_last_is_visited_first() {
    let repo = repo_of(vec![
        leaf(1, "aaa", vec![]),
        leaf(2, "bbb", vec![]),
        container(3, vec![1, 2]),
        container(0, vec![3]),
    ]);
    let res = repo.traverse(create_accept_all_filter()).unwrap();
    assert_eq!(texts(&res), vec!["S:bbb", "S:aaa"]);
}

#[test]
fn walk_is_depth_first() {
    // 0 -> [1, 2]; 2 -> [3, 4]; 1 -> [5]
    let repo = repo_of(vec![
        container(0, vec![1, 2]),
        container(1, vec![5]),
        container(2, vec![3, 4]),
        leaf(3, "three", vec![]),
        leaf(4, "four", vec![]),
        leaf(5, "five", vec![]),
    ]);
    let res = repo.traverse(create_accept_all_filter()).unwrap();
    assert_eq!(texts(&res), vec!["S:four", "S:three", "S:five"]);
    let (trace, outcome) = repo.bfs_dump();
    assert!(outcome.is_ok());
    assert_eq!(ids(&trace), vec![0, 2, 4, 3, 1, 5]);
}

#[test]
fn match_tag_yields_exactly_the_tagged_leaf() {
    let repo = repo_of(vec![
        leaf(1, "aaa", vec!["tag1"]),
        leaf(2, "bbb", vec!["tag2"]),
        container(3, vec![1, 2]),
        container(0, vec![3]),
    ]);
    let res = repo.traverse(create_match_tag_filter("tag2")).unwrap();
    assert_eq!(texts(&res), vec!["S:bbb"]);
    let res = repo.traverse(create_match_tag_filter("tag1")).unwrap();
    assert_eq!(texts(&res), vec!["S:aaa"]);
    let res = repo.traverse(create_match_tag_filter("tag")).unwrap();
    assert!(res.is_empty());
}

#[test]
fn tags_of_a_container_are_inert() {
    let mut repo = repo_of(vec![leaf(1, "aaa", vec![]), leaf(2, "bbb", vec!["x"])]);
    repo.put(&Node::new(0, vec!["x"], Content::Edges(vec![NodeId(1), NodeId(2)]))).unwrap();
    let res = repo.traverse(create_match_tag_filter("x")).unwrap();
    assert_eq!(texts(&res), vec!["S:bbb"]);
    let res = repo.traverse(create_match_tag_filter("y")).unwrap();
    assert!(res.is_empty());
}

#[test]
fn path_leaves_are_collected_as_paths() {
    let mut repo = repo_of(vec![container(0, vec![1, 2]), leaf(2, "text", vec![])]);
    repo.put(&Node::new(1, vec![], Content::Path("/etc/hosts".to_string()))).unwrap();
    let res = repo.traverse(create_accept_all_filter()).unwrap();
    assert_eq!(texts(&res), vec!["S:text", "P:/etc/hosts"]);
}

#[test]
fn root_leaf_is_collected() {
    let repo = repo_of(vec![leaf(0, "only", vec![])]);
    let res = repo.traverse(create_accept_all_filter()).unwrap();
    assert_eq!(texts(&res), vec!["S:only"]);
}

#[test]
fn empty_root_container_yields_nothing() {
    let repo = repo_of(vec![container(0, vec![])]);
    let res = repo.traverse(create_accept_all_filter()).unwrap();
    assert!(res.is_empty());
    let (trace, outcome) = repo.bfs_dump();
    assert!(outcome.is_ok());
    assert_eq!(ids(&trace), vec![0]);
}

#[test]
fn traverse_terminates_on_a_cycle_back_to_the_root() {
    let repo = repo_of(vec![
        leaf(1, "aaa", vec!["tag1"]),
        leaf(2, "bbb", vec!["tag2"]),
        container(3, vec![1, 0, 2, 3]),
        container(0, vec![3]),
    ]);
    let res = repo.traverse(create_accept_all_filter()).unwrap();
    assert_eq!(texts(&res), vec!["S:bbb", "S:aaa"]);
    let (trace, outcome) = repo.bfs_dump();
    assert!(outcome.is_ok());
    assert_eq!(ids(&trace), vec![0, 3, 2, 1]);
}

#[test]
fn traverse_terminates_on_a_self_loop() {
    let repo = repo_of(vec![container(0, vec![0, 0])]);
    assert!(repo.traverse(create_accept_all_filter()).unwrap().is_empty());
    let (trace, outcome) = repo.bfs_dump();
    assert!(outcome.is_ok());
    assert_eq!(ids(&trace), vec![0]);
}

#[test]
fn a_node_with_many_incoming_edges_is_visited_once() {
    let repo = repo_of(vec![
        container(0, vec![1, 2, 3, 3]),
        container(1, vec![3]),
        container(2, vec![3, 1]),
        leaf(3, "shared", vec![]),
    ]);
    let res = repo.traverse(create_accept_all_filter()).unwrap();
    assert_eq!(texts(&res), vec!["S:shared"]);
    let (trace, outcome) = repo.bfs_dump();
    assert!(outcome.is_ok());
    assert_eq!(ids(&trace), vec![0, 3, 2, 1]);
}

#[test]
fn dangling_edge_fails_with_its_id() {
    let repo = repo_of(vec![container(0, vec![42])]);
    match repo.traverse(create_accept_all_filter()) {
        Err(NodeRepoError::UnknownNodeId(id)) => assert_eq!(id, NodeId(42)),
        other => panic!("unexpected result: {:?}", other),
    }
}

#[test]
fn dangling_edge_yields_no_partial_content() {
    // the leaf 2 is visited before the walk reaches the missing 9
    let repo = repo_of(vec![container(0, vec![9, 2]), leaf(2, "seen", vec![])]);
    let res = repo.traverse(create_accept_all_filter());
    assert!(matches!(res, Err(NodeRepoError::UnknownNodeId(NodeId(9)))));
}

#[test]
fn missing_root_fails_with_the_root_id() {
    let repo = HashMapRepo::new();
    let res = repo.traverse(create_accept_all_filter());
    assert!(matches!(res, Err(NodeRepoError::UnknownNodeId(NodeId(0)))));
    let (trace, outcome) = repo.bfs_dump();
    assert!(trace.is_empty());
    assert!(matches!(outcome, Err(NodeRepoError::UnknownNodeId(NodeId(0)))));
}

#[test]
fn unreachable_dangling_edge_does_no_harm() {
    let repo = repo_of(vec![container(0, vec![1]), leaf(1, "ok", vec![]), container(5, vec![6])]);
    let res = repo.traverse(create_accept_all_filter()).unwrap();
    assert_eq!(texts(&res), vec!["S:ok"]);
}

#[test]
fn dangling_edge_is_mended_by_a_put() {
    let mut repo = repo_of(vec![container(0, vec![1])]);
    assert!(repo.traverse(create_accept_all_filter()).is_err());
    repo.put(&leaf(1, "now here", vec![])).unwrap();
    let res = repo.traverse(create_accept_all_filter()).unwrap();
    assert_eq!(texts(&res), vec!["S:now here"]);
}

#[test]
fn output_never_holds_edges() {
    let repo = repo_of(vec![
        container(0, vec![1, 2, 3]),
        container(1, vec![4]),
        container(2, vec![]),
        leaf(3, "c", vec![]),
        leaf(4, "d", vec![]),
    ]);
    let res = repo.traverse(create_accept_all_filter()).unwrap();
    assert_eq!(res.len(), 2);
    assert!(res.iter().all(|c| !matches!(c, Content::Edges(_))));
}

#[test]
fn bfs_dump_returns_every_node_with_containers() {
    let repo = repo_of(vec![
        leaf(1, "aaa", vec!["tag1"]),
        leaf(2, "bbb", vec!["tag2"]),
        container(3, vec![1, 2]),
        container(0, vec![3]),
    ]);
    let (trace, outcome) = repo.bfs_dump();
    assert!(outcome.is_ok());
    assert_eq!(ids(&trace), vec![0, 3, 2, 1]);
    assert!(matches!(&trace[0].content, Content::Edges(e) if *e == vec![NodeId(3)]));
    assert!(matches!(&trace[2].content, Content::String(s) if s == "bbb"));
    assert!(trace[2].tags.contains("tag2"));
}

#[test]
fn bfs_dump_stops_at_a_dangling_edge() {
    let repo = repo_of(vec![container(0, vec![9, 2]), leaf(2, "seen", vec![])]);
    let (trace, outcome) = repo.bfs_dump();
    assert_eq!(ids(&trace), vec![0, 2]);
    assert!(matches!(outcome, Err(NodeRepoError::UnknownNodeId(NodeId(9)))));
}

#[test]
fn accept_all_filter_accepts_every_tag_set() {
    let f = create_accept_all_filter();
    assert!(f(TagSet::new()));
    assert!(f(TagSet::from_strs(&vec!["a", "b"])));
}

#[test]
fn match_tag_filter_tests_membership() {
    let f = create_match_tag_filter("tag2");
    assert!(!f(TagSet::new()));
    assert!(f(TagSet::from_strs(&vec!["tag1", "tag2"])));
    assert!(!f(TagSet::from_strs(&vec!["tag1", "tag22"])));
    assert!(!f(TagSet::from_strs(&vec!["Tag2"])));
}

#[test]
fn a_closure_of_the_caller_serves_as_filter() {
    let repo = repo_of(vec![
        container(0, vec![1, 2, 3]),
        leaf(1, "none", vec![]),
        leaf(2, "one", vec!["a"]),
        leaf(3, "two", vec!["a", "b"]),
    ]);
    let res = repo.traverse(|tags: TagSet| tags.len() >= 1).unwrap();
    assert_eq!(texts(&res), vec!["S:two", "S:one"]);
}

#[test]
fn repo_error_variants_are_distinct() {
    assert!(matches!(NodeRepoError::Unknown, NodeRepoError::Unknown));
    assert!(!matches!(NodeRepoError::UnknownNodeId(NodeId(1)), NodeRepoError::Unknown));
}

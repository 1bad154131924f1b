use factor_graph::render::NodeShape;
use factor_graph::{FactorGraph, GraphError, SpanningTree, TreeNode};

type Potential = fn(&[u32]) -> i32;

fn score(args: &[u32]) -> i32 {
    args.len() as i32
}

/// The graph of the chain scenario: variables "A", "B", "C" with ids
/// 0, 1, 2; a factor over {A, B} with id 3; a factor over {B, C} with
/// id 4.
fn chain_graph() -> FactorGraph<i32, Potential> {
    let mut graph: FactorGraph<i32, Potential> = FactorGraph::new();
    graph.add_discrete_var("A", vec![0, 1]).unwrap();
    graph.add_discrete_var("B", vec![0, 1]).unwrap();
    graph.add_discrete_var("C", vec![0, 1]).unwrap();
    graph
        .add_factor(vec![String::from("A"), String::from("B")], score)
        .unwrap();
    graph
        .add_factor(vec![String::from("B"), String::from("C")], score)
        .unwrap();
    graph
}

/// The depth of each tree node, read off the parent links.
fn depths(tree: &SpanningTree) -> Vec<usize> {
    let mut d = Vec::new();
    for node in tree.all_nodes.iter() {
        match node.parent {
            None => d.push(0),
            Some(p) => {
                let pd = d[p];
                d.push(pd + 1);
            }
        }
    }
    d
}

#[test]
fn spanning_tree_of_chain_discovers_in_order() {
    let graph = chain_graph();
    let tree = graph.make_spanning_tree("A").unwrap();

    // Root id 0, then factor 3, variable 1, factor 4, variable 2.
    assert_eq!(tree.node_ids(), vec![0, 3, 1, 4, 2]);
    assert_eq!(tree.all_nodes.len(), 5);
    assert_eq!(tree.edges(), vec![(0, 3), (3, 1), (1, 4), (4, 2)]);

    // Parent/child links form the single chain of the scenario.
    assert_eq!(tree.all_nodes[0].parent, None);
    assert_eq!(tree.all_nodes[0].children, vec![1]);
    assert_eq!(tree.all_nodes[1].children, vec![2]);
    assert_eq!(tree.all_nodes[2].children, vec![3]);
    assert_eq!(tree.all_nodes[3].children, vec![4]);
    assert_eq!(tree.all_nodes[4].children, Vec::<usize>::new());
}

#[test]
fn spanning_tree_visits_each_id_once() {
    let graph = chain_graph();
    let tree = graph.make_spanning_tree("B").unwrap();

    let mut ids = tree.node_ids();
    assert_eq!(ids.len(), 5);
    ids.sort();
    ids.dedup();
    assert_eq!(ids, vec![0, 1, 2, 3, 4]);
}

#[test]
fn discovery_order_is_non_decreasing_in_distance() {
    let graph = chain_graph();
    for root in ["A", "B", "C"] {
        let tree = graph.make_spanning_tree(root).unwrap();
        let d = depths(&tree);
        for k in 1..d.len() {
            assert!(d[k - 1] <= d[k]);
        }
    }
}

#[test]
fn unknown_root_is_rejected() {
    let graph = chain_graph();
    let r = graph.make_spanning_tree("missing");
    assert!(matches!(r, Err(GraphError::UnknownRoot(name)) if name == "missing"));
}

#[test]
fn disconnected_variable_is_absent_from_tree() {
    let mut graph = chain_graph();
    graph.add_discrete_var("D", vec![0, 1]).unwrap();

    let tree = graph.make_spanning_tree("A").unwrap();
    assert!(!tree.has_node(5));
    assert_eq!(tree.all_nodes.len(), 5);
    assert_eq!(graph.all_ids(), vec![0, 1, 2, 3, 4, 5]);
}

#[test]
fn has_node_reflects_membership() {
    let graph = chain_graph();
    let tree = graph.make_spanning_tree("C").unwrap();
    for id in 0..5 {
        assert!(tree.has_node(id));
    }
    assert!(!tree.has_node(5));
}

#[test]
fn tree_labels_follow_graph_items() {
    let graph = chain_graph();
    let tree = graph.make_spanning_tree("A").unwrap();

    assert_eq!(tree.label(0).unwrap(), "A");
    assert_eq!(tree.label(3).unwrap(), "factor<[\"A\", \"B\"]>");
    assert!(tree.label(9).is_none());
}

#[test]
fn graph_render_contract_enumerates_nodes_and_edges() {
    let graph = chain_graph();

    assert_eq!(graph.all_ids(), vec![0, 1, 2, 3, 4]);
    assert_eq!(graph.edges(), vec![(0, 3), (1, 3), (1, 4), (2, 4)]);
    assert_eq!(graph.shape(0).unwrap(), NodeShape::Circle);
    assert_eq!(graph.shape(3).unwrap(), NodeShape::Box);
    assert!(graph.shape(5).is_none());
}

#[test]
fn tree_nodes_record_names_and_indices() {
    let mut node = TreeNode::new_root(0, 7, "root");
    assert_eq!(node.get_name(), "root");
    assert_eq!(node.index, 0);
    assert_eq!(node.parent, None);
    node.add_child(1);
    assert_eq!(node.children, vec![1]);

    let child = TreeNode::new(1, 9, "child", 0);
    assert_eq!(child.parent, Some(0));
    assert_eq!(child.get_name(), "child");
}

#[test]
fn spanning_tree_add_child_links_both_ways() {
    let mut tree = SpanningTree::new(4, "root", 8);
    assert_eq!(tree.all_nodes.len(), 1);
    assert!(tree.has_node(4));

    tree.add_child(4, 6, "mid");
    tree.add_child(6, 2, "leaf");

    assert_eq!(tree.node_ids(), vec![4, 6, 2]);
    assert_eq!(tree.all_nodes[0].children, vec![1]);
    assert_eq!(tree.all_nodes[1].parent, Some(0));
    assert_eq!(tree.all_nodes[1].children, vec![2]);
    assert_eq!(tree.all_nodes[2].parent, Some(1));
    assert_eq!(tree.edges(), vec![(4, 6), (6, 2)]);
}

#[test]
fn variable_with_empty_domain_is_reachable_through_factors() {
    let mut graph: FactorGraph<i32, Potential> = FactorGraph::new();
    graph.add_discrete_var("only", Vec::new()).unwrap();
    graph
        .add_factor(vec![String::from("only")], score)
        .unwrap();

    let var = graph.variable_by_name("only").unwrap();
    assert_eq!(var.domain, Vec::<u32>::new());

    let tree = graph.make_spanning_tree("only").unwrap();
    assert_eq!(tree.node_ids(), vec![0, 1]);
}

#[test]
fn ties_follow_neighbor_enumeration_not_id_order() {
    let mut graph: FactorGraph<i32, Potential> = FactorGraph::new();
    graph.add_discrete_var("r", vec![0, 1]).unwrap();
    graph.add_discrete_var("b", vec![0, 1]).unwrap();
    graph.add_discrete_var("c", vec![0, 1]).unwrap();
    // The scope lists "c" before "b", the reverse of their id order.
    graph
        .add_factor(
            vec![String::from("r"), String::from("c"), String::from("b")],
            score,
        )
        .unwrap();

    let tree = graph.make_spanning_tree("r").unwrap();
    // The factor's children are discovered in scope order: id 2 ("c")
    // before id 1 ("b"), not by id magnitude.
    assert_eq!(tree.node_ids(), vec![0, 3, 2, 1]);
    assert_eq!(tree.edges(), vec![(0, 3), (3, 2), (3, 1)]);
}

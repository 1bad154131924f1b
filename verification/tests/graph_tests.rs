use factor_graph::{FactorGraph, FactorGraphItem, GraphError};

type Potential = fn(&[u32]) -> i32;

fn dummy_func(args: &[u32]) -> i32 {
    args.len() as i32
}

fn new_graph() -> FactorGraph<i32, Potential> {
    FactorGraph::new()
}

#[test]
fn factor_is_added_to_var() {
    let mut graph = new_graph();

    graph.add_discrete_var("first", vec![1, 2]).unwrap();
    graph
        .add_factor(vec![String::from("first")], dummy_func)
        .unwrap();

    let var = graph.variable_by_name("first").unwrap();
    let factor_id = var.get_factors()[0];
    match graph.item_by_id(factor_id).unwrap() {
        FactorGraphItem::Factor(f) => {
            assert_eq!(*f.get_variables(), vec![String::from("first")]);
        }
        FactorGraphItem::Variable(_) => panic!("expected a factor at the recorded id"),
    }
}

#[test]
#[should_panic]
fn factor_with_nonexistent_var() {
    let mut graph = new_graph();

    graph.add_discrete_var("first", vec![1, 2]).unwrap();
    graph
        .add_factor(vec![String::from("second")], dummy_func)
        .unwrap();
}

#[test]
fn ids_are_dense_regardless_of_insertion_order() {
    let mut graph = new_graph();

    graph.add_discrete_var("a", vec![0, 1]).unwrap();
    graph.add_discrete_var("b", vec![0, 1]).unwrap();
    graph
        .add_factor(vec![String::from("a"), String::from("b")], dummy_func)
        .unwrap();
    graph.add_discrete_var("c", vec![0, 1]).unwrap();
    graph
        .add_factor(vec![String::from("b"), String::from("c")], dummy_func)
        .unwrap();

    let ids = graph.all_ids();
    assert_eq!(ids.len() as u32, graph.next_id());
    assert_eq!(ids, vec![0, 1, 2, 3, 4]);
}

#[test]
fn add_variable_allocates_sequential_ids() {
    let mut graph = new_graph();

    assert_eq!(graph.add_discrete_var("x", vec![1]).unwrap(), 0);
    assert_eq!(graph.add_discrete_var("y", vec![1, 2, 3]).unwrap(), 1);
    assert_eq!(graph.next_id(), 2);
}

#[test]
fn duplicate_variable_name_is_rejected() {
    let mut graph = new_graph();

    graph.add_discrete_var("x", vec![1]).unwrap();
    let r = graph.add_discrete_var("x", vec![2, 3]);
    assert_eq!(r, Err(GraphError::DuplicateName(String::from("x"))));
    // The first registration is untouched.
    assert_eq!(graph.next_id(), 1);
    let var = graph.variable_by_name("x").unwrap();
    assert_eq!(var.val_names, vec![1]);
}

#[test]
fn factor_id_recorded_once_per_scope_variable() {
    let mut graph = new_graph();

    graph.add_discrete_var("a", vec![0, 1]).unwrap();
    graph.add_discrete_var("b", vec![0, 1]).unwrap();
    let fid = graph
        .add_factor(vec![String::from("a"), String::from("b")], dummy_func)
        .unwrap();

    for name in ["a", "b"] {
        let var = graph.variable_by_name(name).unwrap();
        let occurrences = var.get_factors().iter().filter(|id| **id == fid).count();
        assert_eq!(occurrences, 1);
    }
}

#[test]
fn duplicate_name_in_scope_still_recorded_once() {
    let mut graph = new_graph();

    graph.add_discrete_var("a", vec![0, 1]).unwrap();
    let fid = graph
        .add_factor(vec![String::from("a"), String::from("a")], dummy_func)
        .unwrap();

    let var = graph.variable_by_name("a").unwrap();
    assert_eq!(*var.get_factors(), vec![fid]);
}

#[test]
fn unknown_variable_on_empty_graph_consumes_no_id() {
    let mut graph = new_graph();

    let r = graph.add_factor(vec![String::from("Z")], dummy_func);
    assert_eq!(r, Err(GraphError::UnknownVariable(String::from("Z"))));
    assert_eq!(graph.all_ids(), Vec::<u32>::new());
}

#[test]
fn rejected_factor_leaves_graph_unchanged() {
    let mut graph = new_graph();

    graph.add_discrete_var("a", vec![0, 1]).unwrap();
    graph.add_discrete_var("b", vec![0, 1]).unwrap();

    // "a" resolves but "z" does not: nothing may be mutated.
    let r = graph.add_factor(vec![String::from("a"), String::from("z")], dummy_func);
    assert_eq!(r, Err(GraphError::UnknownVariable(String::from("z"))));

    assert_eq!(graph.next_id(), 2);
    assert!(graph.variable_by_name("a").unwrap().get_factors().is_empty());
    assert!(graph.variable_by_name("b").unwrap().get_factors().is_empty());
}

#[test]
fn first_unknown_name_is_reported() {
    let mut graph = new_graph();

    graph.add_discrete_var("a", vec![0]).unwrap();
    let r = graph.add_factor(
        vec![String::from("a"), String::from("y"), String::from("z")],
        dummy_func,
    );
    assert_eq!(r, Err(GraphError::UnknownVariable(String::from("y"))));
}

#[test]
fn item_lookup_by_id_and_name() {
    let mut graph = new_graph();

    graph.add_discrete_var("a", vec![7, 8]).unwrap();
    let fid = graph
        .add_factor(vec![String::from("a")], dummy_func)
        .unwrap();

    let item = graph.item_by_id(0).unwrap();
    assert_eq!(item.get_id(), 0);
    assert!(!item.is_factor());
    assert_eq!(item.get_name(), "a");

    let factor_item = graph.item_by_id(fid).unwrap();
    assert!(factor_item.is_factor());

    assert!(graph.item_by_id(2).is_none());
    assert!(graph.variable_by_name("missing").is_none());

    let var = graph.variable_by_name("a").unwrap();
    assert_eq!(var.get_var_id(), 0);
    assert_eq!(var.get_name(), "a");
    assert_eq!(var.domain, vec![0, 1]);
}

#[test]
fn factor_label_lists_its_scope() {
    let mut graph = new_graph();

    graph.add_discrete_var("a", vec![0]).unwrap();
    graph.add_discrete_var("b", vec![0]).unwrap();
    let fid = graph
        .add_factor(vec![String::from("a"), String::from("b")], dummy_func)
        .unwrap();

    assert_eq!(graph.label(0).unwrap(), "a");
    assert_eq!(graph.label(fid).unwrap(), "factor<[\"a\", \"b\"]>");
    assert!(graph.label(99).is_none());
}

#[test]
fn neighbor_ids_follow_natural_order() {
    let mut graph = new_graph();

    graph.add_discrete_var("a", vec![0]).unwrap();
    graph.add_discrete_var("b", vec![0]).unwrap();
    graph.add_discrete_var("c", vec![0]).unwrap();
    graph
        .add_factor(vec![String::from("a"), String::from("b")], dummy_func)
        .unwrap();
    graph
        .add_factor(vec![String::from("b"), String::from("c")], dummy_func)
        .unwrap();

    // A variable's neighbors are its incident factors in insertion order.
    assert_eq!(graph.neighbor_ids(1), vec![3, 4]);
    // A factor's neighbors are its scope variables in scope order.
    assert_eq!(graph.neighbor_ids(3), vec![0, 1]);
    assert_eq!(graph.neighbor_ids(4), vec![1, 2]);
}

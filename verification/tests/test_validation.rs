use xyntra::ir::errors::ValidationError;
use xyntra::ir::graph::Graph;
use xyntra::ir::types::{NodeID, OpKind};
use xyntra::ir::validation::{combine_results, ok, single_error, GraphValidator, ValidationResult};

fn custom(name: &str) -> OpKind {
    OpKind::Custom(name.to_string())
}

fn cycle_paths(result: &ValidationResult) -> Vec<Vec<u32>> {
    let mut paths = Vec::new();
    if let Err(errors) = result {
        for error in errors {
            match error {
                ValidationError::CyclicGraph { cycle_path } => paths.push(cycle_path.clone()),
                other => panic!("not a cycle: {:?}", other),
            }
        }
    }
    paths
}

fn missing_ids(result: &ValidationResult) -> Vec<u32> {
    let mut ids = Vec::new();
    if let Err(errors) = result {
        for error in errors {
            match error {
                ValidationError::MissingNode { node_id } => ids.push(*node_id),
                other => panic!("not a missing node: {:?}", other),
            }
        }
    }
    ids
}

#[test]
fn empty_graph_is_valid() {
    let graph = Graph::new();
    let validator = GraphValidator::new(&graph);
    assert!(validator.validate_node_references().is_ok());
    assert!(validator.detect_cycles().is_ok());
    assert!(validator.validate_operation_constraints().is_ok());
    assert!(validator.validate().is_ok());
}

#[test]
fn well_formed_graph_is_valid() {
    let mut graph = Graph::new();
    let a = graph.add_node(custom("Input1"), vec![], vec![]);
    let b = graph.add_node(custom("Input2"), vec![], vec![]);
    let m = graph.add_node(OpKind::MatMul, vec![a, b], vec![]);
    let g = graph.add_node(OpKind::Gelu, vec![m], vec![]);
    let _ = graph.add_node(custom("Output"), vec![g], vec![]);
    assert!(GraphValidator::new(&graph).validate().is_ok());
}

#[test]
fn self_loop_is_a_cycle_of_one() {
    let mut graph = Graph::new();
    graph.add_node(custom("Loop"), vec![NodeID::new(0)], vec![]);
    let result = GraphValidator::new(&graph).detect_cycles();
    assert_eq!(cycle_paths(&result), vec![vec![0]]);
}

#[test]
fn three_node_cycle_is_reported_once() {
    // 0 is an input of 1, 1 of 2, 2 of 0.
    let mut graph = Graph::new();
    graph.add_node(OpKind::Gelu, vec![NodeID::new(2)], vec![]);
    graph.add_node(OpKind::Gelu, vec![NodeID::new(0)], vec![]);
    graph.add_node(OpKind::Gelu, vec![NodeID::new(1)], vec![]);
    let result = GraphValidator::new(&graph).detect_cycles();
    let paths = cycle_paths(&result);
    assert_eq!(paths.len(), 1);
    assert_eq!(paths[0], vec![0, 2, 1]);
    for id in 0..3u32 {
        assert!(paths[0].contains(&id));
    }
}

#[test]
fn cycle_path_starts_at_the_node_reached_again() {
    // 0 consumes 1, 1 consumes 2, 2 consumes 1: the cycle is 1, 2.
    let mut graph = Graph::new();
    graph.add_node(OpKind::Gelu, vec![NodeID::new(1)], vec![]);
    graph.add_node(OpKind::Gelu, vec![NodeID::new(2)], vec![]);
    graph.add_node(OpKind::Gelu, vec![NodeID::new(1)], vec![]);
    let result = GraphValidator::new(&graph).detect_cycles();
    assert_eq!(cycle_paths(&result), vec![vec![1, 2]]);
}

#[test]
fn disjoint_cycles_are_all_reported() {
    let mut graph = Graph::new();
    graph.add_node(OpKind::Gelu, vec![NodeID::new(1)], vec![]);
    graph.add_node(OpKind::Gelu, vec![NodeID::new(0)], vec![]);
    graph.add_node(OpKind::Gelu, vec![], vec![]);
    graph.add_node(OpKind::Gelu, vec![NodeID::new(3)], vec![]);
    let result = GraphValidator::new(&graph).detect_cycles();
    assert_eq!(cycle_paths(&result), vec![vec![0, 1], vec![3]]);
}

#[test]
fn diamond_is_not_a_cycle() {
    let mut graph = Graph::new();
    let input = graph.add_node(custom("Input"), vec![], vec![]);
    let left = graph.add_node(OpKind::Gelu, vec![input], vec![]);
    let right = graph.add_node(OpKind::Softmax, vec![input], vec![]);
    graph.add_node(OpKind::Add, vec![left, right], vec![]);
    assert!(GraphValidator::new(&graph).detect_cycles().is_ok());
}

#[test]
fn linear_chain_has_no_cycle() {
    let mut graph = Graph::new();
    let mut prev: Option<NodeID> = None;
    for _ in 0..1000 {
        let inputs = match prev {
            Some(p) => vec![p],
            None => vec![],
        };
        prev = Some(graph.add_node(OpKind::Gelu, inputs, vec![]));
    }
    assert!(GraphValidator::new(&graph).detect_cycles().is_ok());
}

#[test]
fn forward_chain_has_no_cycle() {
    // Each node consumes the one added after it.
    let mut graph = Graph::new();
    for i in 0..1000u32 {
        let inputs = if i < 999 { vec![NodeID::new(i + 1)] } else { vec![] };
        graph.add_node(OpKind::Gelu, inputs, vec![]);
    }
    assert!(GraphValidator::new(&graph).detect_cycles().is_ok());
}

#[test]
fn deep_chain_is_walked_without_a_cycle() {
    // Node 0 consumes node 1, which consumes node 2, and so on: the
    // traversal from node 0 is as deep as the graph is long.
    let mut graph = Graph::new();
    let length = 200_000u32;
    for i in 0..length {
        let inputs = if i + 1 < length { vec![NodeID::new(i + 1)] } else { vec![] };
        graph.add_node(custom("Link"), inputs, vec![]);
    }
    let validator = GraphValidator::new(&graph);
    assert!(validator.detect_cycles().is_ok());
    assert!(validator.validate().is_ok());
}

#[test]
fn deep_cycle_is_reported_whole() {
    let mut graph = Graph::new();
    let length = 50_000u32;
    for i in 0..length {
        graph.add_node(OpKind::Gelu, vec![NodeID::new((i + 1) % length)], vec![]);
    }
    let result = GraphValidator::new(&graph).detect_cycles();
    let paths = cycle_paths(&result);
    assert_eq!(paths.len(), 1);
    assert_eq!(paths[0], (0..length).collect::<Vec<u32>>());
}

#[test]
fn cycle_is_reported_once_for_each_edge_that_closes_it() {
    // 0 consumes 1 twice over; 1 consumes 0.
    let mut graph = Graph::new();
    graph.add_node(OpKind::Add, vec![NodeID::new(1), NodeID::new(1)], vec![]);
    graph.add_node(OpKind::Gelu, vec![NodeID::new(0)], vec![]);
    let result = GraphValidator::new(&graph).detect_cycles();
    assert_eq!(cycle_paths(&result), vec![vec![0, 1]]);
}

#[test]
fn cycle_detection_passes_over_dangling_inputs() {
    let mut graph = Graph::new();
    graph.add_node(OpKind::Gelu, vec![NodeID::new(7)], vec![]);
    assert!(GraphValidator::new(&graph).detect_cycles().is_ok());
}

#[test]
fn one_missing_node_per_dangling_reference() {
    let mut graph = Graph::new();
    let a = graph.add_node(custom("Input"), vec![], vec![NodeID::new(1)]);
    graph.add_node(
        OpKind::Add,
        vec![a, NodeID::new(9)],
        vec![NodeID::new(u32::MAX), NodeID::new(0)],
    );
    graph.add_node(OpKind::Gelu, vec![NodeID::new(3)], vec![]);
    let result = GraphValidator::new(&graph).validate_node_references();
    assert_eq!(missing_ids(&result), vec![9, u32::MAX, 3]);
}

#[test]
fn no_dangling_reference_no_error() {
    let mut graph = Graph::new();
    let a = graph.add_node(custom("Input"), vec![], vec![NodeID::new(1)]);
    graph.add_node(OpKind::Gelu, vec![a], vec![]);
    assert!(GraphValidator::new(&graph).validate_node_references().is_ok());
}

#[test]
fn matmul_with_one_input_has_wrong_arity() {
    let mut graph = Graph::new();
    let a = graph.add_node(custom("Input"), vec![], vec![]);
    graph.add_node(OpKind::MatMul, vec![a], vec![]);
    let result = GraphValidator::new(&graph).validate_operation_constraints();
    let errors = result.unwrap_err();
    assert_eq!(errors.len(), 1);
    match &errors[0] {
        ValidationError::InvalidOpInputCount { op, expected, found } => {
            assert_eq!(op, "MatMul");
            assert_eq!(*expected, 2);
            assert_eq!(*found, 1);
        }
        other => panic!("unexpected error: {:?}", other),
    }
}

#[test]
fn every_well_known_kind_has_its_arity() {
    let kinds = vec![
        (OpKind::MatMul, "MatMul", 2usize),
        (OpKind::Add, "Add", 2),
        (OpKind::Gelu, "Gelu", 1),
        (OpKind::Dropout, "Dropout", 1),
        (OpKind::Softmax, "Softmax", 1),
        (OpKind::LayerNorm, "LayerNorm", 1),
    ];
    for (kind, name, arity) in kinds {
        assert_eq!(kind.arity(), Some(arity));
        assert_eq!(kind.name(), name);
        let mut graph = Graph::new();
        graph.add_node(kind, vec![], vec![]);
        let errors = GraphValidator::new(&graph)
            .validate_operation_constraints()
            .unwrap_err();
        assert_eq!(errors.len(), 1);
        match &errors[0] {
            ValidationError::InvalidOpInputCount { op, expected, found } => {
                assert_eq!(op, name);
                assert_eq!(*expected, arity);
                assert_eq!(*found, 0);
            }
            other => panic!("unexpected error: {:?}", other),
        }
    }
}

#[test]
fn custom_operation_has_no_arity() {
    assert_eq!(custom("Anything").arity(), None);
    assert_eq!(custom("Anything").name(), "Anything");
    let mut graph = Graph::new();
    let a = graph.add_node(custom("Source"), vec![], vec![]);
    graph.add_node(custom("Sink"), vec![a, a, a], vec![]);
    assert!(GraphValidator::new(&graph).validate_operation_constraints().is_ok());
}

#[test]
fn validate_reports_references_before_arity() {
    let mut graph = Graph::new();
    graph.add_node(OpKind::MatMul, vec![NodeID::new(5)], vec![]);
    let errors = GraphValidator::new(&graph).validate().unwrap_err();
    assert_eq!(errors.len(), 2);
    assert!(matches!(errors[0], ValidationError::MissingNode { node_id: 5 }));
    assert!(matches!(
        errors[1],
        ValidationError::InvalidOpInputCount { expected: 2, found: 1, .. }
    ));
}

#[test]
fn validate_runs_every_pass() {
    let mut graph = Graph::new();
    graph.add_node(OpKind::Add, vec![NodeID::new(0)], vec![NodeID::new(4)]);
    let errors = GraphValidator::new(&graph).validate().unwrap_err();
    assert_eq!(errors.len(), 3);
    assert!(matches!(errors[0], ValidationError::MissingNode { node_id: 4 }));
    match &errors[1] {
        ValidationError::CyclicGraph { cycle_path } => assert_eq!(cycle_path, &vec![0]),
        other => panic!("unexpected error: {:?}", other),
    }
    assert!(matches!(
        errors[2],
        ValidationError::InvalidOpInputCount { expected: 2, found: 1, .. }
    ));
}

#[test]
fn validate_twice_gives_the_same_list() {
    let mut graph = Graph::new();
    graph.add_node(OpKind::Add, vec![NodeID::new(1)], vec![NodeID::new(4)]);
    graph.add_node(OpKind::MatMul, vec![NodeID::new(0), NodeID::new(8)], vec![]);
    let validator = GraphValidator::new(&graph);
    let first = validator.validate();
    let second = validator.validate();
    assert!(first.is_err());
    assert_eq!(format!("{:?}", first), format!("{:?}", second));
}

#[test]
fn combine_keeps_pass_order() {
    let results = vec![
        ok(),
        single_error(ValidationError::MissingNode { node_id: 1 }),
        ok(),
        Err(vec![
            ValidationError::MissingNode { node_id: 2 },
            ValidationError::MissingNode { node_id: 3 },
        ]),
    ];
    let combined = combine_results(results);
    assert_eq!(missing_ids(&combined), vec![1, 2, 3]);
}

#[test]
fn combine_of_successes_is_success() {
    assert!(combine_results(vec![]).is_ok());
    assert!(combine_results(vec![ok(), ok()]).is_ok());
    assert!(ok().is_ok());
}

#[test]
fn node_count_follows_additions() {
    let mut graph = Graph::new();
    assert_eq!(graph.node_count(), 0);
    graph.add_node(OpKind::Gelu, vec![], vec![]);
    graph.add_node(OpKind::Gelu, vec![], vec![]);
    assert_eq!(graph.node_count(), 2);
    assert!(graph.get_node(NodeID::new(1)).is_some());
    assert!(graph.get_node(NodeID::new(2)).is_none());
    assert!(graph.get_node(NodeID::new(u32::MAX)).is_none());
    assert_eq!(Graph::default().node_count(), 0);
}

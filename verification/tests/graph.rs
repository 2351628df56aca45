use modelator::graph::{TransitionGraph, NextStates};

#[test]
fn neighbors_test() {
    let mut next_states = NextStates::new();

    assert_eq!(next_states.get_next_states(&1), None);
    assert_eq!(next_states.get_next_states(&2), None);
    assert_eq!(next_states.get_next_states(&3), None);
    assert_eq!(next_states.get_next_states(&4), None);

    next_states.add_next_state(1, 2);
    assert_eq!(next_states.get_next_states(&1), Some(&vec![2]));
    assert_eq!(next_states.get_next_states(&2), None);
    assert_eq!(next_states.get_next_states(&3), None);
    assert_eq!(next_states.get_next_states(&4), None);

    next_states.add_next_state(1, 3);
    assert_eq!(next_states.get_next_states(&1), Some(&vec![2, 3]));
    assert_eq!(next_states.get_next_states(&2), None);
    assert_eq!(next_states.get_next_states(&3), None);
    assert_eq!(next_states.get_next_states(&4), None);

    next_states.add_next_state(2, 4);
    assert_eq!(next_states.get_next_states(&1), Some(&vec![2, 3]));
    assert_eq!(next_states.get_next_states(&2), Some(&vec![4]));
    assert_eq!(next_states.get_next_states(&3), None);
    assert_eq!(next_states.get_next_states(&4), None);

    next_states.add_next_state(3, 4);
    assert_eq!(next_states.get_next_states(&1), Some(&vec![2, 3]));
    assert_eq!(next_states.get_next_states(&2), Some(&vec![4]));
    assert_eq!(next_states.get_next_states(&3), Some(&vec![4]));
    assert_eq!(next_states.get_next_states(&4), None);

    next_states.add_next_state(4, 1);
    assert_eq!(next_states.get_next_states(&1), Some(&vec![2, 3]));
    assert_eq!(next_states.get_next_states(&2), Some(&vec![4]));
    assert_eq!(next_states.get_next_states(&3), Some(&vec![4]));
    assert_eq!(next_states.get_next_states(&4), Some(&vec![1]));
}

#[test]
fn add_next_state_keeps_a_known_state_once() {
    let mut next_states = NextStates::new();
    next_states.add_next_state(1, 2);
    next_states.add_next_state(1, 2);
    assert_eq!(next_states.get_next_states(&1), Some(&vec![2]));
}

fn sorted(mut paths: Vec<Vec<i32>>) -> Vec<Vec<i32>> {
    paths.sort();
    paths
}

#[test]
fn all_paths_of_length_zero_is_empty() {
    let mut graph = TransitionGraph::new();
    graph.add_path(vec![1, 2, 3]);
    assert_eq!(graph.all_paths(&1, 0), Vec::<Vec<i32>>::new());
    assert_eq!(graph.all_paths(&2, 0), Vec::<Vec<i32>>::new());
    assert_eq!(graph.all_paths(&9, 0), Vec::<Vec<i32>>::new());
}

#[test]
fn all_paths_from_an_absent_node_is_empty() {
    let mut graph = TransitionGraph::new();
    graph.add_path(vec![1, 2]);
    assert_eq!(graph.all_paths(&7, 5), Vec::<Vec<i32>>::new());
}

#[test]
fn all_paths_single_edge() {
    let mut graph = TransitionGraph::new();
    graph.add_path(vec![1, 2]);
    assert_eq!(sorted(graph.all_paths(&1, 1)), vec![vec![1]]);
    assert_eq!(sorted(graph.all_paths(&1, 2)), vec![vec![1], vec![1, 2]]);
    assert_eq!(sorted(graph.all_paths(&1, 3)), vec![vec![1], vec![1, 2]]);
    assert_eq!(sorted(graph.all_paths(&2, 3)), vec![vec![2]]);
}

#[test]
fn all_paths_records_every_prefix() {
    let mut graph = TransitionGraph::new();
    graph.add_path(vec![1, 2, 3]);
    graph.add_path(vec![1, 4]);
    assert_eq!(
        sorted(graph.all_paths(&1, 3)),
        vec![vec![1], vec![1, 2], vec![1, 2, 3], vec![1, 4]]
    );
}

#[test]
fn all_paths_grows_through_a_cycle() {
    let mut graph = TransitionGraph::new();
    graph.add_path(vec![1, 2, 1]);
    let mut before = 0;
    for k in 1..8usize {
        let paths = graph.all_paths(&1, k);
        assert!(paths.len() > before);
        assert!(paths.iter().all(|p| p.len() <= k && !p.is_empty()));
        assert_eq!(paths.len(), k);
        before = paths.len();
    }
    assert_eq!(
        sorted(graph.all_paths(&1, 4)),
        vec![vec![1], vec![1, 2], vec![1, 2, 1], vec![1, 2, 1, 2]]
    );
}

#[test]
fn add_path_is_idempotent() {
    let mut graph = TransitionGraph::new();
    graph.add_path(vec![1, 2]);
    graph.add_path(vec![1, 2]);
    graph.add_path(vec![1, 2, 2]);
    assert_eq!(
        sorted(graph.all_paths(&1, 3)),
        vec![vec![1], vec![1, 2], vec![1, 2, 2]]
    );
}

#[test]
fn graph_of_strings() {
    let mut graph = TransitionGraph::new();
    graph.add_path(vec!["a".to_string(), "b".to_string()]);
    let mut paths = graph.all_paths(&"a".to_string(), 2);
    paths.sort();
    assert_eq!(
        paths,
        vec![vec!["a".to_string()], vec!["a".to_string(), "b".to_string()]]
    );
}

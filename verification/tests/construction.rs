use contagion::engine::Engine;
use contagion::errors::SimError;
use contagion::graph::Graph;

fn path_graph() -> Graph {
    let edges: Vec<(usize, usize)> = vec![(0, 1), (1, 2), (2, 3), (3, 4), (4, 5)];
    Graph::new(6, &edges).unwrap()
}

#[test]
fn construction_rejects_self_loop() {
    let edges: Vec<(usize, usize)> = vec![(0, 0)];
    assert!(matches!(Graph::new(6, &edges), Err(SimError::ConfigurationError)));
}

#[test]
fn construction_rejects_out_of_range_edge() {
    let edges: Vec<(usize, usize)> = vec![(0, 10)];
    assert!(matches!(Graph::new(6, &edges), Err(SimError::ConfigurationError)));
}

#[test]
fn construction_rejects_one_bad_edge_among_good() {
    let edges: Vec<(usize, usize)> = vec![(0, 1), (1, 2), (2, 2), (3, 4)];
    assert!(matches!(Graph::new(6, &edges), Err(SimError::ConfigurationError)));
}

#[test]
fn construction_accepts_empty_edge_list() {
    let edges: Vec<(usize, usize)> = vec![];
    let g = Graph::new(3, &edges).unwrap();
    assert_eq!(g.num_nodes(), 3);
    assert_eq!(g.is_adjacent(0, 1), Ok(false));
}

#[test]
fn adjacency_is_symmetric() {
    let g = path_graph();
    assert_eq!(g.is_adjacent(1, 2), Ok(true));
    assert_eq!(g.is_adjacent(2, 1), Ok(true));
    assert_eq!(g.is_adjacent(0, 3), Ok(false));
    assert_eq!(g.is_adjacent(3, 0), Ok(false));
    assert_eq!(g.is_adjacent(2, 2), Ok(false));
}

#[test]
fn adjacency_query_out_of_range() {
    let g = path_graph();
    assert_eq!(g.is_adjacent(0, 6), Err(SimError::OutOfRange));
    assert_eq!(g.is_adjacent(7, 0), Err(SimError::OutOfRange));
}

#[test]
fn empty_seed_set_rejected() {
    let g = path_graph();
    let seeds: Vec<usize> = vec![];
    assert!(matches!(Engine::new(g, &seeds, 3), Err(SimError::InvalidSeed)));
}

#[test]
fn out_of_range_seed_rejected() {
    let g = path_graph();
    let seeds: Vec<usize> = vec![0, 6];
    assert!(matches!(Engine::new(g, &seeds, 3), Err(SimError::InvalidSeed)));
}

#[test]
fn snapshot_sorts_and_dedups_seeds() {
    let g = path_graph();
    let seeds: Vec<usize> = vec![3, 1, 3];
    let engine = Engine::new(g, &seeds, 3).unwrap();
    let (generation, infected) = engine.snapshot();
    assert_eq!(generation, 0);
    assert_eq!(infected, vec![1, 3]);
}

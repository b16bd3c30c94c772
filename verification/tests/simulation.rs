use contagion::engine::Engine;
use contagion::graph::Graph;

fn path_graph() -> Graph {
    let edges: Vec<(usize, usize)> = vec![(0, 1), (1, 2), (2, 3), (3, 4), (4, 5)];
    Graph::new(6, &edges).unwrap()
}

fn path_engine(delay: u64) -> Engine {
    let seeds: Vec<usize> = vec![0];
    Engine::new(path_graph(), &seeds, delay).unwrap()
}

#[test]
fn path_graph_scenario() {
    let mut engine = path_engine(3);

    engine.tick(1);
    assert_eq!(engine.snapshot(), (0, vec![0]));

    engine.tick(2);
    assert_eq!(engine.snapshot(), (1, vec![0, 1]));

    engine.tick(3);
    assert_eq!(engine.snapshot(), (2, vec![0, 1, 2]));

    engine.tick(3);
    engine.tick(3);
    engine.tick(3);
    assert_eq!(engine.snapshot(), (5, vec![0, 1, 2, 3, 4, 5]));

    engine.tick(3);
    assert_eq!(engine.snapshot(), (6, vec![0, 1, 2, 3, 4, 5]));
}

#[test]
fn gating_leaves_state_unchanged_below_delay() {
    let mut engine = path_engine(10);
    engine.tick(3);
    engine.tick(3);
    engine.tick(3);
    assert_eq!(engine.snapshot(), (0, vec![0]));
    engine.tick(1);
    assert_eq!(engine.snapshot(), (1, vec![0, 1]));
}

#[test]
fn one_step_per_gate_clear_however_far_exceeded() {
    let mut engine = path_engine(3);
    engine.tick(1000);
    assert_eq!(engine.snapshot(), (1, vec![0, 1]));
    engine.tick(u64::MAX);
    assert_eq!(engine.snapshot(), (2, vec![0, 1, 2]));
}

#[test]
fn fixed_point_keeps_infected_and_increments_generation() {
    let edges: Vec<(usize, usize)> = vec![(0, 1), (1, 2)];
    let graph = Graph::new(3, &edges).unwrap();
    let seeds: Vec<usize> = vec![1];
    let mut engine = Engine::new(graph, &seeds, 1).unwrap();
    engine.tick(1);
    assert_eq!(engine.snapshot(), (1, vec![0, 1, 2]));
    engine.tick(1);
    engine.tick(1);
    assert_eq!(engine.snapshot(), (3, vec![0, 1, 2]));
}

#[test]
fn disconnected_nodes_never_infected() {
    let edges: Vec<(usize, usize)> = vec![(0, 1), (1, 2), (2, 3)];
    let graph = Graph::new(6, &edges).unwrap();
    let seeds: Vec<usize> = vec![0];
    let mut engine = Engine::new(graph, &seeds, 1).unwrap();
    for _ in 0..10 {
        engine.tick(1);
    }
    let (generation, infected) = engine.snapshot();
    assert_eq!(generation, 10);
    assert_eq!(infected, vec![0, 1, 2, 3]);
}

#[test]
fn infected_set_grows_monotonically() {
    let mut engine = path_engine(3);
    let elapsed: [u64; 9] = [1, 1, 1, 4, 2, 2, 9, 1, 3];
    let (_, mut previous) = engine.snapshot();
    for &e in elapsed.iter() {
        engine.tick(e);
        let (_, current) = engine.snapshot();
        assert!(previous.iter().all(|id| current.contains(id)));
        previous = current;
    }
}

#[test]
fn zero_delay_fires_on_every_tick() {
    let mut engine = path_engine(0);
    engine.tick(0);
    assert_eq!(engine.snapshot(), (1, vec![0, 1]));
    engine.tick(0);
    assert_eq!(engine.snapshot(), (2, vec![0, 1, 2]));
}

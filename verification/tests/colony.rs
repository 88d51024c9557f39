use aco_mcp_rust::algorithms::aco::{
    aco_procedure, choose_best_clique, construct_clique, ACO,
};
use aco_mcp_rust::algorithms::edge_ac::EdgeAC;
use aco_mcp_rust::algorithms::vertex_ac::VertexAC;
use aco_mcp_rust::models::graph::{parse_usize, Graph, GraphError};
use aco_mcp_rust::models::parameters::Parameters;
use aco_mcp_rust::models::rng::ColonyRng;

fn triangle() -> Graph {
    Graph::new(b"c triangle\n3 3\n1 2\n2 3\n1 3").expect("triangle parses")
}

fn params_for(graph: Graph, cycles: usize, ants: usize) -> Parameters {
    Parameters::new(graph, cycles, ants, 1, 95, 100, 6000, 100, 1000).expect("valid parameters")
}

#[test]
fn parse_small_graph() {
    let g = Graph::new(b"p edge\n4 3\n1 2\n2 3\n1 3").expect("parses");
    assert_eq!(g.n_vertex, 4);
    assert!(g.is_edge(0, 1));
    assert!(g.is_edge(1, 0));
    assert!(g.is_edge(1, 2));
    assert!(g.is_edge(0, 2));
    assert!(!g.is_edge(0, 3));
    assert!(!g.is_edge(1, 3));
    assert_eq!(g.get_neighbor_candidates(1), vec![0, 2]);
    assert_eq!(g.get_neighbor_candidates(3), Vec::<usize>::new());
}

#[test]
fn parse_crlf_and_trailing_newline() {
    let g = Graph::new(b"x\r\n3 2\r\n1 2\r\n2 3\r\n").expect("parses");
    assert_eq!(g.n_vertex, 3);
    assert!(g.is_edge(0, 1));
    assert!(g.is_edge(1, 2));
    assert!(!g.is_edge(0, 2));
}

#[test]
fn parse_header_with_extra_tokens() {
    let g = Graph::new(b"x\n3 2 7 8\n1 2").expect("parses");
    assert_eq!(g.n_vertex, 3);
    assert!(g.is_edge(0, 1));
}

#[test]
fn parse_missing_header() {
    assert!(matches!(Graph::new(b""), Err(GraphError::InvalidHeader)));
    assert!(matches!(Graph::new(b"only one line"), Err(GraphError::InvalidHeader)));
    assert!(matches!(Graph::new(b"x\n3 a\n1 2"), Err(GraphError::InvalidHeader)));
    assert!(matches!(Graph::new(b"x\n3\n1 2"), Err(GraphError::InvalidHeader)));
}

#[test]
fn parse_bad_edge_lines() {
    assert!(matches!(Graph::new(b"x\n3 1\n1 4"), Err(GraphError::InvalidEdge)));
    assert!(matches!(Graph::new(b"x\n3 1\n0 2"), Err(GraphError::InvalidEdge)));
    assert!(matches!(Graph::new(b"x\n3 1\n2 2"), Err(GraphError::InvalidEdge)));
    assert!(matches!(Graph::new(b"x\n3 2\n1 2\nfoo"), Err(GraphError::InvalidEdge)));
    assert!(matches!(Graph::new(b"x\n3 2\n1"), Err(GraphError::InvalidEdge)));
    assert!(matches!(Graph::new(b"x\n3 2\n1 2\n\n"), Err(GraphError::InvalidEdge)));
}

#[test]
fn parse_usize_tokens() {
    assert_eq!(parse_usize(b"123"), Some(123));
    assert_eq!(parse_usize(b"0"), Some(0));
    assert_eq!(parse_usize(b""), None);
    assert_eq!(parse_usize(b"12x"), None);
    assert_eq!(parse_usize(b"99999999999999999999999999999999"), None);
}

#[test]
fn parameters_validation() {
    assert!(Parameters::new(triangle(), 5, 2, 1, 95, 100, 6000, 100, 1000).is_some());
    assert!(Parameters::new(triangle(), 5, 0, 1, 95, 100, 6000, 100, 1000).is_none());
    assert!(Parameters::new(triangle(), 5, 2, 1, 0, 100, 6000, 100, 1000).is_none());
    assert!(Parameters::new(triangle(), 5, 2, 1, 101, 100, 6000, 100, 1000).is_none());
    assert!(Parameters::new(triangle(), 5, 2, 1, 95, 100, 100, 6000, 1000).is_none());
    assert!(Parameters::new(triangle(), 5, 2, 1, 95, 100, 6000, 0, 1000).is_none());
    assert!(Parameters::new(triangle(), 5, 2, 1, 95, 100, 6000, 100, 0).is_none());
    let empty = Graph::new(b"x\n0 0").expect("empty graph parses");
    assert!(Parameters::new(empty, 5, 2, 1, 95, 100, 6000, 100, 1000).is_none());
}

#[test]
fn initial_trails_are_tau_max() {
    let p = params_for(triangle(), 1, 1);
    let v = VertexAC::new(&p);
    assert_eq!(v.pheromones, vec![6000, 6000, 6000]);
    let e = EdgeAC::new(&p);
    for u in 0..3 {
        for w in 0..3 {
            assert_eq!(e.pheromones[u][w], 6000);
        }
    }
}

#[test]
fn evaporation_drives_trails_to_tau_min() {
    let graph = triangle();
    let p = Parameters::new(graph, 1, 1, 1, 1, 2, 8, 3, 4).expect("valid parameters");
    let mut v = VertexAC::new(&p);
    v.decrement_pheromone(&p);
    assert_eq!(v.pheromones, vec![4, 4, 4]);
    v.decrement_pheromone(&p);
    assert_eq!(v.pheromones, vec![3, 3, 3]);
    v.decrement_pheromone(&p);
    assert_eq!(v.pheromones, vec![3, 3, 3]);
}

#[test]
fn edge_evaporation_clamps_at_tau_min() {
    let graph = triangle();
    let p = Parameters::new(graph, 1, 1, 1, 1, 10, 8, 3, 4).expect("valid parameters");
    let mut e = EdgeAC::new(&p);
    e.decrement_pheromone(&p);
    for u in 0..3 {
        for w in 0..3 {
            assert_eq!(e.pheromones[u][w], 3);
        }
    }
}

#[test]
fn vertex_reinforcement_raises_members_only() {
    let graph = triangle();
    let p = Parameters::new(graph, 1, 1, 1, 1, 2, 8, 1, 4).expect("valid parameters");
    let mut v = VertexAC::new(&p);
    v.decrement_pheromone(&p);
    assert_eq!(v.pheromones, vec![4, 4, 4]);
    let clique = vec![0, 2];
    v.increment_pheromone(&p, &2, &clique);
    assert_eq!(v.pheromones, vec![6, 4, 6]);
    v.increment_pheromone(&p, &100, &clique);
    assert_eq!(v.pheromones, vec![8, 4, 8]);
}

#[test]
fn edge_reinforcement_raises_internal_pairs_only() {
    let graph = triangle();
    let p = Parameters::new(graph, 1, 1, 1, 1, 2, 8, 1, 4).expect("valid parameters");
    let mut e = EdgeAC::new(&p);
    e.decrement_pheromone(&p);
    let clique = vec![0, 1];
    e.increment_pheromone(&p, &3, &clique);
    assert_eq!(e.pheromones[0][1], 7);
    assert_eq!(e.pheromones[1][0], 7);
    assert_eq!(e.pheromones[0][0], 4);
    assert_eq!(e.pheromones[1][1], 4);
    assert_eq!(e.pheromones[0][2], 4);
    assert_eq!(e.pheromones[2][1], 4);
}

#[test]
fn update_trail_uses_exact_delta() {
    let graph = triangle();
    let p = Parameters::new(graph, 1, 1, 1, 1, 2, 9000, 1, 1000).expect("valid parameters");
    let mut v = VertexAC::new(&p);
    let global_best = vec![0, 1];
    let generation_best = vec![0];
    aco_mcp_rust::algorithms::aco::update_pheromone_trail(
        &mut v,
        &p,
        &global_best,
        &generation_best,
    );
    // evaporation halves 9000 to 4500; delta = 1000 / (1 + 2 - 1) = 500
    assert_eq!(v.pheromones, vec![5000, 4500, 4500]);
}

#[test]
fn construction_fills_complete_graph() {
    let g = Graph::new(b"c k4\n4 6\n1 2\n1 3\n1 4\n2 3\n2 4\n3 4").expect("parses");
    let p = params_for(g, 1, 1);
    let model = VertexAC::new(&p);
    let mut rng = ColonyRng::seed_from_u64(7);
    let mut clique = construct_clique(&model, &p, 0, &mut rng);
    clique.sort();
    assert_eq!(clique, vec![0, 1, 2, 3]);
}

#[test]
fn construction_on_edgeless_graph_is_singleton() {
    let g = Graph::new(b"c empty\n5 0").expect("parses");
    let p = params_for(g, 1, 1);
    let model = VertexAC::new(&p);
    let mut rng = ColonyRng::seed_from_u64(11);
    let clique = construct_clique(&model, &p, 3, &mut rng);
    assert_eq!(clique, vec![3]);
}

#[test]
fn construction_yields_a_clique() {
    // a path 1-2-3-4: cliques have at most two vertices
    let g = Graph::new(b"c path\n4 3\n1 2\n2 3\n3 4").expect("parses");
    let p = params_for(g, 1, 1);
    let model = EdgeAC::new(&p);
    let mut rng = ColonyRng::seed_from_u64(3);
    for start in 0..4 {
        let clique = construct_clique(&model, &p, start, &mut rng);
        assert!(clique.contains(&start));
        for i in 0..clique.len() {
            for j in 0..clique.len() {
                if i != j {
                    assert!(p.graph.is_edge(clique[i], clique[j]));
                }
            }
        }
    }
}

#[test]
fn zero_cycles_returns_empty_clique() {
    let p = params_for(triangle(), 0, 2);
    let mut model = VertexAC::new(&p);
    let mut rng = ColonyRng::seed_from_u64(5);
    let best = aco_procedure(&mut model, &p, &mut rng);
    assert!(best.is_empty());
}

#[test]
fn colony_finds_the_triangle_in_both_variants() {
    let p = params_for(triangle(), 3, 2);
    let mut vertex_model = VertexAC::new(&p);
    let mut rng = ColonyRng::seed_from_u64(21);
    let best_vertex = aco_procedure(&mut vertex_model, &p, &mut rng);
    assert_eq!(best_vertex.len(), 3);

    let mut edge_model = EdgeAC::new(&p);
    let mut rng2 = ColonyRng::seed_from_u64(22);
    let best_edge = aco_procedure(&mut edge_model, &p, &mut rng2);
    assert_eq!(best_edge.len(), best_vertex.len());
}

#[test]
fn runs_with_one_seed_agree() {
    let p = params_for(triangle(), 4, 3);
    let mut first_model = VertexAC::new(&p);
    let mut first_rng = ColonyRng::seed_from_u64(99);
    let first = aco_procedure(&mut first_model, &p, &mut first_rng);
    let mut second_model = VertexAC::new(&p);
    let mut second_rng = ColonyRng::seed_from_u64(99);
    let second = aco_procedure(&mut second_model, &p, &mut second_rng);
    assert_eq!(first, second);
}

#[test]
fn choose_best_prefers_the_larger_clique() {
    let mut rng = ColonyRng::seed_from_u64(1);
    let big = vec![0, 1];
    let small = vec![5];
    assert_eq!(choose_best_clique(&big, &small, &mut rng), big);
    assert_eq!(choose_best_clique(&small, &big, &mut rng), big);
    assert_eq!(choose_best_clique(&Vec::new(), &small, &mut rng), small);
}

#[test]
fn choose_best_tie_is_roughly_fair() {
    let mut rng = ColonyRng::seed_from_u64(42);
    let first = vec![1];
    let second = vec![2];
    let mut first_wins = 0usize;
    for _ in 0..2000 {
        let winner = choose_best_clique(&first, &second, &mut rng);
        if winner == first {
            first_wins += 1;
        } else {
            assert_eq!(winner, second);
        }
    }
    assert!(first_wins > 700, "first argument won only {} of 2000 ties", first_wins);
    assert!(first_wins < 1300, "first argument won {} of 2000 ties", first_wins);
}

#[test]
fn random_start_vertex_is_in_range() {
    let g = triangle();
    let mut rng = ColonyRng::seed_from_u64(8);
    for _ in 0..100 {
        assert!(g.select_random_vertex(&mut rng) < g.n_vertex);
    }
}

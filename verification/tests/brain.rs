use predator_vs_prey::brain::{NeuralNetwork, MIN_WEIGHT_BITS, PROBE_WEIGHT_BITS};
use predator_vs_prey::workload::{build_network, generate_pairs, try_link};
use rand::rngs::StdRng;
use rand::SeedableRng;

fn bits(w: f32) -> u32 {
    w.to_bits()
}

/// Two inputs, bias 2, one output (3), hidden nodes 4, 5, 6 chained 4 -> 5 -> 6.
fn chain_network() -> NeuralNetwork {
    let mut nn = NeuralNetwork::new_minimal(2, 1, bits(1.0));
    nn.add_neuron();
    nn.add_neuron();
    nn.add_neuron();
    nn.add_connection(4, 5, bits(0.5));
    nn.add_connection(5, 6, bits(-0.25));
    nn
}

#[test]
fn minimal_network_shape() {
    let nn = NeuralNetwork::new_minimal(3, 2, bits(1.0));
    assert_eq!(nn.num_neurons(), 6);
    assert_eq!(nn.input_matrix, vec![vec![0u32; 4]; 2]);
    assert_eq!(nn.hidden_matrix, vec![Vec::<u32>::new(); 2]);
    assert!(nn.eval_order.is_empty());
    assert_eq!(nn.num_connections(), 0);
}

#[test]
fn add_neuron_grows_both_matrices() {
    let mut nn = NeuralNetwork::new_minimal(2, 1, bits(1.0));
    nn.add_neuron();
    assert_eq!(nn.num_neurons(), 5);
    assert_eq!(nn.input_matrix.len(), 2);
    assert_eq!(nn.input_matrix[1], vec![0u32; 3]);
    assert_eq!(nn.hidden_matrix, vec![vec![0u32; 1]; 2]);
}

#[test]
fn add_connection_stores_weight() {
    let mut nn = NeuralNetwork::new_minimal(2, 1, bits(1.0));
    nn.add_connection(0, 3, bits(0.5));
    assert_eq!(nn.connections(), vec![(0, 3, bits(0.5))]);
    nn.add_connection(2, 3, bits(0.0));
    assert_eq!(nn.input_matrix[0][2], MIN_WEIGHT_BITS);
    assert_eq!(f32::from_bits(MIN_WEIGHT_BITS), 0.01);
    assert_eq!(nn.num_connections(), 2);
    // An output cannot be a source: nothing changes.
    nn.add_connection(3, 3, bits(0.7));
    assert_eq!(nn.num_connections(), 2);
}

#[test]
fn split_connection_inserts_neuron() {
    let mut nn = NeuralNetwork::new_minimal(2, 1, bits(1.0));
    nn.add_connection(0, 3, bits(0.5));
    nn.split_connection(0);
    assert_eq!(nn.num_neurons(), 5);
    assert_eq!(nn.connections(), vec![(0, 4, bits(0.5)), (4, 3, bits(0.5))]);
}

#[test]
fn kahn_detects_cycle_and_clears_probe() {
    let mut nn = chain_network();
    assert!(nn.kahn_algorithm(6, 4));
    assert_eq!(nn.hidden_matrix[1][2], 0);
    assert_eq!(nn.num_connections(), 2);
}

#[test]
fn kahn_keeps_probe_without_cycle() {
    let mut nn = chain_network();
    assert!(!nn.kahn_algorithm(4, 6));
    assert_eq!(nn.hidden_matrix[3][0], PROBE_WEIGHT_BITS);
    assert_eq!(nn.eval_order, vec![1, 2, 3]);
}

#[test]
fn cycle_checks_agree() {
    for &(s, t) in &[(6, 4), (4, 6), (5, 4), (6, 5), (4, 4), (0, 4), (4, 3)] {
        let mut a = chain_network();
        let mut b = chain_network();
        let ca = a.kahn_algorithm(s, t);
        let cb = b.infinity_loop(s, t);
        assert_eq!(ca, cb, "pair ({}, {})", s, t);
        assert_eq!(a.input_matrix, b.input_matrix);
        assert_eq!(a.hidden_matrix, b.hidden_matrix);
    }
}

#[test]
fn self_loop_is_a_cycle() {
    let mut nn = chain_network();
    assert!(nn.infinity_loop(5, 5));
    assert_eq!(nn.hidden_matrix[2][1], 0);
}

#[test]
fn checks_between_non_hidden_nodes_change_nothing() {
    let mut nn = chain_network();
    let before = nn.hidden_matrix.clone();
    assert!(!nn.kahn_algorithm(0, 3));
    assert!(!nn.infinity_loop(1, 5));
    assert_eq!(nn.hidden_matrix, before);
}

#[test]
fn propose_connection_rejects_existing_and_cycles() {
    let mut nn = chain_network();
    assert_eq!(nn.propose_connection(4, 5), None);
    assert_eq!(nn.propose_connection(6, 4), None);
    assert_eq!(nn.propose_connection(0, 6), Some((0, 6)));
}

#[test]
fn mutations_keep_outputs_reachable_only_from_valid_sources() {
    let mut rng = StdRng::seed_from_u64(61);
    let mut nn = NeuralNetwork::new_minimal(3, 2, bits(1.0));
    for _ in 0..30 {
        if let Some((s, t)) = nn.create_new_connection(&mut rng) {
            assert!(s < 4 || s >= 6);
            assert!(t >= 4 && t < nn.num_neurons());
            nn.add_connection(s, t, bits(0.3));
        }
        nn.create_connected_neuron(&mut rng);
    }
    for (s, t, w) in nn.connections() {
        assert!(s < 4 || s >= 6);
        assert!(t >= 4);
        assert_ne!(w, 0);
    }
    if let Some((s, t, w)) = nn.pick_connection(&mut rng) {
        assert!(nn.connections().contains(&(s, t, w)));
    }
}

/// Whether the connections among hidden nodes admit an evaluation order.
fn hidden_layer_is_acyclic(nn: &NeuralNetwork) -> bool {
    let hidden_start = nn.num_inputs + 1 + nn.num_outputs;
    let hidden = nn.neuron_number - hidden_start;
    let mut indegree = vec![0usize; hidden];
    let mut edges = Vec::new();
    for (s, t, _) in nn.connections() {
        if s >= hidden_start && t >= hidden_start {
            edges.push((s - hidden_start, t - hidden_start));
            indegree[t - hidden_start] += 1;
        }
    }
    let mut ready: Vec<usize> = (0..hidden).filter(|&v| indegree[v] == 0).collect();
    let mut seen = 0;
    while let Some(v) = ready.pop() {
        seen += 1;
        for &(a, b) in &edges {
            if a == v {
                indegree[b] -= 1;
                if indegree[b] == 0 {
                    ready.push(b);
                }
            }
        }
    }
    seen == hidden
}

#[test]
fn mutations_keep_hidden_layer_acyclic() {
    let mut rng = StdRng::seed_from_u64(7);
    let mut nn = NeuralNetwork::new_minimal(4, 2, bits(0.5));
    for round in 0..200 {
        if round % 3 == 0 {
            nn.create_connected_neuron(&mut rng);
        }
        if let Some((s, t)) = nn.create_new_connection(&mut rng) {
            nn.add_connection(s, t, bits(-0.4));
        }
        if round % 7 == 0 {
            nn.add_neuron();
        }
        assert!(hidden_layer_is_acyclic(&nn), "round {}", round);
    }
    assert!(nn.num_neurons() > 7);
}

#[test]
fn cycle_checks_agree_on_a_request_sequence() {
    let base = build_network(30, 60, 2);
    assert_eq!(base.num_neurons(), 10 + 1 + 2 + 30);
    assert!(hidden_layer_is_acyclic(&base));
    let pairs = generate_pairs(&base, 99, 400);
    assert_eq!(pairs.len(), 400);
    let mut a = base.clone();
    let mut b = base.clone();
    let mut mismatches = 0;
    for &(s, t) in &pairs {
        assert!(s >= 13 && s < 43 && t >= 13 && t < 43);
        if a.infinity_loop(s, t) != b.kahn_algorithm(s, t) {
            mismatches += 1;
        }
        assert_eq!(a.hidden_matrix, b.hidden_matrix);
    }
    assert_eq!(mismatches, 0);
    assert!(hidden_layer_is_acyclic(&a));
}

#[test]
fn benchmark_network_links_come_from_hidden_nodes() {
    let nn = build_network(25, 40, 5);
    let links = nn.connections();
    assert!(links.len() <= 40);
    assert!(!links.is_empty());
    for (s, t, w) in links {
        assert!(s >= 13 && t >= 11);
        assert_eq!(f32::from_bits(w), 0.5);
    }
    assert!(hidden_layer_is_acyclic(&nn));
}

#[test]
fn changing_a_weight_keeps_the_layer_acyclic() {
    let mut rng = StdRng::seed_from_u64(11);
    let mut nn = build_network(12, 30, 3);
    for _ in 0..50 {
        if let Some((s, t, w)) = nn.pick_connection(&mut rng) {
            assert_ne!(w, 0);
            nn.add_connection(s, t, (f32::from_bits(w) + 0.05).to_bits());
            assert!(hidden_layer_is_acyclic(&nn));
        }
    }
}

#[test]
fn one_link_attempt() {
    let mut nn = NeuralNetwork::new_minimal(10, 2, bits(1.0));
    nn.add_neuron();
    nn.add_neuron();
    // hidden nodes 13 and 14; outputs 11 and 12.
    assert!(try_link(&mut nn, 13, 14));
    assert_eq!(nn.hidden_matrix[3][0], bits(0.5));
    assert!(!try_link(&mut nn, 14, 13));
    assert_eq!(nn.hidden_matrix[2][1], 0);
    assert!(!try_link(&mut nn, 13, 13));
    assert!(try_link(&mut nn, 14, 11));
    assert_eq!(nn.hidden_matrix[0][1], bits(0.5));
    assert_eq!(nn.num_connections(), 2);
    assert_eq!(build_network(0, 10, 1).num_connections(), 0);
}

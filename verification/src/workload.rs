//! Random networks and request pairs on which the two cycle checks are
//! compared and timed.
use vstd::prelude::*;
use crate::brain::{NetModel, NeuralNetwork, ZERO_WEIGHT_BITS};
use crate::mutation::{lemma_zero_matrix_links, link_count};
use crate::rng::{random_index, seeded_rng};

verus! {

/// Inputs of the networks of the comparison.
pub const NUM_INPUTS: usize = 10;

/// Outputs of the networks of the comparison.
pub const NUM_OUTPUTS: usize = 2;

/// Bias of the networks of the comparison (`binary32` bit pattern of `1.0`).
pub const BIAS_BITS: u32 = 0x3F80_0000;

/// Weight of the added connections (`binary32` bit pattern of `0.5`).
pub const LINK_WEIGHT_BITS: u32 = 0x3F00_0000;

/// A network of the comparison: its shape, with `hidden` hidden nodes.
pub open spec fn bench_shape(m: NetModel, hidden: int) -> bool {
    &&& m.num_inputs == NUM_INPUTS
    &&& m.num_outputs == NUM_OUTPUTS
    &&& m.bias == BIAS_BITS
    &&& m.hidden_count() == hidden
}

/// The weights of a network of the comparison: no connection from an input
/// or the bias, and every connection from a hidden node of weight `0.5`.
pub open spec fn bench_weights(m: NetModel) -> bool {
    &&& forall|r: int, c: int|
        0 <= r < m.input.len() && 0 <= c < m.input[r].len() ==> #[trigger] m.input[r][c]
            == ZERO_WEIGHT_BITS
    &&& forall|r: int, c: int|
        0 <= r < m.hidden.len() && 0 <= c < m.hidden[r].len() ==> #[trigger] m.hidden[r][c]
            == ZERO_WEIGHT_BITS || m.hidden[r][c] == LINK_WEIGHT_BITS
}

/// No connection at all.
pub open spec fn no_links(m: NetModel) -> bool {
    &&& forall|r: int, c: int|
        0 <= r < m.input.len() && 0 <= c < m.input[r].len() ==> #[trigger] m.input[r][c]
            == ZERO_WEIGHT_BITS
    &&& forall|r: int, c: int|
        0 <= r < m.hidden.len() && 0 <= c < m.hidden[r].len() ==> #[trigger] m.hidden[r][c]
            == ZERO_WEIGHT_BITS
}

/// The hidden cell of the connection `source -> target`.
pub open spec fn link_cell(m: NetModel, source: int, target: int) -> (int, int) {
    (target - m.in_bi(), source - m.hidden_start())
}

/// The hidden cell of `source -> target` holds exactly that connection:
/// setting it to `w` makes `w` the weight of `source -> target` and changes
/// no other pair.
pub proof fn lemma_link_cell_is_the_connection(m: NetModel, source: int, target: int, w: u32, s2: int, t2: int)
    requires
        m.wf(),
        m.hidden_start() <= source < m.neuron_number,
        m.valid_target(target),
        m.valid_source(s2),
        m.valid_target(t2),
    ensures
        m.with_hidden_cell(link_cell(m, source, target).0, link_cell(m, source, target).1, w).weight_at(
            source,
            target,
        ) == w,
        (s2, t2) != (source, target) ==> m.with_hidden_cell(
            link_cell(m, source, target).0,
            link_cell(m, source, target).1,
            w,
        ).weight_at(s2, t2) == m.weight_at(s2, t2),
{
    assert(m.hidden[target - m.in_bi()].len() == m.hidden_count());
    assert(m.hidden[t2 - m.in_bi()].len() == m.hidden_count());
    assert(m.input[t2 - m.in_bi()].len() == m.in_bi());
}

/// One attempt of [`build_network`]: the connection `source -> target` (from
/// a hidden node) is checked with the peeling cycle check and, where it
/// closes no cycle, set to weight `0.5`; where it would close one, its cell
/// is cleared. Returns whether it was kept. The kept connection, when both
/// ends are hidden, comes with a renewed evaluation order.
pub fn try_link(nn: &mut NeuralNetwork, source: usize, target: usize) -> (added: bool)
    requires
        old(nn)@.wf(),
        old(nn)@.hidden_start() <= source < old(nn)@.neuron_number,
        old(nn)@.in_bi() <= target < old(nn)@.neuron_number,
    ensures
        final(nn)@.wf(),
        added == (!old(nn)@.probes_hidden(source as int, target as int) || old(nn)@.probed(
            source as int,
            target as int,
        ).is_acyclic()),
        added ==> final(nn)@ == (NetModel {
            eval_order: final(nn)@.eval_order,
            ..old(nn)@.with_hidden_cell(
                link_cell(old(nn)@, source as int, target as int).0,
                link_cell(old(nn)@, source as int, target as int).1,
                LINK_WEIGHT_BITS,
            )
        }),
        added && !old(nn)@.probes_hidden(source as int, target as int) ==> final(nn)@.eval_order
            == old(nn)@.eval_order,
        added && old(nn)@.probes_hidden(source as int, target as int) ==> final(nn)@.is_eval_order(
            final(nn)@.eval_order,
        ),
        !added ==> final(nn)@ == old(nn)@.with_hidden_cell(
            link_cell(old(nn)@, source as int, target as int).0,
            link_cell(old(nn)@, source as int, target as int).1,
            ZERO_WEIGHT_BITS,
        ),
        old(nn)@.is_acyclic() ==> final(nn)@.is_acyclic(),
{
    let ghost before = nn@;
    let ghost r = target - before.in_bi();
    let ghost c = source - before.hidden_start();
    let cycle = nn.infinity_loop(source, target);
    let ghost mid = nn@;
    proof {
        if before.is_acyclic() {
            crate::acyclic::lemma_check_keeps_acyclic(before, mid, source as int, target as int, cycle);
        }
    }
    if cycle {
        return false;
    }
    proof {
        if before.is_acyclic() {
            crate::acyclic::lemma_checked_connection_keeps_acyclic(
                before,
                mid,
                source as int,
                target as int,
                LINK_WEIGHT_BITS,
            );
        }
    }
    nn.add_connection(source, target, LINK_WEIGHT_BITS);
    proof {
        let f = nn@;
        let expect = before.with_hidden_cell(r, c, LINK_WEIGHT_BITS);
        assert(crate::brain::stored_weight(LINK_WEIGHT_BITS) == LINK_WEIGHT_BITS);
        if before.probes_hidden(source as int, target as int) {
            assert(mid.hidden == before.probed(source as int, target as int).hidden);
            assert(f.hidden == mid.with_hidden_cell(r, c, LINK_WEIGHT_BITS).hidden);
            assert(f.hidden[r] =~= expect.hidden[r]);
            assert(f.hidden =~= expect.hidden);
            assert(f.is_eval_order(f.eval_order)) by {
                let p = before.probed(source as int, target as int);
                assert(p.is_eval_order(mid.eval_order));
                assert forall|x: int, y: int|
                    p.is_hidden_act(x) && p.is_hidden_act(y) && #[trigger] f.edge(x, y) implies p.edge(
                    x,
                    y,
                ) by {
                    if !(y == r && x - p.num_outputs == c) {
                        assert(f.hidden[y][x - p.num_outputs] == p.hidden[y][x - p.num_outputs]);
                    }
                }
                crate::acyclic::lemma_order_survives_fewer_edges(p, f, mid.eval_order);
            }
        } else {
            assert(mid == before);
            assert(f == before.with_hidden_cell(r, c, LINK_WEIGHT_BITS));
        }
        assert(f =~= (NetModel { eval_order: f.eval_order, ..expect }));
    }
    true
}

/// Builds a network with `hidden_neurons` hidden nodes and then tries, at
/// most `max(20 * extra_connections, extra_connections)` times (saturating),
/// to add a connection of weight `0.5` from a random hidden node to a random
/// output or hidden node, keeping those that close no cycle, until
/// `extra_connections` were added. The generator is seeded with `seed`.
/// The result has no connection from an input or the bias, at most
/// `extra_connections` connections, all of weight `0.5`, and no cycle.
pub fn build_network(hidden_neurons: usize, extra_connections: usize, seed: u64) -> (nn:
    NeuralNetwork)
    requires
        hidden_neurons <= usize::MAX - (NUM_INPUTS + 1 + NUM_OUTPUTS),
    ensures
        nn@.wf(),
        nn@.is_acyclic(),
        bench_shape(nn@, hidden_neurons as int),
        bench_weights(nn@),
        nn@.links().len() <= extra_connections,
        hidden_neurons == 0 ==> nn@.links().len() == 0,
{
    let mut rng = seeded_rng(seed);
    let mut nn = NeuralNetwork::new_minimal(NUM_INPUTS, NUM_OUTPUTS, BIAS_BITS);
    let mut h: usize = 0;
    while h < hidden_neurons
        invariant
            h <= hidden_neurons,
            hidden_neurons <= usize::MAX - (NUM_INPUTS + 1 + NUM_OUTPUTS),
            nn@.wf(),
            nn@.is_acyclic(),
            bench_shape(nn@, h as int),
            no_links(nn@),
        decreases hidden_neurons - h,
    {
        let ghost before = nn@;
        nn.add_neuron();
        proof {
            let g = nn@;
            assert forall|r: int, c: int|
                0 <= r < g.hidden.len() && 0 <= c < g.hidden[r].len() implies #[trigger] g.hidden[r][c]
                == ZERO_WEIGHT_BITS by {
                if r < before.hidden.len() {
                    assert(g.hidden[r] == before.hidden[r].push(ZERO_WEIGHT_BITS));
                    if c < before.hidden[r].len() {
                        assert(g.hidden[r][c] == before.hidden[r][c]);
                    }
                }
            }
            assert forall|r: int, c: int|
                0 <= r < g.input.len() && 0 <= c < g.input[r].len() implies #[trigger] g.input[r][c]
                == ZERO_WEIGHT_BITS by {
                if r < before.input.len() {
                    assert(g.input[r] == before.input[r]);
                }
            }
        }
        h = h + 1;
    }
    proof {
        let m = nn@;
        assert forall|r: int, c: int|
            0 <= r < m.input.len() && 0 <= c < m.input[r].len() implies #[trigger] crate::brain::is_zero_weight(
            m.input[r][c],
        ) by {
            assert(m.input[r][c] == ZERO_WEIGHT_BITS);
        }
        assert forall|r: int, c: int|
            0 <= r < m.hidden.len() && 0 <= c < m.hidden[r].len() implies #[trigger] crate::brain::is_zero_weight(
            m.hidden[r][c],
        ) by {
            assert(m.hidden[r][c] == ZERO_WEIGHT_BITS);
        }
        lemma_zero_matrix_links(m.input, 0, m.in_bi());
        lemma_zero_matrix_links(m.hidden, m.hidden_start(), m.in_bi());
    }
    let in_bi = nn.num_inputs + 1;
    let hidden_start = in_bi + nn.num_outputs;
    let mut attempts: usize = 0;
    let twenty = match extra_connections.checked_mul(20) {
        Some(v) => v,
        None => usize::MAX,
    };
    let max_attempts = if twenty > extra_connections {
        twenty
    } else {
        extra_connections
    };
    let mut added: usize = 0;
    while added < extra_connections && attempts < max_attempts
        invariant
            nn@.wf(),
            nn@.is_acyclic(),
            bench_shape(nn@, hidden_neurons as int),
            in_bi == nn@.in_bi(),
            hidden_start == nn@.hidden_start(),
            added <= extra_connections,
            attempts <= max_attempts,
            bench_weights(nn@),
            nn@.links().len() <= added,
            hidden_neurons == 0 ==> added == 0,
        decreases max_attempts - attempts,
    {
        attempts = attempts + 1;
        if hidden_start >= nn.neuron_number || in_bi >= nn.neuron_number {
            break;
        }
        let s = random_index(&mut rng, hidden_start, nn.neuron_number);
        let t = random_index(&mut rng, in_bi, nn.neuron_number);
        let ghost before = nn@;
        let ok = try_link(&mut nn, s, t);
        proof {
            let r = t - in_bi;
            let c = s - hidden_start;
            let f = nn@;
            let w = if ok { LINK_WEIGHT_BITS } else { ZERO_WEIGHT_BITS };
            before.lemma_hidden_update_links_len(r, c, w);
            assert(f.links() == before.with_hidden_cell(r, c, w).links());
            assert forall|i: int, j: int|
                0 <= i < f.hidden.len() && 0 <= j < f.hidden[i].len() implies #[trigger] f.hidden[i][j]
                == ZERO_WEIGHT_BITS || f.hidden[i][j] == LINK_WEIGHT_BITS by {
                if i != r || j != c {
                    assert(f.hidden[i][j] == before.hidden[i][j]);
                }
            }
        }
        if ok {
            added = added + 1;
        }
    }
    nn
}

/// Draws `queries` pairs of hidden nodes, each node uniformly among the
/// hidden nodes, from the generator seeded with `seed`.
pub fn generate_pairs(nn: &NeuralNetwork, seed: u64, queries: usize) -> (pairs: Vec<(usize, usize)>)
    requires
        nn@.hidden_start() < nn@.neuron_number,
    ensures
        pairs@.len() == queries,
        forall|k: int|
            0 <= k < pairs@.len() ==> nn@.hidden_start() <= (#[trigger] pairs@[k]).0 < nn@.neuron_number
                && nn@.hidden_start() <= pairs@[k].1 < nn@.neuron_number,
{
    let mut rng = seeded_rng(seed);
    let hidden_start = nn.num_inputs + 1 + nn.num_outputs;
    let mut pairs: Vec<(usize, usize)> = Vec::new();
    let mut q: usize = 0;
    while q < queries
        invariant
            q <= queries,
            pairs@.len() == q,
            hidden_start == nn@.hidden_start(),
            hidden_start < nn@.neuron_number,
            forall|k: int|
                0 <= k < pairs@.len() ==> hidden_start <= (#[trigger] pairs@[k]).0 < nn@.neuron_number
                    && hidden_start <= pairs@[k].1 < nn@.neuron_number,
        decreases queries - q,
    {
        let s = random_index(&mut rng, hidden_start, nn.neuron_number);
        let t = random_index(&mut rng, hidden_start, nn.neuron_number);
        pairs.push((s, t));
        q = q + 1;
    }
    pairs
}

} // verus!

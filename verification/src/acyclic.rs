//! The hidden layer stays free of cycles under every structural mutation:
//! adding a neuron, splitting a connection, and adding a connection that the
//! cycle check accepted.
use vstd::prelude::*;
use crate::brain::{is_zero_weight, NetModel};
use crate::cycles::cycle_check_post;
use crate::seq_facts::lemma_distinct_in_range;

verus! {

/// Every connection between hidden nodes of `b` is one of `a`, over the same
/// hidden nodes.
pub open spec fn fewer_hidden_edges(a: NetModel, b: NetModel) -> bool {
    &&& a.num_outputs == b.num_outputs
    &&& a.rows() == b.rows()
    &&& a.hidden_count() == b.hidden_count()
    &&& forall|x: int, y: int|
        a.is_hidden_act(x) && a.is_hidden_act(y) && #[trigger] b.edge(x, y) ==> a.edge(x, y)
}

/// An evaluation order stays one when connections among hidden nodes are
/// only removed.
pub proof fn lemma_order_survives_fewer_edges(a: NetModel, b: NetModel, order: Seq<usize>)
    requires
        fewer_hidden_edges(a, b),
        a.is_eval_order(order),
    ensures
        b.is_eval_order(order),
{
    assert forall|i: int, j: int|
        0 <= i < order.len() && 0 <= j < order.len() && #[trigger] b.edge(
            order[j] as int,
            order[i] as int,
        ) implies j < i by {
        assert(a.is_hidden_act(order[j] as int));
        assert(a.is_hidden_act(order[i] as int));
        assert(a.edge(order[j] as int, order[i] as int));
    }
}

/// Adding an unconnected neuron keeps the hidden layer acyclic.
pub proof fn lemma_grown_keeps_acyclic(m: NetModel)
    requires
        m.wf(),
        m.is_acyclic(),
        m.neuron_number < usize::MAX,
    ensures
        m.grown().is_acyclic(),
{
    let order = choose|o: Seq<usize>| m.is_eval_order(o);
    let g = m.grown();
    let h = m.rows();
    let o2 = order.push(h as usize);
    assert forall|i: int| 0 <= i < o2.len() implies g.is_hidden_act(#[trigger] o2[i] as int) by {
        if i < order.len() {
            assert(m.is_hidden_act(order[i] as int));
        }
    }
    assert(o2.no_duplicates()) by {
        assert forall|i: int, j: int| 0 <= i < o2.len() && 0 <= j < o2.len() && i != j implies o2[i]
            != o2[j] by {
            if i < order.len() && j < order.len() {
            } else if i < order.len() {
                assert(m.is_hidden_act(order[i] as int));
            } else if j < order.len() {
                assert(m.is_hidden_act(order[j] as int));
            }
        }
    }
    assert forall|i: int, j: int|
        0 <= i < o2.len() && 0 <= j < o2.len() && #[trigger] g.edge(o2[j] as int, o2[i] as int) implies j
        < i by {
        let x = o2[j] as int;
        let y = o2[i] as int;
        if i == order.len() {
            assert(g.hidden[y] == Seq::new((m.hidden_count() + 1) as nat, |k: int| 0u32));
            assert(false);
        } else if j == order.len() {
            assert(m.is_hidden_act(y));
            assert(g.hidden[y] == m.hidden[y].push(0u32));
            assert(x - m.num_outputs == m.hidden_count());
            assert(false);
        } else {
            assert(m.is_hidden_act(x));
            assert(m.is_hidden_act(y));
            assert(g.hidden[y] == m.hidden[y].push(0u32));
            assert(m.edge(order[j] as int, order[i] as int));
        }
    }
    assert(g.is_eval_order(o2));
}

/// Adding the connection that a proposal accepted keeps the hidden layer
/// acyclic, whatever its weight.
pub proof fn lemma_accepted_connection_keeps_acyclic(
    m: NetModel,
    after: NetModel,
    source: int,
    target: int,
    w: u32,
)
    requires
        m.wf(),
        m.is_acyclic(),
        m.valid_source(source),
        m.valid_target(target),
        m.proposal_post(after, source, target, Some((source as usize, target as usize))),
    ensures
        after.connected(source, target, w).is_acyclic(),
{
    let cycle = choose|cycle: bool| cycle_check_post(m, after, source, target, cycle) && Some(
        (source as usize, target as usize),
    ) == (if cycle {
        None
    } else {
        Some((source as usize, target as usize))
    });
    assert(!cycle);
    let f = after.connected(source, target, w);
    if m.probes_hidden(source, target) {
        let p = m.probed(source, target);
        assert(p.is_eval_order(after.eval_order));
        assert forall|x: int, y: int|
            p.is_hidden_act(x) && p.is_hidden_act(y) && #[trigger] f.edge(x, y) implies p.edge(x, y) by {
            if y == target - m.in_bi() && x - m.num_outputs == source - m.hidden_start() {
                assert(!is_zero_weight(p.hidden[y][x - m.num_outputs]));
            } else {
                assert(f.hidden[y][x - m.num_outputs] == p.hidden[y][x - m.num_outputs]);
            }
        }
        lemma_order_survives_fewer_edges(p, f, after.eval_order);
    } else {
        let order = choose|o: Seq<usize>| m.is_eval_order(o);
        assert(after == m);
        assert forall|x: int, y: int|
            m.is_hidden_act(x) && m.is_hidden_act(y) && #[trigger] f.edge(x, y) implies m.edge(x, y) by {
            assert(f.hidden[y] == m.hidden[y]);
        }
        lemma_order_survives_fewer_edges(m, f, order);
    }
}

/// Adding a connection that a cycle check found free of cycles keeps the
/// hidden layer acyclic, whatever its weight.
pub proof fn lemma_checked_connection_keeps_acyclic(
    m: NetModel,
    after: NetModel,
    source: int,
    target: int,
    w: u32,
)
    requires
        m.wf(),
        m.is_acyclic(),
        m.valid_source(source),
        m.valid_target(target),
        cycle_check_post(m, after, source, target, false),
    ensures
        after.connected(source, target, w).is_acyclic(),
{
    let f = after.connected(source, target, w);
    if m.probes_hidden(source, target) {
        let p = m.probed(source, target);
        assert forall|x: int, y: int|
            p.is_hidden_act(x) && p.is_hidden_act(y) && #[trigger] f.edge(x, y) implies p.edge(x, y) by {
            if y == target - m.in_bi() && x - m.num_outputs == source - m.hidden_start() {
                assert(!is_zero_weight(p.hidden[y][x - m.num_outputs]));
            } else {
                assert(f.hidden[y][x - m.num_outputs] == p.hidden[y][x - m.num_outputs]);
            }
        }
        lemma_order_survives_fewer_edges(p, f, after.eval_order);
    } else {
        let order = choose|o: Seq<usize>| m.is_eval_order(o);
        assert forall|x: int, y: int|
            m.is_hidden_act(x) && m.is_hidden_act(y) && #[trigger] f.edge(x, y) implies m.edge(x, y) by {
            assert(f.hidden[y] == m.hidden[y]);
        }
        lemma_order_survives_fewer_edges(m, f, order);
    }
}

/// Changing the weight of an existing connection (the weight-change
/// mutation) keeps the hidden layer acyclic: the connection stays, with a
/// non-zero weight.
pub proof fn lemma_reweight_keeps_acyclic(m: NetModel, source: int, target: int, w: u32)
    requires
        m.wf(),
        m.is_acyclic(),
        m.valid_source(source),
        m.valid_target(target),
        !is_zero_weight(m.weight_at(source, target)),
    ensures
        m.connected(source, target, w).is_acyclic(),
{
    let f = m.connected(source, target, w);
    let order = choose|o: Seq<usize>| m.is_eval_order(o);
    assert forall|x: int, y: int|
        m.is_hidden_act(x) && m.is_hidden_act(y) && #[trigger] f.edge(x, y) implies m.edge(x, y) by {
        if source >= m.hidden_start() && y == target - m.in_bi() && x - m.num_outputs == source
            - m.hidden_start() {
            assert(!is_zero_weight(m.hidden[y][x - m.num_outputs]));
        } else {
            assert(f.hidden[y][x - m.num_outputs] == m.hidden[y][x - m.num_outputs]);
        }
    }
    lemma_order_survives_fewer_edges(m, f, order);
}

/// A cycle check keeps the hidden layer acyclic, whatever its answer.
pub proof fn lemma_check_keeps_acyclic(
    m: NetModel,
    after: NetModel,
    source: int,
    target: int,
    cycle: bool,
)
    requires
        m.wf(),
        m.is_acyclic(),
        m.probe_in_range(source, target),
        cycle_check_post(m, after, source, target, cycle),
    ensures
        after.is_acyclic(),
{
    if !m.probes_hidden(source, target) {
        assert(after == m);
    } else if cycle {
        let order = choose|o: Seq<usize>| m.is_eval_order(o);
        assert forall|x: int, y: int|
            m.is_hidden_act(x) && m.is_hidden_act(y) && #[trigger] after.edge(x, y) implies m.edge(
            x,
            y,
        ) by {
            if y == target - m.in_bi() && x - m.num_outputs == source - m.hidden_start() {
                assert(after.hidden[y][x - m.num_outputs] == 0);
            } else {
                assert(after.hidden[y][x - m.num_outputs] == m.hidden[y][x - m.num_outputs]);
            }
        }
        lemma_order_survives_fewer_edges(m, after, order);
    } else {
        let p = m.probed(source, target);
        assert(p.is_eval_order(after.eval_order));
        assert forall|x: int, y: int|
            p.is_hidden_act(x) && p.is_hidden_act(y) && #[trigger] after.edge(x, y) implies p.edge(
            x,
            y,
        ) by {}
        lemma_order_survives_fewer_edges(p, after, after.eval_order);
    }
}

/// Proposing a connection keeps the hidden layer acyclic, whatever the
/// answer.
pub proof fn lemma_proposal_keeps_acyclic(
    m: NetModel,
    after: NetModel,
    source: int,
    target: int,
    res: Option<(usize, usize)>,
)
    requires
        m.wf(),
        m.is_acyclic(),
        m.valid_source(source),
        m.valid_target(target),
        m.proposal_post(after, source, target, res),
    ensures
        after.is_acyclic(),
{
    if !is_zero_weight(m.weight_at(source, target)) {
        assert(after == m);
    } else {
        let cycle = choose|cycle: bool| cycle_check_post(m, after, source, target, cycle) && res == (
        if cycle {
            None
        } else {
            Some((source as usize, target as usize))
        });
        lemma_check_keeps_acyclic(m, after, source, target, cycle);
    }
}

/// Splitting an existing connection with a new neuron keeps the hidden
/// layer acyclic.
pub proof fn lemma_split_keeps_acyclic(m: NetModel, source: int, target: int, w: u32)
    requires
        m.wf(),
        m.is_acyclic(),
        m.neuron_number < usize::MAX,
        m.valid_source(source),
        m.valid_target(target),
        !is_zero_weight(m.weight_at(source, target)),
    ensures
        m.split(source, target, w).is_acyclic(),
{
    let order = choose|o: Seq<usize>| m.is_eval_order(o);
    let no = m.num_outputs as int;
    let c = m.cut(source, target);
    let g = c.grown();
    let n = m.neuron_number as int;
    let h = m.rows();
    let f1 = g.connected(source, n, w);
    let f = f1.connected(n, target, w);
    assert(f == m.split(source, target, w));
    let t_act = target - m.in_bi();
    let s_act = source - m.in_bi();
    // Connections of `f` between hidden nodes that existed before are
    // connections of `m`.
    assert forall|x: int, y: int|
        m.is_hidden_act(x) && m.is_hidden_act(y) && #[trigger] f.edge(x, y) implies m.edge(x, y) by {
        assert(g.hidden[y] == c.hidden[y].push(0u32));
        if source >= m.hidden_start() {
            assert(f1.hidden[y] == g.hidden[y]);
        }
        if y == t_act {
            assert(f.hidden[y] == f1.hidden[y].update(m.hidden_count(), f.hidden[y][m.hidden_count()]));
        }
        assert(f.hidden[y][x - no] == g.hidden[y][x - no]);
        if source >= m.hidden_start() && y == t_act && x == s_act {
            assert(c.hidden[y][x - no] == 0);
        } else {
            assert(c.hidden[y][x - no] == m.hidden[y][x - no]);
        }
    }
    // The new node feeds only the target, and only the source feeds it.
    assert forall|x: int| f.is_hidden_act(x) && #[trigger] f.edge(x, h) implies source
        >= m.hidden_start() && x == s_act by {
        assert(g.hidden[h] == Seq::new((m.hidden_count() + 1) as nat, |k: int| 0u32));
        if source < m.hidden_start() {
            assert(f1.hidden[h] == g.hidden[h]);
        }
        assert(f.hidden[h] == f1.hidden[h]);
    }
    assert forall|y: int| f.is_hidden_act(y) && y != h && #[trigger] f.edge(h, y) implies y == t_act by {
        assert(g.hidden[y] == c.hidden[y].push(0u32));
        if source >= m.hidden_start() {
            assert(f1.hidden[y] == g.hidden[y]);
        }
        if y != t_act {
            assert(f.hidden[y] == f1.hidden[y]);
            assert(f.hidden[y][h - no] == g.hidden[y][m.hidden_count()]);
        }
    }
    assert(!f.edge(h, h)) by {
        assert(g.hidden[h] == Seq::new((m.hidden_count() + 1) as nat, |k: int| 0u32));
        assert(f.hidden[h] == f1.hidden[h]);
    }
    proof_split_order(m, f, order, source, target);
}

/// The evaluation order after a split: the new node right after the source
/// when the source is hidden, first otherwise.
proof fn proof_split_order(m: NetModel, f: NetModel, order: Seq<usize>, source: int, target: int)
    requires
        m.wf(),
        m.is_eval_order(order),
        m.valid_source(source),
        m.valid_target(target),
        m.neuron_number < usize::MAX,
        source >= m.hidden_start() ==> m.edge(source - m.in_bi(), target - m.in_bi()),
        f.num_outputs == m.num_outputs,
        f.rows() == m.rows() + 1,
        f.hidden_count() == m.hidden_count() + 1,
        forall|x: int, y: int|
            m.is_hidden_act(x) && m.is_hidden_act(y) && #[trigger] f.edge(x, y) ==> m.edge(x, y),
        forall|x: int|
            f.is_hidden_act(x) && #[trigger] f.edge(x, m.rows()) ==> source >= m.hidden_start() && x
                == source - m.in_bi(),
        forall|y: int|
            f.is_hidden_act(y) && y != m.rows() && #[trigger] f.edge(m.rows(), y) ==> y == target
                - m.in_bi(),
        !f.edge(m.rows(), m.rows()),
    ensures
        f.is_acyclic(),
{
    let h = m.rows();
    let hu = h as usize;
    let s_act = source - m.in_bi();
    let t_act = target - m.in_bi();
    assert forall|i: int| 0 <= i < order.len() implies (#[trigger] order[i] as int) < h by {
        assert(m.is_hidden_act(order[i] as int));
    }
    // Position of the new node, and the order with it inserted there.
    let p: int = if source >= m.hidden_start() {
        lemma_distinct_in_range(order, m.num_outputs as int, h);
        assert(order.contains(s_act as usize));
        let k = choose|k: int| 0 <= k < order.len() && order[k] == s_act as usize;
        k + 1
    } else {
        0
    };
    assert(0 <= p <= order.len());
    let o2 = order.subrange(0, p) + seq![hu] + order.subrange(p, order.len() as int);
    assert(o2.len() == order.len() + 1);
    // Old position of each entry of `o2` other than the new node.
    assert forall|k: int| 0 <= k < o2.len() && k != p implies #[trigger] o2[k] == order[if k < p {
        k
    } else {
        k - 1
    }] by {}
    assert(o2[p] == hu);
    assert forall|i: int| 0 <= i < o2.len() implies f.is_hidden_act(#[trigger] o2[i] as int) by {
        if i != p {
            let oi = if i < p { i } else { i - 1 };
            assert(o2[i] == order[oi]);
            assert(m.is_hidden_act(order[oi] as int));
        }
    }
    assert(o2.no_duplicates()) by {
        assert forall|i: int, j: int| 0 <= i < o2.len() && 0 <= j < o2.len() && i != j implies o2[i]
            != o2[j] by {
            let oi = if i < p { i } else { i - 1 };
            let oj = if j < p { j } else { j - 1 };
            if i == p {
                assert(o2[j] == order[oj]);
                assert((order[oj] as int) < h);
            } else if j == p {
                assert(o2[i] == order[oi]);
                assert((order[oi] as int) < h);
            } else {
                assert(o2[i] == order[oi]);
                assert(o2[j] == order[oj]);
                assert(oi != oj);
            }
        }
    }
    assert forall|i: int, j: int|
        0 <= i < o2.len() && 0 <= j < o2.len() && #[trigger] f.edge(o2[j] as int, o2[i] as int) implies j
        < i by {
        let oi = if i < p { i } else { i - 1 };
        let oj = if j < p { j } else { j - 1 };
        if i == p && j == p {
        } else if i == p {
            // An edge into the new node comes from the source, placed right before it.
            assert(o2[j] == order[oj]);
            assert(f.is_hidden_act(o2[j] as int));
            assert(source >= m.hidden_start() && o2[j] as int == s_act);
            assert(order[p - 1] == s_act as usize);
            assert(order.no_duplicates());
            assert(oj == p - 1);
        } else if j == p {
            // An edge out of the new node goes to the target, which comes after the source.
            assert(o2[i] == order[oi]);
            assert(f.is_hidden_act(o2[i] as int));
            assert(o2[i] as int == t_act);
            if source >= m.hidden_start() {
                assert(order[p - 1] == s_act as usize);
                assert(m.is_hidden_act(t_act));
                assert(m.edge(order[p - 1] as int, order[oi] as int));
                assert(p - 1 < oi);
            }
        } else {
            assert(o2[i] == order[oi]);
            assert(o2[j] == order[oj]);
            assert(m.is_hidden_act(order[oi] as int));
            assert(m.is_hidden_act(order[oj] as int));
            assert(m.edge(order[oj] as int, order[oi] as int));
        }
    }
    assert(f.is_eval_order(o2));
}

} // verus!

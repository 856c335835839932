//! Cycle checks on the hidden layer: before a connection between two hidden
//! nodes is kept, the network makes sure that the hidden nodes still have an
//! evaluation order.
use vstd::prelude::*;
use crate::brain::{
    is_zero_weight, lemma_rows_view_update, rows_view, weight_is_zero, NetModel, NeuralNetwork,
    PROBE_WEIGHT_BITS, ZERO_WEIGHT_BITS,
};
use crate::seq_facts::{
    lemma_covering_len, lemma_distinct_in_range, lemma_drop_last_contains, lemma_push_contains,
    lemma_push_no_duplicates,
};

use crate::acyclic::{fewer_hidden_edges, lemma_order_survives_fewer_edges};

verus! {

impl NetModel {
    /// Connection from hidden node `u` to hidden node `v`, both given by
    /// their position among the hidden nodes.
    pub open spec fn hedge(self, u: int, v: int) -> bool {
        self.edge(self.num_outputs + u, self.num_outputs + v)
    }

    /// Number of hidden nodes `u < n` outside `done` that feed hidden node `v`.
    pub open spec fn open_preds(self, v: int, done: Seq<usize>, n: int) -> int
        decreases n,
    {
        if n <= 0 {
            0
        } else {
            self.open_preds(v, done, n - 1) + if self.hedge(n - 1, v) && !done.contains(
                (n - 1) as usize,
            ) {
                1int
            } else {
                0int
            }
        }
    }

    /// Both ends of a requested connection are hidden nodes.
    pub open spec fn probes_hidden(self, source: int, target: int) -> bool {
        source >= self.hidden_start() && target >= self.hidden_start()
    }

    /// A cycle check on `source -> target` indexes only existing nodes.
    pub open spec fn probe_in_range(self, source: int, target: int) -> bool {
        self.probes_hidden(source, target) ==> (source < self.neuron_number && target
            < self.neuron_number)
    }
}

/// What a cycle check on `source -> target` does, with `cycle` its answer:
/// unless both ends are hidden it answers `false` and changes nothing;
/// otherwise it places the probe edge and answers whether the hidden layer
/// then has a cycle. On a cycle the probed cell is cleared again and the
/// evaluation order kept; without one the probe edge stays and the
/// evaluation order becomes an evaluation order of the probed network.
pub open spec fn cycle_check_post(
    before: NetModel,
    after: NetModel,
    source: int,
    target: int,
    cycle: bool,
) -> bool {
    if !before.probes_hidden(source, target) {
        !cycle && after == before
    } else {
        let p = before.probed(source, target);
        &&& cycle == !p.is_acyclic()
        &&& cycle ==> after == before.with_hidden_cell(
            target - before.in_bi(),
            source - before.hidden_start(),
            ZERO_WEIGHT_BITS,
        )
        &&& !cycle ==> after == NetModel { eval_order: after.eval_order, ..p }
        &&& !cycle ==> p.is_eval_order(after.eval_order)
    }
}

pub proof fn lemma_open_preds_bounds(m: NetModel, v: int, done: Seq<usize>, n: int)
    requires
        n >= 0,
    ensures
        0 <= m.open_preds(v, done, n) <= n,
    decreases n,
{
    if n > 0 {
        lemma_open_preds_bounds(m, v, done, n - 1);
    }
}

pub proof fn lemma_open_preds_push(m: NetModel, v: int, done: Seq<usize>, x: usize, n: int)
    requires
        0 <= n <= usize::MAX,
        !done.contains(x),
    ensures
        m.open_preds(v, done.push(x), n) == m.open_preds(v, done, n) - if (x as int) < n && m.hedge(
            x as int,
            v,
        ) {
            1int
        } else {
            0int
        },
    decreases n,
{
    lemma_push_contains(done, x);
    if n > 0 {
        lemma_open_preds_push(m, v, done, x, n - 1);
        let y = (n - 1) as usize;
        assert(done.push(x).contains(y) <==> (done.contains(y) || y == x));
    }
}

pub proof fn lemma_open_preds_zero(m: NetModel, v: int, done: Seq<usize>, n: int)
    requires
        0 <= n <= usize::MAX,
        m.open_preds(v, done, n) == 0,
    ensures
        forall|u: usize| (u as int) < n && #[trigger] m.hedge(u as int, v) ==> done.contains(u),
    decreases n,
{
    if n > 0 {
        lemma_open_preds_bounds(m, v, done, n - 1);
        lemma_open_preds_zero(m, v, done, n - 1);
    }
}

pub proof fn lemma_open_preds_pos(m: NetModel, v: int, done: Seq<usize>, n: int)
    requires
        0 <= n <= usize::MAX,
        m.open_preds(v, done, n) > 0,
    ensures
        exists|u: usize| (u as int) < n && #[trigger] m.hedge(u as int, v) && !done.contains(u),
    decreases n,
{
    if n > 0 {
        if m.open_preds(v, done, n - 1) > 0 {
            lemma_open_preds_pos(m, v, done, n - 1);
            let u = choose|u: usize| (u as int) < n - 1 && #[trigger] m.hedge(u as int, v) && !done.contains(u);
            assert((u as int) < n && m.hedge(u as int, v) && !done.contains(u));
        } else {
            let u = (n - 1) as usize;
            assert(m.hedge(u as int, v) && !done.contains(u));
        }
    }
}

proof fn lemma_first_open(o: Seq<usize>, done: Seq<usize>, no: int, i: int, k: int) -> (p: int)
    requires
        0 <= i <= k < o.len(),
        !done.contains((o[k] - no) as usize),
        forall|q: int| 0 <= q < i ==> done.contains((#[trigger] o[q] - no) as usize),
    ensures
        i <= p <= k,
        !done.contains((o[p] - no) as usize),
        forall|q: int| 0 <= q < p ==> done.contains((#[trigger] o[q] - no) as usize),
    decreases k - i,
{
    if !done.contains((o[i] - no) as usize) {
        i
    } else {
        lemma_first_open(o, done, no, i + 1, k)
    }
}

/// If every hidden node outside `done` is fed by a hidden node outside
/// `done`, and some hidden node lies outside `done`, the hidden layer has a
/// cycle.
pub proof fn lemma_blocked_means_cycle(m: NetModel, done: Seq<usize>, v0: usize)
    requires
        m.wf(),
        (v0 as int) < m.hidden_count(),
        !done.contains(v0),
        forall|v: usize|
            #![trigger done.contains(v)]
            (v as int) < m.hidden_count() && !done.contains(v) ==> exists|u: usize|
                (u as int) < m.hidden_count() && !done.contains(u) && #[trigger] m.hedge(u as int, v as int),
    ensures
        !m.is_acyclic(),
{
    if m.is_acyclic() {
        let o = choose|o: Seq<usize>| m.is_eval_order(o);
        let no = m.num_outputs as int;
        let hc = m.hidden_count();
        lemma_distinct_in_range(o, no, no + hc);
        assert(o.contains((no + v0) as usize));
        let k = choose|k: int| 0 <= k < o.len() && o[k] == (no + v0) as usize;
        assert((o[k] - no) as usize == v0);
        let p = lemma_first_open(o, done, no, 0, k);
        let v = (o[p] - no) as usize;
        assert((v as int) < hc);
        assert(!done.contains(v));
        let u = choose|u: usize| (u as int) < hc && !done.contains(u) && #[trigger] m.hedge(u as int, v as int);
        assert(o.contains((no + u) as usize));
        let q = choose|q: int| 0 <= q < o.len() && o[q] == (no + u) as usize;
        assert(m.edge(o[q] as int, o[p] as int));
        assert(q < p);
        assert((o[q] - no) as usize == u);
        assert(done.contains((o[q] - no) as usize));
    }
}

/// The two cycle checks agree: on networks that differ at most in their
/// evaluation order, and on the same request, they give the same answer and
/// leave networks that again differ at most in their evaluation order. So a
/// sequence of requests run on two copies gets the same answers from both.
pub proof fn lemma_cycle_checks_agree(
    before_a: NetModel,
    before_b: NetModel,
    after_a: NetModel,
    after_b: NetModel,
    source: int,
    target: int,
    cycle_a: bool,
    cycle_b: bool,
)
    requires
        before_a == (NetModel { eval_order: before_a.eval_order, ..before_b }),
        cycle_check_post(before_a, after_a, source, target, cycle_a),
        cycle_check_post(before_b, after_b, source, target, cycle_b),
    ensures
        cycle_a == cycle_b,
        after_a == (NetModel { eval_order: after_a.eval_order, ..after_b }),
{
    if before_a.probes_hidden(source, target) {
        let pa = before_a.probed(source, target);
        let pb = before_b.probed(source, target);
        assert(pa == (NetModel { eval_order: pa.eval_order, ..pb }));
        assert(pa.hidden == pb.hidden);
        assert(pa.num_outputs == pb.num_outputs);
        assert(pa.neuron_number == pb.neuron_number);
        assert(pa.num_inputs == pb.num_inputs);
        assert(fewer_hidden_edges(pa, pb)) by {
            assert forall|x: int, y: int|
                pa.is_hidden_act(x) && pa.is_hidden_act(y) && #[trigger] pb.edge(x, y) implies pa.edge(
                x,
                y,
            ) by {}
        }
        assert(fewer_hidden_edges(pb, pa)) by {
            assert forall|x: int, y: int|
                pb.is_hidden_act(x) && pb.is_hidden_act(y) && #[trigger] pa.edge(x, y) implies pb.edge(
                x,
                y,
            ) by {}
        }
        if pa.is_acyclic() {
            let o = choose|o: Seq<usize>| pa.is_eval_order(o);
            lemma_order_survives_fewer_edges(pa, pb, o);
        }
        if pb.is_acyclic() {
            let o = choose|o: Seq<usize>| pb.is_eval_order(o);
            lemma_order_survives_fewer_edges(pb, pa, o);
        }
    }
}

/// A requested connection between hidden nodes that closes a loop is a
/// cycle: a node to itself, or `source -> target` where `target -> source`
/// is already connected. So the cycle checks refuse both.
pub proof fn lemma_probe_closing_loop_is_cycle(m: NetModel, source: int, target: int)
    requires
        m.wf(),
        m.hidden_start() <= source < m.neuron_number,
        m.hidden_start() <= target < m.neuron_number,
        source == target || !is_zero_weight(m.weight_at(target, source)),
    ensures
        !m.probed(source, target).is_acyclic(),
{
    let p = m.probed(source, target);
    let no = m.num_outputs as int;
    let hc = m.hidden_count();
    let a_s = source - m.in_bi();
    let a_t = target - m.in_bi();
    assert(m.hidden[a_t].len() == hc);
    assert(m.hidden[a_s].len() == hc);
    assert(p.edge(a_s, a_t)) by {
        assert(p.hidden[a_t][a_s - no] == 0x3F80_0000u32);
    }
    assert(p.edge(a_t, a_s)) by {
        if source != target {
            assert(p.hidden[a_s][a_t - no] == m.hidden[a_s][a_t - no]);
        }
    }
    if p.is_acyclic() {
        let o = choose|o: Seq<usize>| p.is_eval_order(o);
        lemma_distinct_in_range(o, no, no + hc);
        assert(o.contains(a_s as usize));
        assert(o.contains(a_t as usize));
        let i = choose|i: int| 0 <= i < o.len() && o[i] == a_s as usize;
        let j = choose|j: int| 0 <= j < o.len() && o[j] == a_t as usize;
        assert(p.edge(o[i] as int, o[j] as int));
        assert(p.edge(o[j] as int, o[i] as int));
        assert(i < j);
        assert(j < i);
    }
}

/// The hidden nodes in increasing order, with activation `a` moved first.
spec fn order_with_first(no: int, hc: int, a: int) -> Seq<usize> {
    Seq::new(
        hc as nat,
        |i: int|
            if i == 0 {
                a as usize
            } else if i - 1 < a - no {
                (no + i - 1) as usize
            } else {
                (no + i) as usize
            },
    )
}

/// That order lists each hidden activation once, `a` only at its start.
proof fn lemma_order_with_first(no: int, hc: int, a: int)
    requires
        0 <= no,
        no <= a < no + hc,
        no + hc <= usize::MAX,
    ensures
        order_with_first(no, hc, a).len() == hc,
        order_with_first(no, hc, a).no_duplicates(),
        forall|i: int|
            0 <= i < hc ==> no <= #[trigger] order_with_first(no, hc, a)[i] < no + hc,
        forall|i: int| 0 < i < hc ==> #[trigger] order_with_first(no, hc, a)[i] != a as usize,
        order_with_first(no, hc, a)[0] == a as usize,
{
    let o = order_with_first(no, hc, a);
    assert forall|i: int, k: int| 0 <= i < o.len() && 0 <= k < o.len() && i != k implies o[i] != o[k] by {}
}

/// While no hidden node feeds another, the only connection among hidden
/// nodes after the probe is the probe itself.
proof fn lemma_only_probe_edge(m: NetModel, source: int, target: int, x: int, y: int)
    requires
        m.wf(),
        m.hidden_start() <= source < m.neuron_number,
        m.hidden_start() <= target < m.neuron_number,
        forall|s: int, t: int|
            m.hidden_start() <= s < m.neuron_number && m.hidden_start() <= t < m.neuron_number
                ==> is_zero_weight(#[trigger] m.weight_at(s, t)),
        m.is_hidden_act(x),
        m.is_hidden_act(y),
        m.probed(source, target).edge(x, y),
    ensures
        x == source - m.in_bi(),
        y == target - m.in_bi(),
{
    let no = m.num_outputs as int;
    assert(m.hidden[y].len() == m.hidden_count());
    if !(x == source - m.in_bi() && y == target - m.in_bi()) {
        assert(m.probed(source, target).hidden[y][x - no] == m.hidden[y][x - no]);
        assert(is_zero_weight(m.weight_at(x + m.in_bi(), y + m.in_bi())));
    }
}

/// While no hidden node feeds another, a requested connection between two
/// different hidden nodes closes no cycle, so the cycle checks accept it.
pub proof fn lemma_probe_on_unconnected_hidden_is_no_cycle(m: NetModel, source: int, target: int)
    requires
        m.wf(),
        m.hidden_start() <= source < m.neuron_number,
        m.hidden_start() <= target < m.neuron_number,
        source != target,
        forall|s: int, t: int|
            m.hidden_start() <= s < m.neuron_number && m.hidden_start() <= t < m.neuron_number
                ==> is_zero_weight(#[trigger] m.weight_at(s, t)),
    ensures
        m.probed(source, target).is_acyclic(),
{
    let p = m.probed(source, target);
    let no = m.num_outputs as int;
    let hc = m.hidden_count();
    let a_s = source - m.in_bi();
    let a_t = target - m.in_bi();
    let o = order_with_first(no, hc, a_s);
    lemma_order_with_first(no, hc, a_s);
    assert forall|i: int| 0 <= i < o.len() implies p.is_hidden_act(#[trigger] o[i] as int) by {}
    assert forall|i: int, j: int|
        0 <= i < o.len() && 0 <= j < o.len() && #[trigger] p.edge(o[j] as int, o[i] as int) implies j < i by {
        lemma_only_probe_edge(m, source, target, o[j] as int, o[i] as int);
        if j != 0 {
            assert(o[j] != a_s as usize);
        }
        if i == 0 {
            assert(o[0] as int == a_s);
        }
    }
    assert(p.is_eval_order(o));
}

/// The hidden positions listed by Kahn's algorithm, turned into activation
/// indices, form an evaluation order once every hidden node is listed.
proof fn lemma_sorted_is_eval_order(m: NetModel, sorted: Seq<usize>, order: Seq<usize>)
    requires
        m.wf(),
        sorted.len() == m.hidden_count(),
        sorted.no_duplicates(),
        forall|i: int| 0 <= i < sorted.len() ==> #[trigger] sorted[i] < m.hidden_count(),
        forall|p: int, u: usize|
            0 <= p < sorted.len() && (u as int) < m.hidden_count() && #[trigger] m.hedge(
                u as int,
                sorted[p] as int,
            ) ==> sorted.subrange(0, p).contains(u),
        order.len() == sorted.len(),
        forall|k: int| 0 <= k < order.len() ==> #[trigger] order[k] == sorted[k] + m.num_outputs,
    ensures
        m.is_eval_order(order),
{
    assert forall|a: int, b: int|
        0 <= a < order.len() && 0 <= b < order.len() && a != b implies order[a] != order[b] by {
        assert(sorted[a] != sorted[b]);
    }
    assert forall|a: int, b: int|
        0 <= a < order.len() && 0 <= b < order.len() && #[trigger] m.edge(
            order[b] as int,
            order[a] as int,
        ) implies b < a by {
        assert(m.hedge(sorted[b] as int, sorted[a] as int));
        assert(sorted.subrange(0, a).contains(sorted[b]));
        let q = choose|q: int| 0 <= q < a && sorted.subrange(0, a)[q] == sorted[b];
        assert(sorted[q] == sorted[b]);
    }
}

/// When Kahn's algorithm lists fewer than all hidden nodes, the hidden
/// layer has a cycle.
proof fn lemma_short_order_means_cycle(m: NetModel, sorted: Seq<usize>)
    requires
        m.wf(),
        sorted.len() < m.hidden_count(),
        forall|v: usize|
            #![trigger sorted.contains(v)]
            (v as int) < m.hidden_count() && !sorted.contains(v) ==> exists|u: usize|
                (u as int) < m.hidden_count() && !sorted.contains(u) && #[trigger] m.hedge(u as int, v as int),
    ensures
        !m.is_acyclic(),
{
    let hc = m.hidden_count();
    if forall|x: int| 0 <= x < hc ==> #[trigger] sorted.contains(x as usize) {
        lemma_covering_len(sorted, 0, hc);
    }
    let x0 = choose|x: int| 0 <= x < hc && !#[trigger] sorted.contains(x as usize);
    lemma_blocked_means_cycle(m, sorted, x0 as usize);
}

/// Adds `no` to every entry.
fn shifted_order(sorted: &Vec<usize>, no: usize, hc: usize) -> (order: Vec<usize>)
    requires
        forall|k: int| 0 <= k < sorted@.len() ==> #[trigger] sorted@[k] < hc,
        no + hc <= usize::MAX,
    ensures
        order@.len() == sorted@.len(),
        forall|k: int| 0 <= k < order@.len() ==> #[trigger] order@[k] == sorted@[k] + no,
{
    let mut order: Vec<usize> = Vec::new();
    let mut i: usize = 0;
    while i < sorted.len()
        invariant
            forall|k: int| 0 <= k < sorted@.len() ==> #[trigger] sorted@[k] < hc,
            no + hc <= usize::MAX,
            i <= sorted@.len(),
            order@.len() == i,
            forall|k: int| 0 <= k < i ==> #[trigger] order@[k] == sorted@[k] + no,
        decreases sorted@.len() - i,
    {
        order.push(sorted[i] + no);
        i = i + 1;
    }
    order
}

impl NeuralNetwork {
    pub(crate) fn set_hidden_cell(&mut self, r: usize, c: usize, w: u32)
        requires
            old(self)@.wf(),
            r < old(self)@.rows(),
            c < old(self)@.hidden_count(),
        ensures
            final(self)@ == old(self)@.with_hidden_cell(r as int, c as int, w),
            final(self)@.wf(),
    {
        let ghost before = self.hidden_matrix@;
        assert(rows_view(before)[r as int] == before[r as int]@);
        assert(old(self)@.hidden[r as int].len() == old(self)@.hidden_count());
        let mut row: Vec<u32> = Vec::new();
        std::mem::swap(&mut row, &mut self.hidden_matrix[r]);
        row.set(c, w);
        self.hidden_matrix[r] = row;
        proof {
            lemma_rows_view_update(before, r as int, row);
        }
        assert(rows_view(self.hidden_matrix@) =~= old(self)@.with_hidden_cell(
            r as int,
            c as int,
            w,
        ).hidden);
        assert(self@ =~= old(self)@.with_hidden_cell(r as int, c as int, w));
    }

    /// In-degree of every hidden node within the hidden layer.
    fn hidden_in_degrees(&self) -> (deg: Vec<usize>)
        requires
            self@.wf(),
        ensures
            deg@.len() == self@.hidden_count(),
            forall|v: int|
                0 <= v < self@.hidden_count() ==> #[trigger] deg@[v] == self@.open_preds(
                    v,
                    Seq::empty(),
                    self@.hidden_count(),
                ),
    {
        let ghost m = self@;
        let no = self.num_outputs;
        let hc = self.neuron_number - (self.num_inputs + 1 + no);
        let mut deg: Vec<usize> = Vec::new();
        let mut r: usize = 0;
        while r < hc
            invariant
                m == self@,
                m.wf(),
                no == m.num_outputs,
                hc == m.hidden_count(),
                r <= hc,
                deg@.len() == r,
                forall|v: int|
                    0 <= v < r ==> #[trigger] deg@[v] == m.open_preds(v, Seq::empty(), hc as int),
            decreases hc - r,
        {
            assert(m.hidden[no + r] == self.hidden_matrix@[no + r]@);
            assert(m.hidden[no + r].len() == hc);
            let mut c: usize = 0;
            let mut d: usize = 0;
            while c < hc
                invariant
                    m == self@,
                    m.wf(),
                    no == m.num_outputs,
                    hc == m.hidden_count(),
                    r < hc,
                    c <= hc,
                    d <= c,
                    self.hidden_matrix@[no + r]@.len() == hc,
                    m.hidden[no + r] == self.hidden_matrix@[no + r]@,
                    d == m.open_preds(r as int, Seq::empty(), c as int),
                decreases hc - c,
            {
                assert(!Seq::<usize>::empty().contains(c));
                if !weight_is_zero(self.hidden_matrix[no + r][c]) {
                    d = d + 1;
                }
                c = c + 1;
            }
            deg.push(d);
            r = r + 1;
        }
        deg
    }

    /// Kahn's algorithm on the hidden layer: returns hidden nodes (by position
    /// among the hidden nodes) in an order where each comes after its
    /// hidden predecessors; it stops early exactly where a cycle blocks it.
    fn kahn_order(&self) -> (sorted: Vec<usize>)
        requires
            self@.wf(),
        ensures
            sorted@.no_duplicates(),
            forall|i: int| 0 <= i < sorted@.len() ==> #[trigger] sorted@[i] < self@.hidden_count(),
            forall|p: int, u: usize|
                0 <= p < sorted@.len() && (u as int) < self@.hidden_count() && #[trigger] self@.hedge(
                    u as int,
                    sorted@[p] as int,
                ) ==> sorted@.subrange(0, p).contains(u),
            forall|v: usize|
                #![trigger sorted@.contains(v)]
                (v as int) < self@.hidden_count() && !sorted@.contains(v) ==> exists|u: usize|
                    (u as int) < self@.hidden_count() && !sorted@.contains(u)
                        && #[trigger] self@.hedge(u as int, v as int),
    {
        let ghost m = self@;
        let no = self.num_outputs;
        let hc = self.neuron_number - (self.num_inputs + 1 + no);
        let mut in_degree = self.hidden_in_degrees();
        let ghost empty = Seq::<usize>::empty();
        let mut queue: Vec<usize> = Vec::new();
        let mut i: usize = 0;
        while i < hc
            invariant
                i <= hc,
                hc == m.hidden_count(),
                in_degree@.len() == hc,
                forall|v: int|
                    0 <= v < hc ==> #[trigger] in_degree@[v] == m.open_preds(v, empty, hc as int),
                queue@.no_duplicates(),
                forall|k: int| 0 <= k < queue@.len() ==> #[trigger] queue@[k] < i,
                forall|v: usize| v < i ==> (#[trigger] queue@.contains(v) <==> in_degree@[v as int] == 0),
                forall|v: usize| v >= i ==> !#[trigger] queue@.contains(v),
            decreases hc - i,
        {
            if in_degree[i] == 0 {
                proof {
                    lemma_push_contains(queue@, i);
                    lemma_push_no_duplicates(queue@, i);
                }
                queue.push(i);
            }
            i = i + 1;
        }
        let mut sorted: Vec<usize> = Vec::new();
        while queue.len() > 0
            invariant
                m == self@,
                m.wf(),
                no == m.num_outputs,
                hc == m.hidden_count(),
                in_degree@.len() == hc,
                sorted@.no_duplicates(),
                forall|k: int| 0 <= k < sorted@.len() ==> #[trigger] sorted@[k] < hc,
                queue@.no_duplicates(),
                forall|k: int| 0 <= k < queue@.len() ==> #[trigger] queue@[k] < hc,
                forall|v: usize| #[trigger] queue@.contains(v) ==> !sorted@.contains(v),
                sorted@.len() <= hc,
                forall|v: usize|
                    v < hc && !sorted@.contains(v) ==> #[trigger] in_degree@[v as int]
                        == m.open_preds(v as int, sorted@, hc as int),
                forall|v: usize|
                    v < hc && !sorted@.contains(v) ==> (#[trigger] queue@.contains(v)
                        <==> in_degree@[v as int] == 0),
                forall|p: int, u: usize|
                    0 <= p < sorted@.len() && u < hc && #[trigger] m.hedge(u as int, sorted@[p] as int)
                        ==> sorted@.subrange(0, p).contains(u),
            decreases hc - sorted@.len(),
        {
            let ghost old_sorted = sorted@;
            let ghost old_queue = queue@;
            let u = queue.pop().unwrap();
            assert(queue@ =~= old_queue.drop_last());
            assert(old_queue.last() == u);
            proof {
                lemma_drop_last_contains(old_queue);
            }
            assert(old_queue.contains(u)) by {
                assert(old_queue[old_queue.len() - 1] == u);
            }
            assert(!old_sorted.contains(u));
            assert(in_degree@[u as int] == 0);
            proof {
                lemma_open_preds_zero(m, u as int, old_sorted, hc as int);
                lemma_push_contains(old_sorted, u);
                lemma_push_no_duplicates(old_sorted, u);
            }
            sorted.push(u);
            proof {
                lemma_distinct_in_range(sorted@, 0, hc as int);
            }
            assert forall|p: int, x: usize|
                0 <= p < sorted@.len() && x < hc && #[trigger] m.hedge(
                    x as int,
                    sorted@[p] as int,
                ) implies sorted@.subrange(0, p).contains(x) by {
                if p < old_sorted.len() {
                    assert(old_sorted[p] == sorted@[p]);
                    assert(old_sorted.subrange(0, p) =~= sorted@.subrange(0, p));
                } else {
                    assert(sorted@[p] == u);
                    assert(old_sorted.contains(x));
                    assert(old_sorted =~= sorted@.subrange(0, p));
                }
            }
            assert forall|w: usize| #[trigger] queue@.contains(w) implies !sorted@.contains(w) by {
                assert(old_queue.contains(w) && w != u);
            }
            assert forall|w: usize| w < hc && !sorted@.contains(w) implies (#[trigger] queue@.contains(w)
                <==> in_degree@[w as int] == 0) by {
                assert(w != u && !old_sorted.contains(w));
                assert(queue@.contains(w) <==> old_queue.contains(w));
            }
            assert forall|w: usize| w < hc && !sorted@.contains(w) implies #[trigger] in_degree@[w as int]
                == m.open_preds(w as int, sorted@, hc as int) + if m.hedge(u as int, w as int) {
                1int
            } else {
                0int
            } by {
                lemma_open_preds_push(m, w as int, old_sorted, u, hc as int);
            }
            let mut v: usize = 0;
            while v < hc
                invariant
                    m == self@,
                    m.wf(),
                    no == m.num_outputs,
                    hc == m.hidden_count(),
                    0 <= v <= hc,
                    u < hc,
                    sorted@.contains(u),
                    sorted@.len() >= 1,
                    sorted@[sorted@.len() - 1] == u,
                    sorted@.no_duplicates(),
                    in_degree@.len() == hc,
                    queue@.no_duplicates(),
                    forall|k: int| 0 <= k < queue@.len() ==> #[trigger] queue@[k] < hc,
                    forall|w: usize| #[trigger] queue@.contains(w) ==> !sorted@.contains(w),
                    forall|p: int, x: usize|
                        0 <= p < sorted@.len() && x < hc && #[trigger] m.hedge(x as int, sorted@[p] as int)
                            ==> sorted@.subrange(0, p).contains(x),
                    forall|w: usize|
                        w < hc && !sorted@.contains(w) ==> #[trigger] in_degree@[w as int]
                            == m.open_preds(w as int, sorted@, hc as int) + if w >= v && m.hedge(
                            u as int,
                            w as int,
                        ) {
                            1int
                        } else {
                            0int
                        },
                    forall|w: usize|
                        w < hc && !sorted@.contains(w) ==> (#[trigger] queue@.contains(w)
                            <==> in_degree@[w as int] == 0),
                decreases hc - v,
            {
                assert(m.hidden[no + v] == self.hidden_matrix@[no + v]@);
                assert(m.hidden[no + v].len() == hc);
                if !weight_is_zero(self.hidden_matrix[no + v][u]) {
                    assert(m.hedge(u as int, v as int));
                    assert(!sorted@.contains(v)) by {
                        if sorted@.contains(v) {
                            let p = choose|p: int| 0 <= p < sorted@.len() && sorted@[p] == v;
                            assert(m.hedge(u as int, sorted@[p] as int));
                            assert(sorted@.subrange(0, p).contains(u));
                            let q = choose|q: int| 0 <= q < p && sorted@.subrange(0, p)[q] == u;
                            assert(sorted@[q] == u);
                            assert(sorted@[sorted@.len() - 1] == sorted@[q]);
                        }
                    }
                    proof {
                        lemma_open_preds_bounds(m, v as int, sorted@, hc as int);
                    }
                    in_degree.set(v, in_degree[v] - 1);
                    if in_degree[v] == 0 {
                        proof {
                            lemma_push_contains(queue@, v);
                            lemma_push_no_duplicates(queue@, v);
                        }
                        queue.push(v);
                    }
                }
                v = v + 1;
            }
        }
        proof {
            assert forall|w: usize|
                #![trigger sorted@.contains(w)]
                w < hc && !sorted@.contains(w) implies exists|x: usize|
                x < hc && !sorted@.contains(x) && #[trigger] m.hedge(x as int, w as int) by {
                assert(!queue@.contains(w));
                lemma_open_preds_bounds(m, w as int, sorted@, hc as int);
                lemma_open_preds_pos(m, w as int, sorted@, hc as int);
            }
        }
        sorted
    }

    /// Checks whether a connection `source -> target` between hidden nodes
    /// would close a cycle, using Kahn's algorithm. The probe edge (weight
    /// `1.0`) stays in place when no cycle arises, and then the evaluation
    /// order is renewed; on a cycle the probed cell is cleared and `true`
    /// returned. Requests that do not join two hidden nodes answer `false`.
    pub fn kahn_algorithm(&mut self, source: usize, target: usize) -> (cycle: bool)
        requires
            old(self)@.wf(),
            old(self)@.probe_in_range(source as int, target as int),
        ensures
            final(self)@.wf(),
            cycle_check_post(old(self)@, final(self)@, source as int, target as int, cycle),
    {
        let in_bi = self.num_inputs + 1;
        let in_bi_out = in_bi + self.num_outputs;
        let hidden_start = in_bi_out;
        if source >= in_bi_out && target >= in_bi_out {
            let r = target - in_bi;
            let c = source - hidden_start;
            self.set_hidden_cell(r, c, PROBE_WEIGHT_BITS);
            let ghost p = self@;
            assert(p == old(self)@.probed(source as int, target as int));
            let sorted = self.kahn_order();
            let hc = self.neuron_number - hidden_start;
            if sorted.len() < hc {
                proof {
                    lemma_short_order_means_cycle(p, sorted@);
                }
                self.set_hidden_cell(r, c, ZERO_WEIGHT_BITS);
                assert(self@.hidden[r as int] =~= old(self)@.hidden[r as int].update(c as int, ZERO_WEIGHT_BITS));
                assert(self@.hidden =~= old(self)@.with_hidden_cell(r as int, c as int, ZERO_WEIGHT_BITS).hidden);
                assert(self@ =~= old(self)@.with_hidden_cell(
                    target - old(self)@.in_bi(),
                    source - old(self)@.hidden_start(),
                    ZERO_WEIGHT_BITS,
                ));
                true
            } else {
                proof {
                    lemma_distinct_in_range(sorted@, 0, hc as int);
                }
                let order = shifted_order(&sorted, self.num_outputs, hc);
                proof {
                    lemma_sorted_is_eval_order(p, sorted@, order@);
                }
                self.eval_order = order;
                assert(self@ =~= NetModel { eval_order: order@, ..p });
                false
            }
        } else {
            false
        }
    }
}

} // verus!

//! Structural mutations of the network: listing connections, splitting a
//! connection with a new neuron, and proposing a new acyclic connection.
use vstd::prelude::*;
use rand::rngs::StdRng;
use crate::brain::{
    is_zero_weight, lemma_rows_view_update, rows_view, weight_is_zero, NetModel, NeuralNetwork,
    ZERO_WEIGHT_BITS,
};
use crate::cycles::cycle_check_post;
use crate::rng::random_index;
use crate::acyclic::{
    lemma_accepted_connection_keeps_acyclic, lemma_proposal_keeps_acyclic,
    lemma_split_keeps_acyclic,
};

verus! {

/// Connections `(source, target, weight)` of one matrix row, by column;
/// column `c` stands for source `src_base + c`.
pub open spec fn row_links(row: Seq<u32>, src_base: int, target: int) -> Seq<(usize, usize, u32)>
    decreases row.len(),
{
    if row.len() == 0 {
        Seq::empty()
    } else {
        let rest = row_links(row.drop_last(), src_base, target);
        if is_zero_weight(row.last()) {
            rest
        } else {
            rest.push(((src_base + row.len() - 1) as usize, target as usize, row.last()))
        }
    }
}

/// Connections of a matrix, row by row; row `r` stands for target `tgt_base + r`.
pub open spec fn matrix_links(m: Seq<Seq<u32>>, src_base: int, tgt_base: int) -> Seq<
    (usize, usize, u32),
>
    decreases m.len(),
{
    if m.len() == 0 {
        Seq::empty()
    } else {
        matrix_links(m.drop_last(), src_base, tgt_base) + row_links(
            m.last(),
            src_base,
            tgt_base + m.len() - 1,
        )
    }
}

/// The `k`-th possible source of a connection: the inputs and the bias
/// first, then the hidden nodes.
pub open spec fn drawn_source(m: NetModel, k: int) -> int {
    if k < m.in_bi() {
        k
    } else {
        m.hidden_start() + (k - m.in_bi())
    }
}

/// The draw index of the add-weight mutation ranges one for one over the
/// possible sources: indices up to `num_inputs` are the inputs and the bias
/// node themselves, the later ones the hidden nodes in order. Every index
/// gives a possible source, distinct indices give distinct sources, and
/// every possible source is drawn by some index, so each is equally likely.
pub proof fn lemma_drawn_source_one_for_one(m: NetModel)
    requires
        m.hidden_start() <= m.neuron_number,
    ensures
        forall|k: int| 0 <= k <= m.num_inputs ==> #[trigger] drawn_source(m, k) == k,
        forall|k: int|
            m.num_inputs < k < m.neuron_number - m.num_outputs ==> #[trigger] drawn_source(m, k) == k
                + m.num_outputs,
        forall|k: int|
            0 <= k < m.neuron_number - m.num_outputs ==> m.valid_source(#[trigger] drawn_source(m, k)),
        forall|k1: int, k2: int|
            0 <= k1 < m.neuron_number - m.num_outputs && 0 <= k2 < m.neuron_number - m.num_outputs
                && k1 != k2 ==> #[trigger] drawn_source(m, k1) != #[trigger] drawn_source(m, k2),
        forall|s: int|
            #[trigger] m.valid_source(s) ==> exists|k: int|
                0 <= k < m.neuron_number - m.num_outputs && #[trigger] drawn_source(m, k) == s,
        m.in_bi() + m.hidden_count() == m.neuron_number - m.num_outputs,
{
    assert forall|s: int| #[trigger] m.valid_source(s) implies exists|k: int|
        0 <= k < m.neuron_number - m.num_outputs && #[trigger] drawn_source(m, k) == s by {
        if s <= m.num_inputs {
            assert(drawn_source(m, s) == s);
        } else {
            assert(drawn_source(m, s - m.num_outputs) == s);
        }
    }
}

impl NetModel {
    /// Number of connections after hidden-matrix cell `(r, c)` becomes `w`.
    pub proof fn lemma_hidden_update_links_len(self, r: int, c: int, w: u32)
        requires
            0 <= r < self.hidden.len(),
            0 <= c < self.hidden[r].len(),
        ensures
            self.with_hidden_cell(r, c, w).links().len() == self.links().len() - link_count(
                self.hidden[r][c],
            ) + link_count(w),
    {
        lemma_matrix_links_update_len(self.hidden, self.hidden_start(), self.in_bi(), r, c, w);
    }

    /// All connections with their weights: the input matrix row by row, then
    /// the hidden matrix row by row.
    pub open spec fn links(self) -> Seq<(usize, usize, u32)> {
        matrix_links(self.input, 0, self.in_bi()) + matrix_links(
            self.hidden,
            self.hidden_start(),
            self.in_bi(),
        )
    }

    /// `source` may start a connection: an input, the bias or a hidden node.
    pub open spec fn valid_source(self, source: int) -> bool {
        0 <= source < self.in_bi() || self.hidden_start() <= source < self.neuron_number
    }

    /// `target` may end a connection: an output or a hidden node.
    pub open spec fn valid_target(self, target: int) -> bool {
        self.in_bi() <= target < self.neuron_number
    }

    /// The weight of `source -> target`.
    pub open spec fn weight_at(self, source: int, target: int) -> u32 {
        if source < self.in_bi() {
            self.input[target - self.in_bi()][source]
        } else {
            self.hidden[target - self.in_bi()][source - self.hidden_start()]
        }
    }

    /// The network with the weight of `source -> target` set to zero.
    pub open spec fn cut(self, source: int, target: int) -> NetModel {
        if source < self.in_bi() {
            self.with_input_cell(target - self.in_bi(), source, ZERO_WEIGHT_BITS)
        } else {
            self.with_hidden_cell(
                target - self.in_bi(),
                source - self.hidden_start(),
                ZERO_WEIGHT_BITS,
            )
        }
    }

    /// The connection `source -> target` of weight `w` replaced by a new
    /// hidden neuron with connections `source -> new` and `new -> target`,
    /// both of weight `w`.
    pub open spec fn split(self, source: int, target: int, w: u32) -> NetModel {
        let new_id = self.neuron_number as int;
        self.cut(source, target).grown().connected(source, new_id, w).connected(new_id, target, w)
    }

    /// What proposing the connection `source -> target` does: an existing
    /// connection is left alone (`None`); otherwise Kahn's cycle check runs
    /// and the pair is proposed exactly when it closes no cycle.
    pub open spec fn proposal_post(
        self,
        after: NetModel,
        source: int,
        target: int,
        res: Option<(usize, usize)>,
    ) -> bool {
        if !is_zero_weight(self.weight_at(source, target)) {
            res is None && after == self
        } else {
            exists|cycle: bool|
                #![trigger cycle_check_post(self, after, source, target, cycle)]
                cycle_check_post(self, after, source, target, cycle) && res == (if cycle {
                    None
                } else {
                    Some((source as usize, target as usize))
                })
        }
    }
}

/// 1 for a connection weight, 0 for a zero weight.
pub open spec fn link_count(w: u32) -> int {
    if is_zero_weight(w) {
        0
    } else {
        1
    }
}

/// Changing one cell of a row changes its number of connections by the
/// cell's before and after.
pub proof fn lemma_row_links_update_len(row: Seq<u32>, src_base: int, target: int, c: int, w: u32)
    requires
        0 <= c < row.len(),
    ensures
        row_links(row.update(c, w), src_base, target).len() == row_links(row, src_base, target).len()
            - link_count(row[c]) + link_count(w),
    decreases row.len(),
{
    let u = row.update(c, w);
    if c < row.len() - 1 {
        lemma_row_links_update_len(row.drop_last(), src_base, target, c, w);
        assert(u.drop_last() =~= row.drop_last().update(c, w));
        assert(u.last() == row.last());
    } else {
        assert(u.drop_last() =~= row.drop_last());
    }
}

/// Changing one cell of a matrix changes its number of connections by the
/// cell's before and after.
pub proof fn lemma_matrix_links_update_len(
    m: Seq<Seq<u32>>,
    src_base: int,
    tgt_base: int,
    r: int,
    c: int,
    w: u32,
)
    requires
        0 <= r < m.len(),
        0 <= c < m[r].len(),
    ensures
        matrix_links(m.update(r, m[r].update(c, w)), src_base, tgt_base).len() == matrix_links(
            m,
            src_base,
            tgt_base,
        ).len() - link_count(m[r][c]) + link_count(w),
    decreases m.len(),
{
    let u = m.update(r, m[r].update(c, w));
    if r < m.len() - 1 {
        lemma_matrix_links_update_len(m.drop_last(), src_base, tgt_base, r, c, w);
        assert(u.drop_last() =~= m.drop_last().update(r, m[r].update(c, w)));
        assert(u.last() == m.last());
    } else {
        assert(u.drop_last() =~= m.drop_last());
        lemma_row_links_update_len(m[r], src_base, tgt_base + m.len() - 1, c, w);
    }
}

/// A row without connections lists none.
pub proof fn lemma_zero_row_links(row: Seq<u32>, src_base: int, target: int)
    requires
        forall|c: int| 0 <= c < row.len() ==> #[trigger] is_zero_weight(row[c]),
    ensures
        row_links(row, src_base, target).len() == 0,
    decreases row.len(),
{
    if row.len() > 0 {
        assert(is_zero_weight(row[row.len() - 1]));
        lemma_zero_row_links(row.drop_last(), src_base, target);
    }
}

/// A matrix without connections lists none.
pub proof fn lemma_zero_matrix_links(m: Seq<Seq<u32>>, src_base: int, tgt_base: int)
    requires
        forall|r: int, c: int| 0 <= r < m.len() && 0 <= c < m[r].len() ==> #[trigger] is_zero_weight(m[r][c]),
    ensures
        matrix_links(m, src_base, tgt_base).len() == 0,
    decreases m.len(),
{
    if m.len() > 0 {
        let last = m[m.len() - 1];
        assert forall|c: int| 0 <= c < last.len() implies #[trigger] is_zero_weight(last[c]) by {
            assert(is_zero_weight(m[m.len() - 1][c]));
        }
        lemma_zero_row_links(last, src_base, tgt_base + m.len() - 1);
        assert forall|r: int, c: int|
            0 <= r < m.drop_last().len() && 0 <= c < m.drop_last()[r].len() implies #[trigger] is_zero_weight(
            m.drop_last()[r][c],
        ) by {
            assert(is_zero_weight(m[r][c]));
        }
        lemma_zero_matrix_links(m.drop_last(), src_base, tgt_base);
    }
}

/// Every listed connection of a row names a non-zero cell of the row.
pub proof fn lemma_row_links(row: Seq<u32>, src_base: int, target: int)
    requires
        0 <= src_base,
        src_base + row.len() <= usize::MAX,
        0 <= target <= usize::MAX,
    ensures
        row_links(row, src_base, target).len() <= row.len(),
        forall|k: int|
            0 <= k < row_links(row, src_base, target).len() ==> {
                let l = #[trigger] row_links(row, src_base, target)[k];
                &&& src_base <= l.0 < src_base + row.len()
                &&& l.1 == target
                &&& row[l.0 - src_base] == l.2
                &&& !is_zero_weight(l.2)
            },
    decreases row.len(),
{
    if row.len() > 0 {
        lemma_row_links(row.drop_last(), src_base, target);
    }
}

/// Every listed connection of a matrix names a non-zero cell of the matrix.
pub proof fn lemma_matrix_links(m: Seq<Seq<u32>>, src_base: int, tgt_base: int, width: int)
    requires
        0 <= src_base,
        src_base + width <= usize::MAX,
        0 <= tgt_base,
        tgt_base + m.len() <= usize::MAX,
        forall|r: int| 0 <= r < m.len() ==> #[trigger] m[r].len() == width,
    ensures
        forall|k: int|
            0 <= k < matrix_links(m, src_base, tgt_base).len() ==> {
                let l = #[trigger] matrix_links(m, src_base, tgt_base)[k];
                &&& src_base <= l.0 < src_base + width
                &&& tgt_base <= l.1 < tgt_base + m.len()
                &&& m[l.1 - tgt_base][l.0 - src_base] == l.2
                &&& !is_zero_weight(l.2)
            },
    decreases m.len(),
{
    if m.len() > 0 {
        lemma_matrix_links(m.drop_last(), src_base, tgt_base, width);
        lemma_row_links(m.last(), src_base, tgt_base + m.len() - 1);
        let a = matrix_links(m.drop_last(), src_base, tgt_base);
        let b = row_links(m.last(), src_base, tgt_base + m.len() - 1);
        assert forall|k: int| 0 <= k < (a + b).len() implies {
            let l = #[trigger] (a + b)[k];
            &&& src_base <= l.0 < src_base + width
            &&& tgt_base <= l.1 < tgt_base + m.len()
            &&& m[l.1 - tgt_base][l.0 - src_base] == l.2
            &&& !is_zero_weight(l.2)
        } by {
            if k < a.len() {
                assert((a + b)[k] == a[k]);
                assert(m.drop_last()[a[k].1 - tgt_base] == m[a[k].1 - tgt_base]);
            } else {
                assert((a + b)[k] == b[k - a.len()]);
            }
        }
    }
}

/// Every non-zero cell of a row is listed as a connection.
pub proof fn lemma_row_links_complete(row: Seq<u32>, src_base: int, target: int, c: int)
    requires
        0 <= c < row.len(),
        !is_zero_weight(row[c]),
    ensures
        row_links(row, src_base, target).contains(((src_base + c) as usize, target as usize, row[c])),
    decreases row.len(),
{
    let rest = row_links(row.drop_last(), src_base, target);
    if c < row.len() - 1 {
        lemma_row_links_complete(row.drop_last(), src_base, target, c);
        let k = choose|k: int| 0 <= k < rest.len() && rest[k] == ((src_base + c) as usize, target as usize, row[c]);
        if !is_zero_weight(row.last()) {
            assert(row_links(row, src_base, target)[k] == rest[k]);
        }
    } else {
        assert(row_links(row, src_base, target).last() == ((src_base + c) as usize, target as usize, row[c]));
    }
}

/// Every non-zero cell of a matrix is listed as a connection.
pub proof fn lemma_matrix_links_complete(m: Seq<Seq<u32>>, src_base: int, tgt_base: int, r: int, c: int)
    requires
        0 <= r < m.len(),
        0 <= c < m[r].len(),
        !is_zero_weight(m[r][c]),
    ensures
        matrix_links(m, src_base, tgt_base).contains(
            ((src_base + c) as usize, (tgt_base + r) as usize, m[r][c]),
        ),
    decreases m.len(),
{
    let a = matrix_links(m.drop_last(), src_base, tgt_base);
    let b = row_links(m.last(), src_base, tgt_base + m.len() - 1);
    let l = ((src_base + c) as usize, (tgt_base + r) as usize, m[r][c]);
    if r < m.len() - 1 {
        lemma_matrix_links_complete(m.drop_last(), src_base, tgt_base, r, c);
        assert(m.drop_last()[r] == m[r]);
        let k = choose|k: int| 0 <= k < a.len() && a[k] == l;
        assert((a + b)[k] == a[k]);
    } else {
        lemma_row_links_complete(m.last(), src_base, tgt_base + m.len() - 1, c);
        let k = choose|k: int| 0 <= k < b.len() && b[k] == l;
        assert((a + b)[a.len() + k] == b[k]);
    }
}

/// The list of connections is complete: every valid pair whose weight is
/// not zero is listed, with that weight.
pub proof fn lemma_links_complete(m: NetModel, source: int, target: int)
    requires
        m.wf(),
        m.valid_source(source),
        m.valid_target(target),
        !is_zero_weight(m.weight_at(source, target)),
    ensures
        m.links().contains((source as usize, target as usize, m.weight_at(source, target))),
{
    let a = matrix_links(m.input, 0, m.in_bi());
    let b = matrix_links(m.hidden, m.hidden_start(), m.in_bi());
    let l = (source as usize, target as usize, m.weight_at(source, target));
    let r = target - m.in_bi();
    if source < m.in_bi() {
        assert(m.input[r].len() == m.in_bi());
        lemma_matrix_links_complete(m.input, 0, m.in_bi(), r, source);
        let k = choose|k: int| 0 <= k < a.len() && a[k] == l;
        assert(m.links()[k] == a[k]);
    } else {
        assert(m.hidden[r].len() == m.hidden_count());
        lemma_matrix_links_complete(m.hidden, m.hidden_start(), m.in_bi(), r, source - m.hidden_start());
        let k = choose|k: int| 0 <= k < b.len() && b[k] == l;
        assert(m.links()[a.len() + k] == b[k]);
    }
}

/// Adding the connection `source -> target` gives it weight `w`, or the
/// smallest weight 0.01 (bits `0x3C23D70A`) where `w` is `+0.0` or `-0.0`, so
/// that it is really connected; every other pair keeps its weight and the
/// network keeps its nodes.
pub proof fn lemma_connection_sets_one_weight(m: NetModel, source: int, target: int, w: u32, s2: int, t2: int)
    requires
        m.wf(),
        m.valid_source(source),
        m.valid_target(target),
        m.valid_source(s2),
        m.valid_target(t2),
    ensures
        m.connected(source, target, w).neuron_number == m.neuron_number,
        m.connected(source, target, w).wf(),
        m.connected(source, target, w).weight_at(source, target) == if w == 0 || w == 0x8000_0000 {
            0x3C23_D70Au32
        } else {
            w
        },
        !is_zero_weight(m.connected(source, target, w).weight_at(source, target)),
        (s2, t2) != (source, target) ==> m.connected(source, target, w).weight_at(s2, t2) == m.weight_at(
            s2,
            t2,
        ),
{
    let r = target - m.in_bi();
    assert(m.input[r].len() == m.in_bi());
    assert(m.hidden[r].len() == m.hidden_count());
    let a = m.connected(source, target, w);
    assert(a.wf()) by {
        assert forall|rr: int| 0 <= rr < a.input.len() implies #[trigger] a.input[rr].len() == a.in_bi() by {
            assert(m.input[rr].len() == m.in_bi());
        }
        assert forall|rr: int| 0 <= rr < a.hidden.len() implies #[trigger] a.hidden[rr].len()
            == a.hidden_count() by {
            assert(m.hidden[rr].len() == m.hidden_count());
        }
    }
}

/// Adding a neuron adds one node with no connection in or out, and keeps
/// every weight of the existing nodes.
pub proof fn lemma_new_neuron_unconnected(m: NetModel, s: int, t: int)
    requires
        m.wf(),
        m.neuron_number < usize::MAX,
    ensures
        m.grown().neuron_number == m.neuron_number + 1,
        m.grown().wf(),
        m.valid_source(s) && m.valid_target(t) ==> m.grown().weight_at(s, t) == m.weight_at(s, t),
        m.grown().valid_source(s) ==> is_zero_weight(m.grown().weight_at(s, m.neuron_number as int)),
        m.grown().valid_target(t) ==> is_zero_weight(m.grown().weight_at(m.neuron_number as int, t)),
{
    let g = m.grown();
    let n = m.neuron_number as int;
    assert(g.wf()) by {
        assert forall|rr: int| 0 <= rr < g.input.len() implies #[trigger] g.input[rr].len() == g.in_bi() by {
            if rr < m.input.len() {
                assert(m.input[rr].len() == m.in_bi());
            }
        }
        assert forall|rr: int| 0 <= rr < g.hidden.len() implies #[trigger] g.hidden[rr].len()
            == g.hidden_count() by {
            if rr < m.hidden.len() {
                assert(m.hidden[rr].len() == m.hidden_count());
            }
        }
        assert forall|i: int| 0 <= i < g.eval_order.len() implies g.is_hidden_act(#[trigger] g.eval_order[i] as int) by {
            assert(m.is_hidden_act(m.eval_order[i] as int));
        }
    }
    if m.valid_source(s) && m.valid_target(t) {
        let r = t - m.in_bi();
        assert(m.input[r].len() == m.in_bi());
        assert(m.hidden[r].len() == m.hidden_count());
    }
    if g.valid_source(s) {
        let r = n - m.in_bi();
        assert(r == m.hidden.len());
    }
    if g.valid_target(t) && t < n {
        let r = t - m.in_bi();
        assert(m.hidden[r].len() == m.hidden_count());
    }
}

/// Cutting `source -> target` zeroes that weight and keeps every other.
proof fn lemma_cut_zeroes_one_weight(m: NetModel, source: int, target: int, s2: int, t2: int)
    requires
        m.wf(),
        m.valid_source(source),
        m.valid_target(target),
        m.valid_source(s2),
        m.valid_target(t2),
    ensures
        m.cut(source, target).wf(),
        m.cut(source, target).neuron_number == m.neuron_number,
        is_zero_weight(m.cut(source, target).weight_at(source, target)),
        (s2, t2) != (source, target) ==> m.cut(source, target).weight_at(s2, t2) == m.weight_at(s2, t2),
{
    let r = target - m.in_bi();
    assert(m.input[r].len() == m.in_bi());
    assert(m.hidden[r].len() == m.hidden_count());
    let a = m.cut(source, target);
    assert(a.wf()) by {
        assert forall|rr: int| 0 <= rr < a.input.len() implies #[trigger] a.input[rr].len() == a.in_bi() by {
            assert(m.input[rr].len() == m.in_bi());
        }
        assert forall|rr: int| 0 <= rr < a.hidden.len() implies #[trigger] a.hidden[rr].len()
            == a.hidden_count() by {
            assert(m.hidden[rr].len() == m.hidden_count());
        }
    }
}

/// Splitting `source -> target` with weight `w` puts a new node `n` (the
/// old node count) in its place: `source -> target` is gone, `source -> n`
/// and `n -> target` carry `w` (0.01 for a zero `w`), and every other pair
/// of existing nodes keeps its weight.
pub proof fn lemma_split_reroutes(m: NetModel, source: int, target: int, w: u32, s2: int, t2: int)
    requires
        m.wf(),
        m.neuron_number < usize::MAX,
        m.valid_source(source),
        m.valid_target(target),
        m.valid_source(s2),
        m.valid_target(t2),
    ensures
        m.split(source, target, w).neuron_number == m.neuron_number + 1,
        is_zero_weight(m.split(source, target, w).weight_at(source, target)),
        m.split(source, target, w).weight_at(source, m.neuron_number as int) == if w == 0 || w
            == 0x8000_0000 {
            0x3C23_D70Au32
        } else {
            w
        },
        m.split(source, target, w).weight_at(m.neuron_number as int, target) == if w == 0 || w
            == 0x8000_0000 {
            0x3C23_D70Au32
        } else {
            w
        },
        (s2, t2) != (source, target) ==> m.split(source, target, w).weight_at(s2, t2) == m.weight_at(
            s2,
            t2,
        ),
{
    let n = m.neuron_number as int;
    let c = m.cut(source, target);
    lemma_cut_zeroes_one_weight(m, source, target, s2, t2);
    lemma_cut_zeroes_one_weight(m, source, target, source, target);
    let g = c.grown();
    lemma_new_neuron_unconnected(c, s2, t2);
    lemma_new_neuron_unconnected(c, source, target);
    assert(g.valid_source(source));
    assert(g.valid_target(n));
    assert(g.valid_source(n));
    assert(g.valid_target(target));
    assert(g.valid_source(s2));
    assert(g.valid_target(t2));
    let h = g.connected(source, n, w);
    lemma_connection_sets_one_weight(g, source, n, w, s2, t2);
    lemma_connection_sets_one_weight(g, source, n, w, source, target);
    lemma_connection_sets_one_weight(g, source, n, w, n, target);
    lemma_connection_sets_one_weight(h, n, target, w, s2, t2);
    lemma_connection_sets_one_weight(h, n, target, w, source, target);
    lemma_connection_sets_one_weight(h, n, target, w, source, n);
}

/// Every listed connection joins a valid source to a valid target through a
/// cell that holds its (non-zero) weight.
pub proof fn lemma_links(m: NetModel)
    requires
        m.wf(),
    ensures
        forall|k: int|
            0 <= k < m.links().len() ==> {
                let l = #[trigger] m.links()[k];
                &&& m.valid_source(l.0 as int)
                &&& m.valid_target(l.1 as int)
                &&& m.weight_at(l.0 as int, l.1 as int) == l.2
                &&& !is_zero_weight(l.2)
            },
{
    let a = matrix_links(m.input, 0, m.in_bi());
    let b = matrix_links(m.hidden, m.hidden_start(), m.in_bi());
    lemma_matrix_links(m.input, 0, m.in_bi(), m.in_bi());
    lemma_matrix_links(m.hidden, m.hidden_start(), m.in_bi(), m.hidden_count());
    assert forall|k: int| 0 <= k < m.links().len() implies {
        let l = #[trigger] m.links()[k];
        &&& m.valid_source(l.0 as int)
        &&& m.valid_target(l.1 as int)
        &&& m.weight_at(l.0 as int, l.1 as int) == l.2
        &&& !is_zero_weight(l.2)
    } by {
        if k < a.len() {
            assert(m.links()[k] == a[k]);
        } else {
            assert(m.links()[k] == b[k - a.len()]);
        }
    }
}

fn push_row_links(out: &mut Vec<(usize, usize, u32)>, row: &Vec<u32>, src_base: usize, target: usize)
    requires
        src_base + row@.len() <= usize::MAX,
    ensures
        final(out)@ == old(out)@ + row_links(row@, src_base as int, target as int),
{
    let mut c: usize = 0;
    while c < row.len()
        invariant
            src_base + row@.len() <= usize::MAX,
            c <= row@.len(),
            out@ == old(out)@ + row_links(row@.subrange(0, c as int), src_base as int, target as int),
        decreases row@.len() - c,
    {
        let ghost before = out@;
        assert(row@.subrange(0, c + 1).drop_last() =~= row@.subrange(0, c as int));
        if !weight_is_zero(row[c]) {
            out.push((src_base + c, target, row[c]));
            assert(out@ =~= old(out)@ + row_links(
                row@.subrange(0, c + 1),
                src_base as int,
                target as int,
            ));
        } else {
            assert(out@ =~= old(out)@ + row_links(
                row@.subrange(0, c + 1),
                src_base as int,
                target as int,
            ));
        }
        c = c + 1;
    }
    assert(row@.subrange(0, c as int) =~= row@);
}

fn push_matrix_links(out: &mut Vec<(usize, usize, u32)>, m: &Vec<Vec<u32>>, src_base: usize, tgt_base: usize)
    requires
        forall|r: int| 0 <= r < m@.len() ==> src_base + (#[trigger] m@[r])@.len() <= usize::MAX,
        tgt_base + m@.len() <= usize::MAX,
    ensures
        final(out)@ == old(out)@ + matrix_links(rows_view(m@), src_base as int, tgt_base as int),
{
    let mut r: usize = 0;
    while r < m.len()
        invariant
            forall|k: int| 0 <= k < m@.len() ==> src_base + (#[trigger] m@[k])@.len() <= usize::MAX,
            tgt_base + m@.len() <= usize::MAX,
            r <= m@.len(),
            out@ == old(out)@ + matrix_links(
                rows_view(m@).subrange(0, r as int),
                src_base as int,
                tgt_base as int,
            ),
        decreases m@.len() - r,
    {
        let ghost before = out@;
        let ghost pre = rows_view(m@).subrange(0, r + 1);
        assert(pre.drop_last() =~= rows_view(m@).subrange(0, r as int));
        assert(pre.last() == m@[r as int]@);
        push_row_links(out, &m[r], src_base, tgt_base + r);
        assert(out@ =~= old(out)@ + matrix_links(pre, src_base as int, tgt_base as int));
        r = r + 1;
    }
    assert(rows_view(m@).subrange(0, r as int) =~= rows_view(m@));
}

impl NeuralNetwork {
    /// Lists every connection `(source, target, weight)`: the input matrix
    /// row by row, then the hidden matrix row by row.
    pub fn connections(&self) -> (links: Vec<(usize, usize, u32)>)
        requires
            self@.wf(),
        ensures
            links@ == self@.links(),
    {
        let ghost m = self@;
        let mut links: Vec<(usize, usize, u32)> = Vec::new();
        let in_bi = self.num_inputs + 1;
        let hidden_start = in_bi + self.num_outputs;
        assert forall|r: int| 0 <= r < self.input_matrix@.len() implies 0 + (
        #[trigger] self.input_matrix@[r])@.len() <= usize::MAX by {
            assert(m.input[r] == self.input_matrix@[r]@);
        }
        push_matrix_links(&mut links, &self.input_matrix, 0, in_bi);
        assert forall|r: int| 0 <= r < self.hidden_matrix@.len() implies hidden_start + (
        #[trigger] self.hidden_matrix@[r])@.len() <= usize::MAX by {
            assert(m.hidden[r] == self.hidden_matrix@[r]@);
        }
        push_matrix_links(&mut links, &self.hidden_matrix, hidden_start, in_bi);
        assert(links@ =~= m.links());
        links
    }

    /// Returns the number of non-zero connections in the network.
    pub fn num_connections(&self) -> (n: usize)
        requires
            self@.wf(),
        ensures
            n == self@.links().len(),
    {
        self.connections().len()
    }

    pub(crate) fn set_input_cell(&mut self, r: usize, c: usize, w: u32)
        requires
            old(self)@.wf(),
            r < old(self)@.rows(),
            c < old(self)@.in_bi(),
        ensures
            final(self)@ == old(self)@.with_input_cell(r as int, c as int, w),
            final(self)@.wf(),
    {
        let ghost before = self.input_matrix@;
        assert(rows_view(before)[r as int] == before[r as int]@);
        assert(old(self)@.input[r as int].len() == old(self)@.in_bi());
        let mut row: Vec<u32> = Vec::new();
        std::mem::swap(&mut row, &mut self.input_matrix[r]);
        row.set(c, w);
        self.input_matrix[r] = row;
        proof {
            lemma_rows_view_update(before, r as int, row);
        }
        assert(rows_view(self.input_matrix@) =~= old(self)@.with_input_cell(
            r as int,
            c as int,
            w,
        ).input);
        assert(self@ =~= old(self)@.with_input_cell(r as int, c as int, w));
    }

    /// Replaces the connection `source -> target` (weight `w`) by a new hidden
    /// neuron with connections `source -> new` and `new -> target` of weight `w`.
    fn split_link(&mut self, source: usize, target: usize, w: u32)
        requires
            old(self)@.wf(),
            old(self)@.neuron_number < usize::MAX,
            old(self)@.valid_source(source as int),
            old(self)@.valid_target(target as int),
        ensures
            final(self)@.wf(),
            final(self)@ == old(self)@.split(source as int, target as int, w),
    {
        let in_bi = self.num_inputs + 1;
        let hidden_start = in_bi + self.num_outputs;
        if source < in_bi {
            self.set_input_cell(target - in_bi, source, ZERO_WEIGHT_BITS);
        } else {
            self.set_hidden_cell(target - in_bi, source - hidden_start, ZERO_WEIGHT_BITS);
        }
        self.add_neuron();
        let new_neuron_id = self.neuron_number - 1;
        self.add_connection(source, new_neuron_id, w);
        self.add_connection(new_neuron_id, target, w);
    }

    /// Splits the connection at position `index` of [`NeuralNetwork::connections`].
    pub fn split_connection(&mut self, index: usize)
        requires
            old(self)@.wf(),
            old(self)@.neuron_number < usize::MAX,
            index < old(self)@.links().len(),
        ensures
            final(self)@.wf(),
            final(self)@ == old(self)@.split(
                old(self)@.links()[index as int].0 as int,
                old(self)@.links()[index as int].1 as int,
                old(self)@.links()[index as int].2,
            ),
            old(self)@.is_acyclic() ==> final(self)@.is_acyclic(),
    {
        let links = self.connections();
        proof {
            lemma_links(self@);
        }
        let (source, target, w) = links[index];
        assert(self@.links()[index as int] == (source, target, w));
        proof {
            if self@.is_acyclic() {
                lemma_split_keeps_acyclic(self@, source as int, target as int, w);
            }
        }
        self.split_link(source, target, w);
    }

    /// Mutation "add neuron": splits a randomly drawn existing connection, if
    /// there is one.
    pub fn create_connected_neuron(&mut self, rng: &mut StdRng)
        requires
            old(self)@.wf(),
            old(self)@.neuron_number < usize::MAX,
        ensures
            final(self)@.wf(),
            old(self)@.links().len() == 0 ==> final(self)@ == old(self)@,
            old(self)@.links().len() > 0 ==> exists|k: int|
                0 <= k < old(self)@.links().len() && final(self)@ == old(self)@.split(
                    #[trigger] old(self)@.links()[k].0 as int,
                    old(self)@.links()[k].1 as int,
                    old(self)@.links()[k].2,
                ),
            old(self)@.is_acyclic() ==> final(self)@.is_acyclic(),
    {
        let links = self.connections();
        if links.len() > 0 {
            proof {
                lemma_links(self@);
            }
            let idx = random_index(rng, 0, links.len());
            self.split_connection(idx);
        }
    }

    /// Draws a random existing connection, or `None` when there is none.
    /// Giving the drawn connection a new weight with `add_connection` (the
    /// weight-change mutation) keeps the hidden layer acyclic.
    pub fn pick_connection(&self, rng: &mut StdRng) -> (res: Option<(usize, usize, u32)>)
        requires
            self@.wf(),
        ensures
            res is None <==> self@.links().len() == 0,
            res matches Some(l) ==> self@.links().contains(l),
            res matches Some(l) ==> self@.valid_source(l.0 as int) && self@.valid_target(l.1 as int)
                && self@.weight_at(l.0 as int, l.1 as int) == l.2 && !is_zero_weight(l.2),
    {
        let links = self.connections();
        if links.len() == 0 {
            return None;
        }
        proof {
            lemma_links(self@);
        }
        let idx = random_index(rng, 0, links.len());
        assert(self@.links()[idx as int] == links@[idx as int]);
        Some(links[idx])
    }

    /// Proposes the connection `source -> target`: `None` when it already
    /// exists or would close a cycle among hidden nodes (checked with Kahn's
    /// algorithm, whose probe edge stays in place when accepted), otherwise
    /// the pair, which the caller connects with a fresh random weight.
    pub fn propose_connection(&mut self, source: usize, target: usize) -> (res: Option<(usize, usize)>)
        requires
            old(self)@.wf(),
            old(self)@.valid_source(source as int),
            old(self)@.valid_target(target as int),
        ensures
            final(self)@.wf(),
            old(self)@.proposal_post(final(self)@, source as int, target as int, res),
            old(self)@.is_acyclic() ==> final(self)@.is_acyclic(),
            old(self)@.is_acyclic() && res is Some ==> forall|w: u32|
                #[trigger] final(self)@.connected(source as int, target as int, w).is_acyclic(),
    {
        let ghost m = self@;
        let in_bi = self.num_inputs + 1;
        let hidden_start = in_bi + self.num_outputs;
        let connected = if source < in_bi {
            assert(m.input[target - in_bi] == self.input_matrix@[target - in_bi]@);
            !weight_is_zero(self.input_matrix[target - in_bi][source])
        } else {
            assert(m.hidden[target - in_bi] == self.hidden_matrix@[target - in_bi]@);
            !weight_is_zero(self.hidden_matrix[target - in_bi][source - hidden_start])
        };
        if connected {
            return None;
        }
        let cycle = self.kahn_algorithm(source, target);
        assert(cycle_check_post(m, self@, source as int, target as int, cycle));
        let res = if !cycle {
            Some((source, target))
        } else {
            None
        };
        assert(m.proposal_post(self@, source as int, target as int, res));
        proof {
            if m.is_acyclic() {
                lemma_proposal_keeps_acyclic(m, self@, source as int, target as int, res);
                if res is Some {
                    assert forall|w: u32| #[trigger] self@.connected(source as int, target as int, w).is_acyclic() by {
                        lemma_accepted_connection_keeps_acyclic(m, self@, source as int, target as int, w);
                    }
                }
            }
        }
        res
    }

    /// Proposes the connection from the `k`-th possible source (inputs and
    /// bias first, then the hidden nodes) to `target`.
    pub fn connect_drawn(&mut self, k: usize, target: usize) -> (res: Option<(usize, usize)>)
        requires
            old(self)@.wf(),
            k < old(self)@.in_bi() + old(self)@.hidden_count(),
            old(self)@.in_bi() <= target < old(self)@.neuron_number,
        ensures
            final(self)@.wf(),
            old(self)@.proposal_post(
                final(self)@,
                drawn_source(old(self)@, k as int),
                target as int,
                res,
            ),
            old(self)@.is_acyclic() ==> final(self)@.is_acyclic(),
            old(self)@.is_acyclic() ==> (res matches Some(p) ==> forall|w: u32|
                #[trigger] final(self)@.connected(p.0 as int, p.1 as int, w).is_acyclic()),
    {
        let in_bi = self.num_inputs + 1;
        let hidden_start = in_bi + self.num_outputs;
        let source = if k < in_bi {
            k
        } else {
            hidden_start + (k - in_bi)
        };
        self.propose_connection(source, target)
    }

    /// Mutation "add weight": draws a source (input, bias or hidden node,
    /// uniformly) and a target (output or hidden node, uniformly) and
    /// proposes that connection.
    pub fn create_new_connection(&mut self, rng: &mut StdRng) -> (res: Option<(usize, usize)>)
        requires
            old(self)@.wf(),
            old(self)@.rows() > 0,
        ensures
            final(self)@.wf(),
            exists|k: int, target: int|
                #![trigger old(self)@.proposal_post(final(self)@, drawn_source(old(self)@, k), target, res)]
                0 <= k < old(self)@.in_bi() + old(self)@.hidden_count() && old(self)@.in_bi()
                    <= target < old(self)@.neuron_number && old(self)@.proposal_post(
                    final(self)@,
                    drawn_source(old(self)@, k),
                    target,
                    res,
                ),
            old(self)@.is_acyclic() ==> final(self)@.is_acyclic(),
            old(self)@.is_acyclic() ==> (res matches Some(p) ==> forall|w: u32|
                #[trigger] final(self)@.connected(p.0 as int, p.1 as int, w).is_acyclic()),
    {
        let ghost m = self@;
        let in_bi = self.num_inputs + 1;
        let hidden_start = in_bi + self.num_outputs;
        let num_sources = in_bi + (self.neuron_number - hidden_start);
        let k = random_index(rng, 0, num_sources);
        let target = random_index(rng, in_bi, self.neuron_number);
        let res = self.connect_drawn(k, target);
        assert(m.proposal_post(self@, drawn_source(m, k as int), target as int, res));
        res
    }
}

} // verus!

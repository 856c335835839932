//! The peeling cycle check: repeatedly peel off hidden nodes that have no
//! incoming connection from the hidden nodes still left.
use vstd::prelude::*;
use crate::brain::{is_zero_weight, weight_is_zero, NetModel, NeuralNetwork, PROBE_WEIGHT_BITS, ZERO_WEIGHT_BITS};
use crate::cycles::cycle_check_post;
use crate::seq_facts::{
    lemma_covering_len, lemma_distinct_in_range, lemma_push_contains, lemma_push_no_duplicates,
    lemma_remove_contains,
};

verus! {

impl NetModel {
    /// Some node of `list` feeds hidden node `i` (all activation indices).
    pub open spec fn fed_from(self, i: int, list: Seq<usize>) -> bool {
        exists|q: int| 0 <= q < list.len() && #[trigger] self.edge(list[q] as int, i)
    }

    /// State of the peeling: `left` and `peeled` split the hidden nodes
    /// between them, and each peeled node comes after its hidden predecessors.
    pub open spec fn peel_state(self, left: Seq<usize>, peeled: Seq<usize>) -> bool {
        &&& left.no_duplicates()
        &&& peeled.no_duplicates()
        &&& forall|k: int| 0 <= k < left.len() ==> self.is_hidden_act(#[trigger] left[k] as int)
        &&& forall|k: int| 0 <= k < peeled.len() ==> self.is_hidden_act(#[trigger] peeled[k] as int)
        &&& forall|x: usize| #[trigger] left.contains(x) ==> !peeled.contains(x)
        &&& forall|x: usize|
            self.is_hidden_act(x as int) ==> (#[trigger] left.contains(x) || peeled.contains(x))
        &&& forall|p: int, a: usize|
            0 <= p < peeled.len() && self.is_hidden_act(a as int) && #[trigger] self.edge(
                a as int,
                peeled[p] as int,
            ) ==> peeled.subrange(0, p).contains(a)
    }
}

proof fn lemma_first_in(o: Seq<usize>, list: Seq<usize>, i: int, k: int) -> (p: int)
    requires
        0 <= i <= k < o.len(),
        list.contains(o[k]),
        forall|q: int| 0 <= q < i ==> !list.contains(#[trigger] o[q]),
    ensures
        i <= p <= k,
        list.contains(o[p]),
        forall|q: int| 0 <= q < p ==> !list.contains(#[trigger] o[q]),
    decreases k - i,
{
    if list.contains(o[i]) {
        i
    } else {
        lemma_first_in(o, list, i + 1, k)
    }
}

/// A non-empty set of hidden nodes in which every node is fed by a node of
/// the set lies on a cycle.
pub proof fn lemma_self_feeding_means_cycle(m: NetModel, list: Seq<usize>)
    requires
        m.wf(),
        list.len() > 0,
        forall|k: int| 0 <= k < list.len() ==> m.is_hidden_act(#[trigger] list[k] as int),
        forall|k: int| 0 <= k < list.len() ==> m.fed_from(#[trigger] list[k] as int, list),
    ensures
        !m.is_acyclic(),
{
    if m.is_acyclic() {
        let o = choose|o: Seq<usize>| m.is_eval_order(o);
        let no = m.num_outputs as int;
        let hc = m.hidden_count();
        lemma_distinct_in_range(o, no, no + hc);
        let x0 = list[0] as int;
        assert(no <= x0 < no + hc);
        assert(o.contains(x0 as usize));
        assert(o.contains(list[0]));
        let k = choose|k: int| 0 <= k < o.len() && o[k] == list[0];
        assert(list.contains(o[k]));
        let p = lemma_first_in(o, list, 0, k);
        let j = choose|j: int| 0 <= j < list.len() && list[j] == o[p];
        assert(m.fed_from(list[j] as int, list));
        let q = choose|q: int| 0 <= q < list.len() && #[trigger] m.edge(list[q] as int, list[j] as int);
        assert(m.is_hidden_act(list[q] as int));
        let x1 = list[q] as int;
        assert(no <= x1 < no + hc);
        assert(o.contains(x1 as usize));
        assert(o.contains(list[q]));
        let r = choose|r: int| 0 <= r < o.len() && o[r] == list[q];
        assert(m.edge(o[r] as int, o[p] as int));
        assert(r < p);
        assert(list.contains(o[r]));
    }
}

/// A finished peeling lists an evaluation order.
proof fn lemma_peeled_is_eval_order(m: NetModel, peeled: Seq<usize>)
    requires
        m.wf(),
        m.peel_state(Seq::empty(), peeled),
    ensures
        m.is_eval_order(peeled),
{
    let no = m.num_outputs as int;
    let hc = m.hidden_count();
    lemma_distinct_in_range(peeled, no, no + hc);
    assert forall|x: int| no <= x < no + hc implies #[trigger] peeled.contains(x as usize) by {
        assert(m.is_hidden_act((x as usize) as int));
        assert(!Seq::<usize>::empty().contains(x as usize));
    }
    lemma_covering_len(peeled, no, no + hc);
    assert forall|a: int, b: int|
        0 <= a < peeled.len() && 0 <= b < peeled.len() && #[trigger] m.edge(
            peeled[b] as int,
            peeled[a] as int,
        ) implies b < a by {
        assert(peeled.subrange(0, a).contains(peeled[b]));
        let q = choose|q: int| 0 <= q < a && peeled.subrange(0, a)[q] == peeled[b];
        assert(peeled[q] == peeled[b]);
    }
}

/// Peeling node `left[j]` keeps the peeling state when none of its hidden
/// predecessors is still left.
proof fn lemma_peel_step(m: NetModel, left: Seq<usize>, peeled: Seq<usize>, j: int)
    requires
        m.wf(),
        m.peel_state(left, peeled),
        0 <= j < left.len(),
        !m.fed_from(left[j] as int, left),
    ensures
        m.peel_state(left.remove(j), peeled.push(left[j])),
{
    let i = left[j];
    lemma_remove_contains(left, j);
    lemma_push_contains(peeled, i);
    assert(left.contains(left[j]));
    assert(!peeled.contains(i));
    lemma_push_no_duplicates(peeled, i);
    let l2 = left.remove(j);
    let p2 = peeled.push(i);
    assert forall|k: int| 0 <= k < l2.len() implies m.is_hidden_act(#[trigger] l2[k] as int) by {
        assert(l2.contains(l2[k]));
        let t = choose|t: int| 0 <= t < left.len() && left[t] == l2[k];
    }
    assert forall|k: int| 0 <= k < p2.len() implies m.is_hidden_act(#[trigger] p2[k] as int) by {
        if k < peeled.len() {
            assert(p2[k] == peeled[k]);
        }
    }
    assert forall|p: int, a: usize|
        0 <= p < p2.len() && m.is_hidden_act(a as int) && #[trigger] m.edge(
            a as int,
            p2[p] as int,
        ) implies p2.subrange(0, p).contains(a) by {
        if p < peeled.len() {
            assert(p2[p] == peeled[p]);
            assert(p2.subrange(0, p) =~= peeled.subrange(0, p));
        } else {
            assert(p2[p] == i);
            if left.contains(a) {
                let q = choose|q: int| 0 <= q < left.len() && left[q] == a;
                assert(m.edge(left[q] as int, i as int));
            }
            assert(peeled.contains(a));
            assert(p2.subrange(0, p) =~= peeled);
        }
    }
}

/// Whether the row has no non-zero weight.
fn row_is_zero(row: &Vec<u32>) -> (b: bool)
    ensures
        b == forall|c: int| 0 <= c < row@.len() ==> is_zero_weight(#[trigger] row@[c]),
{
    let mut c: usize = 0;
    while c < row.len()
        invariant
            c <= row@.len(),
            forall|k: int| 0 <= k < c ==> is_zero_weight(#[trigger] row@[k]),
        decreases row@.len() - c,
    {
        if !weight_is_zero(row[c]) {
            return false;
        }
        c = c + 1;
    }
    true
}

impl NeuralNetwork {
    /// Whether no node of `list` feeds hidden node `i`.
    fn no_incoming_from(&self, i: usize, list: &Vec<usize>) -> (b: bool)
        requires
            self@.wf(),
            self@.is_hidden_act(i as int),
            forall|k: int| 0 <= k < list@.len() ==> self@.is_hidden_act(#[trigger] list@[k] as int),
        ensures
            b == !self@.fed_from(i as int, list@),
    {
        let ghost m = self@;
        let no = self.num_outputs;
        assert(m.hidden[i as int] == self.hidden_matrix@[i as int]@);
        let mut q: usize = 0;
        while q < list.len()
            invariant
                m == self@,
                m.wf(),
                no == m.num_outputs,
                m.is_hidden_act(i as int),
                m.hidden[i as int] == self.hidden_matrix@[i as int]@,
                forall|k: int| 0 <= k < list@.len() ==> m.is_hidden_act(#[trigger] list@[k] as int),
                q <= list@.len(),
                forall|k: int| 0 <= k < q ==> !#[trigger] m.edge(list@[k] as int, i as int),
            decreases list@.len() - q,
        {
            let col = list[q];
            assert(m.is_hidden_act(col as int));
            if !weight_is_zero(self.hidden_matrix[i][col - no]) {
                assert(m.edge(list@[q as int] as int, i as int));
                return false;
            }
            q = q + 1;
        }
        true
    }

    /// Peels the hidden layer. Returns `(true, order)` with an evaluation
    /// order when every hidden node could be peeled, `(false, _)` when the
    /// hidden layer has a cycle.
    fn peel_hidden_layer(&self) -> (res: (bool, Vec<usize>))
        requires
            self@.wf(),
        ensures
            res.0 ==> self@.is_eval_order(res.1@),
            !res.0 ==> !self@.is_acyclic(),
    {
        let ghost m = self@;
        let no = self.num_outputs;
        let ot_hi = self.neuron_number - (self.num_inputs + 1);
        let mut sample_order: Vec<usize> = Vec::new();
        let mut index_list: Vec<usize> = Vec::new();
        let mut a: usize = no;
        while a < ot_hi
            invariant
                m == self@,
                m.wf(),
                no == m.num_outputs,
                ot_hi == m.rows(),
                no <= a <= ot_hi,
                index_list@.len() == a - no,
                forall|k: int| 0 <= k < index_list@.len() ==> #[trigger] index_list@[k] == no + k,
            decreases ot_hi - a,
        {
            index_list.push(a);
            a = a + 1;
        }
        proof {
            assert(index_list@.no_duplicates());
            assert forall|x: usize| m.is_hidden_act(x as int) implies (#[trigger] index_list@.contains(x)
                || sample_order@.contains(x)) by {
                assert(index_list@[x - no] == x);
            }
            assert(m.peel_state(index_list@, sample_order@));
        }
        // Peel the nodes without any incoming hidden connection.
        let mut k: usize = 0;
        while k < index_list.len()
            invariant
                m == self@,
                m.wf(),
                no == m.num_outputs,
                ot_hi == m.rows(),
                k <= index_list@.len(),
                m.peel_state(index_list@, sample_order@),
            decreases index_list@.len() - k,
        {
            let i = index_list[k];
            assert(m.is_hidden_act(i as int));
            assert(m.hidden[i as int] == self.hidden_matrix@[i as int]@);
            if row_is_zero(&self.hidden_matrix[i]) {
                proof {
                    assert(!m.fed_from(i as int, index_list@)) by {
                        if m.fed_from(i as int, index_list@) {
                            let q = choose|q: int| 0 <= q < index_list@.len() && #[trigger] m.edge(
                                index_list@[q] as int,
                                i as int,
                            );
                            assert(m.is_hidden_act(index_list@[q] as int));
                            assert(is_zero_weight(self.hidden_matrix@[i as int]@[index_list@[q] - no]));
                        }
                    }
                    lemma_peel_step(m, index_list@, sample_order@, k as int);
                }
                index_list.remove(k);
                sample_order.push(i);
            } else {
                k = k + 1;
            }
        }
        // Peel the nodes fed only by peeled nodes until none is left or a
        // whole pass peels nothing.
        while index_list.len() > 0
            invariant
                m == self@,
                m.wf(),
                no == m.num_outputs,
                m.peel_state(index_list@, sample_order@),
            decreases index_list@.len(),
        {
            let before = index_list.len();
            let ghost start = index_list@;
            let mut j: usize = 0;
            while j < index_list.len()
                invariant
                    m == self@,
                    m.wf(),
                    no == m.num_outputs,
                    m.peel_state(index_list@, sample_order@),
                    before == start.len(),
                    j <= index_list@.len(),
                    index_list@.len() <= before,
                    index_list@.len() == before ==> index_list@ == start,
                    index_list@.len() == before ==> forall|q: int|
                        0 <= q < j ==> m.fed_from(#[trigger] start[q] as int, start),
                decreases index_list@.len() - j,
            {
                let i = index_list[j];
                assert(m.is_hidden_act(i as int));
                if self.no_incoming_from(i, &index_list) {
                    proof {
                        lemma_peel_step(m, index_list@, sample_order@, j as int);
                        lemma_remove_contains(index_list@, j as int);
                    }
                    index_list.remove(j);
                    sample_order.push(i);
                } else {
                    j = j + 1;
                }
            }
            if before == index_list.len() {
                proof {
                    assert forall|q: int| 0 <= q < start.len() implies m.is_hidden_act(
                        #[trigger] start[q] as int,
                    ) by {}
                    lemma_self_feeding_means_cycle(m, start);
                }
                return (false, sample_order);
            }
        }
        proof {
            assert(index_list@ =~= Seq::<usize>::empty());
            lemma_peeled_is_eval_order(m, sample_order@);
        }
        (true, sample_order)
    }

    /// Checks whether a connection `source -> target` between hidden nodes
    /// would close a cycle, by repeatedly peeling hidden nodes without
    /// incoming connections from the nodes still left. Same contract as
    /// [`NeuralNetwork::kahn_algorithm`].
    pub fn infinity_loop(&mut self, source: usize, target: usize) -> (cycle: bool)
        requires
            old(self)@.wf(),
            old(self)@.probe_in_range(source as int, target as int),
        ensures
            final(self)@.wf(),
            cycle_check_post(old(self)@, final(self)@, source as int, target as int, cycle),
    {
        let in_bi = self.num_inputs + 1;
        let in_bi_out = in_bi + self.num_outputs;
        let hidden_start = in_bi_out;
        if source >= in_bi_out && target >= in_bi_out {
            let r = target - in_bi;
            let c = source - hidden_start;
            self.set_hidden_cell(r, c, PROBE_WEIGHT_BITS);
            let ghost p = self@;
            assert(p == old(self)@.probed(source as int, target as int));
            let (complete, sample_order) = self.peel_hidden_layer();
            if !complete {
                self.set_hidden_cell(r, c, ZERO_WEIGHT_BITS);
                assert(self@.hidden[r as int] =~= old(self)@.hidden[r as int].update(
                    c as int,
                    ZERO_WEIGHT_BITS,
                ));
                assert(self@.hidden =~= old(self)@.with_hidden_cell(
                    r as int,
                    c as int,
                    ZERO_WEIGHT_BITS,
                ).hidden);
                assert(self@ =~= old(self)@.with_hidden_cell(
                    target - old(self)@.in_bi(),
                    source - old(self)@.hidden_start(),
                    ZERO_WEIGHT_BITS,
                ));
                return true;
            }
            self.eval_order = sample_order;
            assert(self@ =~= NetModel { eval_order: sample_order@, ..p });
            false
        } else {
            false
        }
    }
}

} // verus!

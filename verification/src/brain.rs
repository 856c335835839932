//! Topology of the growing neural network that steers every animal.
//!
//! Node numbering: inputs `0..num_inputs`, the bias node `num_inputs`,
//! outputs `num_inputs + 1 ..`, hidden nodes after the outputs.
//! `input_matrix[r][c]` is the weight from input/bias node `c` to node
//! `num_inputs + 1 + r`; `hidden_matrix[r][c]` the weight from hidden node
//! `num_inputs + 1 + num_outputs + c` to node `num_inputs + 1 + r`.
//! A weight is an IEEE-754 `binary32` bit pattern; a connection exists
//! where the weight is not (positive or negative) zero.
use vstd::prelude::*;

verus! {

/// Bit pattern of `0.01`, the weight that stands in for a zero weight.
pub const MIN_WEIGHT_BITS: u32 = 0x3C23_D70A;

/// Bit pattern of `1.0`, the weight of the probe edge of the cycle checks.
pub const PROBE_WEIGHT_BITS: u32 = 0x3F80_0000;

/// Bit pattern of `+0.0`: no connection.
pub const ZERO_WEIGHT_BITS: u32 = 0;

/// A weight compares equal to `0.0` exactly when it is `+0.0` or `-0.0`.
pub open spec fn is_zero_weight(w: u32) -> bool {
    w == 0 || w == 0x8000_0000
}

/// The weight actually stored for a requested weight: zero becomes `0.01`.
pub open spec fn stored_weight(w: u32) -> u32 {
    if is_zero_weight(w) {
        MIN_WEIGHT_BITS
    } else {
        w
    }
}

/// Whether a weight bit pattern compares equal to `0.0`.
pub fn weight_is_zero(w: u32) -> (b: bool)
    ensures
        b == is_zero_weight(w),
{
    w == 0 || w == 0x8000_0000
}

/// The rows of a weight matrix as sequences.
pub open spec fn rows_view(m: Seq<Vec<u32>>) -> Seq<Seq<u32>> {
    m.map_values(|r: Vec<u32>| r@)
}

/// Viewing rows commutes with pushing a row.
pub proof fn lemma_rows_view_push(m: Seq<Vec<u32>>, x: Vec<u32>)
    ensures
        rows_view(m.push(x)) == rows_view(m).push(x@),
{
    assert(rows_view(m.push(x)) =~= rows_view(m).push(x@));
}

/// Viewing rows commutes with replacing a row.
pub proof fn lemma_rows_view_update(m: Seq<Vec<u32>>, i: int, x: Vec<u32>)
    requires
        0 <= i < m.len(),
    ensures
        rows_view(m.update(i, x)) == rows_view(m).update(i, x@),
{
    assert(rows_view(m.update(i, x)) =~= rows_view(m).update(i, x@));
}

/// Abstract state of a [`NeuralNetwork`].
#[verifier::ext_equal]
pub struct NetModel {
    pub num_inputs: usize,
    pub num_outputs: usize,
    pub bias: u32,
    pub neuron_number: usize,
    pub eval_order: Seq<usize>,
    pub input: Seq<Seq<u32>>,
    pub hidden: Seq<Seq<u32>>,
    pub last_inputs: Seq<u32>,
    pub last_activations: Seq<u32>,
}

impl NetModel {
    /// Id of the first output node (number of inputs plus the bias node).
    pub open spec fn in_bi(self) -> int {
        self.num_inputs + 1
    }

    /// Id of the first hidden node.
    pub open spec fn hidden_start(self) -> int {
        self.num_inputs + 1 + self.num_outputs
    }

    /// Number of output and hidden nodes (rows of both matrices).
    pub open spec fn rows(self) -> int {
        self.neuron_number - self.in_bi()
    }

    /// Number of hidden nodes.
    pub open spec fn hidden_count(self) -> int {
        self.neuron_number - self.hidden_start()
    }

    /// The shapes of the two matrices agree with the node counts.
    pub open spec fn wf(self) -> bool {
        &&& self.hidden_start() <= self.neuron_number
        &&& self.input.len() == self.rows()
        &&& forall|r: int| 0 <= r < self.input.len() ==> #[trigger] self.input[r].len() == self.in_bi()
        &&& self.hidden.len() == self.rows()
        &&& forall|r: int| 0 <= r < self.hidden.len() ==> #[trigger] self.hidden[r].len() == self.hidden_count()
        &&& forall|i: int| 0 <= i < self.eval_order.len() ==> self.is_hidden_act(#[trigger] self.eval_order[i] as int)
    }

    /// `a` is the activation index (node id minus `in_bi`) of a hidden node.
    pub open spec fn is_hidden_act(self, a: int) -> bool {
        self.num_outputs <= a < self.rows()
    }

    /// There is a connection from hidden activation `a` to hidden activation `b`.
    pub open spec fn edge(self, a: int, b: int) -> bool {
        !is_zero_weight(self.hidden[b][a - self.num_outputs])
    }

    /// `order` lists every hidden node once, each after all hidden nodes
    /// that feed it: an evaluation order of the hidden layer.
    pub open spec fn is_eval_order(self, order: Seq<usize>) -> bool {
        &&& order.len() == self.hidden_count()
        &&& forall|i: int| 0 <= i < order.len() ==> self.is_hidden_act(#[trigger] order[i] as int)
        &&& order.no_duplicates()
        &&& forall|i: int, j: int|
            0 <= i < order.len() && 0 <= j < order.len() && #[trigger] self.edge(
                order[j] as int,
                order[i] as int,
            ) ==> j < i
    }

    /// The connections among hidden nodes form no cycle.
    pub open spec fn is_acyclic(self) -> bool {
        exists|order: Seq<usize>| self.is_eval_order(order)
    }

    /// The model with hidden-matrix cell `(r, c)` set to `w`.
    pub open spec fn with_hidden_cell(self, r: int, c: int, w: u32) -> NetModel {
        NetModel { hidden: self.hidden.update(r, self.hidden[r].update(c, w)), ..self }
    }

    /// The model with input-matrix cell `(r, c)` set to `w`.
    pub open spec fn with_input_cell(self, r: int, c: int, w: u32) -> NetModel {
        NetModel { input: self.input.update(r, self.input[r].update(c, w)), ..self }
    }

    /// The model with the probe edge `source -> target` placed (both hidden ids).
    pub open spec fn probed(self, source: int, target: int) -> NetModel {
        self.with_hidden_cell(target - self.in_bi(), source - self.hidden_start(), PROBE_WEIGHT_BITS)
    }

    /// The effect of `add_connection(source, target, w)`.
    pub open spec fn connected(self, source: int, target: int, w: u32) -> NetModel {
        if source < self.in_bi() {
            if target - self.in_bi() < self.rows() {
                self.with_input_cell(target - self.in_bi(), source, stored_weight(w))
            } else {
                self
            }
        } else if source < self.hidden_start() {
            self
        } else if target - self.in_bi() < self.rows() && source - self.hidden_start()
            < self.hidden_count() {
            self.with_hidden_cell(target - self.in_bi(), source - self.hidden_start(), stored_weight(w))
        } else {
            self
        }
    }

    /// The effect of `add_neuron`: one more hidden node, unconnected.
    pub open spec fn grown(self) -> NetModel {
        NetModel {
            neuron_number: (self.neuron_number + 1) as usize,
            input: self.input.push(Seq::new(self.in_bi() as nat, |i: int| ZERO_WEIGHT_BITS)),
            hidden: Seq::new(
                self.hidden.len(),
                |r: int| self.hidden[r].push(ZERO_WEIGHT_BITS),
            ).push(Seq::new((self.hidden_count() + 1) as nat, |i: int| ZERO_WEIGHT_BITS)),
            ..self
        }
    }
}

/// A growing, evolvable neural network with dynamic topology.
#[derive(Clone, Debug)]
pub struct NeuralNetwork {
    /// Number of input nodes (sensory inputs).
    pub num_inputs: usize,
    /// Number of output nodes (speed and turning).
    pub num_outputs: usize,
    /// Bias value (bit pattern), scaled by the energy factor in the forward pass.
    pub bias: u32,
    /// Total number of nodes: inputs + bias + outputs + hidden.
    pub neuron_number: usize,
    /// Evaluation order of the hidden nodes (activation indices).
    pub eval_order: Vec<usize>,
    /// Weights from inputs and bias to outputs and hidden nodes.
    pub input_matrix: Vec<Vec<u32>>,
    /// Weights from hidden nodes to outputs and hidden nodes.
    pub hidden_matrix: Vec<Vec<u32>>,
    /// Most recent input vector of the forward pass.
    pub last_inputs: Vec<u32>,
    /// Most recent activations of the forward pass.
    pub last_activations: Vec<u32>,
}

impl View for NeuralNetwork {
    type V = NetModel;

    open spec fn view(&self) -> NetModel {
        NetModel {
            num_inputs: self.num_inputs,
            num_outputs: self.num_outputs,
            bias: self.bias,
            neuron_number: self.neuron_number,
            eval_order: self.eval_order@,
            input: rows_view(self.input_matrix@),
            hidden: rows_view(self.hidden_matrix@),
            last_inputs: self.last_inputs@,
            last_activations: self.last_activations@,
        }
    }
}

fn zero_row(len: usize) -> (row: Vec<u32>)
    ensures
        row@ == Seq::new(len as nat, |i: int| ZERO_WEIGHT_BITS),
{
    let mut row: Vec<u32> = Vec::new();
    let mut i: usize = 0;
    while i < len
        invariant
            i <= len,
            row@ == Seq::new(i as nat, |k: int| ZERO_WEIGHT_BITS),
        decreases len - i,
    {
        row.push(ZERO_WEIGHT_BITS);
        i += 1;
        assert(row@ =~= Seq::new(i as nat, |k: int| ZERO_WEIGHT_BITS));
    }
    row
}

impl NeuralNetwork {
    /// The minimal network: inputs, bias and outputs, with no connection
    /// and no hidden node.
    pub fn new_minimal(num_inputs: usize, num_outputs: usize, bias: u32) -> (nn: Self)
        requires
            num_inputs + 1 + num_outputs <= usize::MAX,
        ensures
            nn@.wf(),
            nn@.num_inputs == num_inputs,
            nn@.num_outputs == num_outputs,
            nn@.bias == bias,
            nn@.neuron_number == num_inputs + 1 + num_outputs,
            nn@.hidden_count() == 0,
            nn@.eval_order == Seq::<usize>::empty(),
            nn@.input == Seq::new(
                num_outputs as nat,
                |r: int| Seq::new((num_inputs + 1) as nat, |c: int| ZERO_WEIGHT_BITS),
            ),
            nn@.hidden == Seq::new(num_outputs as nat, |r: int| Seq::<u32>::empty()),
            nn@.last_inputs == Seq::<u32>::empty(),
            nn@.last_activations == Seq::<u32>::empty(),
            nn@.is_acyclic(),
    {
        let mut input_matrix: Vec<Vec<u32>> = Vec::new();
        let mut hidden_matrix: Vec<Vec<u32>> = Vec::new();
        let mut r: usize = 0;
        while r < num_outputs
            invariant
                r <= num_outputs,
                num_inputs + 1 + num_outputs <= usize::MAX,
                rows_view(input_matrix@) == Seq::new(
                    r as nat,
                    |k: int| Seq::new((num_inputs + 1) as nat, |c: int| ZERO_WEIGHT_BITS),
                ),
                rows_view(hidden_matrix@) == Seq::new(r as nat, |k: int| Seq::<u32>::empty()),
            decreases num_outputs - r,
        {
            let row = zero_row(num_inputs + 1);
            let empty: Vec<u32> = Vec::new();
            proof {
                lemma_rows_view_push(input_matrix@, row);
                lemma_rows_view_push(hidden_matrix@, empty);
            }
            input_matrix.push(row);
            hidden_matrix.push(empty);
            r += 1;
            assert(rows_view(input_matrix@) =~= Seq::new(
                r as nat,
                |k: int| Seq::new((num_inputs + 1) as nat, |c: int| ZERO_WEIGHT_BITS),
            ));
            assert(rows_view(hidden_matrix@) =~= Seq::new(r as nat, |k: int| Seq::<u32>::empty()));
        }
        let nn = NeuralNetwork {
            num_inputs,
            num_outputs,
            bias,
            neuron_number: num_inputs + 1 + num_outputs,
            eval_order: Vec::new(),
            input_matrix,
            hidden_matrix,
            last_inputs: Vec::new(),
            last_activations: Vec::new(),
        };
        assert(nn@.is_eval_order(Seq::<usize>::empty()));
        nn
    }

    /// Returns the total number of neurons (inputs + bias + outputs + hidden).
    pub fn num_neurons(&self) -> (n: usize)
        ensures
            n == self@.neuron_number,
    {
        self.neuron_number
    }

    /// Adds a new hidden, unconnected neuron.
    #[verifier::loop_isolation(false)]
    pub fn add_neuron(&mut self)
        requires
            old(self)@.wf(),
            old(self)@.rows() > 0,
            old(self)@.neuron_number < usize::MAX,
        ensures
            final(self)@ == old(self)@.grown(),
            final(self)@.wf(),
            old(self)@.is_acyclic() ==> final(self)@.is_acyclic(),
    {
        let ghost old_model = self@;
        proof {
            if old_model.is_acyclic() {
                crate::acyclic::lemma_grown_keeps_acyclic(old_model);
            }
        }
        let row = zero_row(self.num_inputs + 1);
        proof {
            lemma_rows_view_push(self.input_matrix@, row);
        }
        self.input_matrix.push(row);
        let mut r: usize = 0;
        let n_rows = self.hidden_matrix.len();
        while r < n_rows
            invariant
                n_rows == self.hidden_matrix@.len(),
                r <= n_rows,
                self.num_inputs == old_model.num_inputs,
                self.num_outputs == old_model.num_outputs,
                self.bias == old_model.bias,
                self.neuron_number == old_model.neuron_number,
                self.eval_order@ == old_model.eval_order,
                self.last_inputs@ == old_model.last_inputs,
                self.last_activations@ == old_model.last_activations,
                rows_view(self.input_matrix@) == old_model.input.push(
                    Seq::new(old_model.in_bi() as nat, |i: int| ZERO_WEIGHT_BITS),
                ),
                forall|k: int|
                    0 <= k < r ==> #[trigger] rows_view(self.hidden_matrix@)[k]
                        == old_model.hidden[k].push(ZERO_WEIGHT_BITS),
                forall|k: int|
                    r <= k < n_rows ==> #[trigger] rows_view(self.hidden_matrix@)[k]
                        == old_model.hidden[k],
            decreases n_rows - r,
        {
            let ghost before = self.hidden_matrix@;
            assert(rows_view(before)[r as int] == old_model.hidden[r as int]);
            assert(rows_view(before)[r as int] == before[r as int]@);
            let mut row_r: Vec<u32> = Vec::new();
            std::mem::swap(&mut row_r, &mut self.hidden_matrix[r]);
            row_r.push(ZERO_WEIGHT_BITS);
            self.hidden_matrix[r] = row_r;
            proof {
                lemma_rows_view_update(before, r as int, row_r);
                assert forall|k: int| 0 <= k < r + 1 implies #[trigger] rows_view(self.hidden_matrix@)[k]
                    == old_model.hidden[k].push(ZERO_WEIGHT_BITS) by {
                    if k < r {
                        assert(rows_view(before)[k] == old_model.hidden[k].push(ZERO_WEIGHT_BITS));
                    }
                }
                assert forall|k: int| r + 1 <= k < n_rows implies #[trigger] rows_view(self.hidden_matrix@)[k]
                    == old_model.hidden[k] by {
                    assert(rows_view(before)[k] == old_model.hidden[k]);
                }
            }
            r += 1;
        }
        assert(rows_view(self.hidden_matrix@)[0] == old_model.hidden[0].push(ZERO_WEIGHT_BITS));
        assert(old_model.hidden[0].len() == old_model.hidden_count());
        let new_width = self.hidden_matrix[0].len();
        let row2 = zero_row(new_width);
        proof {
            lemma_rows_view_push(self.hidden_matrix@, row2);
        }
        self.hidden_matrix.push(row2);
        self.neuron_number = self.neuron_number + 1;
        proof {
            let g = old_model.grown();
            assert(rows_view(self.input_matrix@) =~= g.input);
            assert forall|k: int| 0 <= k < g.hidden.len() implies #[trigger] rows_view(self.hidden_matrix@)[k] == g.hidden[k] by {
                if k < n_rows {
                    assert(rows_view(self.hidden_matrix@)[k] == old_model.hidden[k].push(ZERO_WEIGHT_BITS));
                } else {
                    assert(rows_view(self.hidden_matrix@)[k] =~= g.hidden[k]);
                }
            }
            assert(rows_view(self.hidden_matrix@) =~= g.hidden);
            assert(self@ =~= g);
        }
    }

    /// Sets the weight of the connection `source -> target`; a zero weight is
    /// stored as `0.01`. Outputs cannot be sources: such a request, or one
    /// whose cell lies outside the matrices, changes nothing.
    pub fn add_connection(&mut self, source: usize, target: usize, weight: u32)
        requires
            old(self)@.wf(),
            (source < old(self)@.in_bi() || source >= old(self)@.hidden_start()) ==> target
                >= old(self)@.in_bi(),
        ensures
            final(self)@ == old(self)@.connected(source as int, target as int, weight),
            final(self)@.wf(),
            old(self)@.is_acyclic() && old(self)@.valid_source(source as int) && old(
                self,
            )@.valid_target(target as int) && !is_zero_weight(
                old(self)@.weight_at(source as int, target as int),
            ) ==> final(self)@.is_acyclic(),
    {
        proof {
            let m = self@;
            if m.is_acyclic() && m.valid_source(source as int) && m.valid_target(target as int)
                && !is_zero_weight(m.weight_at(source as int, target as int)) {
                crate::acyclic::lemma_reweight_keeps_acyclic(m, source as int, target as int, weight);
            }
        }
        let w = if weight_is_zero(weight) {
            MIN_WEIGHT_BITS
        } else {
            weight
        };
        let in_bi = self.num_inputs + 1;
        let hidden_start = in_bi + self.num_outputs;
        if source < in_bi {
            let r = target - in_bi;
            if r < self.input_matrix.len() {
                let ghost before = self.input_matrix@;
                assert(rows_view(before)[r as int] == before[r as int]@);
                assert(old(self)@.input[r as int].len() == in_bi);
                let mut row: Vec<u32> = Vec::new();
                std::mem::swap(&mut row, &mut self.input_matrix[r]);
                row.set(source, w);
                self.input_matrix[r] = row;
                proof {
                    lemma_rows_view_update(before, r as int, row);
                }
                assert(rows_view(self.input_matrix@) =~= old(self)@.with_input_cell(
                    r as int,
                    source as int,
                    w,
                ).input);
            }
        } else {
            if source < hidden_start {
                return;
            }
            let r = target - in_bi;
            let col = source - hidden_start;
            if r < self.hidden_matrix.len() && col < self.hidden_matrix[r].len() {
                let ghost before = self.hidden_matrix@;
                let mut row: Vec<u32> = Vec::new();
                std::mem::swap(&mut row, &mut self.hidden_matrix[r]);
                row.set(col, w);
                self.hidden_matrix[r] = row;
                proof {
                    lemma_rows_view_update(before, r as int, row);
                }
                assert(rows_view(self.hidden_matrix@) =~= old(self)@.with_hidden_cell(
                    r as int,
                    col as int,
                    w,
                ).hidden);
            }
        }
        assert(self@ =~= old(self)@.connected(source as int, target as int, weight));
    }
}

} // verus!

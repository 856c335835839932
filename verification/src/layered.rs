//! Shapes of a plain layered feed-forward network: how many inputs and
//! neurons each layer has. The weights themselves are real numbers and live
//! outside the library.
use vstd::prelude::*;

verus! {

/// Number of neurons in one layer of a layered network.
#[derive(Debug, Clone, Copy, PartialEq, Eq, Structural)]
pub struct LayerTopology {
    pub neurons: usize,
}

/// Shape of a fully connected layer: `(inputs, neurons)`.
pub type LayerShape = (usize, usize);

/// The layers that connect consecutive entries of `topology`: layer `i`
/// reads the neurons of entry `i` and has those of entry `i + 1`.
pub open spec fn shapes_of(topology: Seq<LayerTopology>) -> Seq<LayerShape> {
    Seq::new(
        (topology.len() - 1) as nat,
        |i: int| (topology[i].neurons, topology[i + 1].neurons),
    )
}

/// Consecutive layers fit: each layer reads as many values as the layer
/// before it has neurons (the network is fully connected layer to layer).
pub open spec fn chained(shapes: Seq<LayerShape>) -> bool {
    forall|i: int| 0 <= i < shapes.len() - 1 ==> #[trigger] shapes[i].1 == shapes[i + 1].0
}

/// A network built from a topology is chained, and inserting a layer keeps
/// it chained, one layer longer, with the new layer's neuron count and the
/// pushed-back layer's neuron count unchanged.
pub proof fn lemma_insert_keeps_chained(shapes: Seq<LayerShape>, position: int, topology: LayerTopology)
    requires
        chained(shapes),
        0 < position < shapes.len(),
    ensures
        chained(shapes_after_insert(shapes, position, topology)),
        shapes_after_insert(shapes, position, topology).len() == shapes.len() + 1,
        shapes_after_insert(shapes, position, topology)[position].1 == topology.neurons,
        shapes_after_insert(shapes, position, topology)[position + 1].1 == shapes[position].1,
{
    let r = shapes_after_insert(shapes, position, topology);
    assert forall|i: int| 0 <= i < r.len() - 1 implies #[trigger] r[i].1 == r[i + 1].0 by {
        if i < position - 1 {
            assert(r[i] == shapes[i] && r[i + 1] == shapes[i + 1]);
        } else if i == position - 1 {
        } else if i == position {
        } else if i == position + 1 {
            assert(r[i + 1] == shapes[i]);
            assert(shapes[position].1 == shapes[position + 1].0);
        } else {
            assert(r[i] == shapes[i - 1] && r[i + 1] == shapes[i]);
        }
    }
}

/// Inserting a layer at `position` leaves the layers before it as they
/// were, makes the new layer read the neurons of the layer before it, and
/// moves every later layer one place back, only the first of them reading
/// the new layer's neurons instead.
pub proof fn lemma_insert_moves_layers_back(
    shapes: Seq<LayerShape>,
    position: int,
    topology: LayerTopology,
    i: int,
)
    requires
        0 < position < shapes.len(),
    ensures
        0 <= i < position ==> shapes_after_insert(shapes, position, topology)[i] == shapes[i],
        shapes_after_insert(shapes, position, topology)[position] == (
            shapes[position - 1].1,
            topology.neurons,
        ),
        shapes_after_insert(shapes, position, topology)[position + 1] == (
            topology.neurons,
            shapes[position].1,
        ),
        position < i < shapes.len() ==> shapes_after_insert(shapes, position, topology)[i + 1]
            == shapes[i],
{
}

/// A network built from a topology has one layer fewer than the topology
/// has entries; layer `i` reads the neurons of entry `i` and has those of
/// entry `i + 1`, so the first reads the inputs and the last has the
/// outputs.
pub proof fn lemma_shapes_follow_topology(topology: Seq<LayerTopology>, i: int)
    requires
        topology.len() > 1,
    ensures
        shapes_of(topology).len() + 1 == topology.len(),
        0 <= i < topology.len() - 1 ==> shapes_of(topology)[i].0 == topology[i].neurons
            && shapes_of(topology)[i].1 == topology[i + 1].neurons,
        shapes_of(topology)[0].0 == topology[0].neurons,
        shapes_of(topology).last().1 == topology.last().neurons,
{
}

/// Shapes of the layers of a network built from `topology`, which names
/// the input layer first and the output layer last.
pub fn layer_shapes(topology: &Vec<LayerTopology>) -> (shapes: Vec<LayerShape>)
    requires
        topology@.len() > 1,
    ensures
        shapes@ == shapes_of(topology@),
        chained(shapes@),
{
    let mut shapes: Vec<LayerShape> = Vec::new();
    let mut i: usize = 0;
    while i < topology.len() - 1
        invariant
            i + 1 <= topology@.len(),
            shapes@ == shapes_of(topology@).subrange(0, i as int),
        decreases topology@.len() - i,
    {
        shapes.push((topology[i].neurons, topology[i + 1].neurons));
        i = i + 1;
        assert(shapes@ =~= shapes_of(topology@).subrange(0, i as int));
    }
    assert(shapes@ =~= shapes_of(topology@));
    shapes
}

/// The shapes after a layer of `topology.neurons` neurons is inserted at
/// `position`: it reads the layer before it, and the layer that it pushes
/// back is rebuilt, with the same number of neurons, to read the new layer.
pub open spec fn shapes_after_insert(
    shapes: Seq<LayerShape>,
    position: int,
    topology: LayerTopology,
) -> Seq<LayerShape> {
    shapes.subrange(0, position).push((shapes[position - 1].1, topology.neurons)).push(
        (topology.neurons, shapes[position].1),
    ) + shapes.subrange(position + 1, shapes.len() as int)
}

/// Inserts a layer of `topology.neurons` neurons at `position`, between two
/// existing layers; the network stays fully connected.
pub fn add_layer(shapes: &mut Vec<LayerShape>, position: usize, topology: &LayerTopology)
    requires
        0 < position < old(shapes)@.len(),
    ensures
        final(shapes)@ == shapes_after_insert(old(shapes)@, position as int, *topology),
        chained(old(shapes)@) ==> chained(final(shapes)@),
{
    proof {
        if chained(shapes@) {
            lemma_insert_keeps_chained(shapes@, position as int, *topology);
        }
    }
    assert(position < shapes.len());
    let after: usize = position + 1;
    let input_size = shapes[position - 1].1;
    let output_size = topology.neurons;
    shapes.insert(position, (input_size, output_size));
    let next_neurons = shapes[after].1;
    shapes.set(after, (output_size, next_neurons));
    assert(shapes@ =~= shapes_after_insert(old(shapes)@, position as int, *topology));
}

} // verus!

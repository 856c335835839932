use predator_vs_prey::layered::{add_layer, layer_shapes, LayerTopology};

fn topo(sizes: &[usize]) -> Vec<LayerTopology> {
    sizes.iter().map(|&neurons| LayerTopology { neurons }).collect()
}

#[test]
fn shapes_connect_consecutive_layers() {
    assert_eq!(layer_shapes(&topo(&[3, 5, 2])), vec![(3, 5), (5, 2)]);
    assert_eq!(layer_shapes(&topo(&[4, 1])), vec![(4, 1)]);
}

#[test]
fn inserted_layer_rebuilds_the_next() {
    let mut shapes = layer_shapes(&topo(&[3, 5, 2, 1]));
    add_layer(&mut shapes, 1, &LayerTopology { neurons: 7 });
    assert_eq!(shapes, vec![(3, 5), (5, 7), (7, 2), (2, 1)]);
}

#[test]
fn inserted_layer_keeps_network_fully_connected() {
    let mut shapes = layer_shapes(&topo(&[3, 4, 5, 2]));
    add_layer(&mut shapes, 1, &LayerTopology { neurons: 6 });
    assert_eq!(shapes, vec![(3, 4), (4, 6), (6, 5), (5, 2)]);
    for w in shapes.windows(2) {
        assert_eq!(w[0].1, w[1].0);
    }
}

use predator_vs_prey::spatial_hash::SpatialHash;

/// Number of cells along a side: as many whole cells of `cell_size` as fit,
/// at least one.
fn cell_count(world: f32, cell_size: usize) -> usize {
    ((world / cell_size as f32).floor() as usize).max(1)
}

fn make(cell_size: usize, world_w: f32, world_h: f32) -> SpatialHash {
    SpatialHash::new(
        cell_size,
        cell_count(world_w, cell_size),
        cell_count(world_h, cell_size),
        world_w.to_bits(),
        world_h.to_bits(),
    )
}

/// Raw cell coordinate of a position: wrapped into the world, divided by the
/// cell extent, rounded down.
fn raw(v: f32, world: f32, n: usize) -> usize {
    (v.rem_euclid(world) / (world / n as f32)).floor() as usize
}

fn raw_cell(sh: &SpatialHash, x: f32, y: f32) -> (usize, usize) {
    let w = f32::from_bits(sh.world_width);
    let h = f32::from_bits(sh.world_height);
    (raw(x, w, sh.num_cells_x), raw(y, h, sh.num_cells_y))
}

fn rebuild(sh: &mut SpatialHash, points: &[(f32, f32)]) {
    let cells: Vec<(usize, usize)> = points.iter().map(|&(x, y)| raw_cell(sh, x, y)).collect();
    sh.rebuild_from(&cells);
}

fn query(sh: &SpatialHash, x: f32, y: f32) -> Vec<usize> {
    let (rx, ry) = raw_cell(sh, x, y);
    sh.query(rx, ry)
}

#[test]
fn test_inclusion_x() {
    let cell_size = 200;
    let mut sh = make(cell_size, 1000.0, 1000.0);
    rebuild(&mut sh, &[(799.0, 500.0)]);

    let nearby = query(&sh, 500.0, 500.0);
    assert!(!nearby.is_empty(), "Object within neighbor range should be found");
    assert_eq!(nearby[0], 0);
}

#[test]
fn test_exclusion_x() {
    let cell_size = 200;
    let mut sh = make(cell_size, 1000.0, 1000.0);
    rebuild(&mut sh, &[(800.0, 500.0)]);

    let nearby = query(&sh, 500.0, 500.0);
    assert!(nearby.is_empty(), "Object in Cell 4 should not be seen by Cell 2");
}

#[test]
fn test_inclusion_y() {
    let cell_size = 200;
    let mut sh = make(cell_size, 1000.0, 1000.0);
    rebuild(&mut sh, &[(400.0, 200.0)]);

    let nearby = query(&sh, 500.0, 500.0);
    assert!(!nearby.is_empty(), "Object in Y-neighbor should be found");
}

#[test]
fn test_exclusion_y() {
    let cell_size = 200;
    let mut sh = make(cell_size, 1000.0, 1000.0);
    rebuild(&mut sh, &[(400.0, 199.0)]);

    let nearby = query(&sh, 500.0, 500.0);
    assert!(nearby.is_empty(), "Object in Cell 0 is too far from Cell 2");
}

#[test]
fn test_spatial_hash_wrapping_x() {
    let mut sh = make(200, 1000.0, 1000.0);
    rebuild(&mut sh, &[(800.0, 500.0)]);

    let nearby = query(&sh, 5.0, 500.0);
    assert!(!nearby.is_empty(), "Toroidal neighbor (left-wrap) NOT detected");
}

#[test]
fn test_spatial_hash_wrapping_y() {
    let mut sh = make(200, 1000.0, 1000.0);
    rebuild(&mut sh, &[(500.0, 900.0)]);

    let nearby = query(&sh, 500.0, 5.0);
    assert!(!nearby.is_empty(), "Toroidal neighbor (top-bottom wrap) NOT detected");
}

#[test]
fn test_diagonal_corner_wrap() {
    let mut sh = make(200, 1000.0, 1000.0);
    rebuild(&mut sh, &[(995.0, 995.0)]);

    let nearby = query(&sh, 5.0, 5.0);
    assert!(!nearby.is_empty(), "Diagonal toroidal neighbor NOT detected");
}

#[test]
fn test_query_at_exact_world_boundary() {
    let mut sh = make(200, 1000.0, 1000.0);
    rebuild(&mut sh, &[(0.0, 0.0)]);

    let nearby = query(&sh, 999.9, 999.9);
    assert!(!nearby.is_empty(), "Object at 0.0 should be found by query at world edge");
}

#[test]
fn test_neighborhood_density() {
    let mut sh = make(200, 1000.0, 1000.0);
    rebuild(
        &mut sh,
        &[(500.0, 500.0), (300.0, 300.0), (700.0, 700.0), (300.0, 700.0), (700.0, 300.0)],
    );

    let nearby = query(&sh, 500.0, 500.0);
    assert_eq!(nearby.len(), 5, "Should find all 5 objects in the 3x3 neighborhood");
}

#[test]
fn test_1x1_world() {
    let mut sh = make(100, 100.0, 100.0);
    rebuild(&mut sh, &[(90.0, 90.0)]);

    let nearby = query(&sh, 10.0, 10.0);
    assert!(!nearby.is_empty(), "In a 1x1 world, all objects should be neighbors");
}

#[test]
fn test_boundary_max_width() {
    let mut sh = make(100, 1000.0, 1000.0);
    rebuild(&mut sh, &[(1000.0, 500.0)]);

    let nearby = query(&sh, 0.0, 500.0);
    assert!(!nearby.is_empty(), "Object at x=WorldWidth should wrap to 0");
}

#[test]
fn test_phantom_gap_x() {
    let mut sh = make(150, 1000.0, 1000.0);
    rebuild(&mut sh, &[(1.0, 500.0)]);

    let indices = query(&sh, 899.0, 500.0);
    assert!(
        !indices.is_empty(),
        "Neighbor at x=1 should be found from x=899 (dist 102 < 150), but SH missed it!"
    );
}

#[test]
fn test_phantom_gap_y() {
    let mut sh = make(150, 1000.0, 1000.0);
    rebuild(&mut sh, &[(500.0, 1.0)]);

    let indices = query(&sh, 500.0, 850.0);
    assert!(!indices.is_empty(), "Neighbor at y=1 should be found from y=850");
}

#[test]
fn test_non_square_world() {
    let mut sh = make(200, 1200.0, 800.0);

    assert_eq!(sh.num_cells_x, 6);
    assert_eq!(sh.num_cells_y, 4);

    rebuild(&mut sh, &[(5.0, 400.0)]);
    let nearby_x = query(&sh, 1195.0, 400.0);
    assert!(!nearby_x.is_empty(), "Width wrap failed on non-square world");

    rebuild(&mut sh, &[(600.0, 5.0)]);
    let nearby_y = query(&sh, 600.0, 795.0);
    assert!(!nearby_y.is_empty(), "Height wrap failed on non-square world");
}

#[test]
fn query_returns_block_column_by_column() {
    // 5x5 cells; object i sits in the raw cell given below.
    let mut sh = SpatialHash::new(10, 5, 5, 50.0f32.to_bits(), 50.0f32.to_bits());
    let cells = vec![(2, 2), (1, 1), (3, 3), (0, 0), (1, 3), (2, 1), (7, 2)];
    sh.rebuild_from(&cells);
    // Around (2, 2): columns 1, 2, 3, each with rows 1, 2, 3.
    // Column 1: (1,1)=1, (1,3)=4; column 2: (2,1)=5, (2,2)=0, (7%5=2,2)=6; column 3: (3,3)=2.
    assert_eq!(sh.query(2, 2), vec![1, 4, 5, 0, 6, 2]);
    assert_eq!(sh.hash_cell(7, 12), (2, 2));
}

#[test]
fn query_wraps_from_corner_cell() {
    let mut sh = SpatialHash::new(10, 4, 3, 40.0f32.to_bits(), 30.0f32.to_bits());
    let cells = vec![(3, 2), (0, 0), (1, 1), (2, 0)];
    sh.rebuild_from(&cells);
    // Around (0, 0): columns 3, 0, 1 and rows 2, 0, 1.
    assert_eq!(sh.query(0, 0), vec![0, 1, 2]);
}

#[test]
fn clear_empties_every_cell() {
    let mut sh = SpatialHash::new(10, 3, 3, 30.0f32.to_bits(), 30.0f32.to_bits());
    sh.insert_at(4, 1, 1);
    sh.insert_at(9, 1, 1);
    assert_eq!(sh.query(1, 1), vec![4, 9]);
    sh.clear();
    assert!(sh.query(1, 1).is_empty());
}

#[test]
fn new_keeps_at_least_one_cell() {
    let sh = SpatialHash::new(500, 0, 0, 100.0f32.to_bits(), 100.0f32.to_bits());
    assert_eq!(sh.num_cells_x, 1);
    assert_eq!(sh.num_cells_y, 1);
    assert_eq!(sh.cell_size, 500);
}

#[test]
fn query_into_reuses_buffer() {
    let mut sh = SpatialHash::new(10, 5, 5, 50.0f32.to_bits(), 50.0f32.to_bits());
    sh.rebuild_from(&vec![(0, 0)]);
    let mut out = vec![7, 7, 7];
    sh.query_into(&mut out, 4, 4);
    assert_eq!(out, vec![0]);
    sh.query_into(&mut out, 2, 2);
    assert!(out.is_empty());
}

#[test]
fn rebuild_lists_each_index_once_and_query_has_no_repeats() {
    let mut sh = SpatialHash::new(10, 4, 3, 40.0f32.to_bits(), 30.0f32.to_bits());
    let cells = vec![(0, 0), (5, 1), (3, 2), (1, 1), (2, 0), (7, 5)];
    sh.rebuild_from(&cells);
    let mut seen = vec![0; cells.len()];
    for x in 0..4 {
        for y in 0..3 {
            for &i in &sh.cells[x][y] {
                seen[i] += 1;
                assert_eq!(sh.hash_cell(cells[i].0, cells[i].1), (x, y));
            }
            let q = sh.query(x, y);
            let mut sorted = q.clone();
            sorted.sort();
            sorted.dedup();
            assert_eq!(sorted.len(), q.len());
        }
    }
    assert_eq!(seen, vec![1; cells.len()]);
}

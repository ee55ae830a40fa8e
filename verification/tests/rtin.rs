use procgen_core::binary_node::BinaryNode;
use procgen_core::rtin::{
    build_terrain_from_sampler, get_errors_vec, is_power_of_2, sample_corner_mean, select_nodes,
    GridSampler, PlaneSampler,
};

/// A deterministic bumpy height field for the tests, at half-pixel
/// resolution over a `grid_size`-pixel plane.
fn test_sampler(grid_size: u32) -> GridSampler {
    let side = 2 * grid_size as u64 - 1;
    let mut heights = Vec::new();
    for y in 0..side {
        for x in 0..side {
            let h = ((x * 37 + y * 91) % 173) as i64 - 80 + ((x * y) % 29) as i64 * 11;
            heights.push(h * 1000);
        }
    }
    GridSampler::new(heights, grid_size)
}

#[test]
fn errors_vec_correct() {
    let size = 4;
    let sampler = test_sampler(size);
    let errors = get_errors_vec(&sampler, size);
    assert_eq!(16, errors.len());
}

#[test]
fn select_nodes_works() {
    let size = 4;

    let grid_size = (size as usize) + 1;

    let mut errors_vec = vec![0i64; grid_size * grid_size];
    errors_vec[13] = 5;
    errors_vec[12] = 5;
    let error_threshold = 4;
    let nodes = select_nodes(size, &errors_vec, error_threshold);
    let expected_nodes: Vec<BinaryNode> = vec![
        BinaryNode::new(4),
        BinaryNode::new(5),
        BinaryNode::new(6),
        BinaryNode::new(7),
    ];
    assert_eq!(expected_nodes, nodes);

    let mut errors_vec = vec![0i64; grid_size * grid_size];
    errors_vec[12] = 5;
    errors_vec[14] = 5;
    let error_threshold = 4;
    let nodes = select_nodes(size, &errors_vec, error_threshold);
    let expected_nodes: Vec<BinaryNode> = vec![
        BinaryNode::new(4),
        BinaryNode::new(5),
        BinaryNode::new(6),
        BinaryNode::new(14),
        BinaryNode::new(15),
    ];
    assert_eq!(expected_nodes, nodes);
}

#[test]
fn power_of_two_recognized() {
    assert!(is_power_of_2(1));
    assert!(is_power_of_2(2));
    assert!(is_power_of_2(64));
    assert!(is_power_of_2(0x4000_0000));
    assert!(!is_power_of_2(0));
    assert!(!is_power_of_2(3));
    assert!(!is_power_of_2(6));
    assert!(!is_power_of_2(12));
}

#[test]
fn sample_corner_mean_clamps() {
    let sampler = test_sampler(4);
    // An in-range coordinate reads straight through; one at or past the
    // plane edge reads the last pixel instead.
    assert_eq!(sample_corner_mean(&sampler, 4, (5, 3)), sampler.get(5, 3));
    assert_eq!(sample_corner_mean(&sampler, 4, (8, 9)), sampler.get(6, 6));
}

#[test]
fn build_terrain_emits_consistent_mesh() {
    let size = 8;
    assert!(is_power_of_2(size));
    let sampler = test_sampler(size + 1);
    let mesh = build_terrain_from_sampler(&sampler, 50, size, 400);

    // One index triple per triangle, all indices in range.
    assert!(mesh.indices.len() % 3 == 0);
    assert!(mesh.indices.len() > 0);
    for &ix in &mesh.indices {
        assert!((ix as usize) < mesh.vertices.len());
    }
    // Vertices deduplicated by flattened pixel position.
    let mut keys: Vec<u32> = mesh
        .vertices
        .iter()
        .map(|v| (v.z * size + v.x) / 2)
        .collect();
    keys.sort();
    let before = keys.len();
    keys.dedup();
    assert_eq!(before, keys.len());
    // Every vertex height is the sampled height scaled by the multiplier.
    for v in &mesh.vertices {
        assert_eq!(v.y, sample_corner_mean(&sampler, size, (v.x, v.z)) * 50);
    }
}

#[test]
fn flat_terrain_needs_only_two_triangles() {
    // A constant height field has zero interpolation error everywhere, so
    // the two root triangles suffice.
    let size = 8u32;
    let side = 2 * (size as u64 + 1) - 1;
    let heights = vec![7000i64; (side * side) as usize];
    let sampler = GridSampler::new(heights, size + 1);
    let mesh = build_terrain_from_sampler(&sampler, 3, size, 0);
    assert_eq!(mesh.indices.len(), 6);
}

use procgen_core::binary_node::{msb, BinaryNode, TriangleCoords};

#[test]
fn errors_vec_idx_correct() {
    let size = 16;
    let node = BinaryNode::new(2);
    let expected = 127;
    assert_eq!(node.errors_vec_index(size), expected);
}

#[test]
fn midpoint_correct() {
    let size = 16;

    // Half-pixel units: (15, 15) is the pixel point (7.5, 7.5).
    let node = BinaryNode::new(2);
    let expected = (15, 15);
    assert_eq!(node.midpoint_pixel_coords(size), expected);
    let node = BinaryNode::new(3);
    assert_eq!(node.midpoint_pixel_coords(size), expected);

    let node = BinaryNode::new(4);
    let expected = (15, 30);
    assert_eq!(node.midpoint_pixel_coords(size), expected);
    let node = BinaryNode::new(5);
    let expected = (0, 15);
    assert_eq!(node.midpoint_pixel_coords(size), expected);
}

#[test]
fn msb_works() {
    let val = 0b1010u32;
    assert_eq!(4, msb(val));

    let val = 0b0110u32;
    assert_eq!(3, msb(val));

    let val = 0b10110u32;
    assert_eq!(5, msb(val));

    let val = 0b100110u32;
    assert_eq!(6, msb(val));

    let val = 2u32;
    assert_eq!(2, msb(val));
}

#[test]
fn triangle_coords_works() {
    // A 50-pixel plane: the last pixel sits at 49, which is 98 in
    // half-pixel units.
    let size = 50u32 - 1;
    let h = 2 * size;
    let node = BinaryNode::new(2);
    let expected = TriangleCoords { a: (h, h), b: (0, 0), c: (0, h) };
    assert_eq!(node.triangle_coords(size + 1), expected);

    let node = BinaryNode::new(3);
    let expected = TriangleCoords { a: (0, 0), b: (h, h), c: (h, 0) };
    assert_eq!(node.triangle_coords(size + 1), expected);
}

#[test]
fn level_correct() {
    let node = BinaryNode::new(2);
    assert_eq!(node.level(), 1);
    let node = BinaryNode::new(6);
    assert_eq!(node.level(), 2);
    let node = BinaryNode::new(30);
    assert_eq!(node.level(), 4);
}

#[test]
fn triangle_indices_correct() {
    assert_eq!(BinaryNode::level_start_index(0), 0);
    assert_eq!(BinaryNode::level_start_index(1), 2);
    assert_eq!(BinaryNode::level_start_index(2), 6);
    assert_eq!(BinaryNode::level_start_index(3), 14);

    assert_eq!(BinaryNode::from_triangle_index(0), BinaryNode::new(2));
    assert_eq!(BinaryNode::from_triangle_index(1), BinaryNode::new(3));
    assert_eq!(BinaryNode::from_triangle_index(2), BinaryNode::new(4));
    assert_eq!(BinaryNode::from_triangle_index(5), BinaryNode::new(7));
    assert_eq!(BinaryNode::from_triangle_index(9), BinaryNode::new(11));

    assert_eq!(BinaryNode::new(2).index_in_level(), 0);
    assert_eq!(BinaryNode::new(3).index_in_level(), 1);
    assert_eq!(BinaryNode::new(4).index_in_level(), 0);
    assert_eq!(BinaryNode::new(5).index_in_level(), 1);
    assert_eq!(BinaryNode::new(6).index_in_level(), 2);
    assert_eq!(BinaryNode::new(7).index_in_level(), 3);

    assert_eq!(BinaryNode::new(2).triangle_index(), 0);
    assert_eq!(BinaryNode::new(3).triangle_index(), 1);
    assert_eq!(BinaryNode::new(7).triangle_index(), 5);
    assert_eq!(BinaryNode::new(13).triangle_index(), 11);
}

#[test]
fn steps_work() {
    let node = BinaryNode::new(6);
    let expected = vec![false, true];
    assert_eq!(node.steps_to_node(), expected);
}

#[test]
fn children_correct() {
    let node = BinaryNode::new(2);
    let (left, right) = node.children_ids();
    assert_eq!(left, BinaryNode::new(4));
    assert_eq!(right, BinaryNode::new(5));

    let node = BinaryNode::new(8);
    let (left, right) = node.children_ids();
    assert_eq!(left, BinaryNode::new(16));
    assert_eq!(right, BinaryNode::new(17));
}

/// The triangle-index round trip: every index maps to a node and back.
#[test]
fn triangle_index_round_trip() {
    for idx in 0..512u32 {
        let node = BinaryNode::from_triangle_index(idx);
        assert_eq!(node.triangle_index(), idx);
    }
}

//! RTIN terrain simplifier: builds, bottom-up, a per-triangle interpolation
//! error grid against a sampled height field, then selects, top-down, a
//! minimal triangle set within an error threshold, and emits a deduplicated
//! vertex/index mesh.
//!
//! Heights are fixed-point `i64` values in the sampler's own scale. Error
//! values carry twice that scale, so that hypotenuse midpoints interpolate
//! without rounding; a threshold is compared in the same doubled scale.

use vstd::prelude::*;

verus! {

use std::collections::HashMap;

broadcast use vstd::std_specs::hash::group_hash_axioms;

use crate::binary_node::{
    BinaryNode, spec_msb, spec_triangle, spec_midpoint, spec_errors_vec_index, lemma_msb_bounds,
    lemma_msb_u32_range, spec_from_triangle_index,
};
use vstd::arithmetic::power2::{pow2, lemma2_to64};

/// Largest height magnitude the builder accepts; keeps every error sum well
/// inside `i64`.
pub const HEIGHT_LIMIT: i64 = 0x4000_0000_0000;

/// A height source over the grid plane, sampled at half-pixel positions: the
/// pair `(hx, hy)` names the point `(hx/2, hy/2)` in pixel units.
pub trait PlaneSampler: Sized {
    /// What a usable sampler must satisfy; `get` may assume it.
    spec fn wf(&self) -> bool;

    /// The height at a half-pixel position.
    spec fn spec_get(&self, x: u32, y: u32) -> i64;

    fn get(&self, x: u32, y: u32) -> (r: i64)
        requires
            self.wf(),
        ensures
            r == self.spec_get(x, y),
    ;
}

/// A height field backed by a grid of stored samples at half-pixel
/// resolution: row `y` of a `grid_size`-pixel plane holds `2*grid_size - 1`
/// samples. Positions outside the stored plane read as zero.
pub struct GridSampler {
    heights: Vec<i64>,
    grid_size: u32,
}

impl GridSampler {
    /// Samples per axis: one per half pixel.
    pub open spec fn spec_side(self) -> int {
        2 * self.spec_grid_size() - 1
    }

    pub closed spec fn spec_grid_size(self) -> int {
        self.grid_size as int
    }

    pub closed spec fn spec_heights(self) -> Seq<i64> {
        self.heights@
    }

    /// Wraps a row-major vector of `(2*grid_size - 1)^2` bounded samples.
    pub fn new(heights: Vec<i64>, grid_size: u32) -> (r: GridSampler)
        requires
            1 <= grid_size <= 0x8000,
            heights@.len() == (2 * grid_size - 1) * (2 * grid_size - 1),
            forall|i: int|
                0 <= i < heights@.len() ==> -HEIGHT_LIMIT <= #[trigger] heights@[i]
                    <= HEIGHT_LIMIT,
        ensures
            r.wf(),
            r.spec_grid_size() == grid_size,
            r.spec_heights() == heights@,
    {
        GridSampler { heights, grid_size }
    }
}

impl PlaneSampler for GridSampler {
    open spec fn wf(&self) -> bool {
        &&& 1 <= self.spec_grid_size() <= 0x8000
        &&& self.spec_heights().len() == self.spec_side() * self.spec_side()
        &&& forall|i: int|
            0 <= i < self.spec_heights().len() ==> -HEIGHT_LIMIT
                <= #[trigger] self.spec_heights()[i] <= HEIGHT_LIMIT
    }

    open spec fn spec_get(&self, x: u32, y: u32) -> i64 {
        if x < self.spec_side() && y < self.spec_side() {
            self.spec_heights()[y * self.spec_side() + x]
        } else {
            0
        }
    }

    fn get(&self, x: u32, y: u32) -> (r: i64) {
        let side = 2 * self.grid_size - 1;
        if x < side && y < side {
            proof {
                let s = self.spec_side();
                assert((y as int) * s + (x as int) < s * s) by (nonlinear_arith)
                    requires
                        0 <= x < s,
                        0 <= y < s,
                ;
                assert(s * s <= 0x10000 * 0x10000) by (nonlinear_arith)
                    requires
                        0 < s < 0x10000,
                ;
            }
            let i: usize = (y as usize) * (side as usize) + (x as usize);
            self.heights[i]
        } else {
            0
        }
    }
}

/// Bounded samples everywhere, as the error-grid arithmetic needs.
pub open spec fn spec_bounded_sampler<S: PlaneSampler>(s: S) -> bool {
    forall|x: u32, y: u32| -HEIGHT_LIMIT <= #[trigger] s.spec_get(x, y) <= HEIGHT_LIMIT
}

/// A `GridSampler` in shape is bounded everywhere.
pub proof fn lemma_grid_sampler_bounded(s: GridSampler)
    requires
        s.wf(),
    ensures
        spec_bounded_sampler(s),
{
    assert forall|x: u32, y: u32| -HEIGHT_LIMIT <= #[trigger] s.spec_get(x, y)
        <= HEIGHT_LIMIT by {
        if x < s.spec_side() && y < s.spec_side() {
            let side = s.spec_side();
            assert(0 <= (y as int) * side + (x as int) < side * side) by (nonlinear_arith)
                requires
                    0 <= x < side,
                    0 <= y < side,
            ;
        }
    }
}

/// Floor of the base-2 logarithm.
pub open spec fn spec_log_2(x: nat) -> nat {
    (spec_msb(x) - 1) as nat
}

fn log_2(x: u32) -> (r: u32)
    requires
        x >= 1,
    ensures
        r == spec_log_2(x as nat),
        r <= 31,
{
    proof {
        lemma_msb_bounds(x as nat);
        lemma_msb_u32_range(x);
        crate::binary_node::lemma_msb_from_leading_zeros(x);
    }
    32 - x.leading_zeros() - 1
}

/// Whether a value is a power of two.
pub fn is_power_of_2(x: u32) -> (r: bool)
    ensures
        r == vstd::arithmetic::power2::is_pow2(x as int),
{
    proof {
        lemma_pow2_bit_trick(x);
    }
    x != 0 && (x & (x - 1)) == 0
}

/// The hardware bit trick `x & (x - 1) == 0` recognizes exactly the powers
/// of two among the nonzero values.
proof fn lemma_pow2_bit_trick(x: u32)
    ensures
        vstd::arithmetic::power2::is_pow2(x as int) <==> (x != 0 && x & vstd::prelude::sub(x, 1)
            == 0),
    decreases x,
{
    reveal(vstd::arithmetic::power2::is_pow2);
    if x == 0 {
    } else if x == 1 {
        assert(1u32 & vstd::prelude::sub(1u32, 1) == 0) by (bit_vector);
    } else {
        lemma_pow2_bit_trick(x / 2);
        assert(x >= 2 ==> ((x & vstd::prelude::sub(x, 1) == 0) <==> (x % 2 == 0 && (x >> 1u32)
            & vstd::prelude::sub(x >> 1u32, 1) == 0))) by (bit_vector);
        assert(x / 2 == x >> 1u32) by (bit_vector);
    }
}

/// The clamp the sampler sees: a coordinate at or past the plane's edge is
/// pulled back to the last pixel. Both values in half-pixel units.
pub open spec fn spec_clamp(v: u32, size: u32) -> u32 {
    if v >= 2 * size {
        (2 * (size - 1)) as u32
    } else {
        v
    }
}

/// The height at a corner, clamped into the plane.
pub open spec fn spec_sample_corner_mean<S: PlaneSampler>(s: S, size: u32, c: (u32, u32)) -> i64 {
    s.spec_get(spec_clamp(c.0, size), spec_clamp(c.1, size))
}

/// Samples the height at a corner given in half-pixel units, clamping
/// coordinates at or past `size` pixels back to the last pixel.
pub fn sample_corner_mean<S: PlaneSampler>(sampler: &S, size: u32, corner: (u32, u32)) -> (r: i64)
    requires
        sampler.wf(),
        1 <= size <= 0x2000_0000,
    ensures
        r == spec_sample_corner_mean(*sampler, size, corner),
{
    let cx = if corner.0 >= 2 * size {
        2 * (size - 1)
    } else {
        corner.0
    };
    let cy = if corner.1 >= 2 * size {
        2 * (size - 1)
    } else {
        corner.1
    };
    sampler.get(cx, cy)
}

/// A node's own interpolation error, in doubled height units: how far the
/// mean of the two hypotenuse corners' heights sits from the sampled height
/// at the hypotenuse midpoint.
pub open spec fn spec_own_error<S: PlaneSampler>(s: S, grid_size: u32, v: nat) -> int {
    let t = spec_triangle(v, 2 * (grid_size - 1));
    let m = spec_midpoint(v, 2 * (grid_size - 1));
    let h0 = spec_sample_corner_mean(s, grid_size, ((t.0.0) as u32, (t.0.1) as u32));
    let h1 = spec_sample_corner_mean(s, grid_size, ((t.1.0) as u32, (t.1.1) as u32));
    let mh = spec_sample_corner_mean(s, grid_size, ((m.0) as u32, (m.1) as u32));
    if h0 + h1 - 2 * mh >= 0 {
        h0 + h1 - 2 * mh
    } else {
        -(h0 + h1 - 2 * mh)
    }
}

pub open spec fn spec_max_i64(a: int, b: int) -> int {
    if a >= b {
        a
    } else {
        b
    }
}

/// First triangle index of the finest level the error grid distinguishes.
pub open spec fn spec_last_level_start(grid_size: u32) -> int {
    pow2(2 * spec_log_2(grid_size as nat)) - 2
}

/// One bottom-up step of the error-grid build, processing triangle index
/// `idx`: a finest-level node writes its own error; a coarser node writes
/// the maximum of the slot's previous value, both children's slots, and its
/// own error.
pub open spec fn spec_error_step<S: PlaneSampler>(
    s: S,
    grid_size: u32,
    prev: Seq<i64>,
    idx: int,
) -> Seq<i64> {
    let v = spec_from_triangle_index(idx as nat);
    let own = spec_own_error(s, grid_size, v);
    let slot = spec_errors_vec_index(v, grid_size as int);
    if idx >= spec_last_level_start(grid_size) {
        prev.update(slot, own as i64)
    } else {
        let lslot = spec_errors_vec_index(2 * v, grid_size as int);
        let rslot = spec_errors_vec_index(2 * v + 1, grid_size as int);
        let best = spec_max_i64(
            spec_max_i64(spec_max_i64(prev[slot] as int, prev[lslot] as int), prev[rslot] as int),
            own,
        );
        prev.update(slot, best as i64)
    }
}

/// The error grid after processing every triangle index at or above `idx`,
/// highest first, starting from an all-zero grid.
pub open spec fn spec_errors_from<S: PlaneSampler>(s: S, grid_size: u32, idx: int) -> Seq<i64>
    decreases 2 * (grid_size as int) * (grid_size as int) - 2 - idx,
{
    let nt = 2 * (grid_size as int) * (grid_size as int) - 2;
    if idx < 0 || idx >= nt {
        Seq::new((grid_size * grid_size) as nat, |i: int| 0i64)
    } else {
        spec_error_step(s, grid_size, spec_errors_from(s, grid_size, idx + 1), idx)
    }
}

/// The finished error grid.
pub open spec fn spec_errors_vec<S: PlaneSampler>(s: S, grid_size: u32) -> Seq<i64> {
    spec_errors_from(s, grid_size, 0)
}

/// Builds the error grid bottom-up: one slot per grid pixel, holding, for
/// the midpoint of each node's hypotenuse, the largest interpolation error
/// of that node or any node below it.
pub fn get_errors_vec<S: PlaneSampler>(sampler: &S, grid_size: u32) -> (r: Vec<i64>)
    requires
        sampler.wf(),
        2 <= grid_size <= 0x4000,
        spec_bounded_sampler(*sampler),
    ensures
        r@.len() == grid_size * grid_size,
        r@ == spec_errors_vec(*sampler, grid_size),
{
    proof {
        assert(4 <= (grid_size as int) * (grid_size as int) <= 0x1000_0000) by (nonlinear_arith)
            requires
                2 <= grid_size <= 0x4000,
        ;
    }
    let number_of_triangles: u32 = grid_size * grid_size * 2 - 2;
    proof {
        lemma_msb_bounds(grid_size as nat);
        lemma_msb_u32_range(grid_size);
        lemma2_to64();
        if spec_msb(grid_size as nat) < 2 {
            assert(grid_size < pow2(1));
            assert(false);
        }
    }
    let number_of_levels: u32 = log_2(grid_size) * 2;
    let last_level: u32 = number_of_levels - 1;
    let last_level_index_start: u32 = BinaryNode::level_start_index(last_level);

    let ghost nt = number_of_triangles as int;
    let mut errors_vec: Vec<i64> = Vec::new();
    let target: usize = (grid_size as usize) * (grid_size as usize);
    while errors_vec.len() < target
        invariant
            target == (grid_size as int) * (grid_size as int),
            errors_vec@.len() <= target,
            forall|i: int| 0 <= i < errors_vec@.len() ==> errors_vec@[i] == 0i64,
        decreases target - errors_vec@.len(),
    {
        errors_vec.push(0);
    }
    proof {
        assert(errors_vec@ =~= Seq::new((grid_size * grid_size) as nat, |i: int| 0i64));
        assert(2 * (grid_size as int) * (grid_size as int) - 2 == nt) by (nonlinear_arith)
            requires
                nt == (grid_size as int) * (grid_size as int) * 2 - 2,
        ;
    }

    let mut idx: u32 = number_of_triangles;
    while idx > 0
        invariant
            sampler.wf(),
            2 <= grid_size <= 0x4000,
            spec_bounded_sampler(*sampler),
            nt == 2 * (grid_size as int) * (grid_size as int) - 2,
            nt <= 0x2000_0000,
            number_of_triangles == nt,
            idx <= number_of_triangles,
            last_level_index_start as int == spec_last_level_start(grid_size),
            errors_vec@.len() == grid_size * grid_size,
            errors_vec@ == spec_errors_from(*sampler, grid_size, idx as int),
        decreases idx,
    {
        idx = idx - 1;
        let node = BinaryNode::from_triangle_index(idx);
        let midpoint = node.midpoint_pixel_coords(grid_size);
        let triangle_coords = node.triangle_coords(grid_size);
        let h0 = sample_corner_mean(sampler, grid_size, triangle_coords.a);
        let h1 = sample_corner_mean(sampler, grid_size, triangle_coords.b);
        let midpoint_height = sample_corner_mean(sampler, grid_size, midpoint);
        let diff: i64 = h0 + h1 - 2 * midpoint_height;
        let this_triangle_error: i64 = if diff >= 0 {
            diff
        } else {
            -diff
        };
        let this_slot = node.errors_vec_index(grid_size);
        proof {
            crate::binary_node::lemma_triangle_in_range(node@ as nat, 2 * (grid_size - 1) as int);
        }

        if idx >= last_level_index_start {
            errors_vec[this_slot] = this_triangle_error;
        } else {
            let (left_child, right_child) = node.children_ids();
            let right_errors_vec_index = right_child.errors_vec_index(grid_size);
            let left_errors_vec_index = left_child.errors_vec_index(grid_size);

            let prev_error = errors_vec[this_slot];
            let right_error = errors_vec[right_errors_vec_index];
            let left_error = errors_vec[left_errors_vec_index];

            let m1: i64 = if prev_error >= left_error {
                prev_error
            } else {
                left_error
            };
            let m2: i64 = if m1 >= right_error {
                m1
            } else {
                right_error
            };
            let m3: i64 = if m2 >= this_triangle_error {
                m2
            } else {
                this_triangle_error
            };
            errors_vec[this_slot] = m3;
        }
        proof {
            assert(errors_vec@ =~= spec_error_step(
                *sampler,
                grid_size,
                spec_errors_from(*sampler, grid_size, idx as int + 1),
                idx as int,
            ));
        }
    }
    errors_vec
}


/// Number of triangle indices the selection pass walks over: two extra
/// levels below the error grid's coarsest count.
pub open spec fn spec_nt_select(size: u32) -> int {
    4 * (size as int) * (size as int) - 2
}

/// The nodes the top-down selection emits under one root triangle index:
/// a node whose error slot is within the threshold, or which has no
/// children left in range, is selected; otherwise both children are walked.
pub open spec fn spec_select(size: u32, errors: Seq<i64>, thr: i64, tri_idx: int) -> Seq<u32>
    decreases spec_nt_select(size) - tri_idx,
{
    if tri_idx < 0 || tri_idx >= spec_nt_select(size) {
        Seq::empty()
    } else {
        let v = tri_idx + 2;
        let has_children = 2 * tri_idx + 3 < spec_nt_select(size);
        let e = errors[spec_errors_vec_index(v as nat, (size as int) + 1)];
        if e <= thr || !has_children {
            seq![v as u32]
        } else {
            spec_select(size, errors, thr, 2 * tri_idx + 2) + spec_select(
                size,
                errors,
                thr,
                2 * tri_idx + 3,
            )
        }
    }
}

/// What a whole selection returns: the nodes under both root triangles.
pub open spec fn spec_select_all(size: u32, errors: Seq<i64>, thr: i64) -> Seq<u32> {
    spec_select(size, errors, thr, 0) + spec_select(size, errors, thr, 1)
}

/// The selection under root index `t` emits at most `(nt + 2) / (t + 2)`
/// nodes, stated multiplicatively.
proof fn lemma_select_len(size: u32, errors: Seq<i64>, thr: i64, tri_idx: int)
    requires
        0 <= tri_idx < spec_nt_select(size),
    ensures
        spec_select(size, errors, thr, tri_idx).len() * (tri_idx + 2) <= spec_nt_select(size)
            + 2,
        spec_select(size, errors, thr, tri_idx).len() >= 1,
    decreases spec_nt_select(size) - tri_idx,
{
    let nt = spec_nt_select(size);
    let v = tri_idx + 2;
    let has_children = 2 * tri_idx + 3 < nt;
    let e = errors[spec_errors_vec_index(v as nat, (size as int) + 1)];
    if e <= thr || !has_children {
        assert(spec_select(size, errors, thr, tri_idx).len() == 1);
    } else {
        lemma_select_len(size, errors, thr, 2 * tri_idx + 2);
        lemma_select_len(size, errors, thr, 2 * tri_idx + 3);
        let a = spec_select(size, errors, thr, 2 * tri_idx + 2).len() as int;
        let b = spec_select(size, errors, thr, 2 * tri_idx + 3).len() as int;
        assert(spec_select(size, errors, thr, tri_idx).len() == a + b);
        assert(a * (2 * tri_idx + 4) <= nt + 2);
        assert(b * (2 * tri_idx + 5) <= nt + 2);
        assert((a + b) * (tri_idx + 2) <= nt + 2) by (nonlinear_arith)
            requires
                a >= 0,
                b >= 0,
                tri_idx >= 0,
                a * (2 * tri_idx + 4) <= nt + 2,
                b * (2 * tri_idx + 5) <= nt + 2,
        ;
    }
}

/// Selects, top-down under one root triangle index, the coarsest nodes
/// whose error slots stay within the threshold, appending them to `nodes`.
pub fn select_nodes_for_heightmap(
    size: u32,
    errors_vec: &Vec<i64>,
    nodes: &mut Vec<BinaryNode>,
    triangle_index: u32,
    error_threshold: i64,
)
    requires
        1 <= size <= 0x3FFF,
        errors_vec@.len() == ((size as int) + 1) * ((size as int) + 1),
        triangle_index < spec_nt_select(size),
        forall|i: int| 0 <= i < old(nodes)@.len() ==> (#[trigger] old(nodes)@[i]).is_valid(),
    ensures
        forall|i: int| 0 <= i < final(nodes)@.len() ==> (#[trigger] final(nodes)@[i]).is_valid(),
        final(nodes)@.len() == old(nodes)@.len() + spec_select(
            size,
            errors_vec@,
            error_threshold,
            triangle_index as int,
        ).len(),
        forall|i: int| 0 <= i < old(nodes)@.len() ==> final(nodes)@[i] == old(nodes)@[i],
        forall|i: int|
            old(nodes)@.len() <= i < final(nodes)@.len() ==> (#[trigger] final(nodes)@[i])@
                == spec_select(size, errors_vec@, error_threshold, triangle_index as int)[i - old(
                nodes,
            )@.len()],
    decreases spec_nt_select(size) - triangle_index,
{
    let ghost sel = spec_select(size, errors_vec@, error_threshold, triangle_index as int);
    proof {
        assert(4 <= 4 * (size as int) * (size as int) <= 0x4000_0000) by (nonlinear_arith)
            requires
                1 <= size <= 0x3FFF,
        ;
    }
    proof {
        assert(1 <= (size as int) * (size as int) <= 0x0FFF_8001) by (nonlinear_arith)
            requires
                1 <= size <= 0x3FFF,
        ;
    }
    let grid_size = size + 1;
    let node = BinaryNode::from_triangle_index(triangle_index);
    let (left_child, right_child) = node.children_ids();

    let number_of_last_level_triangles = size * size * 2;
    let number_of_triangles = size * size * 2 - 2 + number_of_last_level_triangles;
    proof {
        let ss = (size as int) * (size as int);
        assert(spec_nt_select(size) == 2 * ss - 2 + 2 * ss) by (nonlinear_arith)
            requires
                ss == (size as int) * (size as int),
        ;
    }

    let has_children = right_child.triangle_index() < number_of_triangles;
    let leaf_node = !has_children;

    let this_triangle_errors_vec_index = node.errors_vec_index(grid_size);
    let this_triangle_error = errors_vec[this_triangle_errors_vec_index];

    let error_within_threshold = this_triangle_error <= error_threshold;

    if error_within_threshold || leaf_node {
        nodes.push(node);
    } else {
        let ghost before = nodes@;
        let ghost sel_l = spec_select(
            size,
            errors_vec@,
            error_threshold,
            2 * (triangle_index as int) + 2,
        );
        let ghost sel_r = spec_select(
            size,
            errors_vec@,
            error_threshold,
            2 * (triangle_index as int) + 3,
        );
        select_nodes_for_heightmap(
            size,
            errors_vec,
            nodes,
            left_child.triangle_index(),
            error_threshold,
        );
        select_nodes_for_heightmap(
            size,
            errors_vec,
            nodes,
            right_child.triangle_index(),
            error_threshold,
        );
        proof {
            assert(sel == sel_l + sel_r);
            assert forall|i: int|
                before.len() <= i < nodes@.len() implies (#[trigger] nodes@[i])@ == sel[i
                - before.len()] by {
                if i - before.len() < sel_l.len() {
                    assert((sel_l + sel_r)[i - before.len()] == sel_l[i - before.len()]);
                } else {
                    assert((sel_l + sel_r)[i - before.len()] == sel_r[i - before.len()
                        - sel_l.len()]);
                }
            }
        }
    }
}

/// Selects the coarsest triangles within the error threshold, walking down
/// from the two root triangles.
pub fn select_nodes(size: u32, errors_vec: &Vec<i64>, error_threshold: i64) -> (r: Vec<
    BinaryNode,
>)
    requires
        1 <= size <= 0x3FFF,
        errors_vec@.len() == ((size as int) + 1) * ((size as int) + 1),
    ensures
        r@.len() == spec_select_all(size, errors_vec@, error_threshold).len(),
        forall|i: int|
            0 <= i < r@.len() ==> (#[trigger] r@[i])@ == spec_select_all(
                size,
                errors_vec@,
                error_threshold,
            )[i],
        forall|i: int| 0 <= i < r@.len() ==> (#[trigger] r@[i]).is_valid(),
        r@.len() <= 0x4000_0000,
{
    let mut nodes: Vec<BinaryNode> = Vec::new();
    proof {
        assert(4 <= 4 * (size as int) * (size as int) <= 0x4000_0000) by (nonlinear_arith)
            requires
                1 <= size <= 0x3FFF,
        ;
    }
    select_nodes_for_heightmap(size, errors_vec, &mut nodes, 0, error_threshold);
    select_nodes_for_heightmap(size, errors_vec, &mut nodes, 1, error_threshold);
    proof {
        let sel0 = spec_select(size, errors_vec@, error_threshold, 0);
        let sel1 = spec_select(size, errors_vec@, error_threshold, 1);
        lemma_select_len(size, errors_vec@, error_threshold, 0);
        lemma_select_len(size, errors_vec@, error_threshold, 1);
        let nt = spec_nt_select(size);
        assert(sel0.len() + sel1.len() <= nt + 2) by (nonlinear_arith)
            requires
                sel0.len() * 2 <= nt + 2,
                sel1.len() * 3 <= nt + 2,
        ;
        assert(nt + 2 <= 0x4000_0000) by (nonlinear_arith)
            requires
                1 <= size <= 0x3FFF,
                nt == 4 * (size as int) * (size as int) - 2,
        ;
        assert forall|i: int|
            0 <= i < nodes@.len() implies (#[trigger] nodes@[i])@ == (sel0 + sel1)[i] by {
            if i < sel0.len() {
                assert((sel0 + sel1)[i] == sel0[i]);
            } else {
                assert((sel0 + sel1)[i] == sel1[i - sel0.len()]);
            }
        }
    }
    nodes
}


/// One emitted mesh vertex: plane position in half-pixel units and the
/// scaled height.
#[derive(Debug, Clone, Copy, PartialEq, Eq, Structural)]
pub struct TerrainVertex {
    pub x: u32,
    pub y: i64,
    pub z: u32,
}

/// The simplified mesh: a vertex list deduplicated by flattened grid
/// position, and one index triple per selected triangle.
#[derive(Debug)]
pub struct TerrainMeshData {
    pub vertices: Vec<TerrainVertex>,
    pub indices: Vec<u32>,
}

/// The deduplication key of a plane position: its flattened pixel slot.
pub open spec fn spec_vkey(x: u32, z: u32, size: u32) -> u32 {
    ((((z as int) * (size as int) + (x as int)) / 2) as u32)
}

/// The vertex list and the position table mirror each other, and every
/// vertex carries the height sampled at its own position, scaled.
spec fn mesh_synced<S: PlaneSampler>(
    verts: Seq<TerrainVertex>,
    positions: Map<u32, usize>,
    s: S,
    size: u32,
    mult: i64,
) -> bool {
    &&& forall|i: int|
        0 <= i < verts.len() ==> {
            &&& positions.contains_key(spec_vkey((#[trigger] verts[i]).x, verts[i].z, size))
            &&& positions[spec_vkey(verts[i].x, verts[i].z, size)] == i
            &&& verts[i].x <= 2 * size
            &&& verts[i].z <= 2 * size
            &&& verts[i].y == spec_sample_corner_mean(s, size, (verts[i].x, verts[i].z)) * mult
        }
    &&& forall|k: u32|
        #[trigger] positions.contains_key(k) ==> 0 <= positions[k] < verts.len() && spec_vkey(
            verts[positions[k] as int].x,
            verts[positions[k] as int].z,
            size,
        ) == k
}

/// Appends the mesh index of one triangle corner, reusing the vertex
/// already emitted for that grid position or emitting a fresh one.
fn emit_corner<S: PlaneSampler>(
    sampler: &S,
    size: u32,
    height_multiplier: i64,
    corner: (u32, u32),
    vertices: &mut Vec<TerrainVertex>,
    indices: &mut Vec<u32>,
    positions: &mut HashMap<u32, usize>,
)
    requires
        sampler.wf(),
        spec_bounded_sampler(*sampler),
        1 <= size <= 0x3FFF,
        -0x10000 <= height_multiplier <= 0x10000,
        corner.0 <= 2 * size,
        corner.1 <= 2 * size,
        mesh_synced(old(vertices)@, old(positions)@, *sampler, size, height_multiplier),
        old(vertices)@.len() <= old(indices)@.len(),
        old(indices)@.len() < 0xFFFF_FFFE,
        forall|k: int|
            0 <= k < old(indices)@.len() ==> (#[trigger] old(indices)@[k]) < old(vertices)@.len(),
    ensures
        mesh_synced(final(vertices)@, final(positions)@, *sampler, size, height_multiplier),
        final(vertices)@.len() <= final(indices)@.len(),
        final(indices)@.len() == old(indices)@.len() + 1,
        old(vertices)@.len() <= final(vertices)@.len(),
        forall|i: int|
            0 <= i < old(vertices)@.len() ==> #[trigger] final(vertices)@[i] == old(vertices)@[i],
        forall|k: int|
            0 <= k < old(indices)@.len() ==> #[trigger] final(indices)@[k] == old(indices)@[k],
        forall|k: int|
            0 <= k < final(indices)@.len() ==> (#[trigger] final(indices)@[k]) < final(
            vertices)@.len(),
        ({
            let vi = final(indices)@[old(indices)@.len() as int] as int;
            spec_vkey(final(vertices)@[vi].x, final(vertices)@[vi].z, size) == spec_vkey(
                corner.0,
                corner.1,
                size,
            )
        }),
{
    proof {
        assert(0 <= (corner.1 as int) * (size as int) + (corner.0 as int) < 0x4000_0000) by (
        nonlinear_arith)
            requires
                1 <= size <= 0x3FFF,
                corner.0 <= 2 * size,
                corner.1 <= 2 * size,
        ;
    }
    let vertex_id: u32 = (corner.1 * size + corner.0) / 2;
    let vertex_index: usize = match positions.get(&vertex_id) {
        Some(i) => *i,
        None => {
            let new_vertex_index = vertices.len();
            positions.insert(vertex_id, new_vertex_index);
            let sampled = sample_corner_mean(sampler, size, corner);
            proof {
                assert(-HEIGHT_LIMIT <= sampler.spec_get(
                    spec_clamp(corner.0, size),
                    spec_clamp(corner.1, size),
                ) <= HEIGHT_LIMIT);
                assert(-0x4000_0000_0000_0000 <= (sampled as int) * (height_multiplier as int)
                    <= 0x4000_0000_0000_0000) by (nonlinear_arith)
                    requires
                        -HEIGHT_LIMIT <= sampled <= HEIGHT_LIMIT,
                        -0x10000 <= height_multiplier <= 0x10000,
                        HEIGHT_LIMIT == 0x4000_0000_0000,
                ;
            }
            let vertex_height = sampled * height_multiplier;
            let new_vertex_3d = TerrainVertex { x: corner.0, y: vertex_height, z: corner.1 };
            vertices.push(new_vertex_3d);
            proof {
                assert forall|i: int| 0 <= i < vertices@.len() implies {
                    &&& positions@.contains_key(spec_vkey(
                        (#[trigger] vertices@[i]).x,
                        vertices@[i].z,
                        size,
                    ))
                    &&& positions@[spec_vkey(vertices@[i].x, vertices@[i].z, size)] == i
                    &&& vertices@[i].x <= 2 * size
                    &&& vertices@[i].z <= 2 * size
                    &&& vertices@[i].y == spec_sample_corner_mean(
                        *sampler,
                        size,
                        (vertices@[i].x, vertices@[i].z),
                    ) * height_multiplier
                } by {
                    if i < old(vertices)@.len() {
                        assert(old(vertices)@[i] == vertices@[i]);
                        if spec_vkey(vertices@[i].x, vertices@[i].z, size) == vertex_id {
                            assert(old(positions)@.contains_key(vertex_id));
                            assert(false);
                        }
                    }
                }
            }
            new_vertex_index
        },
    };
    proof {
        assert(vertex_index < vertices@.len());
    }
    indices.push(vertex_index as u32);
    proof {
        assert forall|k: int|
            0 <= k < indices@.len() implies (#[trigger] indices@[k]) < vertices@.len() by {
            if k < old(indices)@.len() {
                assert(indices@[k] == old(indices)@[k]);
            }
        }
    }
}

/// The flattened dedup key of one corner of a node's triangle.
pub open spec fn spec_corner_key(v: nat, c: int, size: u32) -> u32 {
    let t = spec_triangle(v, 2 * ((size as int) - 1));
    if c == 0 {
        spec_vkey(t.0.0 as u32, t.0.1 as u32, size)
    } else if c == 1 {
        spec_vkey(t.1.0 as u32, t.1.1 as u32, size)
    } else {
        spec_vkey(t.2.0 as u32, t.2.1 as u32, size)
    }
}

/// Builds the simplified terrain mesh: computes the error grid for
/// `size + 1` pixels, selects the coarsest triangles within the threshold,
/// and emits one vertex per distinct corner position (height scaled by the
/// multiplier) plus one index triple per selected triangle.
pub fn build_terrain_from_sampler<S: PlaneSampler>(
    sampler: &S,
    height_multiplier: i64,
    size: u32,
    error_threshold: i64,
) -> (r: TerrainMeshData)
    requires
        sampler.wf(),
        spec_bounded_sampler(*sampler),
        vstd::arithmetic::power2::is_pow2(size as int),
        1 <= size <= 0x3FFF,
        -0x10000 <= height_multiplier <= 0x10000,
    ensures
        ({
            let sel = spec_select_all(
                size,
                spec_errors_vec(*sampler, (size + 1) as u32),
                error_threshold,
            );
            &&& r.indices@.len() == 3 * sel.len()
            &&& forall|k: int|
                0 <= k < r.indices@.len() ==> (#[trigger] r.indices@[k]) < r.vertices@.len()
            &&& forall|i: int, j: int|
                0 <= i < r.vertices@.len() && 0 <= j < r.vertices@.len() && i != j ==> spec_vkey(
                    (#[trigger] r.vertices@[i]).x,
                    r.vertices@[i].z,
                    size,
                ) != spec_vkey((#[trigger] r.vertices@[j]).x, r.vertices@[j].z, size)
            &&& forall|i: int|
                0 <= i < r.vertices@.len() ==> (#[trigger] r.vertices@[i]).y
                    == spec_sample_corner_mean(
                    *sampler,
                    size,
                    (r.vertices@[i].x, r.vertices@[i].z),
                ) * height_multiplier
            &&& forall|t: int, c: int|
                0 <= t < sel.len() && 0 <= c < 3 ==> spec_vkey(
                    (#[trigger] r.vertices@[r.indices@[3 * t + c] as int]).x,
                    r.vertices@[r.indices@[3 * t + c] as int].z,
                    size,
                ) == spec_corner_key(sel[t] as nat, c, size)
        }),
{
    let grid_size = size + 1;
    let errors = get_errors_vec(sampler, grid_size);
    let ghost sel = spec_select_all(
        size,
        spec_errors_vec(*sampler, (size + 1) as u32),
        error_threshold,
    );

    let mut vertices: Vec<TerrainVertex> = Vec::new();
    let mut indices: Vec<u32> = Vec::new();
    let mut vertices_array_position: HashMap<u32, usize> = HashMap::new();

    proof {
        assert(((size as int) + 1) * ((size as int) + 1) == (grid_size as int) * (
        grid_size as int)) by (nonlinear_arith)
            requires
                grid_size == (size as int) + 1,
        ;
    }
    let nodes = select_nodes(size, &errors, error_threshold);

    let mut n: usize = 0;
    while n < nodes.len()
        invariant
            sampler.wf(),
            spec_bounded_sampler(*sampler),
            1 <= size <= 0x3FFF,
            -0x10000 <= height_multiplier <= 0x10000,
            n <= nodes@.len(),
            nodes@.len() <= 0x4000_0000,
            forall|i: int| 0 <= i < nodes@.len() ==> (#[trigger] nodes@[i])@ == sel[i],
            forall|i: int| 0 <= i < nodes@.len() ==> (#[trigger] nodes@[i]).is_valid(),
            nodes@.len() == sel.len(),
            indices@.len() == 3 * n,
            vertices@.len() <= indices@.len(),
            mesh_synced(
                vertices@,
                vertices_array_position@,
                *sampler,
                size,
                height_multiplier,
            ),
            forall|k: int|
                0 <= k < indices@.len() ==> (#[trigger] indices@[k]) < vertices@.len(),
            forall|t: int, c: int|
                0 <= t < n && 0 <= c < 3 ==> spec_vkey(
                    (#[trigger] vertices@[indices@[3 * t + c] as int]).x,
                    vertices@[indices@[3 * t + c] as int].z,
                    size,
                ) == spec_corner_key(sel[t] as nat, c, size),
        decreases nodes@.len() - n,
    {
        let node = nodes[n];
        let triangle_coords = node.triangle_coords(size);
        proof {
            crate::binary_node::lemma_triangle_in_range(node@ as nat, 2 * ((size as int) - 1));
            assert(indices@.len() < 0xFFFF_FFFE - 3) by (nonlinear_arith)
                requires
                    indices@.len() == 3 * n,
                    n < nodes@.len(),
                    nodes@.len() <= 0x4000_0000,
            ;
        }
        let ghost pre_vertices = vertices@;
        let ghost pre_indices = indices@;
        emit_corner(
            sampler,
            size,
            height_multiplier,
            triangle_coords.a,
            &mut vertices,
            &mut indices,
            &mut vertices_array_position,
        );
        emit_corner(
            sampler,
            size,
            height_multiplier,
            triangle_coords.b,
            &mut vertices,
            &mut indices,
            &mut vertices_array_position,
        );
        emit_corner(
            sampler,
            size,
            height_multiplier,
            triangle_coords.c,
            &mut vertices,
            &mut indices,
            &mut vertices_array_position,
        );
        proof {
            assert forall|t: int, c: int|
                0 <= t < n + 1 && 0 <= c < 3 implies spec_vkey(
                (#[trigger] vertices@[indices@[3 * t + c] as int]).x,
                vertices@[indices@[3 * t + c] as int].z,
                size,
            ) == spec_corner_key(sel[t] as nat, c, size) by {
                if t < n {
                    assert(indices@[3 * t + c] == pre_indices[3 * t + c]);
                    assert(vertices@[pre_indices[3 * t + c] as int] == pre_vertices[pre_indices[3
                        * t + c] as int]);
                } else {
                    assert(3 * t + c == pre_indices.len() + c);
                }
            }
        }
        n = n + 1;
    }
    proof {
        assert(indices@.len() == 3 * sel.len());
        assert forall|i: int, j: int|
            0 <= i < vertices@.len() && 0 <= j < vertices@.len() && i != j implies spec_vkey(
            (#[trigger] vertices@[i]).x,
            vertices@[i].z,
            size,
        ) != spec_vkey((#[trigger] vertices@[j]).x, vertices@[j].z, size) by {
            if spec_vkey(vertices@[i].x, vertices@[i].z, size) == spec_vkey(
                vertices@[j].x,
                vertices@[j].z,
                size,
            ) {
                assert(vertices_array_position@[spec_vkey(vertices@[i].x, vertices@[i].z, size)]
                    == i);
                assert(vertices_array_position@[spec_vkey(vertices@[j].x, vertices@[j].z, size)]
                    == j);
            }
        }
    }
    TerrainMeshData { vertices, indices }
}

} // verus!

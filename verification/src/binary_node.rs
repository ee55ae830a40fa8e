//! Binary node indexer: a pure translation between the implicit binary-tree
//! id space over a recursive right-triangle subdivision of a square grid, the
//! linear triangle-index space, and the triangles' pixel coordinates.
//!
//! Node ids start at 2; ids 0 and 1 are invalid. A node at tree level `L`
//! (the two roots sit at level 1) has an id in `[2^L, 2^(L+1))`. Pixel
//! coordinates are carried in half-pixel units so that hypotenuse midpoints
//! stay exact integers: a point `(hx, hy)` denotes the pixel `(hx/2, hy/2)`.

use vstd::prelude::*;

verus! {

use vstd::arithmetic::power2::{
    pow2, lemma_pow2_unfold, lemma_pow2_strictly_increases, lemma_pow2_pos, lemma2_to64,
};
use vstd::arithmetic::div_mod::{
    lemma_small_div_converse, lemma_fundamental_div_mod, lemma_div_is_ordered, lemma_div_by_self,
    lemma_div_denominator,
};
use vstd::std_specs::bits::{u32_leading_zeros, axiom_u32_leading_zeros};
use vstd::bits::{lemma_u32_shr_is_div, lemma_u32_shl_is_mul, lemma_u32_pow2_no_overflow};

/// 1-based position of the most significant set bit of `v`; `0` when `v == 0`.
/// For example the value `0b1010` has its highest set bit in position 4.
pub open spec fn spec_msb(v: nat) -> nat
    decreases v,
{
    if v == 0 {
        0
    } else {
        1 + spec_msb(v / 2)
    }
}

/// The most significant bit position brackets its argument between two
/// neighboring powers of two.
pub proof fn lemma_msb_bounds(v: nat)
    requires
        v > 0,
    ensures
        spec_msb(v) >= 1,
        pow2((spec_msb(v) - 1) as nat) <= v < pow2(spec_msb(v)),
    decreases v,
{
    if v == 1 {
        lemma2_to64();
        assert(spec_msb(1) == 1 + spec_msb(0));
        assert(spec_msb(0) == 0);
    } else {
        assert(spec_msb(v) == 1 + spec_msb(v / 2));
        lemma_msb_bounds(v / 2);
        let k = spec_msb(v / 2);
        lemma_pow2_unfold(k + 1);
        lemma_pow2_unfold(k);
        lemma_fundamental_div_mod(v as int, 2);
        assert(v == 2 * (v / 2) + v % 2);
        assert(pow2(k) == 2 * pow2((k - 1) as nat));
        assert(v >= 2 * pow2((k - 1) as nat));
        assert(v / 2 <= pow2(k) - 1);
        assert(v <= 2 * (pow2(k) - 1) + 1);
    }
}

/// The most significant bit position of a 32-bit value is at most 32.
pub proof fn lemma_msb_u32_range(val: u32)
    ensures
        spec_msb(val as nat) <= 32,
{
    if val > 0 {
        lemma_msb_bounds(val as nat);
        lemma2_to64();
        let m = spec_msb(val as nat);
        if m > 33 {
            lemma_pow2_strictly_increases(32, (m - 1) as nat);
            assert(false);
        }
        if m == 33 {
            assert(pow2(32) <= val);
            assert(false);
        }
    }
}

/// Bracketing between neighboring powers of two determines the most
/// significant bit position uniquely.
pub proof fn lemma_msb_unique(v: nat, m: nat)
    requires
        m >= 1,
        pow2((m - 1) as nat) <= v < pow2(m),
    ensures
        spec_msb(v) == m,
{
    lemma_pow2_pos((m - 1) as nat);
    lemma_msb_bounds(v);
    let s = spec_msb(v);
    if s < m {
        if s < m - 1 {
            lemma_pow2_strictly_increases(s, (m - 1) as nat);
        }
        assert(pow2(s) <= pow2((m - 1) as nat));
        assert(false);
    }
    if s > m {
        if m < s - 1 {
            lemma_pow2_strictly_increases(m, (s - 1) as nat);
        }
        assert(pow2(m) <= pow2((s - 1) as nat));
        assert(false);
    }
}

/// Relates the hardware count of leading zeros to `spec_msb`.
pub proof fn lemma_msb_from_leading_zeros(val: u32)
    ensures
        u32_leading_zeros(val) <= 32,
        spec_msb(val as nat) == 32 - u32_leading_zeros(val),
{
    axiom_u32_leading_zeros(val);
    let lz = u32_leading_zeros(val);
    if val == 0 {
    } else {
        let m: u32 = (32 - lz) as u32;
        // Upper bound: val >> m == 0, hence val < pow2(m).
        assert(val >> vstd::prelude::sub(32, lz as u32) == 0);
        if m == 32 {
            lemma2_to64();
            assert(val < pow2(32));
        } else {
            lemma_u32_shr_is_div(val, m);
            lemma_pow2_pos(m as nat);
            lemma_small_div_converse(val as int, pow2(m as nat) as int);
        }
        // Lower bound: bit m-1 of val is set, hence val >= pow2(m - 1).
        assert((val >> vstd::prelude::sub(31, lz as u32)) & 1 != 0);
        let b = val >> vstd::prelude::sub(31, lz as u32);
        assert(b != 0) by (bit_vector)
            requires
                b & 1 != 0,
        ;
        lemma_u32_shr_is_div(val, (m - 1) as u32);
        lemma_pow2_pos((m - 1) as nat);
        if (val as nat) < pow2((m - 1) as nat) {
            assert(val as int / (pow2((m - 1) as nat) as int) == 0) by {
                vstd::arithmetic::div_mod::lemma_basic_div(val as int, pow2((m - 1) as nat) as int);
            }
            assert(false);
        }
        lemma_msb_unique(val as nat, m as nat);
    }
}

/// Position of the most significant set bit, 1-based: `msb(0b1000) == 4`;
/// `msb(0) == 0`.
pub fn msb(val: u32) -> (r: u32)
    ensures
        r == spec_msb(val as nat),
        r <= 32,
        val > 0 ==> r >= 1,
{
    proof {
        lemma_msb_from_leading_zeros(val);
    }
    32 - val.leading_zeros()
}

/// A node of the implicit triangle binary tree. The stored id is always at
/// least 2; the two roots are ids 2 and 3, and the children of node `n` are
/// `2n` and `2n + 1`.
#[derive(Debug, Clone, Copy, PartialEq, Eq, Structural)]
pub struct BinaryNode(u32);

impl View for BinaryNode {
    type V = u32;

    closed spec fn view(&self) -> u32 {
        self.0
    }
}

/// Tree level of id `v`: the roots 2 and 3 are at level 1.
pub open spec fn spec_level(v: nat) -> nat {
    (spec_msb(v) - 1) as nat
}

/// The node id named by a triangle index.
pub open spec fn spec_from_triangle_index(idx: nat) -> nat {
    idx + 2
}

/// The triangle index of a node id.
pub open spec fn spec_triangle_index(v: nat) -> nat {
    (v - 2) as nat
}

impl BinaryNode {
    /// The tree starts at id 2; smaller ids do not name a node.
    pub open spec fn is_valid(&self) -> bool {
        self@ >= 2
    }

    pub fn new(value: u32) -> (r: Self)
        requires
            value >= 2,
        ensures
            r@ == value,
            r.is_valid(),
    {
        BinaryNode(value)
    }

    pub fn as_u32(&self) -> (r: u32)
        ensures
            r == self@,
    {
        self.0
    }

    /// Tree level, with the two root triangles at level 1.
    pub fn level(&self) -> (r: u32)
        requires
            self.is_valid(),
        ensures
            r == spec_level(self@ as nat),
            1 <= r <= 31,
    {
        let m = msb(self.0);
        proof {
            lemma_msb_bounds(self@ as nat);
            lemma_msb_u32_range(self.0);
            lemma2_to64();
            if spec_msb(self@ as nat) < 2 {
                assert(self@ < pow2(1));
                assert(false);
            }
        }
        m - 1
    }

    /// Offset of this node among the nodes of its level, in id order.
    pub fn index_in_level(&self) -> (r: u32)
        requires
            self.is_valid(),
        ensures
            r == self@ - pow2(spec_level(self@ as nat)),
    {
        let m = msb(self.0);
        proof {
            lemma_msb_bounds(self@ as nat);
            assert(m >= 1);
            lemma_u32_pow2_no_overflow((m - 1) as nat);
            lemma_u32_shl_is_mul(1u32, (m - 1) as u32);
        }
        self.0 - (1u32 << (m - 1))
    }

    /// The two children of this node: ids `2n` and `2n + 1`.
    pub fn children_ids(&self) -> (r: (BinaryNode, BinaryNode))
        requires
            self.is_valid(),
            self@ <= 0x7FFF_FFFF,
        ensures
            r.0@ == 2 * self@,
            r.1@ == 2 * self@ + 1,
    {
        let left = self.0 * 2;
        let right = left + 1;
        (BinaryNode(left), BinaryNode(right))
    }

    /// First triangle index of the given level: `2^(level + 1) - 2`.
    pub fn level_start_index(level: u32) -> (r: u32)
        requires
            level <= 30,
        ensures
            r == pow2((level + 1) as nat) - 2,
    {
        proof {
            lemma_u32_pow2_no_overflow((level + 1) as nat);
            lemma_pow2_unfold((level + 1) as nat);
            lemma_u32_shl_is_mul(2u32, level);
            assert(level <= 30 ==> (vstd::prelude::sub(2u32 << level, 1) & !1u32)
                == vstd::prelude::sub(2u32 << level, 2)) by (bit_vector);
            lemma_pow2_pos(level as nat);
            assert(pow2((level + 1) as nat) == 2 * pow2(level as nat));
        }
        ((2u32 << level) - 1) & (!1u32)
    }

    /// Triangle index `idx` names the node with id `idx + 2`.
    pub fn from_triangle_index(idx: u32) -> (r: Self)
        requires
            idx < 0x7FFF_FFFE,
        ensures
            r@ == spec_from_triangle_index(idx as nat),
            r.is_valid(),
    {
        let mut level: u32 = 0;
        let mut index_level_start: u32 = 0;
        let mut i: u32 = 0;
        proof {
            lemma2_to64();
        }

        while i < 32
            invariant
                idx < 0x7FFF_FFFE,
                i <= 32,
                level <= 30,
                i > 0 ==> level == i - 1,
                i == 0 ==> level == 0,
                index_level_start == if i == 0 {
                    0int
                } else {
                    pow2((level + 1) as nat) - 2
                },
                index_level_start <= idx,
            decreases 32 - i,
        {
            proof {
                if i >= 31 {
                    // Level 30 starts at 2^31 - 2, beyond every admitted idx,
                    // so the loop has broken before i reaches 31.
                    assert(pow2(31) == 0x8000_0000) by {
                        lemma2_to64();
                    }
                    assert(false);
                }
            }
            let new_index_level_start = Self::level_start_index(i);
            if idx >= new_index_level_start {
                level = i;
                index_level_start = new_index_level_start;
            } else {
                break;
            }
            i = i + 1;
        }
        proof {
            lemma_u32_pow2_no_overflow((level + 1) as nat);
            lemma_u32_shl_is_mul(1u32, (level + 1) as u32);
            if level == 0 && index_level_start == 0 {
                lemma2_to64();
            }
        }
        BinaryNode((1u32 << (level + 1)) + (idx - index_level_start))
    }

    /// Linear triangle index of this node: its id minus 2.
    pub fn triangle_index(&self) -> (r: u32)
        requires
            self.is_valid(),
        ensures
            r == spec_triangle_index(self@ as nat),
    {
        let level = self.level() - 1;
        proof {
            lemma_msb_bounds(self@ as nat);
            lemma2_to64();
            if spec_msb(self@ as nat) == 1 {
                assert(self@ < pow2(1));
                assert(false);
            }
        }
        let index_level_start = Self::level_start_index(level);
        let index_in_level = self.index_in_level();
        proof {
            lemma_pow2_unfold((level + 1) as nat);
        }
        index_level_start + index_in_level
    }
}

/// Corner coordinates of a triangle, in half-pixel units: a point
/// `(hx, hy)` denotes the pixel `(hx/2, hy/2)`. The two hypotenuse
/// endpoints come first (`a`, `b`); the right-angle corner is `c`.
#[derive(Debug, Clone, Copy, PartialEq, Eq)]
pub struct TriangleCoords {
    pub a: (u32, u32),
    pub b: (u32, u32),
    pub c: (u32, u32),
}

/// The triangle of node `v` on a grid whose last pixel is `last` half-units
/// from the origin: the two root triangles 2 and 3 tile the square, and each
/// deeper node bisects its parent at the midpoint of the hypotenuse, the even
/// child taking the half that contains the parent's first hypotenuse corner.
pub open spec fn spec_triangle(v: nat, last: int) -> ((int, int), (int, int), (int, int))
    decreases v,
{
    if v < 4 {
        if v % 2 == 0 {
            ((last, last), (0, 0), (0, last))
        } else {
            ((0, 0), (last, last), (last, 0))
        }
    } else {
        let t = spec_triangle(v / 2, last);
        let m = (((t.0.0 + t.1.0) / 2) as int, ((t.0.1 + t.1.1) / 2) as int);
        if v % 2 == 0 {
            (t.2, t.0, m)
        } else {
            (t.1, t.2, m)
        }
    }
}

/// Midpoint of a node triangle's hypotenuse, in half-pixel units.
pub open spec fn spec_midpoint(v: nat, last: int) -> (int, int) {
    let t = spec_triangle(v, last);
    (((t.0.0 + t.1.0) / 2) as int, ((t.0.1 + t.1.1) / 2) as int)
}

/// Flattened error-grid slot of a node's hypotenuse midpoint:
/// `y * grid_size + x` in pixel units.
pub open spec fn spec_errors_vec_index(v: nat, grid_size: int) -> int {
    let m = spec_midpoint(v, 2 * (grid_size - 1));
    (m.1 * grid_size + m.0) / 2
}

/// Every corner of every node triangle stays inside the grid square.
pub proof fn lemma_triangle_in_range(v: nat, last: int)
    requires
        last >= 0,
    ensures
        ({
            let t = spec_triangle(v, last);
            0 <= t.0.0 <= last && 0 <= t.0.1 <= last && 0 <= t.1.0 <= last && 0 <= t.1.1 <= last
                && 0 <= t.2.0 <= last && 0 <= t.2.1 <= last
        }),
    decreases v,
{
    if v >= 4 {
        lemma_triangle_in_range(v / 2, last);
    }
}

fn mid_point_halves(a: (u32, u32), b: (u32, u32)) -> (r: (u32, u32))
    requires
        a.0 <= 0x4000_0000,
        a.1 <= 0x4000_0000,
        b.0 <= 0x4000_0000,
        b.1 <= 0x4000_0000,
    ensures
        r.0 == (a.0 + b.0) / 2,
        r.1 == (a.1 + b.1) / 2,
{
    ((a.0 + b.0) / 2, (a.1 + b.1) / 2)
}

impl BinaryNode {
    /// Branch directions from the root to this node, `true` for a left step.
    /// The first entry picks among the two root triangles.
    pub fn steps_to_node(&self) -> (r: Vec<bool>)
        requires
            self.is_valid(),
        ensures
            r@.len() == spec_level(self@ as nat),
            forall|j: int|
                0 <= j < r@.len() ==> r@[j] == ((self@ as nat / pow2(
                    (r@.len() - 1 - j) as nat,
                )) % 2 == 0),
    {
        let ghost v = self@ as nat;
        let level = self.level();
        proof {
            lemma_msb_bounds(v);
        }
        let mut steps: Vec<bool> = Vec::new();
        let mut k: u32 = 0;
        while k < level
            invariant
                k <= level,
                steps@.len() == k,
                forall|j: int| 0 <= j < k ==> steps@[j] == false,
            decreases level - k,
        {
            steps.push(false);
            k = k + 1;
        }

        let mut val: u32 = self.as_u32();
        let mut i: u32 = 0;
        proof {
            lemma2_to64();
            assert(val == v / pow2(0));
        }
        while val > 1
            invariant
                self.is_valid(),
                v == self@ as nat,
                level == spec_level(v),
                1 <= level <= 31,
                pow2(level as nat) <= v < pow2((level + 1) as nat),
                steps@.len() == level,
                i <= level,
                val == v / pow2(i as nat),
                val >= 1,
                forall|j: int|
                    level - i <= j < level ==> steps@[j] == ((v / pow2((level - 1 - j) as nat))
                        % 2 == 0),
                forall|j: int| 0 <= j < level - i ==> steps@[j] == false,
            decreases val,
        {
            proof {
                if i >= level {
                    // At depth `level` the quotient is exactly 1.
                    let p = pow2(level as nat) as int;
                    lemma_pow2_pos(level as nat);
                    lemma_pow2_unfold((level + 1) as nat);
                    lemma_div_is_ordered(p, v as int, p);
                    lemma_div_by_self(p);
                    lemma_div_is_ordered(v as int, 2 * p - 1, p);
                    vstd::arithmetic::div_mod::lemma_fundamental_div_mod_converse(
                        2 * p - 1, p, 1, p - 1);
                    assert(false);
                }
                lemma_pow2_pos(i as nat);
                lemma_pow2_unfold((i + 1) as nat);
                lemma_div_denominator(v as int, pow2(i as nat) as int, 2);
            }
            if val % 2 == 0 {
                steps.set(((level - 1) - i) as usize, true);
            }
            val = val / 2;
            i = i + 1;
        }
        proof {
            // The loop exits only once every level has been recorded.
            if i < level {
                lemma_pow2_pos(i as nat);
                vstd::arithmetic::power2::lemma_pow2_subtracts(i as nat, level as nat);
                lemma_div_is_ordered(pow2(level as nat) as int, v as int, pow2(i as nat) as int);
                vstd::arithmetic::div_mod::lemma_div_multiples_vanish(
                    pow2((level - i) as nat) as int,
                    pow2(i as nat) as int,
                );
                lemma_pow2_strictly_increases(0, (level - i) as nat);
                lemma2_to64();
                assert(false);
            }
        }
        steps
    }

    /// Corner coordinates of this node's triangle in half-pixel units,
    /// reconstructed by replaying the root-to-node branch sequence.
    pub fn triangle_coords(&self, grid_size: u32) -> (r: TriangleCoords)
        requires
            self.is_valid(),
            1 <= grid_size <= 0x2000_0000,
        ensures
            ({
                let t = spec_triangle(self@ as nat, 2 * (grid_size - 1));
                r.a.0 == t.0.0 && r.a.1 == t.0.1 && r.b.0 == t.1.0 && r.b.1 == t.1.1 && r.c.0
                    == t.2.0 && r.c.1 == t.2.1
            }),
    {
        let ghost v = self@ as nat;
        let ghost last = 2 * (grid_size - 1) as int;
        let left_steps = self.steps_to_node();
        let ghost level = spec_level(v);
        proof {
            lemma_msb_bounds(v);
            lemma_msb_u32_range(self.0);
            lemma2_to64();
            if spec_msb(v) < 2 {
                assert(v < pow2(1));
                assert(false);
            }
        }
        let last_pos: u32 = 2 * (grid_size - 1);

        let (mut a, mut b, mut c) = if left_steps[0] {
            (
                (last_pos, last_pos),
                (0u32, 0u32),
                (0u32, last_pos),
            )
        } else {
            (
                (0u32, 0u32),
                (last_pos, last_pos),
                (last_pos, 0u32),
            )
        };
        proof {
            lemma_seed_prefix(v, level);
            lemma_triangle_in_range(v / pow2((level - 1) as nat), last);
        }

        let mut k: usize = 1;
        while k < left_steps.len()
            invariant
                self.is_valid(),
                v == self@ as nat,
                level == spec_level(v),
                1 <= level <= 31,
                pow2(level as nat) <= v < pow2((level + 1) as nat),
                left_steps@.len() == level,
                forall|j: int|
                    0 <= j < level ==> left_steps@[j] == ((v / pow2((level - 1 - j) as nat)) % 2
                        == 0),
                1 <= k <= level,
                last == 2 * (grid_size - 1) as int,
                0 <= last <= 0x4000_0000 - 2,
                ({
                    let t = spec_triangle(v / pow2((level - k) as nat), last);
                    a.0 == t.0.0 && a.1 == t.0.1 && b.0 == t.1.0 && b.1 == t.1.1 && c.0 == t.2.0
                        && c.1 == t.2.1
                }),
            decreases level - k,
        {
            proof {
                lemma_step_prefix(v, level, k as int);
                lemma_triangle_in_range(v / pow2((level - k) as nat), last);
                lemma_triangle_in_range(v / pow2((level - k - 1) as nat), last);
            }
            let m = mid_point_halves(a, b);
            if left_steps[k] {
                let (na, nb, nc) = (c, a, m);
                a = na;
                b = nb;
                c = nc;
            } else {
                let (na, nb, nc) = (b, c, m);
                a = na;
                b = nb;
                c = nc;
            }
            k = k + 1;
        }
        proof {
            lemma2_to64();
            assert(v / pow2(0) == v);
        }
        TriangleCoords { a, b, c }
    }

    /// Midpoint of this node triangle's hypotenuse, in half-pixel units.
    pub fn midpoint_pixel_coords(&self, grid_size: u32) -> (r: (u32, u32))
        requires
            self.is_valid(),
            1 <= grid_size <= 0x2000_0000,
        ensures
            ({
                let m = spec_midpoint(self@ as nat, 2 * (grid_size - 1));
                r.0 == m.0 && r.1 == m.1
            }),
            r.0 <= 2 * (grid_size - 1),
            r.1 <= 2 * (grid_size - 1),
    {
        let t = self.triangle_coords(grid_size);
        proof {
            lemma_triangle_in_range(self@ as nat, 2 * (grid_size - 1) as int);
        }
        mid_point_halves(t.a, t.b)
    }

    /// Flattened error-grid slot of this node's hypotenuse midpoint. The
    /// result always lies inside a `grid_size * grid_size` error grid.
    pub fn errors_vec_index(&self, grid_size: u32) -> (r: usize)
        requires
            self.is_valid(),
            2 <= grid_size <= 0x8000,
        ensures
            r == spec_errors_vec_index(self@ as nat, grid_size as int),
            r < grid_size * grid_size,
    {
        let mid = self.midpoint_pixel_coords(grid_size);
        let ghost g = grid_size as int;
        let ghost gg = g * g;
        proof {
            assert((mid.1 as int) * g + (mid.0 as int) <= 2 * gg - 2) by (nonlinear_arith)
                requires
                    mid.1 as int <= 2 * (g - 1),
                    mid.0 as int <= 2 * (g - 1),
                    g >= 2,
                    gg == g * g,
            ;
            assert(4 <= gg <= 0x4000_0000) by (nonlinear_arith)
                requires
                    2 <= g <= 0x8000,
                    gg == g * g,
            ;
        }
        let flat: u64 = (mid.1 as u64) * (grid_size as u64) + (mid.0 as u64);
        proof {
            lemma_div_is_ordered(flat as int, 2 * gg - 2, 2);
            assert((2 * (gg - 1)) / 2 == gg - 1) by {
                vstd::arithmetic::div_mod::lemma_div_multiples_vanish(gg - 1, 2);
            }
        }
        (flat / 2) as usize
    }
}

/// The shallowest prefix of a node id names one of the two root triangles,
/// and its parity agrees with the first recorded step.
proof fn lemma_seed_prefix(v: nat, level: nat)
    requires
        level == spec_level(v),
        level >= 1,
        pow2(level) <= v < pow2(level + 1),
    ensures
        2 <= v / pow2((level - 1) as nat) < 4,
{
    let p = pow2((level - 1) as nat);
    lemma_pow2_pos((level - 1) as nat);
    lemma_pow2_unfold(level);
    lemma_pow2_unfold(level + 1);
    lemma_div_is_ordered(pow2(level) as int, v as int, p as int);
    vstd::arithmetic::div_mod::lemma_div_multiples_vanish(2, p as int);
    // v < 4 * p bounds the quotient below 4.
    if v / p >= 4 {
        vstd::arithmetic::div_mod::lemma_fundamental_div_mod(v as int, p as int);
        vstd::arithmetic::div_mod::lemma_mod_bound(v as int, p as int);
        vstd::arithmetic::mul::lemma_mul_inequality(4, (v / p) as int, p as int);
        assert(false);
    }
}

/// Each deeper prefix of a node id is the child of the previous prefix, on
/// the side recorded in the step sequence.
proof fn lemma_step_prefix(v: nat, level: nat, k: int)
    requires
        level == spec_level(v),
        pow2(level) <= v < pow2(level + 1),
        1 <= k < level,
    ensures
        (v / pow2((level - k - 1) as nat)) / 2 == v / pow2((level - k) as nat),
        v / pow2((level - k - 1) as nat) >= 4,
{
    let e = (level - k - 1) as nat;
    lemma_pow2_pos(e);
    lemma_pow2_unfold((e + 1) as nat);
    lemma_div_denominator(v as int, pow2(e) as int, 2);
    assert((level - k) as nat == e + 1);
    // The prefix after k steps still lies at least two levels deep.
    vstd::arithmetic::power2::lemma_pow2_subtracts(e, level);
    lemma_div_is_ordered(pow2(level) as int, v as int, pow2(e) as int);
    lemma2_to64();
    if level - e > 2 {
        lemma_pow2_strictly_increases(2, (level - e) as nat);
    }
    assert(pow2((level - e) as nat) >= 4);
    assert(v / pow2(e) >= pow2(level) / pow2(e) >= pow2((level - e) as nat));
}

/// Round trip between triangle indices and node ids: the node named by any
/// triangle index maps back to that same index.
pub proof fn lemma_triangle_index_round_trip(idx: nat)
    ensures
        spec_triangle_index(spec_from_triangle_index(idx)) == idx,
{
}

} // verus!

//! Procedural-content-generation core: an indexed min-heap priority queue
//! keyed by 2D grid coordinate, a binary-node indexer over a recursive
//! right-triangle subdivision, an RTIN terrain simplifier, a tile model, and
//! a Wave Function Collapse grid solver.

use vstd::prelude::*;

pub mod binary_node;
pub mod heap;
pub mod rtin;
pub mod tile;
pub mod wfc;

verus! {

/// Chunk coordinate of a world position: positions `1..=chunk_size` map to
/// chunk `1`, positions `chunk_size+1..=2*chunk_size` to chunk `2`, and so on
/// (the origin position `0` maps to chunk `0`).
pub fn x_and_y_from_pos(x: u64, z: u64, chunk_size: u64) -> (r: (u64, u64))
    requires
        chunk_size > 0,
        x < u64::MAX,
        z < u64::MAX,
    ensures
        r.0 == (x + chunk_size - 1) / (chunk_size as int),
        r.1 == (z + chunk_size - 1) / (chunk_size as int),
{
    proof {
        vstd::arithmetic::div_mod::lemma_div_is_ordered_by_denominator(x as int, 1, chunk_size as int);
        vstd::arithmetic::div_mod::lemma_div_is_ordered_by_denominator(z as int, 1, chunk_size as int);
        vstd::arithmetic::div_mod::lemma_div_basics(x as int);
        vstd::arithmetic::div_mod::lemma_div_basics(z as int);
        lemma_ceil_div(x as int, chunk_size as int);
        lemma_ceil_div(z as int, chunk_size as int);
    }
    let cx = x / chunk_size + if x % chunk_size == 0 { 0 } else { 1 };
    let cz = z / chunk_size + if z % chunk_size == 0 { 0 } else { 1 };
    (cx, cz)
}

proof fn lemma_ceil_div(a: int, c: int)
    requires
        a >= 0,
        c > 0,
    ensures
        (a + c - 1) / c == a / c + if a % c == 0 { 0int } else { 1int },
{
    vstd::arithmetic::div_mod::lemma_fundamental_div_mod(a, c);
    vstd::arithmetic::div_mod::lemma_mod_bound(a, c);
    if a % c == 0 {
        assert(a + c - 1 == (a / c) * c + (c - 1)) by {
            vstd::arithmetic::mul::lemma_mul_is_commutative(a / c, c);
        }
        vstd::arithmetic::div_mod::lemma_fundamental_div_mod_converse(
            a + c - 1, c, a / c, c - 1);
    } else {
        assert(a + c - 1 == (a / c + 1) * c + (a % c - 1)) by {
            vstd::arithmetic::mul::lemma_mul_is_commutative(a / c, c);
            vstd::arithmetic::mul::lemma_mul_is_distributive_add_other_way(c, a / c, 1);
        }
        vstd::arithmetic::div_mod::lemma_fundamental_div_mod_converse(
            a + c - 1, c, a / c + 1, a % c - 1);
    }
}

} // verus!

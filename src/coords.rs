use vstd::arithmetic::div_mod::{lemma_fundamental_div_mod, lemma_fundamental_div_mod_converse};
use vstd::prelude::*;

verus! {

/// Every integer is recovered from its floored quotient and remainder, and the
/// quotient lies between zero and the integer itself.
pub proof fn lemma_div_mod_parts(g: int, c: int)
    requires
        c > 0,
    ensures
        g == c * (g / c) + g % c,
        0 <= g % c < c,
        g >= 0 ==> 0 <= g / c <= g,
        g < 0 ==> g <= g / c < 0,
{
    lemma_fundamental_div_mod(g, c);
    let q = g / c;
    let m = g % c;
    assert(g >= 0 ==> 0 <= q <= g) by (nonlinear_arith)
        requires
            g == c * q + m,
            0 <= m < c,
            c > 0,
    ;
    assert(g < 0 ==> g <= q < 0) by (nonlinear_arith)
        requires
            g == c * q + m,
            0 <= m < c,
            c > 0,
    ;
}

/// Chunk coordinate along one axis of the global address `g`: `floor(g / c)`.
pub open spec fn chunk_of(g: int, c: int) -> int {
    g / c
}

/// Position of the global address `g` inside its chunk, always in `[0, c)`.
pub open spec fn local_of(g: int, c: int) -> int {
    g % c
}

/// Along one axis, the address `k * c + l` of the cell `l` of chunk `k` maps
/// back to exactly that chunk and that cell.
pub proof fn lemma_axis_round_trip(k: int, l: int, c: int)
    requires
        c > 0,
        0 <= l < c,
    ensures
        chunk_of(k * c + l, c) == k,
        local_of(k * c + l, c) == l,
{
    lemma_fundamental_div_mod_converse(k * c + l, c, k, l);
}

/// Maps one axis of a global voxel address to its chunk coordinate and its
/// local coordinate inside that chunk, with floored division so that negative
/// addresses land in the right chunk.
pub fn to_chunk_and_local(g: i64, chunk_size: u8) -> (r: (i64, u8))
    requires
        chunk_size > 0,
    ensures
        r.0 as int == chunk_of(g as int, chunk_size as int),
        r.1 as int == local_of(g as int, chunk_size as int),
        0 <= r.1 < chunk_size,
{
    let c = chunk_size as i64;
    proof {
        lemma_div_mod_parts(g as int, c as int);
    }
    let q = g.checked_div_euclid(c).unwrap();
    let m = g.checked_rem_euclid(c).unwrap();
    (q, m as u8)
}

} // verus!

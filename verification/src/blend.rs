//! The per-channel source-over blending law.

use vstd::prelude::*;

verus! {

/// Source-over blend of one colour channel: the destination keeps
/// `255 - k` parts out of 255 and the source contributes `k` parts,
/// with truncating integer division.
pub open spec fn blend_val(cd: int, cs: int, k: int) -> int {
    (cd * (255 - k) + cs * k) / 255
}

/// The blend of two channel bytes under any coverage is again a channel byte.
pub proof fn lemma_blend_val_bounds(cd: int, cs: int, k: int)
    requires
        0 <= cd <= 255,
        0 <= cs <= 255,
        0 <= k <= 255,
    ensures
        0 <= blend_val(cd, cs, k) <= 255,
{
    assert(cd * (255 - k) + cs * k <= 255 * 255) by (nonlinear_arith)
        requires
            0 <= cd <= 255,
            0 <= cs <= 255,
            0 <= k <= 255,
    ;
    assert(0 <= cd * (255 - k) + cs * k) by (nonlinear_arith)
        requires
            0 <= cd,
            0 <= cs,
            0 <= k <= 255,
    ;
}

/// Zero coverage leaves the destination channel unchanged, and full
/// coverage replaces it with the source channel exactly.
pub proof fn lemma_blend_val_boundary(cd: int, cs: int)
    requires
        0 <= cd <= 255,
        0 <= cs <= 255,
    ensures
        blend_val(cd, cs, 0) == cd,
        blend_val(cd, cs, 255) == cs,
{
    assert(cd * 255 / 255 == cd) by (nonlinear_arith)
        requires
            0 <= cd <= 255,
    ;
    assert(cs * 255 / 255 == cs) by (nonlinear_arith)
        requires
            0 <= cs <= 255,
    ;
}

/// Blend one destination channel byte with one source channel byte at
/// coverage `k`.
pub fn blend_byte(cd: u8, cs: u8, k: u8) -> (r: u8)
    ensures
        r as int == blend_val(cd as int, cs as int, k as int),
{
    proof {
        lemma_blend_val_bounds(cd as int, cs as int, k as int);
    }
    let num: u32 = (cd as u32) * (255 - (k as u32)) + (cs as u32) * (k as u32);
    (num / 255) as u8
}

} // verus!

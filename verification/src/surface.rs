//! The destination RGBA pixel buffer and the arithmetic that maps a flat
//! byte index to a pixel coordinate and channel.

use vstd::prelude::*;
use vstd::arithmetic::div_mod::{lemma_fundamental_div_mod, lemma_fundamental_div_mod_converse};

verus! {

/// A CPU-addressable RGBA buffer of fixed size: four bytes per pixel,
/// rows stored top to bottom.
pub struct Surface {
    pub width: usize,
    pub height: usize,
    pub data: Vec<u8>,
}

/// The x coordinate of the pixel that byte `i` of a surface of width `w`
/// belongs to.
pub open spec fn px_of(w: int, i: int) -> int {
    (i / 4) % w
}

/// The y coordinate of the pixel that byte `i` of a surface of width `w`
/// belongs to.
pub open spec fn py_of(w: int, i: int) -> int {
    (i / 4) / w
}

/// The channel (0 = red, 1 = green, 2 = blue, 3 = alpha) of byte `i`.
pub open spec fn ch_of(i: int) -> int {
    i % 4
}

/// Whether byte `i` of a surface of width `w` lies inside the rectangle
/// with origin `(rx, ry)` and size `rw` by `rh`.
pub open spec fn in_rect(w: int, i: int, rx: int, ry: int, rw: int, rh: int) -> bool {
    rx <= px_of(w, i) < rx + rw && ry <= py_of(w, i) < ry + rh
}

impl Surface {
    /// The byte buffer holds exactly four bytes per pixel.
    pub open spec fn wf(self) -> bool {
        self.data@.len() == self.width as int * self.height as int * 4
    }

    /// A fully transparent surface of the given size.
    pub fn new(width: usize, height: usize) -> (s: Surface)
        requires
            width as int * height as int * 4 <= usize::MAX as int,
        ensures
            s.wf(),
            s.width == width,
            s.height == height,
            s.data@ =~= Seq::new((width as int * height as int * 4) as nat, |i: int| 0u8),
    {
        proof {
            assert(width as int * height as int <= usize::MAX as int) by (nonlinear_arith)
                requires
                    width as int * height as int * 4 <= usize::MAX as int,
                    width >= 0,
                    height >= 0,
            ;
        }
        let n: usize = width * height * 4;
        let data: Vec<u8> = vec![0u8; n];
        Surface { width, height, data }
    }
}

/// Byte `(py * w + px) * 4 + c` belongs to pixel `(px, py)`, channel `c`.
pub proof fn lemma_index_decomp(w: int, px: int, py: int, c: int)
    requires
        0 <= px < w,
        0 <= py,
        0 <= c < 4,
    ensures
        px_of(w, (py * w + px) * 4 + c) == px,
        py_of(w, (py * w + px) * 4 + c) == py,
        ch_of((py * w + px) * 4 + c) == c,
{
    let p = py * w + px;
    let i = p * 4 + c;
    assert(p >= 0) by (nonlinear_arith)
        requires
            0 <= px,
            0 <= py,
            w > 0,
            p == py * w + px,
    ;
    lemma_fundamental_div_mod_converse(i, 4, p, c);
    lemma_fundamental_div_mod_converse(p, w, py, px);
}

/// Every byte index is the index of some pixel coordinate and channel,
/// and those coordinates are in range.
pub proof fn lemma_index_recomp(w: int, h: int, i: int)
    requires
        w > 0,
        h > 0,
        0 <= i < w * h * 4,
    ensures
        i == (py_of(w, i) * w + px_of(w, i)) * 4 + ch_of(i),
        0 <= px_of(w, i) < w,
        0 <= py_of(w, i) < h,
        0 <= ch_of(i) < 4,
{
    lemma_fundamental_div_mod(i, 4);
    lemma_fundamental_div_mod(i / 4, w);
    assert(i == (py_of(w, i) * w + px_of(w, i)) * 4 + ch_of(i)) by (nonlinear_arith)
        requires
            i == 4 * (i / 4) + i % 4,
            i / 4 == w * ((i / 4) / w) + (i / 4) % w,
            py_of(w, i) == (i / 4) / w,
            px_of(w, i) == (i / 4) % w,
            ch_of(i) == i % 4,
    ;
    assert(i / 4 < w * h) by (nonlinear_arith)
        requires
            0 <= i < w * h * 4,
            i == 4 * (i / 4) + i % 4,
            0 <= i % 4 < 4,
    ;
    assert((i / 4) / w < h) by (nonlinear_arith)
        requires
            w > 0,
            0 <= i / 4 < w * h,
            i / 4 == w * ((i / 4) / w) + (i / 4) % w,
            0 <= (i / 4) % w < w,
    ;
}

/// A pixel inside a rectangle that fits a `w` by `h` surface indexes
/// only bytes of that surface.
pub proof fn lemma_pixel_bytes_in_bounds(w: int, h: int, px: int, py: int)
    requires
        0 <= px < w,
        0 <= py < h,
    ensures
        (py * w + px) * 4 + 4 <= w * h * 4,
        0 <= (py * w + px) * 4,
{
    assert((py * w + px) * 4 + 4 <= w * h * 4 && 0 <= (py * w + px) * 4) by (nonlinear_arith)
        requires
            0 <= px < w,
            0 <= py < h,
    ;
}

} // verus!

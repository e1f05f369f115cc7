//! Rasterized subtitle layers, the dirty regions they leave behind, and the
//! exact pixel effect of drawing and clearing them on a surface.

use vstd::prelude::*;
use crate::blend::{blend_byte, blend_val, lemma_blend_val_bounds};
use crate::surface::{
    Surface, ch_of, in_rect, lemma_index_decomp, lemma_index_recomp,
    lemma_pixel_bytes_in_bounds, px_of, py_of,
};

verus! {

/// One rasterized piece of subtitle content: a rectangle in destination
/// pixel coordinates, one packed RGBA colour applied uniformly across it,
/// and a row-major byte matrix of per-pixel coverage.
pub struct Layer {
    pub x: usize,
    pub y: usize,
    pub width: usize,
    pub height: usize,
    pub color: u32,
    pub bitmap: Vec<u8>,
}

/// The rectangle painted by a layer on the previous frame, remembered so
/// that exactly those pixels can be cleared before the next paint.
#[derive(Clone, Copy, PartialEq, Eq, Structural, Debug)]
pub struct LastLayer {
    pub width: usize,
    pub height: usize,
    pub x: usize,
    pub y: usize,
}

impl Layer {
    /// The coverage matrix holds one byte per pixel of the rectangle.
    pub open spec fn wf(self) -> bool {
        self.bitmap@.len() == self.width as int * self.height as int
    }

    /// The rectangle lies within a `w` by `h` destination surface.
    pub open spec fn fits(self, w: int, h: int) -> bool {
        self.x as int + self.width as int <= w && self.y as int + self.height as int <= h
    }
}

impl LastLayer {
    /// The rectangle lies within a `w` by `h` destination surface.
    pub open spec fn fits(self, w: int, h: int) -> bool {
        self.x as int + self.width as int <= w && self.y as int + self.height as int <= h
    }

    /// Record the rectangle of a freshly drawn layer.
    pub fn from_layer(layer: &Layer) -> (r: LastLayer)
        ensures
            r == rect_of(*layer),
    {
        LastLayer { width: layer.width, height: layer.height, x: layer.x, y: layer.y }
    }
}

/// The rectangle of a layer.
pub open spec fn rect_of(l: Layer) -> LastLayer {
    LastLayer { width: l.width, height: l.height, x: l.x, y: l.y }
}

/// The rectangles of a frame's layers, in order.
pub open spec fn rects_of(ls: Seq<Layer>) -> Seq<LastLayer> {
    ls.map_values(|l: Layer| rect_of(l))
}

/// The channel bytes a layer paints with: red, green and blue taken from
/// the packed big-endian colour, and the stored alpha byte inverted before
/// use, as the rasterization engine's colour convention demands.
pub open spec fn color_channel(color: u32, c: int) -> u8 {
    if c == 0 {
        ((color >> 24) & 0xff) as u8
    } else if c == 1 {
        ((color >> 16) & 0xff) as u8
    } else if c == 2 {
        ((color >> 8) & 0xff) as u8
    } else {
        (255 - (color & 0xff)) as u8
    }
}

/// Whether byte `i` of a surface of width `w` lies inside the layer's
/// rectangle.
pub open spec fn in_layer(l: Layer, w: int, i: int) -> bool {
    in_rect(w, i, l.x as int, l.y as int, l.width as int, l.height as int)
}

/// Whether byte `i` of a surface of width `w` lies inside a recorded
/// rectangle.
pub open spec fn in_last(r: LastLayer, w: int, i: int) -> bool {
    in_rect(w, i, r.x as int, r.y as int, r.width as int, r.height as int)
}

/// The layer's coverage at the pixel that byte `i` belongs to.
pub open spec fn layer_cov(l: Layer, w: int, i: int) -> u8 {
    l.bitmap@[(py_of(w, i) - l.y as int) * l.width as int + (px_of(w, i) - l.x as int)]
}

/// The value byte `i` takes when the layer is blended over surface `s`.
pub open spec fn blended_at(s: Seq<u8>, l: Layer, w: int, i: int) -> u8 {
    blend_val(s[i] as int, color_channel(l.color, ch_of(i)) as int, layer_cov(l, w, i) as int) as u8
}

/// The whole surface after one layer is blended onto it: bytes inside the
/// layer's rectangle are blended, all others are untouched.
pub open spec fn draw_layer_spec(s: Seq<u8>, l: Layer, w: int) -> Seq<u8> {
    Seq::new(s.len(), |i: int| if in_layer(l, w, i) { blended_at(s, l, w, i) } else { s[i] })
}

/// The surface after a frame's layers are blended onto it in order,
/// later layers over earlier ones.
pub open spec fn draw_layers_spec(s: Seq<u8>, ls: Seq<Layer>, w: int) -> Seq<u8>
    decreases ls.len(),
{
    if ls.len() == 0 {
        s
    } else {
        draw_layer_spec(draw_layers_spec(s, ls.drop_last(), w), ls.last(), w)
    }
}

/// Whether byte `i` lies inside at least one of the recorded rectangles.
pub open spec fn covered_by_any(rs: Seq<LastLayer>, w: int, i: int) -> bool {
    exists|j: int| 0 <= j < rs.len() && in_last(rs[j], w, i)
}

/// The surface after one recorded rectangle is erased to transparent black.
pub open spec fn clear_rect_spec(s: Seq<u8>, r: LastLayer, w: int) -> Seq<u8> {
    Seq::new(s.len(), |i: int| if in_last(r, w, i) { 0u8 } else { s[i] })
}

/// The surface after every recorded rectangle is erased to transparent
/// black: a byte is zero wherever some rectangle covers it, and untouched
/// everywhere else.
pub open spec fn clear_spec(s: Seq<u8>, rs: Seq<LastLayer>, w: int) -> Seq<u8> {
    Seq::new(s.len(), |i: int| if covered_by_any(rs, w, i) { 0u8 } else { s[i] })
}

/// Every byte outside all of the recorded rectangles is zero: the
/// rectangles account for everything painted on the surface.
pub open spec fn clean_outside(s: Seq<u8>, rs: Seq<LastLayer>, w: int) -> bool {
    forall|i: int| 0 <= i < s.len() && !covered_by_any(rs, w, i) ==> s[i] == 0u8
}

/// Loop progress over a layer's rectangle, row-major: full rows before
/// `rows` are done, and `cols` pixels of row `rows` are done.
spec fn local_before(l: Layer, w: int, i: int, rows: int, cols: int) -> bool {
    let ly = py_of(w, i) - l.y as int;
    let lx = px_of(w, i) - l.x as int;
    if ly < rows {
        true
    } else if ly == rows {
        lx < cols
    } else {
        false
    }
}

/// The surface `s` agrees with `s0` blended with `l` on the part of the
/// rectangle already visited, and with `s0` everywhere else.
spec fn drawn_upto(s0: Seq<u8>, s: Seq<u8>, l: Layer, w: int, rows: int, cols: int) -> bool {
    &&& s.len() == s0.len()
    &&& forall|i: int|
        0 <= i < s0.len() ==> s[i] == (if in_layer(l, w, i) && local_before(l, w, i, rows, cols) {
            blended_at(s0, l, w, i)
        } else {
            s0[i]
        })
}

/// Blend the four channel bytes of one pixel, starting at byte `base`.
fn blend_px(data: &mut Vec<u8>, base: usize, color: u32, k: u8)
    requires
        base + 4 <= old(data)@.len(),
    ensures
        final(data)@.len() == old(data)@.len(),
        forall|j: int|
            0 <= j < old(data)@.len() && !(base <= j < base + 4) ==> final(data)@[j] == old(
                data,
            )@[j],
        forall|j: int|
            base <= j < base + 4 ==> final(data)@[j] as int == blend_val(
                old(data)@[j] as int,
                color_channel(color, j - base) as int,
                k as int,
            ),
{
    proof {
        assert((color >> 24) & 0xff < 256) by (bit_vector);
        assert((color >> 16) & 0xff < 256) by (bit_vector);
        assert((color >> 8) & 0xff < 256) by (bit_vector);
        assert(color & 0xff < 256) by (bit_vector);
    }
    let n = data.len();
    proof {
        assert(base + 4 <= n);
    }
    let c0: u8 = ((color >> 24) & 0xff) as u8;
    let c1: u8 = ((color >> 16) & 0xff) as u8;
    let c2: u8 = ((color >> 8) & 0xff) as u8;
    let c3: u8 = (255 - (color & 0xff)) as u8;
    let d0 = data[base];
    data[base] = blend_byte(d0, c0, k);
    let d1 = data[base + 1];
    data[base + 1] = blend_byte(d1, c1, k);
    let d2 = data[base + 2];
    data[base + 2] = blend_byte(d2, c2, k);
    let d3 = data[base + 3];
    data[base + 3] = blend_byte(d3, c3, k);
}

/// Alpha-blend one layer onto the surface: exactly the bytes of the
/// layer's rectangle change, each to the source-over blend of its previous
/// value with the layer's colour at the layer's coverage for that pixel.
pub fn draw_layer(layer: &Layer, surface: &mut Surface)
    requires
        old(surface).wf(),
        layer.wf(),
        layer.fits(old(surface).width as int, old(surface).height as int),
    ensures
        final(surface).wf(),
        final(surface).width == old(surface).width,
        final(surface).height == old(surface).height,
        final(surface).data@ == draw_layer_spec(
            old(surface).data@,
            *layer,
            old(surface).width as int,
        ),
{
    let ghost s0 = surface.data@;
    let w = surface.width;
    let h = surface.height;
    let buf_len = surface.data.len();
    let cov_len = layer.bitmap.len();
    let mut row: usize = 0;
    while row < layer.height
        invariant
            surface.width == w,
            surface.height == h,
            surface.wf(),
            layer.wf(),
            layer.fits(w as int, h as int),
            row <= layer.height,
            s0 == old(surface).data@,
            buf_len == surface.data@.len(),
            cov_len == layer.bitmap@.len(),
            drawn_upto(s0, surface.data@, *layer, w as int, row as int, 0),
        decreases layer.height - row,
    {
        let mut col: usize = 0;
        while col < layer.width
            invariant
                surface.width == w,
                surface.height == h,
                surface.wf(),
                layer.wf(),
                layer.fits(w as int, h as int),
                row < layer.height,
                col <= layer.width,
                s0 == old(surface).data@,
                buf_len == surface.data@.len(),
                cov_len == layer.bitmap@.len(),
                drawn_upto(s0, surface.data@, *layer, w as int, row as int, col as int),
            decreases layer.width - col,
        {
            let ghost wi = w as int;
            let ghost hi = h as int;
            proof {
                lemma_pixel_bytes_in_bounds(
                    wi,
                    hi,
                    layer.x as int + col as int,
                    layer.y as int + row as int,
                );
                let lw = layer.width as int;
                let lh = layer.height as int;
                let rowg = row as int;
                let colg = col as int;
                assert(rowg * lw + colg < lw * lh) by (nonlinear_arith)
                    requires
                        0 <= colg < lw,
                        0 <= rowg < lh,
                ;
            }
            let px = layer.x + col;
            let py = layer.y + row;
            let base = (py * w + px) * 4;
            let k = layer.bitmap[row * layer.width + col];
            let ghost prev = surface.data@;
            blend_px(&mut surface.data, base, layer.color, k);
            proof {
                let rowi = row as int;
                let coli = col as int;
                let pxi = px as int;
                let pyi = py as int;
                let bi = (pyi * wi + pxi) * 4;
                assert forall|i: int| 0 <= i < s0.len() implies surface.data@[i] == (
                if in_layer(*layer, wi, i) && local_before(*layer, wi, i, rowi, coli + 1) {
                    blended_at(s0, *layer, wi, i)
                } else {
                    s0[i]
                }) by {
                    lemma_index_recomp(wi, hi, i);
                    if bi <= i < bi + 4 {
                        lemma_index_decomp(wi, pxi, pyi, i - bi);
                        assert(prev[i] == s0[i]);
                        assert(layer_cov(*layer, wi, i) == k);
                        assert(surface.data@[i] as int == blend_val(
                            s0[i] as int,
                            color_channel(layer.color, ch_of(i)) as int,
                            k as int,
                        ));
                        lemma_blend_val_bounds(
                            s0[i] as int,
                            color_channel(layer.color, ch_of(i)) as int,
                            k as int,
                        );
                    } else {
                        if px_of(wi, i) == pxi && py_of(wi, i) == pyi {
                            assert(i == (pyi * wi + pxi) * 4 + ch_of(i));
                            assert(false);
                        }
                        assert(surface.data@[i] == prev[i]);
                    }
                }
            }
            col += 1;
        }
        proof {
            let wi = w as int;
            let rowi = row as int;
            let lwid = layer.width as int;
            assert forall|i: int| 0 <= i < s0.len() && in_layer(*layer, wi, i) implies local_before(
                *layer,
                wi,
                i,
                rowi,
                lwid,
            ) == local_before(*layer, wi, i, rowi + 1, 0) by {}
        }
        row += 1;
    }
    proof {
        assert(surface.data@ =~= draw_layer_spec(s0, *layer, w as int));
    }
}

/// Loop progress over a recorded rectangle, row-major.
spec fn last_before(r: LastLayer, w: int, i: int, rows: int, cols: int) -> bool {
    let ly = py_of(w, i) - r.y as int;
    let lx = px_of(w, i) - r.x as int;
    if ly < rows {
        true
    } else if ly == rows {
        lx < cols
    } else {
        false
    }
}

/// The surface `s` agrees with zero on the part of the rectangle already
/// visited, and with `s0` everywhere else.
spec fn cleared_upto(s0: Seq<u8>, s: Seq<u8>, r: LastLayer, w: int, rows: int, cols: int) -> bool {
    &&& s.len() == s0.len()
    &&& forall|i: int|
        0 <= i < s0.len() ==> s[i] == (if in_last(r, w, i) && last_before(r, w, i, rows, cols) {
            0u8
        } else {
            s0[i]
        })
}

/// Zero the four channel bytes of one pixel, starting at byte `base`.
fn zero_px(data: &mut Vec<u8>, base: usize)
    requires
        base + 4 <= old(data)@.len(),
    ensures
        final(data)@.len() == old(data)@.len(),
        forall|j: int|
            0 <= j < old(data)@.len() && !(base <= j < base + 4) ==> final(data)@[j] == old(
                data,
            )@[j],
        forall|j: int| base <= j < base + 4 ==> final(data)@[j] == 0u8,
{
    let n = data.len();
    proof {
        assert(base + 4 <= n);
    }
    data[base] = 0;
    data[base + 1] = 0;
    data[base + 2] = 0;
    data[base + 3] = 0;
}

/// Erase one previously recorded rectangle to fully transparent black:
/// exactly its bytes become zero, all others are untouched.
pub fn clear_rect(region: &LastLayer, surface: &mut Surface)
    requires
        old(surface).wf(),
        region.fits(old(surface).width as int, old(surface).height as int),
    ensures
        final(surface).wf(),
        final(surface).width == old(surface).width,
        final(surface).height == old(surface).height,
        final(surface).data@ == clear_rect_spec(
            old(surface).data@,
            *region,
            old(surface).width as int,
        ),
{
    let ghost s0 = surface.data@;
    let w = surface.width;
    let h = surface.height;
    let buf_len = surface.data.len();
    let mut row: usize = 0;
    while row < region.height
        invariant
            surface.width == w,
            surface.height == h,
            surface.wf(),
            region.fits(w as int, h as int),
            row <= region.height,
            s0 == old(surface).data@,
            buf_len == surface.data@.len(),
            cleared_upto(s0, surface.data@, *region, w as int, row as int, 0),
        decreases region.height - row,
    {
        let mut col: usize = 0;
        while col < region.width
            invariant
                surface.width == w,
                surface.height == h,
                surface.wf(),
                region.fits(w as int, h as int),
                row < region.height,
                col <= region.width,
                s0 == old(surface).data@,
                buf_len == surface.data@.len(),
                cleared_upto(s0, surface.data@, *region, w as int, row as int, col as int),
            decreases region.width - col,
        {
            let ghost wi = w as int;
            let ghost hi = h as int;
            proof {
                lemma_pixel_bytes_in_bounds(
                    wi,
                    hi,
                    region.x as int + col as int,
                    region.y as int + row as int,
                );
            }
            let px = region.x + col;
            let py = region.y + row;
            let base = (py * w + px) * 4;
            let ghost prev = surface.data@;
            zero_px(&mut surface.data, base);
            proof {
                let rowi = row as int;
                let coli = col as int;
                let pxi = px as int;
                let pyi = py as int;
                let bi = (pyi * wi + pxi) * 4;
                assert forall|i: int| 0 <= i < s0.len() implies surface.data@[i] == (
                if in_last(*region, wi, i) && last_before(*region, wi, i, rowi, coli + 1) {
                    0u8
                } else {
                    s0[i]
                }) by {
                    lemma_index_recomp(wi, hi, i);
                    if bi <= i < bi + 4 {
                        lemma_index_decomp(wi, pxi, pyi, i - bi);
                    } else {
                        if px_of(wi, i) == pxi && py_of(wi, i) == pyi {
                            assert(i == (pyi * wi + pxi) * 4 + ch_of(i));
                            assert(false);
                        }
                        assert(surface.data@[i] == prev[i]);
                    }
                }
            }
            col += 1;
        }
        proof {
            let wi = w as int;
            let rowi = row as int;
            let rwid = region.width as int;
            assert forall|i: int| 0 <= i < s0.len() && in_last(*region, wi, i) implies last_before(
                *region,
                wi,
                i,
                rowi,
                rwid,
            ) == last_before(*region, wi, i, rowi + 1, 0) by {}
        }
        row += 1;
    }
    proof {
        assert(surface.data@ =~= clear_rect_spec(s0, *region, w as int));
    }
}

/// Erase every rectangle recorded on the previous frame, leaving the rest
/// of the surface untouched.
pub fn clear_last(image: &Vec<LastLayer>, surface: &mut Surface)
    requires
        old(surface).wf(),
        forall|j: int|
            0 <= j < image@.len() ==> (#[trigger] image@[j]).fits(
                old(surface).width as int,
                old(surface).height as int,
            ),
    ensures
        final(surface).wf(),
        final(surface).width == old(surface).width,
        final(surface).height == old(surface).height,
        final(surface).data@ == clear_spec(old(surface).data@, image@, old(surface).width as int),
{
    let ghost s0 = surface.data@;
    let w = surface.width;
    let h = surface.height;
    let mut j: usize = 0;
    while j < image.len()
        invariant
            surface.width == w,
            surface.height == h,
            surface.wf(),
            j <= image@.len(),
            s0 == old(surface).data@,
            surface.data@.len() == s0.len(),
            forall|jj: int|
                0 <= jj < image@.len() ==> (#[trigger] image@[jj]).fits(w as int, h as int),
            surface.data@ == clear_spec(s0, image@.take(j as int), w as int),
        decreases image@.len() - j,
    {
        let ghost prev = surface.data@;
        clear_rect(&image[j], surface);
        proof {
            let wi = w as int;
            let ji = j as int;
            assert forall|i: int| 0 <= i < s0.len() implies surface.data@[i] == clear_spec(
                s0,
                image@.take(ji + 1),
                wi,
            )[i] by {
                if in_last(image@[ji], wi, i) {
                    assert(in_last(image@.take(ji + 1)[ji], wi, i));
                    assert(covered_by_any(image@.take(ji + 1), wi, i));
                } else {
                    if covered_by_any(image@.take(ji + 1), wi, i) {
                        let jj = choose|jj: int|
                            0 <= jj < ji + 1 && #[trigger] in_last(image@.take(ji + 1)[jj], wi, i);
                        assert(jj < ji ==> in_last(image@.take(ji)[jj], wi, i));
                        assert(covered_by_any(image@.take(ji + 1), wi, i) == covered_by_any(
                            image@.take(ji),
                            wi,
                            i,
                        ));
                    } else {
                        if covered_by_any(image@.take(ji), wi, i) {
                            let jj = choose|jj: int|
                                0 <= jj < ji && #[trigger] in_last(image@.take(ji)[jj], wi, i);
                            assert(in_last(image@.take(ji + 1)[jj], wi, i));
                        }
                    }
                }
            }
            assert(surface.data@ =~= clear_spec(s0, image@.take(ji + 1), wi));
        }
        j += 1;
    }
    proof {
        assert(image@.take(image@.len() as int) =~= image@);
    }
}

/// Folding one more layer into a frame: drawing the first `j + 1` layers
/// is drawing the first `j` and then blending layer `j` on top.
pub proof fn lemma_draw_layers_step(s: Seq<u8>, ls: Seq<Layer>, w: int, j: int)
    requires
        0 <= j < ls.len(),
    ensures
        draw_layers_spec(s, ls.take(j + 1), w) == draw_layer_spec(
            draw_layers_spec(s, ls.take(j), w),
            ls[j],
            w,
        ),
{
    assert(ls.take(j + 1).drop_last() =~= ls.take(j));
    assert(ls.take(j + 1).last() == ls[j]);
}

/// Drawing layers never changes the surface's byte count.
pub proof fn lemma_draw_layers_len(s: Seq<u8>, ls: Seq<Layer>, w: int)
    ensures
        draw_layers_spec(s, ls, w).len() == s.len(),
    decreases ls.len(),
{
    if ls.len() > 0 {
        lemma_draw_layers_len(s, ls.drop_last(), w);
    }
}

/// A byte outside every drawn layer's rectangle is untouched by the whole
/// draw phase.
pub proof fn lemma_draw_layers_outside(s: Seq<u8>, ls: Seq<Layer>, w: int, i: int)
    requires
        0 <= i < s.len(),
        !covered_by_any(rects_of(ls), w, i),
    ensures
        draw_layers_spec(s, ls, w)[i] == s[i],
    decreases ls.len(),
{
    lemma_draw_layers_len(s, ls, w);
    if ls.len() > 0 {
        let pre = ls.drop_last();
        assert(!covered_by_any(rects_of(pre), w, i)) by {
            if covered_by_any(rects_of(pre), w, i) {
                let j = choose|j: int|
                    0 <= j < rects_of(pre).len() && #[trigger] in_last(rects_of(pre)[j], w, i);
                assert(rects_of(pre)[j] == rects_of(ls)[j]);
                assert(in_last(rects_of(ls)[j], w, i));
            }
        }
        assert(!in_layer(ls.last(), w, i)) by {
            if in_layer(ls.last(), w, i) {
                assert(in_last(rects_of(ls)[ls.len() - 1], w, i));
            }
        }
        lemma_draw_layers_outside(s, pre, w, i);
        lemma_draw_layers_len(s, pre, w);
    }
}

/// Dirty-region exactness: if the previously recorded rectangles account
/// for every painted byte, then after erasing them and drawing a new
/// frame's layers, the newly recorded rectangles account for every painted
/// byte — everything outside them is fully transparent black.
pub proof fn lemma_dirty_region_exactness(
    s: Seq<u8>,
    old_rs: Seq<LastLayer>,
    ls: Seq<Layer>,
    w: int,
)
    requires
        clean_outside(s, old_rs, w),
    ensures
        clean_outside(draw_layers_spec(clear_spec(s, old_rs, w), ls, w), rects_of(ls), w),
{
    let cleared = clear_spec(s, old_rs, w);
    let res = draw_layers_spec(cleared, ls, w);
    lemma_draw_layers_len(cleared, ls, w);
    assert forall|i: int| 0 <= i < res.len() && !covered_by_any(rects_of(ls), w, i) implies res[i]
        == 0u8 by {
        assert(cleared[i] == 0u8);
        lemma_draw_layers_outside(cleared, ls, w, i);
    }
}

} // verus!

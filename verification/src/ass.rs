//! The incremental overlay compositor: a time cursor into the loaded
//! track, the dirty regions of the previous frame, and the render step
//! that erases them and blends a new frame's layers.

use vstd::prelude::*;
use crate::layer::{
    clean_outside, clear_last, clear_spec, draw_layer, draw_layers_spec, rect_of, rects_of,
    lemma_dirty_region_exactness, lemma_draw_layers_step, LastLayer, Layer,
};
use crate::surface::Surface;
use crate::track::{
    check_parser_input, decode_lossy, duration_of, lossy_decoded, max_end_ms, parse_entry_ends,
    parser_input_ok, ssa_entry_ends, ssa_parse_ok, SubtitleParseError,
};

verus! {

/// The width of the destination canvas, fixed at initialization.
pub const CANVAS_WIDTH: usize = 1920;

/// The height of the destination canvas, fixed at initialization.
pub const CANVAS_HEIGHT: usize = 1080;

/// A parsed subtitle track's bookkeeping: its total playable duration in
/// milliseconds. The engine-native document handle lives with the host
/// glue that owns the rasterization engine.
pub struct LoadedTrack {
    pub len: i64,
}

impl LoadedTrack {
    /// A track of the given duration; a duration is never negative.
    pub fn new(len: i64) -> (r: LoadedTrack)
        requires
            len >= 0,
        ensures
            r.len == len,
    {
        LoadedTrack { len }
    }
}

/// What the rasterization engine reports for a frame: either the visible
/// content is identical to the previous frame, or a fresh ordered
/// sequence of layers — possibly empty — replaces it.
pub enum RenderOutcome {
    Unchanged,
    Changed(Vec<Layer>),
}

/// Every layer of a changed frame is well formed and lies within a `w`
/// by `h` destination surface.
pub open spec fn outcome_wf(o: RenderOutcome, w: int, h: int) -> bool {
    match o {
        RenderOutcome::Unchanged => true,
        RenderOutcome::Changed(ls) => forall|j: int|
            0 <= j < ls@.len() ==> (#[trigger] ls@[j]).wf() && ls@[j].fits(w, h),
    }
}

/// The overlay compositor's state. One compositor serves one output;
/// its methods take exclusive borrows, so loads and renders are
/// serialized by ownership, and a host that drives them from two threads
/// wraps the compositor in its own lock.
pub struct AssData {
    pub canvas_w: usize,
    pub canvas_h: usize,
    pub track: Option<LoadedTrack>,
    pub cur_time: i64,
    pub last_image: Vec<LastLayer>,
}

impl AssData {
    /// Every recorded dirty region lies within the canvas, and a loaded
    /// track's duration is never negative.
    pub open spec fn wf(self) -> bool {
        &&& forall|j: int|
            0 <= j < self.last_image@.len() ==> (#[trigger] self.last_image@[j]).fits(
                self.canvas_w as int,
                self.canvas_h as int,
            )
        &&& (self.track matches Some(t) ==> t.len >= 0)
    }

    /// The loaded track's duration in milliseconds, or 0 when none is
    /// loaded.
    pub open spec fn len_spec(self) -> i64 {
        match self.track {
            Some(t) => t.len,
            None => 0i64,
        }
    }

    /// A fresh compositor: no track, cursor at 0, nothing painted.
    pub fn new() -> (r: AssData)
        ensures
            r.canvas_w == CANVAS_WIDTH,
            r.canvas_h == CANVAS_HEIGHT,
            r.track is None,
            r.cur_time == 0,
            r.last_image@.len() == 0,
            r.wf(),
    {
        AssData {
            canvas_w: CANVAS_WIDTH,
            canvas_h: CANVAS_HEIGHT,
            track: None,
            cur_time: 0,
            last_image: Vec::new(),
        }
    }

    /// Advance the playback clock by `msecs` (wrapping; negative deltas
    /// move time backward) and report the time to render at. While no
    /// track is loaded this is a no-op: the cursor does not move and no
    /// render is requested.
    pub fn tick(&mut self, msecs: i64) -> (r: Option<i64>)
        ensures
            final(self).canvas_w == old(self).canvas_w,
            final(self).canvas_h == old(self).canvas_h,
            final(self).track == old(self).track,
            final(self).last_image == old(self).last_image,
            old(self).track is None ==> r is None && final(self).cur_time == old(self).cur_time,
            old(self).track is Some ==> final(self).cur_time == old(self).cur_time.wrapping_add(
                msecs,
            ),
            old(self).track is Some ==> r == Some(old(self).cur_time.wrapping_add(msecs)),
    {
        if self.track.is_none() {
            return None;
        }
        self.cur_time = self.cur_time.wrapping_add(msecs);
        Some(self.cur_time)
    }

    /// Apply one frame reported by the rasterization engine. An unchanged
    /// frame touches neither the surface nor the recorded regions. A
    /// changed frame erases exactly the previously recorded regions,
    /// blends the new layers in order, and records their rectangles as
    /// the new dirty-region set; and if the old regions accounted for
    /// every painted byte, the new ones do too.
    pub fn render(&mut self, surface: &mut Surface, outcome: RenderOutcome)
        requires
            old(self).wf(),
            old(self).track is Some,
            old(surface).wf(),
            old(surface).width == old(self).canvas_w,
            old(surface).height == old(self).canvas_h,
            outcome_wf(outcome, old(self).canvas_w as int, old(self).canvas_h as int),
        ensures
            final(self).wf(),
            final(self).canvas_w == old(self).canvas_w,
            final(self).canvas_h == old(self).canvas_h,
            final(self).track == old(self).track,
            final(self).cur_time == old(self).cur_time,
            final(surface).wf(),
            final(surface).width == old(surface).width,
            final(surface).height == old(surface).height,
            outcome is Unchanged ==> final(self).last_image == old(self).last_image,
            outcome is Unchanged ==> final(surface).data@ == old(surface).data@,
            outcome matches RenderOutcome::Changed(ls) ==> final(surface).data@
                == draw_layers_spec(
                clear_spec(old(surface).data@, old(self).last_image@, old(surface).width as int),
                ls@,
                old(surface).width as int,
            ),
            outcome matches RenderOutcome::Changed(ls) ==> final(self).last_image@ == rects_of(
                ls@,
            ),
            clean_outside(old(surface).data@, old(self).last_image@, old(surface).width as int)
                ==> clean_outside(
                final(surface).data@,
                final(self).last_image@,
                old(surface).width as int,
            ),
    {
        match outcome {
            RenderOutcome::Unchanged => {},
            RenderOutcome::Changed(layers) => {
                let ghost s0 = surface.data@;
                let ghost old_regions = self.last_image@;
                let w = surface.width;
                let h = surface.height;
                clear_last(&self.last_image, surface);
                self.last_image.clear();
                let ghost cleared = surface.data@;
                let mut j: usize = 0;
                while j < layers.len()
                    invariant
                        surface.wf(),
                        surface.width == w,
                        surface.height == h,
                        self.canvas_w == old(self).canvas_w,
                        self.canvas_h == old(self).canvas_h,
                        self.track == old(self).track,
                        self.cur_time == old(self).cur_time,
                        w == old(self).canvas_w,
                        h == old(self).canvas_h,
                        j <= layers@.len(),
                        forall|jj: int|
                            0 <= jj < layers@.len() ==> (#[trigger] layers@[jj]).wf()
                                && layers@[jj].fits(w as int, h as int),
                        cleared == clear_spec(s0, old_regions, w as int),
                        surface.data@ == draw_layers_spec(
                            cleared,
                            layers@.take(j as int),
                            w as int,
                        ),
                        self.last_image@ == rects_of(layers@.take(j as int)),
                    decreases layers@.len() - j,
                {
                    let ghost ji = j as int;
                    let layer = &layers[j];
                    draw_layer(layer, surface);
                    self.last_image.push(LastLayer::from_layer(layer));
                    proof {
                        lemma_draw_layers_step(cleared, layers@, w as int, ji);
                        assert(layers@.take(ji + 1)[ji] == layers@[ji]);
                        assert(self.last_image@ =~= rects_of(layers@.take(ji + 1)));
                    }
                    j += 1;
                }
                proof {
                    assert(layers@.take(layers@.len() as int) =~= layers@);
                    assert forall|jj: int| 0 <= jj < self.last_image@.len() implies (
                    #[trigger] self.last_image@[jj]).fits(
                        self.canvas_w as int,
                        self.canvas_h as int,
                    ) by {
                        assert(self.last_image@[jj] == rect_of(layers@[jj]));
                    }
                    if clean_outside(s0, old_regions, w as int) {
                        lemma_dirty_region_exactness(s0, old_regions, layers@, w as int);
                    }
                }
            },
        }
    }

    /// Replace the loaded track from the raw bytes of a subtitle
    /// document. The load succeeds exactly when the decoded text is safe
    /// to hand to the container-format parser and the parser accepts it;
    /// then the new track's duration is the largest end timestamp the
    /// parser finds, clamped to 0 (and 0 with no timed entries), and the
    /// time cursor is reset to 0. On any failure the compositor — any
    /// previously loaded track and the cursor included — is unchanged.
    pub fn load_track(&mut self, bytes: &Vec<u8>) -> (r: Result<(), SubtitleParseError>)
        ensures
            r is Ok <==> (parser_input_ok(lossy_decoded(bytes@)) && ssa_parse_ok(
                lossy_decoded(bytes@),
            )),
            r is Err ==> *final(self) == *old(self),
            r is Ok ==> final(self).cur_time == 0,
            r is Ok ==> final(self).track == Some(
                (LoadedTrack { len: duration_of(ssa_entry_ends(lossy_decoded(bytes@))) }),
            ),
            r is Ok ==> final(self).len_spec() >= 0,
            final(self).last_image == old(self).last_image,
            final(self).canvas_w == old(self).canvas_w,
            final(self).canvas_h == old(self).canvas_h,
    {
        let text = decode_lossy(bytes);
        if !check_parser_input(text.as_str()) {
            return Err(SubtitleParseError::UnsupportedInput);
        }
        match parse_entry_ends(text.as_str()) {
            Err(e) => Err(SubtitleParseError::new(e)),
            Ok(ends) => {
                let m = max_end_ms(&ends);
                let len: i64 = if m < 0 {
                    0
                } else {
                    m
                };
                self.install_track(len);
                Ok(())
            },
        }
    }

    /// Install a track of the given duration, discarding any previous
    /// one, and reset the time cursor to the start. A duration is never
    /// negative.
    pub fn install_track(&mut self, len: i64)
        requires
            len >= 0,
        ensures
            final(self).track == Some((LoadedTrack { len: len })),
            final(self).cur_time == 0,
            final(self).last_image == old(self).last_image,
            final(self).canvas_w == old(self).canvas_w,
            final(self).canvas_h == old(self).canvas_h,
    {
        self.track = Some(LoadedTrack::new(len));
        self.cur_time = 0;
    }

    /// The loaded track's duration in milliseconds, or 0 when none is
    /// loaded.
    pub fn current_len(&self) -> (r: i64)
        ensures
            r == self.len_spec(),
    {
        match &self.track {
            Some(t) => t.len,
            None => 0,
        }
    }

    /// The playback clock's position in milliseconds.
    pub fn current_time(&self) -> (r: i64)
        ensures
            r == self.cur_time,
    {
        self.cur_time
    }

    /// Whether playback has reached the end of the loaded track: true
    /// exactly when the cursor stands at or past the track's duration.
    pub fn ended(&self) -> (r: bool)
        ensures
            r == (self.cur_time >= self.len_spec()),
    {
        self.current_time() >= self.current_len()
    }

    /// Whether a track is currently loaded.
    pub fn loaded(&self) -> (r: bool)
        ensures
            r == (self.track is Some),
    {
        self.track.is_some()
    }
}

} // verus!

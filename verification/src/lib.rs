//! An incremental subtitle overlay compositor.
//!
//! Driven by an external playback clock, the compositor keeps a time cursor
//! into the currently loaded subtitle track, asks a rasterization engine for
//! the layers visible at that time, erases exactly the regions painted on the
//! previous frame, and alpha-blends the new layers onto an RGBA surface.

pub mod blend;
pub mod surface;
pub mod layer;
pub mod track;
pub mod ass;

//! Core of an animated point pattern: a bounds-checked RGBA canvas and the
//! frame driver that draws one dot per generator step into a fresh canvas.
//!
//! `canvas` holds the pixel buffer and the dot writer; `frame` holds the
//! animation's configuration, the colour of each step, and the driver that
//! owns the frame counter.

pub mod canvas;
pub mod frame;

//! Recognition, editing and scripting logic of a plot digitizer.
//!
//! - `color`, `pixels`, `grid`, `density`, `axis`, `ticks`: finding the axes of a plot and their
//!   tick marks among the foreground pixels of a masked image.
//! - `chains`, `sampling`, `clusters`: ordering a curve's pixels into chains, sharing sample
//!   points among the chains, and ordering the colour clusters that become data groups.
//! - `canvas`: what pointer and keyboard input on the image canvas do to the points and the
//!   selection.
//! - `session`: the window's keyboard shortcuts, loading a new image, and the undo/redo history.
//! - `text`, `hoist`, `script`, `inspect`, `markdown`: preparing scripts for the script engine,
//!   the text shown after a run and in the inspector, and the scripting reference's markdown.

pub mod color;
pub mod grid;
pub mod pixels;
pub mod density;
pub mod axis;
pub mod ticks;
pub mod text;
pub mod hoist;
pub mod chains;
pub mod canvas;
pub mod markdown;
pub mod inspect;
pub mod script;
pub mod clusters;
pub mod sampling;
pub mod session;


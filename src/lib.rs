//! Reads the object graph of a video editor's project file into sequences,
//! their cuts, the media they show and a timeline of what is visible when.
use vstd::prelude::*;

pub mod container;
pub mod element;
pub mod errors;
pub mod graph;
pub mod media;
pub mod reader;
pub mod resolve;
pub mod sequence;
pub mod text;
pub mod ticks;
pub mod timeline;

verus! {

/// The tick rate of the project format: this many ticks make one second.
pub const TICKS_PER_SECOND: u64 = 254_016_000_000;

} // verus!

pub use element::Element;
pub use errors::Error;
pub use media::{PremiereMedia, PremiereMedium, Size};
pub use reader::PremiereReader;
pub use sequence::{Cut, PremiereSequence};
pub use timeline::{Timeline, TimelineItem};

//! Routing core of an audio patch bay: which capture streams feed which
//! playback streams, which links are muted, and the small rules around them.

pub mod persistence;
pub mod routing;
pub mod text;
pub mod hosts;
pub mod processes;
pub mod aliases;
pub mod devices;

//! Start and end of material for a broadcast video, resolved from the
//! diagnostic lines of a black-scene detector and given as 29.97 fps
//! drop-frame timecode.

pub mod decimal;
pub mod error;
pub mod clock;
pub mod text;
pub mod lookup;
pub mod duration;
pub mod resolver;
pub mod detection;

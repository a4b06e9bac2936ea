//! Run-time core of a 2D side-view action game: skeletal animation playback
//! and loading, sprite-atlas slot assembly with configurable pixel scales,
//! and the fixed draw order of the scene composer.
//!
//! Pixel and scale samples read from text assets are kept as exact fractions
//! (`fixed::Fp`); the embedding I/O layer turns them into floats for drawing.

pub mod anims;
pub mod fixed;
pub mod inicfg;
pub mod render;
pub mod sprites;
pub mod textparse;

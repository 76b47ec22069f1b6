//! Wu's variance-minimising colour quantisation.
//!
//! The crate reduces an arbitrary palette of RGB colours to at most a
//! requested number of representative colours and builds a dense lookup
//! volume mapping every reduced-precision colour coordinate to the index of
//! its representative.  The engine is the classic recursive binary-space
//! partition of the RGB cube: a 3D histogram, an in-place cumulative-moment
//! transform, constant-time box queries by corner inclusion–exclusion, a
//! split search maximising the between-group separation, and a worklist
//! ordered by cube variance.

pub mod agg;
pub mod cube;
pub mod colour;
pub mod entry;
pub mod space;
pub mod split;
pub mod quantise;
pub mod laws;
pub mod util;

pub use colour::{count_distinct, palette_to_rgb, Rgb};
pub use cube::ColourCube;
pub use quantise::{compress, ColourCompression, CompressError};
pub use space::ColourSpace;
pub use util::minmax_ids;

//! A steganographic codec that embeds a text payload into the blue channel
//! of an RGBA pixel grid and recovers it again.
//!
//! A payload bit is never planted directly: it is materialized as the
//! arithmetic difference between the blue samples of two horizontally
//! adjacent pixels. The encoder walks the grid two columns at a time,
//! wrapping to the next row when fewer than two columns remain, and embeds
//! each character least-significant bit first. The decoder scans the same
//! traversal, accumulates eight differential bits per candidate byte,
//! corrects the bit order, and stops at a heuristic noise threshold.

mod grid;
mod parser;
mod algorithm;
mod llbe;
mod laws;

pub use grid::PixelGrid;
pub use parser::{Configuration, Mode};
pub use algorithm::{Algorithm, CapacityError, Decoder, Encoder, get_decoder, get_encoder};
pub use llbe::LLBE;

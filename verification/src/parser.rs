//! The configuration a caller hands to the codec: which image to work on,
//! the payload text, and whether to encode or decode.

use vstd::prelude::*;
use crate::algorithm::Algorithm;

verus! {

/// Whether a run embeds a payload or recovers one.
pub enum Mode {
    ENCODING,
    DECODING,
}

/// Everything one encode or decode run needs to know.
pub struct Configuration {
    pub image_path: String,
    pub mode: Mode,
    pub text_to_encrypt: String,
    pub algorithm: Algorithm,
}

} // verus!

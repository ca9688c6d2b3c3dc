//! The closed set of embedding schemes, the capability interfaces they
//! offer, and the dispatch from a configuration to a concrete codec.

use vstd::prelude::*;
use crate::grid::PixelGrid;
use crate::llbe::LLBE;
use crate::parser::Configuration;

verus! {

/// The embedding schemes this library knows.
pub enum Algorithm {
    LLBE,
}

impl Clone for Algorithm {
    fn clone(&self) -> (r: Self)
        ensures r == *self,
    {
        match self {
            Algorithm::LLBE => Algorithm::LLBE,
        }
    }
}

impl Copy for Algorithm {

}

impl Algorithm {
    /// The names of all schemes, for a caller that offers a choice.
    pub fn get_all() -> (r: &'static [&'static str])
        ensures
            r@.len() == 1,
            r@[0]@ == "LLBE"@,
    {
        &["LLBE"]
    }
}

/// The payload asks for more bit slots than the carrier grid offers.
#[derive(Clone, Copy, Debug, PartialEq, Eq, Structural)]
pub struct CapacityError {
    pub needed_bits: u128,
    pub available_bits: u128,
}

/// A codec that can embed its configured payload into its carrier.
pub trait Encoder: Sized {
    /// The state an encoder must be in before it can run.
    spec fn encode_ready(&self) -> bool;

    /// Whether the configured payload fits the carrier.
    spec fn fits(&self) -> bool;

    /// What a successful embed leaves behind.
    spec fn encode_post(pre: Self, post: Self) -> bool;

    /// What a refused embed leaves behind.
    spec fn encode_frame(pre: Self, post: Self) -> bool;

    /// Embeds the configured payload, or reports that it does not fit.
    fn encode(&mut self) -> (r: Result<(), CapacityError>)
        requires
            old(self).encode_ready(),
        ensures
            r is Ok <==> old(self).fits(),
            r is Ok ==> Self::encode_post(*old(self), *final(self)),
            r is Err ==> Self::encode_frame(*old(self), *final(self)),
    ;
}

/// A codec that can recover a payload from its carrier.
pub trait Decoder: Sized {
    /// The state a decoder must be in before it can run.
    spec fn decode_ready(&self) -> bool;

    /// The exact character sequence the scan recovers.
    spec fn decoded(&self) -> Seq<char>;

    /// Decoding only reads: what it must leave untouched.
    spec fn decode_frame(pre: Self, post: Self) -> bool;

    /// Recovers the embedded payload as text.
    fn decode(&mut self) -> (r: String)
        requires
            old(self).decode_ready(),
        ensures
            r@ == old(self).decoded(),
            Self::decode_frame(*old(self), *final(self)),
    ;
}

/// Picks the codec a configuration asks for, over the given carrier grid.
pub fn get_encoder(config: Configuration, grid: PixelGrid) -> (r: LLBE)
    ensures
        r.config == config,
        r.grid == grid,
        r.col == 0,
        r.row == 0,
        r.temp_bit_val == 0,
{
    match config.algorithm {
        Algorithm::LLBE => LLBE::new(config, grid),
    }
}

/// Picks the decoder a configuration asks for, over the given carrier grid.
pub fn get_decoder(config: Configuration, grid: PixelGrid) -> (r: LLBE)
    ensures
        r.config == config,
        r.grid == grid,
        r.col == 0,
        r.row == 0,
        r.temp_bit_val == 0,
{
    match config.algorithm {
        Algorithm::LLBE => LLBE::new(config, grid),
    }
}

} // verus!

//! Data-segment bitstream construction for a single QR Code symbol.
//!
//! The library classifies a byte payload into the narrowest capable
//! encoding mode, packs the payload into (value, width) packets under the
//! mode's grouping rules, and flattens mode indicator, character-count
//! indicator and packets into one MSB-first bit accumulator.

pub mod bitstring;
pub mod encoder;
pub mod qr_spec;

//! Encoding of byte payloads into sequences of coloured raster frames and back.
//!
//! Every data byte is spread over pixels drawn from a small colour palette and
//! every 128-byte block carries a Reed-Solomon suffix, so that a payload survives
//! a lossy video codec. The crate holds the codec itself: bit packing, palette
//! snapping, block framing, the metadata header and the plans that drive the
//! encode and decode pipelines. Reading files, rendering images and talking to a
//! video muxer are left to the caller.

pub mod common;
pub mod bits;
pub mod palette;
pub mod crc;
pub mod block;
pub mod raster;
pub mod frame;
pub mod error;
pub mod metadata;
pub mod layout;
pub mod encode;
pub mod decode;
pub mod roundtrip;

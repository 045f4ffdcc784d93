//! Reading and writing the NVRAM images that PinMAME keeps for each pinball ROM.
//!
//! The library works on the bytes of an image held in memory: decoding and
//! encoding of the value encodings used by the NVRAM maps, the 8- and 16-bit
//! checksums that guard regions of the image, and the dip switch bits that
//! PinMAME appends at its end.
pub mod text;


pub mod error;
pub mod json;
pub mod model;
pub mod image;
pub mod nibble;
pub mod scale;
pub mod encoding;
pub mod ch;
pub mod checksum;
pub mod dips;
pub mod nvram;
pub mod resolve;
pub mod compressed;
pub mod index;

//! Codecs for two binary raster formats used by a map toolchain — a
//! run-length-encoded 8-bit layer format (`.grle`) and a chunked bit-packed
//! density-map format (`.gdm`) — together with the helpers that map raster
//! values to and from plain image buffers and that discover channel layouts
//! from a scene-description document.

pub mod cursor;
pub mod errors;
pub mod gdm;
pub mod gdm_block;
pub mod grle;
pub mod guide;
pub mod pixel;
pub mod resolver;
pub mod rle;
pub mod textscan;

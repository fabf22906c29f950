//! Removal of the visible Gemini watermark by reverse alpha blending, with
//! normalized cross-correlation to report how confidently the watermark was found.
//!
//! Everything here computes on plain pixel buffers; reading and writing image
//! files is left to the caller.

mod bignum;
pub mod alpha_map;
pub mod batch;
pub mod blend_modes;
pub mod ncc;
pub mod paths;
pub mod raster;
pub mod watermark;

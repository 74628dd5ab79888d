//! Reverse image search over Haar wavelet signatures.
//!
//! The library computes an image's signature (YIQ conversion, a
//! two-dimensional Haar transform, the forty strongest coefficients per
//! channel), encodes it for the catalog, and keeps the inverted index that
//! ranks indexed images against a query signature.

pub mod imglib;
pub mod signature;
pub mod imgdb;
pub mod codec;
pub mod catalog;
pub mod iqdb;
pub mod theorems;
pub mod haar;
pub mod topk;
pub mod raster;

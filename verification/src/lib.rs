//! Portable raster core: frames, caches, mask bookkeeping and the
//! deterministic integer algorithms shared by the CLI and GUI front ends.
pub mod byte_total;
pub mod cache;
pub mod codec;
pub mod crop_max_rect;
pub mod denoise;
pub mod flood;
pub mod frame;
pub mod generative;
pub mod histogram;
pub mod raster;
pub mod text;
pub mod hashing;
pub mod mask_tiles;
pub mod mask_alignment;
pub mod mask_graph;
pub mod mask_loader;
pub mod masks;
pub mod memory;
pub mod pipeline;
pub mod preview_cache;

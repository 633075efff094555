//! A voxel ray tracer's integer core: colour packing, the frame buffer,
//! tiled work distribution with its determinism law, texture addressing and
//! the texture store, the block-kind table, and the recursion plan of the
//! light transport.

pub mod block_types;
pub mod color;
pub mod framebuffer;
pub mod texture;
pub mod tiles;
pub mod transport;

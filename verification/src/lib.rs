//! Reading Minecraft "Anvil" region files and the NBT (Named Binary Tag)
//! documents embedded in them, with verified contracts for the codec, the
//! bit-packed block-state decoder and the region framing.

pub mod anvil;
pub mod chunk_format;
pub mod de;
pub mod distribution;
pub mod mutf8;
pub mod nbt;
pub mod ser;
pub mod unpack;

pub use anvil::parse_chunk_at;
pub use anvil::parse_region;
pub use chunk_format::Chunk;

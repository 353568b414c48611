//! Authoritative world storage for a multiplayer voxel server: chunks and
//! their run-length codec, chunk columns, the sparse column map with
//! on-demand generation, the save format and the wire packets.

pub mod bytes;
pub mod chunk;
pub mod chunk_column;
pub mod coords;
pub mod generation;
pub mod items;
pub mod packets;
pub mod save_file;
pub mod save_format;
pub mod vector_types;
pub mod world;

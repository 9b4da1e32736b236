//! Decoder for LERC2 raster tiles.
pub mod binary64;
pub mod bit_stuffer;
pub mod blob;
pub mod bytes;
pub mod checksum;
pub mod data_type;
pub mod decoder;
pub mod encode;
pub mod encode_blob;
pub mod encode_block;
pub mod encode_fill;
pub mod encode_mask;
pub mod encode_stream;
pub mod encode_tile;
pub mod error;
pub mod fill;
pub mod header;
pub mod laws;
pub mod lerc_reader;
pub mod mask;
pub mod mirror;
pub mod numbers;
pub mod raster;
pub mod reader;
pub mod rounding;
pub mod sample;
pub mod tile;
pub mod tiles;
pub mod trailing;
pub mod wrapper;

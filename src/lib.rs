//! A DEFLATE (RFC 1951) decoder and stored-block encoder, and a gzip (RFC 1952)
//! decoder, over byte vectors.
pub mod arith;
pub mod bit_io;
pub mod deflate;
pub mod error;
pub mod gzip;
pub mod huffman;
pub mod lzss;
pub mod out_with_checksum;

pub use bit_io::{BitReader, BitWriter};
pub use deflate::{DeflateDecoder, DeflateEncoder};
pub use error::DecodeError;
pub use gzip::GzipDecoder;
pub use huffman::{DistanceEncoding, HuffmanTree};
pub use lzss::Symbol;
pub use out_with_checksum::OutWithChecksum;

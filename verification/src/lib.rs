//! A small DEFLATE toolkit: bit-stream readers, fixed and dynamic Huffman
//! decoding, fixed Huffman encoding of literals, lengths and distances, and
//! LZ77-style compressors that emit fixed-Huffman blocks.
use vstd::prelude::*;

pub mod bits;
pub mod fixed;
pub mod encode;
pub mod codec;
pub mod dynamic;
pub mod inflate;
pub mod block;
pub mod huffman_new;
pub mod huffman;
pub mod hashmap_lz77;
pub mod text_lz77;
pub mod zip;
pub mod compare;
pub mod checked;

verus! {

/// The order in which the code-length code lengths of a dynamic block are stored.
pub const CODE_LENGTH_ORDER: [u16; 19] = [16, 17, 18, 0, 8, 7, 9, 6, 10, 5, 11, 4, 12, 3, 13, 2, 14, 1, 15];

/// The smallest length that each count of extra length bits (0 to 5) can give; 258 closes the table.
pub const LENGTH_STARTING: [u16; 7] = [3, 11, 19, 35, 67, 131, 258];

/// The smallest distance that each count of extra distance bits (0 to 13) can give.
pub const DISTANCE_CODES: [u16; 14] = [0, 5, 9, 17, 33, 65, 129, 257, 513, 1025, 2049, 4097, 8193, 16385];

/// The length codes that are followed by 0, 1, ... 5 extra bits.
pub const BITS_TO_READ: [(u16, u16); 6] = [(257, 264), (265, 268), (269, 272), (273, 276), (277, 280), (281, 284)];

/// A fixed-Huffman distance code is five bits long.
pub const DISTANCE_BITS: usize = 5;

/// The ranges of 7-, 8-, 8- and 9-bit codes of the fixed literal/length code.
pub const CHARACTER_BOUNDS: [(u16, u16); 4] = [(0, 23), (48, 191), (192, 199), (400, 511)];

/// One decoded symbol: a literal byte (256 ends the block) or a (length, distance) pair.
#[derive(Debug)]
pub enum AsciiNum {
    Ascii(u16),
    LenDist((u16, u16)),
}

} // verus!

//! Recovery of page data from raw NAND flash dumps: block layouts, erased and
//! bad block detection, and single-bit error correction of page data.

pub mod bits;
pub mod decode;
pub mod block;
pub mod ecc;
pub mod extract;
pub mod laws;
pub mod locate;

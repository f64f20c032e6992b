//! A game piece: four binary properties packed into an integer.

use vstd::prelude::*;
use crate::djb2::DJB2Hasher;
use crate::hashset::{le_bytes_u32, write_u32, SetItem};

verus! {

/// A piece, identified by the bits of `properties`.
#[derive(Debug, Clone, Copy, PartialEq, Eq, Structural)]
pub struct Piece {
    pub properties: u32,
}

impl SetItem for Piece {
    /// A piece hashes as its property bits.
    open spec fn bytes_of(&self) -> Seq<u8> {
        le_bytes_u32(self.properties)
    }

    fn same_item(&self, other: &Piece) -> (r: bool) {
        self.properties == other.properties
    }

    fn hash_into(&self, hasher: &mut DJB2Hasher) {
        write_u32(hasher, self.properties);
    }
}

} // verus!

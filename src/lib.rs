//! An open-addressing hash set whose every allocation can fail visibly,
//! built on a fallible growable sequence and a DJB2 byte hash.

pub mod djb2;
pub mod hashset;
pub mod laws;
pub mod piece;
pub mod vec_extra;

pub use djb2::DJB2Hasher;
pub use vec_extra::{AllocError, VecExtra};
pub use hashset::{HashSet, HashSetIter, SetItem, Slot};
pub use piece::Piece;

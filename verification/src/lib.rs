//! Verified core of a flattened device tree (DTB) library: the `reg`
//! property decoder, the string block used while serialising, and the
//! layout of the blob header.

pub mod common;
pub mod de_mut;
pub mod ser;

pub use de_mut::reg::{Reg, RegConfig, RegIter, RegRegion};
pub use ser::string_block::StringBlock;
pub use ser::Error;

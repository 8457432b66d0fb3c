//! Guest side of a narrow host boundary: a block allocator that can describe
//! its own blocks with a big-endian size header, a channel that moves UTF-8
//! text through those blocks, and the failures a guest call can end in.

pub mod allocator;
pub mod channel;
pub mod failure;
pub mod greet;
pub mod header;
pub mod memory;

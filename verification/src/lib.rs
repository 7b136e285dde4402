//! Bounded circular buffers and the queue built on them.
//!
//! A [`util::buffer::Buffer`] is a power-of-two array of slots, each holding a
//! stamp (an index that packs a lap and an offset) and possibly a value.
//! [`util::mp::mc::bounded::Queue`] is a bounded first-in first-out queue that
//! runs the stamp protocol over such a buffer.

pub mod server;
pub mod util;

use crate::util::buffer::Buffer;
use vstd::prelude::*;

verus! {

/// The value type that the shards of a sharded buffer hold.
pub struct Inner();

/// A buffer split into shards.
pub struct SharededBuffer {
    shards: Vec<Buffer<Inner>>,
}

} // verus!

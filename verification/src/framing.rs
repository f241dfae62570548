//! Framing: when a message that arrives in chunks is taken to be complete.
//!
//! A reader fills a buffer of fixed capacity again and again and appends what
//! each read brought. A read that leaves the buffer short of full ends the
//! message; that includes the empty read of a closed stream. The rule knows
//! nothing of `Content-Length` or chunked encoding: a message whose last read
//! happens to fill the buffer is read on, and a peer that sends full buffers
//! for ever is read for ever.

use vstd::prelude::*;

verus! {

/// The number of bytes that one read asks for.
pub const CHUNK_CAPACITY: usize = 2048;

/// Whether a read that brought `n` bytes ends the message.
pub open spec fn ends_message(n: nat) -> bool {
    n < CHUNK_CAPACITY
}

/// Whether `chunks` is what the reads of one message bring: full reads only,
/// then one short read.
pub open spec fn framed(chunks: Seq<Seq<u8>>) -> bool {
    &&& chunks.len() > 0
    &&& ends_message(chunks.last().len())
    &&& forall|i: int| 0 <= i < chunks.len() - 1 ==> !ends_message(#[trigger] chunks[i].len())
}

/// The message that `chunks` carry: their bytes, end to end.
pub open spec fn joined(chunks: Seq<Seq<u8>>) -> Seq<u8>
    decreases chunks.len(),
{
    if chunks.len() == 0 {
        Seq::empty()
    } else {
        chunks[0] + joined(chunks.drop_first())
    }
}

/// Appends `chunk` to `received` and tells whether the message is complete.
pub fn absorb(received: &mut Vec<u8>, chunk: &[u8]) -> (complete: bool)
    ensures
        final(received)@ == old(received)@ + chunk@,
        complete == ends_message(chunk@.len()),
{
    received.extend_from_slice(chunk);
    chunk.len() < CHUNK_CAPACITY
}

} // verus!

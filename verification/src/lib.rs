//! A fixed-capacity circular (ring) byte buffer.
//!
//! A [`Buffer`] accepts an unbounded stream of byte writes while retaining
//! only the most recently written `capacity` bytes, and can hand the retained
//! bytes back in chronological order.  Every operation is specified against a
//! mathematical model: the buffer's view (`@`) is the sequence of bytes it
//! currently retains, oldest first.

mod laws;
mod ring;

pub use laws::lemma_capacity_invariant;
pub use laws::lemma_overwrite;
pub use laws::lemma_read_idempotent;
pub use laws::lemma_reset_law;
pub use laws::lemma_retention;
pub use laws::lemma_tail_compose;
pub use ring::seq_tail;
pub use ring::Buffer;

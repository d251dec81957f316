//! A small message broker core: a self-describing length-prefixed binary
//! codec, the two message envelopes built on it, a ring of byte arenas that
//! stores serialised messages, and a queue that defers messages until their
//! availability time.
use vstd::prelude::*;

pub mod encoding;
pub mod serialiser;
pub mod normalised_message;
pub mod memory_storage;
pub mod page_io;
pub mod queue;
pub mod reply;
pub mod tcp_parse;

pub use crate::encoding::MmqpEncoding;
pub use crate::memory_storage::{ReadBuffer, RotatingReadBuffers};
pub use crate::normalised_message::{MmqpNormalisedMessage, Receivable};
pub use crate::page_io::Paged;
pub use crate::queue::{PendingMode, Queue};
pub use crate::serialiser::{MmqpMessage, MmqpSerialisable, SerialisationStrategy};
pub use crate::tcp_parse::{parse_tcp_request, MmqpTcpFormat};

verus! {

/// Failures of the codec and of the envelope decoders.
#[derive(Debug, Clone, Copy, PartialEq, Eq, Structural)]
pub enum MmqpError {
    /// A value is too large to be length-prefixed.
    EncodingTooLarge,
    /// The bytes are not a valid encoding (bad count byte, bad marker, bad UTF-8).
    InvalidEncoding,
    /// The buffer ends before a decode step is complete.
    TruncatedMessage,
}

} // verus!

//! The failures that the library reports.

use vstd::prelude::*;

verus! {

/// Why an operation failed.
#[derive(Clone, Copy, Debug, PartialEq, Eq, Structural)]
pub enum Error {
    /// A packet is shorter than its header.
    ErrPacketRawTooSmall,
    /// A packet's checksum does not match its bytes.
    ErrChecksumMismatch,
    /// What follows a chunk is shorter than a chunk header.
    ErrChunkHeaderTooSmall,
    /// A chunk's length field is smaller than the header or larger than what is left.
    ErrChunkHeaderInvalidLength,
    /// A chunk's value does not have the form that its type asks for.
    ErrChunkMalformed,
    /// A chunk's value is longer than a chunk can say.
    ErrChunkTooLong,
    /// A parameter is shorter than its header, or than the length it states.
    ErrParamHeaderTooShort,
    /// A parameter's value is longer than a parameter can say.
    ErrParamTooLong,
    /// The stream does not exist.
    ErrStreamClosed,
    /// The association is not established, or shutting down.
    ErrNotEstablished,
    /// The message is larger than the configured maximum.
    ErrOutboundPacketTooLarge,
    /// The stream was opened before.
    ErrStreamAlreadyExist,
    /// The caller's buffer is smaller than the message, which stays readable.
    ErrShortBuffer,
    /// No whole message is waiting on the stream.
    ErrTryAgain,
    /// The handshake was tried as often as allowed without an answer.
    ErrHandshakeTimeout,
    /// The peer aborted the association.
    ErrAborted,
}

} // verus!

//! A verified core for GMW-style boolean secret sharing: XOR secret
//! sharing over duplex channels, a batched circuit-evaluation protocol,
//! typed secure values (booleans, unsigned and signed integers), and the
//! bit-level arithmetic circuits they are built from.

pub mod api;
pub mod arith;
pub mod bits;
pub mod bitseq;
pub mod boolean;
pub mod channel;
pub mod cluster;
pub mod eval;
pub mod integer;
pub mod natural;
pub mod prg;
pub mod protocol;
pub mod sec;
pub mod sharing;

use vstd::prelude::*;

verus! {

/// The failures a protocol round can surface; any of them invalidates the
/// round in flight.
#[derive(Clone, Copy, Debug, PartialEq, Eq, Structural)]
pub enum Error {
    /// A malformed or truncated wire-format sequence.
    FormatError,
    /// Channel input or output failed, for instance on a short read.
    ChannelError,
    /// Operands of unequal bit-width were given to a binary operation.
    WidthMismatch,
    /// The evaluation engine failed internally.
    BackendError,
    /// A wire handle was used with a session that has moved past it.
    ProtocolMisuse,
}

} // verus!

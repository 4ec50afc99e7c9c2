use vstd::prelude::*;

verus! {

/// The ways a bit-level operation can fail.
///
/// Every failure is surfaced as an ordinary result; no operation aborts
/// the process.
#[derive(Clone, Copy, Debug, PartialEq, Eq, Structural)]
pub enum BitError {
    /// The byte source had no more data when a refill needed a byte.
    /// Expected and recoverable: repeated calls after exhaustion keep
    /// returning this same error.
    EndOfStream,
    /// The underlying source or sink reported a fault distinct from clean
    /// exhaustion.  Propagated unchanged; this layer does not retry.
    TransportFailure,
    /// A requested field width was 0 or at least the supported limit, or a
    /// value did not fit the requested width.  Rejected without touching
    /// any state.
    InvalidArgument,
}

} // verus!

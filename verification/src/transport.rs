//! The two boundary capabilities the core consumes: a byte source and a
//! byte sink.
//!
//! How bytes are physically obtained or delivered is outside this layer;
//! a source or sink only has to keep the contracts below, which tie each
//! call to the bytes the implementation models itself as holding.

use vstd::prelude::*;

verus! {

/// A supplier of bytes, one at a time, from some underlying medium.
///
/// `remaining()` is the implementation's own model of the bytes still to
/// be delivered.  A source that has run clean out of data must keep
/// reporting that end deterministically; a fault distinct from clean
/// exhaustion may only be reported while data remains, and leaves the
/// remaining bytes as they were.
pub trait ByteSource: Sized {
    /// The implementation's well-formedness condition.
    spec fn inv(&self) -> bool;

    /// The bytes still to be delivered, in delivery order.
    spec fn remaining(&self) -> Seq<u8>;

    /// Whether this source can ever report a transport fault.  An
    /// implementation that models an infallible medium says `false` here,
    /// and its callers then know no call of theirs can fail.
    spec fn may_fail(&self) -> bool;

    /// Attempt to read the next byte.  `Ok(Some(b))` delivers the next
    /// remaining byte, `Ok(None)` reports clean end of data, and `Err`
    /// reports a transport fault — which only a source that `may_fail()`
    /// may do.
    fn attempt_read(&mut self) -> (r: Result<Option<u8>, ()>)
        requires
            old(self).inv(),
        ensures
            final(self).inv(),
            final(self).may_fail() == old(self).may_fail(),
            r is Err ==> old(self).may_fail(),
            match r {
                Ok(Some(b)) => old(self).remaining().len() > 0 && b == old(self).remaining()[0]
                    && final(self).remaining() == old(self).remaining().drop_first(),
                Ok(None) => old(self).remaining().len() == 0 && final(self).remaining() == old(
                    self,
                ).remaining(),
                Err(_) => old(self).remaining().len() > 0 && final(self).remaining() == old(
                    self,
                ).remaining(),
            },
    ;
}

/// A consumer of bytes bound for some underlying medium.
///
/// `written()` is the implementation's own model of everything delivered
/// so far.  A successful call appends the given bytes in order; a failed
/// call delivers nothing.
pub trait ByteSink: Sized {
    /// The implementation's well-formedness condition.
    spec fn inv(&self) -> bool;

    /// Everything delivered so far, in delivery order.
    spec fn written(&self) -> Seq<u8>;

    /// Whether this sink can ever report a transport fault.  An
    /// implementation that models an infallible medium says `false` here,
    /// and its callers then know no call of theirs can fail.
    spec fn may_fail(&self) -> bool;

    /// Deliver all of `bytes`, or report a transport fault having
    /// delivered none of them — which only a sink that `may_fail()` may
    /// do.
    fn write_all(&mut self, bytes: &Vec<u8>) -> (r: Result<(), ()>)
        requires
            old(self).inv(),
        ensures
            final(self).inv(),
            final(self).may_fail() == old(self).may_fail(),
            r is Err ==> old(self).may_fail(),
            match r {
                Ok(()) => final(self).written() == old(self).written() + bytes@,
                Err(_) => final(self).written() == old(self).written(),
            },
    ;
}

} // verus!

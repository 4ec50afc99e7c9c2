//! In-memory transports: a source over an owned byte buffer and a sink
//! into one.  These are the library's own, fully verified capability
//! implementations; they also let a session be driven from and into plain
//! `Vec<u8>` values.

use vstd::prelude::*;
use crate::transport::ByteSink;
use crate::transport::ByteSource;

verus! {

/// A byte source that delivers the contents of an owned buffer, front to
/// back, and then reports clean end of data forever.  It never reports a
/// transport fault.
pub struct MemSource {
    data: Vec<u8>,
    pos: usize,
}

impl MemSource {
    /// Wrap a buffer as a source; every byte of it is still to be
    /// delivered.
    pub fn new(data: Vec<u8>) -> (s: MemSource)
        ensures
            s.inv(),
            s.remaining() == data@,
    {
        MemSource { data, pos: 0 }
    }
}

impl ByteSource for MemSource {
    closed spec fn inv(&self) -> bool {
        self.pos <= self.data.len()
    }

    closed spec fn remaining(&self) -> Seq<u8> {
        self.data@.skip(self.pos as int)
    }

    /// An owned buffer cannot fault.
    open spec fn may_fail(&self) -> bool {
        false
    }

    fn attempt_read(&mut self) -> (r: Result<Option<u8>, ()>)
        ensures
            r is Ok,
    {
        if self.pos < self.data.len() {
            let b = self.data[self.pos];
            self.pos = self.pos + 1;
            proof {
                assert(self.remaining() =~= old(self).remaining().drop_first());
            }
            Ok(Some(b))
        } else {
            Ok(None)
        }
    }
}

/// A byte sink that appends everything delivered to an owned buffer.  It
/// never reports a transport fault.
pub struct MemSink {
    data: Vec<u8>,
}

impl MemSink {
    /// An empty sink: nothing delivered yet.
    pub fn new() -> (s: MemSink)
        ensures
            s.inv(),
            s.written() == Seq::<u8>::empty(),
    {
        MemSink { data: Vec::new() }
    }

    /// The bytes delivered so far, surrendered as a plain buffer.
    pub fn into_vec(self) -> (v: Vec<u8>)
        ensures
            v@ == self.written(),
    {
        self.data
    }

    /// The bytes delivered so far.
    pub fn as_vec(&self) -> (v: &Vec<u8>)
        ensures
            v@ == self.written(),
    {
        &self.data
    }
}

impl ByteSink for MemSink {
    closed spec fn inv(&self) -> bool {
        true
    }

    closed spec fn written(&self) -> Seq<u8> {
        self.data@
    }

    /// An owned buffer cannot fault.
    open spec fn may_fail(&self) -> bool {
        false
    }

    fn write_all(&mut self, bytes: &Vec<u8>) -> (r: Result<(), ()>)
        ensures
            r is Ok,
    {
        let mut i: usize = 0;
        proof {
            assert(self.data@ =~= self.data@ + bytes@.take(0));
        }
        while i < bytes.len()
            invariant
                i <= bytes.len(),
                self.data@ == old(self).data@ + bytes@.take(i as int),
            decreases bytes.len() - i,
        {
            self.data.push(bytes[i]);
            i = i + 1;
            proof {
                assert(old(self).data@ + bytes@.take(i - 1) + seq![bytes@[i - 1]] =~= old(
                    self,
                ).data@ + bytes@.take(i as int));
            }
        }
        proof {
            assert(bytes@.take(bytes@.len() as int) =~= bytes@);
        }
        Ok(())
    }
}

} // verus!

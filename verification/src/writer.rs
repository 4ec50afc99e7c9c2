//! The write side: a bit accumulator over a byte sink.
//!
//! `BitWriter` owns a byte sink and a 64-bit accumulator register.  Bits
//! enter the register at the current fill position `end`; whenever a full
//! byte has accumulated it is drained to the sink at once, shifting the
//! register down, so the emitted offset never has to be tracked past
//! zero.  A final `flush` pads the leftover bits with zeros and emits the
//! last partial byte.

use vstd::prelude::*;
use crate::bits::bits_of;
use crate::bits::byte_bits;
use crate::bits::bytes_bits;
use crate::bits::fits_width;
use crate::bits::lemma_bytes_bits_concat;
use crate::bits::lemma_bytes_bits_len;
use crate::bits::lemma_bytes_bits_singleton;
use crate::bits::pad_len;
use crate::bits::u64_bit;
use crate::bits::valid_width;
use crate::bits::zeros;
use crate::bits::FIELD_WIDTH_LIMIT;
use crate::error::BitError;
use crate::transport::ByteSink;

verus! {

/// A wrapping writer that packs bits and hands whole bytes to a
/// byte-oriented sink.
///
/// The view of a writer is `bits_written()`: every bit entrusted to it
/// and not lost, in order — the bits of every byte already delivered to
/// the sink, then the bits still pending in the register.
///
/// Call `flush` before giving the writer up, on every exit path: bits
/// still pending in the register are otherwise lost with it.
pub struct BitWriter<S: ByteSink> {
    buf: u64,
    sink: S,
    end: usize,
}

impl<S: ByteSink> BitWriter<S> {
    /// Well-formedness: the fill position leaves room for one more
    /// field, and no stale bits sit at or above it.
    pub closed spec fn wf(&self) -> bool {
        &&& self.sink.inv()
        &&& self.end <= 63
        &&& self.buf >> (self.end as u64) == 0u64
    }

    /// The bits staged in the register, not yet delivered to the sink.
    pub closed spec fn pending(&self) -> Seq<bool> {
        Seq::new(self.end as nat, |i: int| u64_bit(self.buf, i))
    }

    /// The bytes the sink has accepted so far.
    pub closed spec fn written(&self) -> Seq<u8> {
        self.sink.written()
    }

    /// Every bit entrusted to this writer and not lost, in order.
    pub open spec fn bits_written(&self) -> Seq<bool> {
        bytes_bits(self.written()) + self.pending()
    }

    /// Whether the underlying sink can ever report a transport fault.
    /// Over an infallible sink (such as `MemSink`) this is false, and
    /// `TransportFailure` is then impossible on every operation.
    pub closed spec fn sink_may_fail(&self) -> bool {
        self.sink.may_fail()
    }

    /// Creates a new `BitWriter` over a byte sink, with an empty
    /// accumulator: nothing pending.
    pub fn new(sink: S) -> (writer: BitWriter<S>)
        requires
            sink.inv(),
        ensures
            writer.wf(),
            writer.pending() == Seq::<bool>::empty(),
            writer.written() == sink.written(),
            writer.sink_may_fail() == sink.may_fail(),
    {
        let writer = BitWriter { buf: 0u64, sink, end: 0usize };
        proof {
            assert(0u64 >> 0u64 == 0u64) by (bit_vector);
            assert(writer.pending() =~= Seq::<bool>::empty());
        }
        writer
    }

    /// A look at the sink without giving it up.
    pub fn sink_ref(&self) -> (sink: &S)
        ensures
            sink.written() == self.written(),
            sink.may_fail() == self.sink_may_fail(),
            self.wf() ==> sink.inv(),
    {
        &self.sink
    }

    /// The sink, surrendered; everything ever drained is in it.
    pub fn into_sink(self) -> (sink: S)
        ensures
            sink.written() == self.written(),
            sink.may_fail() == self.sink_may_fail(),
            self.wf() ==> sink.inv(),
    {
        self.sink
    }

    /// Drain: emit complete bytes to the sink while at least eight bits
    /// are staged.  No bit is ever lost: bits either move to the sink or
    /// stay staged, so `bits_written()` is unchanged even when the sink
    /// fails partway.
    fn drain(&mut self) -> (r: Result<(), BitError>)
        requires
            old(self).wf(),
        ensures
            final(self).wf(),
            final(self).bits_written() == old(self).bits_written(),
            final(self).sink_may_fail() == old(self).sink_may_fail(),
            old(self).pending().len() < 8 ==> (r matches Ok(())) && *final(self) == *old(self),
            !old(self).sink_may_fail() ==> (r matches Ok(())),
            match r {
                Ok(()) => final(self).pending().len() < 8,
                Err(BitError::TransportFailure) => old(self).sink_may_fail(),
                Err(BitError::EndOfStream) => false,
                Err(BitError::InvalidArgument) => false,
            },
    {
        while self.end >= 8
            invariant
                self.sink.inv(),
                self.end <= 63,
                self.buf >> (self.end as u64) == 0u64,
                self.bits_written() == old(self).bits_written(),
                self.sink.may_fail() == old(self).sink.may_fail(),
                old(self).end < 8 ==> *self == *old(self),
            decreases self.end,
        {
            let byte: u8 = (self.buf & 0xffu64) as u8;
            let ghost pre = *self;
            let mut one: Vec<u8> = Vec::new();
            one.push(byte);
            match self.sink.write_all(&one) {
                Ok(()) => {
                    self.buf = self.buf >> 8u64;
                    self.end = self.end - 8;
                    proof {
                        let b = pre.buf;
                        let e = pre.end as u64;
                        assert forall|i: int| 0 <= i < 8 implies byte_bits(byte)[i]
                            == pre.pending()[i] by {
                            let j = i as u64;
                            assert((((b & 0xffu64) as u8) as u64 >> j) & 1u64 == (b >> j) & 1u64)
                                by (bit_vector)
                                requires
                                    j < 8u64,
                            ;
                        }
                        assert(byte_bits(byte) =~= pre.pending().take(8));
                        assert forall|i: int| 0 <= i < self.end implies self.pending()[i]
                            == pre.pending().skip(8)[i] by {
                            let j = i as u64;
                            assert(((b >> 8u64) >> j) & 1u64 == (b >> ((j + 8) as u64)) & 1u64)
                                by (bit_vector)
                                requires
                                    j < 56u64,
                            ;
                            assert((j + 8) as u64 == (i + 8) as u64);
                        }
                        assert(self.pending() =~= pre.pending().skip(8));
                        assert(b >> e == 0u64 && 8u64 <= e <= 63u64 ==> (b >> 8u64) >> ((e
                            - 8) as u64) == 0u64) by (bit_vector);
                        assert(one@ =~= seq![byte]);
                        lemma_bytes_bits_concat(pre.written(), seq![byte]);
                        lemma_bytes_bits_singleton(byte);
                        assert(self.bits_written() =~= pre.bits_written());
                    }
                },
                Err(_) => {
                    return Err(BitError::TransportFailure);
                },
            }
        }
        Ok(())
    }

    /// Writes a bit-field of `bit_count` bits of `value`, low-order bit
    /// first.
    ///
    /// A width of 0 or of `FIELD_WIDTH_LIMIT` or more, or a value that
    /// does not fit the width, is rejected as `InvalidArgument` without
    /// touching any state.  On success the field's bits are appended to
    /// `bits_written()` and every complete byte has been drained.  On a
    /// sink fault the field is either fully staged or not taken at all —
    /// never truncated — and when the register had room (as it always
    /// does after a successful call) it is fully staged.
    pub fn write_bits(&mut self, value: u32, bit_count: usize) -> (r: Result<(), BitError>)
        requires
            old(self).wf(),
        ensures
            final(self).wf(),
            final(self).sink_may_fail() == old(self).sink_may_fail(),
            valid_width(bit_count as nat) && fits_width(value as nat, bit_count as nat) && old(
                self,
            ).pending().len() + bit_count < 8 ==> (r matches Ok(())),
            valid_width(bit_count as nat) && fits_width(value as nat, bit_count as nat) && !old(
                self,
            ).sink_may_fail() ==> (r matches Ok(())),
            r == Result::<(), BitError>::Err(BitError::InvalidArgument) <==> !(valid_width(
                bit_count as nat,
            ) && fits_width(value as nat, bit_count as nat)),
            r == Result::<(), BitError>::Err(BitError::InvalidArgument) ==> *final(self) == *old(
                self,
            ),
            r matches Ok(()) ==> final(self).bits_written() == old(self).bits_written() + bits_of(
                value as u64,
                bit_count as nat,
            ) && final(self).pending().len() < 8,
            r == Result::<(), BitError>::Err(BitError::TransportFailure) ==> old(
                self,
            ).sink_may_fail() && (final(self).bits_written() == old(self).bits_written() + bits_of(
                value as u64,
                bit_count as nat,
            ) || final(self).bits_written() == old(self).bits_written()),
            old(self).pending().len() < 8 && r == Result::<(), BitError>::Err(
                BitError::TransportFailure,
            ) ==> final(self).bits_written() == old(self).bits_written() + bits_of(
                value as u64,
                bit_count as nat,
            ),
            r != Result::<(), BitError>::Err(BitError::EndOfStream),
    {
        if bit_count == 0 || bit_count >= FIELD_WIDTH_LIMIT {
            return Err(BitError::InvalidArgument);
        }
        let v64: u64 = value as u64;
        let n64: u64 = bit_count as u64;
        if (v64 >> n64) != 0 {
            proof {
                assert((v64 >> n64) != 0u64 ==> !(v64 < (1u64 << n64))) by (bit_vector)
                    requires
                        0u64 < n64 < 32u64,
                ;
                vstd::bits::lemma_u64_pow2_no_overflow(bit_count as nat);
                vstd::bits::lemma_u64_shl_is_mul(1u64, n64);
            }
            return Err(BitError::InvalidArgument);
        }
        proof {
            assert((v64 >> n64) == 0u64 ==> v64 < (1u64 << n64)) by (bit_vector)
                requires
                    0u64 < n64 < 32u64,
            ;
            vstd::bits::lemma_u64_pow2_no_overflow(bit_count as nat);
            vstd::bits::lemma_u64_shl_is_mul(1u64, n64);
        }
        if self.end + bit_count > 63 {
            match self.drain() {
                Ok(()) => {},
                Err(e) => {
                    return Err(e);
                },
            }
        }
        let ghost pre = *self;
        self.buf = self.buf | (v64 << (self.end as u64));
        self.end = self.end + bit_count;
        proof {
            let b = pre.buf;
            let e = pre.end as u64;
            assert forall|i: int| 0 <= i < self.end implies self.pending()[i] == (pre.pending()
                + bits_of(v64, bit_count as nat))[i] by {
                if i < pre.end {
                    let j = i as u64;
                    assert(((b | (v64 << e)) >> j) & 1u64 == (b >> j) & 1u64) by (bit_vector)
                        requires
                            j < e,
                            e <= 63u64,
                    ;
                } else {
                    let k = (i - pre.end) as u64;
                    assert((pre.end + (i - pre.end)) as u64 == (e + k) as u64);
                    assert(b >> e == 0u64 && e + n64 <= 63u64 && k < n64 ==> ((b | (v64 << e)) >> ((
                    e + k) as u64)) & 1u64 == (v64 >> k) & 1u64) by (bit_vector);
                }
            }
            assert(self.pending() =~= pre.pending() + bits_of(v64, bit_count as nat));
            assert(b >> e == 0u64 && v64 >> n64 == 0u64 && e + n64 <= 63u64 ==> (b | (v64 << e))
                >> ((e + n64) as u64) == 0u64) by (bit_vector);
            assert(self.bits_written() =~= pre.bits_written() + bits_of(v64, bit_count as nat));
            assert(pre.bits_written() == old(self).bits_written());
        }
        match self.drain() {
            Ok(()) => Ok(()),
            Err(e) => Err(e),
        }
    }

    /// Writes a single bit: appends it to the stream.
    pub fn write_bit(&mut self, bit: bool) -> (r: Result<(), BitError>)
        requires
            old(self).wf(),
        ensures
            final(self).wf(),
            final(self).sink_may_fail() == old(self).sink_may_fail(),
            old(self).pending().len() + 1 < 8 ==> (r matches Ok(())),
            !old(self).sink_may_fail() ==> (r matches Ok(())),
            r matches Ok(()) ==> final(self).bits_written() == old(self).bits_written() + seq![bit]
                && final(self).pending().len() < 8,
            r == Result::<(), BitError>::Err(BitError::TransportFailure) ==> old(
                self,
            ).sink_may_fail() && (final(self).bits_written() == old(self).bits_written()
                + seq![bit] || final(self).bits_written() == old(self).bits_written()),
            r != Result::<(), BitError>::Err(BitError::EndOfStream),
            r != Result::<(), BitError>::Err(BitError::InvalidArgument),
    {
        let v: u32 = if bit {
            1
        } else {
            0
        };
        proof {
            vstd::arithmetic::power2::lemma2_to64();
            assert(bits_of(v as u64, 1) =~= seq![bit]) by {
                let w = v as u64;
                assert((w >> 0u64) & 1u64 == w) by (bit_vector)
                    requires
                        w == 0u64 || w == 1u64,
                ;
            }
        }
        self.write_bits(v, 1)
    }

    /// Writes a single byte: appends its eight bits, least significant
    /// first.
    pub fn write_byte(&mut self, byte: u8) -> (r: Result<(), BitError>)
        requires
            old(self).wf(),
        ensures
            final(self).wf(),
            final(self).sink_may_fail() == old(self).sink_may_fail(),
            !old(self).sink_may_fail() ==> (r matches Ok(())),
            r matches Ok(()) ==> final(self).bits_written() == old(self).bits_written()
                + byte_bits(byte) && final(self).pending().len() < 8,
            r == Result::<(), BitError>::Err(BitError::TransportFailure) ==> old(
                self,
            ).sink_may_fail() && (final(self).bits_written() == old(self).bits_written()
                + byte_bits(byte) || final(self).bits_written() == old(self).bits_written()),
            r != Result::<(), BitError>::Err(BitError::EndOfStream),
            r != Result::<(), BitError>::Err(BitError::InvalidArgument),
    {
        proof {
            vstd::arithmetic::power2::lemma2_to64();
        }
        self.write_bits(byte as u32, 8)
    }

    /// Writes every byte of `bytes` in order.
    ///
    /// Stops at the first sink fault, the bytes before it already
    /// emitted — the same at-least-partial-effect contract as the read
    /// side's `read_bytes`.
    pub fn write_bytes(&mut self, bytes: &Vec<u8>) -> (r: Result<(), BitError>)
        requires
            old(self).wf(),
        ensures
            final(self).wf(),
            final(self).sink_may_fail() == old(self).sink_may_fail(),
            bytes@.len() == 0 ==> (r matches Ok(())),
            !old(self).sink_may_fail() ==> (r matches Ok(())),
            r matches Ok(()) ==> final(self).bits_written() == old(self).bits_written()
                + bytes_bits(bytes@),
            r == Result::<(), BitError>::Err(BitError::TransportFailure) ==> old(
                self,
            ).sink_may_fail() && (exists|k: int|
                0 <= k <= bytes@.len() && final(self).bits_written() == old(self).bits_written()
                    + #[trigger] bytes_bits(bytes@.take(k))),
            r != Result::<(), BitError>::Err(BitError::EndOfStream),
            r != Result::<(), BitError>::Err(BitError::InvalidArgument),
    {
        let mut i: usize = 0;
        proof {
            assert(bytes_bits(bytes@.take(0)) =~= Seq::<bool>::empty());
            assert(self.bits_written() =~= self.bits_written() + bytes_bits(bytes@.take(0)));
        }
        while i < bytes.len()
            invariant
                self.wf(),
                i <= bytes@.len(),
                self.sink_may_fail() == old(self).sink_may_fail(),
                self.bits_written() == old(self).bits_written() + bytes_bits(bytes@.take(i as int)),
            decreases bytes@.len() - i,
        {
            let ghost k = i as int;
            match self.write_byte(bytes[i]) {
                Ok(()) => {
                    proof {
                        assert(bytes@.take(k + 1).drop_last() =~= bytes@.take(k));
                        lemma_bytes_bits_concat(bytes@.take(k), seq![bytes@[k]]);
                        assert(bytes@.take(k + 1) =~= bytes@.take(k) + seq![bytes@[k]]);
                        lemma_bytes_bits_singleton(bytes@[k]);
                        assert(old(self).bits_written() + bytes_bits(bytes@.take(k)) + byte_bits(
                            bytes@[k],
                        ) =~= old(self).bits_written() + bytes_bits(bytes@.take(k + 1)));
                    }
                    i = i + 1;
                },
                Err(e) => {
                    proof {
                        if self.bits_written() == old(self).bits_written() + bytes_bits(
                            bytes@.take(k),
                        ) + byte_bits(bytes@[k]) {
                            lemma_bytes_bits_concat(bytes@.take(k), seq![bytes@[k]]);
                            assert(bytes@.take(k + 1) =~= bytes@.take(k) + seq![bytes@[k]]);
                            lemma_bytes_bits_singleton(bytes@[k]);
                            assert(self.bits_written() =~= old(self).bits_written() + bytes_bits(
                                bytes@.take(k + 1),
                            ));
                        } else {
                            assert(self.bits_written() =~= old(self).bits_written() + bytes_bits(
                                bytes@.take(k),
                            ));
                        }
                    }
                    return Err(e);
                },
            }
        }
        proof {
            assert(bytes@.take(bytes@.len() as int) =~= bytes@);
        }
        Ok(())
    }

    /// Flush: pad the pending bits with zeros up to the next byte
    /// boundary and emit that final byte.
    ///
    /// After success nothing is pending and the sink holds the whole bit
    /// stream, zero-padded.  Flushing with nothing pending is a no-op —
    /// flush is idempotent.  On a sink fault nothing is lost and the
    /// flush can be retried.
    pub fn flush(&mut self) -> (r: Result<(), BitError>)
        requires
            old(self).wf(),
        ensures
            final(self).wf(),
            final(self).sink_may_fail() == old(self).sink_may_fail(),
            r matches Ok(()) ==> final(self).pending().len() == 0 && bytes_bits(
                final(self).written(),
            ) == old(self).bits_written() + zeros(pad_len(old(self).bits_written().len())),
            old(self).pending().len() == 0 ==> (r matches Ok(())) && *final(self) == *old(self),
            !old(self).sink_may_fail() ==> (r matches Ok(())),
            r == Result::<(), BitError>::Err(BitError::TransportFailure) ==> old(
                self,
            ).sink_may_fail() && final(self).bits_written() == old(self).bits_written(),
            r != Result::<(), BitError>::Err(BitError::EndOfStream),
            r != Result::<(), BitError>::Err(BitError::InvalidArgument),
    {
        proof {
            lemma_bytes_bits_len(old(self).written());
        }
        match self.drain() {
            Ok(()) => {},
            Err(e) => {
                return Err(e);
            },
        }
        let ghost mid = *self;
        if self.end > 0 {
            proof {
                let b = self.buf;
                let e = self.end as u64;
                assert(b >> e == 0u64 && e < 8u64 ==> b < 256u64) by (bit_vector);
            }
            let byte: u8 = self.buf as u8;
            let mut one: Vec<u8> = Vec::new();
            one.push(byte);
            match self.sink.write_all(&one) {
                Ok(()) => {
                    self.buf = 0;
                    self.end = 0;
                    proof {
                        let b = mid.buf;
                        let e = mid.end as u64;
                        assert forall|i: int| 0 <= i < 8 implies byte_bits(byte)[i] == (
                        mid.pending() + zeros((8 - mid.end) as nat))[i] by {
                            let j = i as u64;
                            assert(b >> e == 0u64 && e <= 8u64 ==> ((b as u8) as u64 >> j) & 1u64
                                == (if j < e {
                                (b >> j) & 1u64
                            } else {
                                0u64
                            })) by (bit_vector)
                                requires
                                    j < 8u64,
                            ;
                        }
                        assert(byte_bits(byte) =~= mid.pending() + zeros((8 - mid.end) as nat));
                        assert(one@ =~= seq![byte]);
                        lemma_bytes_bits_concat(mid.written(), seq![byte]);
                        lemma_bytes_bits_singleton(byte);
                        assert(0u64 >> 0u64 == 0u64) by (bit_vector);
                        assert(self.pending() =~= Seq::<bool>::empty());
                        lemma_bytes_bits_len(mid.written());
                        assert(pad_len(old(self).bits_written().len()) == 8 - mid.end) by {
                            vstd::arithmetic::div_mod::lemma_mod_multiples_vanish(
                                mid.written().len() as int,
                                mid.end as int,
                                8,
                            );
                            assert((mid.end as int) % 8 == mid.end as int);
                        }
                        assert(bytes_bits(self.written()) =~= old(self).bits_written() + zeros(
                            pad_len(old(self).bits_written().len()),
                        ));
                    }
                },
                Err(_) => {
                    return Err(BitError::TransportFailure);
                },
            }
        } else {
            proof {
                lemma_bytes_bits_len(mid.written());
                assert(mid.pending() =~= Seq::<bool>::empty());
                assert(zeros(pad_len(old(self).bits_written().len())) =~= Seq::<bool>::empty()) by {
                    vstd::arithmetic::div_mod::lemma_mod_multiples_vanish(
                        mid.written().len() as int,
                        0,
                        8,
                    );
                }
                assert(bytes_bits(self.written()) =~= old(self).bits_written() + zeros(
                    pad_len(old(self).bits_written().len()),
                ));
            }
        }
        Ok(())
    }
}

} // verus!

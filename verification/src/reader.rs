//! The read side: a bit accumulator over a byte source.
//!
//! `BitReader` owns a byte source and a 64-bit accumulator register.
//! Bits enter the register a whole byte at a time at position `end` and
//! leave through position `start`; normalization keeps both offsets
//! small, so the register never overflows even over long runs of
//! sub-byte reads.

use vstd::prelude::*;
use vstd::arithmetic::power2::lemma2_to64;
use crate::bits::byte_bits;
use crate::bits::bits_of;
use crate::bits::bytes_bits;
use crate::bits::bytes_of_bits;
use crate::bits::lemma_bits_of_val;
use crate::bits::lemma_bytes_bits_len;
use crate::bits::lemma_val_of_bits;
use crate::bits::u64_bit;
use crate::bits::val_of;
use crate::bits::valid_width;
use crate::bits::FIELD_WIDTH_LIMIT;
use crate::error::BitError;
use crate::transport::ByteSource;

verus! {

/// A wrapping reader that hands out bits from a byte-oriented source.
///
/// The view of a reader is `stream()`: every bit it can still deliver, in
/// order — first the bits buffered in the register, then the bits of every
/// byte the source still holds, least significant bit of each byte first.
pub struct BitReader<S: ByteSource> {
    buf: u64,
    src: S,
    start: usize,
    end: usize,
}

impl<S: ByteSource> BitReader<S> {
    /// Well-formedness: the offsets are ordered and small enough that one
    /// more refill fits the register, and no stale bits sit above `end`.
    pub closed spec fn wf(&self) -> bool {
        &&& self.src.inv()
        &&& self.start < 8
        &&& self.start <= self.end
        &&& self.end <= 47
        &&& self.buf >> (self.end as u64) == 0u64
    }

    /// The bits buffered in the register and not yet consumed.
    pub closed spec fn buffered(&self) -> Seq<bool> {
        Seq::new((self.end - self.start) as nat, |i: int| u64_bit(self.buf, self.start + i))
    }

    /// Every bit this reader can still deliver, in delivery order.
    pub open spec fn stream(&self) -> Seq<bool> {
        self.buffered() + bytes_bits(self.source_remaining())
    }

    /// The bytes the underlying source still holds.
    pub closed spec fn source_remaining(&self) -> Seq<u8> {
        self.src.remaining()
    }

    /// Whether the underlying source can ever report a transport fault.
    /// Over an infallible source (such as `MemSource`) this is false, and
    /// `TransportFailure` is then impossible on every operation.
    pub closed spec fn source_may_fail(&self) -> bool {
        self.src.may_fail()
    }

    /// Creates a new `BitReader` over a byte source, with an empty
    /// accumulator: its stream is exactly the source's bit stream.
    pub fn new(source: S) -> (reader: BitReader<S>)
        requires
            source.inv(),
        ensures
            reader.wf(),
            reader.stream() == bytes_bits(source.remaining()),
            reader.source_may_fail() == source.may_fail(),
    {
        let reader = BitReader { buf: 0u64, src: source, start: 0usize, end: 0usize };
        proof {
            assert(0u64 >> 0u64 == 0u64) by (bit_vector);
            assert(reader.buffered() =~= Seq::<bool>::empty());
            assert(reader.stream() =~= bytes_bits(source.remaining()));
        }
        reader
    }

    /// How many bits the register currently buffers.
    fn buf_len(&self) -> (n: usize)
        requires
            self.wf(),
        ensures
            n == self.buffered().len(),
    {
        self.end - self.start
    }

    /// Eight of a thing per byte: a bound on eights is a bound on bytes.
    proof fn lemma_div8_bound(d: int, k: int)
        by (nonlinear_arith)
        requires
            0 <= d,
            8 * d <= k,
        ensures
            d <= k / 8,
    {
    }

    /// Refill: pull whole bytes from the source until at least
    /// `bit_count` bits are buffered — at most one byte past the
    /// requested count, so no more than `(bit_count + 7) / 8` bytes in
    /// all.  The stream is never changed — bytes only move from the
    /// source into the register — and on `EndOfStream` the register
    /// keeps every bit it had, so the failure is recoverable and
    /// repeatable.
    fn expand_buffer(&mut self, bit_count: usize) -> (r: Result<(), BitError>)
        requires
            old(self).wf(),
            0 < bit_count < FIELD_WIDTH_LIMIT,
        ensures
            final(self).wf(),
            final(self).stream() == old(self).stream(),
            final(self).source_may_fail() == old(self).source_may_fail(),
            old(self).source_remaining().len() <= final(self).source_remaining().len() + (
            bit_count + 7) / 8,
            old(self).buffered().len() >= bit_count ==> (r matches Ok(())),
            old(self).stream().len() >= bit_count && !old(self).source_may_fail() ==> (r matches
            Ok(())),
            match r {
                Ok(()) => final(self).buffered().len() >= bit_count,
                Err(BitError::EndOfStream) => final(self).stream().len() < bit_count,
                Err(BitError::TransportFailure) => final(self).stream().len() >= 8 && old(
                    self,
                ).source_may_fail(),
                Err(BitError::InvalidArgument) => false,
            },
    {
        let avail = self.buf_len();
        if avail >= bit_count {
            return Ok(());
        }
        let mut need: usize = bit_count - avail;
        while need > 0
            invariant
                self.src.inv(),
                self.start < 8,
                self.start <= self.end,
                0 < bit_count < FIELD_WIDTH_LIMIT,
                need <= bit_count,
                need > 0 ==> self.end - self.start == bit_count - need,
                need == 0 ==> bit_count <= self.end - self.start <= bit_count + 7,
                self.end <= 45,
                self.buf >> (self.end as u64) == 0u64,
                self.stream() == old(self).stream(),
                self.src.may_fail() == old(self).src.may_fail(),
                old(self).buffered().len() < bit_count,
                self.source_remaining().len() <= old(self).source_remaining().len(),
                self.end - self.start == old(self).buffered().len() + 8 * (
                old(self).source_remaining().len() - self.source_remaining().len()),
            decreases need,
        {
            let ghost pre = *self;
            match self.src.attempt_read() {
                Ok(Some(byte)) => {
                    self.buf = self.buf | ((byte as u64) << (self.end as u64));
                    self.end = self.end + 8;
                    proof {
                        let b = pre.buf;
                        let e = pre.end as u64;
                        let x = byte as u64;
                        let m = b | (x << e);
                        assert forall|i: int| 0 <= i < self.end - self.start implies
                            self.buffered()[i] == (pre.buffered() + byte_bits(byte))[i] by {
                            let j = (pre.start + i) as u64;
                            if i < pre.end - pre.start {
                                assert(((b | (x << e)) >> j) & 1u64 == (b >> j) & 1u64)
                                    by (bit_vector)
                                    requires
                                        j < e,
                                        e <= 56u64,
                                        x < 256u64,
                                ;
                            } else {
                                let k = (i - (pre.end - pre.start)) as u64;
                                assert(j == (e + k) as u64);
                                assert(b >> e == 0u64 && k < 8u64 && e <= 56u64 && x < 256u64
                                    ==> ((b | (x << e)) >> ((e + k) as u64)) & 1u64 == (x >> k)
                                    & 1u64) by (bit_vector);
                            }
                        }
                        assert(self.buffered() =~= pre.buffered() + byte_bits(byte));
                        assert(b >> e == 0u64 && e <= 56u64 && x < 256u64 ==> (b | (x << e)) >> ((e
                            + 8) as u64) == 0u64) by (bit_vector);
                        assert(bytes_bits(pre.source_remaining()) == byte_bits(byte) + bytes_bits(
                            self.source_remaining(),
                        ));
                        assert(self.stream() =~= pre.stream());
                    }
                    if need <= 8 {
                        need = 0;
                    } else {
                        need = need - 8;
                    }
                }
                Ok(None) => {
                    proof {
                        assert(self.stream().len() < bit_count);
                        Self::lemma_div8_bound(
                            old(self).source_remaining().len() - self.source_remaining().len(),
                            bit_count + 7,
                        );
                    }
                    return Err(BitError::EndOfStream);
                }
                Err(_) => {
                    proof {
                        lemma_bytes_bits_len(self.source_remaining());
                        Self::lemma_div8_bound(
                            old(self).source_remaining().len() - self.source_remaining().len(),
                            bit_count + 7,
                        );
                    }
                    return Err(BitError::TransportFailure);
                }
            }
        }
        proof {
            Self::lemma_div8_bound(
                old(self).source_remaining().len() - self.source_remaining().len(),
                bit_count + 7,
            );
        }
        Ok(())
    }

    /// Gets a bit-field of `bit_count` bits, low-order bit first.
    ///
    /// The result is the value of the next `bit_count` bits of the
    /// stream, and those bits are consumed.  A width of 0 or of
    /// `FIELD_WIDTH_LIMIT` or more is rejected as `InvalidArgument`
    /// without touching any state; `EndOfStream` reports that fewer than
    /// `bit_count` bits remain, with no bit lost; a source fault is
    /// passed through as `TransportFailure` — only a source that may
    /// fault can cause it — also with no bit lost.  Success is owed
    /// whenever the register already buffers enough bits, and whenever
    /// the stream holds enough bits over a source that cannot fault.
    /// One call pulls at most `(bit_count + 7) / 8` bytes from the
    /// source and performs no other transport activity.
    pub fn read_bits(&mut self, bit_count: usize) -> (r: Result<u32, BitError>)
        requires
            old(self).wf(),
        ensures
            final(self).wf(),
            final(self).source_may_fail() == old(self).source_may_fail(),
            old(self).source_remaining().len() <= final(self).source_remaining().len() + (
            bit_count + 7) / 8,
            valid_width(bit_count as nat) && old(self).buffered().len() >= bit_count ==> (
            r matches Ok(_)),
            valid_width(bit_count as nat) && old(self).stream().len() >= bit_count && !old(
                self,
            ).source_may_fail() ==> (r matches Ok(_)),
            r matches Ok(v) ==> valid_width(bit_count as nat) && old(self).stream().len()
                >= bit_count && v as nat == val_of(old(self).stream().take(bit_count as int))
                && final(self).stream() == old(self).stream().skip(bit_count as int),
            r == Result::<u32, BitError>::Err(BitError::InvalidArgument) <==> !valid_width(
                bit_count as nat,
            ),
            r == Result::<u32, BitError>::Err(BitError::InvalidArgument) ==> *final(self) == *old(
                self,
            ),
            r == Result::<u32, BitError>::Err(BitError::EndOfStream) ==> old(self).stream().len()
                < bit_count && final(self).stream() == old(self).stream(),
            r == Result::<u32, BitError>::Err(BitError::TransportFailure) ==> old(
                self,
            ).stream().len() >= 8 && old(self).source_may_fail() && final(self).stream() == old(
                self,
            ).stream(),
    {
        if bit_count == 0 || bit_count >= FIELD_WIDTH_LIMIT {
            return Err(BitError::InvalidArgument);
        }
        match self.expand_buffer(bit_count) {
            Ok(()) => {}
            Err(e) => {
                return Err(e);
            }
        }
        let ghost pre = *self;
        let n64 = bit_count as u64;
        proof {
            assert(1u64 <= (1u64 << n64)) by (bit_vector)
                requires
                    n64 < 32u64,
            ;
        }
        let mask: u64 = (1u64 << n64) - 1;
        let extracted: u64 = (self.buf >> (self.start as u64)) & mask;
        proof {
            let b = pre.buf;
            let s = pre.start as u64;
            assert(extracted < (1u64 << n64) && extracted < 0x1_0000_0000u64) by (bit_vector)
                requires
                    extracted == (b >> s) & (((1u64 << n64) - 1) as u64),
                    0u64 < n64 < 32u64,
            ;
            assert forall|i: int| 0 <= i < bit_count implies bits_of(extracted, bit_count as nat)[i]
                == pre.buffered().take(bit_count as int)[i] by {
                let j = i as u64;
                assert((((b >> s) & (((1u64 << n64) - 1) as u64)) >> j) & 1u64 == (b >> ((s + j)
                    as u64)) & 1u64) by (bit_vector)
                    requires
                        j < n64,
                        n64 < 32u64,
                        s < 8u64,
                ;
                assert((s + j) as u64 == (pre.start + i) as u64);
            }
            assert(bits_of(extracted, bit_count as nat) =~= pre.buffered().take(bit_count as int));
            assert(extracted < vstd::arithmetic::power2::pow2(bit_count as nat)) by {
                vstd::bits::lemma_u64_pow2_no_overflow(bit_count as nat);
                vstd::bits::lemma_u64_shl_is_mul(1u64, n64);
            }
            lemma_val_of_bits(extracted, bit_count as nat);
            assert(pre.stream().take(bit_count as int) =~= pre.buffered().take(bit_count as int));
            assert(extracted as nat == val_of(old(self).stream().take(bit_count as int)));
        }
        let result: u32 = extracted as u32;
        self.start = self.start + bit_count;
        let ghost mid = *self;
        proof {
            assert(mid.buffered() =~= pre.buffered().skip(bit_count as int));
        }
        if self.end == self.start {
            self.end = 0;
            self.start = 0;
            self.buf = 0;
            proof {
                assert(0u64 >> 0u64 == 0u64) by (bit_vector);
                assert(self.buffered() =~= mid.buffered());
            }
        } else if self.start >= 8 {
            let ghost b = self.buf;
            let ghost s = self.start as u64;
            let ghost e = self.end as u64;
            self.buf = self.buf >> (self.start as u64);
            self.end = self.end - self.start;
            self.start = 0;
            proof {
                assert forall|i: int| 0 <= i < self.end implies self.buffered()[i]
                    == mid.buffered()[i] by {
                    let j = i as u64;
                    assert(((b >> s) >> j) & 1u64 == (b >> ((s + j) as u64)) & 1u64)
                        by (bit_vector)
                        requires
                            s < 48u64,
                            j < 48u64,
                    ;
                    assert((s + j) as u64 == (mid.start + i) as u64);
                }
                assert(self.buffered() =~= mid.buffered());
                assert(b >> e == 0u64 && s <= e <= 47u64 ==> (b >> s) >> ((e - s) as u64) == 0u64)
                    by (bit_vector);
            }
        }
        proof {
            assert(self.stream() =~= old(self).stream().skip(bit_count as int));
        }
        Ok(result)
    }

    /// Reads a single bit: the first bit of the stream.
    pub fn read_bit(&mut self) -> (r: Result<bool, BitError>)
        requires
            old(self).wf(),
        ensures
            final(self).wf(),
            final(self).source_may_fail() == old(self).source_may_fail(),
            old(self).buffered().len() >= 1 ==> (r matches Ok(_)),
            old(self).stream().len() >= 1 && !old(self).source_may_fail() ==> (r matches Ok(_)),
            r matches Ok(b) ==> old(self).stream().len() >= 1 && b == old(self).stream()[0]
                && final(self).stream() == old(self).stream().skip(1),
            r == Result::<bool, BitError>::Err(BitError::EndOfStream) ==> old(self).stream().len()
                == 0 && final(self).stream() == old(self).stream(),
            r == Result::<bool, BitError>::Err(BitError::TransportFailure) ==> old(
                self,
            ).stream().len() >= 8 && old(self).source_may_fail() && final(self).stream() == old(
                self,
            ).stream(),
            r != Result::<bool, BitError>::Err(BitError::InvalidArgument),
    {
        match self.read_bits(1) {
            Ok(v) => {
                proof {
                    let s1 = old(self).stream().take(1);
                    assert(s1.len() == 1);
                    assert(s1.drop_first() =~= Seq::<bool>::empty());
                    assert(val_of(Seq::<bool>::empty()) == 0);
                    assert(val_of(s1.drop_first()) == 0);
                    assert(val_of(s1) == if s1[0] {
                        1nat
                    } else {
                        0nat
                    });
                    assert(s1[0] == old(self).stream()[0]);
                }
                Ok(v != 0)
            },
            Err(e) => Err(e),
        }
    }

    /// Reads a single byte: the next eight bits of the stream, least
    /// significant first.
    pub fn read_byte(&mut self) -> (r: Result<u8, BitError>)
        requires
            old(self).wf(),
        ensures
            final(self).wf(),
            final(self).source_may_fail() == old(self).source_may_fail(),
            old(self).buffered().len() >= 8 ==> (r matches Ok(_)),
            old(self).stream().len() >= 8 && !old(self).source_may_fail() ==> (r matches Ok(_)),
            r matches Ok(b) ==> old(self).stream().len() >= 8 && b as nat == val_of(
                old(self).stream().take(8),
            ) && byte_bits(b) == old(self).stream().take(8) && final(self).stream() == old(
                self,
            ).stream().skip(8),
            r == Result::<u8, BitError>::Err(BitError::EndOfStream) ==> old(self).stream().len()
                < 8 && final(self).stream() == old(self).stream(),
            r == Result::<u8, BitError>::Err(BitError::TransportFailure) ==> old(
                self,
            ).stream().len() >= 8 && old(self).source_may_fail() && final(self).stream() == old(
                self,
            ).stream(),
            r != Result::<u8, BitError>::Err(BitError::InvalidArgument),
    {
        match self.read_bits(8) {
            Ok(v) => {
                proof {
                    lemma_bits_of_val(old(self).stream().take(8));
                    lemma2_to64();
                }
                Ok(v as u8)
            },
            Err(e) => Err(e),
        }
    }

    /// What a run of `read_bytes` leaves behind when it delivered exactly
    /// `k` whole bytes: the first `k` slots of the buffer hold the values
    /// of the stream's first `k` bytes, the rest of the buffer is
    /// untouched, and the stream has advanced past exactly those bytes.
    pub open spec fn delivered_prefix(
        self,
        post: BitReader<S>,
        buf0: Seq<u8>,
        buf1: Seq<u8>,
        k: int,
    ) -> bool {
        &&& 0 <= k
        &&& self.stream().len() >= 8 * k
        &&& buf1.len() == buf0.len()
        &&& (forall|j: int|
            0 <= j < k ==> (#[trigger] buf1[j]) as nat == val_of(
                self.stream().subrange(8 * j, 8 * j + 8),
            ))
        &&& (forall|j: int| k <= j < buf0.len() ==> buf1[j] == buf0[j])
        &&& post.stream() == self.stream().skip(8 * k)
    }

    /// Fills `buf[0 .. byte_count]` with the next bytes of the stream.
    ///
    /// On failure partway through, the bytes already stored stay stored —
    /// an at-least-partial-write contract — the rest of the buffer is
    /// untouched, and the stream has advanced by exactly the bytes
    /// delivered.
    pub fn read_bytes(&mut self, buf: &mut Vec<u8>, byte_count: usize) -> (r: Result<
        usize,
        BitError,
    >)
        requires
            old(self).wf(),
            byte_count <= old(buf).len(),
        ensures
            final(self).wf(),
            final(self).source_may_fail() == old(self).source_may_fail(),
            final(buf)@.len() == old(buf)@.len(),
            r == Result::<usize, BitError>::Err(BitError::TransportFailure) ==> old(
                self,
            ).source_may_fail(),
            old(self).stream().len() >= 8 * byte_count && !old(self).source_may_fail() ==> (
            r matches Ok(_)),
            r matches Ok(c) ==> c == byte_count && old(self).delivered_prefix(
                *final(self),
                old(buf)@,
                final(buf)@,
                byte_count as int,
            ),
            r matches Err(e) ==> e != BitError::InvalidArgument && (exists|k: int|
                k < byte_count && #[trigger] old(self).delivered_prefix(
                    *final(self),
                    old(buf)@,
                    final(buf)@,
                    k,
                ) && (e == BitError::EndOfStream ==> old(self).stream().len() < 8 * k + 8)),
    {
        let mut count: usize = 0;
        while count < byte_count
            invariant
                self.wf(),
                self.source_may_fail() == old(self).source_may_fail(),
                count <= byte_count,
                byte_count <= buf@.len(),
                buf@.len() == old(buf)@.len(),
                old(self).stream().len() >= 8 * count,
                forall|j: int|
                    0 <= j < count ==> (#[trigger] buf@[j]) as nat == val_of(
                        old(self).stream().subrange(8 * j, 8 * j + 8),
                    ),
                forall|j: int| count <= j < buf@.len() ==> buf@[j] == old(buf)@[j],
                self.stream() == old(self).stream().skip(8 * count),
            decreases byte_count - count,
        {
            let ghost prestream = self.stream();
            match self.read_byte() {
                Ok(byte) => {
                    buf[count] = byte;
                    proof {
                        assert(prestream.take(8) =~= old(self).stream().subrange(
                            8 * count,
                            8 * count + 8,
                        ));
                        assert(prestream.skip(8) =~= old(self).stream().skip(8 * (count + 1)));
                    }
                    count = count + 1;
                },
                Err(e) => {
                    proof {
                        let k = count as int;
                        assert(old(self).delivered_prefix(*self, old(buf)@, buf@, k));
                        assert(prestream.len() < 8 ==> old(self).stream().len() < 8 * k + 8);
                    }
                    return Err(e);
                },
            }
        }
        Ok(count)
    }
}

impl<S: ByteSource> ByteSource for BitReader<S> {
    /// A bit reader is itself a byte source, so byte-aligned consumers
    /// can layer on a bit-level reader transparently.
    open spec fn inv(&self) -> bool {
        self.wf()
    }

    /// The whole bytes still deliverable: trailing bits that do not fill
    /// a byte carry no byte.
    open spec fn remaining(&self) -> Seq<u8> {
        bytes_of_bits(self.stream())
    }

    /// A layered reader faults exactly when its own source can.
    open spec fn may_fail(&self) -> bool {
        self.source_may_fail()
    }

    fn attempt_read(&mut self) -> (r: Result<Option<u8>, ()>)
        ensures
            match r {
                Ok(Some(_)) => final(self).stream() == old(self).stream().skip(8),
                Ok(None) => old(self).stream().len() < 8 && final(self).stream() == old(
                    self,
                ).stream(),
                Err(_) => final(self).stream() == old(self).stream(),
            },
    {
        match self.read_byte() {
            Ok(b) => {
                proof {
                    assert(bytes_of_bits(old(self).stream()).drop_first() =~= bytes_of_bits(
                        old(self).stream().skip(8),
                    ));
                }
                Ok(Some(b))
            },
            Err(BitError::EndOfStream) => Ok(None),
            Err(_) => {
                proof {
                    lemma_bytes_bits_len(self.source_remaining());
                }
                Err(())
            },
        }
    }
}

} // verus!

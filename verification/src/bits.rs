//! The mathematical model of the bit stream.
//!
//! A stream is a `Seq<bool>`, least significant bit first.  These spec
//! functions say what value a bit-field carries, which bits a register
//! holds, and which bit stream a byte sequence carries; the lemmas relate
//! them and state the laws of the packing convention.

use vstd::prelude::*;
use vstd::arithmetic::power2::lemma2_to64;
use vstd::arithmetic::power2::lemma2_to64_rest;
use vstd::arithmetic::power2::lemma_pow2_unfold;
use vstd::arithmetic::power2::pow2;

verus! {

/// Requested field widths must satisfy `0 < n < FIELD_WIDTH_LIMIT`; the
/// 64-bit accumulator register leaves ample slack above this for one more
/// byte of refill.
pub const FIELD_WIDTH_LIMIT: usize = 32;

/// Whether `n` is an acceptable bit-field width.
pub open spec fn valid_width(n: nat) -> bool {
    0 < n < FIELD_WIDTH_LIMIT
}

/// Whether the value `v` fits in an `n`-bit field.
pub open spec fn fits_width(v: nat, n: nat) -> bool {
    v < pow2(n)
}

/// Bit `i` of the 64-bit register `v`; bit 0 is the least significant.
pub open spec fn u64_bit(v: u64, i: int) -> bool {
    (v >> (i as u64)) & 1u64 == 1u64
}

/// The low `n` bits of `v`, least significant first.
pub open spec fn bits_of(v: u64, n: nat) -> Seq<bool> {
    Seq::new(n, |i: int| u64_bit(v, i))
}

/// The unsigned value a bit sequence encodes, least significant bit first.
pub open spec fn val_of(s: Seq<bool>) -> nat
    decreases s.len(),
{
    if s.len() == 0 {
        0
    } else {
        (if s[0] {
            1nat
        } else {
            0nat
        }) + 2 * val_of(s.drop_first())
    }
}

/// The eight bits of one transport byte, least significant first.
pub open spec fn byte_bits(b: u8) -> Seq<bool> {
    bits_of(b as u64, 8)
}

/// The bit stream carried by a byte sequence: each byte contributes its
/// eight bits, least significant first, in byte order.
pub open spec fn bytes_bits(s: Seq<u8>) -> Seq<bool>
    decreases s.len(),
{
    if s.len() == 0 {
        Seq::empty()
    } else {
        byte_bits(s[0]) + bytes_bits(s.drop_first())
    }
}

/// The whole bytes at the front of a bit stream; trailing bits that do not
/// fill a byte carry no whole byte.
pub open spec fn bytes_of_bits(s: Seq<bool>) -> Seq<u8>
    decreases s.len(),
{
    if s.len() < 8 {
        Seq::empty()
    } else {
        seq![(val_of(s.take(8)) as u8)] + bytes_of_bits(s.skip(8))
    }
}

/// `n` zero bits, as flush pads with.
pub open spec fn zeros(n: nat) -> Seq<bool> {
    Seq::new(n, |i: int| false)
}

/// How many zero bits flush adds to reach the next byte boundary after `k`
/// bits.
pub open spec fn pad_len(k: nat) -> nat {
    ((8 - (k as int % 8)) % 8) as nat
}

/// A byte sequence carries eight bits per byte.
pub proof fn lemma_bytes_bits_len(s: Seq<u8>)
    ensures
        bytes_bits(s).len() == 8 * s.len(),
    decreases s.len(),
{
    if s.len() > 0 {
        lemma_bytes_bits_len(s.drop_first());
    }
}

/// The bit stream of concatenated byte sequences is the concatenation of
/// their bit streams.
pub proof fn lemma_bytes_bits_concat(a: Seq<u8>, b: Seq<u8>)
    ensures
        bytes_bits(a + b) == bytes_bits(a) + bytes_bits(b),
    decreases a.len(),
{
    if a.len() == 0 {
        assert(a + b =~= b);
        assert(bytes_bits(a) + bytes_bits(b) =~= bytes_bits(b));
    } else {
        assert((a + b).drop_first() =~= a.drop_first() + b);
        lemma_bytes_bits_concat(a.drop_first(), b);
        assert(byte_bits((a + b)[0]) + (bytes_bits(a.drop_first()) + bytes_bits(b)) =~= bytes_bits(
            a,
        ) + bytes_bits(b));
    }
}

/// One byte on its own carries exactly its eight bits.
pub proof fn lemma_bytes_bits_singleton(b: u8)
    ensures
        bytes_bits(seq![b]) == byte_bits(b),
{
    assert(seq![b].drop_first() =~= Seq::<u8>::empty());
    assert(byte_bits(b) + bytes_bits(Seq::<u8>::empty()) =~= byte_bits(b));
}

/// A bit sequence of length `n` encodes a value below `pow2(n)`.
pub proof fn lemma_val_of_bound(s: Seq<bool>)
    ensures
        val_of(s) < pow2(s.len()),
    decreases s.len(),
{
    if s.len() == 0 {
        lemma2_to64();
    } else {
        lemma_val_of_bound(s.drop_first());
        lemma_pow2_unfold(s.len());
    }
}

/// Splitting a bit sequence splits its value: the tail's value is scaled
/// by `pow2` of the head's length.
pub proof fn lemma_val_of_concat(a: Seq<bool>, b: Seq<bool>)
    ensures
        val_of(a + b) == val_of(a) + pow2(a.len()) * val_of(b),
    decreases a.len(),
{
    if a.len() == 0 {
        assert(a + b =~= b);
        lemma2_to64();
    } else {
        assert((a + b).drop_first() =~= a.drop_first() + b);
        lemma_val_of_concat(a.drop_first(), b);
        lemma_pow2_unfold(a.len());
        let p = pow2((a.len() - 1) as nat) as int;
        let vb = val_of(b) as int;
        assert(2 * (p * vb) == (2 * p) * vb) by (nonlinear_arith);
    }
}

/// Dropping the first of the low `n` bits of `v` leaves the low `n - 1`
/// bits of `v` shifted right once.
proof fn lemma_bits_of_shift(v: u64, n: nat)
    requires
        1 <= n <= 63,
    ensures
        bits_of(v, n).drop_first() == bits_of(v >> 1u64, (n - 1) as nat),
{
    assert forall|i: int| 0 <= i < n - 1 implies bits_of(v, n).drop_first()[i] == u64_bit(
        v >> 1u64,
        i,
    ) by {
        let j = i as u64;
        assert((v >> ((j + 1) as u64)) & 1u64 == ((v >> 1u64) >> j) & 1u64) by (bit_vector)
            requires
                j < 63u64,
        ;
        assert((i + 1) as u64 == (j + 1) as u64);
    }
    assert(bits_of(v, n).drop_first() =~= bits_of(v >> 1u64, (n - 1) as nat));
}

/// The low `n` bits of a value below `pow2(n)` encode that value back.
pub proof fn lemma_val_of_bits(v: u64, n: nat)
    requires
        n <= 63,
        v < pow2(n),
    ensures
        val_of(bits_of(v, n)) == v,
    decreases n,
{
    if n == 0 {
        lemma2_to64();
        assert(bits_of(v, 0) =~= Seq::<bool>::empty());
    } else {
        let v1 = v >> 1u64;
        lemma_bits_of_shift(v, n);
        assert(v1 < pow2((n - 1) as nat)) by {
            lemma_pow2_unfold(n);
            assert(v >> 1u64 == v / 2) by (bit_vector);
        }
        lemma_val_of_bits(v1, (n - 1) as nat);
        assert(bits_of(v, n)[0] == u64_bit(v, 0));
        assert((v >> 0u64) & 1u64 == v & 1u64) by (bit_vector);
        assert(v & 1u64 == 0 || v & 1u64 == 1) by (bit_vector);
        assert((v & 1u64) + 2 * (v >> 1u64) == v) by (bit_vector);
    }
}

/// Byte identity law: a byte's eight bits encode exactly that byte, so
/// writing any byte and reading a byte back yields the same value.
pub proof fn lemma_byte_identity(b: u8)
    ensures
        val_of(byte_bits(b)) == b,
{
    lemma2_to64();
    lemma_val_of_bits(b as u64, 8);
}

/// Split-equals-whole law: reading `k` bits and then `8 - k` bits from
/// one byte, concatenated low-order first, equals reading the byte
/// whole.
pub proof fn lemma_split_equals_whole(b: u8, k: int)
    requires
        0 < k < 8,
    ensures
        val_of(byte_bits(b).take(k)) + pow2(k as nat) * val_of(byte_bits(b).skip(k)) == b,
{
    assert(byte_bits(b).take(k) + byte_bits(b).skip(k) =~= byte_bits(b));
    lemma_val_of_concat(byte_bits(b).take(k), byte_bits(b).skip(k));
    lemma_byte_identity(b);
}

/// The bit stream laid down by a sequence of `(value, width)` fields,
/// each contributing its low `width` bits, low-order first, in order.
pub open spec fn field_bits(fields: Seq<(u32, nat)>) -> Seq<bool>
    decreases fields.len(),
{
    if fields.len() == 0 {
        Seq::empty()
    } else {
        bits_of(fields[0].0 as u64, fields[0].1) + field_bits(fields.drop_first())
    }
}

/// Whether every field of a sequence has an acceptable width and a value
/// that fits it.
pub open spec fn fields_ok(fields: Seq<(u32, nat)>) -> bool {
    forall|i: int|
        0 <= i < fields.len() ==> valid_width((#[trigger] fields[i]).1) && fits_width(
            fields[i].0 as nat,
            fields[i].1,
        )
}

/// Where field `i` starts in the laid-down stream: after the bits of the
/// fields before it.
pub open spec fn field_offset(fields: Seq<(u32, nat)>, i: int) -> int {
    field_bits(fields.take(i)).len() as int
}

/// The stream of concatenated field sequences is the concatenation of
/// their streams.
pub proof fn lemma_field_bits_concat(a: Seq<(u32, nat)>, b: Seq<(u32, nat)>)
    ensures
        field_bits(a + b) == field_bits(a) + field_bits(b),
    decreases a.len(),
{
    if a.len() == 0 {
        assert(a + b =~= b);
        assert(field_bits(a) + field_bits(b) =~= field_bits(b));
    } else {
        assert((a + b).drop_first() =~= a.drop_first() + b);
        lemma_field_bits_concat(a.drop_first(), b);
        assert(bits_of((a + b)[0].0 as u64, (a + b)[0].1) + (field_bits(a.drop_first())
            + field_bits(b)) =~= field_bits(a) + field_bits(b));
    }
}

/// Round-trip law: lay down any sequence of fields with widths in the
/// accepted range and values that fit, append anything at all (such as
/// flush's zero padding), and reading each width back at its offset, in
/// order, reproduces each value exactly.
pub proof fn lemma_round_trip(fields: Seq<(u32, nat)>, i: int, tail: Seq<bool>)
    requires
        fields_ok(fields),
        0 <= i < fields.len(),
    ensures
        val_of(
            (field_bits(fields) + tail).subrange(
                field_offset(fields, i),
                field_offset(fields, i) + fields[i].1,
            ),
        ) == fields[i].0,
{
    let whole = field_bits(fields) + tail;
    let n = fields[i].1;
    let v = fields[i].0;
    lemma_field_bits_concat(fields.take(i), fields.skip(i));
    assert(fields.take(i) + fields.skip(i) =~= fields);
    let pre = field_bits(fields.take(i));
    let post = field_bits(fields.skip(i));
    assert(fields.skip(i)[0] == fields[i]);
    assert(post == bits_of(v as u64, n) + field_bits(fields.skip(i).drop_first()));
    assert forall|j: int| 0 <= j < n implies whole[field_offset(fields, i) + j] == (#[trigger] bits_of(
        v as u64,
        n,
    )[j]) by {
        assert(field_bits(fields)[pre.len() + j] == post[j]);
    }
    assert(whole.subrange(field_offset(fields, i), field_offset(fields, i) + n) =~= bits_of(
        v as u64,
        n,
    ));
    lemma_val_of_bits(v as u64, n);
}

/// A bit sequence is recovered from the value it encodes: `val_of` loses
/// nothing about sequences short enough for the register.
pub proof fn lemma_bits_of_val(s: Seq<bool>)
    requires
        s.len() <= 63,
    ensures
        val_of(s) < pow2(s.len()),
        bits_of(val_of(s) as u64, s.len()) == s,
    decreases s.len(),
{
    lemma_val_of_bound(s);
    vstd::arithmetic::power2::lemma_pow2_strictly_increases(s.len(), 64);
    lemma2_to64_rest();
    if s.len() == 0 {
        assert(bits_of(0u64, 0) =~= s);
    } else {
        let tail = s.drop_first();
        lemma_bits_of_val(tail);
        vstd::arithmetic::power2::lemma_pow2_strictly_increases(tail.len(), 63);
        let t = val_of(tail) as u64;
        let h: u64 = if s[0] {
            1u64
        } else {
            0u64
        };
        let v = val_of(s) as u64;
        assert(v & 1u64 == h && (v >> 1u64) == t) by (bit_vector)
            requires
                v == h + 2 * t,
                h == 0u64 || h == 1u64,
                t < 0x8000_0000_0000_0000u64,
        ;
        lemma_bits_of_shift(v, s.len());
        assert((v >> 0u64) & 1u64 == v & 1u64) by (bit_vector);
        assert(bits_of(v, s.len())[0] == s[0]);
        assert forall|i: int| 1 <= i < s.len() implies bits_of(v, s.len())[i] == s[i] by {
            assert(bits_of(v, s.len()).drop_first()[i - 1] == s.drop_first()[i - 1]);
        }
        assert(bits_of(v, s.len()) =~= s);
    }
}

} // verus!

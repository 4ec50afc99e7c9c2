use bitio::BitError;
use bitio::BitReader;
use bitio::BitWriter;
use bitio::ByteSource;
use bitio::MemSink;
use bitio::MemSource;

fn reader_over(bytes: Vec<u8>) -> BitReader<MemSource> {
    BitReader::new(MemSource::new(bytes))
}

fn writer() -> BitWriter<MemSink> {
    BitWriter::new(MemSink::new())
}

#[test]
fn round_trip_many_widths() {
    let fields: Vec<(u32, usize)> = vec![
        (1, 1),
        (0, 1),
        (5, 3),
        (0x7FFF_FFFF, 31),
        (0, 31),
        (0x1234, 16),
        (3, 2),
        (255, 8),
        (1, 31),
        (0b1011, 4),
        (99, 7),
    ];
    let mut w = writer();
    for &(value, width) in fields.iter() {
        w.write_bits(value, width).unwrap();
    }
    w.flush().unwrap();
    let bytes = w.into_sink().into_vec();
    let mut r = reader_over(bytes);
    for &(value, width) in fields.iter() {
        assert_eq!(r.read_bits(width).unwrap(), value);
    }
}

#[test]
fn byte_identity_all_values() {
    for b in 0..=255u8 {
        let mut w = writer();
        w.write_byte(b).unwrap();
        w.flush().unwrap();
        let bytes = w.into_sink().into_vec();
        assert_eq!(bytes, vec![b]);
        let mut r = reader_over(bytes);
        assert_eq!(r.read_byte().unwrap(), b);
    }
}

#[test]
fn split_equals_whole() {
    let byte = 0xB2u8;
    for k in 1..8usize {
        let mut split = reader_over(vec![byte]);
        let low = split.read_bits(k).unwrap();
        let high = split.read_bits(8 - k).unwrap();
        let mut whole = reader_over(vec![byte]);
        assert_eq!(low + (high << k), whole.read_byte().unwrap() as u32);
    }
}

#[test]
fn eof_is_deterministic_and_harmless() {
    let mut r = reader_over(Vec::new());
    for _ in 0..4 {
        assert_eq!(r.read_bit().unwrap_err(), BitError::EndOfStream);
        assert_eq!(r.read_bits(5).unwrap_err(), BitError::EndOfStream);
        assert_eq!(r.read_byte().unwrap_err(), BitError::EndOfStream);
    }
}

#[test]
fn eof_after_partial_refill_keeps_bits() {
    let mut r = reader_over(vec![0b1010_0101]);
    assert_eq!(r.read_bits(6).unwrap(), 0b10_0101);
    // Only two bits remain: a five-bit request must fail without
    // swallowing them.
    assert_eq!(r.read_bits(5).unwrap_err(), BitError::EndOfStream);
    assert_eq!(r.read_bits(2).unwrap(), 0b10);
    assert_eq!(r.read_bit().unwrap_err(), BitError::EndOfStream);
}

#[test]
fn flush_pads_with_zeros_and_is_idempotent() {
    let mut w = writer();
    w.write_bits(0b101, 3).unwrap();
    w.flush().unwrap();
    assert_eq!(w.sink_ref().as_vec(), &vec![0b0000_0101u8]);
    w.flush().unwrap();
    let bytes = w.into_sink().into_vec();
    assert_eq!(bytes, vec![0b0000_0101u8]);
}

#[test]
fn scenario_read_three_then_five() {
    let mut r = reader_over(vec![0b1011_0010]);
    assert_eq!(r.read_bits(3).unwrap(), 0b010);
    assert_eq!(r.read_bits(5).unwrap(), 0b10110);
    assert_eq!(r.read_bit().unwrap_err(), BitError::EndOfStream);
}

#[test]
fn scenario_write_three_then_two() {
    let mut w = writer();
    w.write_bits(0b101, 3).unwrap();
    w.write_bits(0b11, 2).unwrap();
    w.flush().unwrap();
    assert_eq!(w.into_sink().into_vec(), vec![0x1D]);
}

#[test]
fn invalid_widths_are_rejected_without_damage() {
    let mut r = reader_over(vec![0xA5]);
    assert_eq!(r.read_bits(0).unwrap_err(), BitError::InvalidArgument);
    assert_eq!(r.read_bits(32).unwrap_err(), BitError::InvalidArgument);
    assert_eq!(r.read_bits(1000).unwrap_err(), BitError::InvalidArgument);
    // The stream is untouched by the rejections.
    assert_eq!(r.read_byte().unwrap(), 0xA5);

    let mut w = writer();
    assert_eq!(w.write_bits(0, 0).unwrap_err(), BitError::InvalidArgument);
    assert_eq!(w.write_bits(1, 32).unwrap_err(), BitError::InvalidArgument);
    // A value that does not fit the width is rejected too.
    assert_eq!(w.write_bits(4, 2).unwrap_err(), BitError::InvalidArgument);
    w.write_bits(3, 2).unwrap();
    w.flush().unwrap();
    assert_eq!(w.into_sink().into_vec(), vec![0b11]);
}

#[test]
fn read_bytes_fills_prefix_and_reports_eof() {
    let mut r = reader_over(vec![1, 2, 3]);
    let mut dest = vec![0xEEu8; 5];
    assert_eq!(r.read_bytes(&mut dest, 5).unwrap_err(), BitError::EndOfStream);
    // The three delivered bytes stay delivered; the rest is untouched.
    assert_eq!(dest, vec![1, 2, 3, 0xEE, 0xEE]);
}

#[test]
fn read_bytes_whole_count() {
    let mut r = reader_over(vec![10, 20, 30, 40]);
    let mut dest = vec![0u8; 4];
    assert_eq!(r.read_bytes(&mut dest, 3).unwrap(), 3);
    assert_eq!(dest, vec![10, 20, 30, 0]);
    assert_eq!(r.read_byte().unwrap(), 40);
}

#[test]
fn read_bytes_misaligned() {
    let mut r = reader_over(vec![0b1011_0010, 0xFF]);
    assert_eq!(r.read_bits(4).unwrap(), 0b0010);
    // The next byte straddles the two source bytes.
    assert_eq!(r.read_byte().unwrap(), 0b1111_1011);
}

#[test]
fn writer_packs_across_byte_boundaries() {
    let mut w = writer();
    w.write_bits(0x5A5, 12).unwrap();
    w.write_bits(0b110, 3).unwrap();
    w.write_bit(true).unwrap();
    w.flush().unwrap();
    let bytes = w.into_sink().into_vec();
    assert_eq!(bytes.len(), 2);
    let mut r = reader_over(bytes);
    assert_eq!(r.read_bits(12).unwrap(), 0x5A5);
    assert_eq!(r.read_bits(3).unwrap(), 0b110);
    assert!(r.read_bit().unwrap());
}

#[test]
fn write_bytes_then_read_bytes() {
    let data = vec![0xDE, 0xAD, 0xBE, 0xEF];
    let mut w = writer();
    w.write_bytes(&data).unwrap();
    w.flush().unwrap();
    let bytes = w.into_sink().into_vec();
    assert_eq!(bytes, data);
    let mut r = reader_over(bytes);
    let mut dest = vec![0u8; 4];
    assert_eq!(r.read_bytes(&mut dest, 4).unwrap(), 4);
    assert_eq!(dest, data);
}

#[test]
fn write_bytes_after_a_partial_field_shifts_them() {
    let mut w = writer();
    w.write_bit(true).unwrap();
    w.write_bytes(&vec![0x00, 0xFF]).unwrap();
    w.flush().unwrap();
    // One set bit, eight clear bits, eight set bits, then zero padding.
    assert_eq!(w.into_sink().into_vec(), vec![0b0000_0001, 0b1111_1110, 0b0000_0001]);
}

#[test]
fn bit_level_round_trip() {
    let pattern = [true, false, true, true, false, false, true, false, true];
    let mut w = writer();
    for &bit in pattern.iter() {
        w.write_bit(bit).unwrap();
    }
    w.flush().unwrap();
    let mut r = reader_over(w.into_sink().into_vec());
    for &bit in pattern.iter() {
        assert_eq!(r.read_bit().unwrap(), bit);
    }
    // The seven padding bits are zero.
    assert_eq!(r.read_bits(7).unwrap(), 0);
}

#[test]
fn reader_is_itself_a_byte_source() {
    let mut inner = reader_over(vec![0x2B, 0x01]);
    assert_eq!(inner.read_bits(4).unwrap(), 0xB);
    let mut outer = BitReader::new(inner);
    // The outer reader sees the remaining bits regrouped into bytes.
    assert_eq!(outer.read_byte().unwrap(), 0b0001_0010);
    assert_eq!(outer.read_byte().unwrap_err(), BitError::EndOfStream);
}

#[test]
fn mem_source_hands_out_bytes_one_at_a_time() {
    let mut src = MemSource::new(vec![7, 9]);
    assert_eq!(src.attempt_read().unwrap(), Some(7));
    assert_eq!(src.attempt_read().unwrap(), Some(9));
    assert_eq!(src.attempt_read().unwrap(), None);
    assert_eq!(src.attempt_read().unwrap(), None);
}

#[test]
fn large_fields_cross_many_bytes() {
    let mut w = writer();
    w.write_bits(0x7EAD_BEEF & 0x7FFF_FFFF, 31).unwrap();
    w.write_bits(0x3FFF_FFFF, 30).unwrap();
    w.flush().unwrap();
    let mut r = reader_over(w.into_sink().into_vec());
    assert_eq!(r.read_bits(31).unwrap(), 0x7EAD_BEEF & 0x7FFF_FFFF);
    assert_eq!(r.read_bits(30).unwrap(), 0x3FFF_FFFF);
}

use bitio_rs::byte_order::ByteOrder;
use bitio_rs::error::BitReadWriteError;
use bitio_rs::reader::BitReader;
use bitio_rs::source::ByteCursor;
use bitio_rs::traits::{BitRead, BitWrite};
use bitio_rs::writer::BitWriter;

#[test]
fn test_write_bits_big_endian() {
    let mut buf = Vec::new();
    let mut writer = BitWriter::with_byte_order(ByteOrder::BigEndian, &mut buf);
    writer.write_bits(0b1010, 4).unwrap();
    writer.write_bits(0b1100, 4).unwrap();
    writer.flush().unwrap();
    drop(writer);
    assert_eq!(buf, vec![0xAC]);
}

#[test]
fn test_write_bits_little_endian() {
    let mut buf = Vec::new();
    let mut writer = BitWriter::with_byte_order(ByteOrder::LittleEndian, &mut buf);
    writer.write_bits(0b1010, 4).unwrap();
    writer.write_bits(0b1100, 4).unwrap();
    writer.flush().unwrap();
    drop(writer);
    assert_eq!(buf, vec![0xCA]);
}

#[test]
fn test_mixed_write_and_write_bits() {
    let mut buf = Vec::new();
    let mut writer = BitWriter::new(&mut buf);
    writer.write_bits(0xFF, 8).unwrap();
    let data = [0x11, 0x22, 0x33];
    writer.write(&data).unwrap();
    writer.write_bits(0b101, 3).unwrap();
    writer.flush().unwrap();
    drop(writer);
    assert_eq!(buf, vec![0xFF, 0x11, 0x22, 0x33, 0xA0]);
}

#[test]
fn test_write_bytes_when_buffer_empty() {
    let mut buf = Vec::new();
    let mut writer = BitWriter::new(&mut buf);
    let data = [1, 2, 3, 4];
    let n = writer.write(&data).unwrap();
    writer.flush().unwrap();
    assert_eq!(n, 4);
    drop(writer);
    assert_eq!(buf, vec![1, 2, 3, 4]);
}

#[test]
fn test_partial_byte_flush_padding() {
    let mut buf = Vec::new();
    let mut writer = BitWriter::new(&mut buf);
    writer.write_bits(0b111, 3).unwrap();
    writer.flush().unwrap();
    drop(writer);
    assert_eq!(buf, vec![0xE0]);
}

#[test]
fn test_mixed_write_and_write_bits_big_endian() {
    let mut buffer = Vec::new();
    let mut writer = BitWriter::with_byte_order(ByteOrder::BigEndian, &mut buffer);
    writer.write(&[0xFF]).unwrap();
    writer.write_bits(0x11, 8).unwrap();
    writer.write_bits(0x22, 8).unwrap();
    writer.write_bits(0x33, 8).unwrap();
    writer.write_bits(0x14, 5).unwrap();
    writer.flush().unwrap();
    drop(writer);
    assert_eq!(buffer, vec![0xFF, 0x11, 0x22, 0x33, 0xA0]);
}

#[test]
fn test_mixed_write_and_write_bits_little_endian() {
    let mut buffer = Vec::new();
    let mut writer = BitWriter::with_byte_order(ByteOrder::LittleEndian, &mut buffer);
    writer.write(&[0xFF]).unwrap();
    writer.write_bits(0x11, 8).unwrap();
    writer.write_bits(0x22, 8).unwrap();
    writer.write_bits(0x33, 8).unwrap();
    writer.write_bits(0x14, 5).unwrap();
    writer.flush().unwrap();
    drop(writer);
    assert_eq!(buffer, vec![0xFF, 0x11, 0x22, 0x33, 0x14]);
}

#[test]
fn test_write_zero_bits() {
    let mut buffer = Vec::new();
    let mut writer = BitWriter::new(&mut buffer);
    assert!(writer.write_bits(0x1234, 0).is_err());
}

#[test]
fn test_write_64_bits_big_endian() {
    let mut buffer = Vec::new();
    let mut writer = BitWriter::with_byte_order(ByteOrder::BigEndian, &mut buffer);
    writer.write_bits(0x0123456789ABCDEF, 64).unwrap();
    writer.flush().unwrap();
    drop(writer);
    assert_eq!(buffer, vec![0x01, 0x23, 0x45, 0x67, 0x89, 0xAB, 0xCD, 0xEF]);
}

#[test]
fn test_write_64_bits_little_endian() {
    let mut buffer = Vec::new();
    let mut writer = BitWriter::with_byte_order(ByteOrder::LittleEndian, &mut buffer);
    writer.write_bits(0x0123456789ABCDEF, 64).unwrap();
    writer.flush().unwrap();
    drop(writer);
    assert_eq!(buffer, vec![0xEF, 0xCD, 0xAB, 0x89, 0x67, 0x45, 0x23, 0x01]);
}

#[test]
fn test_write_65_bits() {
    let mut buffer = Vec::new();
    let mut writer = BitWriter::new(&mut buffer);
    assert!(writer.write_bits(0x1, 65).is_err());
}

#[test]
fn test_7_bits_then_1_bit_big_endian() {
    let mut buffer = Vec::new();
    let mut writer = BitWriter::with_byte_order(ByteOrder::BigEndian, &mut buffer);
    writer.write_bits(0x7F, 7).unwrap();
    writer.write_bits(0x1, 1).unwrap();
    writer.flush().unwrap();
    drop(writer);
    assert_eq!(buffer, vec![0xFF]);
}

#[test]
fn test_7_bits_then_1_bit_little_endian() {
    let mut buffer = Vec::new();
    let mut writer = BitWriter::with_byte_order(ByteOrder::LittleEndian, &mut buffer);
    writer.write_bits(0x7F, 7).unwrap();
    writer.write_bits(0x1, 1).unwrap();
    writer.flush().unwrap();
    drop(writer);
    assert_eq!(buffer, vec![0xFF]);
}

#[test]
fn test_byte_then_7_bits_then_1_bit_big_endian() {
    let mut buffer = Vec::new();
    let mut writer = BitWriter::with_byte_order(ByteOrder::BigEndian, &mut buffer);
    writer.write(&[0xAA]).unwrap();
    writer.write_bits(0x7F, 7).unwrap();
    writer.write_bits(0x1, 1).unwrap();
    writer.flush().unwrap();
    drop(writer);
    assert_eq!(buffer, vec![0xAA, 0xFF]);
}

#[test]
fn test_byte_then_7_bits_then_1_bit_little_endian() {
    let mut buffer = Vec::new();
    let mut writer = BitWriter::with_byte_order(ByteOrder::LittleEndian, &mut buffer);
    writer.write(&[0xAA]).unwrap();
    writer.write_bits(0x7F, 7).unwrap();
    writer.write_bits(0x1, 1).unwrap();
    writer.flush().unwrap();
    drop(writer);
    assert_eq!(buffer, vec![0xAA, 0xFF]);
}

#[test]
fn test_flush_in_middle_big_endian() {
    let mut buffer = Vec::new();
    let mut writer = BitWriter::with_byte_order(ByteOrder::BigEndian, &mut buffer);
    writer.write_bits(0x0F, 4).unwrap();
    writer.flush().unwrap();
    writer.write(&[0xAA]).unwrap();
    writer.write_bits(0x0F, 4).unwrap();
    writer.flush().unwrap();
    drop(writer);
    assert_eq!(buffer, vec![0xF0, 0xAA, 0xF0]);
}

#[test]
fn test_flush_in_middle_little_endian() {
    let mut buffer = Vec::new();
    let mut writer = BitWriter::with_byte_order(ByteOrder::LittleEndian, &mut buffer);
    writer.write_bits(0x0F, 4).unwrap();
    writer.flush().unwrap();
    writer.write(&[0xAA]).unwrap();
    writer.write_bits(0x0F, 4).unwrap();
    writer.flush().unwrap();
    drop(writer);
    assert_eq!(buffer, vec![0x0F, 0xAA, 0x0F]);
}

#[test]
fn test_write_64_bits_then_1_bit_big_endian() {
    let mut buffer = Vec::new();
    let mut writer = BitWriter::with_byte_order(ByteOrder::BigEndian, &mut buffer);
    writer.write_bits(0x0123456789ABCDEF, 64).unwrap();
    writer.write_bits(0x1, 1).unwrap();
    writer.flush().unwrap();
    drop(writer);
    assert_eq!(
        buffer,
        vec![0x01, 0x23, 0x45, 0x67, 0x89, 0xAB, 0xCD, 0xEF, 0x80]
    );
}

#[test]
fn test_write_64_bits_then_1_bit_little_endian() {
    let mut buffer = Vec::new();
    let mut writer = BitWriter::with_byte_order(ByteOrder::LittleEndian, &mut buffer);
    writer.write_bits(0x0123456789ABCDEF, 64).unwrap();
    writer.write_bits(0x1, 1).unwrap();
    writer.flush().unwrap();
    drop(writer);
    assert_eq!(
        buffer,
        vec![0xEF, 0xCD, 0xAB, 0x89, 0x67, 0x45, 0x23, 0x01, 0x01]
    );
}

#[test]
fn test_partial_byte_flush_big_endian() {
    let mut buffer = Vec::new();
    let mut writer = BitWriter::with_byte_order(ByteOrder::BigEndian, &mut buffer);
    writer.write_bits(0x0F, 4).unwrap();
    writer.flush().unwrap();
    drop(writer);
    assert_eq!(buffer, vec![0xF0]);
}

#[test]
fn test_partial_byte_flush_little_endian() {
    let mut buffer = Vec::new();
    let mut writer = BitWriter::with_byte_order(ByteOrder::LittleEndian, &mut buffer);
    writer.write_bits(0x0F, 4).unwrap();
    writer.flush().unwrap();
    drop(writer);
    assert_eq!(buffer, vec![0x0F]);
}

// ------------------------------- Further cases ------------------------------- //

#[test]
fn invalid_widths_are_refused_and_write_nothing() {
    let mut writer = BitWriter::new(Vec::new());
    assert_eq!(writer.write_bits(0x1234, 0), Err(BitReadWriteError::InvalidBitCount(0)));
    assert_eq!(writer.write_bits(0x1, 65), Err(BitReadWriteError::InvalidBitCount(65)));
    assert_eq!(
        writer.write_bits(0x1, usize::MAX),
        Err(BitReadWriteError::InvalidBitCount(usize::MAX))
    );
    assert_eq!(writer.into_inner(), Vec::<u8>::new());
}

#[test]
fn bits_above_the_width_are_ignored() {
    let mut writer = BitWriter::new(Vec::new());
    writer.write_bits(0xFFFF_FFFF_FFFF_FFF5, 4).unwrap();
    writer.write_bits(0xABC3, 4).unwrap();
    assert_eq!(writer.into_inner(), vec![0x53]);
}

#[test]
fn into_inner_pads_what_is_pending() {
    let mut writer = BitWriter::new(Vec::new());
    writer.write_bits(0b101, 3).unwrap();
    assert_eq!(writer.into_inner(), vec![0b1010_0000]);

    let mut writer = BitWriter::with_byte_order(ByteOrder::LittleEndian, Vec::new());
    writer.write_bits(0b101, 3).unwrap();
    assert_eq!(writer.into_inner(), vec![0b0000_0101]);
}

#[test]
fn flush_with_nothing_pending_writes_nothing() {
    let mut writer = BitWriter::new(vec![9u8]);
    writer.flush().unwrap();
    writer.write_bits(0xAB, 8).unwrap();
    writer.flush().unwrap();
    writer.flush().unwrap();
    assert_eq!(writer.into_inner(), vec![9, 0xAB]);
}

#[test]
fn bytes_written_behind_pending_bits_do_not_overtake_them() {
    let mut writer = BitWriter::new(Vec::new());
    writer.write_bits(0b101, 3).unwrap();
    assert_eq!(writer.write(&[0xFF, 0x00, 0xFF, 0x00, 0xFF, 0x00, 0xFF, 0x00, 0xFF]), Ok(9));
    writer.write_bits(0b00001, 5).unwrap();
    assert_eq!(
        writer.into_inner(),
        vec![0xBF, 0xE0, 0x1F, 0xE0, 0x1F, 0xE0, 0x1F, 0xE0, 0x1F, 0xE1]
    );
}

#[test]
fn bytes_written_behind_pending_bits_little_endian() {
    let mut writer = BitWriter::with_byte_order(ByteOrder::LittleEndian, Vec::new());
    writer.write_bits(0b1, 1).unwrap();
    assert_eq!(writer.write(&[0xFF, 0x00]), Ok(2));
    writer.write_bits(0, 7).unwrap();
    assert_eq!(writer.into_inner(), vec![0xFF, 0x01, 0x00]);
}

#[test]
fn writing_no_bytes_writes_nothing() {
    let mut writer = BitWriter::new(Vec::new());
    writer.write_bits(1, 1).unwrap();
    assert_eq!(writer.write(&[]), Ok(0));
    assert_eq!(writer.into_inner(), vec![0x80]);
}

#[test]
fn wide_write_off_a_byte_boundary() {
    let mut writer = BitWriter::new(Vec::new());
    writer.write_bits(0xA, 4).unwrap();
    writer.write_bits(0x1234_5678_9ABC_DEF0, 64).unwrap();
    writer.write_bits(0xF, 4).unwrap();
    assert_eq!(
        writer.into_inner(),
        vec![0xA1, 0x23, 0x45, 0x67, 0x89, 0xAB, 0xCD, 0xEF, 0x0F]
    );
}

#[test]
fn wide_write_off_a_byte_boundary_little_endian() {
    let mut writer = BitWriter::with_byte_order(ByteOrder::LittleEndian, Vec::new());
    writer.write_bits(0xA, 4).unwrap();
    writer.write_bits(0x0FED_CBA9_8765_4321, 64).unwrap();
    writer.write_bits(0xF, 4).unwrap();
    assert_eq!(
        writer.into_inner(),
        vec![0x1A, 0x32, 0x54, 0x76, 0x98, 0xBA, 0xDC, 0xFE, 0xF0]
    );
}

fn round_trip(order: ByteOrder, fields: &[(u64, usize)]) {
    let mut writer = BitWriter::with_byte_order(order, Vec::new());
    for &(value, n) in fields.iter() {
        writer.write_bits(value, n).unwrap();
    }
    let bytes = writer.into_inner();
    let total: usize = fields.iter().map(|&(_, n)| n).sum();
    assert_eq!(bytes.len(), (total + 7) / 8);
    let mut reader = BitReader::with_byte_order(order, ByteCursor::new(bytes));
    for &(value, n) in fields.iter() {
        let mask = if n == 64 { u64::MAX } else { (1u64 << n) - 1 };
        assert_eq!(reader.read_bits(n), Ok(value & mask));
    }
}

#[test]
fn round_trip_big_endian() {
    round_trip(
        ByteOrder::BigEndian,
        &[
            (0b101, 3),
            (0xABCD, 16),
            (u64::MAX, 64),
            (0x1, 1),
            (0x0123_4567_89AB_CDEF, 61),
            (0xFFFF, 7),
            (0, 64),
            (0xDEAD_BEEF, 32),
            (0x15, 5),
            (0x8000_0000_0000_0001, 64),
        ],
    );
}

#[test]
fn round_trip_little_endian() {
    round_trip(
        ByteOrder::LittleEndian,
        &[
            (0b101, 3),
            (0xABCD, 16),
            (u64::MAX, 64),
            (0x1, 1),
            (0x0123_4567_89AB_CDEF, 61),
            (0xFFFF, 7),
            (0, 64),
            (0xDEAD_BEEF, 32),
            (0x15, 5),
            (0x8000_0000_0000_0001, 64),
        ],
    );
}

#[test]
fn round_trip_of_every_width() {
    for &order in [ByteOrder::BigEndian, ByteOrder::LittleEndian].iter() {
        let fields: Vec<(u64, usize)> = (1..=64usize)
            .map(|n| (0x9E37_79B9_7F4A_7C15u64.wrapping_mul(n as u64), n))
            .collect();
        round_trip(order, &fields);
    }
}

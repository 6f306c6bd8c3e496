use bitio_rs::error::BitReadWriteError;
use bitio_rs::fast::reader::{FastBitReaderBig, FastBitReaderLittle};
use bitio_rs::source::ByteCursor;

#[test]
fn test_big_endian_basic() {
    let data = [0b1010_1010, 0b1100_1100];
    let mut reader = FastBitReaderBig::new(ByteCursor::new(data.to_vec()));
    assert_eq!(reader.read_bits_fast(4).unwrap(), 0b1010);
    assert_eq!(reader.read_bits_fast(4).unwrap(), 0b1010);
    assert_eq!(reader.read_bits_fast(8).unwrap(), 0b1100_1100);
}

#[test]
fn test_big_endian_cross_byte() {
    let data = [0b1100_1100, 0b1010_1010];
    let mut reader = FastBitReaderBig::new(ByteCursor::new(data.to_vec()));
    assert_eq!(reader.read_bits_fast(3).unwrap(), 0b110);
    assert_eq!(reader.read_bits_fast(10).unwrap(), 0b0_11001010_1);
}

#[test]
fn test_big_endian_large_read() {
    let data = [0x12, 0x34, 0x56, 0x78, 0x9A, 0xBC, 0xDE, 0xF0];
    let mut reader = FastBitReaderBig::new(ByteCursor::new(data.to_vec()));
    assert_eq!(reader.read_bits_fast(64).unwrap(), 0x123456789ABCDEF0);
}

#[test]
fn test_big_endian_multiple_fills() {
    let data = [0xFF; 16];
    let mut reader = FastBitReaderBig::new(ByteCursor::new(data.to_vec()));
    assert_eq!(reader.read_bits_fast(56).unwrap(), 0xFFFFFFFFFFFFFF);
    assert_eq!(reader.read_bits_fast(64).unwrap(), 0xFFFFFFFFFFFFFFFF);
}

#[test]
fn test_little_endian_basic() {
    let data = [0b1010_1010, 0b1100_1100];
    let mut reader = FastBitReaderLittle::new(ByteCursor::new(data.to_vec()));
    assert_eq!(reader.read_bits_fast(4).unwrap(), 0b1010);
    assert_eq!(reader.read_bits_fast(4).unwrap(), 0b1010);
    assert_eq!(reader.read_bits_fast(8).unwrap(), 0b1100_1100);
}

#[test]
fn test_little_endian_cross_byte() {
    let data = [0b0000_0001, 0b1000_0000];
    let mut reader = FastBitReaderLittle::new(ByteCursor::new(data.to_vec()));
    assert_eq!(reader.read_bits_fast(1).unwrap(), 1);
    assert_eq!(reader.read_bits_fast(7).unwrap(), 0);
    assert_eq!(reader.read_bits_fast(1).unwrap(), 0);
    assert_eq!(reader.read_bits_fast(7).unwrap(), 0b1000000);
}

#[test]
fn test_little_endian_large_read() {
    let data = [0x01, 0x02, 0x03, 0x04, 0x05, 0x06, 0x07, 0x08];
    let mut reader = FastBitReaderLittle::new(ByteCursor::new(data.to_vec()));
    assert_eq!(reader.read_bits_fast(64).unwrap(), 0x0807060504030201);
}

#[test]
fn test_little_endian_multiple_fills() {
    let data = [0x01, 0x02, 0x03, 0x04, 0x05, 0x06, 0x07, 0x08, 0x09];
    let mut reader = FastBitReaderLittle::new(ByteCursor::new(data.to_vec()));
    assert_eq!(reader.read_bits_fast(56).unwrap(), 0x07060504030201);
    assert_eq!(reader.read_bits_fast(16).unwrap(), 0x0908);
}

#[test]
fn test_read_past_end() {
    let data = [0x12, 0x34];
    let mut reader = FastBitReaderBig::new(ByteCursor::new(data.to_vec()));
    assert_eq!(reader.read_bits_fast(16).unwrap(), 0x1234);
    assert!(reader.read_bits_fast(1).is_err());
}

#[test]
fn test_zero_bits() {
    let data = [0xAA];
    let mut reader = FastBitReaderLittle::new(ByteCursor::new(data.to_vec()));
    assert!(reader.read_bits_fast(0).is_err());
    assert_eq!(reader.read_bits_fast(8).unwrap(), 0xAA);
}

#[test]
fn test_read_more_than_64_bits() {
    let data = [0xFF; 16];
    let mut reader = FastBitReaderBig::new(ByteCursor::new(data.to_vec()));
    let result = reader.read_bits_fast(65);
    assert!(result.is_err());
}

#[test]
fn fast_readers_name_their_errors() {
    let mut big = FastBitReaderBig::new(ByteCursor::new(vec![0x12]));
    assert_eq!(big.read_bits_fast(0), Err(BitReadWriteError::InvalidBitCount(0)));
    assert_eq!(big.read_bits_fast(65), Err(BitReadWriteError::InvalidBitCount(65)));
    assert_eq!(big.read_bits_fast(9), Err(BitReadWriteError::UnexpectedEof));
    let mut little = FastBitReaderLittle::new(ByteCursor::new(vec![0x12]));
    assert_eq!(little.read_bits_fast(0), Err(BitReadWriteError::InvalidBitCount(0)));
    assert_eq!(little.read_bits_fast(65), Err(BitReadWriteError::InvalidBitCount(65)));
    assert_eq!(little.read_bits_fast(9), Err(BitReadWriteError::UnexpectedEof));
}

#[test]
fn fast_big_keeps_bytes_pulled_before_the_end() {
    let mut reader = FastBitReaderBig::new(ByteCursor::new(vec![0xAB, 0xCD]));
    assert_eq!(reader.read_bits_fast(24), Err(BitReadWriteError::UnexpectedEof));
    assert_eq!(reader.read_bits_fast(12), Ok(0xABC));
    assert_eq!(reader.read_bits_fast(4), Ok(0xD));
    assert_eq!(reader.read_bits_fast(1), Err(BitReadWriteError::UnexpectedEof));
}

#[test]
fn fast_little_keeps_bytes_pulled_before_the_end() {
    let mut reader = FastBitReaderLittle::new(ByteCursor::new(vec![0xAB, 0xCD]));
    assert_eq!(reader.read_bits_fast(24), Err(BitReadWriteError::UnexpectedEof));
    assert_eq!(reader.read_bits_fast(12), Ok(0xDAB));
    assert_eq!(reader.read_bits_fast(4), Ok(0xC));
    assert_eq!(reader.read_bits_fast(1), Err(BitReadWriteError::UnexpectedEof));
}

#[test]
fn fast_big_reads_64_bits_off_a_byte_boundary() {
    let data = vec![0xA1, 0x23, 0x45, 0x67, 0x89, 0xAB, 0xCD, 0xEF, 0x0F];
    let mut reader = FastBitReaderBig::new(ByteCursor::new(data));
    assert_eq!(reader.read_bits_fast(4), Ok(0xA));
    assert_eq!(reader.read_bits_fast(64), Ok(0x1234_5678_9ABC_DEF0));
    assert_eq!(reader.read_bits_fast(4), Ok(0xF));
    assert_eq!(reader.read_bits_fast(1), Err(BitReadWriteError::UnexpectedEof));
}

#[test]
fn fast_little_reads_64_bits_off_a_byte_boundary() {
    let data = vec![0x1A, 0x32, 0x54, 0x76, 0x98, 0xBA, 0xDC, 0xFE, 0xF0];
    let mut reader = FastBitReaderLittle::new(ByteCursor::new(data));
    assert_eq!(reader.read_bits_fast(4), Ok(0xA));
    assert_eq!(reader.read_bits_fast(64), Ok(0x0FED_CBA9_8765_4321));
    assert_eq!(reader.read_bits_fast(4), Ok(0xF));
    assert_eq!(reader.read_bits_fast(1), Err(BitReadWriteError::UnexpectedEof));
}

#[test]
fn fast_big_fails_off_a_byte_boundary_when_the_last_byte_is_missing() {
    let data = vec![0xA1, 0x23, 0x45, 0x67, 0x89, 0xAB, 0xCD, 0xEF];
    let mut reader = FastBitReaderBig::new(ByteCursor::new(data));
    assert_eq!(reader.read_bits_fast(4), Ok(0xA));
    assert_eq!(reader.read_bits_fast(64), Err(BitReadWriteError::UnexpectedEof));
    assert_eq!(reader.read_bits_fast(60), Ok(0x0123_4567_89AB_CDEF));
}

use bitio_rs::error::BitReadWriteError;

#[test]
fn invalid_bit_count_names_the_count() {
    assert_eq!(
        BitReadWriteError::InvalidBitCount(0).to_string(),
        "Bit count must be between 1-64, got 0"
    );
    assert_eq!(
        BitReadWriteError::InvalidBitCount(7).to_string(),
        "Bit count must be between 1-64, got 7"
    );
    assert_eq!(
        BitReadWriteError::InvalidBitCount(65).to_string(),
        "Bit count must be between 1-64, got 65"
    );
    assert_eq!(
        BitReadWriteError::InvalidBitCount(1_234_567_890).to_string(),
        "Bit count must be between 1-64, got 1234567890"
    );
    assert_eq!(
        BitReadWriteError::InvalidBitCount(usize::MAX).to_string(),
        format!("Bit count must be between 1-64, got {}", usize::MAX)
    );
}

#[test]
fn end_of_stream_and_alignment_have_fixed_texts() {
    assert_eq!(BitReadWriteError::UnexpectedEof.to_string(), "Unexpected end of stream");
    assert_eq!(
        BitReadWriteError::UnalignedAccess.to_string(),
        "Attempted to consume bytes while bits are buffered"
    );
}

#[test]
fn errors_compare_by_kind_and_count() {
    assert_eq!(BitReadWriteError::InvalidBitCount(3), BitReadWriteError::InvalidBitCount(3));
    assert_ne!(BitReadWriteError::InvalidBitCount(3), BitReadWriteError::InvalidBitCount(4));
    assert_ne!(BitReadWriteError::UnexpectedEof, BitReadWriteError::UnalignedAccess);
    let copy = BitReadWriteError::UnexpectedEof;
    let same = copy;
    assert_eq!(copy, same);
}

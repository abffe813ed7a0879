use lib::binary::{BitReader, BitWriter, Error, Reader, Writer};

#[test]
fn endian_round_trip_and_bounds() {
    let mut writer = Writer::new();
    writer.write_u16_le(0x1234);
    writer.write_i32_le(-42);
    writer.write_u32_le(1.25f32.to_bits());
    writer.write_cstr(b"source");

    let bytes = writer.into_inner();
    let mut reader = Reader::new(&bytes);
    assert_eq!(reader.read_u16_le().unwrap(), 0x1234);
    assert_eq!(reader.read_i32_le().unwrap(), -42);
    assert_eq!(f32::from_bits(reader.read_u32_le().unwrap()), 1.25);
    assert_eq!(reader.read_cstr(6).unwrap(), b"source");
    assert!(reader.is_empty());
    assert!(matches!(reader.read_u8(), Err(Error::UnexpectedEof { .. })));
}

#[test]
fn strings_are_bounded() {
    let mut reader = Reader::new(b"abcdef\0");
    assert!(matches!(
        reader.read_cstr(3),
        Err(Error::UnterminatedString { .. }) | Err(Error::LimitExceeded { .. })
    ));
}

#[test]
fn source_bit_order_round_trips() {
    let mut writer = BitWriter::new();
    writer.write_bits(0b101, 3).unwrap();
    writer.write_bits(0x12f, 9).unwrap();
    writer.write_bool(true).unwrap();
    assert_eq!(writer.len_bits(), 13);

    let mut reader = BitReader::new(writer.as_slice());
    assert_eq!(reader.read_bits(3).unwrap(), 0b101);
    assert_eq!(reader.read_bits(9).unwrap(), 0x12f);
    assert!(reader.read_bool().unwrap());
    assert_eq!(reader.remaining(), 3);

    let mut reader = BitReader::with_bit_len(writer.as_slice(), 13).unwrap();
    assert_eq!(reader.peek_bits(3).unwrap(), 0b101);
    assert_eq!(reader.position(), 0);
    reader.skip_bits(12).unwrap();
    assert!(reader.read_bool().unwrap());
    assert_eq!(reader.remaining(), 0);
}

#[test]
fn patch_and_align_are_checked() {
    let mut writer = Writer::new();
    writer.write_u32_le(0);
    writer.write_u8(1);
    writer.align(4).unwrap();
    writer.patch_u32_le(0, 0xfeed_beef).unwrap();
    assert_eq!(writer.as_slice(), &[0xef, 0xbe, 0xed, 0xfe, 1, 0, 0, 0]);
    assert!(writer.patch_u32_le(6, 0).is_err());
}

#[test]
fn every_width_reads_back_what_was_written() {
    let mut writer = Writer::new();
    writer.write_u8(0xab);
    writer.write_i16_le(-2);
    writer.write_u64_le(0x0102_0304_0506_0708);
    writer.write_i64_le(i64::MIN);
    let bytes = writer.into_inner();
    assert_eq!(&bytes[..3], &[0xab, 0xfe, 0xff]);
    let mut reader = Reader::new(&bytes);
    assert_eq!(reader.read_u8().unwrap(), 0xab);
    assert_eq!(reader.read_i16_le().unwrap(), -2);
    assert_eq!(reader.read_u64_le().unwrap(), 0x0102_0304_0506_0708);
    assert_eq!(reader.read_i64_le().unwrap(), i64::MIN);
    assert_eq!(reader.remaining(), 0);
}

#[test]
fn a_short_read_moves_nothing() {
    let bytes = [1u8, 2, 3];
    let mut reader = Reader::new(&bytes);
    assert!(matches!(
        reader.read_u32_le(),
        Err(Error::UnexpectedEof { offset: 0, requested: 4, remaining: 3 })
    ));
    assert_eq!(reader.position(), 0);
    assert_eq!(reader.read_u16_le().unwrap(), 0x0201);
}

#[test]
fn seeking_and_skipping_stay_inside_the_bytes() {
    let bytes = [0u8; 8];
    let mut reader = Reader::with_position(&bytes, 8).unwrap();
    assert!(reader.is_empty());
    assert!(matches!(
        Reader::with_position(&bytes, 9),
        Err(Error::InvalidSeek { offset: 9, length: 8 })
    ));
    reader.seek(2).unwrap();
    assert!(reader.skip(7).is_err());
    assert_eq!(reader.position(), 2);
    assert_eq!(reader.take(3).unwrap().len(), 3);
    assert_eq!(reader.remaining(), 3);
}

#[test]
fn a_string_within_its_limit_is_read_up_to_its_nul() {
    let mut reader = Reader::new(b"ab\0cd");
    assert_eq!(reader.read_cstr(8).unwrap(), b"ab");
    assert_eq!(reader.position(), 3);
}

#[test]
fn alignment_must_be_a_power_of_two() {
    let mut writer = Writer::new();
    writer.write_u8(7);
    assert!(writer.align(3).is_err());
    assert_eq!(writer.position(), 1);
    writer.align(8).unwrap();
    assert_eq!(writer.as_slice(), &[7, 0, 0, 0, 0, 0, 0, 0]);
}

#[test]
fn bit_counts_past_sixty_four_are_refused() {
    let mut writer = BitWriter::new();
    assert!(matches!(writer.write_bits(0, 65), Err(Error::InvalidBitCount(65))));
    assert!(writer.is_empty());
    let reader = BitReader::new(&[0xff]);
    assert!(matches!(reader.peek_bits(65), Err(Error::InvalidBitCount(65))));
    assert!(reader.peek_bits(9).is_err());
    assert_eq!(reader.peek_bits(8).unwrap(), 0xff);
}

#[test]
fn bits_are_packed_least_significant_first() {
    let mut writer = BitWriter::new();
    writer.write_bool(true).unwrap();
    writer.write_bits(0, 3).unwrap();
    writer.write_bits(0xf, 4).unwrap();
    writer.write_bits(0x1, 1).unwrap();
    assert_eq!(writer.into_inner(), vec![0xf1, 0x01]);
}

#[test]
fn a_copied_bit_writer_holds_the_same_bits() {
    let mut writer = BitWriter::new();
    writer.write_bits(0b101, 3).unwrap();
    writer.write_bool(true).unwrap();
    let copy = writer.clone();
    assert_eq!(copy.len_bits(), 4);
    assert_eq!(copy.into_inner(), writer.as_slice().to_vec());
    assert_eq!(writer.as_slice(), &[0b1101]);
    assert_eq!(writer.as_slice().len(), (writer.len_bits() + 7) / 8);
}

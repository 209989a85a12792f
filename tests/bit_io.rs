use deflate_rs::{BitReader, BitWriter, DecodeError, OutWithChecksum};

#[test]
fn bits_come_least_significant_first() {
    let mut reader = BitReader::new(vec![0b1011_0010, 0xff]);
    assert!(!reader.read_bool().unwrap());
    assert!(reader.read_bool().unwrap());
    assert_eq!(reader.read_u8_from_bits(3).unwrap(), 0b100);
    assert_eq!(reader.read_u16_from_bits(5).unwrap(), 0b11101);
    assert_eq!(reader.read_u32_from_bits(6).unwrap(), 0b111111);
    assert!(reader.is_eof());
    assert_eq!(reader.read_bool(), Err(DecodeError::UnexpectedEof));
}

#[test]
fn aligned_reads_are_little_endian() {
    let mut reader = BitReader::new(vec![0x12, 0x34, 0x56, 0x78, 0x9a, 0xbc, 0xde]);
    assert_eq!(reader.read_u8().unwrap(), 0x12);
    assert_eq!(reader.read_u16().unwrap(), 0x5634);
    assert_eq!(reader.read_u32().unwrap(), 0xdebc9a78);
    assert_eq!(reader.read_u8(), Err(DecodeError::UnexpectedEof));
}

#[test]
fn skip_discards_the_rest_of_the_byte() {
    let mut reader = BitReader::new(vec![0xff, 0x01]);
    reader.read_bool().unwrap();
    reader.skip_to_byte_end();
    assert_eq!(reader.read_u8().unwrap(), 0x01);
    // skipping on a boundary does nothing
    let mut reader = BitReader::new(vec![0x07]);
    reader.skip_to_byte_end();
    assert!(!reader.is_eof());
    reader.skip_to_byte_end();
    assert_eq!(reader.read_u8().unwrap(), 0x07);
}

#[test]
fn read_exact_fills_in_order() {
    let mut reader = BitReader::new(vec![0b0000_0110]);
    let mut bits = vec![false; 3];
    reader.read_exact(&mut bits).unwrap();
    assert_eq!(bits, vec![false, true, true]);
    let mut too_many = vec![false; 6];
    assert_eq!(
        reader.read_exact(&mut too_many),
        Err(DecodeError::UnexpectedEof)
    );
}

#[test]
fn writer_packs_and_pads() {
    let mut writer = BitWriter::new(vec![]);
    writer.write_all(&[true, false, true]);
    writer.flush_even_if_partial();
    writer.write_u8(0xab);
    writer.flush_even_if_partial();
    writer.write_all(&[true; 9]);
    writer.flush_even_if_partial();
    assert_eq!(writer.into_inner(), vec![0b101, 0xab, 0xff, 0x01]);
}

#[test]
fn checksum_of_check_string() {
    let mut out = OutWithChecksum::new();
    assert_eq!(out.write(b"123456789"), 9);
    assert_eq!(out.crc32(), 0xCBF43926);
    assert_eq!(out.size(), 9);
    let empty = OutWithChecksum::new();
    assert_eq!(empty.crc32(), 0);
    assert_eq!(empty.size(), 0);
}

#[test]
fn checksum_grows_with_writes() {
    let mut out = OutWithChecksum::new();
    out.write_byte(b'H');
    out.write(b"ello");
    assert_eq!(out.crc32(), 0xf7d18982);
    assert_eq!(out.size(), 5);
    assert_eq!(out.into_inner(), b"Hello".to_vec());
}

use deflate_rs::{BitReader, DecodeError, DeflateDecoder, DeflateEncoder, OutWithChecksum};

fn hex(s: &str) -> Vec<u8> {
    let s: String = s.split_whitespace().collect();
    (0..s.len())
        .step_by(2)
        .map(|i| u8::from_str_radix(&s[i..i + 2], 16).unwrap())
        .collect()
}

fn inflate(data: Vec<u8>) -> Result<Vec<u8>, DecodeError> {
    let mut decoder = DeflateDecoder::new();
    let mut out = OutWithChecksum::new();
    decoder.decode(&mut BitReader::new(data), &mut out)?;
    Ok(out.into_inner())
}

fn deflate(data: &[u8]) -> Vec<u8> {
    let mut encoder = DeflateEncoder::new();
    let mut out = vec![];
    encoder.encode(data, &mut out);
    out
}

fn pack(bits: &[bool]) -> Vec<u8> {
    let mut bytes = vec![0u8; (bits.len() + 7) / 8];
    for (i, &bit) in bits.iter().enumerate() {
        if bit {
            bytes[i / 8] |= 1 << (i % 8);
        }
    }
    bytes
}

fn msb_first(code: u16, len: usize) -> Vec<bool> {
    (0..len).map(|i| (code >> (len - 1 - i)) & 1 == 1).collect()
}

// Text from a fixed pseudo-random sequence over a skewed alphabet.
fn skewed_text() -> Vec<u8> {
    let alpha = b"eeeeeeeeetttttaaaaooooiinnsshrdlu ";
    let mut x: u64 = 12345;
    (0..400)
        .map(|_| {
            x = (x * 1103515245 + 12345) % (1 << 31);
            alpha[((x >> 16) as usize) % alpha.len()]
        })
        .collect()
}

#[test]
fn empty_stored_block() {
    assert_eq!(inflate(hex("01 00 00 FF FF")).unwrap(), Vec::<u8>::new());
}

#[test]
fn stored_hello() {
    assert_eq!(
        inflate(hex("01 05 00 FA FF 48 65 6C 6C 6F")).unwrap(),
        b"Hello".to_vec()
    );
}

#[test]
fn fixed_huffman_hello() {
    assert_eq!(inflate(hex("F3 48 CD C9 C9 07 00")).unwrap(), b"Hello".to_vec());
}

#[test]
fn encode_hello() {
    assert_eq!(deflate(b"Hello"), hex("01 05 00 FA FF 48 65 6C 6C 6F"));
}

#[test]
fn encode_empty() {
    assert_eq!(deflate(b""), hex("01 00 00 FF FF"));
}

#[test]
fn length_mismatch_is_invalid() {
    assert_eq!(
        inflate(hex("01 01 00 FF FF 00")),
        Err(DecodeError::InvalidData)
    );
    assert_eq!(
        inflate(hex("01 01 00 FE FE 00")),
        Err(DecodeError::InvalidData)
    );
    // NLEN = !LEN is accepted
    assert_eq!(inflate(hex("01 01 00 FE FF 2A")).unwrap(), vec![0x2A]);
}

#[test]
fn flipped_length_bits_are_invalid() {
    let valid = hex("01 05 00 FA FF 48 65 6C 6C 6F");
    for bit in 8..40 {
        let mut data = valid.clone();
        data[bit / 8] ^= 1 << (bit % 8);
        assert_eq!(inflate(data), Err(DecodeError::InvalidData));
    }
}

#[test]
fn reserved_block_type_is_invalid() {
    assert_eq!(inflate(vec![0b111]), Err(DecodeError::InvalidData));
}

#[test]
fn truncated_streams_hit_eof() {
    assert_eq!(inflate(vec![]), Err(DecodeError::UnexpectedEof));
    assert_eq!(
        inflate(hex("01 05 00 FA FF 48 65")),
        Err(DecodeError::UnexpectedEof)
    );
    assert_eq!(inflate(hex("F3 48 CD")), Err(DecodeError::UnexpectedEof));
    // a non-final block with nothing after it
    assert_eq!(inflate(hex("00 00 00 FF FF")), Err(DecodeError::UnexpectedEof));
}

// Fixed-Huffman block: literal 'a', then length 9 at distance 1, then end of block.
#[test]
fn distance_one_repeats_last_byte() {
    let mut bits = vec![true, true, false];
    bits.extend(msb_first(0x30 + u16::from(b'a'), 8));
    bits.extend(msb_first(263 - 256, 7));
    bits.extend(msb_first(0, 5));
    bits.extend(msb_first(0, 7));
    assert_eq!(inflate(pack(&bits)).unwrap(), vec![b'a'; 10]);
}

#[test]
fn back_reference_before_any_output_is_invalid() {
    let mut bits = vec![true, true, false];
    bits.extend(msb_first(257 - 256, 7));
    bits.extend(msb_first(0, 5));
    bits.extend(msb_first(0, 7));
    assert_eq!(inflate(pack(&bits)), Err(DecodeError::InvalidData));
}

#[test]
fn distance_code_above_29_is_invalid() {
    let mut bits = vec![true, true, false];
    bits.extend(msb_first(0x30 + u16::from(b'a'), 8));
    bits.extend(msb_first(257 - 256, 7));
    bits.extend(msb_first(30, 5));
    bits.extend(msb_first(0, 7));
    assert_eq!(inflate(pack(&bits)), Err(DecodeError::InvalidData));
}

// A back-reference reaches into the bytes of an earlier stored block.
#[test]
fn window_spans_blocks() {
    let mut data = hex("00 02 00 FD FF 61 62");
    let mut tail = vec![true, true, false];
    tail.extend(msb_first(258 - 256, 7)); // length 4
    tail.extend(msb_first(1, 5)); // distance 2
    tail.extend(msb_first(0, 7));
    data.extend(pack(&tail));
    assert_eq!(inflate(data).unwrap(), b"ababab".to_vec());
}

#[test]
fn dynamic_huffman_block() {
    let data = hex(
        "1d50db09c4300c5b25ab1922702058502bfb9f7cfd685359d623d1b1bf4b8a27e087117925400503d52d62915b\
         7a7a831935fb7590f4d43f4bb3caab18f20d4862a08fd107995804c290a760b332ff663803335ebfe08ab6eb18\
         471e210a15db6f43588bb0887abe8db8daa14972f272dc75a0c50e7dc2525faf087a48db435fb891235fee9818\
         c72dcb89bd34a1549696f28cfff2a6c7f03cf19c5b3a8f1690456beb7f470ff856f960668f82c304b7b3e77263\
         6a1673c87b28ef73d376952fcd1d05ec0971e6061db6e44b9a3aa81f",
    );
    assert_eq!(inflate(data).unwrap(), skewed_text());
}

#[test]
fn stored_block_of_largest_size() {
    let payload: Vec<u8> = (0..65535u32).map(|i| (i % 251) as u8).collect();
    let mut data = hex("01 FF FF 00 00");
    data.extend(&payload);
    assert_eq!(inflate(data).unwrap(), payload);
}

#[test]
fn encode_multiple_of_block_size_ends_with_empty_block() {
    let payload: Vec<u8> = (0..65535u32).map(|i| (i % 7) as u8).collect();
    let encoded = deflate(&payload);
    assert_eq!(encoded.len(), 5 + 65535 + 5);
    assert_eq!(&encoded[..5], &hex("00 FF FF 00 00")[..]);
    assert_eq!(&encoded[5 + 65535..], &hex("01 00 00 FF FF")[..]);
}

#[test]
fn round_trip() {
    for n in [0usize, 1, 5, 1000, 65534, 65535, 65536, 131070, 140000] {
        let payload: Vec<u8> = (0..n).map(|i| (i * 31 % 256) as u8).collect();
        assert_eq!(inflate(deflate(&payload)).unwrap(), payload);
    }
}

#[test]
fn encoder_completes_once() {
    let mut encoder = DeflateEncoder::new();
    let mut out = vec![];
    encoder.encode(b"ab", &mut out);
    let first = out.clone();
    encoder.encode(b"cd", &mut out);
    assert_eq!(out, first);
}

#[test]
fn decoder_stops_on_byte_boundary() {
    let mut reader = BitReader::new(hex("F3 48 CD C9 C9 07 00 AA"));
    let mut decoder = DeflateDecoder::new();
    let mut out = OutWithChecksum::new();
    decoder.decode(&mut reader, &mut out).unwrap();
    assert_eq!(reader.read_u8().unwrap(), 0xAA);
    assert!(reader.is_eof());
}

use deflate_rs::{BitReader, DecodeError, DistanceEncoding, HuffmanTree};

// Packs bits, given in stream order, into bytes (first bit least significant).
fn pack(bits: &[bool]) -> Vec<u8> {
    let mut bytes = vec![0u8; (bits.len() + 7) / 8];
    for (i, &bit) in bits.iter().enumerate() {
        if bit {
            bytes[i / 8] |= 1 << (i % 8);
        }
    }
    bytes
}

// The `bit_len` bits of a Huffman code, most significant first.
fn code_bits(code: u16, bit_len: usize) -> Vec<bool> {
    (0..bit_len)
        .map(|i| (code >> (bit_len - 1 - i)) & 1 == 1)
        .collect()
}

fn literal_bits(literal: u16, bit_len: usize) -> BitReader {
    BitReader::new(pack(&code_bits(literal, bit_len)))
}

fn assert_decode(
    tree: &HuffmanTree,
    bit_len: usize,
    literals: impl Iterator<Item = u16>,
    symbols: impl Iterator<Item = u16>,
) {
    for (literal, symbol) in literals.zip(symbols) {
        assert_eq!(
            tree.decode(&mut literal_bits(literal, bit_len)).unwrap(),
            symbol,
        );
    }
}

#[test]
fn test_fixed_literal_huffman() {
    let tree = HuffmanTree::fixed_literal();
    assert_decode(&tree, 8, 0b00110000..=0b10111111, 0..=143);
    assert_decode(&tree, 9, 0b110010000..=0b111111111, 144..=255);
    assert_decode(&tree, 7, 0b0000000..=0b0010111, 256..=279);
    assert_decode(&tree, 8, 0b11000000..=0b11000111, 280..=287);
}

// The example of RFC 1951 section 3.2.2: lengths (3, 3, 3, 3, 3, 2, 4, 4).
#[test]
fn canonical_codes_of_rfc_example() {
    let tree = HuffmanTree::from_code_lengths(&[3, 3, 3, 3, 3, 2, 4, 4]);
    let codes: [(u16, usize); 8] = [
        (0b010, 3),
        (0b011, 3),
        (0b100, 3),
        (0b101, 3),
        (0b110, 3),
        (0b00, 2),
        (0b1110, 4),
        (0b1111, 4),
    ];
    for (symbol, &(code, len)) in codes.iter().enumerate() {
        assert_eq!(
            tree.decode(&mut literal_bits(code, len)).unwrap(),
            symbol as u16
        );
    }
}

#[test]
fn zero_lengths_get_no_code() {
    // symbol 0 has no code; symbols 1 and 2 have codes 0 and 1
    let tree = HuffmanTree::from_code_lengths(&[0, 1, 1]);
    assert_eq!(tree.decode(&mut literal_bits(0, 1)).unwrap(), 1);
    assert_eq!(tree.decode(&mut literal_bits(1, 1)).unwrap(), 2);
}

#[test]
fn walk_off_the_tree_is_invalid() {
    // only the code 0 exists; the bits 1, 1 leave the tree
    let tree = HuffmanTree::from_code_lengths(&[1]);
    assert_eq!(
        tree.decode(&mut BitReader::new(vec![0b11])),
        Err(DecodeError::InvalidData)
    );
    let empty = HuffmanTree::from_code_lengths(&[0, 0]);
    assert_eq!(
        empty.decode(&mut BitReader::new(vec![0])),
        Err(DecodeError::InvalidData)
    );
}

#[test]
fn decode_past_the_end_is_eof() {
    let tree = HuffmanTree::fixed_literal();
    assert_eq!(
        tree.decode(&mut BitReader::new(vec![])),
        Err(DecodeError::UnexpectedEof)
    );
}

#[test]
fn code_length_alphabet_order() {
    // lengths sent for symbols 16, 17, 18, 0: 2, 2, 2, 2
    let tree = HuffmanTree::dynamic_code_lengths(&[2, 2, 2, 2]);
    // canonical order by symbol: 0 -> 00, 16 -> 01, 17 -> 10, 18 -> 11
    assert_eq!(tree.decode(&mut literal_bits(0b00, 2)).unwrap(), 0);
    assert_eq!(tree.decode(&mut literal_bits(0b01, 2)).unwrap(), 16);
    assert_eq!(tree.decode(&mut literal_bits(0b10, 2)).unwrap(), 17);
    assert_eq!(tree.decode(&mut literal_bits(0b11, 2)).unwrap(), 18);
}

// A code-length tree where symbols 0..=3 and 16..=18 all have length 3
// (codes 000..=110 in symbol order: 0, 1, 2, 3, 16, 17, 18).
fn rle_tree() -> HuffmanTree {
    let mut lengths = vec![0u8; 19];
    for s in [0usize, 1, 2, 3, 16, 17, 18] {
        lengths[s] = 3;
    }
    HuffmanTree::from_code_lengths(&lengths)
}

#[test]
fn run_length_expansion() {
    let tree = rle_tree();
    let mut bits = vec![];
    bits.extend(code_bits(0b011, 3)); // length 3
    bits.extend(code_bits(0b100, 3)); // 16: repeat previous
    bits.extend([true, false]); // 1 + 3 = 4 times
    bits.extend(code_bits(0b101, 3)); // 17: zeros
    bits.extend([false, false, false]); // 3 times
    bits.extend(code_bits(0b001, 3)); // length 1
    let lengths = tree
        .decode_code_lengths(9, &mut BitReader::new(pack(&bits)))
        .unwrap();
    assert_eq!(lengths, vec![3, 3, 3, 3, 3, 0, 0, 0, 1]);
}

#[test]
fn repeat_without_previous_length_is_invalid() {
    let tree = rle_tree();
    let mut bits = code_bits(0b100, 3); // 16 first
    bits.extend([false, false]);
    assert_eq!(
        tree.decode_code_lengths(5, &mut BitReader::new(pack(&bits))),
        Err(DecodeError::InvalidData)
    );
}

#[test]
fn overshooting_run_is_invalid() {
    let tree = rle_tree();
    let mut bits = code_bits(0b110, 3); // 18: at least 11 zeros
    bits.extend([false; 7]);
    assert_eq!(
        tree.decode_code_lengths(5, &mut BitReader::new(pack(&bits))),
        Err(DecodeError::InvalidData)
    );
}

#[test]
fn fixed_distance_codes_are_five_bits() {
    // distance code 0b00011, most significant bit first
    let mut reader = BitReader::new(pack(&code_bits(0b00011, 5)));
    assert_eq!(DistanceEncoding::Fixed.decode(&mut reader).unwrap(), 3);
    let tree = HuffmanTree::from_code_lengths(&[1, 1]);
    let dynamic = DistanceEncoding::Dynamic(tree);
    assert_eq!(dynamic.decode(&mut literal_bits(1, 1)).unwrap(), 1);
}

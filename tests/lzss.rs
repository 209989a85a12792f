use deflate_rs::Symbol;
use std::collections::HashMap;

fn expected_lengths_by_code() -> HashMap<u16, Vec<u16>> {
    vec![
        (257, vec![3]),
        (258, vec![4]),
        (259, vec![5]),
        (260, vec![6]),
        (261, vec![7]),
        (262, vec![8]),
        (263, vec![9]),
        (264, vec![10]),
        (265, vec![11, 12]),
        (266, vec![13, 14]),
        (267, vec![15, 16]),
        (268, vec![17, 18]),
        (269, (19..=22).collect()),
        (270, (23..=26).collect()),
        (271, (27..=30).collect()),
        (272, (31..=34).collect()),
        (273, (35..=42).collect()),
        (274, (43..=50).collect()),
        (275, (51..=58).collect()),
        (276, (59..=66).collect()),
        (277, (67..=82).collect()),
        (278, (83..=98).collect()),
        (279, (99..=114).collect()),
        (280, (115..=130).collect()),
        (281, (131..=162).collect()),
        (282, (163..=194).collect()),
        (283, (195..=226).collect()),
        (284, (227..=257).collect()),
        (285, vec![258]),
    ]
    .into_iter()
    .collect::<HashMap<u16, Vec<u16>>>()
}

fn expected_distances_by_code() -> HashMap<u8, Vec<u16>> {
    vec![
        (0, vec![1]),
        (1, vec![2]),
        (2, vec![3]),
        (3, vec![4]),
        (4, vec![5, 6]),
        (5, vec![7, 8]),
        (6, (9..=12).collect()),
        (7, (13..=16).collect()),
        (8, (17..=24).collect()),
        (9, (25..=32).collect()),
        (10, (33..=48).collect()),
        (11, (49..=64).collect()),
        (12, (65..=96).collect()),
        (13, (97..=128).collect()),
        (14, (129..=192).collect()),
        (15, (193..=256).collect()),
        (16, (257..=384).collect()),
        (17, (385..=512).collect()),
        (18, (513..=768).collect()),
        (19, (769..=1024).collect()),
        (20, (1025..=1536).collect()),
        (21, (1537..=2048).collect()),
        (22, (2049..=3072).collect()),
        (23, (3073..=4096).collect()),
        (24, (4097..=6144).collect()),
        (25, (6145..=8192).collect()),
        (26, (8193..=12288).collect()),
        (27, (12289..=16384).collect()),
        (28, (16385..=24576).collect()),
        (29, (24577..=32768).collect()),
    ]
    .into_iter()
    .collect()
}

#[test]
fn test_back_reference_length_codes() {
    let mut actual_lengths_by_code = <HashMap<u16, Vec<u16>>>::new();
    for length_minus_three in 0..=255 {
        let length_code = Symbol::back_reference_length_code(length_minus_three);
        let length = u16::from(length_minus_three) + 3;
        actual_lengths_by_code
            .entry(length_code)
            .or_default()
            .push(length);
    }

    assert_eq!(expected_lengths_by_code(), actual_lengths_by_code);
}

#[test]
fn test_back_reference_distance_codes() {
    let mut actual_distances_by_code = <HashMap<u8, Vec<u16>>>::new();
    for distance_minus_one in 0..=32767 {
        let distance_code = Symbol::back_reference_distance_code(distance_minus_one);
        let distance = distance_minus_one + 1;
        actual_distances_by_code
            .entry(distance_code)
            .or_default()
            .push(distance);
    }

    assert_eq!(expected_distances_by_code(), actual_distances_by_code);
}

#[test]
fn length_extra_bits_by_range() {
    for l3 in 0..=7u8 {
        assert_eq!(Symbol::back_reference_length_extra_bits(l3), 0);
    }
    assert_eq!(Symbol::back_reference_length_extra_bits(8), 1);
    assert_eq!(Symbol::back_reference_length_extra_bits(15), 1);
    assert_eq!(Symbol::back_reference_length_extra_bits(16), 2);
    assert_eq!(Symbol::back_reference_length_extra_bits(128), 5);
    assert_eq!(Symbol::back_reference_length_extra_bits(254), 5);
    assert_eq!(Symbol::back_reference_length_extra_bits(255), 0);
}

#[test]
fn distance_extra_bits_by_range() {
    for d1 in 0..=3u16 {
        assert_eq!(Symbol::back_reference_distance_extra_bits(d1), 0);
    }
    assert_eq!(Symbol::back_reference_distance_extra_bits(4), 1);
    assert_eq!(Symbol::back_reference_distance_extra_bits(8), 2);
    assert_eq!(Symbol::back_reference_distance_extra_bits(16384), 13);
    assert_eq!(Symbol::back_reference_distance_extra_bits(32767), 13);
}

#[test]
fn symbol_length_codes() {
    assert_eq!(Symbol::Literal(0x41).length_code(), 0x41);
    assert_eq!(Symbol::EndOfBlock.length_code(), 256);
    let back_reference = Symbol::BackReference {
        length_minus_three: 0,
        distance_minus_one: 0,
    };
    assert_eq!(back_reference.length_code(), 257);
    let longest = Symbol::BackReference {
        length_minus_three: 255,
        distance_minus_one: 32767,
    };
    assert_eq!(longest.length_code(), 285);
}

// Every length and distance is its code's base plus a value that fits in the
// code's extra bits.
#[test]
fn extra_bits_recover_length_and_distance() {
    let length_base = |code: u16| -> (u16, u8) {
        let m = code - 257;
        match m {
            0..=7 => (m, 0),
            28 => (255, 0),
            _ => ((1 << (m / 4 + 1)) + (1 << (m / 4 - 1)) * (m % 4), (m / 4 - 1) as u8),
        }
    };
    for l3 in 0..=255u8 {
        let (base, extra) = length_base(Symbol::back_reference_length_code(l3));
        assert_eq!(extra, Symbol::back_reference_length_extra_bits(l3));
        assert!(base <= u16::from(l3));
        assert!(u16::from(l3) - base < (1 << extra));
    }
    for d1 in 0..=32767u16 {
        let code = Symbol::back_reference_distance_code(d1);
        let (base, extra): (u32, u8) = if code < 4 {
            (u32::from(code), 0)
        } else {
            (
                (1 << (code / 2)) + (1 << (code / 2 - 1)) * u32::from(code % 2),
                code / 2 - 1,
            )
        };
        assert_eq!(extra, Symbol::back_reference_distance_extra_bits(d1));
        assert!(base <= u32::from(d1));
        assert!(u32::from(d1) - base < (1 << extra));
    }
}

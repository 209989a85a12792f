use deflate_rs::{BitReader, DecodeError, GzipDecoder};

fn hex(s: &str) -> Vec<u8> {
    let s: String = s.split_whitespace().collect();
    (0..s.len())
        .step_by(2)
        .map(|i| u8::from_str_radix(&s[i..i + 2], 16).unwrap())
        .collect()
}

fn gunzip(data: Vec<u8>) -> Result<Vec<u8>, DecodeError> {
    let mut decoder = GzipDecoder::new();
    let mut out = vec![];
    decoder.decode(&mut BitReader::new(data), &mut out)?;
    Ok(out)
}

const HELLO_GZ: &str = "1f8b0800000000000203f348cdc9c907008289d1f705000000";

#[test]
fn empty_member() {
    assert_eq!(
        gunzip(hex("1F 8B 08 00 00 00 00 00 00 FF 03 00 00 00 00 00 00 00 00 00")).unwrap(),
        Vec::<u8>::new()
    );
}

#[test]
fn hello_member() {
    assert_eq!(gunzip(hex(HELLO_GZ)).unwrap(), b"Hello".to_vec());
}

#[test]
fn no_members() {
    assert_eq!(gunzip(vec![]).unwrap(), Vec::<u8>::new());
}

#[test]
fn concatenated_members() {
    let mut data = hex(HELLO_GZ);
    data.extend(hex(HELLO_GZ));
    assert_eq!(gunzip(data).unwrap(), b"HelloHello".to_vec());
}

#[test]
fn optional_header_fields() {
    // FHCRC, FEXTRA and FNAME set
    let data = hex(
        "1f8b080e000000000003030078797a612e74787400b8a3f348cdc9c907008289d1f705000000",
    );
    assert_eq!(gunzip(data).unwrap(), b"Hello".to_vec());
}

#[test]
fn header_crc_mismatch_is_invalid() {
    let mut data = hex(
        "1f8b080e000000000003030078797a612e74787400b8a3f348cdc9c907008289d1f705000000",
    );
    data[21] ^= 1;
    assert_eq!(gunzip(data), Err(DecodeError::InvalidData));
}

#[test]
fn bad_magic_is_invalid() {
    let mut data = hex(HELLO_GZ);
    data[0] = 0x1e;
    assert_eq!(gunzip(data), Err(DecodeError::InvalidData));
    let mut data = hex(HELLO_GZ);
    data[1] = 0x8c;
    assert_eq!(gunzip(data), Err(DecodeError::InvalidData));
    let mut data = hex(HELLO_GZ);
    data[2] = 0x07;
    assert_eq!(gunzip(data), Err(DecodeError::InvalidData));
}

#[test]
fn crc_mismatch_is_invalid() {
    let mut data = hex(HELLO_GZ);
    data[17] ^= 0x80;
    assert_eq!(gunzip(data), Err(DecodeError::InvalidData));
}

#[test]
fn size_mismatch_is_invalid() {
    let mut data = hex(HELLO_GZ);
    data[21] = 6;
    assert_eq!(gunzip(data), Err(DecodeError::InvalidData));
}

#[test]
fn truncated_member_hits_eof() {
    let data = hex(HELLO_GZ);
    for n in 1..data.len() {
        assert_eq!(
            gunzip(data[..n].to_vec()),
            Err(DecodeError::UnexpectedEof),
            "prefix of {} bytes",
            n
        );
    }
}

fn words_text() -> Vec<u8> {
    let words = [
        "deflate", "huffman", "window", "block", "stored", "literal", "length", "distance",
        "code", "tree", "the", "a", "of",
    ];
    let mut x: u64 = 7;
    let mut out = vec![];
    for _ in 0..300 {
        x = (x * 1103515245 + 12345) % (1 << 31);
        out.push(words[((x >> 16) as usize) % words.len()]);
    }
    out.join(" ").into_bytes()
}

#[test]
fn dynamic_member_with_back_references() {
    let data = hex(
        "1f8b080000000000020385556d72853008bc4aae966a7c716acd8c2f9d77fd2ab024109dfef10b5816366059\
         c2bb9623cd614ecb166b0a9f759fcb276c6b4d47dc42f41fbeb6327d872dedaf9ac3bcbe6bdca7a4d16c15c8a9\
         cc29d4ac98ea9d7f97e527ee273850d5548f94f4abe0948550084e128b252ad4e983288240559e20fc99dbe509\
         0bbdf025cb83a9955f7c298da26f8958b820c3baf5d6b3bc32834fab0dfe6792ab15441a11540742f40eab154d\
         b84b554ae2310af9fb4ad4a969471418b46fbdcd6d74bdca8c43c3446684b395c08538f8986a08b853dfa845fd\
         7482c051e2e54679a255e2416b860699a16b84d4f50428fd3103f7dcf711fd781293e1daf1107fc1824899b9e3\
         a0d82ac532703623733729719ca468eb833bd7f42f88678000abbebb99e3735ded192b8bd75837d0a01659c4db\
         cf993ffffd11e9cbf403119d4464f7e0fd16f309395c57ae4aac49db52b28750d9dc23c2cda8a1c43887272fcb\
         a61b03d51d7f040e6c7bd3cc477f1d65d716e57135dfac180cf9e38a326b5097b8fbabd866debf1a99ce8c37d3\
         d5ff34fc026fcbee0fbaa281425a070000",
    );
    assert_eq!(gunzip(data).unwrap(), words_text());
}

use banjo::keyblock::{KeyBlock, KeyFile, ParseErrors};

fn sample_keyfile(path: &str, seed: u8) -> KeyFile {
    KeyFile {
        flags: 6,
        secret: vec![seed; 32],
        uid: (('K' as u16) << 8) + 52,
        path: path.to_string(),
        name: format!("key{}", seed),
        description: "A sample key.".to_string(),
        length: 6 * 8,
        content: vec![1, 2, 3, 4, 5, seed],
    }
}

fn sample_block(keys: Vec<KeyFile>) -> KeyBlock {
    KeyBlock {
        format_specifier: 1,
        flags: 0x0102030405060708,
        secret: vec![0xAB; 32],
        uid: (('B' as u16) << 8) + 89,
        name: "block".to_string(),
        description: "A sample block.".to_string(),
        keys,
        signature: vec![0xCD; 50],
    }
}

#[test]
fn round_trip_block() {
    let block = sample_block(vec![sample_keyfile("~/key1", 1), sample_keyfile("~/key2", 2)]);
    let bytes = block.serialize();
    let loaded = KeyBlock::load(&bytes).expect("round trip should parse");
    assert_eq!(loaded, block);
}

#[test]
fn round_trip_empty_block() {
    let block = sample_block(vec![]);
    let bytes = block.serialize();
    let loaded = KeyBlock::load(&bytes).expect("round trip should parse");
    assert_eq!(loaded, block);
}

#[test]
fn example_block_serializes_to_110_bytes() {
    let block = KeyBlock {
        format_specifier: 1,
        flags: 0,
        secret: vec![0; 32],
        uid: 0x4B34,
        name: "k".to_string(),
        description: "".to_string(),
        keys: vec![],
        signature: vec![0; 50],
    };
    let bytes = block.serialize();
    assert_eq!(bytes.len(), 110);
    let mut expected: Vec<u8> = Vec::new();
    expected.extend(b"banjo");
    expected.extend([1u8, 0]); // version 1, little-endian
    expected.extend([0u8; 8]); // flags
    expected.extend([0u8; 32]); // secret
    expected.extend([0x34u8, 0x4B]); // uid 0x4B34, little-endian
    expected.extend(b"k\0");
    expected.extend(b"\0");
    expected.extend([0u8; 8]); // zero keyfiles
    expected.extend([0u8; 50]); // signature
    assert_eq!(bytes, expected);

    let loaded = KeyBlock::load(&bytes).expect("example should parse");
    assert_eq!(loaded.format_specifier, 1);
    assert_eq!(loaded.flags, 0);
    assert_eq!(loaded.secret, vec![0; 32]);
    assert_eq!(loaded.uid, 0x4B34);
    assert_eq!(loaded.name, "k");
    assert_eq!(loaded.description, "");
    assert_eq!(loaded.keys.len(), 0);
    assert_eq!(loaded.signature, vec![0; 50]);
}

#[test]
fn magic_rejection_wrong_tag() {
    let block = sample_block(vec![]);
    let mut bytes = block.serialize();
    bytes[0] = b'x';
    assert!(matches!(
        KeyBlock::load(&bytes),
        Err(ParseErrors::InvalidMagicNumber)
    ));
}

#[test]
fn magic_rejection_short_stream() {
    let bytes = vec![b'b', b'a', b'n'];
    assert!(matches!(
        KeyBlock::load(&bytes),
        Err(ParseErrors::InvalidMagicNumber)
    ));
    assert!(matches!(
        KeyBlock::load(&Vec::new()),
        Err(ParseErrors::InvalidMagicNumber)
    ));
}

#[test]
fn version_rejection() {
    let block = sample_block(vec![sample_keyfile("~/key1", 1)]);
    let mut bytes = block.serialize();
    bytes[5] = 2; // format specifier 2 instead of 1
    assert!(matches!(
        KeyBlock::load(&bytes),
        Err(ParseErrors::UnknownFormatSpecifier)
    ));
}

#[test]
fn truncation_yields_eof_or_keyfile_error() {
    let block = sample_block(vec![sample_keyfile("~/key1", 1), sample_keyfile("~/key2", 2)]);
    let bytes = block.serialize();
    for cut in 5..bytes.len() {
        let prefix: Vec<u8> = bytes[..cut].to_vec();
        match KeyBlock::load(&prefix) {
            Err(ParseErrors::UnexpectedEof) => {}
            Err(ParseErrors::KeyfileParseError(_, cause)) => {
                assert!(matches!(*cause, ParseErrors::UnexpectedEof));
            }
            other => panic!("truncated block at {} parsed as {:?}", cut, other),
        }
    }
}

#[test]
fn truncation_inside_record_names_its_index() {
    let block = sample_block(vec![sample_keyfile("~/key1", 1), sample_keyfile("~/key2", 2)]);
    let bytes = block.serialize();
    // The second record starts after the 79-byte block header and the
    // 82-byte first record; cut a few bytes into it.
    let prefix: Vec<u8> = bytes[..170].to_vec();
    match KeyBlock::load(&prefix) {
        Err(ParseErrors::KeyfileParseError(index, cause)) => {
            assert_eq!(index, 1);
            assert!(matches!(*cause, ParseErrors::UnexpectedEof));
        }
        other => panic!("expected a keyfile parse error, got {:?}", other),
    }
}

#[test]
fn duplicate_paths_keep_the_later_record() {
    let first = sample_keyfile("~/shared", 1);
    let second = sample_keyfile("~/shared", 2);
    let block = sample_block(vec![first, second.clone()]);
    let bytes = block.serialize();
    let loaded = KeyBlock::load(&bytes).expect("duplicate paths still parse");
    assert_eq!(loaded.keys.len(), 1);
    assert_eq!(loaded.keys[0], second);
}

#[test]
fn content_length_consistency() {
    let record = KeyFile {
        flags: 0,
        secret: vec![7; 32],
        uid: 0x4601,
        path: "~/k".to_string(),
        name: "k".to_string(),
        description: "".to_string(),
        length: 48,
        content: vec![9, 8, 7, 6, 5, 4],
    };
    assert_eq!(record.content.len(), 6);
    let bytes = record.serialize();
    let (loaded, consumed) = KeyFile::load(&bytes, 0).expect("record should parse");
    assert_eq!(consumed, bytes.len());
    assert_eq!(loaded.content.len(), 6);
    assert_eq!(loaded, record);
}

#[test]
fn length_not_multiple_of_eight_truncates() {
    let record = KeyFile {
        flags: 0,
        secret: vec![0; 32],
        uid: 0x4602,
        path: "p".to_string(),
        name: "n".to_string(),
        description: "d".to_string(),
        length: 9, // 9 bits: one content byte survives the division
        content: vec![0x5A],
    };
    let bytes = record.serialize();
    let (loaded, _) = KeyFile::load(&bytes, 0).expect("record should parse");
    assert_eq!(loaded.content, vec![0x5A]);
}

#[test]
fn keyfile_short_buffer_is_eof() {
    let bytes = vec![0u8; 16];
    assert!(matches!(
        KeyFile::load(&bytes, 0),
        Err(ParseErrors::UnexpectedEof)
    ));
}

#[test]
fn huge_declared_length_is_eof() {
    // A record whose header promises close to 2^61 content bytes: the
    // buffer cannot hold them, so the read fails cleanly.
    let mut bytes = vec![0u8; 42]; // flags, secret, uid
    bytes.extend(b"p\0n\0d\0");
    bytes.extend(u64::MAX.to_le_bytes());
    assert!(matches!(
        KeyFile::load(&bytes, 0),
        Err(ParseErrors::UnexpectedEof)
    ));
}

#[test]
fn trailing_bytes_are_ignored() {
    let block = sample_block(vec![sample_keyfile("~/key1", 1)]);
    let mut bytes = block.serialize();
    bytes.extend([0xFFu8; 13]);
    let loaded = KeyBlock::load(&bytes).expect("trailing bytes do not matter");
    assert_eq!(loaded, block);
}

#[test]
fn serialize_writes_supported_version_even_for_other_tags() {
    let mut block = sample_block(vec![]);
    block.format_specifier = 7;
    let bytes = block.serialize();
    assert_eq!(bytes[5], 1);
    assert_eq!(bytes[6], 0);
    let loaded = KeyBlock::load(&bytes).expect("written version is the supported one");
    assert_eq!(loaded.format_specifier, 1);
}

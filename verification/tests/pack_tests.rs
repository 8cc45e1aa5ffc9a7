use git_protocol::pack::PackParser;
use git_protocol::{GitError, GitObject, ObjectType};
use sha1::Digest;
use std::io::Write;

fn blob_object(content: &[u8]) -> GitObject {
    let handler = git_protocol::objects::ObjectHandler::new();
    handler.parse_object(ObjectType::Blob, content).unwrap()
}

#[test]
fn test_pack_header_parsing() {
    let parser = PackParser::new();

    // Test header parsing
    let header_data = b"PACK\x00\x00\x00\x02\x00\x00\x00\x01"; // version 2, 1 object
    let (header, _) = parser.parse_header(&header_data[..]).unwrap();

    assert_eq!(&header.signature, b"PACK");
    assert_eq!(header.version, 2);
    assert_eq!(header.num_objects, 1);
}

#[test]
fn test_object_type_parsing() {
    let parser = PackParser::new();

    assert_eq!(parser.get_object_type(1).unwrap(), ObjectType::Commit);
    assert_eq!(parser.get_object_type(2).unwrap(), ObjectType::Tree);
    assert_eq!(parser.get_object_type(3).unwrap(), ObjectType::Blob);
    assert_eq!(parser.get_object_type(4).unwrap(), ObjectType::Tag);

    assert!(parser.get_object_type(99).is_err());
}

#[test]
fn test_type_and_size_encoding() {
    let parser = PackParser::new();
    let mut data = Vec::new();

    // Test small size
    parser.write_type_and_size(&mut data, 3, 15).unwrap();
    assert_eq!(data, vec![0x3f]); // type=3, size=15

    // Test larger size requiring variable length encoding
    data.clear();
    parser.write_type_and_size(&mut data, 3, 256).unwrap();
    assert!(data.len() > 1);
    assert_eq!(data[0] & 0x70, 0x30); // type=3
    assert!(data[0] & 0x80 != 0); // continuation bit set
}

#[test]
fn test_varint_parsing() {
    let parser = PackParser::new();

    // Test small value
    let data = [42];
    let (value, consumed) = parser.read_varint(&data).unwrap();
    assert_eq!(value, 42);
    assert_eq!(consumed, 1);

    // Test multi-byte value
    let data = [0x80 | 42, 1]; // 42 + (1 << 7) = 170
    let (value, consumed) = parser.read_varint(&data).unwrap();
    assert_eq!(value, 170);
    assert_eq!(consumed, 2);
}

#[test]
fn test_pack_creation_with_checksum() {
    let parser = PackParser::new();
    let objects = vec![GitObject {
        id: "test".to_string(),
        obj_type: ObjectType::Blob,
        size: 5,
        content: b"hello".to_vec(),
    }];

    let pack_data = parser.create_pack(&objects).unwrap();

    // Should have header + object + checksum
    assert!(pack_data.len() > 32); // At least header(12) + some content + checksum(20)
    assert_eq!(&pack_data[0..4], b"PACK");

    // Last 20 bytes should be the SHA-1 checksum over everything before
    let body_len = pack_data.len() - 20;
    let digest = sha1::Sha1::digest(&pack_data[..body_len]);
    assert_eq!(&pack_data[body_len..], digest.as_slice());
}

#[test]
fn test_sha1_reading() {
    let parser = PackParser::new();
    let test_hash = hex::decode("1234567890abcdef1234567890abcdef12345678").unwrap();

    let (hash_str, _) = parser.read_sha1(&test_hash, 0).unwrap();
    assert_eq!(hash_str, "1234567890abcdef1234567890abcdef12345678");
}

#[test]
fn test_offset_parsing() {
    let parser = PackParser::new();

    // Test small offset (< 128)
    let data = [42];
    let (offset, _) = parser.parse_offset(&data, 0).unwrap();
    assert_eq!(offset, 42);

    // Test larger offset
    let data = [0x80 | 1, 0]; // Should decode to some larger value
    let (offset, _) = parser.parse_offset(&data, 0).unwrap();
    assert!(offset > 127);
}

#[test]
fn test_pack_round_trip() {
    let parser = PackParser::new();
    let objects = vec![
        blob_object(b"hello world"),
        blob_object(b""),
        blob_object(&[0u8; 300]),
    ];

    let pack = parser.create_pack(&objects).unwrap();
    let entries = parser.parse_pack(&pack).unwrap();

    assert_eq!(entries.len(), objects.len());
    for (entry, obj) in entries.iter().zip(objects.iter()) {
        assert_eq!(entry.object_type, obj.obj_type);
        assert_eq!(entry.size, obj.size);
        assert_eq!(entry.data, obj.content);
    }
}

#[test]
fn test_pack_round_trip_all_types() {
    let handler = git_protocol::objects::ObjectHandler::new();
    let parser = PackParser::new();
    let objects = vec![
        handler.parse_object(ObjectType::Commit, b"tree abc\n").unwrap(),
        handler.parse_object(ObjectType::Tree, b"").unwrap(),
        handler.parse_object(ObjectType::Blob, b"data").unwrap(),
        handler.parse_object(ObjectType::Tag, b"tag content").unwrap(),
    ];
    let pack = parser.create_pack(&objects).unwrap();
    let entries = parser.parse_pack(&pack).unwrap();
    let types: Vec<ObjectType> = entries.iter().map(|e| e.object_type).collect();
    assert_eq!(
        types,
        vec![ObjectType::Commit, ObjectType::Tree, ObjectType::Blob, ObjectType::Tag]
    );
}

#[test]
fn test_pack_checksum_rejects_any_flipped_byte() {
    let parser = PackParser::new();
    let objects = vec![blob_object(b"hello")];
    let pack = parser.create_pack(&objects).unwrap();

    // Sanity: the untouched pack parses.
    assert!(parser.parse_pack(&pack).is_ok());

    // Flipping any single byte must fail with a checksum error.
    for i in 0..pack.len() {
        let mut corrupt = pack.clone();
        corrupt[i] ^= 0x40;
        assert_eq!(parser.parse_pack(&corrupt).unwrap_err(), GitError::Checksum, "byte {}", i);
    }
}

#[test]
fn test_pack_too_small_is_format_error() {
    let parser = PackParser::new();
    assert_eq!(parser.parse_pack(b"PACK").unwrap_err(), GitError::Format);
}

#[test]
fn test_pack_unsupported_version() {
    // "PACK" + version 3 + zero objects, with a correct trailer.
    let mut body = Vec::new();
    body.extend_from_slice(b"PACK");
    body.extend_from_slice(&3u32.to_be_bytes());
    body.extend_from_slice(&0u32.to_be_bytes());
    let digest = sha1::Sha1::digest(&body);
    let mut pack = body.clone();
    pack.extend_from_slice(&digest);
    let parser = PackParser::new();
    assert_eq!(parser.parse_pack(&pack).unwrap_err(), GitError::UnsupportedVersion);
}

#[test]
fn test_pack_unknown_type() {
    // One entry with reserved type id 5.
    let mut body = Vec::new();
    body.extend_from_slice(b"PACK");
    body.extend_from_slice(&2u32.to_be_bytes());
    body.extend_from_slice(&1u32.to_be_bytes());
    body.push(5 << 4); // type 5, size 0
    let mut enc = flate2::write::ZlibEncoder::new(Vec::new(), flate2::Compression::default());
    enc.write_all(b"").unwrap();
    body.extend_from_slice(&enc.finish().unwrap());
    let digest = sha1::Sha1::digest(&body);
    let mut pack = body.clone();
    pack.extend_from_slice(&digest);
    let parser = PackParser::new();
    assert_eq!(parser.parse_pack(&pack).unwrap_err(), GitError::UnknownType);
}

#[test]
fn test_type_and_size_header_symmetry() {
    let parser = PackParser::new();
    for &size in &[0usize, 15, 16, 255, 256, 65535, 65536] {
        for type_id in 1u8..=7u8 {
            let mut data = Vec::new();
            parser.write_type_and_size(&mut data, type_id, size).unwrap();
            let (t, s, consumed) = parser.parse_type_and_size(&data, 0).unwrap();
            assert_eq!(t, type_id);
            assert_eq!(s, size);
            assert_eq!(consumed, data.len());
        }
    }
}

#[test]
fn test_apply_delta_copy_and_insert() {
    let parser = PackParser::new();
    let base = b"hello world";
    // varint(base=11), varint(result=17),
    // copy offset 0 size 5, insert " there", copy offset 5 size 6
    let mut delta = vec![11u8, 17u8];
    delta.push(0x90); // copy: size byte present
    delta.push(5);
    delta.push(6); // insert 6 literal bytes
    delta.extend_from_slice(b" there");
    delta.push(0x91); // copy: offset byte and size byte present
    delta.push(5);
    delta.push(6);
    let out = parser.apply_delta(base, &delta).unwrap();
    assert_eq!(out, b"hello there world".to_vec());
}

#[test]
fn test_apply_delta_wrong_result_size_fails() {
    let parser = PackParser::new();
    let base = b"hello world";
    // Declares 18 bytes of output but produces 17.
    let mut delta = vec![11u8, 18u8];
    delta.push(0x90);
    delta.push(5);
    delta.push(6);
    delta.extend_from_slice(b" there");
    delta.push(0x91);
    delta.push(5);
    delta.push(6);
    assert_eq!(parser.apply_delta(base, &delta), Err(GitError::Format));
}

#[test]
fn test_apply_delta_zero_instruction_fails() {
    let parser = PackParser::new();
    let delta = vec![0u8, 0u8, 0u8]; // sizes 0, 0, then the invalid zero byte
    assert_eq!(parser.apply_delta(b"", &delta), Err(GitError::Format));
}

#[test]
fn test_apply_delta_copy_past_base_fails() {
    let parser = PackParser::new();
    // base size 3, result 5, copy offset 0 size 5 out of a 3-byte base
    let delta = vec![3u8, 5u8, 0x90, 5];
    assert_eq!(parser.apply_delta(b"abc", &delta), Err(GitError::Format));
}

#[test]
fn test_apply_delta_insert_only() {
    let parser = PackParser::new();
    let delta = vec![0u8, 2u8, 2, b'h', b'i'];
    assert_eq!(parser.apply_delta(b"", &delta).unwrap(), b"hi".to_vec());
}

#[test]
fn test_parse_pack_file_simple_matches_parse_pack() {
    let mut parser = PackParser::new();
    let objects = vec![blob_object(b"abc")];
    let pack = parser.create_pack(&objects).unwrap();
    let entries = parser.parse_pack_file_simple(pack).unwrap();
    assert_eq!(entries.len(), 1);
    assert_eq!(entries[0].data, b"abc".to_vec());
}

#[test]
fn test_create_pack_with_deltas_and_thin_pack_parse_back() {
    let parser = PackParser::new();
    let objects = vec![blob_object(b"one"), blob_object(b"two")];
    let with_deltas = parser.create_pack_with_deltas(&objects).unwrap();
    assert_eq!(parser.parse_pack(&with_deltas).unwrap().len(), 2);
    let thin = parser.create_thin_pack(&objects, &["aaaa".to_string()]).unwrap();
    assert_eq!(parser.parse_pack(&thin).unwrap().len(), 2);
}

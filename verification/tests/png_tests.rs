use deepng::chunk::Chunk;
use deepng::chunk_error::ChunkError;
use deepng::chunk_type::ChunkType;
use deepng::chunk_type_error::ChunkTypeError;
use deepng::png::Png;
use deepng::png_error::PngError;

/// The fixed 8-byte container signature.
fn signature() -> Vec<u8> {
    vec![0x89, 0x50, 0x4e, 0x47, 0x0d, 0x0a, 0x1a, 0x0a]
}

/// One serialized chunk record: length, tag, payload, CRC-32/ISO-HDLC.
fn chunk_record(tag: &str, payload: &[u8]) -> Vec<u8> {
    let tag_bytes = tag.as_bytes();
    let mut content: Vec<u8> = tag_bytes.to_vec();
    content.extend_from_slice(payload);
    let crc = crc32fast::hash(&content);
    let mut record: Vec<u8> = (payload.len() as u32).to_be_bytes().to_vec();
    record.extend_from_slice(&content);
    record.extend_from_slice(&crc.to_be_bytes());
    record
}

#[test]
fn test_chunk_round_trip() {
    let chunk_type = ChunkType::from_str("RuSt").unwrap();
    let chunk = Chunk::new(chunk_type, b"secret".to_vec());
    let bytes = chunk.as_bytes();
    let reparsed = Chunk::from_bytes(&bytes).unwrap();
    assert_eq!(chunk, reparsed);
    assert_eq!(bytes, reparsed.as_bytes());
}

#[test]
fn test_chunk_empty_payload_round_trip() {
    let chunk_type = ChunkType::from_str("IEND").unwrap();
    let chunk = Chunk::new(chunk_type, Vec::new());
    assert_eq!(chunk.length(), 0);
    let bytes = chunk.as_bytes();
    assert_eq!(bytes.len(), 12);
    let reparsed = Chunk::from_bytes(&bytes).unwrap();
    assert_eq!(chunk, reparsed);
}

#[test]
fn test_crc_tamper_detection() {
    let chunk_type = ChunkType::from_str("teSt").unwrap();
    let chunk = Chunk::new(chunk_type, b"hi".to_vec());
    let bytes = chunk.as_bytes();
    // Payload occupies bytes 8 and 9; flip every bit of each in turn while
    // keeping the trailing CRC as it was.
    for pos in 8..10 {
        for bit in 0..8 {
            let mut tampered = bytes.clone();
            tampered[pos] ^= 1u8 << bit;
            assert_eq!(Chunk::from_bytes(&tampered), Err(ChunkError::InvalidCRC));
        }
    }
    // A case-flip of a type byte keeps the tag alphabetic but breaks the CRC.
    let mut tampered = bytes.clone();
    tampered[4] ^= 0x20;
    assert_eq!(Chunk::from_bytes(&tampered), Err(ChunkError::InvalidCRC));
}

#[test]
fn test_chunk_truncated_input() {
    assert_eq!(Chunk::from_bytes(&[0u8; 11]), Err(ChunkError::InvalidLength));
}

#[test]
fn test_chunk_length_mismatch() {
    let mut record = chunk_record("teSt", b"hello");
    // Declare one payload byte more than the record holds.
    record[3] += 1;
    assert_eq!(Chunk::from_bytes(&record), Err(ChunkError::InvalidLength));
}

#[test]
fn test_chunk_invalid_type_tag() {
    let record = chunk_record("te5t", b"hello");
    assert_eq!(
        Chunk::from_bytes(&record),
        Err(ChunkError::InvalidChunkType(ChunkTypeError::InvalidByte))
    );
}

#[test]
fn test_chunk_type_text_errors() {
    assert_eq!(ChunkType::from_str("RuS"), Err(ChunkTypeError::InvalidLength));
    assert_eq!(ChunkType::from_str("RuSty"), Err(ChunkTypeError::InvalidLength));
    assert_eq!(ChunkType::from_str("Ru1t"), Err(ChunkTypeError::InvalidByte));
}

#[test]
fn test_data_as_string_invalid_utf8() {
    let chunk_type = ChunkType::from_str("teSt").unwrap();
    let chunk = Chunk::new(chunk_type, vec![0xff, 0xfe, 0xfd]);
    assert_eq!(chunk.data_as_string(), Err(ChunkError::Utf8Error));
}

#[test]
fn test_data_as_string_multibyte() {
    let chunk_type = ChunkType::from_str("teSt").unwrap();
    let chunk = Chunk::new(chunk_type, "héllo – ☃".as_bytes().to_vec());
    assert_eq!(chunk.data_as_string().unwrap(), "héllo – ☃");
}

#[test]
fn test_png_signature_check() {
    let mut buffer: Vec<u8> = signature();
    buffer[0] = 0x88;
    buffer.extend_from_slice(&chunk_record("IEND", b""));
    assert!(matches!(Png::from_bytes(&buffer), Err(PngError::InvalidHeader)));
    assert!(matches!(Png::from_bytes(&[]), Err(PngError::InvalidHeader)));
}

#[test]
fn test_png_parse_round_trip() {
    let mut buffer: Vec<u8> = signature();
    buffer.extend_from_slice(&chunk_record("IHDR", b"0123456789"));
    buffer.extend_from_slice(&chunk_record("teSt", b"hidden"));
    buffer.extend_from_slice(&chunk_record("IEND", b""));
    let png = Png::from_bytes(&buffer).unwrap();
    assert_eq!(png.chunk_count(), 3);
    assert_eq!(png.as_bytes(), buffer);
}

#[test]
fn test_png_invalid_chunk() {
    let mut buffer: Vec<u8> = signature();
    buffer.extend_from_slice(&[0, 0, 0]);
    assert_eq!(
        Png::from_bytes(&buffer),
        Err(PngError::InvalidChunk(ChunkError::InvalidLength))
    );
}

#[test]
fn test_lifo_removal() {
    let tag = ChunkType::from_str("teSt").unwrap();
    let mut png = Png::new();
    png.append_chunk(Chunk::new(tag, b"hello".to_vec()));
    png.append_chunk(Chunk::new(tag, b"world".to_vec()));

    let second = png.remove_last_chunk(&tag).unwrap();
    assert_eq!(second.data(), &b"world"[..]);
    let first = png.remove_last_chunk(&tag).unwrap();
    assert_eq!(first.data(), &b"hello"[..]);
    assert!(matches!(png.remove_last_chunk(&tag), Err(PngError::UnknownChunkType)));
}

#[test]
fn test_end_to_end() {
    let mut original: Vec<u8> = signature();
    original.extend_from_slice(&chunk_record("IEND", b""));

    let mut png = Png::from_bytes(&original).unwrap();
    let tag = ChunkType::from_str("ruSt").unwrap();
    png.append_chunk(Chunk::new(tag, b"secret".to_vec()));
    let encoded = png.as_bytes();

    let mut reparsed = Png::from_bytes(&encoded).unwrap();
    let hidden = reparsed.remove_last_chunk(&tag).unwrap();
    assert_eq!(hidden.data_as_string().unwrap(), "secret");
    assert_eq!(reparsed.as_bytes(), original);
}

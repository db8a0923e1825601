use dzip_core::bytes::bytes_eq;
use dzip_core::codec::{
    accept_deflated, accept_inflated, create_default_registry, decode_chunk, encode_chunk,
    CodecKind, CodecRegistry, STORED_ID,
};
use dzip_core::format::FLAG_ZLIB;
use miniz_oxide::inflate::{DecompressError, TINFLStatus};

fn sample() -> Vec<u8> {
    let mut data = Vec::new();
    for i in 0..2000u32 {
        data.push((i % 7) as u8);
    }
    data
}

#[test]
fn stored_codec_keeps_the_bytes() {
    let data = sample();
    let stored = encode_chunk(CodecKind::Stored, &data).unwrap();
    assert_eq!(stored, data);
    assert_eq!(decode_chunk(CodecKind::Stored, &stored, data.len() as u32), Some(data));
}

#[test]
fn stored_codec_rejects_a_wrong_length() {
    assert_eq!(decode_chunk(CodecKind::Stored, b"abc", 2), None);
    assert_eq!(decode_chunk(CodecKind::Stored, b"abc", 4), None);
    assert_eq!(decode_chunk(CodecKind::Stored, b"", 0), Some(vec![]));
}

#[test]
fn deflate_codec_compresses_and_restores() {
    let data = sample();
    let stored = encode_chunk(CodecKind::Deflate, &data).unwrap();
    assert_ne!(stored, data);
    assert!(stored.len() < data.len());
    assert_eq!(&stored[..2], &[0x78, 0x9C]);
    assert_eq!(decode_chunk(CodecKind::Deflate, &stored, data.len() as u32), Some(data));
}

#[test]
fn deflate_codec_handles_an_empty_chunk() {
    let stored = encode_chunk(CodecKind::Deflate, &[]).unwrap();
    assert!(!stored.is_empty());
    assert_eq!(decode_chunk(CodecKind::Deflate, &stored, 0), Some(vec![]));
}

#[test]
fn deflate_codec_rejects_a_wrong_decoded_length() {
    let data = sample();
    let stored = encode_chunk(CodecKind::Deflate, &data).unwrap();
    assert_eq!(decode_chunk(CodecKind::Deflate, &stored, data.len() as u32 - 1), None);
    assert_eq!(decode_chunk(CodecKind::Deflate, &stored, data.len() as u32 + 1), None);
}

#[test]
fn deflate_codec_rejects_bytes_that_are_no_zlib_stream() {
    assert_eq!(decode_chunk(CodecKind::Deflate, b"not a zlib stream", 17), None);
    assert_eq!(decode_chunk(CodecKind::Deflate, &[], 0), None);
    let mut stored = encode_chunk(CodecKind::Deflate, &sample()).unwrap();
    let last = stored.len() - 1;
    stored[last] ^= 0xFF;
    assert_eq!(decode_chunk(CodecKind::Deflate, &stored, 2000), None);
}

#[test]
fn accept_inflated_checks_the_length() {
    assert_eq!(accept_inflated(Ok(vec![1, 2, 3]), 3), Some(vec![1, 2, 3]));
    assert_eq!(accept_inflated(Ok(vec![1, 2, 3]), 2), None);
    assert_eq!(accept_inflated(Ok(vec![]), 0), Some(vec![]));
    let failure = DecompressError { status: TINFLStatus::Failed, output: vec![1, 2, 3] };
    assert_eq!(accept_inflated(Err(failure), 3), None);
}

#[test]
fn accept_deflated_checks_the_round_trip() {
    assert_eq!(accept_deflated(b"abc", vec![9, 9], Ok(b"abc".to_vec())), Some(vec![9, 9]));
    assert_eq!(accept_deflated(b"abc", vec![9, 9], Ok(b"abd".to_vec())), None);
    assert_eq!(accept_deflated(b"abc", vec![9, 9], Ok(b"ab".to_vec())), None);
    let failure = DecompressError { status: TINFLStatus::HasMoreOutput, output: vec![] };
    assert_eq!(accept_deflated(b"abc", vec![9, 9], Err(failure)), None);
}

#[test]
fn bytes_eq_compares_contents() {
    assert!(bytes_eq(b"", b""));
    assert!(bytes_eq(b"abc", b"abc"));
    assert!(!bytes_eq(b"abc", b"abd"));
    assert!(!bytes_eq(b"abc", b"ab"));
}

#[test]
fn default_registry_binds_stored_and_deflate() {
    let registry = create_default_registry();
    assert_eq!(registry.lookup(0), Some(CodecKind::Stored));
    assert_eq!(registry.lookup(FLAG_ZLIB), Some(CodecKind::Deflate));
    assert_eq!(registry.lookup(0x0010), None);
    assert_eq!(registry.lookup(0x0200), None);
    assert_eq!(registry.lookup(FLAG_ZLIB | 0x0010), None);
}

#[test]
fn lookup_goes_by_the_codec_bits_alone() {
    let registry = create_default_registry();
    assert_eq!(registry.lookup(0x0001), Some(CodecKind::Stored));
    assert_eq!(registry.lookup(0x0400), Some(CodecKind::Stored));
    assert_eq!(registry.lookup(0x8000 | 0x0401), Some(CodecKind::Stored));
    assert_eq!(registry.lookup(FLAG_ZLIB | 0x0401), Some(CodecKind::Deflate));
}

#[test]
fn register_binds_further_identifiers() {
    let mut registry = CodecRegistry::new();
    assert_eq!(registry.lookup(FLAG_ZLIB), None);
    assert!(registry.register(FLAG_ZLIB, CodecKind::Deflate));
    assert!(registry.register(0x0100, CodecKind::Stored));
    assert_eq!(registry.lookup(FLAG_ZLIB), Some(CodecKind::Deflate));
    assert_eq!(registry.lookup(0x0100), Some(CodecKind::Stored));
    assert!(registry.register(0x0100, CodecKind::Deflate));
    assert_eq!(registry.lookup(0x0100), Some(CodecKind::Deflate));
}

#[test]
fn stored_codec_cannot_be_replaced() {
    let mut registry = create_default_registry();
    assert!(!registry.register(STORED_ID, CodecKind::Deflate));
    assert_eq!(registry.lookup(0), Some(CodecKind::Stored));
}

#[test]
fn registry_encodes_and_decodes_by_flags() {
    let registry = create_default_registry();
    let data = sample();
    let stored = registry.encode(FLAG_ZLIB, &data).unwrap();
    assert_ne!(stored, data);
    assert_eq!(registry.decode(FLAG_ZLIB, &stored, 2000), Some(data.clone()));
    assert_eq!(registry.encode(0, &data), Some(data.clone()));
    assert_eq!(registry.decode(0, &data, 2000), Some(data.clone()));
    assert_eq!(registry.encode(0x0200, &data), None);
    assert_eq!(registry.decode(0x0200, &data, 2000), None);
}

use dzip_core::bytes::{put_bytes, put_u16, put_u32, ByteReader};
use dzip_core::error::DzipError;
use dzip_core::utils::read_null_term_string;

#[test]
fn read_u16_is_little_endian() {
    let data = [0x34u8, 0x12, 0xFF, 0xFF];
    let mut reader = ByteReader::new(&data);
    assert_eq!(reader.read_u16(), Some(0x1234));
    assert_eq!(reader.position(), 2);
    assert_eq!(reader.read_u16(), Some(0xFFFF));
    assert_eq!(reader.read_u16(), None);
    assert_eq!(reader.position(), 4);
}

#[test]
fn read_u32_is_little_endian() {
    let data = [0x78u8, 0x56, 0x34, 0x12, 0x01, 0x00, 0x00, 0x80, 0xAA];
    let mut reader = ByteReader::new(&data);
    assert_eq!(reader.read_u32(), Some(0x1234_5678));
    assert_eq!(reader.read_u32(), Some(0x8000_0001));
    assert_eq!(reader.remaining(), 1);
    assert_eq!(reader.read_u32(), None);
    assert_eq!(reader.position(), 8);
}

#[test]
fn put_integers_writes_little_endian() {
    let mut out = vec![0xEEu8];
    put_u16(&mut out, 0x1234);
    put_u32(&mut out, 0x89AB_CDEF);
    put_bytes(&mut out, &[1, 2, 3]);
    assert_eq!(out, vec![0xEE, 0x34, 0x12, 0xEF, 0xCD, 0xAB, 0x89, 1, 2, 3]);
}

#[test]
fn written_integers_read_back() {
    for value in [0u32, 1, 255, 256, 65535, 65536, 0x00FF_FF00, u32::MAX] {
        let mut out = Vec::new();
        put_u32(&mut out, value);
        assert_eq!(ByteReader::new(&out).read_u32(), Some(value));
    }
    for value in [0u16, 1, 255, 256, 0x8000, u16::MAX] {
        let mut out = Vec::new();
        put_u16(&mut out, value);
        assert_eq!(ByteReader::new(&out).read_u16(), Some(value));
    }
}

#[test]
fn read_until_includes_the_delimiter() {
    let data = *b"ab;cd";
    let mut reader = ByteReader::new(&data);
    assert_eq!(reader.read_until(b';'), b"ab;");
    assert!(reader.ended_on(0, b';'));
    assert_eq!(reader.read_until(b';'), b"cd");
    assert!(!reader.ended_on(3, b';'));
    assert_eq!(reader.read_until(b';'), b"");
    assert_eq!(reader.position(), 5);
}

#[test]
fn read_null_term_string_reads_up_to_the_terminator() {
    let data = *b"abc\0de\0";
    let mut reader = ByteReader::new(&data);
    assert_eq!(read_null_term_string(&mut reader), Ok(String::from("abc")));
    assert_eq!(reader.position(), 4);
    assert_eq!(read_null_term_string(&mut reader), Ok(String::from("de")));
    assert_eq!(reader.position(), 7);
}

#[test]
fn read_null_term_string_of_an_empty_string() {
    let data = [0u8, b'x', 0];
    let mut reader = ByteReader::new(&data);
    assert_eq!(read_null_term_string(&mut reader), Ok(String::new()));
    assert_eq!(reader.position(), 1);
    assert_eq!(read_null_term_string(&mut reader), Ok(String::from("x")));
}

#[test]
fn read_null_term_string_takes_the_rest_where_no_terminator_follows() {
    let data = *b"xyz";
    let mut reader = ByteReader::new(&data);
    assert_eq!(read_null_term_string(&mut reader), Ok(String::from("xyz")));
    assert_eq!(reader.position(), 3);
    assert_eq!(read_null_term_string(&mut reader), Ok(String::new()));
    assert_eq!(reader.position(), 3);
}

#[test]
fn read_null_term_string_decodes_utf8() {
    let mut data = "dossier/é€😀".as_bytes().to_vec();
    data.push(0);
    let mut reader = ByteReader::new(&data);
    assert_eq!(read_null_term_string(&mut reader), Ok(String::from("dossier/é€😀")));
    assert_eq!(reader.remaining(), 0);
}

#[test]
fn read_null_term_string_rejects_bytes_that_are_not_utf8() {
    let data = [b'a', 0xFF, 0xFE, 0, b'b', 0];
    let mut reader = ByteReader::new(&data);
    assert_eq!(read_null_term_string(&mut reader), Err(DzipError::CorruptArchive));
    assert_eq!(reader.position(), 4);
    assert_eq!(read_null_term_string(&mut reader), Ok(String::from("b")));
}

#[test]
fn read_null_term_string_rejects_a_truncated_character() {
    let data = [0xE2u8, 0x82, 0];
    let mut reader = ByteReader::new(&data);
    assert_eq!(read_null_term_string(&mut reader), Err(DzipError::CorruptArchive));
}

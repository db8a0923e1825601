use dzip_core::error::DzipError;

#[test]
fn message_names_what_went_wrong() {
    assert_eq!(DzipError::CorruptArchive.message(), "corrupt archive");
    assert_eq!(
        DzipError::CodecError { file: String::from("a/b"), chunk_id: 3 }.message(),
        "codec failure in a/b"
    );
    assert_eq!(
        DzipError::IoContext(String::from("x.dz"), String::from("denied")).message(),
        "x.dz: denied"
    );
    assert_eq!(DzipError::ConfigFormat(String::from("no files")).message(), "config format: no files");
    assert_eq!(DzipError::Generic(String::from("bad name")).message(), "bad name");
}

use forgers::paths::{
    compress_type, is_gzip_magic, path_or, stream_type, CompressionType, StreamType,
};

#[test]
fn dash_means_standard_stream() {
    assert_eq!(stream_type("-"), StreamType::Stdio);
    assert_eq!(stream_type("input.vcf"), StreamType::File);
    assert_eq!(stream_type(""), StreamType::File);
    assert_eq!(stream_type("--"), StreamType::File);
}

#[test]
fn suffix_decides_compression() {
    assert_eq!(compress_type("a.vcf.gz", false), CompressionType::Gzip);
    assert_eq!(compress_type("a.vcf.bgz", false), CompressionType::Bgzip);
    assert_eq!(compress_type("a.vcf", false), CompressionType::Plain);
    assert_eq!(compress_type("gz", false), CompressionType::Plain);
}

#[test]
fn forced_compression_is_gzip() {
    assert_eq!(compress_type("a.vcf", true), CompressionType::Gzip);
    assert_eq!(CompressionType::default(), CompressionType::Gzip);
}

#[test]
fn path_or_names_standard_streams() {
    assert_eq!(path_or("-", "stdin"), "stdin".to_string());
    assert_eq!(path_or("a.vcf", "stdin"), "a.vcf".to_string());
}

#[test]
fn gzip_magic_bytes() {
    assert!(is_gzip_magic(0x1f, 0x8b));
    assert!(!is_gzip_magic(0x1f, 0x8c));
    assert!(!is_gzip_magic(0x23, 0x8b));
}

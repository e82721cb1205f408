use fakit::sidecar::parse_u64;
use fakit::utils::{detect_compression, CompressionFormat};
use fakit::wrap::{line_wrap, wrap_fasta, write_record};

#[test]
fn wrap_with_trailing_terminator_after_full_lines() {
    assert_eq!(wrap_fasta(b"ACGTAC", 4), b"ACGT\nAC".to_vec());
    assert_eq!(wrap_fasta(b"ACGT", 4), b"ACGT\n".to_vec());
    assert_eq!(wrap_fasta(b"ACGTACGT", 4), b"ACGT\nACGT\n".to_vec());
    assert_eq!(wrap_fasta(b"AC", 4), b"AC".to_vec());
    assert_eq!(wrap_fasta(b"", 4), b"".to_vec());
}

#[test]
fn wrap_without_trailing_terminator() {
    assert_eq!(line_wrap(b"ACGTAC", 4), b"ACGT\nAC".to_vec());
    assert_eq!(line_wrap(b"ACGT", 4), b"ACGT".to_vec());
    assert_eq!(line_wrap(b"ACGTACGT", 4), b"ACGT\nACGT".to_vec());
    assert_eq!(line_wrap(b"A", 4), b"A".to_vec());
    assert_eq!(line_wrap(b"", 4), b"".to_vec());
}

#[test]
fn record_text_wrapped_and_flat() {
    assert_eq!(write_record(b"id", b"ACGTA", 2), b">id\nAC\nGT\nA\n".to_vec());
    assert_eq!(write_record(b"id", b"ACGTA", 0), b">id\nACGTA\n".to_vec());
    assert_eq!(write_record(b"id", b"", 4), b">id\n\n".to_vec());
}

#[test]
fn magic_numbers() {
    assert_eq!(
        CompressionFormat::Gzip.magic_number(),
        vec![0x1f, 0x8b, 0x08]
    );
    assert_eq!(
        CompressionFormat::Bzip2.magic_number(),
        vec![0x42, 0x5a, 0x68]
    );
    assert_eq!(
        CompressionFormat::Xz.magic_number(),
        vec![0xfd, 0x37, 0x7a, 0x58, 0x5a, 0x00]
    );
    assert_eq!(
        CompressionFormat::Zstd.magic_number(),
        vec![0x28, 0xb5, 0x2f, 0xfd]
    );
    assert_eq!(CompressionFormat::Plain.magic_number(), Vec::<u8>::new());
}

#[test]
fn magic_match_needs_full_prefix() {
    assert!(CompressionFormat::Gzip.is_match(&[0x1f, 0x8b, 0x08, 0x00]));
    assert!(!CompressionFormat::Gzip.is_match(&[0x1f, 0x8b]));
    assert!(!CompressionFormat::Gzip.is_match(b">chr1"));
    assert!(CompressionFormat::Plain.is_match(b""));
}

#[test]
fn compression_detected_by_magic_or_extension() {
    assert_eq!(
        detect_compression(&[0x1f, 0x8b, 0x08, 0x00, 0x00, 0x00], None),
        CompressionFormat::Gzip
    );
    assert_eq!(
        detect_compression(&[0x42, 0x5a, 0x68, 0x39, 0x31, 0x41], None),
        CompressionFormat::Bzip2
    );
    assert_eq!(
        detect_compression(&[0xfd, 0x37, 0x7a, 0x58, 0x5a, 0x00], None),
        CompressionFormat::Xz
    );
    assert_eq!(
        detect_compression(&[0x28, 0xb5, 0x2f, 0xfd, 0x00, 0x00], None),
        CompressionFormat::Zstd
    );
    assert_eq!(
        detect_compression(b">chr1\n", None),
        CompressionFormat::Plain
    );
    assert_eq!(
        detect_compression(b">chr1\n", Some(b"gz")),
        CompressionFormat::Gzip
    );
    assert_eq!(
        detect_compression(b">chr1\n", Some(b"bz2")),
        CompressionFormat::Bzip2
    );
    assert_eq!(
        detect_compression(b">chr1\n", Some(b"xz")),
        CompressionFormat::Xz
    );
    assert_eq!(
        detect_compression(b">chr1\n", Some(b"zst")),
        CompressionFormat::Zstd
    );
    assert_eq!(
        detect_compression(b">chr1\n", Some(b"fa")),
        CompressionFormat::Plain
    );
    // magic outranks a mismatched extension: gzip is tried first
    assert_eq!(
        detect_compression(&[0x42, 0x5a, 0x68, 0x39, 0x31, 0x41], Some(b"gz")),
        CompressionFormat::Gzip
    );
}

#[test]
fn strict_decimal_parsing() {
    assert_eq!(parse_u64(b"0"), Some(0));
    assert_eq!(parse_u64(b"00"), Some(0));
    assert_eq!(parse_u64(b"1234567890"), Some(1234567890));
    assert_eq!(parse_u64(b"18446744073709551615"), Some(u64::MAX));
    assert_eq!(parse_u64(b"18446744073709551616"), None);
    assert_eq!(parse_u64(b""), None);
    assert_eq!(parse_u64(b"12a"), None);
    assert_eq!(parse_u64(b"-1"), None);
    assert_eq!(parse_u64(b" 1"), None);
}

use std::io::Read;

use wheatley::compress_assets;
use wheatley::Codec;

fn sample_table() -> Vec<(Vec<u8>, Vec<u8>)> {
    vec![
        (
            b"books/hardly_haunted.txt".to_vec(),
            b"The house was hardly haunted at all, and it minded terribly.".to_vec(),
        ),
        (b"books/empty.txt".to_vec(), Vec::new()),
    ]
}

#[test]
fn gzip_round_trip() {
    let expected = sample_table();
    let mut table = sample_table();
    compress_assets(&mut table, Codec::Gzip);

    for (compressed, original) in table.iter().zip(expected.iter()) {
        assert_eq!(compressed.0, original.0);
        let mut decoder = flate2::read::GzDecoder::new(compressed.1.as_slice());
        let mut result = Vec::new();
        decoder.read_to_end(&mut result).unwrap();
        assert_eq!(result, original.1);
    }
}

#[test]
fn brotli_round_trip() {
    let expected = sample_table();
    let mut table = sample_table();
    compress_assets(&mut table, Codec::Br);

    for (compressed, original) in table.iter().zip(expected.iter()) {
        assert_eq!(compressed.0, original.0);
        let mut result = Vec::new();
        let mut contents = std::io::Cursor::new(compressed.1.clone());
        brotli::BrotliDecompress(&mut contents, &mut result).unwrap();
        assert_eq!(result, original.1);
    }
}

#[test]
fn zstd_round_trip() {
    let expected = sample_table();
    let mut table = sample_table();
    compress_assets(&mut table, Codec::Zstd);

    for (compressed, original) in table.iter().zip(expected.iter()) {
        assert_eq!(compressed.0, original.0);
        let contents = std::io::Cursor::new(compressed.1.clone());
        let result = zstd::decode_all(contents).unwrap();
        assert_eq!(result, original.1);
    }
}

#[test]
fn snap_round_trip() {
    let expected = sample_table();
    let mut table = sample_table();
    compress_assets(&mut table, Codec::Snap);

    for (compressed, original) in table.iter().zip(expected.iter()) {
        assert_eq!(compressed.0, original.0);
        let mut result = Vec::new();
        snap::read::FrameDecoder::new(compressed.1.as_slice())
            .read_to_end(&mut result)
            .unwrap();
        assert_eq!(result, original.1);
    }
}

#[test]
fn uncompressed_contents_are_not_a_brotli_stream() {
    let mut table = sample_table();
    compress_assets(&mut table, Codec::Gzip);

    // Data compressed with one codec must not decode under another: the
    // values really were transformed, and by the chosen codec.
    let mut result = Vec::new();
    let mut contents = std::io::Cursor::new(table[0].1.clone());
    assert!(brotli::BrotliDecompress(&mut contents, &mut result).is_err());
}

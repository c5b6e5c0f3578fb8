//! Whole-asset compression of the table's values, ahead of embedding. The
//! codecs themselves are outside work; each is named and trusted at its
//! boundary, and the table walk around them is verified: compression changes
//! each value to the chosen codec's output and touches nothing else.

use std::io::Write;

use vstd::prelude::*;

verus! {

/// The available codecs.
#[derive(Clone, Copy, Debug, PartialEq, Eq, Structural)]
pub enum Codec {
    /// DEFLATE in a gzip wrapper.
    Gzip,
    /// Brotli at its default quality.
    Br,
    /// Zstandard at its default level.
    Zstd,
    /// Snappy frame encoding.
    Snap,
}

/// The gzip encoding of `data` at the default level. The header is fixed
/// (no timestamp, a constant operating-system byte), so the bytes depend on
/// the input alone.
pub uninterp spec fn gzip_of(data: Seq<u8>) -> Seq<u8>;

/// The brotli encoding of `data` under default parameters.
pub uninterp spec fn brotli_of(data: Seq<u8>) -> Seq<u8>;

/// The zstandard encoding of `data` at the default level.
pub uninterp spec fn zstd_of(data: Seq<u8>) -> Seq<u8>;

/// The snappy frame encoding of `data`.
pub uninterp spec fn snap_of(data: Seq<u8>) -> Seq<u8>;

/// What compression with a given codec yields.
pub open spec fn compressed(c: Codec, data: Seq<u8>) -> Seq<u8> {
    match c {
        Codec::Gzip => gzip_of(data),
        Codec::Br => brotli_of(data),
        Codec::Zstd => zstd_of(data),
        Codec::Snap => snap_of(data),
    }
}

/// Relies on `flate2::write::GzEncoder` at the default compression level:
/// writing to a byte vector cannot fail, and the stream is a function of the
/// input bytes alone (the header carries no timestamp and a fixed
/// operating-system byte).
#[verifier::external_body]
fn compress_with_gzip(asset: &Vec<u8>) -> (r: Vec<u8>)
    ensures
        r@ == gzip_of(asset@),
{
    let mut codec = flate2::write::GzEncoder::new(Vec::new(), flate2::Compression::default());
    codec.write_all(asset.as_slice()).unwrap();
    codec.finish().unwrap()
}

/// Relies on `brotli::enc::BrotliCompress` with default parameters: encoding
/// into a byte vector cannot fail, and the output depends on the input bytes
/// alone.
#[verifier::external_body]
fn compress_with_br(asset: &Vec<u8>) -> (r: Vec<u8>)
    ensures
        r@ == brotli_of(asset@),
{
    let mut buffer = Vec::new();
    let mut w = asset.as_slice();
    brotli::enc::BrotliCompress(&mut w, &mut buffer, &brotli::enc::BrotliEncoderParams::default())
        .unwrap();
    buffer
}

/// Relies on `zstd::stream::encode_all` at the default level: encoding a
/// byte slice cannot fail, and the output depends on the input bytes alone.
#[verifier::external_body]
fn compress_with_zstd(asset: &Vec<u8>) -> (r: Vec<u8>)
    ensures
        r@ == zstd_of(asset@),
{
    zstd::stream::encode_all(asset.as_slice(), 0).unwrap()
}

/// Relies on `snap::write::FrameEncoder`: writing to a byte vector cannot
/// fail, and the frame stream depends on the input bytes alone.
#[verifier::external_body]
fn compress_with_snap(asset: &Vec<u8>) -> (r: Vec<u8>)
    ensures
        r@ == snap_of(asset@),
{
    let mut wtr = snap::write::FrameEncoder::new(Vec::new());
    wtr.write_all(asset.as_slice()).unwrap();
    wtr.into_inner().unwrap()
}

/// The chosen codec's encoding of one asset.
pub fn compress_asset(codec: Codec, asset: &Vec<u8>) -> (r: Vec<u8>)
    ensures
        r@ == compressed(codec, asset@),
{
    match codec {
        Codec::Gzip => compress_with_gzip(asset),
        Codec::Br => compress_with_br(asset),
        Codec::Zstd => compress_with_zstd(asset),
        Codec::Snap => compress_with_snap(asset),
    }
}

/// Replaces every value of the table by its encoding under the chosen
/// codec, leaving every key and the order of the entries unchanged.
#[verifier::loop_isolation(false)]
pub fn compress_assets(hash_table: &mut Vec<(Vec<u8>, Vec<u8>)>, codec: Codec)
    ensures
        final (hash_table)@.len() == old(hash_table)@.len(),
        forall|j: int|
            0 <= j < old(hash_table)@.len() ==> (#[trigger] final (hash_table)@[j]).0@ == old(
                hash_table,
            )@[j].0@ && final (hash_table)@[j].1@ == compressed(codec, old(hash_table)@[j].1@),
{
    let n = hash_table.len();
    let mut j: usize = 0;
    while j < n
        invariant
            0 <= j <= n,
            hash_table@.len() == n,
            forall|t: int|
                j <= t < n ==> (#[trigger] hash_table@[t]) == old(hash_table)@[t],
            forall|t: int|
                0 <= t < j ==> (#[trigger] hash_table@[t]).0@ == old(hash_table)@[t].0@
                    && hash_table@[t].1@ == compressed(codec, old(hash_table)@[t].1@),
        decreases n - j,
    {
        let compressed_value = compress_asset(codec, &hash_table[j].1);
        let key = crate::builder::clone_bytes(&hash_table[j].0);
        hash_table.set(j, (key, compressed_value));
        j = j + 1;
    }
}

} // verus!

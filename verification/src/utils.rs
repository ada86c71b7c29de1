use vstd::prelude::*;

verus! {

/// The 64-bit identity fingerprint of a byte string: what the fixed, seeded
/// xxHash-64 algorithm returns for it. The result depends on the bytes alone.
pub uninterp spec fn fingerprint_of(bytes: Seq<u8>) -> u64;

/// Hashes the given byte slice using the xxHash 64-bit algorithm with a
/// constant seed value.
///
/// Relies on `xxhash_rust::xxh64::xxh64`: a deterministic hash whose result
/// is a function of the input bytes and the seed alone.
#[verifier::external_body]
pub fn hash_bytes(bytes: &[u8]) -> (r: u64)
    ensures
        r == fingerprint_of(bytes@),
{
    xxhash_rust::xxh64::xxh64(bytes, 0xC0FFEE)
}

/// What decompressing a gzip stream yields: the decompressed bytes, or
/// nothing when the stream is not valid gzip. Decompression is a function
/// of the input bytes alone.
pub uninterp spec fn gunzip_of(data: Seq<u8>) -> Option<Seq<u8>>;

/// Compresses the given bytes as a gzip stream at a fixed, moderate level.
///
/// Relies on `flate2::write::GzEncoder`: what it produces decompresses back
/// to its input, and compressing into memory cannot fail (the encoder only
/// reports errors of the underlying writer, and writing to a `Vec` never
/// fails).
#[verifier::external_body]
pub(crate) fn gzip_compress(data: &[u8]) -> (r: Vec<u8>)
    ensures
        gunzip_of(r@) == Some(data@),
{
    let mut encoder = flate2::write::GzEncoder::new(Vec::new(), flate2::Compression::new(4));
    std::io::Write::write_all(&mut encoder, data).expect("a Vec accepts all writes");
    encoder.finish().expect("a Vec accepts all writes")
}

/// Decompresses a gzip stream, or reports that the input is not one.
///
/// Relies on `flate2::read::GzDecoder`: reading it to the end yields the
/// decompressed bytes, failing exactly on inputs that are not a valid gzip
/// stream; the outcome is a function of the input bytes alone.
#[verifier::external_body]
pub(crate) fn gzip_decompress(data: &[u8]) -> (r: Option<Vec<u8>>)
    ensures
        match r {
            Some(v) => gunzip_of(data@) == Some(v@),
            None => gunzip_of(data@) is None,
        },
{
    let mut out: Vec<u8> = Vec::new();
    let mut decoder = flate2::read::GzDecoder::new(data);
    match std::io::Read::read_to_end(&mut decoder, &mut out) {
        Ok(_) => Some(out),
        Err(_) => None,
    }
}

} // verus!

use vstd::prelude::*;

verus! {

/// The SHA-1 digest of a byte string, as computed by `git_features::hash::Sha1`.
pub uninterp spec fn sha1_of(bytes: Seq<u8>) -> Seq<u8>;

/// The CRC-32 (IEEE) checksum of a byte string, as computed by `git_features::hash::crc32`.
pub uninterp spec fn crc32_of(bytes: Seq<u8>) -> u32;

/// What one call of `git_features::zlib::Inflate::once` yields on a fresh decompressor, given all of
/// `input` and an output buffer of `out_len` zero bytes: whether the zlib stream ended, how many
/// input bytes were consumed, how many output bytes were produced, and the output buffer.
pub uninterp spec fn inflate_once_of(input: Seq<u8>, out_len: nat) -> Option<(bool, nat, nat, Seq<u8>)>;

/// A complete zlib stream of `data`, as written by `git_features::zlib::stream::deflate::Write`.
pub uninterp spec fn deflate_of(data: Seq<u8>) -> Seq<u8>;

/// Relies on `git_features::hash::Sha1` (update, then digest): the 20-byte SHA-1 of `bytes`.
#[verifier::external_body]
pub fn sha1(bytes: &[u8]) -> (r: [u8; 20])
    ensures
        r@ == sha1_of(bytes@),
{
    let mut hasher = git_features::hash::Sha1::default();
    hasher.update(bytes);
    hasher.digest()
}

/// Relies on `git_features::hash::crc32`: the CRC-32 of `bytes`.
#[verifier::external_body]
pub fn crc32(bytes: &[u8]) -> (r: u32)
    ensures
        r == crc32_of(bytes@),
{
    git_features::hash::crc32(bytes)
}

/// Relies on `git_features::zlib::Inflate::once`: one decompression call on a new zlib
/// decompressor over `input`, into a buffer of `out_len` bytes. `None` when the stream is corrupt.
/// The counts never exceed the input's length and the buffer's length.
#[verifier::external_body]
pub fn inflate_once(input: &[u8], out_len: usize) -> (r: Option<(bool, usize, usize, Vec<u8>)>)
    ensures
        match r {
            None => inflate_once_of(input@, out_len as nat) is None,
            Some((ended, used_in, used_out, out)) => {
                &&& inflate_once_of(input@, out_len as nat) == Some((ended, used_in as nat, used_out as nat, out@))
                &&& used_in <= input@.len()
                &&& used_out <= out_len
                &&& out@.len() == out_len
            },
        },
{
    let mut out = vec![0u8; out_len];
    let mut inflate = git_features::zlib::Inflate::default();
    match inflate.once(input, &mut out) {
        Ok((status, used_in, used_out)) => match status {
            git_features::zlib::Status::StreamEnd => Some((true, used_in, used_out, out)),
            git_features::zlib::Status::Ok => Some((false, used_in, used_out, out)),
            git_features::zlib::Status::BufError => Some((false, used_in, used_out, out)),
        },
        Err(_) => None,
    }
}

/// Relies on `git_features::zlib::stream::deflate::Write` (write all, flush): a zlib stream of `data`.
#[verifier::external_body]
pub fn deflate(data: &[u8]) -> (r: Vec<u8>)
    ensures
        r@ == deflate_of(data@),
{
    let mut w = git_features::zlib::stream::deflate::Write::new(Vec::new());
    std::io::Write::write_all(&mut w, data).expect("writing into memory");
    std::io::Write::flush(&mut w).expect("flushing into memory");
    w.into_inner()
}

} // verus!

//! Inflating compressed packets.
use miniz_oxide::inflate::DecompressError;
use vstd::prelude::*;

use crate::error::{Error, Result};

verus! {

/// More bytes than a UDP datagram can inflate to: it holds less than 64 KiB, and no
/// byte of it stands for much more than a thousand bytes.
pub const MAX_INFLATED_LENGTH: usize = 0x0800_0000;

/// `miniz_oxide::inflate::DecompressError`: why data could not be inflated.
#[verifier::external_type_specification]
#[verifier::external_body]
pub struct ExDecompressError(miniz_oxide::inflate::DecompressError);

/// What `miniz_oxide::inflate::decompress_to_vec_zlib_with_limit` makes of `data`
/// under the limit `max`: the bytes that the zlib stream at the start of `data` stands
/// for, or nothing where there is no such stream or it stands for more than `max`
/// bytes.
pub uninterp spec fn inflated(data: Seq<u8>, max: usize) -> Option<Seq<u8>>;

/// `miniz_oxide::inflate::decompress_to_vec_zlib_with_limit`: the result depends on the
/// arguments alone and is never longer than the limit. Which bytes a zlib stream stands
/// for is not said here.
#[verifier::external_body]
fn decompress(data: &[u8], max: usize) -> (r: std::result::Result<Vec<u8>, DecompressError>)
    requires
        max <= MAX_INFLATED_LENGTH,
    ensures
        match r {
            Ok(v) => inflated(data@, max) == Some(v@) && v@.len() <= max,
            Err(_) => inflated(data@, max) is None,
        },
{
    miniz_oxide::inflate::decompress_to_vec_zlib_with_limit(data, max)
}

/// Inflates a zlib stream.
pub fn inflate(data: &[u8]) -> (r: Result<Vec<u8>>)
    ensures
        match inflated(data@, MAX_INFLATED_LENGTH) {
            Some(plain) => r matches Ok(v) && v@ == plain && v@.len() <= MAX_INFLATED_LENGTH,
            None => r == Err::<Vec<u8>, Error>(Error::InvalidCompressedData),
        },
{
    match decompress(data, MAX_INFLATED_LENGTH) {
        Ok(v) => Ok(v),
        Err(_) => Err(Error::InvalidCompressedData),
    }
}

} // verus!

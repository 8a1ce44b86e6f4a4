//! Compression dispatch: a compressed unit's first byte is a method mask
//! that selects the codec for the rest of the unit. The zlib method is
//! carried by an outside decoder; every other method surfaces as
//! unsupported.

use vstd::prelude::*;

verus! {

use vstd::slice::slice_subrange;
use crate::MpqError;

/// The zlib (deflate) method bit.
pub const COMPRESSION_ZLIB: u8 = 0x02;

/// What the zlib decoder yields for `input` with `cap` bytes of output space
/// open: the decoded bytes, or `None` when it rejects the stream. The
/// outcome is a function of the input bytes and the capacity alone.
pub uninterp spec fn spec_inflate(input: Seq<u8>, cap: nat) -> Option<Seq<u8>>;

/// Relies on flate2::Decompress::decompress (zlib headers, one call flushed
/// with Finish): it writes the decoded bytes at `start`, reports their
/// number through total_out, leaves the rest of the buffer alone, and
/// errors on a corrupt stream. What it writes depends on the input bytes
/// and the free space alone.
#[verifier::external_body]
fn inflate_into(input: &[u8], out: &mut Vec<u8>, start: usize) -> (r: Result<usize, MpqError>)
    requires
        start <= old(out).len(),
    ensures
        final(out)@.len() == old(out)@.len(),
        final(out)@.subrange(0, start as int) == old(out)@.subrange(0, start as int),
        match r {
            Ok(n) => {
                &&& start + n <= final(out)@.len()
                &&& spec_inflate(input@, (old(out)@.len() - start) as nat) == Some(
                    final(out)@.subrange(start as int, start + n),
                )
                &&& final(out)@.subrange(start + n, final(out)@.len() as int) == old(
                    out,
                )@.subrange(start + n, old(out)@.len() as int)
            },
            Err(e) => {
                &&& e == MpqError::InvalidData
                &&& spec_inflate(input@, (old(out)@.len() - start) as nat) is None
            },
        },
{
    let mut z = flate2::Decompress::new(true);
    match z.decompress(input, &mut out[start..], flate2::FlushDecompress::Finish) {
        Ok(_) => Ok(z.total_out() as usize),
        Err(_) => Err(MpqError::InvalidData),
    }
}

/// The decoded form of one compressed unit, given `cap` bytes of output
/// space: the first byte must name the zlib method; an empty unit is
/// corrupt, and any other method is unsupported.
pub open spec fn spec_decompress_unit(input: Seq<u8>, cap: nat) -> Result<Seq<u8>, MpqError> {
    if input.len() == 0 {
        Err(MpqError::InvalidData)
    } else if input[0] == COMPRESSION_ZLIB {
        match spec_inflate(input.skip(1), cap) {
            Some(out) => Ok(out),
            None => Err(MpqError::InvalidData),
        }
    } else {
        Err(MpqError::Unsupported)
    }
}

/// Decode one compressed unit into `out[start..]` and report how many bytes
/// the codec produced.
pub fn decompress_into(data: &[u8], out: &mut Vec<u8>, start: usize) -> (r: Result<
    usize,
    MpqError,
>)
    requires
        start <= old(out).len(),
    ensures
        final(out)@.len() == old(out)@.len(),
        final(out)@.subrange(0, start as int) == old(out)@.subrange(0, start as int),
        match r {
            Ok(n) => {
                &&& start + n <= final(out)@.len()
                &&& spec_decompress_unit(data@, (old(out)@.len() - start) as nat) == Ok::<
                    Seq<u8>,
                    MpqError,
                >(final(out)@.subrange(start as int, start + n))
                &&& final(out)@.subrange(start + n, final(out)@.len() as int) == old(
                    out,
                )@.subrange(start + n, old(out)@.len() as int)
            },
            Err(e) => spec_decompress_unit(data@, (old(out)@.len() - start) as nat) == Err::<
                Seq<u8>,
                MpqError,
            >(e),
        },
{
    if data.len() == 0 {
        return Err(MpqError::InvalidData);
    }
    let method = data[0];
    if method == COMPRESSION_ZLIB {
        let payload = slice_subrange(data, 1, data.len());
        assert(payload@ =~= data@.skip(1));
        inflate_into(payload, out, start)
    } else {
        Err(MpqError::Unsupported)
    }
}

/// Decode one compressed unit into the start of `out`: the unit's first
/// byte picks the codec.
pub fn decompress(data: &[u8], out: &mut Vec<u8>) -> (r: Result<usize, MpqError>)
    ensures
        final(out)@.len() == old(out)@.len(),
        match r {
            Ok(n) => {
                &&& n <= final(out)@.len()
                &&& spec_decompress_unit(data@, old(out)@.len()) == Ok::<Seq<u8>, MpqError>(
                    final(out)@.subrange(0, n as int),
                )
            },
            Err(e) => spec_decompress_unit(data@, old(out)@.len()) == Err::<Seq<u8>, MpqError>(e),
        },
{
    decompress_into(data, out, 0)
}

} // verus!

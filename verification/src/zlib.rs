use vstd::prelude::*;
use std::io::Read;
use std::io::Write;

verus! {

/// What inflating the zlib stream that starts `input` gives: the bytes it
/// decodes to, and how many bytes of `input` the stream occupies. `None`
/// where `input` does not begin with a complete, valid zlib stream.
pub uninterp spec fn zlib_inflated(input: Seq<u8>) -> Option<(Seq<u8>, nat)>;

/// What deflating `input` at the default level gives: the zlib stream, or
/// `None` where the encoder reports an error.
pub uninterp spec fn zlib_deflated(input: Seq<u8>) -> Option<Seq<u8>>;

/// Runs `flate2::read::ZlibDecoder` over `input` to the end of its stream.
///
/// Believed, not proved: the decoded bytes and the decoder's `total_in`
/// are the pair that `zlib_inflated` names, that count is no more than the
/// bytes handed in, and a decoder error means that there is no such pair.
#[verifier::external_body]
pub(crate) fn inflate(input: &[u8]) -> (r: Option<(Vec<u8>, usize)>)
    ensures
        match r {
            Some((out, used)) => zlib_inflated(input@) == Some((out@, used as nat)) && used
                <= input@.len(),
            None => zlib_inflated(input@) is None,
        },
{
    let mut z = flate2::read::ZlibDecoder::new(input);
    let mut out = Vec::new();
    match z.read_to_end(&mut out) {
        Ok(_) => Some((out, z.total_in() as usize)),
        Err(_) => None,
    }
}

/// Runs `flate2::write::ZlibEncoder` at the default level over `input`.
///
/// Believed, not proved: what the encoder does with `input` depends on
/// `input` alone, and is what `zlib_deflated` names: the bytes that
/// `finish` hands back, or `None` for an error of `write_all` or `finish`.
/// Nothing is claimed of when the encoder succeeds.
#[verifier::external_body]
pub(crate) fn deflate(input: &[u8]) -> (r: Option<Vec<u8>>)
    ensures
        match r {
            Some(out) => zlib_deflated(input@) == Some(out@),
            None => zlib_deflated(input@) is None,
        },
{
    let mut e = flate2::write::ZlibEncoder::new(Vec::new(), flate2::Compression::default());
    match e.write_all(input) {
        Ok(_) => e.finish().ok(),
        Err(_) => None,
    }
}

/// The object body that the zlib stream at `pos` decodes to, with the
/// position after the stream.
pub open spec fn inflate_at(data: Seq<u8>, pos: int) -> Option<(Seq<u8>, int)> {
    if 0 <= pos <= data.len() {
        match zlib_inflated(data.subrange(pos, data.len() as int)) {
            Some((out, used)) => Some((out, pos + used)),
            None => None,
        }
    } else {
        None
    }
}

} // verus!

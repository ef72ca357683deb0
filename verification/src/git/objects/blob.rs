use vstd::prelude::*;
use crate::bytes::copy_range;
use crate::error::GitError;
use crate::stream::ByteStream;

verus! {

/// The body of a blob object: bytes with no structure.
#[derive(Debug, PartialEq, Eq)]
pub struct Blob(pub Vec<u8>);

/// Reads a blob body: everything that is left of the stream, which then
/// stands at the end of its data. It never fails.
pub fn parse(stream: &mut ByteStream) -> (r: Result<Blob, GitError>)
    ensures
        final(stream).data == old(stream).data,
        r is Ok,
        r->Ok_0.0@ == old(stream).rest(),
        final(stream).rest().len() == 0,
        final(stream).pos >= old(stream).pos,
        old(stream).pos <= old(stream).data@.len() ==> final(stream).pos == old(stream).data@.len(),
        old(stream).pos > old(stream).data@.len() ==> final(stream).pos == old(stream).pos,
{
    let len: usize = stream.data.len();
    if stream.pos > len {
        return Ok(Blob(Vec::new()));
    }
    let data: Vec<u8> = copy_range(stream.data, stream.pos, len);
    stream.pos = len;
    assert(stream.rest() =~= Seq::<u8>::empty());
    Ok(Blob(data))
}

} // verus!

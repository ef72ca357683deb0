pub mod helpers;
pub mod packfile;
pub mod objects;
pub mod ofs;
pub mod delta;

use vstd::prelude::*;
use crate::digest::{hex_encode, hex_text, is_utf8};
use crate::error::GitError;
use crate::git::helpers::{be32_value, bytes_at, offset_varint, read_offset, read_u32};
use crate::git::packfile::{entry_head, read_entry_head, ObjType, PackObjType};
use crate::stream::ByteStream;
use crate::zlib::{inflate, inflate_at};

verus! {

/// The kind of a pack entry as its type bits give it.
#[derive(Debug, PartialEq, Eq, Clone, Copy, Structural)]
pub enum PackfileOBJ {
    COMMIT,
    TREE,
    BLOB,
    TAG,
    OFS,
    REF,
}

/// A pack entry as it is stored: its kind and its payload, inflated. For a
/// delta the payload is the delta, not the object that it makes.
#[derive(Debug)]
pub struct PackObj {
    pub kind: PackfileOBJ,
    pub data: Vec<u8>,
}

/// Reads the offset number that `data` begins with (see `offset_varint`):
/// its value, and the number of bytes that it takes.
///
/// `Transport` where `data` ends inside the number, `Format` where the
/// number does not fit in `usize`.
pub fn offset_decode(data: &[u8]) -> (r: Result<(usize, usize), GitError>)
    ensures
        match offset_varint(data@, 0) {
            Some((v, next)) => if v <= usize::MAX {
                r == Ok::<(usize, usize), GitError>((v as usize, next as usize))
            } else {
                r == Err::<(usize, usize), GitError>(GitError::Format)
            },
            None => r == Err::<(usize, usize), GitError>(GitError::Transport),
        },
{
    let mut stream = ByteStream::new(data);
    match read_offset(&mut stream) {
        Ok(offset) => Ok((offset, stream.pos)),
        Err(e) => Err(e),
    }
}

/// The kind of a base object as the type bits of its entry give it.
pub open spec fn stored_kind(kind: PackObjType) -> PackfileOBJ {
    match kind {
        PackObjType::Base(ObjType::Commit) => PackfileOBJ::COMMIT,
        PackObjType::Base(ObjType::Tree) => PackfileOBJ::TREE,
        PackObjType::Base(ObjType::Blob) => PackfileOBJ::BLOB,
        PackObjType::Base(ObjType::Tag) => PackfileOBJ::TAG,
        PackObjType::OFS => PackfileOBJ::OFS,
        PackObjType::REF => PackfileOBJ::REF,
    }
}

/// The pack entry at `pos` as it is stored: its kind, its payload
/// inflated, and the number of bytes that the entry takes in the pack.
///
/// Errors are those of `entry_head`, and `Format` where the payload does
/// not inflate.
pub open spec fn stored_entry(raw: Seq<u8>, pos: int) -> Result<(PackfileOBJ, Seq<u8>, int), GitError> {
    match entry_head(raw, pos) {
        Err(e) => Err(e),
        Ok((kind, _, payload)) => match inflate_at(raw, payload) {
            None => Err(GitError::Format),
            Some((data, next)) => Ok((stored_kind(kind), data, next - pos)),
        },
    }
}

/// Reads the pack entry at `pos` as it is stored (see `stored_entry`). A
/// delta is not resolved.
pub fn get_object(raw: &[u8], pos: usize) -> (r: Result<(PackObj, usize), GitError>)
    ensures
        match stored_entry(raw@, pos as int) {
            Ok((kind, data, total)) => r is Ok && r->Ok_0.0.kind == kind && r->Ok_0.0.data@ == data
                && r->Ok_0.1 == total && 0 < total && pos + total <= raw@.len() && pos + total
                <= usize::MAX,
            Err(e) => r is Err && r->Err_0 == e,
        },
{
    let (head, _, payload) = match read_entry_head(raw, pos) {
        Err(e) => {
            return Err(e);
        },
        Ok(h) => h,
    };
    proof {
        crate::git::packfile::lemma_entry_head_bounds(raw@, pos as int);
    }
    let kind: PackfileOBJ = match head {
        PackObjType::Base(ObjType::Commit) => PackfileOBJ::COMMIT,
        PackObjType::Base(ObjType::Tree) => PackfileOBJ::TREE,
        PackObjType::Base(ObjType::Blob) => PackfileOBJ::BLOB,
        PackObjType::Base(ObjType::Tag) => PackfileOBJ::TAG,
        PackObjType::OFS => PackfileOBJ::OFS,
        PackObjType::REF => PackfileOBJ::REF,
    };
    let input: &[u8] = vstd::slice::slice_subrange(raw, payload, raw.len());
    match inflate(input) {
        None => Err(GitError::Format),
        Some((data, used)) => Ok((PackObj { kind, data }, payload + used - pos)),
    }
}

/// What a walk over a pack found: the kind of each entry, in the order of
/// the stream, and what follows the last entry, in hexadecimal digits.
#[derive(Debug)]
pub struct PackSummary {
    pub kinds: Vec<PackfileOBJ>,
    pub checksum: Vec<u8>,
}

/// The kinds of the `n` entries that follow one another from `pos` on, as
/// they are stored, and the position after the last.
///
/// Fails as the first entry that fails (see `stored_entry`), and with
/// `Format` at the first commit or blob whose payload is not UTF-8.
pub open spec fn stored_kinds(raw: Seq<u8>, pos: int, n: nat) -> Result<
    (Seq<PackfileOBJ>, int),
    GitError,
>
    decreases n,
{
    if n == 0 {
        Ok((Seq::empty(), pos))
    } else {
        match stored_entry(raw, pos) {
            Err(e) => Err(e),
            Ok((kind, data, total)) => if (kind == PackfileOBJ::COMMIT || kind
                == PackfileOBJ::BLOB) && !vstd::utf8::valid_utf8(data) {
                Err(GitError::Format)
            } else {
                match stored_kinds(raw, pos + total, (n - 1) as nat) {
                    Err(e) => Err(e),
                    Ok((rest, end)) => Ok((seq![kind] + rest, end)),
                }
            },
        }
    }
}

/// What a walk over the pack `data` finds: after the twelve bytes of the
/// header, whose last four count the entries, the kinds of the entries
/// (see `stored_kinds`), and then the hexadecimal text of what is left.
/// `Transport` where the header is cut short. The magic and the version
/// are not looked at.
pub open spec fn pack_summary(data: Seq<u8>) -> Result<(Seq<PackfileOBJ>, Seq<u8>), GitError> {
    match bytes_at(data, 8, 4) {
        None => Err(GitError::Transport),
        Some(count) => match stored_kinds(data, 12, be32_value(count)) {
            Err(e) => Err(e),
            Ok((kinds, end)) => Ok((kinds, hex_text(data.subrange(end, data.len() as int)))),
        },
    }
}

/// Walks over a pack without resolving its deltas (see `pack_summary`).
pub fn packfile_parse(data: &Vec<u8>) -> (r: Result<PackSummary, GitError>)
    ensures
        match pack_summary(data@) {
            Ok((kinds, checksum)) => r is Ok && r->Ok_0.kinds@ == kinds && r->Ok_0.checksum@
                == checksum,
            Err(e) => r is Err && r->Err_0 == e,
        },
{
    let mut stream = ByteStream { data: data.as_slice(), pos: 8 };
    let entries: u32 = match read_u32(&mut stream) {
        Err(e) => {
            return Err(e);
        },
        Ok(n) => n,
    };
    let mut kinds: Vec<PackfileOBJ> = Vec::new();
    let mut readed: usize = 12;
    let mut i: u32 = 0;
    assert(kinds@ + Seq::<PackfileOBJ>::empty() =~= kinds@);
    while i < entries
        invariant
            i <= entries,
            12 <= readed <= data@.len(),
            bytes_at(data@, 8, 4) is Some,
            be32_value(bytes_at(data@, 8, 4)->Some_0) == entries,
            stored_kinds(data@, 12, entries as nat) == match stored_kinds(
                data@,
                readed as int,
                (entries - i) as nat,
            ) {
                Err(e) => Err::<(Seq<PackfileOBJ>, int), GitError>(e),
                Ok((rest, end)) => Ok((kinds@ + rest, end)),
            },
        decreases entries - i,
    {
        let (pack, total) = match get_object(data.as_slice(), readed) {
            Err(e) => {
                return Err(e);
            },
            Ok(found) => found,
        };
        match pack.kind {
            PackfileOBJ::COMMIT | PackfileOBJ::BLOB => {
                if !is_utf8(pack.data.as_slice()) {
                    return Err(GitError::Format);
                }
            },
            _ => {},
        }
        let ghost before = kinds@;
        kinds.push(pack.kind);
        proof {
            if let Ok((rest, end)) = stored_kinds(
                data@,
                readed + total,
                (entries - i - 1) as nat,
            ) {
                assert(before + (seq![pack.kind] + rest) =~= kinds@ + rest);
            }
        }
        readed = readed + total;
        i += 1;
    }
    let checksum: Vec<u8> = hex_encode(
        vstd::slice::slice_subrange(data.as_slice(), readed, data.len()),
    );
    Ok(PackSummary { kinds, checksum })
}

} // verus!

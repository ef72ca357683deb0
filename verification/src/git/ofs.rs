use vstd::prelude::*;
use crate::error::GitError;
use crate::git::helpers::read_bytes;
use crate::git::packfile::{copy_fields, read_offset_and_size};
use crate::stream::ByteStream;

verus! {

/// One instruction of a delta, read and not carried out.
#[derive(Debug, PartialEq, Eq, Clone, Copy, Structural)]
pub enum Instruction {
    /// Copy `size` bytes of the base, from `offset` on.
    Copy { offset: u32, size: u32 },
    /// Insert the `count` bytes that follow the instruction.
    Insert { count: u8 },
}

/// The offset and the length of the copy instruction `instruction` whose
/// fields start at `pos`, with the position after them. A length that is
/// stored as zero, or not stored, stands for `0x10000`.
pub open spec fn offset_size(data: Seq<u8>, pos: int, instruction: u8) -> Option<(u32, u32, int)> {
    match copy_fields(data, pos, instruction) {
        None => None,
        Some((offset, size, next)) => Some(
            (
                offset as u32,
                if size == 0 {
                    0x10000u32
                } else {
                    size as u32
                },
                next,
            ),
        ),
    }
}

/// Reads the offset and the length of a copy instruction (see
/// `offset_size`).
///
/// Fails with `Transport`, leaving the stream where it was, when the data
/// ends before a stored byte.
pub fn get_offset_size(data: &mut ByteStream, instruction: u8) -> (r: Result<(u32, u32), GitError>)
    ensures
        final(data).data == old(data).data,
        match offset_size(old(data).data@, old(data).pos as int, instruction) {
            Some((offset, size, next)) => r == Ok::<(u32, u32), GitError>((offset, size))
                && final(data).pos == next,
            None => r == Err::<(u32, u32), GitError>(GitError::Transport) && final(data).pos
                == old(data).pos,
        },
{
    match read_offset_and_size(data, instruction) {
        Err(e) => Err(e),
        Ok((offset, stored)) => {
            let size: u32 = if stored == 0 {
                0x10000
            } else {
                stored as u32
            };
            Ok((offset as u32, size))
        },
    }
}

/// The number of bytes that the insert instruction `instruction` carries:
/// its low seven bits.
pub fn get_size(instruction: u8) -> (r: u8)
    ensures
        r == instruction % 128,
{
    assert(instruction & 0x7f == instruction % 128) by (bit_vector);
    instruction & 0x7f
}

/// The instruction that `data` begins with.
///
/// `Transport` where `data` is empty or ends inside a copy instruction;
/// `Format` where the first byte is zero, which is no instruction.
pub open spec fn instruction_of(data: Seq<u8>) -> Result<Instruction, GitError> {
    if data.len() == 0 {
        Err(GitError::Transport)
    } else if data[0] == 0 {
        Err(GitError::Format)
    } else if data[0] >= 128 {
        match offset_size(data, 1, data[0]) {
            None => Err(GitError::Transport),
            Some((offset, size, _)) => Ok(Instruction::Copy { offset, size }),
        }
    } else {
        Ok(Instruction::Insert { count: data[0] })
    }
}

/// Reads the instruction that `data` begins with (see `instruction_of`).
pub fn parse(data: &[u8]) -> (r: Result<Instruction, GitError>)
    ensures
        r == instruction_of(data@),
{
    let mut reader = ByteStream::new(data);
    let instruction: u8 = match read_bytes::<1>(&mut reader) {
        Ok(b) => b[0],
        Err(e) => {
            return Err(e);
        },
    };
    if instruction == 0 {
        return Err(GitError::Format);
    }
    assert((instruction & 0x80 != 0) == (instruction >= 128)) by (bit_vector);
    if instruction & 0x80 != 0 {
        match get_offset_size(&mut reader, instruction) {
            Err(e) => Err(e),
            Ok((offset, size)) => Ok(Instruction::Copy { offset, size }),
        }
    } else {
        Ok(Instruction::Insert { count: get_size(instruction) })
    }
}

} // verus!

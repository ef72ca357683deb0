use vstd::prelude::*;
use vstd::string::StringSliceAdditionalSpecFns;
use std::collections::HashMap;
use crate::bytes::{append_all, append_range, copy_range};
use crate::error::GitError;
use crate::git::helpers::{
    be32_value, bytes_at, lemma_offset_varint_bounds, lemma_size_varint_bounds, offset_varint,
    read_bytes, read_offset, read_size, read_u32, size_scaled, size_varint,
};
use crate::stream::ByteStream;
use crate::zlib::{inflate, inflate_at};

verus! {

/// The kind of a stored object.
#[derive(Debug, PartialEq, Eq, Clone, Copy, Structural)]
pub enum ObjType {
    Blob,
    Tree,
    Commit,
    Tag,
}

impl ObjType {
    /// The kind's name as it stands in an object's header.
    pub open spec fn spec_name(self) -> Seq<u8> {
        match self {
            ObjType::Blob => "blob".spec_bytes(),
            ObjType::Tree => "tree".spec_bytes(),
            ObjType::Commit => "commit".spec_bytes(),
            ObjType::Tag => "tag".spec_bytes(),
        }
    }

    /// The kind's name: `blob`, `tree`, `commit` or `tag`.
    pub fn name(&self) -> (r: Vec<u8>)
        ensures
            r@ == self.spec_name(),
    {
        let word: &str = match self {
            ObjType::Blob => "blob",
            ObjType::Tree => "tree",
            ObjType::Commit => "commit",
            ObjType::Tag => "tag",
        };
        let mut r: Vec<u8> = Vec::new();
        append_all(&mut r, word.as_bytes());
        r
    }
}

/// What the three type bits of a pack entry say.
#[derive(Debug, PartialEq, Eq, Clone, Copy, Structural)]
pub enum PackObjType {
    Base(ObjType),
    OFS,
    REF,
}

/// The bytes `PACK`.
pub open spec fn pack_magic() -> Seq<u8> {
    seq![80u8, 65, 67, 75]
}

/// The header of the pack that starts at `pos`: magic, version and number
/// of entries.
///
/// `Transport` where fewer than twelve bytes are left; `Format` where the
/// magic is not `PACK`, or the version or the number of entries is zero.
pub open spec fn pack_header(data: Seq<u8>, pos: int) -> Result<(Seq<u8>, u32, u32), GitError> {
    match bytes_at(data, pos, 12) {
        None => Err(GitError::Transport),
        Some(h) => {
            let magic = h.subrange(0, 4);
            let version = be32_value(h.subrange(4, 8));
            let entries = be32_value(h.subrange(8, 12));
            if magic == pack_magic() && version != 0 && entries != 0 {
                Ok((magic, version as u32, entries as u32))
            } else {
                Err(GitError::Format)
            }
        },
    }
}

/// Reads the twelve-byte pack header (see `pack_header`).
///
/// On success the stream stands after the header; on failure it stays
/// where it was.
pub fn headers(stream: &mut ByteStream) -> (r: Result<([u8; 4], u32, u32), GitError>)
    ensures
        final(stream).data == old(stream).data,
        match pack_header(old(stream).data@, old(stream).pos as int) {
            Ok((magic, version, entries)) => r is Ok && r->Ok_0.0@ == magic && r->Ok_0.1 == version
                && r->Ok_0.2 == entries && final(stream).pos == old(stream).pos + 12,
            Err(e) => r == Err::<([u8; 4], u32, u32), GitError>(e) && final(stream).pos == old(
                stream,
            ).pos,
        },
{
    let start: usize = stream.pos;
    let ghost data = stream.data@;
    if stream.remaining() < 12 {
        return Err(GitError::Transport);
    }
    let header: [u8; 4] = match read_bytes::<4>(stream) {
        Ok(h) => h,
        Err(e) => {
            return Err(e);
        },
    };
    let version: u32 = match read_u32(stream) {
        Ok(v) => v,
        Err(e) => {
            stream.pos = start;
            return Err(e);
        },
    };
    let entries: u32 = match read_u32(stream) {
        Ok(v) => v,
        Err(e) => {
            stream.pos = start;
            return Err(e);
        },
    };
    proof {
        let h = data.subrange(start as int, start + 12);
        assert(h.subrange(0, 4) =~= data.subrange(start as int, start + 4));
        assert(h.subrange(4, 8) =~= data.subrange(start + 4, start + 8));
        assert(h.subrange(8, 12) =~= data.subrange(start + 8, start + 12));
    }
    let magic_ok: bool = header[0] == 80 && header[1] == 65 && header[2] == 67 && header[3] == 75;
    proof {
        if magic_ok {
            assert(header@ =~= pack_magic());
        } else {
            assert(header@ != pack_magic());
        }
    }
    if !magic_ok || version == 0 || entries == 0 {
        stream.pos = start;
        return Err(GitError::Format);
    }
    Ok((header, version, entries))
}

/// Splits the number that heads a pack entry: bits 4 to 6 of its first
/// byte are the type, the other bits the size (the low four bits of the
/// first byte, then the later groups).
pub fn extract_size_and_type(size_and_type: usize) -> (r: (usize, u8))
    ensures
        r.0 == (size_and_type / 128) * 16 + size_and_type % 16,
        r.1 == (size_and_type / 16) % 8,
{
    let t: usize = (size_and_type / 16) % 8;
    let size: usize = (size_and_type / 128) * 16 + size_and_type % 16;
    (size, t as u8)
}

/// `256` to the power `i`.
pub open spec fn pow256(i: nat) -> nat
    decreases i,
{
    if i == 0 {
        1
    } else {
        256 * pow256((i - 1) as nat)
    }
}

/// A number of up to `n` bytes, least significant first, of which only
/// those are stored whose bit is set in `mask` (bit 0 for the first); a
/// byte that is not stored counts as zero. With the position after it;
/// `None` where the data ends before a stored byte.
pub open spec fn masked_le(data: Seq<u8>, pos: int, mask: nat, n: nat) -> Option<(nat, int)>
    decreases n,
{
    if n == 0 {
        Some((0, pos))
    } else if mask % 2 == 1 {
        if 0 <= pos < data.len() {
            match masked_le(data, pos + 1, mask / 2, (n - 1) as nat) {
                Some((v, next)) => Some((data[pos] as nat + 256 * v, next)),
                None => None,
            }
        } else {
            None
        }
    } else {
        match masked_le(data, pos, mask / 2, (n - 1) as nat) {
            Some((v, next)) => Some((256 * v, next)),
            None => None,
        }
    }
}

/// A masked number is below `256^n` and ends at or after its start; where
/// it holds a stored byte, it ends inside the data.
pub proof fn lemma_masked_le_bounds(data: Seq<u8>, pos: int, mask: nat, n: nat)
    ensures
        masked_le(data, pos, mask, n) matches Some((v, next)) ==> v < pow256(n) && pos <= next && (
        next == pos || next <= data.len()),
    decreases n,
{
    if n > 0 {
        if mask % 2 == 1 {
            if 0 <= pos < data.len() {
                lemma_masked_le_bounds(data, pos + 1, mask / 2, (n - 1) as nat);
            }
        } else {
            lemma_masked_le_bounds(data, pos, mask / 2, (n - 1) as nat);
        }
    }
}

/// The offset and the length that follow a copy instruction `flag` at
/// `pos`, as they are stored: up to four bytes of offset chosen by bits 0
/// to 3 of `flag`, then up to three bytes of length chosen by bits 4 to 6.
pub open spec fn copy_fields(data: Seq<u8>, pos: int, flag: u8) -> Option<(nat, nat, int)> {
    match masked_le(data, pos, (flag % 16) as nat, 4) {
        None => None,
        Some((offset, mid)) => match masked_le(data, mid, ((flag / 16) % 8) as nat, 3) {
            None => None,
            Some((size, next)) => Some((offset, size, next)),
        },
    }
}

proof fn lemma_scaled_byte(base: nat, scale: nat, low: nat, rest: nat)
    ensures
        base + scale * (low + 256 * rest) == (base + scale * low) + (scale * 256) * rest,
        scale * (256 * rest) == (scale * 256) * rest,
{
    assert(scale * (low + 256 * rest) == scale * low + (scale * 256) * rest) by (nonlinear_arith);
    assert(scale * (256 * rest) == (scale * 256) * rest) by (nonlinear_arith);
}

fn read_masked(data: &[u8], pos: usize, mask: u8, n: u8) -> (r: Option<(u64, usize)>)
    requires
        n <= 4,
    ensures
        match masked_le(data@, pos as int, mask as nat, n as nat) {
            Some((v, next)) => r is Some && r->Some_0.0 == v && r->Some_0.1 == next && v < pow256(
                n as nat,
            ) && pos <= next && (next == pos || next <= data@.len()),
            None => r is None,
        },
{
    let mut value: u64 = 0;
    let mut mult: u64 = 1;
    let mut m: u8 = mask;
    let mut cur: usize = pos;
    let mut i: u8 = 0;
    proof {
        reveal_with_fuel(pow256, 6);
        lemma_masked_le_bounds(data@, pos as int, mask as nat, n as nat);
    }
    while i < n
        invariant
            i <= n <= 4,
            pos <= cur,
            cur == pos || cur <= data@.len(),
            mult == pow256(i as nat),
            mult <= 0x1_0000_0000,
            value < mult,
            masked_le(data@, pos as int, mask as nat, n as nat) == size_scaled(
                value as nat,
                mult as nat,
                masked_le(data@, cur as int, m as nat, (n - i) as nat),
            ),
        decreases n - i,
    {
        proof {
            reveal_with_fuel(pow256, 6);
            let k = (n - i - 1) as nat;
            if m % 2 == 1 {
                if cur < data@.len() {
                    if let Some((v, next)) = masked_le(data@, cur + 1, (m / 2) as nat, k) {
                        lemma_scaled_byte(value as nat, mult as nat, data@[cur as int] as nat, v);
                    }
                }
            } else {
                if let Some((v, next)) = masked_le(data@, cur as int, (m / 2) as nat, k) {
                    lemma_scaled_byte(value as nat, mult as nat, 0, v);
                }
            }
        }
        if m % 2 == 1 {
            if cur >= data.len() {
                return None;
            }
            let b: u8 = data[cur];
            assert(mult * b <= mult * 255) by (nonlinear_arith)
                requires
                    b <= 255,
                    mult >= 0,
            ;
            value = value + mult * (b as u64);
            cur = cur + 1;
        }
        m = m / 2;
        i = i + 1;
        mult = mult * 256;
    }
    Some((value, cur))
}

/// Reads the offset and the length of a copy instruction `flag` as they
/// are stored (see `copy_fields`).
///
/// Fails with `Transport`, leaving the stream where it was, when the data
/// ends before a stored byte.
pub fn read_offset_and_size(stream: &mut ByteStream, flag: u8) -> (r: Result<
    (usize, usize),
    GitError,
>)
    ensures
        final(stream).data == old(stream).data,
        match copy_fields(old(stream).data@, old(stream).pos as int, flag) {
            Some((offset, size, next)) => r == Ok::<(usize, usize), GitError>(
                (offset as usize, size as usize),
            ) && offset < 0x1_0000_0000 && size < 0x100_0000 && final(stream).pos == next,
            None => r == Err::<(usize, usize), GitError>(GitError::Transport) && final(stream).pos
                == old(stream).pos,
        },
{
    proof {
        reveal_with_fuel(pow256, 6);
    }
    let (offset, mid) = match read_masked(stream.data, stream.pos, flag % 16, 4) {
        Some(p) => p,
        None => {
            return Err(GitError::Transport);
        },
    };
    let (size, next) = match read_masked(stream.data, mid, (flag / 16) % 8, 3) {
        Some(p) => p,
        None => {
            return Err(GitError::Transport);
        },
    };
    stream.pos = next;
    Ok((offset as usize, size as usize))
}

/// The length that a copy instruction asks for when it stores no length
/// byte at all.
pub const DEFAULT_COPY_LEN: usize = 0x10000;

/// The copy instruction `op` at `pos - 1`: the offset into the base, the
/// number of bytes to copy, and the position after the instruction. The
/// length is `0x10000` where no length byte is stored.
pub open spec fn copy_op(delta: Seq<u8>, pos: int, op: u8) -> Option<(nat, nat, int)> {
    match copy_fields(delta, pos, op) {
        None => None,
        Some((offset, size, next)) => Some(
            (
                offset,
                if (op / 16) % 8 == 0 {
                    0x10000
                } else {
                    size
                },
                next,
            ),
        ),
    }
}

/// The instruction at `pos`: the bytes that it adds to the result, and the
/// position after it.
///
/// An instruction byte of 128 or more copies a range of `base` (see
/// `copy_op`); a byte from 1 to 127 inserts that many of the bytes that
/// follow it. `None` where there is no byte at `pos`, where it is zero,
/// where the data ends inside the instruction, or where a copy leaves
/// `base`.
pub open spec fn delta_step(delta: Seq<u8>, pos: int, base: Seq<u8>) -> Option<(Seq<u8>, int)> {
    if pos < 0 || pos >= delta.len() {
        None
    } else {
        let op = delta[pos];
        if op >= 128 {
            match copy_op(delta, pos + 1, op) {
                None => None,
                Some((offset, size, next)) => if offset + size <= base.len() {
                    Some((base.subrange(offset as int, (offset + size) as int), next))
                } else {
                    None
                },
            }
        } else if op == 0 {
            None
        } else if pos + 1 + op <= delta.len() {
            Some((delta.subrange(pos + 1, pos + 1 + op), pos + 1 + op))
        } else {
            None
        }
    }
}

/// An instruction ends after its first byte and inside the data.
pub proof fn lemma_delta_step_bounds(delta: Seq<u8>, pos: int, base: Seq<u8>)
    ensures
        delta_step(delta, pos, base) matches Some((_, next)) ==> pos < next <= delta.len(),
{
    if 0 <= pos < delta.len() {
        let op = delta[pos];
        lemma_masked_le_bounds(delta, pos + 1, (op % 16) as nat, 4);
        if let Some((offset, mid)) = masked_le(delta, pos + 1, (op % 16) as nat, 4) {
            lemma_masked_le_bounds(delta, mid, ((op / 16) % 8) as nat, 3);
        }
    }
}

/// What the instructions from `pos` on add to `out`, until exactly `target`
/// bytes stand. `None` where an instruction fails (see `delta_step`), the
/// data ends before `target` is reached, or an instruction carries the
/// result past `target`.
pub open spec fn delta_run(
    delta: Seq<u8>,
    pos: int,
    base: Seq<u8>,
    out: Seq<u8>,
    target: nat,
) -> Option<Seq<u8>>
    decreases delta.len() - pos,
    via delta_run_decreases
{
    if out.len() == target {
        Some(out)
    } else if out.len() > target {
        None
    } else {
        match delta_step(delta, pos, base) {
            None => None,
            Some((piece, next)) => delta_run(delta, next, base, out + piece, target),
        }
    }
}

#[via_fn]
proof fn delta_run_decreases(delta: Seq<u8>, pos: int, base: Seq<u8>, out: Seq<u8>, target: nat) {
    lemma_delta_step_bounds(delta, pos, base);
}

/// The object that `delta` makes of `base`.
///
/// A delta is two size numbers, that of the base (read, and not held
/// against `base`) and that of the result, and then instructions (see
/// `delta_run`). `None` where a size number is cut short or does not fit
/// in `usize`, or where the instructions do not give exactly the declared
/// number of bytes.
pub open spec fn apply_delta(delta: Seq<u8>, base: Seq<u8>) -> Option<Seq<u8>> {
    match size_varint(delta, 0) {
        None => None,
        Some((source, mid)) => match size_varint(delta, mid) {
            None => None,
            Some((target, start)) => if source <= usize::MAX && target <= usize::MAX {
                delta_run(delta, start, base, Seq::empty(), target)
            } else {
                None
            },
        },
    }
}

/// The size of the result that `delta` declares, where its two size
/// numbers are whole.
pub open spec fn declared_target(delta: Seq<u8>) -> Option<nat> {
    match size_varint(delta, 0) {
        None => None,
        Some((_, mid)) => match size_varint(delta, mid) {
            None => None,
            Some((target, _)) => Some(target),
        },
    }
}

/// What a run of instructions returns has exactly `target` bytes and
/// begins with what stood before.
pub proof fn lemma_delta_run_length(
    delta: Seq<u8>,
    pos: int,
    base: Seq<u8>,
    out: Seq<u8>,
    target: nat,
)
    ensures
        delta_run(delta, pos, base, out, target) matches Some(r) ==> r.len() == target && out.len()
            <= r.len() && r.subrange(0, out.len() as int) == out,
    decreases delta.len() - pos,
{
    if out.len() == target {
        assert(out.subrange(0, out.len() as int) =~= out);
    } else if out.len() < target {
        lemma_delta_step_bounds(delta, pos, base);
        if let Some((piece, next)) = delta_step(delta, pos, base) {
            let grown = out + piece;
            lemma_delta_run_length(delta, next, base, grown, target);
            if let Some(r) = delta_run(delta, next, base, grown, target) {
                assert(r.subrange(0, out.len() as int) =~= grown.subrange(0, out.len() as int));
                assert(grown.subrange(0, out.len() as int) =~= out);
            }
        }
    }
}

/// A delta never gives a result shorter or longer than it declares: what
/// `apply_delta` returns has exactly the declared number of bytes.
pub proof fn lemma_apply_delta_length(delta: Seq<u8>, base: Seq<u8>)
    ensures
        apply_delta(delta, base) matches Some(r) ==> declared_target(delta) == Some(r.len()),
{
    if let Some((source, mid)) = size_varint(delta, 0) {
        if let Some((target, start)) = size_varint(delta, mid) {
            lemma_delta_run_length(delta, start, base, Seq::empty(), target);
        }
    }
}

/// Carries out the instruction at the stream's position: appends its
/// bytes to `content` and moves the stream past it.
///
/// Fails with `Format`, having changed nothing, where there is no
/// instruction (see `delta_step`) or where it would add more than `room`
/// bytes.
fn run_instruction(reader: &mut ByteStream, base: &[u8], content: &mut Vec<u8>, room: usize) -> (r:
    Result<(), GitError>)
    ensures
        final(reader).data == old(reader).data,
        match delta_step(old(reader).data@, old(reader).pos as int, base@) {
            Some((piece, next)) => if piece.len() <= room {
                r is Ok && final(content)@ == old(content)@ + piece && final(reader).pos == next
            } else {
                r == Err::<(), GitError>(GitError::Format) && final(content)@ == old(content)@
                    && final(reader).pos == old(reader).pos
            },
            None => r == Err::<(), GitError>(GitError::Format) && final(content)@ == old(content)@
                && final(reader).pos == old(reader).pos,
        },
{
    let start: usize = reader.pos;
    let ghost delta = reader.data@;
    proof {
        lemma_delta_step_bounds(delta, start as int, base@);
    }
    let instruction: u8 = match read_bytes::<1>(reader) {
        Ok(b) => b[0],
        Err(_) => {
            return Err(GitError::Format);
        },
    };
    assert(instruction == delta[start as int]);
    assert((instruction & 0x80 != 0) == (instruction >= 128)) by (bit_vector);
    if instruction & 0x80 != 0 {
        let (offset, stored) = match read_offset_and_size(reader, instruction) {
            Ok(p) => p,
            Err(_) => {
                reader.pos = start;
                return Err(GitError::Format);
            },
        };
        let size: usize = if (instruction / 16) % 8 == 0 {
            DEFAULT_COPY_LEN
        } else {
            stored
        };
        if offset > base.len() || size > base.len() - offset || size > room {
            reader.pos = start;
            return Err(GitError::Format);
        }
        append_range(content, base, offset, offset + size);
        Ok(())
    } else {
        let size: usize = instruction as usize;
        let len: usize = reader.data.len();
        let from: usize = reader.pos;
        if size == 0 || size > len - from || size > room {
            reader.pos = start;
            return Err(GitError::Format);
        }
        append_range(content, reader.data, from, from + size);
        reader.pos = from + size;
        Ok(())
    }
}

/// Rebuilds an object from `delta` and the object `base` it was made
/// against (see `apply_delta`).
///
/// Every failure is `Format`.
pub fn process_delta(delta: &Vec<u8>, base: &Vec<u8>) -> (r: Result<Vec<u8>, GitError>)
    ensures
        match apply_delta(delta@, base@) {
            Some(out) => r is Ok && r->Ok_0@ == out,
            None => r == Err::<Vec<u8>, GitError>(GitError::Format),
        },
{
    let mut reader = ByteStream::new(delta.as_slice());
    match read_size(&mut reader) {
        Ok(_) => {},
        Err(_) => {
            return Err(GitError::Format);
        },
    }
    let content_size: usize = match read_size(&mut reader) {
        Ok(n) => n,
        Err(_) => {
            return Err(GitError::Format);
        },
    };
    let mut content: Vec<u8> = Vec::new();
    loop
        invariant
            reader.data@ == delta@,
            content@.len() <= content_size,
            apply_delta(delta@, base@) == delta_run(
                delta@,
                reader.pos as int,
                base@,
                content@,
                content_size as nat,
            ),
        decreases delta@.len() - reader.pos,
    {
        if content.len() == content_size {
            return Ok(content);
        }
        proof {
            lemma_delta_step_bounds(delta@, reader.pos as int, base@);
        }
        let room: usize = content_size - content.len();
        let ghost step = delta_step(delta@, reader.pos as int, base@);
        let ghost before = content@;
        match run_instruction(&mut reader, base.as_slice(), &mut content, room) {
            Ok(_) => {},
            Err(_) => {
                proof {
                    if let Some((piece, next)) = step {
                        assert(delta_run(delta@, next, base@, before + piece, content_size as nat)
                            is None);
                    }
                }
                return Err(GitError::Format);
            },
        }
    }
}

/// What the three type bits `tag` of a pack entry stand for: 1 a commit, 2
/// a tree, 3 a blob, 4 a tag, 6 a delta against an earlier entry of the
/// pack, 7 a delta against an object named by its hash. `None` for 0 and 5.
pub open spec fn entry_type(tag: int) -> Option<PackObjType> {
    if tag == 1 {
        Some(PackObjType::Base(ObjType::Commit))
    } else if tag == 2 {
        Some(PackObjType::Base(ObjType::Tree))
    } else if tag == 3 {
        Some(PackObjType::Base(ObjType::Blob))
    } else if tag == 4 {
        Some(PackObjType::Base(ObjType::Tag))
    } else if tag == 6 {
        Some(PackObjType::OFS)
    } else if tag == 7 {
        Some(PackObjType::REF)
    } else {
        None
    }
}

/// The head of the pack entry at `offset`: its kind, where its base lies
/// (for a delta; 0 otherwise), and where its compressed payload starts.
///
/// The entry opens with a size number whose bits 4 to 6 are the type. A
/// delta against an earlier entry goes on with an offset number `n`; its
/// base is the entry at `offset - n`. Errors: `Transport` where the data
/// ends inside a number; `Format` where a number does not fit in `usize`,
/// the type is none, or `n` is zero or more than `offset`; `NotFound` for
/// a delta against a named object, which is not supported.
pub open spec fn entry_head(data: Seq<u8>, offset: int) -> Result<(PackObjType, int, int), GitError> {
    match size_varint(data, offset) {
        None => Err(GitError::Transport),
        Some((x, next)) => if x > usize::MAX {
            Err(GitError::Format)
        } else {
            match entry_type(((x / 16) % 8) as int) {
                None => Err(GitError::Format),
                Some(PackObjType::REF) => Err(GitError::NotFound),
                Some(PackObjType::Base(kind)) => Ok((PackObjType::Base(kind), 0, next)),
                Some(PackObjType::OFS) => match offset_varint(data, next) {
                    None => Err(GitError::Transport),
                    Some((n, payload)) => if n > usize::MAX || n == 0 || n > offset {
                        Err(GitError::Format)
                    } else {
                        Ok((PackObjType::OFS, offset - n, payload))
                    },
                },
            }
        },
    }
}

/// The head of an entry lies inside the data, and a delta's base before
/// the delta.
pub proof fn lemma_entry_head_bounds(data: Seq<u8>, offset: int)
    ensures
        entry_head(data, offset) matches Ok((kind, base, payload)) ==> 0 <= offset < payload
            <= data.len() && kind !is REF && (kind is OFS ==> 0 <= base < offset) && (kind is Base
            ==> base == 0),
{
    lemma_size_varint_bounds(data, offset);
    if let Some((x, next)) = size_varint(data, offset) {
        lemma_offset_varint_bounds(data, next, 0);
    }
}

/// Reads the head of the entry at `offset` (see `entry_head`).
pub fn read_entry_head(data: &[u8], offset: usize) -> (r: Result<
    (PackObjType, usize, usize),
    GitError,
>)
    ensures
        match entry_head(data@, offset as int) {
            Ok((kind, base, payload)) => r is Ok && r->Ok_0.0 == kind && r->Ok_0.1 == base
                && r->Ok_0.2 == payload,
            Err(e) => r == Err::<(PackObjType, usize, usize), GitError>(e),
        },
{
    let mut stream = ByteStream { data, pos: offset };
    proof {
        lemma_entry_head_bounds(data@, offset as int);
    }
    let size_and_type: usize = match read_size(&mut stream) {
        Ok(x) => x,
        Err(e) => {
            return Err(e);
        },
    };
    let (_, t) = extract_size_and_type(size_and_type);
    if t == 1 {
        Ok((PackObjType::Base(ObjType::Commit), 0, stream.pos))
    } else if t == 2 {
        Ok((PackObjType::Base(ObjType::Tree), 0, stream.pos))
    } else if t == 3 {
        Ok((PackObjType::Base(ObjType::Blob), 0, stream.pos))
    } else if t == 4 {
        Ok((PackObjType::Base(ObjType::Tag), 0, stream.pos))
    } else if t == 6 {
        let negative: usize = match read_offset(&mut stream) {
            Ok(n) => n,
            Err(e) => {
                return Err(e);
            },
        };
        if negative == 0 || negative > offset {
            return Err(GitError::Format);
        }
        Ok((PackObjType::OFS, offset - negative, stream.pos))
    } else if t == 7 {
        Err(GitError::NotFound)
    } else {
        Err(GitError::Format)
    }
}

/// Inflates the zlib stream at the stream's position, appends what it
/// decodes to onto `buffer`, moves the stream past it and returns the
/// number of compressed bytes.
///
/// Fails with `Format`, having changed nothing, where no complete zlib
/// stream starts there.
pub fn decompress(stream: &mut ByteStream, buffer: &mut Vec<u8>) -> (r: Result<usize, GitError>)
    ensures
        final(stream).data == old(stream).data,
        match inflate_at(old(stream).data@, old(stream).pos as int) {
            Some((out, next)) => r == Ok::<usize, GitError>((next - old(stream).pos) as usize)
                && final(buffer)@ == old(buffer)@ + out && final(stream).pos == next
                && old(stream).pos <= next <= old(stream).data@.len(),
            None => r == Err::<usize, GitError>(GitError::Format) && final(buffer)@ == old(
                buffer,
            )@ && final(stream).pos == old(stream).pos,
        },
{
    let len: usize = stream.data.len();
    if stream.pos > len {
        return Err(GitError::Format);
    }
    let input: &[u8] = vstd::slice::slice_subrange(stream.data, stream.pos, len);
    match inflate(input) {
        Some((out, used)) => {
            append_all(buffer, out.as_slice());
            stream.pos = stream.pos + used;
            Ok(used)
        },
        None => Err(GitError::Format),
    }
}

/// A cache of resolved objects as a map from an entry's offset to its
/// content and kind.
pub open spec fn cache_view(cache: Map<usize, (Vec<u8>, ObjType)>) -> Map<int, (Seq<u8>, ObjType)> {
    Map::new(
        |k: int| 0 <= k <= usize::MAX && cache.contains_key(k as usize),
        |k: int| (cache[k as usize].0@, cache[k as usize].1),
    )
}

/// The object that the delta whose payload starts at `payload` makes of
/// `base`, which is of kind `kind`: the payload is inflated and applied to
/// `base` (see `apply_delta`), and the kind is that of the base. `Format`
/// where either fails.
pub open spec fn finish_delta(data: Seq<u8>, payload: int, base: Seq<u8>, kind: ObjType) -> Result<
    (Seq<u8>, ObjType),
    GitError,
> {
    match inflate_at(data, payload) {
        None => Err(GitError::Format),
        Some((delta, _)) => match apply_delta(delta, base) {
            None => Err(GitError::Format),
            Some(content) => Ok((content, kind)),
        },
    }
}

/// The object that the pack entry at `offset` stands for: its content and
/// its kind.
///
/// An entry of a base kind holds its content, compressed. A delta is
/// applied to the object of its base entry, which lies earlier in the pack
/// and is taken from `cache` where `cache` holds it, and is resolved in the
/// same way where not; the delta's kind is that of its base. The base is
/// resolved before the delta's own payload is inflated, so that an error
/// of the base comes first. Errors are those of `entry_head`, and `Format`
/// where a payload does not inflate or a delta does not apply.
pub open spec fn resolve_object(
    data: Seq<u8>,
    offset: int,
    cache: Map<int, (Seq<u8>, ObjType)>,
) -> Result<(Seq<u8>, ObjType), GitError>
    decreases offset,
{
    match entry_head(data, offset) {
        Err(e) => Err(e),
        Ok((PackObjType::Base(kind), _, payload)) => match inflate_at(data, payload) {
            None => Err(GitError::Format),
            Some((content, _)) => Ok((content, kind)),
        },
        Ok((_, base_offset, payload)) => if 0 <= base_offset < offset {
            if cache.contains_key(base_offset) {
                finish_delta(data, payload, cache[base_offset].0, cache[base_offset].1)
            } else {
                match resolve_object(data, base_offset, cache) {
                    Err(e) => Err(e),
                    Ok((base, kind)) => finish_delta(data, payload, base, kind),
                }
            }
        } else {
            Err(GitError::Format)
        },
    }
}

/// Where the pack entry at `offset` ends: the position after its
/// compressed payload.
#[verifier::opaque]
pub open spec fn entry_end(data: Seq<u8>, offset: int) -> Option<int> {
    match entry_head(data, offset) {
        Err(_) => None,
        Ok((_, _, payload)) => match inflate_at(data, payload) {
            None => None,
            Some((_, next)) => Some(next),
        },
    }
}

/// An entry ends after it starts.
pub proof fn lemma_entry_end_after(data: Seq<u8>, offset: int)
    ensures
        entry_end(data, offset) matches Some(end) ==> offset < end,
{
    reveal(entry_end);
    lemma_entry_head_bounds(data, offset);
}

/// An entry that resolves has an end.
pub proof fn lemma_resolved_entry_ends(data: Seq<u8>, offset: int)
    requires
        object_at(data, offset) is Ok,
    ensures
        entry_end(data, offset) is Some,
{
    reveal(object_at);
    reveal(entry_end);
}

/// One layer of delta laid on a result: an error stays, an object becomes
/// what the delta at `payload` makes of it.
pub open spec fn lift_delta(data: Seq<u8>, payload: int, r: Result<(Seq<u8>, ObjType), GitError>)
    -> Result<(Seq<u8>, ObjType), GitError> {
    match r {
        Err(e) => Err(e),
        Ok((base, kind)) => finish_delta(data, payload, base, kind),
    }
}

/// The layers of delta whose payloads start at `pending`, laid on `r` from
/// the last to the first.
pub open spec fn unwind(
    data: Seq<u8>,
    pending: Seq<usize>,
    r: Result<(Seq<u8>, ObjType), GitError>,
) -> Result<(Seq<u8>, ObjType), GitError>
    decreases pending.len(),
{
    if pending.len() == 0 {
        r
    } else {
        unwind(data, pending.drop_last(), lift_delta(data, pending.last() as int, r))
    }
}

proof fn lemma_unwind_error(data: Seq<u8>, pending: Seq<usize>, e: GitError)
    ensures
        unwind(data, pending, Err(e)) == Err::<(Seq<u8>, ObjType), GitError>(e),
    decreases pending.len(),
{
    if pending.len() > 0 {
        lemma_unwind_error(data, pending.drop_last(), e);
    }
}

/// Resolves the pack entry at `offset` to its object (see
/// `resolve_object`), following deltas back through the pack without
/// recursion, and leaves the stream after the entry (see `entry_end`).
///
/// On an error the stream stays where it was.
pub fn read_object(
    stream: &mut ByteStream,
    offset: usize,
    cache: &HashMap<usize, (Vec<u8>, ObjType)>,
) -> (r: Result<(Vec<u8>, ObjType), GitError>)
    ensures
        final(stream).data == old(stream).data,
        match resolve_object(old(stream).data@, offset as int, cache_view(cache@)) {
            Ok((content, kind)) => r is Ok && r->Ok_0.0@ == content && r->Ok_0.1 == kind
                && entry_end(old(stream).data@, offset as int) == Some(final(stream).pos as int)
                && offset < final(stream).pos <= old(stream).data@.len(),
            Err(e) => r == Err::<(Vec<u8>, ObjType), GitError>(e) && final(stream).pos == old(
                stream,
            ).pos,
        },
{
    broadcast use vstd::std_specs::hash::group_hash_axioms;

    reveal(entry_end);
    let data: &[u8] = stream.data;
    let ghost bytes = data@;
    let ghost held_objects = cache_view(cache@);
    let mut pending: Vec<usize> = Vec::new();
    let mut cur: usize = offset;
    let mut content: Vec<u8> = Vec::new();
    let mut kind: ObjType = ObjType::Blob;
    let mut end: usize = 0;
    loop
        invariant_except_break
            content@.len() == 0,
            resolve_object(bytes, offset as int, held_objects) == unwind(
                bytes,
                pending@,
                resolve_object(bytes, cur as int, held_objects),
            ),
        invariant
            stream.data == old(stream).data,
            stream.pos == old(stream).pos,
            data == stream.data,
            bytes == data@,
            held_objects == cache_view(cache@),
            cur <= offset,
            pending@.len() == 0 ==> cur == offset,
            pending@.len() > 0 ==> entry_head(bytes, offset as int) is Ok && entry_head(
                bytes,
                offset as int,
            )->Ok_0.2 == pending@[0],
        ensures
            resolve_object(bytes, offset as int, held_objects) == unwind(
                bytes,
                pending@,
                Ok((content@, kind)),
            ),
            pending@.len() == 0 ==> entry_end(bytes, offset as int) == Some(end as int) && offset
                < end <= bytes.len(),
        decreases cur,
    {
        proof {
            reveal(entry_end);
            lemma_entry_head_bounds(bytes, cur as int);
        }
        match read_entry_head(data, cur) {
            Err(e) => {
                proof {
                    lemma_unwind_error(bytes, pending@, e);
                }
                return Err(e);
            },
            Ok((PackObjType::Base(base_kind), _, payload)) => {
                let mut at = ByteStream { data, pos: payload };
                match decompress(&mut at, &mut content) {
                    Err(_) => {
                        proof {
                            lemma_unwind_error(bytes, pending@, GitError::Format);
                        }
                        return Err(GitError::Format);
                    },
                    Ok(_) => {
                        kind = base_kind;
                        end = at.pos;
                        assert(content@ =~= inflate_at(bytes, payload as int)->Some_0.0);
                        break ;
                    },
                }
            },
            Ok((_, base_offset, payload)) => {
                let ghost before = pending@;
                pending.push(payload);
                assert(pending@.drop_last() =~= before);
                match cache.get(&base_offset) {
                    Some(held) => {
                        content = copy_range(held.0.as_slice(), 0, held.0.len());
                        kind = held.1;
                        assert(content@ =~= held.0@);
                        break ;
                    },
                    None => {
                        cur = base_offset;
                    },
                }
            },
        }
    }
    while pending.len() > 0
        invariant
            stream.data == old(stream).data,
            stream.pos == old(stream).pos,
            data == stream.data,
            bytes == data@,
            held_objects == cache_view(cache@),
            resolve_object(bytes, offset as int, held_objects) == unwind(
                bytes,
                pending@,
                Ok((content@, kind)),
            ),
            pending@.len() == 0 ==> entry_end(bytes, offset as int) == Some(end as int) && offset
                < end <= bytes.len(),
            pending@.len() > 0 ==> entry_head(bytes, offset as int) is Ok && entry_head(
                bytes,
                offset as int,
            )->Ok_0.2 == pending@[0],
        decreases pending@.len(),
    {
        let ghost layers = pending@;
        proof {
            reveal(entry_end);
            lemma_entry_head_bounds(bytes, offset as int);
        }
        let payload: usize = pending.pop().unwrap();
        assert(pending@ =~= layers.drop_last());
        let mut at = ByteStream { data, pos: payload };
        let mut delta: Vec<u8> = Vec::new();
        match decompress(&mut at, &mut delta) {
            Err(_) => {
                proof {
                    lemma_unwind_error(bytes, pending@, GitError::Format);
                }
                return Err(GitError::Format);
            },
            Ok(_) => {},
        }
        assert(delta@ =~= inflate_at(bytes, payload as int)->Some_0.0);
        match process_delta(&delta, &content) {
            Err(_) => {
                proof {
                    lemma_unwind_error(bytes, pending@, GitError::Format);
                }
                return Err(GitError::Format);
            },
            Ok(made) => {
                content = made;
                end = at.pos;
            },
        }
    }
    stream.pos = end;
    Ok((content, kind))
}

/// The object that the pack entry at `offset` stands for, resolved from
/// the pack alone.
#[verifier::opaque]
pub open spec fn object_at(data: Seq<u8>, offset: int) -> Result<(Seq<u8>, ObjType), GitError> {
    resolve_object(data, offset, Map::empty())
}

/// Whether everything that `cache` holds is what the pack alone gives for
/// that offset.
#[verifier::opaque]
pub open spec fn cache_agrees(data: Seq<u8>, cache: Map<int, (Seq<u8>, ObjType)>) -> bool {
    forall|k: int| #[trigger]
        cache.contains_key(k) ==> object_at(data, k) == Ok::<(Seq<u8>, ObjType), GitError>(cache[k])
}

/// A cache that agrees with the pack changes no result: each entry
/// resolves to the same object, or fails with the same error, with the
/// cache or without it.
pub proof fn lemma_cache_is_transparent(
    data: Seq<u8>,
    offset: int,
    cache: Map<int, (Seq<u8>, ObjType)>,
)
    requires
        cache_agrees(data, cache),
    ensures
        resolve_object(data, offset, cache) == object_at(data, offset),
    decreases offset,
{
    reveal(cache_agrees);
    reveal(object_at);
    match entry_head(data, offset) {
        Ok((PackObjType::Base(kind), _, payload)) => {},
        Ok((_, base_offset, payload)) => {
            if 0 <= base_offset < offset {
                lemma_cache_is_transparent(data, base_offset, cache);
                if cache.contains_key(base_offset) {
                    assert(object_at(data, base_offset) == Ok::<(Seq<u8>, ObjType), GitError>(
                        cache[base_offset],
                    ));
                }
            }
        },
        Err(e) => {},
    }
}

} // verus!

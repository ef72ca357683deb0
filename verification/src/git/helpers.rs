use vstd::prelude::*;
use crate::error::GitError;
use crate::stream::ByteStream;

verus! {

/// The next `n` bytes at `pos`, where that many are left.
pub open spec fn bytes_at(data: Seq<u8>, pos: int, n: int) -> Option<Seq<u8>> {
    if 0 <= pos && 0 <= n && pos + n <= data.len() {
        Some(data.subrange(pos, pos + n))
    } else {
        None
    }
}

/// Reads exactly `N` bytes.
///
/// Fails with `Transport`, leaving the stream where it was, when fewer than
/// `N` bytes are left.
pub fn read_bytes<const N: usize>(stream: &mut ByteStream) -> (r: Result<[u8; N], GitError>)
    ensures
        final(stream).data == old(stream).data,
        match bytes_at(old(stream).data@, old(stream).pos as int, N as int) {
            Some(s) => r is Ok && r->Ok_0@ == s && final(stream).pos == old(stream).pos + N,
            None => r == Err::<[u8; N], GitError>(GitError::Transport) && final(stream).pos == old(stream).pos,
        },
{
    let len: usize = stream.data.len();
    if stream.pos > len || len - stream.pos < N {
        return Err(GitError::Transport);
    }
    let start: usize = stream.pos;
    let mut bytes: [u8; N] = [0u8; N];
    let mut i: usize = 0;
    while i < N
        invariant
            i <= N,
            start + N <= len,
            len == stream.data@.len(),
            stream.pos == start,
            stream.data == old(stream).data,
            forall|j: int| 0 <= j < i ==> bytes@[j] == stream.data@[start + j],
        decreases N - i,
    {
        bytes[i] = stream.data[start + i];
        i += 1;
    }
    stream.pos = start + N;
    assert(bytes@ =~= old(stream).data@.subrange(start as int, start + N));
    Ok(bytes)
}

/// The number that four bytes hold, most significant byte first.
pub open spec fn be32_value(s: Seq<u8>) -> nat
    recommends
        s.len() == 4,
{
    (s[0] as nat) * 16777216 + (s[1] as nat) * 65536 + (s[2] as nat) * 256 + (s[3] as nat)
}

/// Reads a 32-bit number stored most significant byte first.
///
/// Fails with `Transport`, leaving the stream where it was, when fewer than
/// four bytes are left.
pub fn read_u32(stream: &mut ByteStream) -> (r: Result<u32, GitError>)
    ensures
        final(stream).data == old(stream).data,
        match bytes_at(old(stream).data@, old(stream).pos as int, 4) {
            Some(s) => r == Ok::<u32, GitError>(be32_value(s) as u32) && be32_value(s) <= u32::MAX
                && final(stream).pos == old(stream).pos + 4,
            None => r == Err::<u32, GitError>(GitError::Transport) && final(stream).pos == old(
                stream,
            ).pos,
        },
{
    match read_bytes::<4>(stream) {
        Ok(b) => {
            let v: u32 = (b[0] as u32) * 16777216 + (b[1] as u32) * 65536 + (b[2] as u32) * 256 + (
            b[3] as u32);
            Ok(v)
        },
        Err(_) => Err(GitError::Transport),
    }
}

/// The low seven bits of a byte of a variable-length number.
pub open spec fn group_value(b: u8) -> nat {
    (b % 128) as nat
}

/// Whether the byte's high bit says that another byte follows.
pub open spec fn group_continues(b: u8) -> bool {
    b >= 128
}

/// Reads one byte of a variable-length number: its low seven bits, and
/// whether its high bit announces another byte.
///
/// Fails with `Transport`, leaving the stream where it was, at the end of
/// the data.
pub fn read_encoded_size(stream: &mut ByteStream) -> (r: Result<(u8, bool), GitError>)
    ensures
        final(stream).data == old(stream).data,
        match bytes_at(old(stream).data@, old(stream).pos as int, 1) {
            Some(s) => r == Ok::<(u8, bool), GitError>(
                (group_value(s[0]) as u8, group_continues(s[0])),
            ) && final(stream).pos == old(stream).pos + 1,
            None => r == Err::<(u8, bool), GitError>(GitError::Transport) && final(stream).pos
                == old(stream).pos,
        },
{
    match read_bytes::<1>(stream) {
        Ok(b) => {
            let buf: u8 = b[0];
            let value: u8 = buf & 0x7f;
            let more: bool = buf & 0x80 != 0;
            assert(buf & 0x7f == buf % 128) by (bit_vector);
            assert((buf & 0x80 != 0) == (buf >= 128)) by (bit_vector);
            Ok((value, more))
        },
        Err(_) => Err(GitError::Transport),
    }
}

/// The size number that starts at `pos`, with the position after it: seven
/// bits to a byte, least significant group first, the high bit of every
/// byte but the last set. `None` where the data ends inside the number.
pub open spec fn size_varint(data: Seq<u8>, pos: int) -> Option<(nat, int)>
    decreases data.len() - pos,
{
    if pos < 0 || pos >= data.len() {
        None
    } else if !group_continues(data[pos]) {
        Some((group_value(data[pos]), pos + 1))
    } else {
        match size_varint(data, pos + 1) {
            Some((rest, next)) => Some((group_value(data[pos]) + 128 * rest, next)),
            None => None,
        }
    }
}

/// A size number continued: `base` plus `scale` times what follows.
pub open spec fn size_scaled(base: nat, scale: nat, tail: Option<(nat, int)>) -> Option<
    (nat, int),
> {
    match tail {
        Some((v, next)) => Some((base + scale * v, next)),
        None => None,
    }
}

/// Where a size number ends, it ends after its start and inside the data.
pub proof fn lemma_size_varint_bounds(data: Seq<u8>, pos: int)
    ensures
        size_varint(data, pos) matches Some((_, next)) ==> pos < next <= data.len(),
    decreases data.len() - pos,
{
    if 0 <= pos < data.len() && group_continues(data[pos]) {
        lemma_size_varint_bounds(data, pos + 1);
    }
}

proof fn lemma_scaled_step(base: nat, scale: nat, low: nat, rest: nat)
    ensures
        base + scale * (low + 128 * rest) == (base + scale * low) + (scale * 128) * rest,
{
    assert(scale * (low + 128 * rest) == scale * low + (scale * 128) * rest) by (nonlinear_arith);
}

proof fn lemma_scaled_grows(scale: nat, low: nat, bound: nat)
    requires
        low >= 1,
    ensures
        scale * low >= scale,
        scale > bound ==> scale * low > bound,
        scale * 128 >= scale,
{
    assert(scale * low >= scale) by (nonlinear_arith)
        requires
            low >= 1,
    ;
}

/// Reads a size number (see `size_varint`).
///
/// Fails with `Transport` where the data ends inside the number, and with
/// `Format` where the number is complete but does not fit in `usize`; in
/// both cases the stream stays where it was.
pub fn read_size(stream: &mut ByteStream) -> (r: Result<usize, GitError>)
    ensures
        final(stream).data == old(stream).data,
        match size_varint(old(stream).data@, old(stream).pos as int) {
            Some((v, next)) => if v <= usize::MAX {
                r == Ok::<usize, GitError>(v as usize) && final(stream).pos == next
            } else {
                r == Err::<usize, GitError>(GitError::Format) && final(stream).pos == old(
                    stream,
                ).pos
            },
            None => r == Err::<usize, GitError>(GitError::Transport) && final(stream).pos == old(
                stream,
            ).pos,
        },
{
    let len: usize = stream.data.len();
    let start: usize = stream.pos;
    let mut cur: usize = start;
    let mut acc: usize = 0;
    let mut mult: usize = 1;
    let mut mult_fits: bool = true;
    let mut overflow: bool = false;
    let ghost data = stream.data@;
    let ghost mut base: nat = 0;
    let ghost mut scale: nat = 1;
    loop
        invariant
            stream.data == old(stream).data,
            stream.pos == start,
            start == old(stream).pos,
            data == stream.data@,
            len == data.len(),
            start <= cur,
            scale >= 1,
            mult_fits ==> mult == scale,
            !mult_fits ==> scale > usize::MAX,
            !overflow ==> acc == base,
            overflow ==> base > usize::MAX,
            size_varint(data, start as int) == size_scaled(
                base,
                scale,
                size_varint(data, cur as int),
            ),
        decreases len - cur,
    {
        if cur >= len {
            return Err(GitError::Transport);
        }
        let b: u8 = stream.data[cur];
        let low: u8 = b & 0x7f;
        let more: bool = b & 0x80 != 0;
        assert(b & 0x7f == b % 128) by (bit_vector);
        assert((b & 0x80 != 0) == (b >= 128)) by (bit_vector);
        proof {
            if more {
                let tail = size_varint(data, cur + 1);
                if let Some((rest, next)) = tail {
                    lemma_scaled_step(base, scale, low as nat, rest);
                }
            }
            if low >= 1 {
                lemma_scaled_grows(scale, low as nat, usize::MAX as nat);
            }
            assert(scale * 128 >= scale) by (nonlinear_arith);
            assert(low == 0 ==> scale * (low as nat) == 0) by (nonlinear_arith);
        }
        if !overflow && low != 0 {
            if !mult_fits {
                overflow = true;
            } else {
                match mult.checked_mul(low as usize) {
                    None => {
                        overflow = true;
                    },
                    Some(t) => {
                        match acc.checked_add(t) {
                            None => {
                                overflow = true;
                            },
                            Some(s) => {
                                acc = s;
                            },
                        }
                    },
                }
            }
        }
        proof {
            base = base + scale * (low as nat);
        }
        if !more {
            if overflow {
                return Err(GitError::Format);
            }
            stream.pos = cur + 1;
            return Ok(acc);
        }
        if mult_fits {
            match mult.checked_mul(128) {
                Some(m) => {
                    mult = m;
                },
                None => {
                    mult_fits = false;
                },
            }
        }
        proof {
            scale = scale * 128;
        }
        cur = cur + 1;
    }
}

/// The offset number that continues at `pos` with `acc` read so far: seven
/// bits to a byte, most significant group first, and one added to the
/// number after every byte but the last, before the next group is shifted
/// in. `None` where the data ends inside the number.
pub open spec fn offset_varint_from(data: Seq<u8>, pos: int, acc: nat) -> Option<(nat, int)>
    decreases data.len() - pos,
{
    if pos < 0 || pos >= data.len() {
        None
    } else {
        let v = acc * 128 + group_value(data[pos]);
        if !group_continues(data[pos]) {
            Some((v, pos + 1))
        } else {
            offset_varint_from(data, pos + 1, v + 1)
        }
    }
}

/// The offset number that starts at `pos`, with the position after it.
pub open spec fn offset_varint(data: Seq<u8>, pos: int) -> Option<(nat, int)> {
    offset_varint_from(data, pos, 0)
}

/// An offset number is at least what had been read of it, and ends after
/// its start and inside the data.
pub proof fn lemma_offset_varint_bounds(data: Seq<u8>, pos: int, acc: nat)
    ensures
        offset_varint_from(data, pos, acc) matches Some((v, next)) ==> v >= acc && pos < next
            <= data.len(),
    decreases data.len() - pos,
{
    if 0 <= pos < data.len() && group_continues(data[pos]) {
        lemma_offset_varint_bounds(data, pos + 1, acc * 128 + group_value(data[pos]) + 1);
    }
}

/// Reads an offset number (see `offset_varint`).
///
/// Fails with `Transport` where the data ends inside the number, and with
/// `Format` where the number is complete but does not fit in `usize`; in
/// both cases the stream stays where it was.
pub fn read_offset(stream: &mut ByteStream) -> (r: Result<usize, GitError>)
    ensures
        final(stream).data == old(stream).data,
        match offset_varint(old(stream).data@, old(stream).pos as int) {
            Some((v, next)) => if v <= usize::MAX {
                r == Ok::<usize, GitError>(v as usize) && final(stream).pos == next
            } else {
                r == Err::<usize, GitError>(GitError::Format) && final(stream).pos == old(
                    stream,
                ).pos
            },
            None => r == Err::<usize, GitError>(GitError::Transport) && final(stream).pos == old(
                stream,
            ).pos,
        },
{
    let len: usize = stream.data.len();
    let start: usize = stream.pos;
    let mut cur: usize = start;
    let mut acc: usize = 0;
    let mut overflow: bool = false;
    let ghost data = stream.data@;
    let ghost mut base: nat = 0;
    loop
        invariant
            stream.data == old(stream).data,
            stream.pos == start,
            start == old(stream).pos,
            data == stream.data@,
            len == data.len(),
            start <= cur,
            !overflow ==> acc == base,
            overflow ==> base > usize::MAX,
            offset_varint(data, start as int) == offset_varint_from(data, cur as int, base),
        decreases len - cur,
    {
        if cur >= len {
            return Err(GitError::Transport);
        }
        let b: u8 = stream.data[cur];
        let low: u8 = b & 0x7f;
        let more: bool = b & 0x80 != 0;
        assert(b & 0x7f == b % 128) by (bit_vector);
        assert((b & 0x80 != 0) == (b >= 128)) by (bit_vector);
        if !overflow {
            match acc.checked_mul(128) {
                None => {
                    overflow = true;
                },
                Some(t) => {
                    match t.checked_add(low as usize) {
                        None => {
                            overflow = true;
                        },
                        Some(s) => {
                            acc = s;
                        },
                    }
                },
            }
        }
        proof {
            base = base * 128 + low as nat;
        }
        if !more {
            if overflow {
                return Err(GitError::Format);
            }
            stream.pos = cur + 1;
            return Ok(acc);
        }
        proof {
            lemma_offset_varint_bounds(data, cur + 1, base + 1);
        }
        if !overflow {
            match acc.checked_add(1) {
                None => {
                    overflow = true;
                },
                Some(s) => {
                    acc = s;
                },
            }
        }
        proof {
            base = base + 1;
        }
        cur = cur + 1;
    }
}

} // verus!

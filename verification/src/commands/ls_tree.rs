use vstd::prelude::*;
use vstd::string::StringSliceAdditionalSpecFns;
use crate::bytes::append_all;
use crate::digest::{hex_encode, hex_text, is_utf8};
use crate::error::GitError;
use crate::git::objects::padded_to_six;
use crate::objects::{Kind, Object};
use crate::text::{find_byte, find_from, lemma_find_from};

verus! {

#[derive(Debug)]
pub struct Options {
    pub name_only: bool,
}

/// The tree entry at `pos`, as it is listed: its mode as it is written,
/// its name and its hash, with the position after it.
///
/// `None` where no zero byte follows, where what stands before it is not
/// UTF-8 or holds no space, or where fewer than twenty bytes follow the
/// zero byte.
pub open spec fn listed_entry(data: Seq<u8>, pos: int) -> Option<
    ((Seq<u8>, Seq<u8>, Seq<u8>), int),
> {
    match find_from(data, pos, 0) {
        None => None,
        Some(z) => {
            let text = data.subrange(pos, z);
            match find_from(text, 0, 32) {
                None => None,
                Some(sp) => if vstd::utf8::valid_utf8(text) && z + 21 <= data.len() {
                    Some(
                        (
                            (
                                text.subrange(0, sp),
                                text.subrange(sp + 1, text.len() as int),
                                data.subrange(z + 1, z + 21),
                            ),
                            z + 21,
                        ),
                    )
                } else {
                    None
                },
            }
        },
    }
}

/// The line that lists an entry: its name alone, or its mode in at least
/// six characters, the word `kind`, its hash in hexadecimal digits and its
/// name.
pub open spec fn listed_line(entry: (Seq<u8>, Seq<u8>, Seq<u8>), name_only: bool) -> Seq<u8> {
    if name_only {
        entry.1 + seq![10u8]
    } else {
        padded_to_six(entry.0) + " kind ".spec_bytes() + hex_text(entry.2) + seq![32u8] + entry.1
            + seq![10u8]
    }
}

/// The lines that list the entries from `pos` on, up to the entry that
/// ends at `end`. There is at least one entry. `None` where an entry is
/// none (see `listed_entry`), or none of them ends at `end`.
pub open spec fn listing(data: Seq<u8>, pos: int, end: int, name_only: bool) -> Option<Seq<u8>>
    decreases data.len() - pos,
{
    match listed_entry(data, pos) {
        None => None,
        Some((entry, next)) => if next <= pos {
            None
        } else if next == end {
            Some(listed_line(entry, name_only))
        } else {
            match listing(data, next, end, name_only) {
                None => None,
                Some(rest) => Some(listed_line(entry, name_only) + rest),
            }
        },
    }
}

/// Reads the tree entry at `pos` (see `listed_entry`): where its space and
/// its zero byte stand.
fn read_listed(data: &[u8], pos: usize) -> (r: Option<(usize, usize)>)
    ensures
        match listed_entry(data@, pos as int) {
            Some((entry, next)) => r is Some && ({
                let (sp, z) = r->Some_0;
                &&& pos <= sp < z
                &&& z + 21 <= data@.len()
                &&& next == z + 21
                &&& entry.0 == data@.subrange(pos as int, sp as int)
                &&& entry.1 == data@.subrange(sp + 1, z as int)
                &&& entry.2 == data@.subrange(z + 1, z + 21)
            }),
            None => r is None,
        },
{
    let len: usize = data.len();
    proof {
        lemma_find_from(data@, pos as int, 0);
    }
    let z: usize = match find_byte(data, pos, 0) {
        None => {
            return None;
        },
        Some(z) => z,
    };
    let text: &[u8] = vstd::slice::slice_subrange(data, pos, z);
    proof {
        lemma_find_from(text@, 0, 32);
    }
    let sp: usize = match find_byte(text, 0, 32) {
        None => {
            return None;
        },
        Some(sp) => sp,
    };
    if !is_utf8(text) || len - z < 21 {
        return None;
    }
    assert(text@.subrange(0, sp as int) =~= data@.subrange(pos as int, pos + sp));
    assert(text@.subrange(sp + 1, text@.len() as int) =~= data@.subrange(pos + sp + 1, z as int));
    Some((pos + sp, z))
}

/// Writes the line that lists an entry (see `listed_line`).
fn push_listed(out: &mut Vec<u8>, mode: &[u8], name: &[u8], hash: &[u8], name_only: bool)
    ensures
        final(out)@ == old(out)@ + listed_line((mode@, name@, hash@), name_only),
{
    let ghost before = out@;
    if !name_only {
        let mut pad: usize = mode.len();
        while pad < 6
            invariant
                mode@.len() <= pad <= 6 || pad == mode@.len(),
                out@ == before + Seq::new((pad - mode@.len()) as nat, |k: int| 48u8),
            decreases 6 - pad,
        {
            out.push(48);
            pad += 1;
            assert(out@ =~= before + Seq::new((pad - mode@.len()) as nat, |k: int| 48u8));
        }
        append_all(out, mode);
        assert(out@ =~= before + padded_to_six(mode@));
        let word: &str = " kind ";
        append_all(out, word.as_bytes());
        append_all(out, hex_encode(hash).as_slice());
        out.push(32);
    }
    append_all(out, name);
    out.push(10);
    assert(out@ =~= before + listed_line((mode@, name@, hash@), name_only));
}

/// Lists the entries of the tree `data` (see `listing`, over its content
/// up to the length that its header gives).
///
/// `Format` where the object is no tree or its content cannot be listed.
pub fn invoke(data: &Object, options: Options) -> (r: Result<Vec<u8>, GitError>)
    ensures
        match r {
            Ok(out) => data.kind == Kind::Tree && listing(
                data.content@,
                0,
                data.expected_size as int,
                options.name_only,
            ) == Some(out@),
            Err(e) => e == GitError::Format && (data.kind != Kind::Tree || listing(
                data.content@,
                0,
                data.expected_size as int,
                options.name_only,
            ) is None),
        },
{
    match data.kind {
        Kind::Tree => {},
        _ => {
            return Err(GitError::Format);
        },
    }
    let content: &[u8] = data.content.as_slice();
    let len: usize = content.len();
    let mut out: Vec<u8> = Vec::new();
    let mut size: usize = 0;
    let ghost goal = listing(content@, 0, data.expected_size as int, options.name_only);
    assert(out@ =~= Seq::<u8>::empty());
    loop
        invariant
            data.kind == Kind::Tree,
            size <= len,
            len == content@.len(),
            content@ == data.content@,
            goal == listing(content@, 0, data.expected_size as int, options.name_only),
            goal == match listing(
                content@,
                size as int,
                data.expected_size as int,
                options.name_only,
            ) {
                None => None::<Seq<u8>>,
                Some(rest) => Some(out@ + rest),
            },
        decreases len - size,
    {
        let (sp, z) = match read_listed(content, size) {
            None => {
                return Err(GitError::Format);
            },
            Some(found) => found,
        };
        let ghost before = out@;
        let ghost entry = listed_entry(content@, size as int)->Some_0.0;
        push_listed(
            &mut out,
            vstd::slice::slice_subrange(content, size, sp),
            vstd::slice::slice_subrange(content, sp + 1, z),
            vstd::slice::slice_subrange(content, z + 1, z + 21),
            options.name_only,
        );
        assert(out@ == before + listed_line(entry, options.name_only));
        size = z + 21;
        if size == data.expected_size {
            assert(before + listed_line(entry, options.name_only) =~= out@);
            return Ok(out);
        }
        proof {
            if let Some(rest) = listing(
                content@,
                size as int,
                data.expected_size as int,
                options.name_only,
            ) {
                assert(before + (listed_line(entry, options.name_only) + rest) =~= out@ + rest);
            }
        }
    }
}

} // verus!

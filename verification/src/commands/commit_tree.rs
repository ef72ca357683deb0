use vstd::prelude::*;
use vstd::string::StringSliceAdditionalSpecFns;
use crate::bytes::{append_all, decimal_text, push_number};
use crate::digest::hex_text;
use crate::git::packfile::ObjType;
use crate::objects::{encode_loose, object_bytes, object_hash, Kind, LooseObject};
use crate::zlib::zlib_deflated;

verus! {

#[derive(Debug)]
pub struct Options {
    pub message: Vec<u8>,
    pub parent: Option<Vec<u8>>,
}

/// The line of the person who writes and commits, under the word `key`,
/// at `seconds` after the epoch in the time zone `zone`.
pub open spec fn signature(key: Seq<u8>, seconds: u64, zone: Seq<u8>) -> Seq<u8> {
    key + " code <crafter@your.git> ".spec_bytes() + decimal_text(seconds as nat) + seq![32u8]
        + zone
}

/// The body of a commit of the tree `hash`: the tree, the parent where
/// there is one, the author and the committer, an empty line, and the
/// message with a line feed after it.
pub open spec fn commit_text(
    hash: Seq<u8>,
    message: Seq<u8>,
    parent: Option<Seq<u8>>,
    seconds: u64,
    zone: Seq<u8>,
) -> Seq<u8> {
    "tree ".spec_bytes() + hash + match parent {
        Some(p) => "\nparent ".spec_bytes() + p,
        None => Seq::empty(),
    } + seq![10u8] + signature("author".spec_bytes(), seconds, zone) + seq![10u8] + signature(
        "committer".spec_bytes(),
        seconds,
        zone,
    ) + seq![10u8, 10u8] + message + seq![10u8]
}

fn push_signature(out: &mut Vec<u8>, key: &str, seconds: u64, zone: &[u8])
    ensures
        final(out)@ == old(out)@ + signature(key.spec_bytes(), seconds, zone@),
{
    let ghost before = out@;
    let who: &str = " code <crafter@your.git> ";
    append_all(out, key.as_bytes());
    append_all(out, who.as_bytes());
    push_number(out, seconds, 10);
    out.push(32);
    append_all(out, zone);
    assert(out@ =~= before + signature(key.spec_bytes(), seconds, zone@));
}

/// Writes the body of a commit (see `commit_text`).
pub fn content(hash: &[u8], options: &Options, seconds: u64, zone: &[u8]) -> (out: Vec<u8>)
    ensures
        out@ == commit_text(
            hash@,
            options.message@,
            match options.parent {
                Some(p) => Some(p@),
                None => None,
            },
            seconds,
            zone@,
        ),
{
    let mut out: Vec<u8> = Vec::new();
    let tree_word: &str = "tree ";
    let parent_word: &str = "\nparent ";
    append_all(&mut out, tree_word.as_bytes());
    append_all(&mut out, hash);
    match &options.parent {
        Some(p) => {
            append_all(&mut out, parent_word.as_bytes());
            append_all(&mut out, p.as_slice());
        },
        None => {
            assert(out@ + Seq::<u8>::empty() =~= out@);
        },
    }
    out.push(10);
    push_signature(&mut out, "author", seconds, zone);
    out.push(10);
    push_signature(&mut out, "committer", seconds, zone);
    out.push(10);
    out.push(10);
    append_all(&mut out, options.message.as_slice());
    out.push(10);
    assert(out@ =~= commit_text(
        hash@,
        options.message@,
        match options.parent {
            Some(p) => Some(p@),
            None => None,
        },
        seconds,
        zone@,
    ));
    out
}

/// Makes the commit object of the tree `hash` (see `commit_text`), ready
/// to be stored.
///
/// The object is named by the hexadecimal text of the commit's hash and
/// holds the commit's header and body, deflated. It is returned exactly
/// where the encoder deflates them, and `None` where it reports an error
/// (see `zlib_deflated`).
pub fn invoke(hash: &[u8], options: Options, seconds: u64, zone: &[u8]) -> (r: Option<LooseObject>)
    ensures
        ({
            let text = commit_text(
                hash@,
                options.message@,
                match options.parent {
                    Some(p) => Some(p@),
                    None => None,
                },
                seconds,
                zone@,
            );
            match zlib_deflated(object_bytes(ObjType::Commit, text)) {
                Some(deflated) => r is Some && r->Some_0.hash@ == hex_text(
                    object_hash(ObjType::Commit, text),
                ) && r->Some_0.compressed@ == deflated,
                None => r is None,
            }
        }),
{
    let text: Vec<u8> = content(hash, &options, seconds, zone);
    encode_loose(Kind::Commit, text.as_slice())
}

} // verus!

use vstd::prelude::*;
use vstd::string::StringSliceAdditionalSpecFns;
use crate::bytes::{append_all, octal_text, push_number, same_bytes};
use crate::digest::{hex_encode, hex_text, sha1, sha1_digest};
use crate::git::packfile::ObjType;
use crate::objects::{object_bytes, store_bytes, LooseObject};
use crate::zlib::{deflate, zlib_deflated};

verus! {

/// One entry of a directory: its permission mode, its name, and its
/// object as it is stored and hashed, header and body.
#[derive(Debug)]
pub struct Tree {
    pub mode: u32,
    pub name: Vec<u8>,
    pub content: Vec<u8>,
}

/// A file as a stored object: the header of a blob and the file's bytes.
pub fn blob(content: &[u8]) -> (data: Vec<u8>)
    ensures
        data@ == object_bytes(ObjType::Blob, content@),
{
    store_bytes(ObjType::Blob, content)
}

/// The name of the directory that a tree never holds.
pub open spec fn ignored_name() -> Seq<u8> {
    ".git".spec_bytes()
}

/// The body of the tree of the first `k` entries: for each entry that is
/// not ignored, its mode in octal digits, a space, its name, a zero byte
/// and the SHA-1 of its stored object.
pub open spec fn tree_body(entries: Seq<Tree>, k: int) -> Seq<u8>
    decreases k,
{
    if k <= 0 {
        Seq::empty()
    } else {
        let e = entries[k - 1];
        tree_body(entries, k - 1) + if e.name@ == ignored_name() {
            Seq::empty()
        } else {
            octal_text(e.mode as nat) + seq![32u8] + e.name@ + seq![0u8] + sha1_digest(e.content@)
        }
    }
}

/// A directory as a stored object: the header of a tree and the body that
/// its entries make (see `tree_body`), in the order given.
pub fn create_tree(entries: &Vec<Tree>) -> (data: Vec<u8>)
    ensures
        data@ == object_bytes(ObjType::Tree, tree_body(entries@, entries@.len() as int)),
{
    let mut content: Vec<u8> = Vec::new();
    let mut i: usize = 0;
    while i < entries.len()
        invariant
            i <= entries@.len(),
            content@ == tree_body(entries@, i as int),
        decreases entries@.len() - i,
    {
        let ignore: &str = ".git";
        if !same_bytes(entries[i].name.as_slice(), ignore.as_bytes()) {
            push_number(&mut content, entries[i].mode as u64, 8);
            content.push(32);
            append_all(&mut content, entries[i].name.as_slice());
            content.push(0);
            let hash: [u8; 20] = sha1(entries[i].content.as_slice());
            append_all(&mut content, hash.as_slice());
        }
        i += 1;
        assert(content@ =~= tree_body(entries@, i as int));
    }
    store_bytes(ObjType::Tree, content.as_slice())
}

/// Prepares a stored object for being written: the hexadecimal text of the
/// SHA-1 of `content`, and `content` deflated.
///
/// The object is returned exactly where the encoder deflates `content`,
/// and `None` where it reports an error (see `zlib_deflated`).
pub fn invoke(content: &[u8]) -> (r: Option<LooseObject>)
    ensures
        match zlib_deflated(content@) {
            Some(deflated) => r is Some && r->Some_0.hash@ == hex_text(sha1_digest(content@))
                && r->Some_0.compressed@ == deflated,
            None => r is None,
        },
{
    let digest: [u8; 20] = sha1(content);
    let hash: Vec<u8> = hex_encode(digest.as_slice());
    LooseObject::from_deflated(hash, deflate(content))
}

} // verus!

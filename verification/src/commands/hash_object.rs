use vstd::prelude::*;
use crate::digest::{hex_encode, hex_text, is_utf8, sha1};
use crate::error::GitError;
use crate::git::packfile::ObjType;
use crate::objects::{object_bytes, object_hash, store_bytes};
use crate::zlib::{deflate, zlib_deflated};

verus! {

#[derive(Debug)]
pub struct Options {
    pub write: bool,
}

/// A blob, hashed: the hexadecimal text of its hash, and, where it is to
/// be written, the deflated bytes of its file.
#[derive(Debug)]
pub struct Hashed {
    pub hash: Vec<u8>,
    pub compressed: Option<Vec<u8>>,
}

/// What the deflating of `stored` gave, as the bytes of an object's file:
/// `Io` where the encoder failed.
pub fn file_bytes(deflated: Option<Vec<u8>>) -> (r: Result<Vec<u8>, GitError>)
    ensures
        match deflated {
            Some(bytes) => r is Ok && r->Ok_0@ == bytes@,
            None => r is Err && r->Err_0 == GitError::Io,
        },
{
    match deflated {
        Some(bytes) => Ok(bytes),
        None => Err(GitError::Io),
    }
}

/// Hashes the text `content` as a blob, and deflates it where `options`
/// asks for the object to be written.
///
/// `Format` where `content` is not UTF-8; `Io` where the object is to be
/// written and the encoder reports an error (see `zlib_deflated`).
pub fn invoke(content: &[u8], options: Options) -> (r: Result<Hashed, GitError>)
    ensures
        if !vstd::utf8::valid_utf8(content@) {
            r is Err && r->Err_0 == GitError::Format
        } else if !options.write {
            r is Ok && r->Ok_0.hash@ == hex_text(object_hash(ObjType::Blob, content@))
                && r->Ok_0.compressed is None
        } else {
            match zlib_deflated(object_bytes(ObjType::Blob, content@)) {
                Some(deflated) => r is Ok && r->Ok_0.hash@ == hex_text(
                    object_hash(ObjType::Blob, content@),
                ) && r->Ok_0.compressed is Some && r->Ok_0.compressed->Some_0@ == deflated,
                None => r is Err && r->Err_0 == GitError::Io,
            }
        },
{
    if !is_utf8(content) {
        return Err(GitError::Format);
    }
    let data: Vec<u8> = store_bytes(ObjType::Blob, content);
    let digest: [u8; 20] = sha1(data.as_slice());
    let hash: Vec<u8> = hex_encode(digest.as_slice());
    if options.write {
        match file_bytes(deflate(data.as_slice())) {
            Ok(compressed) => Ok(Hashed { hash, compressed: Some(compressed) }),
            Err(e) => Err(e),
        }
    } else {
        Ok(Hashed { hash, compressed: None })
    }
}

} // verus!

use vstd::prelude::*;
use vstd::string::StringSliceAdditionalSpecFns;
use crate::bytes::{append_all, append_range, copy_range, decimal_text, push_decimal, same_bytes};
use crate::digest::{hex_encode, hex_text, is_utf8, sha1, sha1_digest};
use crate::error::GitError;
use crate::git::packfile::ObjType;
use crate::text::{find_byte, find_from, lemma_find_from, number_value, parse_number};
use crate::zlib::{deflate, inflate, zlib_deflated, zlib_inflated};

verus! {

/// The kind of an object that is stored on its own.
#[derive(Debug, PartialEq, Eq, Clone, Copy, Structural)]
pub enum Kind {
    Blob,
    Tree,
    Commit,
}

impl Kind {
    /// The same kind among those that a pack can hold.
    pub open spec fn spec_obj_type(self) -> ObjType {
        match self {
            Kind::Blob => ObjType::Blob,
            Kind::Tree => ObjType::Tree,
            Kind::Commit => ObjType::Commit,
        }
    }

    /// The same kind among those that a pack can hold.
    pub fn obj_type(&self) -> (r: ObjType)
        ensures
            r == self.spec_obj_type(),
    {
        match self {
            Kind::Blob => ObjType::Blob,
            Kind::Tree => ObjType::Tree,
            Kind::Commit => ObjType::Commit,
        }
    }

    /// The kind's name: `blob`, `tree` or `commit`.
    pub fn name(&self) -> (r: Vec<u8>)
        ensures
            r@ == self.spec_obj_type().spec_name(),
    {
        self.obj_type().name()
    }

    /// The kind that `name` names, if any.
    pub open spec fn spec_from_name(name: Seq<u8>) -> Option<Kind> {
        if name == ObjType::Blob.spec_name() {
            Some(Kind::Blob)
        } else if name == ObjType::Tree.spec_name() {
            Some(Kind::Tree)
        } else if name == ObjType::Commit.spec_name() {
            Some(Kind::Commit)
        } else {
            None
        }
    }

    /// The kind that `name` names, if any.
    pub fn from_name(name: &[u8]) -> (r: Option<Kind>)
        ensures
            r == Self::spec_from_name(name@),
    {
        if same_bytes(name, ObjType::Blob.name().as_slice()) {
            Some(Kind::Blob)
        } else if same_bytes(name, ObjType::Tree.name().as_slice()) {
            Some(Kind::Tree)
        } else if same_bytes(name, ObjType::Commit.name().as_slice()) {
            Some(Kind::Commit)
        } else {
            None
        }
    }
}

/// The header of a stored object: the kind's name, a space, the length of
/// the body in decimal digits, and a zero byte.
pub open spec fn object_header(kind: ObjType, len: nat) -> Seq<u8> {
    kind.spec_name() + seq![32u8] + decimal_text(len) + seq![0u8]
}

/// An object as it is stored and hashed: its header and its body.
pub open spec fn object_bytes(kind: ObjType, content: Seq<u8>) -> Seq<u8> {
    object_header(kind, content.len()) + content
}

/// The hash that names an object: the SHA-1 of its header and body.
pub open spec fn object_hash(kind: ObjType, content: Seq<u8>) -> Seq<u8> {
    sha1_digest(object_bytes(kind, content))
}

/// Writes an object as it is stored and hashed (see `object_bytes`).
pub fn store_bytes(kind: ObjType, content: &[u8]) -> (out: Vec<u8>)
    ensures
        out@ == object_bytes(kind, content@),
{
    let mut out: Vec<u8> = kind.name();
    out.push(32);
    push_decimal(&mut out, content.len());
    out.push(0);
    append_all(&mut out, content);
    out
}

/// The hash that names the object of kind `kind` with body `content` (see
/// `object_hash`).
pub fn hash_object(kind: ObjType, content: &[u8]) -> (r: [u8; 20])
    ensures
        r@ == object_hash(kind, content@),
{
    let stored: Vec<u8> = store_bytes(kind, content);
    sha1(stored.as_slice())
}

/// An object that is stored on its own, as it is written to disk: the
/// hexadecimal text of its hash, and its header and body, deflated.
pub struct LooseObject {
    pub hash: Vec<u8>,
    pub compressed: Vec<u8>,
}

/// Prepares an object for being stored on its own: hashes its header and
/// body and deflates them.
///
/// The object is named by the hexadecimal text of its hash (see
/// `object_hash`) and holds its header and body, deflated. It is returned
/// exactly where the encoder deflates them, and `None` where it reports an
/// error (see `zlib_deflated`).
pub fn encode_loose(kind: Kind, content: &[u8]) -> (r: Option<LooseObject>)
    ensures
        match zlib_deflated(object_bytes(kind.spec_obj_type(), content@)) {
            Some(deflated) => r is Some && r->Some_0.hash@ == hex_text(
                object_hash(kind.spec_obj_type(), content@),
            ) && r->Some_0.compressed@ == deflated,
            None => r is None,
        },
{
    let stored: Vec<u8> = store_bytes(kind.obj_type(), content);
    let digest: [u8; 20] = sha1(stored.as_slice());
    let hash: Vec<u8> = hex_encode(digest.as_slice());
    LooseObject::from_deflated(hash, deflate(stored.as_slice()))
}

impl LooseObject {
    /// The object named `hash` whose file holds what the deflating of its
    /// header and body gave: `None` where the encoder had failed.
    pub fn from_deflated(hash: Vec<u8>, deflated: Option<Vec<u8>>) -> (r: Option<LooseObject>)
        ensures
            match deflated {
                Some(bytes) => r is Some && r->Some_0.hash@ == hash@ && r->Some_0.compressed@
                    == bytes@,
                None => r is None,
            },
    {
        match deflated {
            Some(compressed) => Some(LooseObject { hash, compressed }),
            None => None,
        }
    }
}

/// The path of the file that holds the object whose hash has the
/// hexadecimal text `hash`: `.git/objects/`, the first two characters, a
/// slash, and the rest. `None` where `hash` has fewer than two characters.
pub open spec fn loose_path(hash: Seq<u8>) -> Option<Seq<u8>> {
    if hash.len() >= 2 {
        Some(
            ".git/objects/".spec_bytes() + hash.subrange(0, 2) + seq![47u8] + hash.subrange(
                2,
                hash.len() as int,
            ),
        )
    } else {
        None
    }
}

/// The path of the file that holds an object (see `loose_path`). `Format`
/// where `hash` has fewer than two characters.
pub fn object_path(hash: &[u8]) -> (r: Result<Vec<u8>, GitError>)
    ensures
        match loose_path(hash@) {
            Some(p) => r is Ok && r->Ok_0@ == p,
            None => r is Err && r->Err_0 == GitError::Format,
        },
{
    if hash.len() < 2 {
        return Err(GitError::Format);
    }
    let mut out: Vec<u8> = Vec::new();
    let root: &str = ".git/objects/";
    append_all(&mut out, root.as_bytes());
    append_range(&mut out, hash, 0, 2);
    out.push(47);
    append_range(&mut out, hash, 2, hash.len());
    Ok(out)
}

/// An object that was stored on its own, its header read: the kind, the
/// length that the header gives, and the body up to that length.
pub struct Object {
    pub kind: Kind,
    pub expected_size: usize,
    pub content: Vec<u8>,
}

/// The header of the stored object `stored`: the kind, the length that it
/// gives, and where the body starts.
///
/// The header ends with the first zero byte; before it stand the kind's
/// name, a space and the length in decimal digits. `None` where there is no
/// zero byte, where the header is not UTF-8 or holds no space, where the
/// name is none of `blob`, `tree` and `commit`, or where the length is no
/// number that fits in `usize`.
pub open spec fn stored_header(stored: Seq<u8>) -> Option<(Kind, nat, int)> {
    match find_from(stored, 0, 0) {
        None => None,
        Some(z) => {
            let header = stored.subrange(0, z);
            match find_from(header, 0, 32) {
                None => None,
                Some(sp) => match Kind::spec_from_name(header.subrange(0, sp)) {
                    None => None,
                    Some(kind) => match number_value(
                        header.subrange(sp + 1, header.len() as int),
                        10,
                    ) {
                        None => None,
                        Some(n) => if n <= usize::MAX && vstd::utf8::valid_utf8(header) {
                            Some((kind, n, z + 1))
                        } else {
                            None
                        },
                    },
                },
            }
        },
    }
}

/// Reads the header of a stored object (see `stored_header`).
pub fn read_stored_header(stored: &[u8]) -> (r: Option<(Kind, usize, usize)>)
    ensures
        match stored_header(stored@) {
            Some((kind, n, body)) => r is Some && r->Some_0.0 == kind && r->Some_0.1 == n
                && r->Some_0.2 == body && 0 < body <= stored@.len(),
            None => r is None,
        },
{
    proof {
        lemma_find_from(stored@, 0, 0);
    }
    let z: usize = match find_byte(stored, 0, 0) {
        None => {
            return None;
        },
        Some(z) => z,
    };
    let header: &[u8] = vstd::slice::slice_subrange(stored, 0, z);
    proof {
        lemma_find_from(header@, 0, 32);
    }
    let sp: usize = match find_byte(header, 0, 32) {
        None => {
            return None;
        },
        Some(sp) => sp,
    };
    let kind: Kind = match Kind::from_name(vstd::slice::slice_subrange(header, 0, sp)) {
        None => {
            return None;
        },
        Some(k) => k,
    };
    let size: u64 = match parse_number(
        vstd::slice::slice_subrange(header, sp + 1, z),
        10,
        usize::MAX as u64,
    ) {
        None => {
            return None;
        },
        Some(n) => n,
    };
    if !is_utf8(header) {
        return None;
    }
    Some((kind, size as usize, z + 1))
}

impl Object {
    /// The object that the file content `compressed` holds: the content is
    /// inflated, the header read (see `stored_header`), and of what follows
    /// the header no more is kept than the length that the header gives.
    pub open spec fn spec_read(compressed: Seq<u8>) -> Option<(Kind, nat, Seq<u8>)> {
        match zlib_inflated(compressed) {
            None => None,
            Some((stored, _)) => match stored_header(stored) {
                None => None,
                Some((kind, n, body)) => {
                    let rest = stored.subrange(body, stored.len() as int);
                    Some(
                        (
                            kind,
                            n,
                            if n < rest.len() {
                                rest.subrange(0, n as int)
                            } else {
                                rest
                            },
                        ),
                    )
                },
            },
        }
    }

    /// Reads an object from the content of its file (see `spec_read`).
    /// Every failure is `Format`.
    pub fn read(compressed: &[u8]) -> (r: Result<Object, GitError>)
        ensures
            match Self::spec_read(compressed@) {
                Some((kind, n, content)) => r is Ok && r->Ok_0.kind == kind
                    && r->Ok_0.expected_size == n && r->Ok_0.content@ == content,
                None => r is Err && r->Err_0 == GitError::Format,
            },
    {
        let stored: Vec<u8> = match inflate(compressed) {
            None => {
                return Err(GitError::Format);
            },
            Some((s, _)) => s,
        };
        match read_stored_header(stored.as_slice()) {
            None => Err(GitError::Format),
            Some((kind, expected_size, body)) => {
                let left: usize = stored.len() - body;
                let end: usize = if expected_size < left {
                    body + expected_size
                } else {
                    stored.len()
                };
                let content: Vec<u8> = copy_range(stored.as_slice(), body, end);
                proof {
                    let rest = stored@.subrange(body as int, stored@.len() as int);
                    if expected_size < left {
                        assert(content@ =~= rest.subrange(0, expected_size as int));
                    } else {
                        assert(content@ =~= rest);
                    }
                }
                Ok(Object { kind, expected_size, content })
            },
        }
    }
}

} // verus!

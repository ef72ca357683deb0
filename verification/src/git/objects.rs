pub mod blob;
pub mod tree;
pub mod commit;

use vstd::prelude::*;
use vstd::string::StringSliceAdditionalSpecFns;
use crate::bytes::{append_all, copy_range, decimal_text, octal_text, push_number};
use crate::digest::{hex_encode, hex_text};
use crate::error::GitError;
use crate::git::objects::blob::Blob;
use crate::git::objects::commit::{commit_of, Author, AuthorModel, Commit, CommitModel};
use crate::git::objects::tree::{item_fields, tree_entries, TreeItem};
use crate::objects::{read_stored_header, stored_header, Kind};
use crate::stream::ByteStream;
use crate::text::views;
use crate::zlib::{inflate, zlib_inflated};

verus! {

/// An object with its body read.
#[derive(Debug)]
pub enum Object {
    Blob(Blob),
    Tree(Vec<TreeItem>),
    Commit(Commit),
}

/// An `Object` as plain values.
pub enum ObjectModel {
    Blob(Seq<u8>),
    Tree(Seq<(u32, Seq<u8>, Seq<u8>)>),
    Commit(CommitModel),
}

/// Zeros before `text` up to a width of six characters.
pub open spec fn padded_to_six(text: Seq<u8>) -> Seq<u8> {
    if text.len() < 6 {
        Seq::new((6 - text.len()) as nat, |i: int| 48u8) + text
    } else {
        text
    }
}

/// The line that shows one tree entry whose object is of kind `kind`: the
/// mode in six octal digits, the kind's name, the hash in hexadecimal
/// digits and the name, with single spaces between them.
pub open spec fn tree_line(fields: (u32, Seq<u8>, Seq<u8>), kind: Kind) -> Seq<u8> {
    padded_to_six(octal_text(fields.0 as nat)) + seq![32u8] + kind.spec_obj_type().spec_name()
        + seq![32u8] + hex_text(fields.2) + seq![32u8] + fields.1 + seq![10u8]
}

/// The lines that show the first `k` entries of a tree.
pub open spec fn tree_lines(items: Seq<(u32, Seq<u8>, Seq<u8>)>, kinds: Seq<Kind>, k: int) -> Seq<u8>
    decreases k,
{
    if k <= 0 {
        Seq::empty()
    } else {
        tree_lines(items, kinds, k - 1) + tree_line(items[k - 1], kinds[k - 1])
    }
}

/// The line that shows a person under the word `key`.
pub open spec fn person_line(key: Seq<u8>, who: AuthorModel) -> Seq<u8> {
    key + seq![32u8] + who.name + " <".spec_bytes() + who.email + "> ".spec_bytes() + decimal_text(
        who.date as nat,
    ) + seq![32u8] + who.zone + seq![10u8]
}

/// The lines that show the first `k` parents of a commit.
pub open spec fn parent_lines(parents: Seq<Seq<u8>>, k: int) -> Seq<u8>
    decreases k,
{
    if k <= 0 {
        Seq::empty()
    } else {
        parent_lines(parents, k - 1) + "parent ".spec_bytes() + parents[k - 1] + seq![10u8]
    }
}

/// The lines that show a commit: its tree, its parents, its author and
/// its committer. The message is not shown.
pub open spec fn commit_lines(commit: CommitModel) -> Seq<u8> {
    "tree ".spec_bytes() + commit.tree + seq![10u8] + parent_lines(
        commit.parent,
        commit.parent.len() as int,
    ) + person_line("author".spec_bytes(), commit.author) + person_line(
        "committer".spec_bytes(),
        commit.committer,
    )
}

fn push_person(out: &mut Vec<u8>, key: &str, who: &Author)
    ensures
        final(out)@ == old(out)@ + person_line(key.spec_bytes(), who.model()),
{
    let open: &str = " <";
    let close: &str = "> ";
    let ghost before = out@;
    append_all(out, key.as_bytes());
    out.push(32);
    append_all(out, who.name.as_slice());
    append_all(out, open.as_bytes());
    append_all(out, who.email.as_slice());
    append_all(out, close.as_bytes());
    push_number(out, who.date, 10);
    out.push(32);
    append_all(out, who.zone.as_slice());
    out.push(10);
    assert(out@ =~= before + person_line(key.spec_bytes(), who.model()));
}

impl Object {
    pub open spec fn model(&self) -> ObjectModel {
        match self {
            Object::Blob(b) => ObjectModel::Blob(b.0@),
            Object::Tree(items) => ObjectModel::Tree(item_fields(items@)),
            Object::Commit(c) => ObjectModel::Commit(c.model()),
        }
    }

    /// The object that the file content `compressed` holds: the content is
    /// inflated, its header read (see `stored_header`), and what follows
    /// the header read as the body of an object of the header's kind.
    ///
    /// `Format` where the content does not inflate, the header is none, or
    /// the body is no commit; for a tree, the errors of `tree_entries`.
    pub open spec fn spec_decode(compressed: Seq<u8>) -> Result<ObjectModel, GitError> {
        match zlib_inflated(compressed) {
            None => Err(GitError::Format),
            Some((stored, _)) => match stored_header(stored) {
                None => Err(GitError::Format),
                Some((kind, _, body)) => match kind {
                    Kind::Blob => Ok(
                        ObjectModel::Blob(stored.subrange(body, stored.len() as int)),
                    ),
                    Kind::Tree => match tree_entries(stored, body) {
                        Err(e) => Err(e),
                        Ok(items) => Ok(ObjectModel::Tree(items)),
                    },
                    Kind::Commit => match commit_of(stored.subrange(body, stored.len() as int)) {
                        None => Err(GitError::Format),
                        Some(c) => Ok(ObjectModel::Commit(c)),
                    },
                },
            },
        }
    }

    /// Reads the object that was found under its hash from the content of
    /// its file (see `spec_decode`).
    pub fn read_from_hash(compressed: &[u8]) -> (r: Result<Object, GitError>)
        ensures
            match Self::spec_decode(compressed@) {
                Ok(m) => r is Ok && r->Ok_0.model() == m,
                Err(e) => r is Err && r->Err_0 == e,
            },
    {
        let stored: Vec<u8> = match inflate(compressed) {
            None => {
                return Err(GitError::Format);
            },
            Some((s, _)) => s,
        };
        let (kind, _, body) = match read_stored_header(stored.as_slice()) {
            None => {
                return Err(GitError::Format);
            },
            Some(h) => h,
        };
        let mut stream = ByteStream { data: stored.as_slice(), pos: body };
        assert(stream.rest() =~= stored@.subrange(body as int, stored@.len() as int));
        match kind {
            Kind::Blob => match crate::git::objects::blob::parse(&mut stream) {
                Ok(b) => Ok(Object::Blob(b)),
                Err(e) => Err(e),
            },
            Kind::Tree => match crate::git::objects::tree::parse(&mut stream) {
                Ok(items) => Ok(Object::Tree(items)),
                Err(e) => Err(e),
            },
            Kind::Commit => match crate::git::objects::commit::parse(&mut stream) {
                Ok(c) => Ok(Object::Commit(c)),
                Err(e) => Err(e),
            },
        }
    }

    /// What shows the object: for a blob its bytes, for a tree one line
    /// for each entry (see `tree_line`), for a commit its lines (see
    /// `commit_lines`). `kinds` gives the kind of the object of each entry
    /// of a tree, in the order of the entries.
    pub open spec fn spec_cat(self, kinds: Seq<Kind>) -> Option<Seq<u8>> {
        match self {
            Object::Blob(b) => Some(b.0@),
            Object::Tree(items) => if kinds.len() == items@.len() {
                Some(tree_lines(item_fields(items@), kinds, items@.len() as int))
            } else {
                None
            },
            Object::Commit(c) => Some(commit_lines(c.model())),
        }
    }

    /// Writes what shows the object (see `spec_cat`). `Format` where the
    /// object is a tree and `kinds` does not hold one kind for each entry.
    pub fn cat(&self, kinds: &Vec<Kind>) -> (r: Result<Vec<u8>, GitError>)
        ensures
            match self.spec_cat(kinds@) {
                Some(text) => r is Ok && r->Ok_0@ == text,
                None => r is Err && r->Err_0 == GitError::Format,
            },
    {
        match self {
            Object::Blob(obj) => Ok(copy_range(obj.0.as_slice(), 0, obj.0.len())),
            Object::Tree(obj) => {
                if kinds.len() != obj.len() {
                    return Err(GitError::Format);
                }
                let mut out: Vec<u8> = Vec::new();
                let ghost fields = item_fields(obj@);
                let mut i: usize = 0;
                while i < obj.len()
                    invariant
                        i <= obj@.len(),
                        kinds@.len() == obj@.len(),
                        fields == item_fields(obj@),
                        out@ == tree_lines(fields, kinds@, i as int),
                    decreases obj@.len() - i,
                {
                    let ghost before = out@;
                    let mut mode: Vec<u8> = Vec::new();
                    push_number(&mut mode, obj[i].mode as u64, 8);
                    let mut pad: usize = mode.len();
                    while pad < 6
                        invariant
                            mode@.len() <= pad <= 6 || (pad == mode@.len()),
                            out@ == before + Seq::new((pad - mode@.len()) as nat, |k: int| 48u8),
                        decreases 6 - pad,
                    {
                        out.push(48);
                        pad += 1;
                        assert(out@ =~= before + Seq::new(
                            (pad - mode@.len()) as nat,
                            |k: int| 48u8,
                        ));
                    }
                    append_all(&mut out, mode.as_slice());
                    assert(out@ =~= before + padded_to_six(mode@));
                    out.push(32);
                    append_all(&mut out, kinds[i].name().as_slice());
                    out.push(32);
                    append_all(&mut out, hex_encode(obj[i].hash.as_slice()).as_slice());
                    out.push(32);
                    append_all(&mut out, obj[i].name.as_slice());
                    out.push(10);
                    assert(fields[i as int] == obj@[i as int].fields());
                    assert(out@ =~= before + tree_line(fields[i as int], kinds@[i as int]));
                    i += 1;
                }
                Ok(out)
            },
            Object::Commit(obj) => {
                let mut out: Vec<u8> = Vec::new();
                let tree_word: &str = "tree ";
                append_all(&mut out, tree_word.as_bytes());
                append_all(&mut out, obj.tree.as_slice());
                out.push(10);
                let ghost head = out@;
                let ghost parents = views(obj.parent@);
                let mut i: usize = 0;
                while i < obj.parent.len()
                    invariant
                        i <= obj.parent@.len(),
                        parents == views(obj.parent@),
                        out@ == head + parent_lines(parents, i as int),
                    decreases obj.parent@.len() - i,
                {
                    let ghost before = out@;
                    let parent_word: &str = "parent ";
                    append_all(&mut out, parent_word.as_bytes());
                    append_all(&mut out, obj.parent[i].as_slice());
                    out.push(10);
                    assert(parents[i as int] == obj.parent@[i as int]@);
                    assert(out@ =~= before + "parent ".spec_bytes() + parents[i as int]
                        + seq![10u8]);
                    assert(parent_lines(parents, i + 1) == parent_lines(parents, i as int)
                        + "parent ".spec_bytes() + parents[i as int] + seq![10u8]);
                    i += 1;
                    assert(out@ =~= head + parent_lines(parents, i as int));
                }
                push_person(&mut out, "author", &obj.author);
                push_person(&mut out, "committer", &obj.committer);
                assert(out@ =~= commit_lines(obj.model()));
                Ok(out)
            },
        }
    }
}

} // verus!

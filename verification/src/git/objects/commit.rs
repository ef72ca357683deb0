use vstd::prelude::*;
use vstd::string::StringSliceAdditionalSpecFns;
use crate::bytes::{append_all, copy_range, same_bytes};
use crate::digest::is_utf8;
use crate::error::GitError;
use crate::stream::ByteStream;
use crate::text::{
    find_byte, find_from, lemma_find_from, lines_of, number_value, parse_number, split_bytes,
    split_lines, split_on, trim_end, trim_pair, trim_start, views,
};

verus! {

/// Who wrote or committed a change, and when.
#[derive(Debug, Default, PartialEq, Eq)]
pub struct Author {
    pub name: Vec<u8>,
    pub email: Vec<u8>,
    pub date: u64,
    pub zone: Vec<u8>,
}

/// The body of a commit object.
#[derive(Debug)]
pub struct Commit {
    pub tree: Vec<u8>,
    pub parent: Vec<Vec<u8>>,
    pub author: Author,
    pub committer: Author,
    pub message: Vec<u8>,
}

/// An `Author` as plain values.
pub struct AuthorModel {
    pub name: Seq<u8>,
    pub email: Seq<u8>,
    pub date: u64,
    pub zone: Seq<u8>,
}

/// A `Commit` as plain values.
pub struct CommitModel {
    pub tree: Seq<u8>,
    pub parent: Seq<Seq<u8>>,
    pub author: AuthorModel,
    pub committer: AuthorModel,
    pub message: Seq<u8>,
}

impl Author {
    pub open spec fn model(&self) -> AuthorModel {
        AuthorModel { name: self.name@, email: self.email@, date: self.date, zone: self.zone@ }
    }
}

impl Commit {
    pub open spec fn model(&self) -> CommitModel {
        CommitModel {
            tree: self.tree@,
            parent: views(self.parent@),
            author: self.author.model(),
            committer: self.committer.model(),
            message: self.message@,
        }
    }
}

/// The word `tree`.
pub open spec fn tree_key() -> Seq<u8> {
    "tree".spec_bytes()
}

/// The word `parent`.
pub open spec fn parent_key() -> Seq<u8> {
    "parent".spec_bytes()
}

/// The word `author`.
pub open spec fn author_key() -> Seq<u8> {
    "author".spec_bytes()
}

/// The word `committer`.
pub open spec fn committer_key() -> Seq<u8> {
    "committer".spec_bytes()
}

/// What stands before and after the first `sep` of `s`.
pub open spec fn split_once(s: Seq<u8>, sep: u8) -> Option<(Seq<u8>, Seq<u8>)> {
    match find_from(s, 0, sep) {
        None => None,
        Some(i) => Some((s.subrange(0, i), s.subrange(i + 1, s.len() as int))),
    }
}

/// The person that the four fields `name <email> date zone` describe:
/// exactly three spaces divide them, the angle brackets round the email
/// are dropped, and the date is a decimal number that fits in 64 bits.
pub open spec fn person_of(body: Seq<u8>) -> Option<AuthorModel> {
    let parts = split_on(body, 32);
    if parts.len() == 4 {
        match number_value(parts[2], 10) {
            None => None,
            Some(date) => if date <= u64::MAX {
                Some(
                    AuthorModel {
                        name: parts[0],
                        email: trim_end(trim_start(parts[1], 60), 62),
                        date: date as u64,
                        zone: parts[3],
                    },
                )
            } else {
                None
            },
        }
    } else {
        None
    }
}

/// The index of the first line at or after `i` that is no `parent` line.
/// `None` where the lines run out first, or one of them holds no space.
pub open spec fn after_parents(lines: Seq<Seq<u8>>, i: int) -> Option<int>
    decreases lines.len() - i,
{
    if i < 0 || i >= lines.len() {
        None
    } else {
        match split_once(lines[i], 32) {
            None => None,
            Some((head, _)) => if head == parent_key() {
                after_parents(lines, i + 1)
            } else {
                Some(i)
            },
        }
    }
}

/// What follows the first space in each of the lines from `from` up to
/// `to`.
pub open spec fn line_bodies(lines: Seq<Seq<u8>>, from: int, to: int) -> Seq<Seq<u8>> {
    Seq::new(
        (to - from) as nat,
        |k: int| lines[from + k].subrange(
            find_from(lines[from + k], 0, 32).unwrap_or(0) + 1,
            lines[from + k].len() as int,
        ),
    )
}

/// The lines from `from` up to `to`, one after the other with nothing
/// between them.
pub open spec fn joined(lines: Seq<Seq<u8>>, from: int, to: int) -> Seq<u8>
    decreases to - from,
{
    if to <= from {
        Seq::empty()
    } else {
        joined(lines, from, to - 1) + lines[to - 1]
    }
}

/// What line `i` says after the word `key` and a space, where it begins so.
pub open spec fn keyed_line(lines: Seq<Seq<u8>>, i: int, key: Seq<u8>) -> Option<Seq<u8>> {
    if 0 <= i < lines.len() {
        match split_once(lines[i], 32) {
            Some((head, body)) => if head == key {
                Some(body)
            } else {
                None
            },
            None => None,
        }
    } else {
        None
    }
}

/// The commit that the lines describe: a `tree` line, any number of
/// `parent` lines, an `author` line, a `committer` line, one line that is
/// passed over, and the message, whose lines are joined with nothing
/// between them.
pub open spec fn commit_of_lines(lines: Seq<Seq<u8>>) -> Option<CommitModel> {
    match keyed_line(lines, 0, tree_key()) {
        None => None,
        Some(tree) => match after_parents(lines, 1) {
            None => None,
            Some(a) => match keyed_line(lines, a, author_key()) {
                None => None,
                Some(author_body) => match person_of(author_body) {
                    None => None,
                    Some(author) => match keyed_line(lines, a + 1, committer_key()) {
                        None => None,
                        Some(committer_body) => match person_of(committer_body) {
                            None => None,
                            Some(committer) => Some(
                                CommitModel {
                                    tree,
                                    parent: line_bodies(lines, 1, a),
                                    author,
                                    committer,
                                    message: joined(lines, a + 3, lines.len() as int),
                                },
                            ),
                        },
                    },
                },
            },
        },
    }
}

/// The commit that `text` describes (see `commit_of_lines`, over the lines
/// of `text`). `None` where `text` is not UTF-8 or is not laid out so.
pub open spec fn commit_of(text: Seq<u8>) -> Option<CommitModel> {
    if vstd::utf8::valid_utf8(text) {
        commit_of_lines(lines_of(text))
    } else {
        None
    }
}

/// What stands after the first space of `line`, where what stands before
/// it is `key`.
fn line_after(line: &[u8], key: &[u8]) -> (r: Option<Vec<u8>>)
    ensures
        match split_once(line@, 32) {
            Some((head, body)) => if head == key@ {
                r is Some && r->Some_0@ == body
            } else {
                r is None
            },
            None => r is None,
        },
{
    proof {
        lemma_find_from(line@, 0, 32);
    }
    match find_byte(line, 0, 32) {
        None => None,
        Some(i) => {
            if same_bytes(vstd::slice::slice_subrange(line, 0, i), key) {
                Some(copy_range(line, i + 1, line.len()))
            } else {
                None
            }
        },
    }
}

impl Author {
    /// The person that the fields `name <email> date zone` describe (see
    /// `person_of`).
    pub fn from_line(body: &[u8]) -> (r: Option<Author>)
        ensures
            match person_of(body@) {
                Some(m) => r is Some && r->Some_0.model() == m,
                None => r is None,
            },
    {
        let parts: Vec<Vec<u8>> = split_bytes(body, 32);
        assert(views(parts@).len() == parts@.len());
        if parts.len() != 4 {
            return None;
        }
        assert(views(parts@)[0] == parts@[0]@);
        assert(views(parts@)[1] == parts@[1]@);
        assert(views(parts@)[2] == parts@[2]@);
        assert(views(parts@)[3] == parts@[3]@);
        let date: u64 = match parse_number(parts[2].as_slice(), 10, 0xffff_ffff_ffff_ffff) {
            None => {
                return None;
            },
            Some(d) => d,
        };
        let name: Vec<u8> = copy_range(parts[0].as_slice(), 0, parts[0].len());
        let email: Vec<u8> = trim_pair(parts[1].as_slice(), 60, 62);
        let zone: Vec<u8> = copy_range(parts[3].as_slice(), 0, parts[3].len());
        assert(name@ =~= parts@[0]@);
        assert(zone@ =~= parts@[3]@);
        Some(Author { name, email, date, zone })
    }
}

/// Reads a commit body: everything that is left of the stream (see
/// `commit_of`).
///
/// Fails with `Format` where the text is no commit. On success the stream
/// stands at the end of its data; on failure it stays where it was.
pub fn parse(stream: &mut ByteStream) -> (r: Result<Commit, GitError>)
    ensures
        final(stream).data == old(stream).data,
        match commit_of(old(stream).rest()) {
            Some(m) => r is Ok && r->Ok_0.model() == m && final(stream).rest().len() == 0
                && final(stream).pos >= old(stream).pos,
            None => r is Err && r->Err_0 == GitError::Format && final(stream).pos == old(
                stream,
            ).pos,
        },
{
    let len: usize = stream.data.len();
    let from: usize = if stream.pos <= len {
        stream.pos
    } else {
        len
    };
    let content: &[u8] = vstd::slice::slice_subrange(stream.data, from, len);
    assert(content@ =~= old(stream).rest());
    if !is_utf8(content) {
        return Err(GitError::Format);
    }
    let lines: Vec<Vec<u8>> = split_lines(content);
    let ghost ls = views(lines@);
    assert(ls.len() == lines@.len());
    assert(forall|i: int| 0 <= i < ls.len() ==> ls[i] == #[trigger] lines@[i]@);
    if lines.len() == 0 {
        return Err(GitError::Format);
    }
    let tree_word: &str = "tree";
    let parent_word: &str = "parent";
    let author_word: &str = "author";
    let committer_word: &str = "committer";
    let tree: Vec<u8> = match line_after(lines[0].as_slice(), tree_word.as_bytes()) {
        None => {
            return Err(GitError::Format);
        },
        Some(t) => t,
    };
    let mut parent: Vec<Vec<u8>> = Vec::new();
    let mut i: usize = 1;
    loop
        invariant
            1 <= i <= lines@.len(),
            ls == views(lines@),
            ls.len() == lines@.len(),
            forall|k: int| 0 <= k < ls.len() ==> ls[k] == #[trigger] lines@[k]@,
            parent_word.spec_bytes() == parent_key(),
            after_parents(ls, 1) == after_parents(ls, i as int),
            after_parents(ls, 1) is None ==> commit_of(old(stream).rest()) is None,
            views(parent@) == line_bodies(ls, 1, i as int),
            stream.pos == old(stream).pos,
            stream.data == old(stream).data,
        ensures
            1 <= i < lines@.len(),
            after_parents(ls, 1) == Some(i as int),
            views(parent@) == line_bodies(ls, 1, i as int),
            stream.pos == old(stream).pos,
            stream.data == old(stream).data,
        decreases lines@.len() - i,
    {
        if i >= lines.len() {
            return Err(GitError::Format);
        }
        proof {
            lemma_find_from(ls[i as int], 0, 32);
        }
        match find_byte(lines[i].as_slice(), 0, 32) {
            None => {
                return Err(GitError::Format);
            },
            Some(sp) => {
                let line: &[u8] = lines[i].as_slice();
                if !same_bytes(vstd::slice::slice_subrange(line, 0, sp), parent_word.as_bytes()) {
                    break ;
                }
                let ghost before = views(parent@);
                let body: Vec<u8> = copy_range(line, sp + 1, line.len());
                parent.push(body);
                assert(views(parent@) =~= line_bodies(ls, 1, i + 1)) by {
                    assert(views(parent@) =~= before.push(body@));
                    assert forall|k: int| 0 <= k < i implies views(parent@)[k] == line_bodies(
                        ls,
                        1,
                        i + 1,
                    )[k] by {
                        if k < i - 1 {
                            assert(before[k] == line_bodies(ls, 1, i as int)[k]);
                        }
                    }
                }
                i += 1;
            },
        }
    }
    let author: Author = match line_after(lines[i].as_slice(), author_word.as_bytes()) {
        None => {
            return Err(GitError::Format);
        },
        Some(body) => match Author::from_line(body.as_slice()) {
            None => {
                return Err(GitError::Format);
            },
            Some(a) => a,
        },
    };
    if i + 1 >= lines.len() {
        return Err(GitError::Format);
    }
    let committer: Author = match line_after(lines[i + 1].as_slice(), committer_word.as_bytes()) {
        None => {
            return Err(GitError::Format);
        },
        Some(body) => match Author::from_line(body.as_slice()) {
            None => {
                return Err(GitError::Format);
            },
            Some(a) => a,
        },
    };
    let mut message: Vec<u8> = Vec::new();
    let first: usize = if lines.len() - i >= 3 {
        i + 3
    } else {
        lines.len()
    };
    let mut k: usize = first;
    while k < lines.len()
        invariant
            first <= k <= lines@.len(),
            ls == views(lines@),
            ls.len() == lines@.len(),
            forall|j: int| 0 <= j < ls.len() ==> ls[j] == #[trigger] lines@[j]@,
            message@ == joined(ls, first as int, k as int),
        decreases lines@.len() - k,
    {
        append_all(&mut message, lines[k].as_slice());
        k += 1;
    }
    assert(joined(ls, i + 3, ls.len() as int) == joined(ls, first as int, ls.len() as int));
    stream.pos = if stream.pos <= len {
        len
    } else {
        stream.pos
    };
    assert(stream.rest() =~= Seq::<u8>::empty());
    Ok(Commit { tree, parent, author, committer, message })
}

} // verus!

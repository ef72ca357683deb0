use vstd::prelude::*;
use vstd::string::StringSliceAdditionalSpecFns;
use crate::bytes::append_all;

verus! {

/// What a fresh repository holds: the directories to create, and the path
/// and the content of the file that names the current branch.
#[derive(Debug)]
pub struct Layout {
    pub directories: Vec<Vec<u8>>,
    pub head_path: Vec<u8>,
    pub head_content: Vec<u8>,
}

/// The layout of a fresh repository: the directories `.git/objects` and
/// `.git/refs`, and the file `.git/HEAD`, which points at the branch
/// `main`.
pub fn invoke() -> (r: Layout)
    ensures
        r.directories@.len() == 2,
        r.directories@[0]@ == ".git/objects".spec_bytes(),
        r.directories@[1]@ == ".git/refs".spec_bytes(),
        r.head_path@ == ".git/HEAD".spec_bytes(),
        r.head_content@ == "ref: refs/heads/main\n".spec_bytes(),
{
    let objects: &str = ".git/objects";
    let refs: &str = ".git/refs";
    let head: &str = ".git/HEAD";
    let content: &str = "ref: refs/heads/main\n";
    let mut directories: Vec<Vec<u8>> = Vec::new();
    let mut first: Vec<u8> = Vec::new();
    append_all(&mut first, objects.as_bytes());
    let mut second: Vec<u8> = Vec::new();
    append_all(&mut second, refs.as_bytes());
    directories.push(first);
    directories.push(second);
    let mut head_path: Vec<u8> = Vec::new();
    append_all(&mut head_path, head.as_bytes());
    let mut head_content: Vec<u8> = Vec::new();
    append_all(&mut head_content, content.as_bytes());
    Layout { directories, head_path, head_content }
}

} // verus!

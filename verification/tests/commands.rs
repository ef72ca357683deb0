use std::io::Read;
use std::io::Write;

use gitcore::commands::{cat_file, commit_tree, git_init, hash_object, ls_tree, write_tree};
use gitcore::error::GitError;
use gitcore::git::objects::Object;
use gitcore::objects;
use gitcore::objects::Kind;
use sha1::Digest;

fn unzlib(data: &[u8]) -> Vec<u8> {
    let mut out = Vec::new();
    flate2::read::ZlibDecoder::new(data).read_to_end(&mut out).unwrap();
    out
}

fn sha1_of(data: &[u8]) -> [u8; 20] {
    let mut h = sha1::Sha1::new();
    h.update(data);
    h.finalize().into()
}

#[test]
fn fresh_repository() {
    let layout = git_init::invoke();
    assert_eq!(layout.directories, vec![b".git/objects".to_vec(), b".git/refs".to_vec()]);
    assert_eq!(layout.head_path, b".git/HEAD".to_vec());
    assert_eq!(layout.head_content, b"ref: refs/heads/main\n".to_vec());
}

#[test]
fn hash_object_with_and_without_writing() {
    let hashed = hash_object::invoke(b"hello\n", hash_object::Options { write: false }).unwrap();
    assert_eq!(hashed.hash, b"ce013625030ba8dba906f756967f9e9ca394464a".to_vec());
    assert!(hashed.compressed.is_none());
    let hashed = hash_object::invoke(b"hello\n", hash_object::Options { write: true }).unwrap();
    assert_eq!(hashed.hash, b"ce013625030ba8dba906f756967f9e9ca394464a".to_vec());
    assert_eq!(unzlib(&hashed.compressed.unwrap()), b"blob 6\0hello\n".to_vec());
    assert!(matches!(
        hash_object::invoke(&[0xff, 0xfe], hash_object::Options { write: false }),
        Err(GitError::Format)
    ));
    assert_eq!(hash_object::file_bytes(None), Err(GitError::Io));
    assert_eq!(hash_object::file_bytes(Some(vec![1, 2])), Ok(vec![1, 2]));
}

#[test]
fn commit_of_a_tree() {
    let options = commit_tree::Options { message: b"first".to_vec(), parent: None };
    let text = commit_tree::content(b"abc", &options, 1717431836, b"+0700");
    assert_eq!(
        String::from_utf8(text.clone()).unwrap(),
        "tree abc\nauthor code <crafter@your.git> 1717431836 +0700\n\
         committer code <crafter@your.git> 1717431836 +0700\n\nfirst\n"
    );
    let made = commit_tree::invoke(b"abc", options, 1717431836, b"+0700").unwrap();
    let mut stored = format!("commit {}\0", text.len()).into_bytes();
    stored.extend_from_slice(&text);
    assert_eq!(made.hash, hex::encode(sha1_of(&stored)).into_bytes());
    assert_eq!(unzlib(&made.compressed), stored);

    let options = commit_tree::Options { message: b"m".to_vec(), parent: Some(b"def".to_vec()) };
    let text = commit_tree::content(b"abc", &options, 0, b"Z");
    assert_eq!(
        String::from_utf8(text).unwrap(),
        "tree abc\nparent def\nauthor code <crafter@your.git> 0 Z\n\
         committer code <crafter@your.git> 0 Z\n\nm\n"
    );
}

#[test]
fn tree_of_a_directory() {
    let file = write_tree::blob(b"hello\n");
    assert_eq!(file, b"blob 6\0hello\n".to_vec());
    let entries = vec![
        write_tree::Tree { mode: 0o100644, name: b"a.txt".to_vec(), content: file.clone() },
        write_tree::Tree { mode: 0o40755, name: b".git".to_vec(), content: b"tree 0\0".to_vec() },
        write_tree::Tree { mode: 0o40755, name: b"sub".to_vec(), content: b"tree 0\0".to_vec() },
    ];
    let stored = write_tree::create_tree(&entries);
    let mut body = b"100644 a.txt\0".to_vec();
    body.extend_from_slice(&sha1_of(&file));
    body.extend_from_slice(b"40755 sub\0");
    body.extend_from_slice(&sha1_of(b"tree 0\0"));
    let mut expected = format!("tree {}\0", body.len()).into_bytes();
    expected.extend_from_slice(&body);
    assert_eq!(stored, expected);
    assert_eq!(write_tree::create_tree(&vec![]), b"tree 0\0".to_vec());

    let made = write_tree::invoke(&stored).unwrap();
    assert_eq!(made.hash, hex::encode(sha1_of(&stored)).into_bytes());
    assert_eq!(unzlib(&made.compressed), stored);
}

fn listed_tree() -> objects::Object {
    let mut content = b"40000 test.txt\0".to_vec();
    content.extend_from_slice(&[0xac; 20]);
    content.extend_from_slice(b"100644 README.MD\0");
    content.extend_from_slice(&[0x01; 20]);
    objects::Object { kind: Kind::Tree, expected_size: content.len(), content }
}

#[test]
fn list_a_tree() {
    let tree = listed_tree();
    assert_eq!(
        ls_tree::invoke(&tree, ls_tree::Options { name_only: true }),
        Ok(b"test.txt\nREADME.MD\n".to_vec())
    );
    assert_eq!(
        String::from_utf8(ls_tree::invoke(&tree, ls_tree::Options { name_only: false }).unwrap())
            .unwrap(),
        "040000 kind acacacacacacacacacacacacacacacacacacacac test.txt\n\
         100644 kind 0101010101010101010101010101010101010101 README.MD\n"
    );
}

#[test]
fn list_stops_at_the_declared_size() {
    let mut tree = listed_tree();
    tree.expected_size = 35;
    assert_eq!(
        ls_tree::invoke(&tree, ls_tree::Options { name_only: true }),
        Ok(b"test.txt\n".to_vec())
    );
}

#[test]
fn list_errors() {
    let mut tree = listed_tree();
    tree.kind = Kind::Blob;
    assert_eq!(ls_tree::invoke(&tree, ls_tree::Options { name_only: true }), Err(GitError::Format));
    let mut tree = listed_tree();
    tree.expected_size += 1;
    assert_eq!(ls_tree::invoke(&tree, ls_tree::Options { name_only: true }), Err(GitError::Format));
    let empty = objects::Object { kind: Kind::Tree, expected_size: 0, content: vec![] };
    assert_eq!(ls_tree::invoke(&empty, ls_tree::Options { name_only: true }), Err(GitError::Format));
}

#[test]
fn cat_file_needs_pretty() {
    let mut e = flate2::write::ZlibEncoder::new(Vec::new(), flate2::Compression::default());
    e.write_all(b"blob 2\0hi").unwrap();
    let object = Object::read_from_hash(&e.finish().unwrap()).unwrap();
    assert_eq!(
        cat_file::invoke(&object, &vec![], cat_file::Options { pretty: true }),
        Ok(b"hi".to_vec())
    );
    assert_eq!(
        cat_file::invoke(&object, &vec![], cat_file::Options { pretty: false }),
        Err(GitError::NotFound)
    );
}

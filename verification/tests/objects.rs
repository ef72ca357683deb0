use std::io::Write;

use gitcore::error::GitError;
use gitcore::git::objects::blob;
use gitcore::git::objects::commit;
use gitcore::git::objects::commit::Author;
use gitcore::git::objects::tree;
use gitcore::git::objects::tree::TreeItem;
use gitcore::git::objects::Object;
use gitcore::git::packfile::ObjType;
use gitcore::objects;
use gitcore::objects::Kind;
use gitcore::stream::ByteStream;

const COMMIT: &str = "tree 11144a9d4ce9ddea810a3d8b74abbd912e5028b1
parent e1b03b60755972a80dfa8cb02326087d8b38b852
author user <email1994@domain.com> 1717431836 +0700
committer user <email1994@domain.com> 1717431836 +0700

test: Tree parsing
";

fn zlib(data: &[u8]) -> Vec<u8> {
    let mut e = flate2::write::ZlibEncoder::new(Vec::new(), flate2::Compression::default());
    e.write_all(data).unwrap();
    e.finish().unwrap()
}

fn two_entries() -> Vec<u8> {
    let mut data = Vec::new();
    data.append(&mut Vec::from("40000 test.txt\0"));
    data.append(&mut hex::decode("aca49a24ef448129fc42e2fb0de2f95f0096d09c").unwrap());
    data.append(&mut Vec::from("100644 README.MD\0"));
    data.append(&mut hex::decode("aca49a24ef448129fc42e2fb0de2f95f0096d09c").unwrap());
    data
}

#[test]
fn commit_parse_with_all() {
    let mut stream = ByteStream::new(COMMIT.as_bytes());
    let commit = commit::parse(&mut stream);

    assert!(commit.is_ok());

    let commit = commit.unwrap();
    assert_eq!(commit.tree, b"11144a9d4ce9ddea810a3d8b74abbd912e5028b1".to_vec());
    assert_eq!(commit.parent[0], b"e1b03b60755972a80dfa8cb02326087d8b38b852".to_vec());
    assert_eq!(commit.message, b"test: Tree parsing".to_vec());
    assert_eq!(
        commit.author,
        Author {
            name: b"user".to_vec(),
            email: b"email1994@domain.com".to_vec(),
            date: 1717431836,
            zone: b"+0700".to_vec()
        }
    );
}

#[test]
fn parse_tree_valid() {
    let data = two_entries();
    let mut reader = ByteStream::new(data.as_slice());

    let result = tree::take(&mut reader).unwrap();
    assert!(result.is_some());
    let result = result.unwrap();
    assert_eq!(format!("{:o}", result.mode), "40000");
    assert_eq!(result.name, b"test.txt".to_vec());
    let _ = tree::take(&mut reader);
    let result = tree::take(&mut reader).unwrap();
    assert!(result.is_none());
}

#[test]
fn pares_correct_size() {
    let data = two_entries();
    let mut reader = ByteStream::new(data.as_slice());

    let result = tree::parse(&mut reader);
    assert!(result.is_ok());
    assert_eq!(result.unwrap().len(), 2);
}

#[test]
fn commit_fields_beyond_the_first() {
    let mut stream = ByteStream::new(COMMIT.as_bytes());
    let commit = commit::parse(&mut stream).unwrap();
    assert_eq!(commit.parent.len(), 1);
    assert_eq!(commit.committer, commit.author);
    assert_eq!(stream.remaining(), 0);
}

#[test]
fn commit_without_parent_and_with_two() {
    let text = "tree abc\nauthor a <<b>> 5 z\ncommitter c <d> +7 y\n\nline one\nline two\n";
    let mut stream = ByteStream::new(text.as_bytes());
    let commit = commit::parse(&mut stream).unwrap();
    assert_eq!(commit.tree, b"abc".to_vec());
    assert!(commit.parent.is_empty());
    assert_eq!(commit.author.email, b"b".to_vec());
    assert_eq!(commit.committer.date, 7);
    // the lines of the message are joined with nothing between them
    assert_eq!(commit.message, b"line oneline two".to_vec());

    let text = "tree abc\r\nparent pa\nparent pb\nauthor a b 5 z\ncommitter c d 6 y\nskipped\nm";
    let mut stream = ByteStream::new(text.as_bytes());
    let commit = commit::parse(&mut stream).unwrap();
    assert_eq!(commit.tree, b"abc".to_vec());
    assert_eq!(commit.parent, vec![b"pa".to_vec(), b"pb".to_vec()]);
    assert_eq!(commit.message, b"m".to_vec());
}

#[test]
fn commit_that_is_none() {
    for text in [
        "",
        "tree\n",
        "tree abc\n",
        "tree abc\nauthor a b 5 z\n",
        "trie abc\nauthor a b 5 z\ncommitter c d 6 y\n",
        "tree abc\nauthor a b c 5 z\ncommitter c d 6 y\n",
        "tree abc\nauthor a b x z\ncommitter c d 6 y\n",
        "tree abc\nauthor a b 5 z\ncommitter c d 18446744073709551616 y\n",
        "tree abc\nparent\nauthor a b 5 z\ncommitter c d 6 y\n",
        "tree abc\nauthor a b 5 z\nauthor c d 6 y\n",
    ] {
        let mut stream = ByteStream::new(text.as_bytes());
        assert!(matches!(commit::parse(&mut stream), Err(GitError::Format)));
        assert_eq!(stream.stream_position(), 0);
    }
    let bytes = b"tree abc\nauthor a\xff b 5 z\ncommitter c d 6 y\n";
    let mut stream = ByteStream::new(bytes.as_slice());
    assert!(matches!(commit::parse(&mut stream), Err(GitError::Format)));
}

#[test]
fn author_from_line() {
    let a = Author::from_line(b"user <<email@x>>> 18446744073709551615 +0700").unwrap();
    assert_eq!(a.name, b"user".to_vec());
    assert_eq!(a.email, b"email@x".to_vec());
    assert_eq!(a.date, u64::MAX);
    assert_eq!(a.zone, b"+0700".to_vec());
    assert!(Author::from_line(b"first last <e> 1 z").is_none());
    assert!(Author::from_line(b"user <e> 1").is_none());
    assert!(Author::from_line(b"user <e> + z").is_none());
    assert!(Author::from_line(b"user <e>  z").is_none());
}

#[test]
fn tree_entry_fields() {
    let data = two_entries();
    let mut reader = ByteStream::new(data.as_slice());
    let items = tree::parse(&mut reader).unwrap();
    assert_eq!(items[0].mode, 0o40000);
    assert_eq!(items[1].mode, 0o100644);
    assert_eq!(items[1].name, b"README.MD".to_vec());
    assert_eq!(
        items[1].hash.to_vec(),
        hex::decode("aca49a24ef448129fc42e2fb0de2f95f0096d09c").unwrap()
    );
    assert_eq!(reader.remaining(), 0);
}

#[test]
fn tree_round_trip() {
    let data = two_entries();
    let mut reader = ByteStream::new(data.as_slice());
    let items = tree::parse(&mut reader).unwrap();
    assert_eq!(tree::encode(&items), data);
    assert_eq!(
        objects::hash_object(ObjType::Tree, &tree::encode(&items)),
        objects::hash_object(ObjType::Tree, &data)
    );
}

#[test]
fn tree_with_a_padded_mode_reads_but_is_written_plain() {
    let mut data = Vec::from("040000 dir\0");
    data.extend_from_slice(&[7u8; 20]);
    let mut reader = ByteStream::new(data.as_slice());
    let items = tree::parse(&mut reader).unwrap();
    assert_eq!(items[0].mode, 0o40000);
    let mut plain = Vec::from("40000 dir\0");
    plain.extend_from_slice(&[7u8; 20]);
    assert_eq!(tree::encode(&items), plain);
}

#[test]
fn tree_encode_of_items() {
    let items = vec![
        TreeItem { mode: 0, name: b"a b".to_vec(), hash: [1; 20] },
        TreeItem { mode: 0o100755, name: b"run".to_vec(), hash: [2; 20] },
    ];
    let mut expected = Vec::from("0 a b\0");
    expected.extend_from_slice(&[1u8; 20]);
    expected.extend_from_slice(b"100755 run\0");
    expected.extend_from_slice(&[2u8; 20]);
    let written = tree::encode(&items);
    assert_eq!(written, expected);
    let mut reader = ByteStream::new(written.as_slice());
    let back = tree::parse(&mut reader).unwrap();
    assert_eq!(back.len(), 2);
    assert_eq!(back[0].name, b"a b".to_vec());
    assert_eq!(back[0].mode, 0);
}

#[test]
fn tree_that_is_none() {
    let mut no_space = Vec::from("100644README\0");
    no_space.extend_from_slice(&[0u8; 20]);
    let mut bad_mode = Vec::from("100648 a\0");
    bad_mode.extend_from_slice(&[0u8; 20]);
    let mut big_mode = Vec::from("77777777777 a\0");
    big_mode.extend_from_slice(&[0u8; 20]);
    let mut short_hash = Vec::from("100644 a\0");
    short_hash.extend_from_slice(&[0u8; 19]);
    let mut bad_text = "100644 a\u{e9}".as_bytes()[..9].to_vec();
    bad_text.push(0);
    bad_text.extend_from_slice(&[0u8; 20]);
    let no_zero = Vec::from("100644 a");
    for data in [no_space, bad_mode, big_mode, short_hash, bad_text, no_zero] {
        let mut reader = ByteStream::new(data.as_slice());
        assert!(matches!(tree::take(&mut reader), Err(GitError::Format)));
        assert_eq!(reader.stream_position(), 0);
        assert!(matches!(tree::parse(&mut reader), Err(GitError::Format)));
    }
    let empty: Vec<u8> = Vec::new();
    let mut reader = ByteStream::new(empty.as_slice());
    assert!(tree::parse(&mut reader).unwrap().is_empty());
}

#[test]
fn blob_is_the_rest_of_the_stream() {
    let data = b"xxhello".to_vec();
    let mut reader = ByteStream::new(data.as_slice());
    reader.seek(2);
    assert_eq!(blob::parse(&mut reader).unwrap().0, b"hello".to_vec());
    assert_eq!(reader.stream_position(), 7);
    reader.seek(20);
    assert!(blob::parse(&mut reader).unwrap().0.is_empty());
    assert_eq!(reader.stream_position(), 20);
}

#[test]
fn hash_of_a_known_blob() {
    let hash = objects::hash_object(ObjType::Blob, b"hello\n");
    assert_eq!(hex::encode(hash), "ce013625030ba8dba906f756967f9e9ca394464a");
    let hash = objects::hash_object(ObjType::Blob, b"");
    assert_eq!(hex::encode(hash), "e69de29bb2d1d6434b8b29ae775ad8c2e48c5391");
    assert_eq!(objects::store_bytes(ObjType::Commit, b"0123456789ab"), b"commit 12\x000123456789ab");
}

#[test]
fn loose_object_round_trip() {
    let o = objects::encode_loose(Kind::Blob, b"hello\n").unwrap();
    assert_eq!(o.hash, b"ce013625030ba8dba906f756967f9e9ca394464a".to_vec());
    assert_ne!(o.compressed, b"blob 6\0hello\n".to_vec());
    let read = objects::Object::read(&o.compressed).unwrap();
    assert_eq!(read.kind, Kind::Blob);
    assert_eq!(read.expected_size, 6);
    assert_eq!(read.content, b"hello\n".to_vec());
}

#[test]
fn loose_object_content_stops_at_the_declared_size() {
    let read = objects::Object::read(&zlib(b"tree 3\0abcdef")).unwrap();
    assert_eq!(read.kind, Kind::Tree);
    assert_eq!(read.expected_size, 3);
    assert_eq!(read.content, b"abc".to_vec());
    let read = objects::Object::read(&zlib(b"commit 30\0abcdef")).unwrap();
    assert_eq!(read.expected_size, 30);
    assert_eq!(read.content, b"abcdef".to_vec());
}

#[test]
fn loose_object_that_is_none() {
    for stored in [
        b"blob 6".to_vec(),
        b"blob6\0hello\n".to_vec(),
        b"tag 6\0hello\n".to_vec(),
        b"blob six\0hello\n".to_vec(),
        b"blob \0hello\n".to_vec(),
    ] {
        assert!(matches!(objects::Object::read(&zlib(&stored)), Err(GitError::Format)));
        assert!(matches!(Object::read_from_hash(&zlib(&stored)), Err(GitError::Format)));
    }
    assert!(matches!(objects::Object::read(b"no zlib"), Err(GitError::Format)));
}

#[test]
fn object_paths() {
    assert_eq!(
        objects::object_path(b"ce013625030ba8dba906f756967f9e9ca394464a"),
        Ok(b".git/objects/ce/013625030ba8dba906f756967f9e9ca394464a".to_vec())
    );
    assert_eq!(objects::object_path(b"ab"), Ok(b".git/objects/ab/".to_vec()));
    assert_eq!(objects::object_path(b"a"), Err(GitError::Format));
}

#[test]
fn kinds_by_name() {
    assert_eq!(Kind::from_name(b"blob"), Some(Kind::Blob));
    assert_eq!(Kind::from_name(b"tree"), Some(Kind::Tree));
    assert_eq!(Kind::from_name(b"commit"), Some(Kind::Commit));
    assert_eq!(Kind::from_name(b"tag"), None);
    assert_eq!(Kind::Commit.name(), b"commit".to_vec());
    assert_eq!(Kind::Tree.obj_type(), ObjType::Tree);
}

#[test]
fn decode_and_show_objects() {
    let o = Object::read_from_hash(&zlib(b"blob 3\0abcdef")).unwrap();
    assert_eq!(o.cat(&vec![]), Ok(b"abcdef".to_vec()));

    let mut stored = b"tree 0\0".to_vec();
    stored.extend_from_slice(&two_entries());
    let o = Object::read_from_hash(&zlib(&stored)).unwrap();
    let shown = o.cat(&vec![Kind::Tree, Kind::Blob]).unwrap();
    assert_eq!(
        String::from_utf8(shown).unwrap(),
        "040000 tree aca49a24ef448129fc42e2fb0de2f95f0096d09c test.txt\n\
         100644 blob aca49a24ef448129fc42e2fb0de2f95f0096d09c README.MD\n"
    );
    assert_eq!(o.cat(&vec![Kind::Tree]), Err(GitError::Format));

    let mut stored = b"commit 1\0".to_vec();
    stored.extend_from_slice(COMMIT.as_bytes());
    let o = Object::read_from_hash(&zlib(&stored)).unwrap();
    assert_eq!(
        String::from_utf8(o.cat(&vec![]).unwrap()).unwrap(),
        "tree 11144a9d4ce9ddea810a3d8b74abbd912e5028b1\n\
         parent e1b03b60755972a80dfa8cb02326087d8b38b852\n\
         author user <email1994@domain.com> 1717431836 +0700\n\
         committer user <email1994@domain.com> 1717431836 +0700\n"
    );
}

#[test]
fn loose_object_from_what_the_encoder_gave() {
    let made = objects::LooseObject::from_deflated(b"abcd".to_vec(), Some(vec![1, 2, 3])).unwrap();
    assert_eq!(made.hash, b"abcd".to_vec());
    assert_eq!(made.compressed, vec![1, 2, 3]);
    assert!(objects::LooseObject::from_deflated(b"abcd".to_vec(), None).is_none());
}

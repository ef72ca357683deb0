use std::io::Write;

use gitcore::commands::clone::{
    checkout, find_object, index_path, index_rows, pack_path, plan_clone, ref_content, ref_path,
    unpack, CheckoutStep, PackEntry,
};
use gitcore::error::GitError;
use gitcore::git::packfile::ObjType;
use gitcore::git::{get_object, offset_decode, packfile_parse, PackfileOBJ};
use sha1::Digest;

fn zlib(data: &[u8]) -> Vec<u8> {
    let mut e = flate2::write::ZlibEncoder::new(Vec::new(), flate2::Compression::default());
    e.write_all(data).unwrap();
    e.finish().unwrap()
}

fn sha1_of(data: &[u8]) -> [u8; 20] {
    let mut h = sha1::Sha1::new();
    h.update(data);
    h.finalize().into()
}

fn object_id(kind: &str, body: &[u8]) -> [u8; 20] {
    let mut stored = format!("{} {}\0", kind, body.len()).into_bytes();
    stored.extend_from_slice(body);
    sha1_of(&stored)
}

// a CRC-32 that looks at one bit at a time
fn crc32_of(data: &[u8]) -> u32 {
    let mut crc: u32 = 0xffff_ffff;
    for &b in data {
        crc ^= b as u32;
        for _ in 0..8 {
            crc = if crc & 1 == 1 { (crc >> 1) ^ 0xedb8_8320 } else { crc >> 1 };
        }
    }
    !crc
}

fn entry_head(kind: u8, size: usize) -> Vec<u8> {
    let mut out = Vec::new();
    let mut first = (kind << 4) | (size & 0x0f) as u8;
    let mut rest = size >> 4;
    if rest > 0 {
        first |= 0x80;
    }
    out.push(first);
    while rest > 0 {
        let mut b = (rest & 0x7f) as u8;
        rest >>= 7;
        if rest > 0 {
            b |= 0x80;
        }
        out.push(b);
    }
    out
}

fn pack_of(entries: &[(u8, Vec<u8>)]) -> (Vec<u8>, Vec<usize>) {
    let mut pack = b"PACK\x00\x00\x00\x02".to_vec();
    pack.extend_from_slice(&(entries.len() as u32).to_be_bytes());
    let mut bounds = Vec::new();
    for (kind, body) in entries {
        bounds.push(pack.len());
        pack.extend_from_slice(&entry_head(*kind, body.len()));
        pack.extend_from_slice(&zlib(body));
    }
    bounds.push(pack.len());
    let trailer = sha1_of(&pack);
    pack.extend_from_slice(&trailer);
    (pack, bounds)
}

fn commit_text(tree: &[u8; 20]) -> Vec<u8> {
    format!(
        "tree {}\nauthor user <u@x> 1 +0000\ncommitter user <u@x> 1 +0000\n\nfirst\n",
        hex::encode(tree)
    )
    .into_bytes()
}

struct Small {
    pack: Vec<u8>,
    bounds: Vec<usize>,
    commit: [u8; 20],
    tree: [u8; 20],
    blob: [u8; 20],
}

fn small_pack() -> Small {
    let blob_body = b"hello\n".to_vec();
    let blob = object_id("blob", &blob_body);
    let mut tree_body = b"100644 a.txt\0".to_vec();
    tree_body.extend_from_slice(&blob);
    let tree = object_id("tree", &tree_body);
    let commit_body = commit_text(&tree);
    let commit = object_id("commit", &commit_body);
    let (pack, bounds) = pack_of(&[(1, commit_body), (2, tree_body), (3, blob_body)]);
    Small { pack, bounds, commit, tree, blob }
}

fn pkt(payload: &[u8]) -> Vec<u8> {
    let mut out = format!("{:04x}", payload.len() + 4).into_bytes();
    out.extend_from_slice(payload);
    out
}

fn answer_with(pack: &[u8]) -> Vec<u8> {
    let mut response = pkt(b"NAK\n");
    for chunk in pack.chunks(50) {
        let mut payload = vec![1u8];
        payload.extend_from_slice(chunk);
        response.extend_from_slice(&pkt(&payload));
        response.extend_from_slice(&pkt(b"\x02working\n"));
    }
    response.extend_from_slice(b"00000000");
    response
}

#[test]
fn unpack_three_objects() {
    let small = small_pack();
    let unpacked = unpack(&small.pack).unwrap();
    assert_eq!(unpacked.entries.len(), 3);
    assert_eq!(unpacked.trailer.to_vec(), small.pack[small.pack.len() - 20..].to_vec());
    let kinds: Vec<ObjType> = unpacked.entries.iter().map(|e| e.kind).collect();
    assert_eq!(kinds, vec![ObjType::Commit, ObjType::Tree, ObjType::Blob]);
    for (i, e) in unpacked.entries.iter().enumerate() {
        assert_eq!(e.offset, small.bounds[i]);
        assert_eq!(e.crc32, crc32_of(&small.pack[small.bounds[i]..small.bounds[i + 1]]));
    }
    assert_eq!(small.bounds[0], 12);
    assert_eq!(small.bounds[3], small.pack.len() - 20);
    assert_eq!(unpacked.entries[0].hash, small.commit);
    assert_eq!(unpacked.entries[1].hash, small.tree);
    assert_eq!(unpacked.entries[2].hash, small.blob);
    assert_eq!(unpacked.entries[2].content, b"hello\n".to_vec());
    assert_eq!(
        hex::encode(unpacked.entries[2].hash),
        hex::encode(sha1_of(b"blob 6\0hello\n"))
    );
}

#[test]
fn consumed_spans_rebuild_the_pack() {
    let small = small_pack();
    let unpacked = unpack(&small.pack).unwrap();
    let mut rebuilt = small.pack[..12].to_vec();
    for i in 0..unpacked.entries.len() {
        let start = unpacked.entries[i].offset;
        let end = if i + 1 < unpacked.entries.len() {
            unpacked.entries[i + 1].offset
        } else {
            small.pack.len() - 20
        };
        rebuilt.extend_from_slice(&small.pack[start..end]);
    }
    assert_eq!(rebuilt, small.pack[..small.pack.len() - 20].to_vec());
}

#[test]
fn unpack_errors() {
    let small = small_pack();
    // the checksum is cut short, or something follows it
    let cut = &small.pack[..small.pack.len() - 1];
    assert!(matches!(unpack(cut), Err(GitError::Transport)));
    let mut more = small.pack.clone();
    more.push(0);
    assert!(matches!(unpack(&more), Err(GitError::Format)));
    // an entry is missing
    let mut counted = small.pack.clone();
    counted[11] = 4;
    assert!(unpack(&counted).is_err());
    // no pack at all
    assert!(matches!(unpack(b""), Err(GitError::Transport)));
    assert!(matches!(unpack(b"JUNK\x00\x00\x00\x02\x00\x00\x00\x01"), Err(GitError::Format)));
    // a delta against a named object
    let (pack, _) = pack_of(&[(7, vec![0u8; 30])]);
    assert!(matches!(unpack(&pack), Err(GitError::NotFound)));
}

#[test]
fn unpack_resolves_deltas_through_the_cache() {
    let base = b"ABCDEFGH".to_vec();
    let mut pack = b"PACK\x00\x00\x00\x02\x00\x00\x00\x03".to_vec();
    let first = pack.len();
    pack.extend_from_slice(&entry_head(3, base.len()));
    pack.extend_from_slice(&zlib(&base));
    let second = pack.len();
    let delta = vec![8, 7, 0x90, 4, 3, b'X', b'Y', b'Z'];
    pack.extend_from_slice(&entry_head(6, delta.len()));
    pack.push((second - first) as u8);
    pack.extend_from_slice(&zlib(&delta));
    let third = pack.len();
    let delta = vec![7, 4, 0x91, 4, 3, 1, b'!'];
    pack.extend_from_slice(&entry_head(6, delta.len()));
    pack.push((third - second) as u8);
    pack.extend_from_slice(&zlib(&delta));
    let trailer = sha1_of(&pack);
    pack.extend_from_slice(&trailer);

    let unpacked = unpack(&pack).unwrap();
    assert_eq!(unpacked.entries[1].content, b"ABCDXYZ".to_vec());
    assert_eq!(unpacked.entries[2].content, b"XYZ!".to_vec());
    assert_eq!(unpacked.entries[2].kind, ObjType::Blob);
    assert_eq!(unpacked.entries[2].hash, object_id("blob", b"XYZ!"));
    assert_eq!(unpacked.entries[2].offset, third);
}

#[test]
fn clone_of_a_small_repository() {
    let small = small_pack();
    let plan = plan_clone(&small.commit, &answer_with(&small.pack), 100).unwrap();
    assert_eq!(plan.pack, small.pack);
    assert!(plan.progress.starts_with(b"working\n"));
    assert_eq!(plan.steps.len(), 2);
    match &plan.steps[0] {
        CheckoutStep::CreateDir { path } => assert_eq!(path, &b".".to_vec()),
        _ => panic!("the first step creates the directory"),
    }
    match &plan.steps[1] {
        CheckoutStep::WriteFile { path, mode, object } => {
            assert_eq!(path, &b"./a.txt".to_vec());
            assert_eq!(*mode, 0o100644);
            assert_eq!(*mode & 0o777, 0o644);
            assert_eq!(plan.unpacked.entries[*object].content, b"hello\n".to_vec());
            assert_eq!(plan.unpacked.entries[*object].hash, sha1_of(b"blob 6\0hello\n"));
        }
        _ => panic!("the second step writes the file"),
    }
    assert_eq!(plan.index.entries.len(), 3);
    assert_eq!(plan.index.pack_checksum, plan.unpacked.trailer);
}

#[test]
fn clone_errors() {
    let small = small_pack();
    // the head is not in the pack
    assert!(matches!(
        plan_clone(&[9; 20], &answer_with(&small.pack), 100),
        Err(GitError::NotFound)
    ));
    // the head is no commit
    assert!(matches!(
        plan_clone(&small.blob, &answer_with(&small.pack), 100),
        Err(GitError::Format)
    ));
    // the answer is cut short
    let answer = answer_with(&small.pack);
    assert!(matches!(
        plan_clone(&small.commit, &answer[..answer.len() - 4], 100),
        Err(GitError::Transport)
    ));
    // no tree may be opened
    assert!(matches!(
        plan_clone(&small.commit, &answer_with(&small.pack), 0),
        Err(GitError::Format)
    ));
    assert!(plan_clone(&small.commit, &answer_with(&small.pack), 1).is_ok());
}

fn entry(kind: ObjType, body: &[u8], name: &str) -> PackEntry {
    PackEntry {
        offset: 0,
        content: body.to_vec(),
        kind,
        crc32: 0,
        hash: object_id(name, body),
    }
}

#[test]
fn checkout_walks_breadth_first() {
    let blob_a = entry(ObjType::Blob, b"a", "blob");
    let blob_b = entry(ObjType::Blob, b"b", "blob");
    let mut inner_body = b"100755 run.sh\0".to_vec();
    inner_body.extend_from_slice(&blob_b.hash);
    let inner = entry(ObjType::Tree, &inner_body, "tree");
    let mut root_body = b"40000 sub\0".to_vec();
    root_body.extend_from_slice(&inner.hash);
    root_body.extend_from_slice(b"100644 a.txt\0");
    root_body.extend_from_slice(&blob_a.hash);
    root_body.extend_from_slice(b"40000 twin\0");
    root_body.extend_from_slice(&inner.hash);
    let root = entry(ObjType::Tree, &root_body, "tree");
    let commit = entry(ObjType::Commit, &commit_text(&root.hash), "commit");
    let head = commit.hash;
    let entries = vec![blob_a, commit, inner, root, blob_b];

    let steps = checkout(&entries, &head, 10).unwrap();
    let shown: Vec<String> = steps
        .iter()
        .map(|s| match s {
            CheckoutStep::CreateDir { path } => format!("dir {}", String::from_utf8_lossy(path)),
            CheckoutStep::WriteFile { path, mode, object } => {
                format!("file {} {:o} {}", String::from_utf8_lossy(path), mode, object)
            }
        })
        .collect();
    assert_eq!(
        shown,
        vec![
            "dir .",
            "file ./a.txt 100644 0",
            "dir ./sub",
            "file ./sub/run.sh 100755 4",
            "dir ./twin",
            "file ./twin/run.sh 100755 4",
        ]
    );
    // three trees are opened
    assert!(matches!(checkout(&entries, &head, 2), Err(GitError::Format)));
    assert!(checkout(&entries, &head, 3).is_ok());
}

#[test]
fn checkout_errors() {
    let blob = entry(ObjType::Blob, b"a", "blob");
    let tag = entry(ObjType::Tag, b"t", "tag");
    let mut missing_body = b"100644 a.txt\0".to_vec();
    missing_body.extend_from_slice(&[3u8; 20]);
    let missing = entry(ObjType::Tree, &missing_body, "tree");
    let mut tagged_body = b"100644 a.txt\0".to_vec();
    tagged_body.extend_from_slice(&tag.hash);
    let tagged = entry(ObjType::Tree, &tagged_body, "tree");
    let to_missing = entry(ObjType::Commit, &commit_text(&missing.hash), "commit");
    let to_tagged = entry(ObjType::Commit, &commit_text(&tagged.hash), "commit");
    let to_blob = entry(ObjType::Commit, &commit_text(&blob.hash), "commit");
    let to_nothing = entry(ObjType::Commit, &commit_text(&[5; 20]), "commit");
    let not_hex = entry(
        ObjType::Commit,
        b"tree xyz\nauthor a b 1 z\ncommitter a b 1 z\n",
        "commit",
    );
    let heads = [
        (to_missing.hash, GitError::NotFound),
        (to_tagged.hash, GitError::NotFound),
        (to_blob.hash, GitError::Format),
        (to_nothing.hash, GitError::NotFound),
        (not_hex.hash, GitError::Format),
    ];
    let entries = vec![blob, tag, missing, tagged, to_missing, to_tagged, to_blob, to_nothing, not_hex];
    for (head, error) in heads {
        assert_eq!(checkout(&entries, &head, 10).err(), Some(error));
    }
}

#[test]
fn the_last_of_two_equal_objects_is_found() {
    let one = entry(ObjType::Blob, b"a", "blob");
    let mut two = entry(ObjType::Blob, b"a", "blob");
    two.offset = 77;
    let other = entry(ObjType::Blob, b"b", "blob");
    let hash = one.hash;
    let entries = vec![one, other, two];
    assert_eq!(find_object(&entries, &hash), Some(2));
    assert_eq!(find_object(&entries, &[0; 20]), None);
    assert_eq!(find_object(&entries, &hash[..19]), None);
}

#[test]
fn rows_and_paths() {
    let mut one = entry(ObjType::Blob, b"a", "blob");
    one.offset = 12;
    one.crc32 = 5;
    let rows = index_rows(&vec![one]).unwrap();
    assert_eq!(rows.len(), 1);
    assert_eq!(rows[0].offset, 12);
    assert_eq!(rows[0].crc32, 5);
    assert_eq!(rows[0].hash, object_id("blob", b"a"));

    let trailer: [u8; 20] =
        hex::decode("ce013625030ba8dba906f756967f9e9ca394464a").unwrap().try_into().unwrap();
    assert_eq!(
        pack_path(&trailer),
        b".git/objects/pack/pack_ce013625030ba8dba906f756967f9e9ca394464a.pack".to_vec()
    );
    assert_eq!(
        index_path(&trailer),
        b".git/objects/pack/pack_ce013625030ba8dba906f756967f9e9ca394464a.idx".to_vec()
    );
    assert_eq!(ref_path(b"refs/heads/main"), b".git/refs/heads/main".to_vec());
    assert_eq!(ref_content(&trailer), b"ce013625030ba8dba906f756967f9e9ca394464a\n".to_vec());
}

#[test]
fn rows_past_32_bits() {
    if usize::BITS > 32 {
        let mut one = entry(ObjType::Blob, b"a", "blob");
        one.offset = u32::MAX as usize;
        assert!(index_rows(&vec![one]).is_ok());
        let mut one = entry(ObjType::Blob, b"a", "blob");
        one.offset = u32::MAX as usize + 1;
        assert!(matches!(index_rows(&vec![one]), Err(GitError::Format)));
    }
}

#[test]
fn entries_as_they_are_stored() {
    let small = small_pack();
    let (obj, total) = get_object(&small.pack, small.bounds[2]).unwrap();
    assert_eq!(obj.kind, PackfileOBJ::BLOB);
    assert_eq!(obj.data, b"hello\n".to_vec());
    assert_eq!(total, small.bounds[3] - small.bounds[2]);

    let mut data = vec![0u8; 10];
    let delta = vec![8, 7, 0x90, 4, 3, b'X', b'Y', b'Z'];
    data.extend_from_slice(&entry_head(6, delta.len()));
    data.push(4);
    data.extend_from_slice(&zlib(&delta));
    let (obj, total) = get_object(&data, 10).unwrap();
    assert_eq!(obj.kind, PackfileOBJ::OFS);
    assert_eq!(obj.data, delta);
    assert_eq!(total, data.len() - 10);
    assert!(matches!(get_object(&data, 0), Err(GitError::Format)));
    assert!(matches!(get_object(&data, data.len()), Err(GitError::Transport)));
}

#[test]
fn walk_over_a_pack() {
    let small = small_pack();
    let summary = packfile_parse(&small.pack).unwrap();
    assert_eq!(summary.kinds, vec![PackfileOBJ::COMMIT, PackfileOBJ::TREE, PackfileOBJ::BLOB]);
    assert_eq!(summary.checksum, hex::encode(sha1_of(&small.pack[..small.pack.len() - 20])).into_bytes());
    // a blob that is no text stops the walk
    let (pack, _) = pack_of(&[(3, vec![0xff, 0xfe])]);
    assert!(matches!(packfile_parse(&pack), Err(GitError::Format)));
    // a tree may hold any bytes
    let (pack, _) = pack_of(&[(2, vec![0xff, 0xfe])]);
    assert_eq!(packfile_parse(&pack).unwrap().kinds, vec![PackfileOBJ::TREE]);
    assert!(matches!(packfile_parse(&b"PACK".to_vec()), Err(GitError::Transport)));
}

#[test]
fn offset_numbers() {
    assert_eq!(offset_decode(&[0x05, 0xff]), Ok((5, 1)));
    assert_eq!(offset_decode(&[0x80, 0x00]), Ok((128, 2)));
    assert_eq!(
        offset_decode(&[0b10010110, 0b10111000, 0b01100001, 0x44]),
        Ok((0b001_0110_011_1000_110_0001 + (1 << 7) + (1 << 14), 3))
    );
    assert_eq!(offset_decode(&[0x80]), Err(GitError::Transport));
    assert_eq!(offset_decode(&[]), Err(GitError::Transport));
}

use std::collections::HashMap;
use std::io::Write;

use gitcore::error::GitError;
use gitcore::git::ofs;
use gitcore::git::packfile::{
    decompress, extract_size_and_type, headers, process_delta, read_entry_head, read_object,
    ObjType, PackObjType,
};
use gitcore::stream::ByteStream;

fn zlib(data: &[u8]) -> Vec<u8> {
    let mut e = flate2::write::ZlibEncoder::new(Vec::new(), flate2::Compression::default());
    e.write_all(data).unwrap();
    e.finish().unwrap()
}

// type and size in the way of a pack entry
fn entry_head(kind: u8, size: usize) -> Vec<u8> {
    let mut out = Vec::new();
    let mut first = (kind << 4) | (size & 0x0f) as u8;
    let mut rest = size >> 4;
    if rest > 0 {
        first |= 0x80;
    }
    out.push(first);
    while rest > 0 {
        let mut b = (rest & 0x7f) as u8;
        rest >>= 7;
        if rest > 0 {
            b |= 0x80;
        }
        out.push(b);
    }
    out
}

#[test]
fn valid_packfile_header() {
    let data = [*b"PACK", *b"\x00\x00\x00\x02", *b"\x00\x00\x00\x02"].concat();

    let mut reader = ByteStream::new(data.as_slice());
    assert!(headers(&mut reader).is_ok());
}

#[test]
#[should_panic]
fn invalid_packfile_header() {
    let data = [*b"HEAD", *b"\x00\x00\x00\x02", *b"\x00\x00\x00\x02"].concat();

    let mut reader = ByteStream::new(data.as_slice());
    let _ = headers(&mut reader).unwrap();
}

#[test]
fn extract_file_type_and_size() {
    let (size, obj_type) = extract_size_and_type(0b110_101_0110);
    assert_eq!(size, 0b110_0110);
    assert_eq!(obj_type, 0b101);
}

#[test]
fn read_offset_and_size() {
    let data = vec![0x10, 0x80, 0xff];
    let mut stream = ByteStream::new(data.as_slice());
    let (offset, size) = gitcore::git::packfile::read_offset_and_size(&mut stream, 0b1_010_0101).unwrap();

    assert_eq!(offset, 0x800010);
    assert_eq!(size, 0xff00);
}

#[test]
fn header_values_and_position() {
    let data = [*b"PACK", *b"\x00\x00\x00\x02", *b"\x00\x00\x01\x03", *b"rest"].concat();
    let mut reader = ByteStream::new(data.as_slice());
    assert_eq!(headers(&mut reader), Ok((*b"PACK", 2, 259)));
    assert_eq!(reader.stream_position(), 12);
}

#[test]
fn header_errors() {
    let bad_magic = [*b"HEAD", *b"\x00\x00\x00\x02", *b"\x00\x00\x00\x02"].concat();
    let mut reader = ByteStream::new(bad_magic.as_slice());
    assert_eq!(headers(&mut reader), Err(GitError::Format));
    assert_eq!(reader.stream_position(), 0);

    let no_version = [*b"PACK", *b"\x00\x00\x00\x00", *b"\x00\x00\x00\x02"].concat();
    let mut reader = ByteStream::new(no_version.as_slice());
    assert_eq!(headers(&mut reader), Err(GitError::Format));

    let no_entries = [*b"PACK", *b"\x00\x00\x00\x02", *b"\x00\x00\x00\x00"].concat();
    let mut reader = ByteStream::new(no_entries.as_slice());
    assert_eq!(headers(&mut reader), Err(GitError::Format));

    let short = b"PACK\x00\x00\x00\x02\x00\x00".to_vec();
    let mut reader = ByteStream::new(short.as_slice());
    assert_eq!(headers(&mut reader), Err(GitError::Transport));
    assert_eq!(reader.stream_position(), 0);
}

#[test]
fn copy_fields_none_stored() {
    let data: Vec<u8> = vec![];
    let mut stream = ByteStream::new(data.as_slice());
    assert_eq!(gitcore::git::packfile::read_offset_and_size(&mut stream, 0x80), Ok((0, 0)));
    assert_eq!(stream.stream_position(), 0);
}

#[test]
fn copy_fields_all_stored() {
    let data: Vec<u8> = vec![1, 2, 3, 4, 5, 6, 7, 99];
    let mut stream = ByteStream::new(data.as_slice());
    assert_eq!(gitcore::git::packfile::read_offset_and_size(&mut stream, 0xff), Ok((0x04030201, 0x070605)));
    assert_eq!(stream.stream_position(), 7);
}

#[test]
fn copy_fields_cut_short() {
    let data: Vec<u8> = vec![1, 2];
    let mut stream = ByteStream::new(data.as_slice());
    assert_eq!(gitcore::git::packfile::read_offset_and_size(&mut stream, 0x80 | 0x07), Err(GitError::Transport));
    assert_eq!(stream.stream_position(), 0);
}

#[test]
fn delta_copy_then_insert() {
    // sizes 8 and 7, copy offset 0 length 4, insert "XYZ"
    let delta = vec![8, 7, 0x90, 4, 3, b'X', b'Y', b'Z'];
    let base = b"ABCDEFGH".to_vec();
    assert_eq!(process_delta(&delta, &base), Ok(b"ABCDXYZ".to_vec()));
}

#[test]
fn delta_default_copy_length() {
    let base: Vec<u8> = (0..0x10000u32).map(|i| (i % 251) as u8).collect();
    // target 0x10000 = 65536: groups 0x80 0x80 0x04
    let delta = vec![0x80, 0x80, 0x04, 0x80, 0x80, 0x04, 0x80];
    assert_eq!(process_delta(&delta, &base), Ok(base.clone()));
}

#[test]
fn delta_copy_of_stored_zero_length_adds_nothing() {
    let base = b"ABCDEFGH".to_vec();
    // a copy whose length byte is stored as zero, then an insert
    let delta = vec![8, 1, 0x90, 0, 1, b'Q'];
    assert_eq!(process_delta(&delta, &base), Ok(b"Q".to_vec()));
}

#[test]
fn delta_empty_target() {
    let base = b"ABCDEFGH".to_vec();
    let delta = vec![8, 0];
    assert_eq!(process_delta(&delta, &base), Ok(vec![]));
    // what follows a reached target is not looked at
    let delta = vec![8, 0, 0, 0, 0];
    assert_eq!(process_delta(&delta, &base), Ok(vec![]));
}

#[test]
fn delta_source_size_is_not_held_against_the_base() {
    let base = b"ABCDEFGH".to_vec();
    let delta = vec![99, 2, 0x91, 1, 2];
    assert_eq!(process_delta(&delta, &base), Ok(b"BC".to_vec()));
}

#[test]
fn delta_errors_are_format_errors() {
    let base = b"ABCDEFGH".to_vec();
    // copy leaves the base
    assert_eq!(process_delta(&vec![8, 4, 0x91, 6, 4], &base), Err(GitError::Format));
    // result longer than declared
    assert_eq!(process_delta(&vec![8, 2, 0x90, 4], &base), Err(GitError::Format));
    // instruction byte zero
    assert_eq!(process_delta(&vec![8, 2, 0, 0], &base), Err(GitError::Format));
    // insert cut short
    assert_eq!(process_delta(&vec![8, 3, 3, b'X'], &base), Err(GitError::Format));
    // empty delta
    assert_eq!(process_delta(&vec![], &base), Err(GitError::Format));
    // only one size
    assert_eq!(process_delta(&vec![8], &base), Err(GitError::Format));
}

#[test]
fn truncated_delta_never_gives_a_short_result() {
    let delta = vec![8, 7, 0x90, 4, 3, b'X', b'Y', b'Z'];
    let base = b"ABCDEFGH".to_vec();
    for cut in 0..delta.len() {
        let short = delta[..cut].to_vec();
        assert_eq!(process_delta(&short, &base), Err(GitError::Format));
    }
}

#[test]
fn decompress_reports_consumed_bytes() {
    let packed = zlib(b"hello world");
    let mut data = packed.clone();
    data.extend_from_slice(b"trailing");
    let mut stream = ByteStream::new(data.as_slice());
    let mut buffer = b">".to_vec();
    assert_eq!(decompress(&mut stream, &mut buffer), Ok(packed.len()));
    assert_eq!(buffer, b">hello world".to_vec());
    assert_eq!(stream.stream_position(), packed.len());
}

#[test]
fn decompress_of_garbage_is_a_format_error() {
    let data = b"this is no zlib stream".to_vec();
    let mut stream = ByteStream::new(data.as_slice());
    let mut buffer = Vec::new();
    assert_eq!(decompress(&mut stream, &mut buffer), Err(GitError::Format));
    assert_eq!(stream.stream_position(), 0);
    assert!(buffer.is_empty());

    let packed = zlib(b"hello world");
    let cut = &packed[..packed.len() - 3];
    let mut stream = ByteStream::new(cut);
    assert_eq!(decompress(&mut stream, &mut buffer), Err(GitError::Format));

    let mut stream = ByteStream::new(packed.as_slice());
    stream.seek(packed.len() + 10);
    assert_eq!(decompress(&mut stream, &mut buffer), Err(GitError::Format));
}

#[test]
fn entry_head_kinds() {
    for (tag, kind) in [
        (1u8, ObjType::Commit),
        (2, ObjType::Tree),
        (3, ObjType::Blob),
        (4, ObjType::Tag),
    ] {
        let data = entry_head(tag, 5);
        assert_eq!(read_entry_head(&data, 0), Ok((PackObjType::Base(kind), 0, 1)));
    }
    assert_eq!(read_entry_head(&entry_head(0, 5), 0), Err(GitError::Format));
    assert_eq!(read_entry_head(&entry_head(5, 5), 0), Err(GitError::Format));
    assert_eq!(read_entry_head(&entry_head(7, 5), 0), Err(GitError::NotFound));
    assert_eq!(read_entry_head(&[], 0), Err(GitError::Transport));
}

#[test]
fn entry_head_of_a_delta() {
    let mut data = vec![0u8; 10];
    data.extend_from_slice(&entry_head(6, 3));
    data.push(4);
    assert_eq!(read_entry_head(&data, 10), Ok((PackObjType::OFS, 6, 12)));

    // a base that would lie before the pack, or at the delta itself
    let mut data = vec![0u8; 10];
    data.extend_from_slice(&entry_head(6, 3));
    data.push(11);
    assert_eq!(read_entry_head(&data, 10), Err(GitError::Format));
    let mut data = vec![0u8; 10];
    data.extend_from_slice(&entry_head(6, 3));
    data.push(0);
    assert_eq!(read_entry_head(&data, 10), Err(GitError::Format));
    // the offset number is cut short
    let mut data = vec![0u8; 10];
    data.extend_from_slice(&entry_head(6, 3));
    data.push(0x80);
    assert_eq!(read_entry_head(&data, 10), Err(GitError::Transport));
}

fn delta_pack() -> (Vec<u8>, usize) {
    // a blob at offset 120 and a delta against it at offset 200
    let mut data = vec![0u8; 120];
    data.extend_from_slice(&entry_head(3, 8));
    data.extend_from_slice(&zlib(b"ABCDEFGH"));
    assert!(data.len() <= 200);
    data.resize(200, 0);
    let delta = vec![8, 7, 0x90, 4, 3, b'X', b'Y', b'Z'];
    data.extend_from_slice(&entry_head(6, delta.len()));
    data.push(80);
    data.extend_from_slice(&zlib(&delta));
    let end = data.len();
    data.extend_from_slice(&[0u8; 20]);
    (data, end)
}

#[test]
fn ofs_delta_against_an_earlier_entry() {
    let (data, end) = delta_pack();
    let cache = HashMap::new();
    let mut stream = ByteStream::new(data.as_slice());
    let (content, kind) = read_object(&mut stream, 200, &cache).unwrap();
    assert_eq!(content, b"ABCDXYZ".to_vec());
    assert_eq!(kind, ObjType::Blob);
    assert_eq!(stream.stream_position(), end);
}

#[test]
fn ofs_delta_takes_its_base_from_the_cache() {
    let (data, end) = delta_pack();
    let mut cache = HashMap::new();
    cache.insert(120usize, (b"01234567".to_vec(), ObjType::Tree));
    let mut stream = ByteStream::new(data.as_slice());
    let (content, kind) = read_object(&mut stream, 200, &cache).unwrap();
    assert_eq!(content, b"0123XYZ".to_vec());
    assert_eq!(kind, ObjType::Tree);
    assert_eq!(stream.stream_position(), end);
}

#[test]
fn delta_of_a_delta() {
    let mut data = vec![0u8; 12];
    let first = data.len();
    data.extend_from_slice(&entry_head(1, 8));
    data.extend_from_slice(&zlib(b"ABCDEFGH"));
    let second = data.len();
    let delta = vec![8, 7, 0x90, 4, 3, b'X', b'Y', b'Z'];
    data.extend_from_slice(&entry_head(6, delta.len()));
    data.push((second - first) as u8);
    data.extend_from_slice(&zlib(&delta));
    let third = data.len();
    // against "ABCDXYZ": copy "XYZ", insert "!"
    let delta = vec![7, 4, 0x91, 4, 3, 1, b'!'];
    data.extend_from_slice(&entry_head(6, delta.len()));
    data.push((third - second) as u8);
    data.extend_from_slice(&zlib(&delta));
    let end = data.len();

    let cache = HashMap::new();
    let mut stream = ByteStream::new(data.as_slice());
    let (content, kind) = read_object(&mut stream, third, &cache).unwrap();
    assert_eq!(content, b"XYZ!".to_vec());
    assert_eq!(kind, ObjType::Commit);
    assert_eq!(stream.stream_position(), end);

    let (content, _) = read_object(&mut stream, first, &cache).unwrap();
    assert_eq!(content, b"ABCDEFGH".to_vec());
    assert_eq!(stream.stream_position(), second);
}

#[test]
fn read_object_errors_leave_the_stream() {
    let (mut data, _) = delta_pack();
    let cache = HashMap::new();
    // a REF_DELTA entry
    let at = data.len();
    data.extend_from_slice(&entry_head(7, 3));
    data.extend_from_slice(&[0u8; 20]);
    let mut stream = ByteStream::new(data.as_slice());
    stream.seek(3);
    assert_eq!(read_object(&mut stream, at, &cache), Err(GitError::NotFound));
    assert_eq!(stream.stream_position(), 3);
    // past the end
    assert_eq!(read_object(&mut stream, data.len(), &cache), Err(GitError::Transport));
    // a payload that does not inflate
    assert_eq!(read_object(&mut stream, 0, &cache), Err(GitError::Format));
    assert_eq!(stream.stream_position(), 3);
}

#[test]
fn kind_names() {
    assert_eq!(ObjType::Blob.name(), b"blob".to_vec());
    assert_eq!(ObjType::Tree.name(), b"tree".to_vec());
    assert_eq!(ObjType::Commit.name(), b"commit".to_vec());
    assert_eq!(ObjType::Tag.name(), b"tag".to_vec());
}

#[test]
fn single_instructions() {
    assert_eq!(ofs::parse(&[5, 1, 2, 3, 4, 5]), Ok(ofs::Instruction::Insert { count: 5 }));
    assert_eq!(
        ofs::parse(&[0b1_001_0001, 7, 9]),
        Ok(ofs::Instruction::Copy { offset: 7, size: 9 })
    );
    assert_eq!(
        ofs::parse(&[0b1_000_0010, 1]),
        Ok(ofs::Instruction::Copy { offset: 0x100, size: 0x10000 })
    );
    assert_eq!(
        ofs::parse(&[0b1_001_0000, 0]),
        Ok(ofs::Instruction::Copy { offset: 0, size: 0x10000 })
    );
    assert_eq!(ofs::parse(&[0]), Err(GitError::Format));
    assert_eq!(ofs::parse(&[]), Err(GitError::Transport));
    assert_eq!(ofs::parse(&[0x81]), Err(GitError::Transport));
    assert_eq!(ofs::get_size(0x7f), 127);
    assert_eq!(ofs::get_size(0x85), 5);
}

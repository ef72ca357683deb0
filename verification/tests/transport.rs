use gitcore::error::GitError;
use gitcore::stream::ByteStream;
use gitcore::transport::{
    demux_sideband, discover_refs, read_pkt_line, read_pkt_lines, receive_pack, select_head,
    upload_pack_request, PktLine, Ref,
};

const HASH: &str = "ce013625030ba8dba906f756967f9e9ca394464a";

fn pkt(payload: &[u8]) -> Vec<u8> {
    let mut out = format!("{:04x}", payload.len() + 4).into_bytes();
    out.extend_from_slice(payload);
    out
}

#[test]
fn discovery_with_one_ref() {
    let mut response = pkt(b"# service=git-upload-pack\n");
    response.extend_from_slice(b"0000");
    response.extend_from_slice(&pkt(format!("{HASH} refs/heads/main\n").as_bytes()));
    response.extend_from_slice(b"0000");
    let refs = discover_refs(&response).unwrap();
    assert_eq!(refs.len(), 1);
    assert_eq!(refs[0].name, b"refs/heads/main".to_vec());
    assert_eq!(refs[0].target.to_vec(), hex::decode(HASH).unwrap());
    assert_eq!(select_head(&refs).unwrap().to_vec(), hex::decode(HASH).unwrap());
}

#[test]
fn malformed_length_is_a_format_error() {
    assert!(matches!(discover_refs(b"ZZZZ"), Err(GitError::Format)));
    assert!(matches!(receive_pack(b"ZZZZ"), Err(GitError::Format)));
    let mut stream = ByteStream::new(b"ZZZZ");
    assert!(matches!(read_pkt_line(&mut stream), Err(GitError::Format)));
    assert_eq!(stream.stream_position(), 0);
    for prefix in [&b"+00a"[..], b"00g0", b" 004", b"0x10", b"-001"] {
        let mut stream = ByteStream::new(prefix);
        assert!(matches!(read_pkt_line(&mut stream), Err(GitError::Format)));
    }
}

#[test]
fn lengths_below_four() {
    for prefix in [&b"0001"[..], b"0002", b"0003"] {
        let mut stream = ByteStream::new(prefix);
        assert!(matches!(read_pkt_line(&mut stream), Err(GitError::Format)));
    }
    let mut stream = ByteStream::new(b"0004rest");
    let line = read_pkt_line(&mut stream).unwrap().unwrap();
    assert_eq!(line.length, 4);
    assert!(line.value.is_empty());
    assert_eq!(stream.stream_position(), 4);
}

#[test]
fn premature_end_is_a_transport_error() {
    for data in [&b""[..], b"00", b"0009don", b"000ahello0000"] {
        let mut stream = ByteStream::new(data);
        assert!(matches!(read_pkt_lines(&mut stream, 2), Err(GitError::Transport)));
        assert_eq!(stream.stream_position(), 0);
    }
    assert!(matches!(discover_refs(b"0000"), Err(GitError::Transport)));
}

#[test]
fn lengths_in_either_case() {
    let mut data = b"000A".to_vec();
    data.extend_from_slice(b"abcdef");
    data.extend_from_slice(b"000a");
    data.extend_from_slice(b"ghijkl");
    let mut stream = ByteStream::new(&data);
    let line = read_pkt_line(&mut stream).unwrap().unwrap();
    assert_eq!(line.length, 10);
    assert_eq!(line.value, b"abcdef".to_vec());
    let line = read_pkt_line(&mut stream).unwrap().unwrap();
    assert_eq!(line.value, b"ghijkl".to_vec());
    assert_eq!(stream.stream_position(), 20);
}

#[test]
fn lines_up_to_the_second_flush() {
    let mut data = pkt(b"one");
    data.extend_from_slice(b"0000");
    data.extend_from_slice(&pkt(b"two"));
    data.extend_from_slice(&pkt(b"three"));
    data.extend_from_slice(b"0000");
    data.extend_from_slice(&pkt(b"four"));
    let mut stream = ByteStream::new(&data);
    let lines = read_pkt_lines(&mut stream, 2).unwrap();
    let values: Vec<Vec<u8>> = lines.into_iter().map(|l| l.value).collect();
    assert_eq!(values, vec![b"one".to_vec(), b"two".to_vec(), b"three".to_vec()]);
    assert_eq!(stream.stream_position(), data.len() - 8);

    let mut stream = ByteStream::new(&data);
    let lines = read_pkt_lines(&mut stream, 1).unwrap();
    assert_eq!(lines.len(), 1);
    assert_eq!(stream.stream_position(), 11);

    let mut stream = ByteStream::new(&data);
    assert!(read_pkt_lines(&mut stream, 0).unwrap().is_empty());
    assert_eq!(stream.stream_position(), 0);
}

#[test]
fn discovery_errors() {
    // the first line announces something else
    let mut response = pkt(b"# service=git-receive-pack\n");
    response.extend_from_slice(b"0000");
    response.extend_from_slice(&pkt(format!("{HASH} refs/heads/main\n").as_bytes()));
    response.extend_from_slice(b"0000");
    assert!(matches!(discover_refs(&response), Err(GitError::Format)));
    // no line at all
    assert!(matches!(discover_refs(b"00000000"), Err(GitError::Format)));
    // a line that is no reference
    let mut response = pkt(b"# service=git-upload-pack");
    response.extend_from_slice(b"0000");
    response.extend_from_slice(&pkt(b"not a reference line"));
    response.extend_from_slice(b"0000");
    assert!(matches!(discover_refs(&response), Err(GitError::Format)));
    // no reference: nothing to pick
    let mut response = pkt(b"# service=git-upload-pack\n");
    response.extend_from_slice(b"00000000");
    let refs = discover_refs(&response).unwrap();
    assert!(refs.is_empty());
    assert!(matches!(select_head(&refs), Err(GitError::Format)));
}

#[test]
fn reference_lines() {
    let line = format!("{HASH} HEAD\0multi_ack side-band-64k\n");
    let r = Ref::from_line(line.as_bytes()).unwrap();
    assert_eq!(r.name, b"HEAD".to_vec());
    let line = format!("{} refs/tags/v1", HASH.to_uppercase());
    let r = Ref::from_line(line.as_bytes()).unwrap();
    assert_eq!(r.name, b"refs/tags/v1".to_vec());
    assert_eq!(r.target.to_vec(), hex::decode(HASH).unwrap());
    let line = format!("{HASH} a\nb\0c");
    assert_eq!(Ref::from_line(line.as_bytes()).unwrap().name, b"a".to_vec());
    let line = format!("{HASH} ");
    assert!(Ref::from_line(line.as_bytes()).unwrap().name.is_empty());
    assert!(Ref::from_line(HASH.as_bytes()).is_none());
    let line = format!("{HASH}_refs/heads/main");
    assert!(Ref::from_line(line.as_bytes()).is_none());
    let line = format!("g{} refs/heads/main", &HASH[1..]);
    assert!(Ref::from_line(line.as_bytes()).is_none());
}

#[test]
fn head_is_the_first_of_several() {
    let refs = vec![
        Ref { name: b"HEAD".to_vec(), target: [1; 20] },
        Ref { name: b"refs/heads/main".to_vec(), target: [2; 20] },
    ];
    assert_eq!(select_head(&refs), Ok([1; 20]));
}

#[test]
fn request_for_a_pack() {
    let head: [u8; 20] = hex::decode(HASH).unwrap().try_into().unwrap();
    let body = upload_pack_request(&head);
    assert_eq!(
        body,
        format!("0054want {HASH} multi_ack side-band-64k ofs-delta\n00000009done\n").into_bytes()
    );
    // the first line is as long as its prefix says
    assert_eq!(body.len(), 0x54 + 4 + 9);
}

#[test]
fn side_band_channels() {
    let lines = vec![
        PktLine { length: 8, value: b"NAK\n".to_vec() },
        PktLine { length: 9, value: b"\x01PACK".to_vec() },
        PktLine { length: 10, value: b"\x02hello".to_vec() },
        PktLine { length: 4, value: vec![] },
        PktLine { length: 5, value: vec![1] },
        PktLine { length: 8, value: b"\x03oops".to_vec() },
        PktLine { length: 8, value: b"\x01rest".to_vec() },
        PktLine { length: 8, value: b"\x02 you".to_vec() },
    ];
    let (pack, progress) = demux_sideband(&lines);
    assert_eq!(pack, b"PACKrest".to_vec());
    assert_eq!(progress, b"hello you".to_vec());
}

#[test]
fn receive_a_pack() {
    let mut response = pkt(b"NAK\n");
    response.extend_from_slice(&pkt(b"\x02counting\n"));
    response.extend_from_slice(&pkt(b"\x01PACK\x00\x00"));
    response.extend_from_slice(b"0000");
    response.extend_from_slice(&pkt(b"\x01\x00\x02"));
    response.extend_from_slice(b"0000");
    let (pack, progress) = receive_pack(&response).unwrap();
    assert_eq!(pack, b"PACK\x00\x00\x00\x02".to_vec());
    assert_eq!(progress, b"counting\n".to_vec());
    // an answer that ends after its first flush marker is cut short
    let cut = &response[..response.len() - 11];
    assert!(matches!(receive_pack(cut), Err(GitError::Transport)));
}

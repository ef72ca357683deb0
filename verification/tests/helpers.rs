use gitcore::error::GitError;
use gitcore::git::helpers;
use gitcore::stream::ByteStream;

#[test]
fn read_from_stream() {
    let data = b"test data here";
    let mut reader = ByteStream::new(data.as_slice());

    let first = helpers::read_bytes::<1>(&mut reader).unwrap();
    assert_eq!(&first, b"t");

    let data: [u8; 4] = helpers::read_bytes(&mut reader).unwrap();
    assert_eq!(&data, b"est ");
}

#[test]
fn read_u32_from_stream() {
    let data = [0x11, 0x22, 0x33, 0x44];
    let mut reader = ByteStream::new(data.as_slice());

    let value = helpers::read_u32(&mut reader).unwrap();

    assert_eq!(value, 0x11223344);
}

#[test]
fn read_encoded_size() {
    let data = [0x87, 0x92, 0x33, 0x44];
    let mut reader = ByteStream::new(data.as_slice());

    let value = helpers::read_encoded_size(&mut reader).unwrap();
    assert_eq!(value.0, 0x07);
    assert_eq!(value.1, true);

    let value = helpers::read_encoded_size(&mut reader).unwrap();
    assert_eq!(value.0, 0x12);
    assert_eq!(value.1, true);

    let value = helpers::read_encoded_size(&mut reader).unwrap();
    assert_eq!(value.0, 0x33);
    assert_eq!(value.1, false);
}

#[test]
fn read_variable_size() {
    let data = [0b10010110, 0b10111000, 0b01100001, 0x44];
    let mut reader = ByteStream::new(data.as_slice());
    let size = helpers::read_size(&mut reader).unwrap();

    assert_eq!(size, 0b110_0001_011_1000_001_0110); // 0x185c16)
}

#[test]
fn read_offset() {
    let data = [0b10010110, 0b10111000, 0b01100001, 0x44];
    let mut reader = ByteStream::new(data.as_slice());
    let offset = helpers::read_offset(&mut reader).unwrap();

    assert_eq!(offset, 0b001_0110_011_1000_110_0001 + (1 << 7) + (1 << 14));
}

#[test]
fn read_bytes_past_the_end_is_a_transport_error() {
    let data = [1u8, 2, 3];
    let mut reader = ByteStream::new(data.as_slice());
    assert_eq!(helpers::read_bytes::<4>(&mut reader), Err(GitError::Transport));
    assert_eq!(reader.stream_position(), 0);
    assert_eq!(helpers::read_bytes::<3>(&mut reader), Ok([1, 2, 3]));
    assert_eq!(reader.stream_position(), 3);
    assert_eq!(reader.remaining(), 0);
    assert_eq!(helpers::read_u32(&mut reader), Err(GitError::Transport));
    assert_eq!(helpers::read_encoded_size(&mut reader), Err(GitError::Transport));
}

#[test]
fn read_bytes_of_length_zero_reads_nothing() {
    let data = [9u8];
    let mut reader = ByteStream::new(data.as_slice());
    reader.seek(5);
    assert_eq!(helpers::read_bytes::<0>(&mut reader), Err(GitError::Transport));
    reader.seek(1);
    assert_eq!(helpers::read_bytes::<0>(&mut reader), Ok([]));
}

#[test]
fn read_size_single_byte() {
    let data = [0x7f];
    let mut reader = ByteStream::new(data.as_slice());
    assert_eq!(helpers::read_size(&mut reader), Ok(127));
    assert_eq!(reader.stream_position(), 1);
}

#[test]
fn read_size_cut_short_is_a_transport_error() {
    let data = [0x80, 0x80];
    let mut reader = ByteStream::new(data.as_slice());
    assert_eq!(helpers::read_size(&mut reader), Err(GitError::Transport));
    assert_eq!(reader.stream_position(), 0);
}

#[test]
fn read_size_too_large_is_a_format_error() {
    // eleven groups of seven ones: 77 bits
    let mut data = vec![0xffu8; 10];
    data.push(0x7f);
    let mut reader = ByteStream::new(data.as_slice());
    assert_eq!(helpers::read_size(&mut reader), Err(GitError::Format));
    assert_eq!(reader.stream_position(), 0);
}

#[test]
fn read_size_with_empty_high_groups_fits() {
    // the value 5 written with fifteen groups, all but the first empty
    let mut data = vec![0x85u8];
    for _ in 0..13 {
        data.push(0x80);
    }
    data.push(0x00);
    let mut reader = ByteStream::new(data.as_slice());
    assert_eq!(helpers::read_size(&mut reader), Ok(5));
    assert_eq!(reader.stream_position(), 15);
}

#[test]
fn read_offset_single_and_double_byte() {
    let data = [0x05];
    let mut reader = ByteStream::new(data.as_slice());
    assert_eq!(helpers::read_offset(&mut reader), Ok(5));

    // the two-byte form starts at 128: (0 + 1) * 128 + 0
    let data = [0x80, 0x00];
    let mut reader = ByteStream::new(data.as_slice());
    assert_eq!(helpers::read_offset(&mut reader), Ok(128));

    let data = [0x81, 0x7f];
    let mut reader = ByteStream::new(data.as_slice());
    assert_eq!(helpers::read_offset(&mut reader), Ok((1 + 1) * 128 + 127));
    assert_eq!(reader.stream_position(), 2);
}

#[test]
fn read_offset_errors() {
    let data = [0x80];
    let mut reader = ByteStream::new(data.as_slice());
    assert_eq!(helpers::read_offset(&mut reader), Err(GitError::Transport));

    let mut data = vec![0xffu8; 12];
    data.push(0x00);
    let mut reader = ByteStream::new(data.as_slice());
    assert_eq!(helpers::read_offset(&mut reader), Err(GitError::Format));
    assert_eq!(reader.stream_position(), 0);
}

use vstd::prelude::*;
use vstd::string::StringSliceAdditionalSpecFns;
use crate::bytes::{append_all, append_range, copy_range, same_bytes};
use crate::digest::{hex_bytes, hex_decode, hex_encode, hex_text};
use crate::error::GitError;
use crate::git::helpers::{bytes_at, read_bytes};
use crate::stream::ByteStream;
use crate::text::{find_byte, find_from, lemma_find_from};

verus! {

/// One line of the pkt-line framing that is no flush marker: its length as
/// the prefix gives it, the four bytes of the prefix included, and its
/// payload.
#[derive(Debug)]
pub struct PktLine {
    pub length: usize,
    pub value: Vec<u8>,
}

/// A reference that a server advertises: its name and the hash of the
/// object that it points at.
#[derive(Debug)]
pub struct Ref {
    pub name: Vec<u8>,
    pub target: [u8; 20],
}

/// The pkt-line frame at `pos`: its payload, or `None` for a flush marker,
/// with the position after the frame.
///
/// A frame opens with its length in four hexadecimal digits, which counts
/// the digits themselves; `0000` is a flush marker. `Transport` where the
/// data ends inside the prefix or the payload; `Format` where the prefix is
/// not four hexadecimal digits, or gives a length of 1, 2 or 3.
pub open spec fn pkt_frame(data: Seq<u8>, pos: int) -> Result<(Option<Seq<u8>>, int), GitError> {
    match bytes_at(data, pos, 4) {
        None => Err(GitError::Transport),
        Some(prefix) => match hex_bytes(prefix) {
            None => Err(GitError::Format),
            Some(b) => {
                let length = b[0] as int * 256 + b[1] as int;
                if length == 0 {
                    Ok((None, pos + 4))
                } else if length < 4 {
                    Err(GitError::Format)
                } else {
                    match bytes_at(data, pos + 4, length - 4) {
                        None => Err(GitError::Transport),
                        Some(payload) => Ok((Some(payload), pos + length)),
                    }
                }
            },
        },
    }
}

/// Reads one pkt-line frame (see `pkt_frame`).
///
/// The stream moves past the frame, and stays where it was on an error.
pub fn read_pkt_line(stream: &mut ByteStream) -> (r: Result<Option<PktLine>, GitError>)
    ensures
        final(stream).data == old(stream).data,
        match pkt_frame(old(stream).data@, old(stream).pos as int) {
            Ok((Some(payload), next)) => r is Ok && r->Ok_0 is Some && r->Ok_0->Some_0.value@
                == payload && r->Ok_0->Some_0.length == payload.len() + 4 && final(stream).pos
                == next && next > old(stream).pos,
            Ok((None, next)) => r is Ok && r->Ok_0 is None && final(stream).pos == next && next
                > old(stream).pos,
            Err(e) => r is Err && r->Err_0 == e && final(stream).pos == old(stream).pos,
        },
{
    let start: usize = stream.pos;
    let prefix: [u8; 4] = match read_bytes::<4>(stream) {
        Ok(p) => p,
        Err(e) => {
            return Err(e);
        },
    };
    let length: usize = match hex_decode(prefix.as_slice()) {
        None => {
            stream.pos = start;
            return Err(GitError::Format);
        },
        Some(b) => {
            assert(b@.len() == 2);
            (b[0] as usize) * 256 + (b[1] as usize)
        },
    };
    if length == 0 {
        return Ok(None);
    }
    if length < 4 {
        stream.pos = start;
        return Err(GitError::Format);
    }
    let len: usize = stream.data.len();
    if len - stream.pos < length - 4 {
        stream.pos = start;
        return Err(GitError::Transport);
    }
    let value: Vec<u8> = copy_range(stream.data, stream.pos, stream.pos + (length - 4));
    stream.pos = stream.pos + (length - 4);
    Ok(Some(PktLine { length, value }))
}

/// The payloads of the frames from `pos` on, up to the flush marker that
/// is the `flushes`-th to be seen, with the position after that marker.
/// Flush markers are counted and not returned. Fails as the first frame
/// that fails (see `pkt_frame`).
pub open spec fn pkt_frames(data: Seq<u8>, pos: int, flushes: nat) -> Result<
    (Seq<Seq<u8>>, int),
    GitError,
>
    decreases data.len() - pos,
    via pkt_frames_decreases
{
    if flushes == 0 {
        Ok((Seq::empty(), pos))
    } else {
        match pkt_frame(data, pos) {
            Err(e) => Err(e),
            Ok((None, next)) => pkt_frames(data, next, (flushes - 1) as nat),
            Ok((Some(payload), next)) => match pkt_frames(data, next, flushes) {
                Err(e) => Err(e),
                Ok((rest, end)) => Ok((seq![payload] + rest, end)),
            },
        }
    }
}

/// A frame ends after its start and inside the data.
pub proof fn lemma_pkt_frame_bounds(data: Seq<u8>, pos: int)
    ensures
        pkt_frame(data, pos) matches Ok((_, next)) ==> 0 <= pos < next <= data.len(),
{
}

#[via_fn]
proof fn pkt_frames_decreases(data: Seq<u8>, pos: int, flushes: nat) {
    lemma_pkt_frame_bounds(data, pos);
}

/// The payloads of the lines.
pub open spec fn payloads(lines: Seq<PktLine>) -> Seq<Seq<u8>> {
    Seq::new(lines.len(), |i: int| lines[i].value@)
}

/// Reads frames until `flushes` flush markers have been seen (see
/// `pkt_frames`).
///
/// The stream moves past the last marker, and stays where it was on an
/// error.
pub fn read_pkt_lines(stream: &mut ByteStream, flushes: usize) -> (r: Result<
    Vec<PktLine>,
    GitError,
>)
    ensures
        final(stream).data == old(stream).data,
        match pkt_frames(old(stream).data@, old(stream).pos as int, flushes as nat) {
            Ok((lines, end)) => r is Ok && payloads(r->Ok_0@) == lines && final(stream).pos == end,
            Err(e) => r is Err && r->Err_0 == e && final(stream).pos == old(stream).pos,
        },
{
    let start: usize = stream.pos;
    let ghost data = stream.data@;
    let mut lines: Vec<PktLine> = Vec::new();
    let mut left: usize = flushes;
    while left > 0
        invariant
            stream.data == old(stream).data,
            data == stream.data@,
            start == old(stream).pos,
            pkt_frames(data, start as int, flushes as nat) == match pkt_frames(
                data,
                stream.pos as int,
                left as nat,
            ) {
                Err(e) => Err::<(Seq<Seq<u8>>, int), GitError>(e),
                Ok((rest, end)) => Ok((payloads(lines@) + rest, end)),
            },
        decreases data.len() - stream.pos,
    {
        let ghost before = payloads(lines@);
        proof {
            lemma_pkt_frame_bounds(data, stream.pos as int);
        }
        match read_pkt_line(stream) {
            Err(e) => {
                stream.pos = start;
                return Err(e);
            },
            Ok(None) => {
                left = left - 1;
            },
            Ok(Some(line)) => {
                let ghost payload = line.value@;
                lines.push(line);
                assert(payloads(lines@) =~= before + seq![payload]);
                proof {
                    if let Ok((rest, end)) = pkt_frames(data, stream.pos as int, left as nat) {
                        assert(before + (seq![payload] + rest) =~= payloads(lines@) + rest);
                    }
                }
            },
        }
    }
    assert(payloads(lines@) + Seq::<Seq<u8>>::empty() =~= payloads(lines@));
    Ok(lines)
}

/// The number of flush markers that end a server's answer.
pub const ANSWER_FLUSHES: usize = 2;

/// Where the name in a reference line ends: at the first zero byte or line
/// feed after the hash and the space, or at the end of the line.
pub open spec fn ref_name_end(line: Seq<u8>) -> int {
    match find_from(line, 41, 0) {
        Some(z) => match find_from(line.subrange(0, z), 41, 10) {
            Some(n) => n,
            None => z,
        },
        None => match find_from(line, 41, 10) {
            Some(n) => n,
            None => line.len() as int,
        },
    }
}

/// The reference that a line advertises: forty hexadecimal digits, a
/// space, and the name, which ends at a line feed, at a zero byte (after
/// which a server lists what it can do) or with the line.
pub open spec fn ref_of_line(line: Seq<u8>) -> Option<(Seq<u8>, Seq<u8>)> {
    if line.len() >= 41 && line[40] == 32 {
        match hex_bytes(line.subrange(0, 40)) {
            Some(hash) => Some((line.subrange(41, ref_name_end(line)), hash)),
            None => None,
        }
    } else {
        None
    }
}

impl Ref {
    /// The reference as plain values: name and hash.
    pub open spec fn fields(&self) -> (Seq<u8>, Seq<u8>) {
        (self.name@, self.target@)
    }

    /// Reads one advertised reference (see `ref_of_line`).
    pub fn from_line(line: &[u8]) -> (r: Option<Ref>)
        ensures
            match ref_of_line(line@) {
                Some(fields) => r is Some && r->Some_0.fields() == fields,
                None => r is None,
            },
    {
        let len: usize = line.len();
        if len < 41 || line[40] != 32 {
            return None;
        }
        let hash: Vec<u8> = match hex_decode(vstd::slice::slice_subrange(line, 0, 40)) {
            None => {
                return None;
            },
            Some(h) => h,
        };
        assert(hash@.len() == 20);
        let mut hs = ByteStream::new(hash.as_slice());
        let target: [u8; 20] = match read_bytes::<20>(&mut hs) {
            Ok(t) => t,
            Err(_) => {
                return None;
            },
        };
        assert(target@ =~= hash@);
        proof {
            lemma_find_from(line@, 41, 0);
            lemma_find_from(line@, 41, 10);
        }
        let end: usize = match find_byte(line, 41, 0) {
            Some(z) => {
                proof {
                    lemma_find_from(line@.subrange(0, z as int), 41, 10);
                }
                match find_byte(vstd::slice::slice_subrange(line, 0, z), 41, 10) {
                    Some(n) => n,
                    None => z,
                }
            },
            None => match find_byte(line, 41, 10) {
                Some(n) => n,
                None => len,
            },
        };
        let name: Vec<u8> = copy_range(line, 41, end);
        Some(Ref { name, target })
    }
}

/// Whether `line` announces the upload-pack service, with or without a
/// line feed at its end.
pub open spec fn is_service_line(line: Seq<u8>) -> bool {
    line == "# service=git-upload-pack".spec_bytes() || line
        == "# service=git-upload-pack\n".spec_bytes()
}

/// The references that the lines from `from` on advertise, in their order;
/// `None` where one of them is no reference line.
pub open spec fn refs_of_lines(lines: Seq<Seq<u8>>, from: int) -> Option<Seq<(Seq<u8>, Seq<u8>)>>
    decreases lines.len() - from,
{
    if from < 0 || from >= lines.len() {
        Some(Seq::empty())
    } else {
        match ref_of_line(lines[from]) {
            None => None,
            Some(fields) => match refs_of_lines(lines, from + 1) {
                None => None,
                Some(rest) => Some(seq![fields] + rest),
            },
        }
    }
}

/// The references that a server's answer to the discovery request
/// advertises.
///
/// The answer is read up to its second flush marker. Its first line
/// announces the service and is passed over; every other line advertises a
/// reference. Errors are those of the frames (see `pkt_frames`), and
/// `Format` where the first line is missing or announces something else, or
/// a later line is no reference line.
pub open spec fn advertised(response: Seq<u8>) -> Result<Seq<(Seq<u8>, Seq<u8>)>, GitError> {
    match pkt_frames(response, 0, ANSWER_FLUSHES as nat) {
        Err(e) => Err(e),
        Ok((lines, _)) => if lines.len() > 0 && is_service_line(lines[0]) {
            match refs_of_lines(lines, 1) {
                None => Err(GitError::Format),
                Some(refs) => Ok(refs),
            }
        } else {
            Err(GitError::Format)
        },
    }
}

/// The references that a vector holds, as plain values.
pub open spec fn ref_fields(refs: Seq<Ref>) -> Seq<(Seq<u8>, Seq<u8>)> {
    Seq::new(refs.len(), |i: int| refs[i].fields())
}

/// Reads a server's answer to the discovery request (see `advertised`).
pub fn discover_refs(response: &[u8]) -> (r: Result<Vec<Ref>, GitError>)
    ensures
        match advertised(response@) {
            Ok(refs) => r is Ok && ref_fields(r->Ok_0@) == refs,
            Err(e) => r is Err && r->Err_0 == e,
        },
{
    let mut stream = ByteStream::new(response);
    let lines: Vec<PktLine> = match read_pkt_lines(&mut stream, ANSWER_FLUSHES) {
        Err(e) => {
            return Err(e);
        },
        Ok(l) => l,
    };
    let ghost texts = payloads(lines@);
    if lines.len() == 0 {
        return Err(GitError::Format);
    }
    assert(texts[0] == lines@[0].value@);
    let plain: &str = "# service=git-upload-pack";
    let ended: &str = "# service=git-upload-pack\n";
    if !same_bytes(lines[0].value.as_slice(), plain.as_bytes()) && !same_bytes(
        lines[0].value.as_slice(),
        ended.as_bytes(),
    ) {
        return Err(GitError::Format);
    }
    let n: usize = lines.len();
    let mut out: Vec<Ref> = Vec::new();
    assert(ref_fields(out@) =~= Seq::<(Seq<u8>, Seq<u8>)>::empty());
    let mut k: usize = 1;
    while k < n
        invariant
            1 <= k <= n,
            n == lines@.len(),
            texts == payloads(lines@),
            advertised(response@) == match refs_of_lines(texts, 1) {
                None => Err::<Seq<(Seq<u8>, Seq<u8>)>, GitError>(GitError::Format),
                Some(refs) => Ok(refs),
            },
            refs_of_lines(texts, 1) == match refs_of_lines(texts, k as int) {
                None => None::<Seq<(Seq<u8>, Seq<u8>)>>,
                Some(rest) => Some(ref_fields(out@) + rest),
            },
        decreases n - k,
    {
        assert(texts[k as int] == lines@[k as int].value@);
        let ghost before = ref_fields(out@);
        match Ref::from_line(lines[k].value.as_slice()) {
            None => {
                return Err(GitError::Format);
            },
            Some(r) => {
                let ghost fields = r.fields();
                out.push(r);
                assert(ref_fields(out@) =~= before + seq![fields]);
                proof {
                    if let Some(rest) = refs_of_lines(texts, k + 1) {
                        assert(before + (seq![fields] + rest) =~= ref_fields(out@) + rest);
                    }
                }
            },
        }
        k += 1;
    }
    assert(ref_fields(out@) + Seq::<(Seq<u8>, Seq<u8>)>::empty() =~= ref_fields(out@));
    Ok(out)
}

/// The hash to clone: that of the first reference advertised. `Format`
/// where none was advertised.
pub fn select_head(refs: &Vec<Ref>) -> (r: Result<[u8; 20], GitError>)
    ensures
        match r {
            Ok(hash) => refs@.len() > 0 && hash == refs@[0].target,
            Err(e) => refs@.len() == 0 && e == GitError::Format,
        },
{
    if refs.len() == 0 {
        Err(GitError::Format)
    } else {
        Ok(refs[0].target)
    }
}

/// The body of the request for the pack of `head`: a `want` line that
/// names the object and asks for `multi_ack`, `side-band-64k` and
/// `ofs-delta`, a flush marker, and a `done` line.
pub open spec fn want_request(head: Seq<u8>) -> Seq<u8> {
    "0054want ".spec_bytes() + hex_text(head)
        + " multi_ack side-band-64k ofs-delta\n00000009done\n".spec_bytes()
}

/// Writes the body of the request for the pack of `head` (see
/// `want_request`).
pub fn upload_pack_request(head: &[u8; 20]) -> (out: Vec<u8>)
    ensures
        out@ == want_request(head@),
{
    let mut out: Vec<u8> = Vec::new();
    let opening: &str = "0054want ";
    let closing: &str = " multi_ack side-band-64k ofs-delta\n00000009done\n";
    append_all(&mut out, opening.as_bytes());
    let hash: Vec<u8> = hex_encode(head.as_slice());
    append_all(&mut out, hash.as_slice());
    append_all(&mut out, closing.as_bytes());
    out
}

/// What the lines carry on side-band channel `channel`: of every line that
/// begins with that byte, the rest, one after the other.
pub open spec fn band_data(lines: Seq<Seq<u8>>, channel: u8) -> Seq<u8>
    decreases lines.len(),
{
    if lines.len() == 0 {
        Seq::empty()
    } else {
        let last = lines.last();
        band_data(lines.drop_last(), channel) + if last.len() > 0 && last[0] == channel {
            last.subrange(1, last.len() as int)
        } else {
            Seq::empty()
        }
    }
}

/// Takes the side-band apart: what the lines carry on channel 1, the pack,
/// and on channel 2, the progress text. Other lines are passed over.
pub fn demux_sideband(lines: &Vec<PktLine>) -> (r: (Vec<u8>, Vec<u8>))
    ensures
        r.0@ == band_data(payloads(lines@), 1),
        r.1@ == band_data(payloads(lines@), 2),
{
    let mut pack: Vec<u8> = Vec::new();
    let mut progress: Vec<u8> = Vec::new();
    let ghost texts = payloads(lines@);
    let mut i: usize = 0;
    while i < lines.len()
        invariant
            i <= lines@.len(),
            texts == payloads(lines@),
            pack@ == band_data(texts.take(i as int), 1),
            progress@ == band_data(texts.take(i as int), 2),
        decreases lines@.len() - i,
    {
        let value: &Vec<u8> = &lines[i].value;
        assert(texts.take(i + 1).drop_last() =~= texts.take(i as int));
        assert(texts.take(i + 1).last() == value@);
        if value.len() > 0 {
            if value[0] == 1 {
                append_range(&mut pack, value.as_slice(), 1, value.len());
            } else if value[0] == 2 {
                append_range(&mut progress, value.as_slice(), 1, value.len());
            }
        }
        i += 1;
    }
    assert(texts.take(lines@.len() as int) =~= texts);
    (pack, progress)
}

/// The pack and the progress text in a server's answer to the request for
/// a pack: the answer is read up to its second flush marker (see
/// `pkt_frames`) and its side-band taken apart (see `band_data`).
pub open spec fn received(response: Seq<u8>) -> Result<(Seq<u8>, Seq<u8>), GitError> {
    match pkt_frames(response, 0, ANSWER_FLUSHES as nat) {
        Err(e) => Err(e),
        Ok((lines, _)) => Ok((band_data(lines, 1), band_data(lines, 2))),
    }
}

/// Reads a server's answer to the request for a pack (see `received`).
pub fn receive_pack(response: &[u8]) -> (r: Result<(Vec<u8>, Vec<u8>), GitError>)
    ensures
        match received(response@) {
            Ok((pack, progress)) => r is Ok && r->Ok_0.0@ == pack && r->Ok_0.1@ == progress,
            Err(e) => r is Err && r->Err_0 == e,
        },
{
    let mut stream = ByteStream::new(response);
    match read_pkt_lines(&mut stream, ANSWER_FLUSHES) {
        Err(e) => Err(e),
        Ok(lines) => Ok(demux_sideband(&lines)),
    }
}

} // verus!

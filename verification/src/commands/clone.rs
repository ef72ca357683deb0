use vstd::prelude::*;
use vstd::string::StringSliceAdditionalSpecFns;
use std::collections::HashMap;
use crate::bytes::{append_all, copy_range, same_bytes};
use crate::digest::{crc32_checksum, hex_bytes, hex_decode, hex_encode, hex_text};
use crate::error::GitError;
use crate::git::helpers::read_bytes;
use crate::git::objects::commit::{commit_of, parse as parse_commit};
use crate::git::objects::tree::{item_fields, parse as parse_tree, tree_entries, TreeItem};
use crate::index::{index_map, lists, IndexEntry, PackIndex};
use crate::transport::{receive_pack, received, Ref};
use crate::git::packfile::{
    cache_agrees, cache_view, entry_end, headers, lemma_cache_is_transparent,
    lemma_entry_end_after, object_at, pack_header, read_object, ObjType,
};
use crate::objects::{hash_object, object_hash};
use crate::stream::ByteStream;

verus! {

/// One entry of a pack, resolved: where it starts in the pack, the content
/// and the kind of its object, the CRC-32 of the entry's bytes in the pack,
/// and the object's hash.
#[derive(Debug)]
pub struct PackEntry {
    pub offset: usize,
    pub content: Vec<u8>,
    pub kind: ObjType,
    pub crc32: u32,
    pub hash: [u8; 20],
}

/// A `PackEntry` as plain values.
pub struct EntryModel {
    pub offset: int,
    pub content: Seq<u8>,
    pub kind: ObjType,
    pub crc32: u32,
    pub hash: Seq<u8>,
}

impl PackEntry {
    pub open spec fn model(&self) -> EntryModel {
        EntryModel {
            offset: self.offset as int,
            content: self.content@,
            kind: self.kind,
            crc32: self.crc32,
            hash: self.hash@,
        }
    }
}

/// The entries that a vector holds, as plain values.
pub open spec fn entry_models(entries: Seq<PackEntry>) -> Seq<EntryModel> {
    Seq::new(entries.len(), |i: int| entries[i].model())
}

/// What the pack entry that spans `start` to `end` resolves to. The
/// object's content and kind are those of `object_at`; where the entry
/// does not resolve they stand for nothing.
pub open spec fn entry_model_at(data: Seq<u8>, start: int, end: int) -> EntryModel {
    let (content, kind) = match object_at(data, start) {
        Ok(found) => found,
        Err(_) => (Seq::empty(), ObjType::Blob),
    };
    EntryModel {
        offset: start,
        content,
        kind,
        crc32: crc32_checksum(data.subrange(start, end)),
        hash: object_hash(kind, content),
    }
}

/// The bounds of the `n` entries that follow one another from `pos` on:
/// where each starts, and last where the last one ends. Fails as the first
/// entry that does not resolve (see `object_at`); an entry that resolves
/// has an end.
pub open spec fn entry_bounds(data: Seq<u8>, pos: int, n: nat) -> Result<Seq<int>, GitError>
    decreases n,
{
    if n == 0 {
        Ok(seq![pos])
    } else {
        match object_at(data, pos) {
            Err(e) => Err(e),
            Ok(_) => match entry_end(data, pos) {
                None => Err(GitError::Format),
                Some(end) => match entry_bounds(data, end, (n - 1) as nat) {
                    Err(e) => Err(e),
                    Ok(rest) => Ok(seq![pos] + rest),
                },
            },
        }
    }
}

/// The bounds of the entries of a whole pack (see `entry_bounds`): the
/// header, as many entries as the header counts, and then exactly twenty
/// bytes of checksum.
///
/// Errors are those of the header (see `pack_header`) and of the entries;
/// after the entries, `Transport` where fewer than twenty bytes are left
/// and `Format` where more are.
pub open spec fn pack_bounds(data: Seq<u8>) -> Result<Seq<int>, GitError> {
    match pack_header(data, 0) {
        Err(e) => Err(e),
        Ok((_, _, n)) => match entry_bounds(data, 12, n as nat) {
            Err(e) => Err(e),
            Ok(bounds) => if bounds.last() + 20 == data.len() {
                Ok(bounds)
            } else if bounds.last() + 20 > data.len() {
                Err(GitError::Transport)
            } else {
                Err(GitError::Format)
            },
        },
    }
}

/// Whether each bound lies before those after it.
pub open spec fn bounds_ascend(bounds: Seq<int>) -> bool {
    forall|i: int, j: int| 0 <= i < j < bounds.len() ==> #[trigger] bounds[i] < #[trigger] bounds[j]
}

/// There is one bound more than there are entries, the first bound is
/// where the first entry starts, and the bounds ascend.
pub proof fn lemma_entry_bounds_shape(data: Seq<u8>, pos: int, n: nat)
    ensures
        entry_bounds(data, pos, n) matches Ok(bounds) ==> bounds.len() == n + 1 && bounds[0] == pos
            && bounds_ascend(bounds),
    decreases n,
{
    if n > 0 {
        if object_at(data, pos) is Ok {
            if let Some(end) = entry_end(data, pos) {
                lemma_entry_bounds_shape(data, end, (n - 1) as nat);
                lemma_entry_end_after(data, pos);
                if let Ok(rest) = entry_bounds(data, end, (n - 1) as nat) {
                    let bounds = seq![pos] + rest;
                    assert forall|i: int, j: int| 0 <= i < j < bounds.len() implies #[trigger] bounds[i]
                        < #[trigger] bounds[j] by {
                        assert(bounds[j] == rest[j - 1]);
                        if i > 0 {
                            assert(bounds[i] == rest[i - 1]);
                        } else if j > 1 {
                            assert(rest[0] < rest[j - 1]);
                        }
                    }
                }
            }
        }
    }
}

/// The bytes of the first `k` spans between neighbouring bounds, one
/// after the other.
pub open spec fn spans_joined(data: Seq<u8>, bounds: Seq<int>, k: int) -> Seq<u8>
    decreases k,
{
    if k <= 0 {
        Seq::empty()
    } else {
        spans_joined(data, bounds, k - 1) + data.subrange(bounds[k - 1], bounds[k])
    }
}

proof fn lemma_spans_prefix(data: Seq<u8>, bounds: Seq<int>, k: int)
    requires
        0 <= k < bounds.len(),
        0 <= bounds[0],
        bounds[k] <= data.len(),
        bounds_ascend(bounds),
    ensures
        bounds[0] <= bounds[k],
        spans_joined(data, bounds, k) == data.subrange(bounds[0], bounds[k]),
    decreases k,
{
    if k > 0 {
        assert(bounds[k - 1] < bounds[k]);
        lemma_spans_prefix(data, bounds, k - 1);
        assert(data.subrange(bounds[0], bounds[k - 1]) + data.subrange(bounds[k - 1], bounds[k])
            =~= data.subrange(bounds[0], bounds[k]));
    } else {
        assert(data.subrange(bounds[0], bounds[0]) =~= Seq::<u8>::empty());
    }
}

/// Reading a pack consumes it exactly up to its checksum: the entries
/// start after the twelve bytes of the header, each starts where the one
/// before it ends, the last ends twenty bytes before the end of the pack,
/// and the header and the spans of the entries, one after the other, are
/// the pack without its checksum.
pub proof fn lemma_pack_is_covered(data: Seq<u8>)
    requires
        pack_bounds(data) is Ok,
    ensures
        ({
            let bounds = pack_bounds(data)->Ok_0;
            &&& bounds.len() >= 1
            &&& bounds[0] == 12
            &&& bounds.last() == data.len() - 20
            &&& bounds_ascend(bounds)
            &&& data.subrange(0, 12) + spans_joined(data, bounds, bounds.len() - 1)
                == data.subrange(0, data.len() - 20)
        }),
{
    let n = pack_header(data, 0)->Ok_0.2 as nat;
    let bounds = pack_bounds(data)->Ok_0;
    assert(entry_bounds(data, 12, n) == Ok::<Seq<int>, GitError>(bounds));
    lemma_entry_bounds_shape(data, 12, n);
    lemma_spans_prefix(data, bounds, bounds.len() - 1);
    assert(data.subrange(0, 12) + data.subrange(12, data.len() - 20) =~= data.subrange(
        0,
        data.len() - 20,
    ));
}

/// The entries of a pack, resolved, and the checksum that ends the pack.
#[derive(Debug)]
pub struct Unpacked {
    pub entries: Vec<PackEntry>,
    pub trailer: [u8; 20],
}

/// The bounds with `prefix` before them.
pub open spec fn bounds_after(prefix: Seq<int>, r: Result<Seq<int>, GitError>) -> Result<
    Seq<int>,
    GitError,
> {
    match r {
        Err(e) => Err(e),
        Ok(rest) => Ok(prefix + rest),
    }
}

/// Resolves the entry at the stream's position, moves the stream past it
/// and notes the object in `cache` under the entry's offset.
///
/// On an error the stream and the cache stay as they were.
pub fn unpack_entry(stream: &mut ByteStream, cache: &mut HashMap<usize, (Vec<u8>, ObjType)>) -> (r:
    Result<PackEntry, GitError>)
    requires
        cache_agrees(old(stream).data@, cache_view(old(cache)@)),
    ensures
        final(stream).data == old(stream).data,
        cache_agrees(old(stream).data@, cache_view(final(cache)@)),
        match object_at(old(stream).data@, old(stream).pos as int) {
            Ok(_) => r is Ok && r->Ok_0.model() == entry_model_at(
                old(stream).data@,
                old(stream).pos as int,
                final(stream).pos as int,
            ) && entry_end(old(stream).data@, old(stream).pos as int) == Some(
                final(stream).pos as int,
            ) && old(stream).pos < final(stream).pos <= old(stream).data@.len(),
            Err(e) => r is Err && r->Err_0 == e && final(stream).pos == old(stream).pos
                && final(cache)@ == old(cache)@,
        },
{
    broadcast use vstd::std_specs::hash::group_hash_axioms;

    let ghost data = stream.data@;
    let offset: usize = stream.pos;
    proof {
        lemma_cache_is_transparent(data, offset as int, cache_view(cache@));
    }
    let (content, kind) = match read_object(stream, offset, cache) {
        Err(e) => {
            return Err(e);
        },
        Ok(found) => found,
    };
    let end: usize = stream.pos;
    let crc32: u32 = crc32fast::hash(vstd::slice::slice_subrange(stream.data, offset, end));
    let hash: [u8; 20] = hash_object(kind, content.as_slice());
    let held: Vec<u8> = copy_range(content.as_slice(), 0, content.len());
    assert(held@ =~= content@);
    let ghost before = cache_view(cache@);
    cache.insert(offset, (held, kind));
    proof {
        reveal(cache_agrees);
        assert(cache_view(cache@) =~= before.insert(offset as int, (content@, kind)));
        assert forall|k: int| #[trigger] cache_view(cache@).contains_key(k) implies object_at(
            data,
            k,
        ) == Ok::<(Seq<u8>, ObjType), GitError>(cache_view(cache@)[k]) by {
            if k != offset {
                assert(before.contains_key(k));
            }
        }
    }
    Ok(PackEntry { offset, content, kind, crc32, hash })
}

/// Resolves every entry of a pack, in the order of the stream.
///
/// On success there is one entry for each pair of neighbouring bounds (see
/// `pack_bounds`), resolved as `entry_model_at` says, and the trailer is
/// the last twenty bytes of the pack.
pub fn unpack(pack: &[u8]) -> (r: Result<Unpacked, GitError>)
    ensures
        match pack_bounds(pack@) {
            Ok(bounds) => r is Ok && r->Ok_0.entries@.len() + 1 == bounds.len() && (forall|i: int|
                0 <= i < r->Ok_0.entries@.len() ==> (#[trigger] r->Ok_0.entries@[i]).model()
                    == entry_model_at(pack@, bounds[i], bounds[i + 1])) && r->Ok_0.trailer@
                == pack@.subrange(pack@.len() - 20, pack@.len() as int),
            Err(e) => r is Err && r->Err_0 == e,
        },
{
    let mut stream = ByteStream::new(pack);
    let ghost data = pack@;
    let (_, _, count) = match headers(&mut stream) {
        Err(e) => {
            return Err(e);
        },
        Ok(h) => h,
    };
    let mut entries: Vec<PackEntry> = Vec::new();
    let mut cache: HashMap<usize, (Vec<u8>, ObjType)> = HashMap::new();
    let ghost mut starts: Seq<int> = Seq::empty();
    let mut i: u32 = 0;
    assert(starts + seq![12int] =~= seq![12int]);
    assert(cache_agrees(data, cache_view(cache@))) by {
        reveal(cache_agrees);
        assert(cache_view(cache@) =~= Map::<int, (Seq<u8>, ObjType)>::empty());
    }
    while i < count
        invariant
            i <= count,
            stream.data@ == data,
            data == pack@,
            stream.pos <= data.len(),
            pack_header(data, 0) is Ok,
            pack_header(data, 0)->Ok_0.2 == count,
            entries@.len() == i,
            starts.len() == i,
            entry_bounds(data, 12, count as nat) == bounds_after(
                starts,
                entry_bounds(data, stream.pos as int, (count - i) as nat),
            ),
            forall|k: int|
                0 <= k < i ==> (#[trigger] entries@[k]).model() == entry_model_at(
                    data,
                    starts[k],
                    if k + 1 < i {
                        starts[k + 1]
                    } else {
                        stream.pos as int
                    },
                ),
            cache_agrees(data, cache_view(cache@)),
        decreases count - i,
    {
        let ghost offset = stream.pos as int;
        let entry: PackEntry = match unpack_entry(&mut stream, &mut cache) {
            Err(e) => {
                return Err(e);
            },
            Ok(entry) => entry,
        };
        let ghost old_entries = entries@;
        let ghost old_starts = starts;
        entries.push(entry);
        proof {
            starts = starts.push(offset);
            assert forall|k: int| 0 <= k < i + 1 implies (#[trigger] entries@[k]).model()
                == entry_model_at(
                data,
                starts[k],
                if k + 1 < i + 1 {
                    starts[k + 1]
                } else {
                    stream.pos as int
                },
            ) by {
                if k < i {
                    assert(entries@[k] == old_entries[k]);
                    assert(starts[k] == old_starts[k]);
                    if k + 1 < i {
                        assert(starts[k + 1] == old_starts[k + 1]);
                    }
                }
            }
            if let Ok(rest) = entry_bounds(data, stream.pos as int, (count - i - 1) as nat) {
                assert(old_starts + (seq![offset] + rest) =~= starts + rest);
            }
        }
        i += 1;
    }
    let ghost bounds = starts.push(stream.pos as int);
    assert(starts + seq![stream.pos as int] =~= bounds);
    let left: usize = pack.len() - stream.pos;
    if left < 20 {
        return Err(GitError::Transport);
    }
    if left > 20 {
        return Err(GitError::Format);
    }
    let trailer: [u8; 20] = match read_bytes::<20>(&mut stream) {
        Ok(t) => t,
        Err(e) => {
            return Err(e);
        },
    };
    Ok(Unpacked { entries, trailer })
}

/// The position of the last of the objects whose hash is `hash`.
pub open spec fn last_with_hash(objects: Seq<EntryModel>, hash: Seq<u8>) -> Option<int>
    decreases objects.len(),
{
    if objects.len() == 0 {
        None
    } else if objects.last().hash == hash {
        Some(objects.len() - 1)
    } else {
        last_with_hash(objects.drop_last(), hash)
    }
}

/// What `last_with_hash` finds lies among the objects and has the hash.
pub proof fn lemma_last_with_hash(objects: Seq<EntryModel>, hash: Seq<u8>)
    ensures
        last_with_hash(objects, hash) matches Some(i) ==> 0 <= i < objects.len()
            && objects[i].hash == hash,
    decreases objects.len(),
{
    if objects.len() > 0 && objects.last().hash != hash {
        lemma_last_with_hash(objects.drop_last(), hash);
    }
}

/// Finds the object named `hash`: the last entry with that hash.
pub fn find_object(entries: &Vec<PackEntry>, hash: &[u8]) -> (r: Option<usize>)
    ensures
        match last_with_hash(entry_models(entries@), hash@) {
            Some(i) => r is Some && r->Some_0 == i && i < entries@.len(),
            None => r is None,
        },
{
    let ghost objects = entry_models(entries@);
    let mut i: usize = entries.len();
    proof {
        assert(objects.take(i as int) =~= objects);
        lemma_last_with_hash(objects, hash@);
    }
    while i > 0
        invariant
            i <= entries@.len(),
            objects == entry_models(entries@),
            last_with_hash(objects, hash@) == last_with_hash(objects.take(i as int), hash@),
        decreases i,
    {
        assert(objects.take(i as int).last() == entries@[i - 1].model());
        assert(objects.take(i as int).drop_last() =~= objects.take(i - 1));
        if same_bytes(entries[i - 1].hash.as_slice(), hash) {
            return Some(i - 1);
        }
        i -= 1;
    }
    None
}

/// One step of writing out a working tree.
#[derive(Debug)]
pub enum CheckoutStep {
    /// Create the directory `path`, and those above it.
    CreateDir { path: Vec<u8> },
    /// Write the content of the object at position `object` among the
    /// pack's entries to the file `path`, with permission bits `mode`.
    WriteFile { path: Vec<u8>, mode: u32, object: usize },
}

/// A `CheckoutStep` as plain values.
pub enum StepModel {
    CreateDir { path: Seq<u8> },
    WriteFile { path: Seq<u8>, mode: u32, object: int },
}

impl CheckoutStep {
    pub open spec fn model(&self) -> StepModel {
        match self {
            CheckoutStep::CreateDir { path } => StepModel::CreateDir { path: path@ },
            CheckoutStep::WriteFile { path, mode, object } => StepModel::WriteFile {
                path: path@,
                mode: *mode,
                object: *object as int,
            },
        }
    }
}

/// The steps that a vector holds, as plain values.
pub open spec fn step_models(steps: Seq<CheckoutStep>) -> Seq<StepModel> {
    Seq::new(steps.len(), |i: int| steps[i].model())
}

/// A tree that waits to be written out: its hash and the path of its
/// directory.
pub struct PendingTree {
    pub hash: Vec<u8>,
    pub path: Vec<u8>,
}

impl PendingTree {
    pub open spec fn model(&self) -> (Seq<u8>, Seq<u8>) {
        (self.hash@, self.path@)
    }
}

/// The trees that a vector holds from `from` on, as plain values.
pub open spec fn pending_models(queue: Seq<PendingTree>, from: int) -> Seq<(Seq<u8>, Seq<u8>)> {
    Seq::new((queue.len() - from) as nat, |i: int| queue[from + i].model())
}

/// The path of the entry `name` in the directory `dir`.
pub open spec fn child_path(dir: Seq<u8>, name: Seq<u8>) -> Seq<u8> {
    dir + seq![47u8] + name
}

/// What the first `k` entries of a tree in the directory `path` ask for:
/// the files to write, and the trees below it that wait to be written out.
///
/// An entry that names a blob is a file, one that names a tree waits.
/// `NotFound` at the first entry whose object is not among `objects`, or is
/// neither a blob nor a tree.
pub open spec fn tree_steps(
    objects: Seq<EntryModel>,
    items: Seq<(u32, Seq<u8>, Seq<u8>)>,
    path: Seq<u8>,
    k: int,
) -> Result<(Seq<StepModel>, Seq<(Seq<u8>, Seq<u8>)>), GitError>
    decreases k,
{
    if k <= 0 {
        Ok((Seq::empty(), Seq::empty()))
    } else {
        match tree_steps(objects, items, path, k - 1) {
            Err(e) => Err(e),
            Ok((steps, below)) => {
                let (mode, name, hash) = items[k - 1];
                match last_with_hash(objects, hash) {
                    None => Err(GitError::NotFound),
                    Some(at) => match objects[at].kind {
                        ObjType::Tree => Ok((steps, below.push((hash, child_path(path, name))))),
                        ObjType::Blob => Ok(
                            (
                                steps.push(
                                    StepModel::WriteFile {
                                        path: child_path(path, name),
                                        mode,
                                        object: at,
                                    },
                                ),
                                below,
                            ),
                        ),
                        _ => Err(GitError::NotFound),
                    },
                }
            },
        }
    }
}

/// The steps that write out the trees of `queue`, breadth first, stopping
/// with `Format` once more than `limit` trees have been opened.
///
/// For each tree: the step that creates its directory, then the files of
/// the tree in the order of its entries; the trees below it join the end of
/// the queue. `NotFound` where a tree is not among `objects`; the errors of
/// `tree_entries` where its content is no tree; those of `tree_steps`.
pub open spec fn walk_steps(
    objects: Seq<EntryModel>,
    queue: Seq<(Seq<u8>, Seq<u8>)>,
    limit: nat,
) -> Result<Seq<StepModel>, GitError>
    decreases limit,
{
    if queue.len() == 0 {
        Ok(Seq::empty())
    } else if limit == 0 {
        Err(GitError::Format)
    } else {
        let (hash, path) = queue[0];
        match last_with_hash(objects, hash) {
            None => Err(GitError::NotFound),
            Some(at) => match tree_entries(objects[at].content, 0) {
                Err(e) => Err(e),
                Ok(items) => match tree_steps(objects, items, path, items.len() as int) {
                    Err(e) => Err(e),
                    Ok((steps, below)) => match walk_steps(
                        objects,
                        queue.drop_first() + below,
                        (limit - 1) as nat,
                    ) {
                        Err(e) => Err(e),
                        Ok(rest) => Ok(seq![StepModel::CreateDir { path }] + steps + rest),
                    },
                },
            },
        }
    }
}

/// The steps that write out the working tree of the commit named `head`.
///
/// The commit is looked up among `objects` and read (see `commit_of`); its
/// tree, named in hexadecimal digits, is written out into the directory `.`
/// (see `walk_steps`). `NotFound` where the commit is not among `objects`;
/// `Format` where its content is no commit or its tree no hexadecimal text.
pub open spec fn checkout_steps(objects: Seq<EntryModel>, head: Seq<u8>, limit: nat) -> Result<
    Seq<StepModel>,
    GitError,
> {
    match last_with_hash(objects, head) {
        None => Err(GitError::NotFound),
        Some(at) => match commit_of(objects[at].content) {
            None => Err(GitError::Format),
            Some(commit) => match hex_bytes(commit.tree) {
                None => Err(GitError::Format),
                Some(tree) => walk_steps(objects, seq![(tree, seq![46u8])], limit),
            },
        },
    }
}

/// What one tree in the directory `path` asks for (see `tree_steps`, over
/// all of its entries): the files are added to `steps`, the trees below it
/// to `queue`.
fn expand_tree(
    entries: &Vec<PackEntry>,
    items: &Vec<TreeItem>,
    path: &Vec<u8>,
    steps: &mut Vec<CheckoutStep>,
    queue: &mut Vec<PendingTree>,
) -> (r: Result<(), GitError>)
    ensures
        match tree_steps(
            entry_models(entries@),
            item_fields(items@),
            path@,
            items@.len() as int,
        ) {
            Ok((files, below)) => r is Ok && step_models(final(steps)@) == step_models(old(steps)@)
                + files && final(queue)@.len() == old(queue)@.len() + below.len() && (forall|
                j: int,
            |
                0 <= j < old(queue)@.len() ==> final(queue)@[j] == old(queue)@[j])
                && pending_models(final(queue)@, old(queue)@.len() as int) == below,
            Err(e) => r is Err && r->Err_0 == e,
        },
{
    let ghost objects = entry_models(entries@);
    let ghost fields = item_fields(items@);
    let ghost steps0 = step_models(steps@);
    let ghost queue0 = queue@;
    let mut k: usize = 0;
    assert(steps0 + Seq::<StepModel>::empty() =~= steps0);
    assert(pending_models(queue@, queue0.len() as int) =~= Seq::<(Seq<u8>, Seq<u8>)>::empty());
    while k < items.len()
        invariant
            k <= items@.len(),
            objects == entry_models(entries@),
            fields == item_fields(items@),
            queue0 == old(queue)@,
            steps0 == step_models(old(steps)@),
            tree_steps(objects, fields, path@, k as int) is Ok,
            step_models(steps@) == steps0 + tree_steps(objects, fields, path@, k as int)->Ok_0.0,
            queue@.len() == queue0.len() + tree_steps(objects, fields, path@, k as int)->Ok_0.1.len(),
            forall|j: int| 0 <= j < queue0.len() ==> queue@[j] == queue0[j],
            pending_models(queue@, queue0.len() as int) == tree_steps(
                objects,
                fields,
                path@,
                k as int,
            )->Ok_0.1,
        decreases items@.len() - k,
    {
        let item: &TreeItem = &items[k];
        assert(fields[k as int] == item.fields());
        let ghost so_far = tree_steps(objects, fields, path@, k as int)->Ok_0;
        proof {
            lemma_last_with_hash(objects, item.hash@);
        }
        let at: usize = match find_object(entries, item.hash.as_slice()) {
            None => {
                proof {
                    lemma_tree_steps_error(objects, fields, path@, k + 1, items@.len() as int);
                }
                return Err(GitError::NotFound);
            },
            Some(at) => at,
        };
        assert(objects[at as int] == entries@[at as int].model());
        let mut child: Vec<u8> = Vec::new();
        append_all(&mut child, path.as_slice());
        child.push(47);
        append_all(&mut child, item.name.as_slice());
        assert(child@ =~= child_path(path@, item.name@));
        let ghost steps_before = step_models(steps@);
        let ghost queue_before = queue@;
        match entries[at].kind {
            ObjType::Tree => {
                let hash: Vec<u8> = copy_range(item.hash.as_slice(), 0, 20);
                assert(hash@ =~= item.hash@);
                queue.push(PendingTree { hash, path: child });
                assert(pending_models(queue@, queue0.len() as int) =~= so_far.1.push(
                    (item.hash@, child_path(path@, item.name@)),
                ));
            },
            ObjType::Blob => {
                let ghost added = StepModel::WriteFile {
                    path: child_path(path@, item.name@),
                    mode: item.mode,
                    object: at as int,
                };
                let ghost held = steps@;
                steps.push(CheckoutStep::WriteFile { path: child, mode: item.mode, object: at });
                assert(steps@.last().model() == added);
                assert forall|j: int| 0 <= j < held.len() implies steps@[j].model()
                    == held[j].model() by {
                    assert(steps@[j] == held[j]);
                }
                assert(step_models(steps@) =~= steps_before.push(added));
                assert(steps_before.push(added) =~= steps0 + so_far.0.push(added));
            },
            _ => {
                proof {
                    lemma_tree_steps_error(objects, fields, path@, k + 1, items@.len() as int);
                }
                return Err(GitError::NotFound);
            },
        }
        k += 1;
    }
    Ok(())
}

proof fn lemma_tree_steps_error(
    objects: Seq<EntryModel>,
    items: Seq<(u32, Seq<u8>, Seq<u8>)>,
    path: Seq<u8>,
    k: int,
    n: int,
)
    requires
        k <= n,
        tree_steps(objects, items, path, k) is Err,
    ensures
        tree_steps(objects, items, path, n) == tree_steps(objects, items, path, k),
    decreases n - k,
{
    if k < n {
        lemma_tree_steps_error(objects, items, path, k, n - 1);
    }
}

/// The steps with `prefix` before them.
pub open spec fn steps_after(prefix: Seq<StepModel>, r: Result<Seq<StepModel>, GitError>) -> Result<
    Seq<StepModel>,
    GitError,
> {
    match r {
        Err(e) => Err(e),
        Ok(rest) => Ok(prefix + rest),
    }
}

/// Plans the writing out of the working tree of the commit named `head`
/// (see `checkout_steps`). Nothing is written: the steps are returned, to
/// be carried out in their order.
pub fn checkout(entries: &Vec<PackEntry>, head: &[u8], limit: usize) -> (r: Result<
    Vec<CheckoutStep>,
    GitError,
>)
    ensures
        match checkout_steps(entry_models(entries@), head@, limit as nat) {
            Ok(steps) => r is Ok && step_models(r->Ok_0@) == steps,
            Err(e) => r is Err && r->Err_0 == e,
        },
{
    let ghost objects = entry_models(entries@);
    proof {
        lemma_last_with_hash(objects, head@);
    }
    let at: usize = match find_object(entries, head) {
        None => {
            return Err(GitError::NotFound);
        },
        Some(at) => at,
    };
    assert(objects[at as int] == entries@[at as int].model());
    let mut text = ByteStream::new(entries[at].content.as_slice());
    assert(text.rest() =~= entries@[at as int].content@);
    let commit = match parse_commit(&mut text) {
        Err(_) => {
            return Err(GitError::Format);
        },
        Ok(c) => c,
    };
    let root: Vec<u8> = match hex_decode(commit.tree.as_slice()) {
        None => {
            return Err(GitError::Format);
        },
        Some(t) => t,
    };
    let mut here: Vec<u8> = Vec::new();
    here.push(46);
    assert(here@ =~= seq![46u8]);
    let mut queue: Vec<PendingTree> = Vec::new();
    queue.push(PendingTree { hash: root, path: here });
    assert(pending_models(queue@, 0) =~= seq![(root@, seq![46u8])]);
    let mut steps: Vec<CheckoutStep> = Vec::new();
    let mut next: usize = 0;
    let mut left: usize = limit;
    assert(step_models(steps@) + Seq::<StepModel>::empty() =~= Seq::<StepModel>::empty());
    assert(step_models(steps@) =~= Seq::<StepModel>::empty());
    loop
        invariant
            next <= queue@.len(),
            objects == entry_models(entries@),
            checkout_steps(objects, head@, limit as nat) == steps_after(
                step_models(steps@),
                walk_steps(objects, pending_models(queue@, next as int), left as nat),
            ),
        decreases left,
    {
        if next >= queue.len() {
            assert(step_models(steps@) + Seq::<StepModel>::empty() =~= step_models(steps@));
            return Ok(steps);
        }
        if left == 0 {
            return Err(GitError::Format);
        }
        let ghost waiting = pending_models(queue@, next as int);
        assert(waiting[0] == queue@[next as int].model());
        proof {
            lemma_last_with_hash(objects, queue@[next as int].hash@);
        }
        let tree_at: usize = match find_object(entries, queue[next].hash.as_slice()) {
            None => {
                return Err(GitError::NotFound);
            },
            Some(t) => t,
        };
        assert(objects[tree_at as int] == entries@[tree_at as int].model());
        let mut body = ByteStream::new(entries[tree_at].content.as_slice());
        let items: Vec<TreeItem> = match parse_tree(&mut body) {
            Err(e) => {
                return Err(e);
            },
            Ok(items) => items,
        };
        let path: Vec<u8> = copy_range(queue[next].path.as_slice(), 0, queue[next].path.len());
        let made: Vec<u8> = copy_range(queue[next].path.as_slice(), 0, queue[next].path.len());
        assert(path@ =~= queue@[next as int].path@);
        assert(made@ =~= queue@[next as int].path@);
        let ghost steps_before = step_models(steps@);
        let ghost held = steps@;
        steps.push(CheckoutStep::CreateDir { path: made });
        proof {
            assert forall|j: int| 0 <= j < held.len() implies steps@[j].model()
                == held[j].model() by {
                assert(steps@[j] == held[j]);
            }
            assert(step_models(steps@) =~= steps_before.push(
                StepModel::CreateDir { path: path@ },
            ));
        }
        let ghost queue_before = queue@;
        match expand_tree(entries, &items, &path, &mut steps, &mut queue) {
            Err(e) => {
                return Err(e);
            },
            Ok(_) => {},
        }
        proof {
            let found = tree_steps(objects, item_fields(items@), path@, items@.len() as int)->Ok_0;
            assert(pending_models(queue@, next + 1) =~= waiting.drop_first() + found.1) by {
                assert forall|j: int| 0 <= j < queue@.len() - next - 1 implies pending_models(
                    queue@,
                    next + 1,
                )[j] == (waiting.drop_first() + found.1)[j] by {
                    if next + 1 + j < queue_before.len() {
                        assert(queue@[next + 1 + j] == queue_before[next + 1 + j]);
                    } else {
                        assert(pending_models(queue@, queue_before.len() as int)[next + 1 + j
                            - queue_before.len()] == queue@[next + 1 + j].model());
                    }
                }
            }
            if let Ok(rest) = walk_steps(
                objects,
                waiting.drop_first() + found.1,
                (left - 1) as nat,
            ) {
                assert(steps_before + (seq![StepModel::CreateDir { path: path@ }] + found.0 + rest)
                    =~= step_models(steps@) + rest);
            }
        }
        next += 1;
        left -= 1;
    }
}

/// The rows of a pack's index, one for each entry in the order of the
/// entries. `Format` where an entry starts past what 32 bits can say.
pub fn index_rows(entries: &Vec<PackEntry>) -> (r: Result<Vec<IndexEntry>, GitError>)
    ensures
        match r {
            Ok(rows) => rows@.len() == entries@.len() && forall|i: int|
                0 <= i < rows@.len() ==> (#[trigger] rows@[i]).hash == entries@[i].hash
                    && rows@[i].offset == entries@[i].offset && rows@[i].crc32
                    == entries@[i].crc32,
            Err(e) => e == GitError::Format && exists|i: int|
                0 <= i < entries@.len() && (#[trigger] entries@[i]).offset > u32::MAX,
        },
{
    let mut rows: Vec<IndexEntry> = Vec::new();
    let mut i: usize = 0;
    while i < entries.len()
        invariant
            i <= entries@.len(),
            rows@.len() == i,
            forall|k: int|
                0 <= k < i ==> (#[trigger] rows@[k]).hash == entries@[k].hash && rows@[k].offset
                    == entries@[k].offset && rows@[k].crc32 == entries@[k].crc32,
        decreases entries@.len() - i,
    {
        if entries[i].offset > 0xffff_ffff {
            assert(entries@[i as int].offset > u32::MAX);
            return Err(GitError::Format);
        }
        rows.push(
            IndexEntry {
                hash: entries[i].hash,
                offset: entries[i].offset as u32,
                crc32: entries[i].crc32,
            },
        );
        i += 1;
    }
    Ok(rows)
}

/// The path of a pack's files without their ending: `pack_` and the
/// checksum of the pack in hexadecimal digits, in the pack directory.
pub open spec fn pack_stem(trailer: Seq<u8>) -> Seq<u8> {
    ".git/objects/pack/pack_".spec_bytes() + hex_text(trailer)
}

/// The path of the file that holds the pack with checksum `trailer`.
pub fn pack_path(trailer: &[u8; 20]) -> (out: Vec<u8>)
    ensures
        out@ == pack_stem(trailer@) + ".pack".spec_bytes(),
{
    let mut out: Vec<u8> = Vec::new();
    let stem: &str = ".git/objects/pack/pack_";
    let ending: &str = ".pack";
    append_all(&mut out, stem.as_bytes());
    append_all(&mut out, hex_encode(trailer.as_slice()).as_slice());
    append_all(&mut out, ending.as_bytes());
    out
}

/// The path of the file that holds the index of the pack with checksum
/// `trailer`.
pub fn index_path(trailer: &[u8; 20]) -> (out: Vec<u8>)
    ensures
        out@ == pack_stem(trailer@) + ".idx".spec_bytes(),
{
    let mut out: Vec<u8> = Vec::new();
    let stem: &str = ".git/objects/pack/pack_";
    let ending: &str = ".idx";
    append_all(&mut out, stem.as_bytes());
    append_all(&mut out, hex_encode(trailer.as_slice()).as_slice());
    append_all(&mut out, ending.as_bytes());
    out
}

/// The path of the file that holds the reference `name`.
pub fn ref_path(name: &[u8]) -> (out: Vec<u8>)
    ensures
        out@ == ".git/".spec_bytes() + name@,
{
    let mut out: Vec<u8> = Vec::new();
    let root: &str = ".git/";
    append_all(&mut out, root.as_bytes());
    append_all(&mut out, name);
    out
}

/// The content of the file of a reference to `target`: the hash in
/// hexadecimal digits and a line feed.
pub fn ref_content(target: &[u8; 20]) -> (out: Vec<u8>)
    ensures
        out@ == hex_text(target@) + seq![10u8],
{
    let mut out: Vec<u8> = hex_encode(target.as_slice());
    out.push(10);
    out
}

/// The file of a reference: its path and its content.
#[derive(Debug)]
pub struct RefFile {
    pub path: Vec<u8>,
    pub content: Vec<u8>,
}

/// The name under which a server advertises what its current branch
/// points at.
pub open spec fn head_name() -> Seq<u8> {
    "HEAD".spec_bytes()
}

/// The files of the first `k` of the references: one for each reference
/// but those named `HEAD`, with the path `.git/` and the name, and the
/// hash in hexadecimal digits and a line feed as content.
pub open spec fn ref_file_models(refs: Seq<Ref>, k: int) -> Seq<(Seq<u8>, Seq<u8>)>
    decreases k,
{
    if k <= 0 {
        Seq::empty()
    } else {
        let r = refs[k - 1];
        let before = ref_file_models(refs, k - 1);
        if r.name@ == head_name() {
            before
        } else {
            before.push((".git/".spec_bytes() + r.name@, hex_text(r.target@) + seq![10u8]))
        }
    }
}

/// The files that hold the advertised references (see `ref_file_models`).
pub fn ref_files(refs: &Vec<Ref>) -> (files: Vec<RefFile>)
    ensures
        files@.len() == ref_file_models(refs@, refs@.len() as int).len(),
        forall|i: int|
            0 <= i < files@.len() ==> ((#[trigger] files@[i]).path@, files@[i].content@)
                == ref_file_models(refs@, refs@.len() as int)[i],
{
    let mut files: Vec<RefFile> = Vec::new();
    let mut k: usize = 0;
    while k < refs.len()
        invariant
            k <= refs@.len(),
            files@.len() == ref_file_models(refs@, k as int).len(),
            forall|i: int|
                0 <= i < files@.len() ==> ((#[trigger] files@[i]).path@, files@[i].content@)
                    == ref_file_models(refs@, k as int)[i],
        decreases refs@.len() - k,
    {
        let head: &str = "HEAD";
        if !same_bytes(refs[k].name.as_slice(), head.as_bytes()) {
            let path: Vec<u8> = ref_path(refs[k].name.as_slice());
            let content: Vec<u8> = ref_content(&refs[k].target);
            files.push(RefFile { path, content });
        }
        k += 1;
    }
    files
}

/// What a clone writes, once the pack has been received.
#[derive(Debug)]
pub struct ClonePlan {
    /// The pack as the server sent it.
    pub pack: Vec<u8>,
    /// What the server said of its progress.
    pub progress: Vec<u8>,
    /// The pack's entries, resolved, and its checksum.
    pub unpacked: Unpacked,
    /// The steps that write out the working tree.
    pub steps: Vec<CheckoutStep>,
    /// The index of the pack.
    pub index: PackIndex,
}

/// The entries of a pack with the bounds `bounds`, resolved.
pub open spec fn pack_entries(pack: Seq<u8>, bounds: Seq<int>) -> Seq<EntryModel> {
    Seq::new((bounds.len() - 1) as nat, |i: int| entry_model_at(pack, bounds[i], bounds[i + 1]))
}

/// Whether `rows` are the rows of `objects`, one for one.
pub open spec fn rows_of(rows: Seq<IndexEntry>, objects: Seq<EntryModel>) -> bool {
    rows.len() == objects.len() && forall|i: int|
        0 <= i < rows.len() ==> (#[trigger] rows[i]).hash@ == objects[i].hash && rows[i].offset
            == objects[i].offset && rows[i].crc32 == objects[i].crc32
}

/// Where each object of a pack starts, and the CRC-32 of its entry, by the
/// object's hash: of two entries with one hash the later counts.
pub open spec fn offsets_by_hash(objects: Seq<EntryModel>) -> Map<Seq<u8>, (u32, u32)>
    decreases objects.len(),
{
    if objects.len() == 0 {
        Map::empty()
    } else {
        offsets_by_hash(objects.drop_last()).insert(
            objects.last().hash,
            (objects.last().offset as u32, objects.last().crc32),
        )
    }
}

proof fn lemma_rows_map(rows: Seq<IndexEntry>, objects: Seq<EntryModel>)
    requires
        rows_of(rows, objects),
    ensures
        index_map(rows) == offsets_by_hash(objects),
    decreases rows.len(),
{
    if rows.len() > 0 {
        assert(rows.last() == rows[rows.len() - 1]);
        assert(objects.last() == objects[objects.len() - 1]);
        assert(rows_of(rows.drop_last(), objects.drop_last())) by {
            assert forall|i: int| 0 <= i < rows.len() - 1 implies (#[trigger] rows.drop_last()[i]).hash@
                == objects.drop_last()[i].hash && rows.drop_last()[i].offset
                == objects.drop_last()[i].offset && rows.drop_last()[i].crc32
                == objects.drop_last()[i].crc32 by {
                assert(rows.drop_last()[i] == rows[i]);
            }
        }
        lemma_rows_map(rows.drop_last(), objects.drop_last());
    }
}

/// Plans a clone from the server's answer to the request for the pack of
/// `head`: the answer is taken apart (see `received`), the pack resolved
/// (see `pack_bounds`), the working tree of `head` planned (see
/// `checkout_steps`) and the index of the pack built.
///
/// The first of these to fail gives the error; after them, `Format` where
/// an entry starts past what 32 bits can say.
#[verifier::rlimit(60)]
pub fn plan_clone(head: &[u8; 20], response: &[u8], limit: usize) -> (r: Result<
    ClonePlan,
    GitError,
>)
    ensures
        match received(response@) {
            Err(e) => r is Err && r->Err_0 == e,
            Ok((pack, progress)) => match pack_bounds(pack) {
                Err(e) => r is Err && r->Err_0 == e,
                Ok(bounds) => match checkout_steps(
                    pack_entries(pack, bounds),
                    head@,
                    limit as nat,
                ) {
                    Err(e) => r is Err && r->Err_0 == e,
                    Ok(steps) => match r {
                        Ok(plan) => plan.pack@ == pack && plan.progress@ == progress
                            && entry_models(plan.unpacked.entries@) == pack_entries(pack, bounds)
                            && plan.unpacked.trailer@ == pack.subrange(
                            pack.len() - 20,
                            pack.len() as int,
                        ) && step_models(plan.steps@) == steps && (forall|i: int|
                            0 <= i < bounds.len() - 1 ==> #[trigger] bounds[i] <= u32::MAX)
                            && plan.index.wf()
                            && plan.index.pack_checksum == plan.unpacked.trailer && lists(
                            plan.index.entries@,
                            offsets_by_hash(pack_entries(pack, bounds)),
                        ),
                        Err(e) => e == GitError::Format && exists|i: int|
                            0 <= i < bounds.len() - 1 && #[trigger] bounds[i] > u32::MAX,
                    },
                },
            },
        },
{
    let (pack, progress) = match receive_pack(response) {
        Err(e) => {
            return Err(e);
        },
        Ok(p) => p,
    };
    let unpacked: Unpacked = match unpack(pack.as_slice()) {
        Err(e) => {
            return Err(e);
        },
        Ok(u) => u,
    };
    let ghost bounds = pack_bounds(pack@)->Ok_0;
    let ghost objects = pack_entries(pack@, bounds);
    proof {
        lemma_entry_bounds_shape(pack@, 12, pack_header(pack@, 0)->Ok_0.2 as nat);
    }
    assert(entry_models(unpacked.entries@) =~= objects);
    let steps: Vec<CheckoutStep> = match checkout(&unpacked.entries, head.as_slice(), limit) {
        Err(e) => {
            return Err(e);
        },
        Ok(s) => s,
    };
    let rows: Vec<IndexEntry> = match index_rows(&unpacked.entries) {
        Err(e) => {
            proof {
                let i = choose|i: int|
                    0 <= i < unpacked.entries@.len() && (#[trigger] unpacked.entries@[i]).offset
                        > u32::MAX;
                assert(unpacked.entries@[i].model() == objects[i]);
                assert(bounds[i] > u32::MAX);
            }
            return Err(GitError::Format);
        },
        Ok(rows) => rows,
    };
    let index: PackIndex = match PackIndex::build(&rows, unpacked.trailer) {
        Err(e) => {
            return Err(e);
        },
        Ok(index) => index,
    };
    proof {
        assert(rows_of(rows@, objects)) by {
            assert forall|i: int| 0 <= i < rows@.len() implies (#[trigger] rows@[i]).hash@
                == objects[i].hash && rows@[i].offset == objects[i].offset && rows@[i].crc32
                == objects[i].crc32 by {
                assert(unpacked.entries@[i].model() == objects[i]);
            }
        }
        lemma_rows_map(rows@, objects);
        assert forall|i: int| 0 <= i < bounds.len() - 1 implies #[trigger] bounds[i]
            <= u32::MAX by {
            assert(rows@[i].offset == objects[i].offset);
        }
    }
    Ok(ClonePlan { pack, progress, unpacked, steps, index })
}

} // verus!

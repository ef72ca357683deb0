use vstd::prelude::*;
use crate::bytes::{append_all, copy_range, number_text, octal_text, push_number};
use crate::digest::is_utf8;
use crate::error::GitError;
use crate::git::helpers::read_bytes;
use crate::git::packfile::ObjType;
use crate::objects::object_hash;
use crate::stream::ByteStream;
use crate::text::{
    all_digits, digit_of, digits_value, find_byte, find_from, lemma_find_from, number_value,
    parse_number,
};

verus! {

/// One entry of a tree: a permission mode, a name and the hash of the
/// object that the name stands for.
#[derive(Debug)]
pub struct TreeItem {
    pub mode: u32,
    pub name: Vec<u8>,
    pub hash: [u8; 20],
}

impl TreeItem {
    /// The entry as plain values: mode, name and hash.
    pub open spec fn fields(&self) -> (u32, Seq<u8>, Seq<u8>) {
        (self.mode, self.name@, self.hash@)
    }
}

/// The tree entry that starts at `pos`, with the position after it;
/// `Ok(None)` at the end of the data.
///
/// An entry is the mode in octal digits, a space, the name, a zero byte
/// and twenty bytes of hash. `Format` where no zero byte follows, where
/// what stands before it is not UTF-8 or holds no space, where the mode is
/// no octal number that fits in 32 bits, or where fewer than twenty bytes
/// follow the zero byte.
pub open spec fn tree_entry(data: Seq<u8>, pos: int) -> Result<
    Option<((u32, Seq<u8>, Seq<u8>), int)>,
    GitError,
> {
    if pos < 0 || pos >= data.len() {
        Ok(None)
    } else {
        match find_from(data, pos, 0) {
            None => Err(GitError::Format),
            Some(z) => {
                let text = data.subrange(pos, z);
                match find_from(text, 0, 32) {
                    None => Err(GitError::Format),
                    Some(sp) => match number_value(text.subrange(0, sp), 8) {
                        None => Err(GitError::Format),
                        Some(m) => if vstd::utf8::valid_utf8(text) && m <= u32::MAX && z + 21
                            <= data.len() {
                            Ok(
                                Some(
                                    (
                                        (
                                            m as u32,
                                            text.subrange(sp + 1, text.len() as int),
                                            data.subrange(z + 1, z + 21),
                                        ),
                                        z + 21,
                                    ),
                                ),
                            )
                        } else {
                            Err(GitError::Format)
                        },
                    },
                }
            },
        }
    }
}

/// An entry ends after its start and inside the data.
pub proof fn lemma_tree_entry_bounds(data: Seq<u8>, pos: int)
    ensures
        tree_entry(data, pos) matches Ok(Some((_, next))) ==> 0 <= pos < next <= data.len(),
{
    if 0 <= pos < data.len() {
        lemma_find_from(data, pos, 0);
    }
}

/// Takes one tree entry off the stream (see `tree_entry`).
///
/// The stream moves past the entry that is returned, and stays where it
/// was at the end of the data and on an error.
pub fn take(stream: &mut ByteStream) -> (r: Result<Option<TreeItem>, GitError>)
    ensures
        final(stream).data == old(stream).data,
        match tree_entry(old(stream).data@, old(stream).pos as int) {
            Ok(Some((fields, next))) => r is Ok && r->Ok_0 is Some && r->Ok_0->Some_0.fields()
                == fields && final(stream).pos == next,
            Ok(None) => r is Ok && r->Ok_0 is None && final(stream).pos == old(stream).pos,
            Err(e) => r is Err && r->Err_0 == e && final(stream).pos == old(stream).pos,
        },
{
    let data: &[u8] = stream.data;
    let pos: usize = stream.pos;
    let len: usize = data.len();
    if pos >= len {
        return Ok(None);
    }
    proof {
        lemma_find_from(data@, pos as int, 0);
    }
    let z: usize = match find_byte(data, pos, 0) {
        None => {
            return Err(GitError::Format);
        },
        Some(z) => z,
    };
    let text: &[u8] = vstd::slice::slice_subrange(data, pos, z);
    proof {
        lemma_find_from(text@, 0, 32);
    }
    let sp: usize = match find_byte(text, 0, 32) {
        None => {
            return Err(GitError::Format);
        },
        Some(sp) => sp,
    };
    let mode: u32 = match parse_number(vstd::slice::slice_subrange(text, 0, sp), 8, 0xffff_ffff) {
        None => {
            return Err(GitError::Format);
        },
        Some(m) => m as u32,
    };
    if !is_utf8(text) || len - z < 21 {
        return Err(GitError::Format);
    }
    let name: Vec<u8> = copy_range(text, sp + 1, text.len());
    let mut tail = ByteStream { data, pos: z + 1 };
    let hash: [u8; 20] = match read_bytes::<20>(&mut tail) {
        Ok(h) => h,
        Err(_) => {
            return Err(GitError::Format);
        },
    };
    stream.pos = z + 21;
    Ok(Some(TreeItem { mode, name, hash }))
}

/// The entries of the tree body that starts at `pos`, in their order.
/// Fails as the first entry that fails (see `tree_entry`).
pub open spec fn tree_entries(data: Seq<u8>, pos: int) -> Result<
    Seq<(u32, Seq<u8>, Seq<u8>)>,
    GitError,
>
    decreases data.len() - pos,
    via tree_entries_decreases
{
    match tree_entry(data, pos) {
        Err(e) => Err(e),
        Ok(None) => Ok(Seq::empty()),
        Ok(Some((fields, next))) => match tree_entries(data, next) {
            Err(e) => Err(e),
            Ok(rest) => Ok(seq![fields] + rest),
        },
    }
}

#[via_fn]
proof fn tree_entries_decreases(data: Seq<u8>, pos: int) {
    lemma_tree_entry_bounds(data, pos);
}

/// The entries that a vector of tree items holds, as plain values.
pub open spec fn item_fields(items: Seq<TreeItem>) -> Seq<(u32, Seq<u8>, Seq<u8>)> {
    Seq::new(items.len(), |i: int| items[i].fields())
}

/// Reads a tree body to the end of the stream (see `tree_entries`).
///
/// On success the stream stands at the end of its data; on an error it
/// stays where it was.
pub fn parse(stream: &mut ByteStream) -> (r: Result<Vec<TreeItem>, GitError>)
    ensures
        final(stream).data == old(stream).data,
        match tree_entries(old(stream).data@, old(stream).pos as int) {
            Ok(entries) => r is Ok && item_fields(r->Ok_0@) == entries && final(stream).rest().len()
                == 0 && final(stream).pos >= old(stream).pos,
            Err(e) => r is Err && r->Err_0 == e && final(stream).pos == old(stream).pos,
        },
{
    let start: usize = stream.pos;
    let ghost data = stream.data@;
    let mut tree: Vec<TreeItem> = Vec::new();
    loop
        invariant
            stream.data == old(stream).data,
            data == stream.data@,
            start == old(stream).pos,
            stream.pos >= start,
            tree_entries(data, start as int) == match tree_entries(data, stream.pos as int) {
                Err(e) => Err::<Seq<(u32, Seq<u8>, Seq<u8>)>, GitError>(e),
                Ok(rest) => Ok(item_fields(tree@) + rest),
            },
        decreases data.len() - stream.pos,
    {
        proof {
            lemma_tree_entry_bounds(data, stream.pos as int);
        }
        let ghost before = item_fields(tree@);
        let ghost at = stream.pos as int;
        match take(stream) {
            Err(e) => {
                stream.pos = start;
                return Err(e);
            },
            Ok(None) => {
                assert(before + Seq::<(u32, Seq<u8>, Seq<u8>)>::empty() =~= before);
                return Ok(tree);
            },
            Ok(Some(item)) => {
                let ghost fields = item.fields();
                tree.push(item);
                assert(item_fields(tree@) =~= before + seq![fields]);
                proof {
                    if let Ok(rest) = tree_entries(data, stream.pos as int) {
                        assert(before + (seq![fields] + rest) =~= item_fields(tree@) + rest);
                    }
                }
            },
        }
    }
}

/// The bytes of one tree entry: the mode in octal digits without leading
/// zeros, a space, the name, a zero byte and the hash.
pub open spec fn entry_bytes(fields: (u32, Seq<u8>, Seq<u8>)) -> Seq<u8> {
    octal_text(fields.0 as nat) + seq![32u8] + fields.1 + seq![0u8] + fields.2
}

/// The tree body that `entries` make, in their order.
pub open spec fn tree_bytes(entries: Seq<(u32, Seq<u8>, Seq<u8>)>) -> Seq<u8>
    decreases entries.len(),
{
    if entries.len() == 0 {
        Seq::empty()
    } else {
        tree_bytes(entries.drop_last()) + entry_bytes(entries.last())
    }
}

/// Writes a tree body from its entries (see `tree_bytes`).
pub fn encode(items: &Vec<TreeItem>) -> (out: Vec<u8>)
    ensures
        out@ == tree_bytes(item_fields(items@)),
{
    let mut out: Vec<u8> = Vec::new();
    let mut i: usize = 0;
    let ghost all = item_fields(items@);
    while i < items.len()
        invariant
            i <= items@.len(),
            all == item_fields(items@),
            out@ == tree_bytes(all.take(i as int)),
        decreases items@.len() - i,
    {
        let ghost before = out@;
        push_number(&mut out, items[i].mode as u64, 8);
        out.push(32);
        append_all(&mut out, items[i].name.as_slice());
        out.push(0);
        append_all(&mut out, items[i].hash.as_slice());
        assert(all.take(i + 1).drop_last() =~= all.take(i as int));
        assert(all.take(i + 1).last() == items@[i as int].fields());
        assert(out@ =~= before + entry_bytes(items@[i as int].fields()));
        i += 1;
    }
    assert(all.take(items@.len() as int) =~= all);
    out
}

/// The mode of the tree entry at `pos` as it is written there.
pub open spec fn mode_text_at(data: Seq<u8>, pos: int) -> Seq<u8> {
    let text = data.subrange(pos, find_from(data, pos, 0).unwrap_or(pos));
    text.subrange(0, find_from(text, 0, 32).unwrap_or(0))
}

/// Whether every entry of the tree body from `pos` on writes its mode
/// without a sign and without leading zeros.
pub open spec fn modes_are_plain(data: Seq<u8>, pos: int) -> bool
    decreases data.len() - pos,
    via modes_are_plain_decreases
{
    match tree_entry(data, pos) {
        Ok(Some((fields, next))) => mode_text_at(data, pos) == octal_text(fields.0 as nat)
            && modes_are_plain(data, next),
        _ => true,
    }
}

#[via_fn]
proof fn modes_are_plain_decreases(data: Seq<u8>, pos: int) {
    lemma_tree_entry_bounds(data, pos);
}

proof fn lemma_tree_bytes_prepend(first: (u32, Seq<u8>, Seq<u8>), rest: Seq<(u32, Seq<u8>, Seq<u8>)>)
    ensures
        tree_bytes(seq![first] + rest) == entry_bytes(first) + tree_bytes(rest),
    decreases rest.len(),
{
    let all = seq![first] + rest;
    if rest.len() == 0 {
        assert(all.drop_last() =~= Seq::<(u32, Seq<u8>, Seq<u8>)>::empty());
        assert(tree_bytes(all.drop_last()) =~= Seq::<u8>::empty());
        assert(all.last() == first);
        assert(tree_bytes(all) =~= entry_bytes(first) + tree_bytes(rest));
    } else {
        lemma_tree_bytes_prepend(first, rest.drop_last());
        assert(all.drop_last() =~= seq![first] + rest.drop_last());
        assert(all.last() == rest.last());
        assert(tree_bytes(all) =~= entry_bytes(first) + tree_bytes(rest));
    }
}

/// Writing out the entries that were read from a tree body gives the body
/// back, byte for byte, where the body writes its modes without a sign and
/// without leading zeros.
pub proof fn lemma_tree_round_trip(data: Seq<u8>, pos: int)
    requires
        0 <= pos <= data.len(),
        tree_entries(data, pos) is Ok,
        modes_are_plain(data, pos),
    ensures
        tree_bytes(tree_entries(data, pos)->Ok_0) == data.subrange(pos, data.len() as int),
    decreases data.len() - pos,
{
    lemma_tree_entry_bounds(data, pos);
    match tree_entry(data, pos) {
        Ok(Some((fields, next))) => {
            lemma_tree_round_trip(data, next);
            let rest = tree_entries(data, next)->Ok_0;
            lemma_tree_bytes_prepend(fields, rest);
            lemma_find_from(data, pos, 0);
            let z = find_from(data, pos, 0)->Some_0;
            let text = data.subrange(pos, z);
            lemma_find_from(text, 0, 32);
            let sp = find_from(text, 0, 32)->Some_0;
            assert(entry_bytes(fields) =~= data.subrange(pos, next)) by {
                assert(text.subrange(0, sp) + seq![32u8] + text.subrange(sp + 1, text.len() as int)
                    =~= text);
                assert(text + seq![0u8] + data.subrange(z + 1, z + 21) =~= data.subrange(
                    pos,
                    z + 21,
                ));
            }
            assert(data.subrange(pos, next) + data.subrange(next, data.len() as int)
                =~= data.subrange(pos, data.len() as int));
        },
        Ok(None) => {
            assert(data.subrange(pos, data.len() as int) =~= Seq::<u8>::empty());
        },
        Err(_) => {},
    }
}

/// The entries that were read from a tree body, written out again, hash to
/// the name under which the body was found, where the body writes its
/// modes without a sign and without leading zeros.
pub proof fn lemma_tree_hash_round_trip(body: Seq<u8>)
    requires
        tree_entries(body, 0) is Ok,
        modes_are_plain(body, 0),
    ensures
        tree_bytes(tree_entries(body, 0)->Ok_0) == body,
        object_hash(ObjType::Tree, tree_bytes(tree_entries(body, 0)->Ok_0)) == object_hash(
            ObjType::Tree,
            body,
        ),
{
    lemma_tree_round_trip(body, 0);
    assert(body.subrange(0, body.len() as int) =~= body);
}


/// Whether a tree body can hold the entry: its name is UTF-8 without a
/// zero byte, and its hash has twenty bytes.
pub open spec fn entry_can_be_written(fields: (u32, Seq<u8>, Seq<u8>)) -> bool {
    &&& fields.2.len() == 20
    &&& vstd::utf8::valid_utf8(fields.1)
    &&& forall|i: int| 0 <= i < fields.1.len() ==> fields.1[i] != 0
}

proof fn lemma_number_text_reads_back(n: nat, radix: nat)
    requires
        2 <= radix <= 10,
    ensures
        number_text(n, radix).len() >= 1,
        forall|i: int|
            0 <= i < number_text(n, radix).len() ==> 48 <= #[trigger] number_text(n, radix)[i] < 48
                + radix,
        all_digits(number_text(n, radix), radix),
        digits_value(number_text(n, radix), radix) == n,
        number_value(number_text(n, radix), radix) == Some(n),
    decreases n,
{
    let text = number_text(n, radix);
    if n < radix {
        assert(text =~= seq![(48 + n) as u8]);
        assert(text.drop_last() =~= Seq::<u8>::empty());
        let before = digits_value(text.drop_last(), radix);
        assert(before == 0);
        assert(before * radix == 0) by (nonlinear_arith)
            requires
                before == 0,
        ;
        assert(digit_of(text.last()) == Some(n));
        assert(digits_value(text, radix) == before * radix + n);
    } else {
        let front = number_text(n / radix, radix);
        let d = (48 + n % radix) as u8;
        assert(n / radix < n) by (nonlinear_arith)
            requires
                radix >= 2,
                n >= radix,
        ;
        lemma_number_text_reads_back(n / radix, radix);
        assert(text == front.push(d));
        assert(text.drop_last() =~= front);
        assert(text.last() == d);
        assert(digit_of(d) == Some(n % radix));
        assert forall|i: int| 0 <= i < text.len() implies 48 <= #[trigger] text[i] < 48 + radix by {
            if i < front.len() {
                assert(text[i] == front[i]);
            }
        }
        vstd::arithmetic::div_mod::lemma_fundamental_div_mod(n as int, radix as int);
        assert((n / radix) * radix == radix * (n / radix)) by (nonlinear_arith);
        assert(digits_value(text, radix) == digits_value(front, radix) * radix + n % radix);
    }
    assert forall|i: int| 0 <= i < text.len() implies (#[trigger] digit_of(text[i])) is Some
        && digit_of(text[i])->Some_0 < radix by {
        assert(48 <= text[i] < 48 + radix);
    }
    assert(text[0] != 43);
}

proof fn lemma_find_past(s: Seq<u8>, from: int, at: int, b: u8)
    requires
        0 <= from <= at < s.len(),
        s[at] == b,
        forall|i: int| from <= i < at ==> s[i] != b,
    ensures
        find_from(s, from, b) == Some(at),
    decreases at - from,
{
    if from < at {
        lemma_find_past(s, from + 1, at, b);
    }
}

proof fn lemma_entry_reads_back(pre: Seq<u8>, fields: (u32, Seq<u8>, Seq<u8>), post: Seq<u8>)
    requires
        entry_can_be_written(fields),
    ensures
        tree_entry(pre + entry_bytes(fields) + post, pre.len() as int) == Ok::<
            Option<((u32, Seq<u8>, Seq<u8>), int)>,
            GitError,
        >(Some((fields, (pre.len() + entry_bytes(fields).len()) as int))),
{
    let mode = octal_text(fields.0 as nat);
    let name = fields.1;
    let s = pre + entry_bytes(fields) + post;
    let pos = pre.len() as int;
    let sp = mode.len() as int;
    let z = pos + sp + 1 + name.len();
    lemma_number_text_reads_back(fields.0 as nat, 8);
    assert forall|i: int| pos <= i < z implies s[i] != 0 by {
        if i < pos + sp {
            assert(s[i] == mode[i - pos]);
        } else if i == pos + sp {
            assert(s[i] == 32);
        } else {
            assert(s[i] == name[i - pos - sp - 1]);
        }
    }
    assert(s[z] == 0);
    lemma_find_past(s, pos, z, 0);
    let text = s.subrange(pos, z);
    assert(text =~= mode + seq![32u8] + name);
    assert forall|i: int| 0 <= i < sp implies text[i] != 32 by {
        assert(text[i] == mode[i]);
    }
    lemma_find_past(text, 0, sp, 32);
    assert(text.subrange(0, sp) =~= mode);
    assert(text.subrange(sp + 1, text.len() as int) =~= name);
    assert(s.subrange(z + 1, z + 21) =~= fields.2);
    let head = mode + seq![32u8];
    assert(vstd::utf8::valid_utf8(head)) by {
        assert(vstd::utf8::partial_valid_utf8(head, 0)) by {
            assert(head.subrange(0, 0) =~= Seq::<u8>::empty());
        }
        assert forall|i: int| 0 <= 0 <= i < head.len() <= head.len() implies #[trigger] vstd::utf8::is_leading_byte_width_1(
            head[i],
        ) by {
            if i < sp {
                assert(head[i] == mode[i]);
            }
        }
        vstd::utf8::partial_valid_utf8_extend_ascii_block(head, 0, head.len() as int);
        assert(head.subrange(0, head.len() as int) =~= head);
    }
    vstd::utf8::valid_utf8_concat(head, name);
    assert(head + name =~= text);
}

proof fn lemma_entries_read_back(pre: Seq<u8>, entries: Seq<(u32, Seq<u8>, Seq<u8>)>)
    requires
        forall|i: int| 0 <= i < entries.len() ==> entry_can_be_written(#[trigger] entries[i]),
    ensures
        tree_entries(pre + tree_bytes(entries), pre.len() as int) == Ok::<
            Seq<(u32, Seq<u8>, Seq<u8>)>,
            GitError,
        >(entries),
    decreases entries.len(),
{
    let s = pre + tree_bytes(entries);
    if entries.len() == 0 {
        assert(s =~= pre);
        assert(entries =~= Seq::<(u32, Seq<u8>, Seq<u8>)>::empty());
    } else {
        let first = entries[0];
        let rest = entries.drop_first();
        assert(seq![first] + rest =~= entries);
        lemma_tree_bytes_prepend(first, rest);
        lemma_entry_reads_back(pre, first, tree_bytes(rest));
        assert(pre + entry_bytes(first) + tree_bytes(rest) =~= s);
        assert forall|i: int| 0 <= i < rest.len() implies entry_can_be_written(
            #[trigger] rest[i],
        ) by {
            assert(rest[i] == entries[i + 1]);
        }
        lemma_entries_read_back(pre + entry_bytes(first), rest);
        assert((pre + entry_bytes(first)) + tree_bytes(rest) =~= s);
        let next = (pre.len() + entry_bytes(first).len()) as int;
        assert(tree_entry(s, pre.len() as int) == Ok::<
            Option<((u32, Seq<u8>, Seq<u8>), int)>,
            GitError,
        >(Some((first, next))));
        assert(tree_entries(s, next) == Ok::<Seq<(u32, Seq<u8>, Seq<u8>)>, GitError>(rest));
    }
}

/// Reading the tree body that entries were written to gives the entries
/// back, where a tree body can hold them.
pub proof fn lemma_tree_written_reads_back(entries: Seq<(u32, Seq<u8>, Seq<u8>)>)
    requires
        forall|i: int| 0 <= i < entries.len() ==> entry_can_be_written(#[trigger] entries[i]),
    ensures
        tree_entries(tree_bytes(entries), 0) == Ok::<Seq<(u32, Seq<u8>, Seq<u8>)>, GitError>(
            entries,
        ),
{
    lemma_entries_read_back(Seq::empty(), entries);
    assert(Seq::<u8>::empty() + tree_bytes(entries) =~= tree_bytes(entries));
}

} // verus!

use vstd::prelude::*;
use crate::bytes::{append_all, be32_bytes, push_be32, same_bytes};
use crate::digest::{sha1, sha1_digest};
use crate::error::GitError;

verus! {

/// Whether `a` comes before `b` from position `i` on, byte by byte; where
/// one ends first and they agree so far, the shorter comes first.
pub open spec fn less_from(a: Seq<u8>, b: Seq<u8>, i: int) -> bool
    decreases a.len() - i,
{
    if i < 0 || i >= a.len() || i >= b.len() {
        a.len() < b.len()
    } else if a[i] != b[i] {
        a[i] < b[i]
    } else {
        less_from(a, b, i + 1)
    }
}

/// Whether `a` comes before `b` in the order of their bytes.
pub open spec fn hash_less(a: Seq<u8>, b: Seq<u8>) -> bool {
    less_from(a, b, 0)
}

proof fn lemma_less_transitive_from(a: Seq<u8>, b: Seq<u8>, c: Seq<u8>, i: int)
    requires
        0 <= i,
        less_from(a, b, i),
        less_from(b, c, i),
    ensures
        less_from(a, c, i),
    decreases a.len() - i,
{
    if i < a.len() && i < b.len() && i < c.len() {
        if a[i] == b[i] && b[i] == c[i] {
            lemma_less_transitive_from(a, b, c, i + 1);
        }
    }
}

proof fn lemma_less_total_from(a: Seq<u8>, b: Seq<u8>, i: int)
    requires
        0 <= i,
        !less_from(a, b, i),
        !less_from(b, a, i),
    ensures
        a.len() == b.len(),
        forall|k: int| i <= k < a.len() ==> a[k] == b[k],
    decreases a.len() - i,
{
    if i < a.len() && i < b.len() {
        lemma_less_total_from(a, b, i + 1);
    }
}

proof fn lemma_less_irreflexive_from(a: Seq<u8>, i: int)
    ensures
        !less_from(a, a, i),
    decreases a.len() - i,
{
    if 0 <= i < a.len() {
        lemma_less_irreflexive_from(a, i + 1);
    }
}

/// The order of bytes is transitive.
pub proof fn lemma_less_transitive(a: Seq<u8>, b: Seq<u8>, c: Seq<u8>)
    requires
        hash_less(a, b),
        hash_less(b, c),
    ensures
        hash_less(a, c),
{
    lemma_less_transitive_from(a, b, c, 0);
}

/// Of two different byte strings one comes before the other, and nothing
/// comes before itself.
pub proof fn lemma_less_total(a: Seq<u8>, b: Seq<u8>)
    ensures
        a != b ==> hash_less(a, b) || hash_less(b, a),
        !hash_less(a, a),
{
    lemma_less_irreflexive_from(a, 0);
    if !hash_less(a, b) && !hash_less(b, a) {
        lemma_less_total_from(a, b, 0);
        assert(a =~= b);
    }
}

/// Whether `a` comes before `b` in the order of their bytes.
pub fn hash_lt(a: &[u8], b: &[u8]) -> (r: bool)
    ensures
        r == hash_less(a@, b@),
{
    let mut i: usize = 0;
    while i < a.len() && i < b.len()
        invariant
            hash_less(a@, b@) == less_from(a@, b@, i as int),
        decreases a@.len() - i,
    {
        if a[i] != b[i] {
            return a[i] < b[i];
        }
        i += 1;
    }
    a.len() < b.len()
}

/// One row of a pack index: an object's hash, where its entry starts in
/// the pack, and the CRC-32 of the entry's bytes there.
#[derive(Debug, Clone, Copy)]
pub struct IndexEntry {
    pub hash: [u8; 20],
    pub offset: u32,
    pub crc32: u32,
}

/// The objects that rows name, each with its offset and CRC-32: of two
/// rows with one hash the later counts.
pub open spec fn index_map(rows: Seq<IndexEntry>) -> Map<Seq<u8>, (u32, u32)>
    decreases rows.len(),
{
    if rows.len() == 0 {
        Map::empty()
    } else {
        index_map(rows.drop_last()).insert(
            rows.last().hash@,
            (rows.last().offset, rows.last().crc32),
        )
    }
}

/// Whether the rows stand in strictly ascending order of their hashes.
pub open spec fn ascending(rows: Seq<IndexEntry>) -> bool {
    forall|i: int, j: int|
        0 <= i < j < rows.len() ==> hash_less(#[trigger] rows[i].hash@, #[trigger] rows[j].hash@)
}

/// Whether `rows` holds exactly the objects of `m`, each with its offset
/// and CRC-32.
pub open spec fn lists(rows: Seq<IndexEntry>, m: Map<Seq<u8>, (u32, u32)>) -> bool {
    &&& forall|i: int|
        0 <= i < rows.len() ==> m.contains_key(#[trigger] rows[i].hash@) && m[rows[i].hash@] == (
            rows[i].offset,
            rows[i].crc32,
        )
    &&& forall|h: Seq<u8>| #[trigger]
        m.contains_key(h) ==> exists|i: int| 0 <= i < rows.len() && #[trigger] rows[i].hash@ == h
}

proof fn lemma_insert_keeps_listing(
    rows: Seq<IndexEntry>,
    m: Map<Seq<u8>, (u32, u32)>,
    p: int,
    e: IndexEntry,
)
    requires
        ascending(rows),
        lists(rows, m),
        0 <= p <= rows.len(),
        forall|i: int| 0 <= i < p ==> hash_less(#[trigger] rows[i].hash@, e.hash@),
        p < rows.len() ==> hash_less(e.hash@, rows[p].hash@),
    ensures
        ascending(rows.insert(p, e)),
        lists(rows.insert(p, e), m.insert(e.hash@, (e.offset, e.crc32))),
{
    let grown = rows.insert(p, e);
    let m2 = m.insert(e.hash@, (e.offset, e.crc32));
    assert forall|j: int| p <= j < rows.len() implies hash_less(e.hash@, #[trigger] rows[j].hash@) by {
        if j > p {
            assert(hash_less(rows[p].hash@, rows[j].hash@));
            lemma_less_transitive(e.hash@, rows[p].hash@, rows[j].hash@);
        }
    }
    assert forall|i: int, j: int| 0 <= i < j < grown.len() implies hash_less(
        #[trigger] grown[i].hash@,
        #[trigger] grown[j].hash@,
    ) by {
        let oi = if i < p {
            i
        } else {
            i - 1
        };
        let oj = if j < p {
            j
        } else {
            j - 1
        };
        if i == p {
            assert(grown[j] == rows[oj]);
            assert(hash_less(e.hash@, rows[oj].hash@));
        } else if j == p {
            assert(grown[i] == rows[oi]);
            assert(hash_less(rows[oi].hash@, e.hash@));
        } else {
            assert(grown[i] == rows[oi]);
            assert(grown[j] == rows[oj]);
            assert(hash_less(rows[oi].hash@, rows[oj].hash@));
        }
    }
    assert forall|i: int| 0 <= i < grown.len() implies m2.contains_key(#[trigger] grown[i].hash@)
        && m2[grown[i].hash@] == (grown[i].offset, grown[i].crc32) by {
        if i != p {
            let oi = if i < p {
                i
            } else {
                i - 1
            };
            assert(grown[i] == rows[oi]);
            lemma_less_total(e.hash@, e.hash@);
            if oi < p {
                assert(hash_less(rows[oi].hash@, e.hash@));
            } else {
                assert(hash_less(e.hash@, rows[oi].hash@));
            }
            assert(rows[oi].hash@ != e.hash@);
            assert(m.contains_key(rows[oi].hash@));
        }
    }
    assert forall|h: Seq<u8>| #[trigger] m2.contains_key(h) implies exists|i: int|
        0 <= i < grown.len() && #[trigger] grown[i].hash@ == h by {
        if h == e.hash@ {
            assert(grown[p].hash@ == h);
        } else {
            assert(m.contains_key(h));
            let oi = choose|i: int| 0 <= i < rows.len() && #[trigger] rows[i].hash@ == h;
            let ni = if oi < p {
                oi
            } else {
                oi + 1
            };
            assert(grown[ni] == rows[oi]);
            assert(grown[ni].hash@ == h);
        }
    }
}

/// Rows in strictly ascending order hold exactly the objects that they
/// name.
proof fn lemma_ascending_lists_itself(rows: Seq<IndexEntry>)
    requires
        ascending(rows),
    ensures
        lists(rows, index_map(rows)),
    decreases rows.len(),
{
    if rows.len() > 0 {
        let front = rows.drop_last();
        let e = rows.last();
        assert forall|i: int, j: int| 0 <= i < j < front.len() implies hash_less(
            #[trigger] front[i].hash@,
            #[trigger] front[j].hash@,
        ) by {
            assert(front[i] == rows[i] && front[j] == rows[j]);
        }
        lemma_ascending_lists_itself(front);
        assert forall|i: int| 0 <= i < front.len() implies hash_less(
            #[trigger] front[i].hash@,
            e.hash@,
        ) by {
            assert(front[i] == rows[i]);
            assert(e == rows[rows.len() - 1]);
        }
        lemma_insert_keeps_listing(front, index_map(front), front.len() as int, e);
        assert(front.insert(front.len() as int, e) =~= rows);
    }
}

/// What rows hold, they hold of one map only.
proof fn lemma_listing_is_unique(
    rows: Seq<IndexEntry>,
    m1: Map<Seq<u8>, (u32, u32)>,
    m2: Map<Seq<u8>, (u32, u32)>,
)
    requires
        lists(rows, m1),
        lists(rows, m2),
    ensures
        m1 == m2,
{
    assert forall|h: Seq<u8>| m1.contains_key(h) implies m2.contains_key(h) && m1[h] == m2[h] by {
        let i = choose|i: int| 0 <= i < rows.len() && #[trigger] rows[i].hash@ == h;
        assert(m2.contains_key(rows[i].hash@));
    }
    assert forall|h: Seq<u8>| m2.contains_key(h) implies m1.contains_key(h) by {
        let i = choose|i: int| 0 <= i < rows.len() && #[trigger] rows[i].hash@ == h;
        assert(m1.contains_key(rows[i].hash@));
    }
    assert(m1 =~= m2);
}

/// The objects of rows one after the other are those of the first with
/// those of the second laid over them.
proof fn lemma_index_map_of_joined(a: Seq<IndexEntry>, b: Seq<IndexEntry>)
    ensures
        index_map(a + b) == index_map(a).union_prefer_right(index_map(b)),
    decreases b.len(),
{
    if b.len() == 0 {
        assert(a + b =~= a);
        assert(index_map(a).union_prefer_right(index_map(b)) =~= index_map(a));
    } else {
        lemma_index_map_of_joined(a, b.drop_last());
        assert((a + b).drop_last() =~= a + b.drop_last());
        assert((a + b).last() == b.last());
        assert(index_map(a + b) =~= index_map(a).union_prefer_right(index_map(b)));
    }
}

/// Merges rows in strictly ascending order: of two rows with one hash,
/// that of `b` is kept.
fn merge_rows(a: &Vec<IndexEntry>, b: &Vec<IndexEntry>) -> (out: Vec<IndexEntry>)
    requires
        ascending(a@),
        ascending(b@),
    ensures
        ascending(out@),
        lists(out@, index_map(a@).union_prefer_right(index_map(b@))),
        out@.len() <= a@.len() + b@.len(),
{
    let mut out: Vec<IndexEntry> = Vec::new();
    let mut i: usize = 0;
    let mut j: usize = 0;
    assert(index_map(a@.take(0)).union_prefer_right(index_map(b@.take(0))) =~= Map::<
        Seq<u8>,
        (u32, u32),
    >::empty());
    while i < a.len() || j < b.len()
        invariant
            i <= a@.len(),
            j <= b@.len(),
            ascending(a@),
            ascending(b@),
            ascending(out@),
            out@.len() <= i + j,
            lists(
                out@,
                index_map(a@.take(i as int)).union_prefer_right(index_map(b@.take(j as int))),
            ),
            forall|k: int|
                0 <= k < out@.len() && i < a@.len() ==> hash_less(
                    #[trigger] out@[k].hash@,
                    a@[i as int].hash@,
                ),
            forall|k: int|
                0 <= k < out@.len() && j < b@.len() ==> hash_less(
                    #[trigger] out@[k].hash@,
                    b@[j as int].hash@,
                ),
        decreases (a@.len() - i) + (b@.len() - j),
    {
        let ghost ma = index_map(a@.take(i as int));
        let ghost mb = index_map(b@.take(j as int));
        let ghost held = out@;
        let from_a: bool = j >= b.len() || (i < a.len() && hash_lt(
            a[i].hash.as_slice(),
            b[j].hash.as_slice(),
        ));
        let from_b: bool = !from_a && (i >= a.len() || hash_lt(
            b[j].hash.as_slice(),
            a[i].hash.as_slice(),
        ));
        proof {
            if i < a@.len() {
                assert(a@.take(i + 1).drop_last() =~= a@.take(i as int));
                assert(a@.take(i + 1).last() == a@[i as int]);
                lemma_less_total(a@[i as int].hash@, a@[i as int].hash@);
                if mb.contains_key(a@[i as int].hash@) {
                    assert(ma.union_prefer_right(mb).contains_key(a@[i as int].hash@));
                    let k = choose|k: int|
                        0 <= k < held.len() && #[trigger] held[k].hash@ == a@[i as int].hash@;
                    assert(hash_less(held[k].hash@, a@[i as int].hash@));
                }
                if i + 1 < a@.len() {
                    assert(hash_less(a@[i as int].hash@, a@[i + 1].hash@));
                }
            }
            if j < b@.len() {
                assert(b@.take(j + 1).drop_last() =~= b@.take(j as int));
                assert(b@.take(j + 1).last() == b@[j as int]);
                if j + 1 < b@.len() {
                    assert(hash_less(b@[j as int].hash@, b@[j + 1].hash@));
                }
            }
            if i < a@.len() && j < b@.len() {
                lemma_less_total(a@[i as int].hash@, b@[j as int].hash@);
            }
        }
        let e: IndexEntry = if from_a {
            a[i]
        } else {
            b[j]
        };
        proof {
            let m = ma.union_prefer_right(mb);
            lemma_insert_keeps_listing(held, m, held.len() as int, e);
            assert(held.insert(held.len() as int, e) =~= held.push(e));
            let grown = m.insert(e.hash@, (e.offset, e.crc32));
            if from_a {
                assert(index_map(a@.take(i + 1)).union_prefer_right(mb) =~= grown);
            } else if from_b {
                assert(ma.union_prefer_right(index_map(b@.take(j + 1))) =~= grown);
            } else {
                assert(index_map(a@.take(i + 1)).union_prefer_right(index_map(b@.take(j + 1)))
                    =~= grown);
            }
        }
        out.push(e);
        proof {
            assert forall|k: int| 0 <= k < out@.len() implies (from_b || i + 1 >= a@.len()
                || hash_less(#[trigger] out@[k].hash@, a@[i + 1].hash@)) && (from_a || j + 1
                >= b@.len() || hash_less(out@[k].hash@, b@[j + 1].hash@)) by {
                if k < held.len() {
                    assert(out@[k] == held[k]);
                    if !from_b && i + 1 < a@.len() {
                        lemma_less_transitive(
                            held[k].hash@,
                            a@[i as int].hash@,
                            a@[i + 1].hash@,
                        );
                    }
                    if !from_a && j + 1 < b@.len() {
                        lemma_less_transitive(
                            held[k].hash@,
                            b@[j as int].hash@,
                            b@[j + 1].hash@,
                        );
                    }
                }
            }
        }
        if from_a {
            i += 1;
        } else if from_b {
            j += 1;
        } else {
            i += 1;
            j += 1;
        }
    }
    assert(a@.take(a@.len() as int) =~= a@);
    assert(b@.take(b@.len() as int) =~= b@);
    out
}

/// Puts the rows from `lo` up to `hi` in strictly ascending order of their
/// hashes; of two rows with one hash the later is kept.
fn sort_range(rows: &Vec<IndexEntry>, lo: usize, hi: usize) -> (out: Vec<IndexEntry>)
    requires
        lo <= hi <= rows@.len(),
    ensures
        ascending(out@),
        lists(out@, index_map(rows@.subrange(lo as int, hi as int))),
        out@.len() <= hi - lo,
    decreases hi - lo,
{
    let ghost part = rows@.subrange(lo as int, hi as int);
    if hi - lo == 0 {
        return Vec::new();
    }
    if hi - lo == 1 {
        let mut out: Vec<IndexEntry> = Vec::new();
        out.push(rows[lo]);
        proof {
            assert(out@ =~= part);
            lemma_ascending_lists_itself(out@);
        }
        return out;
    }
    let mid: usize = lo + (hi - lo) / 2;
    let left: Vec<IndexEntry> = sort_range(rows, lo, mid);
    let right: Vec<IndexEntry> = sort_range(rows, mid, hi);
    let out: Vec<IndexEntry> = merge_rows(&left, &right);
    proof {
        let first = rows@.subrange(lo as int, mid as int);
        let second = rows@.subrange(mid as int, hi as int);
        lemma_ascending_lists_itself(left@);
        lemma_listing_is_unique(left@, index_map(left@), index_map(first));
        lemma_ascending_lists_itself(right@);
        lemma_listing_is_unique(right@, index_map(right@), index_map(second));
        lemma_index_map_of_joined(first, second);
        assert(first + second =~= part);
    }
    out
}

/// Puts rows in strictly ascending order of their hashes; of two rows with
/// one hash the later is kept.
pub fn sort_entries(rows: &Vec<IndexEntry>) -> (out: Vec<IndexEntry>)
    ensures
        ascending(out@),
        lists(out@, index_map(rows@)),
        out@.len() <= rows@.len(),
{
    assert(rows@.subrange(0, rows@.len() as int) =~= rows@);
    sort_range(rows, 0, rows.len())
}

/// How many of the rows have a hash whose first byte is at most `b`.
pub open spec fn count_le(rows: Seq<IndexEntry>, b: int) -> nat
    decreases rows.len(),
{
    if rows.len() == 0 {
        0
    } else {
        count_le(rows.drop_last(), b) + if rows.last().hash@[0] <= b {
            1nat
        } else {
            0nat
        }
    }
}

proof fn lemma_count_le_of_split(rows: Seq<IndexEntry>, b: int, k: int)
    requires
        0 <= k <= rows.len(),
        forall|j: int| 0 <= j < k ==> (#[trigger] rows[j]).hash@[0] <= b,
        forall|j: int| k <= j < rows.len() ==> (#[trigger] rows[j]).hash@[0] > b,
    ensures
        count_le(rows, b) == k,
    decreases rows.len(),
{
    if rows.len() > 0 {
        let front = rows.drop_last();
        let last = rows.len() - 1;
        assert(rows.last() == rows[last]);
        if k == rows.len() {
            assert forall|j: int| 0 <= j < k - 1 implies (#[trigger] front[j]).hash@[0] <= b by {
                assert(front[j] == rows[j]);
            }
            lemma_count_le_of_split(front, b, k - 1);
        } else {
            assert forall|j: int| 0 <= j < k implies (#[trigger] front[j]).hash@[0] <= b by {
                assert(front[j] == rows[j]);
            }
            assert forall|j: int| k <= j < front.len() implies (#[trigger] front[j]).hash@[0]
                > b by {
                assert(front[j] == rows[j]);
            }
            lemma_count_le_of_split(front, b, k);
        }
    }
}

/// The fanout table of rows in ascending order: for each value `b` of a
/// byte, the number of rows whose hash begins with a byte of at most `b`.
pub fn fanout_table(rows: &Vec<IndexEntry>) -> (fanout: Vec<u32>)
    requires
        ascending(rows@),
        rows@.len() <= u32::MAX,
    ensures
        fanout@.len() == 256,
        forall|b: int| 0 <= b < 256 ==> #[trigger] fanout@[b] == count_le(rows@, b),
{
    let n: usize = rows.len();
    let mut fanout: Vec<u32> = Vec::new();
    let mut acc: usize = 0;
    let mut b: usize = 0;
    assert forall|i: int, j: int| 0 <= i < j < rows@.len() implies (#[trigger] rows@[i]).hash@[0] <= (
    #[trigger] rows@[j]).hash@[0] by {
        assert(hash_less(rows@[i].hash@, rows@[j].hash@));
    }
    while b < 256
        invariant
            b <= 256,
            n == rows@.len(),
            n <= u32::MAX,
            acc <= n,
            fanout@.len() == b,
            forall|c: int| 0 <= c < b ==> #[trigger] fanout@[c] == count_le(rows@, c),
            forall|j: int| 0 <= j < acc ==> (#[trigger] rows@[j]).hash@[0] < b,
            forall|j: int| acc <= j < n ==> (#[trigger] rows@[j]).hash@[0] >= b,
            forall|i: int, j: int|
                0 <= i < j < rows@.len() ==> (#[trigger] rows@[i]).hash@[0] <= (
                #[trigger] rows@[j]).hash@[0],
        decreases 256 - b,
    {
        while acc < n && rows[acc].hash[0] as usize == b
            invariant
                b < 256,
                n == rows@.len(),
                acc <= n,
                forall|j: int| 0 <= j < acc ==> (#[trigger] rows@[j]).hash@[0] <= b,
                forall|j: int| acc <= j < n ==> (#[trigger] rows@[j]).hash@[0] >= b,
            decreases n - acc,
        {
            acc += 1;
        }
        proof {
            assert forall|j: int| acc <= j < n implies (#[trigger] rows@[j]).hash@[0] > b by {
                assert(rows@[acc as int].hash@[0] > b);
                if j > acc {
                    assert(rows@[acc as int].hash@[0] <= rows@[j].hash@[0]);
                }
            }
            lemma_count_le_of_split(rows@, b as int, acc as int);
        }
        let ghost before = fanout@;
        fanout.push(acc as u32);
        assert forall|c: int| 0 <= c < b + 1 implies #[trigger] fanout@[c] == count_le(
            rows@,
            c,
        ) by {
            if c < b {
                assert(fanout@[c] == before[c]);
            }
        }
        b += 1;
    }
    fanout
}

/// The bytes `\xfftOc` that open a pack index.
pub open spec fn index_magic() -> Seq<u8> {
    seq![255u8, 116, 79, 99]
}

/// The numbers of `table` up to `k`, four bytes each, most significant
/// byte first.
pub open spec fn be32_table(table: Seq<u32>, k: int) -> Seq<u8>
    decreases k,
{
    if k <= 0 {
        Seq::empty()
    } else {
        be32_table(table, k - 1) + be32_bytes(table[k - 1])
    }
}

/// The hashes of the rows up to `k`, one after the other.
pub open spec fn hash_table(rows: Seq<IndexEntry>, k: int) -> Seq<u8>
    decreases k,
{
    if k <= 0 {
        Seq::empty()
    } else {
        hash_table(rows, k - 1) + rows[k - 1].hash@
    }
}

/// The CRC-32s of the rows up to `k`, four bytes each.
pub open spec fn crc_table(rows: Seq<IndexEntry>, k: int) -> Seq<u8>
    decreases k,
{
    if k <= 0 {
        Seq::empty()
    } else {
        crc_table(rows, k - 1) + be32_bytes(rows[k - 1].crc32)
    }
}

/// The offsets of the rows up to `k`, four bytes each.
pub open spec fn offset_table(rows: Seq<IndexEntry>, k: int) -> Seq<u8>
    decreases k,
{
    if k <= 0 {
        Seq::empty()
    } else {
        offset_table(rows, k - 1) + be32_bytes(rows[k - 1].offset)
    }
}

/// A pack index: the fanout table, the rows in ascending order of their
/// hashes, the checksum of the pack and the checksum of the index itself.
#[derive(Debug)]
pub struct PackIndex {
    pub fanout: Vec<u32>,
    pub entries: Vec<IndexEntry>,
    pub pack_checksum: [u8; 20],
    pub index_checksum: [u8; 20],
}

impl PackIndex {
    /// The index file up to its own checksum: the magic, the version 2,
    /// the fanout table, then the hashes, the CRC-32s and the offsets of
    /// the rows, each table in the rows' order, and the pack's checksum.
    pub open spec fn body(&self) -> Seq<u8> {
        index_magic() + be32_bytes(2) + be32_table(self.fanout@, self.fanout@.len() as int)
            + hash_table(self.entries@, self.entries@.len() as int) + crc_table(
            self.entries@,
            self.entries@.len() as int,
        ) + offset_table(self.entries@, self.entries@.len() as int) + self.pack_checksum@
    }

    /// The whole index file: the body and the SHA-1 of the body.
    pub open spec fn bytes(&self) -> Seq<u8> {
        self.body() + sha1_digest(self.body())
    }

    /// Whether the index is in order: 256 fanout counts, each the number
    /// of rows whose hash begins with at most that byte; the rows strictly
    /// ascending; the index checksum that of the body.
    pub open spec fn wf(&self) -> bool {
        &&& self.fanout@.len() == 256
        &&& forall|b: int| 0 <= b < 256 ==> #[trigger] self.fanout@[b] == count_le(self.entries@, b)
        &&& ascending(self.entries@)
        &&& self.entries@.len() <= u32::MAX
        &&& self.index_checksum@ == sha1_digest(self.body())
    }

    fn write_body(fanout: &Vec<u32>, entries: &Vec<IndexEntry>, pack_checksum: &[u8; 20]) -> (out:
        Vec<u8>)
        ensures
            out@ == index_magic() + be32_bytes(2) + be32_table(fanout@, fanout@.len() as int)
                + hash_table(entries@, entries@.len() as int) + crc_table(
                entries@,
                entries@.len() as int,
            ) + offset_table(entries@, entries@.len() as int) + pack_checksum@,
    {
        let mut out: Vec<u8> = Vec::new();
        out.push(255);
        out.push(116);
        out.push(79);
        out.push(99);
        assert(out@ =~= index_magic());
        push_be32(&mut out, 2);
        let ghost head = out@;
        let mut i: usize = 0;
        while i < fanout.len()
            invariant
                i <= fanout@.len(),
                out@ == head + be32_table(fanout@, i as int),
            decreases fanout@.len() - i,
        {
            push_be32(&mut out, fanout[i]);
            i += 1;
            assert(out@ =~= head + be32_table(fanout@, i as int));
        }
        let ghost head = out@;
        let mut i: usize = 0;
        while i < entries.len()
            invariant
                i <= entries@.len(),
                out@ == head + hash_table(entries@, i as int),
            decreases entries@.len() - i,
        {
            append_all(&mut out, entries[i].hash.as_slice());
            i += 1;
            assert(out@ =~= head + hash_table(entries@, i as int));
        }
        let ghost head = out@;
        let mut i: usize = 0;
        while i < entries.len()
            invariant
                i <= entries@.len(),
                out@ == head + crc_table(entries@, i as int),
            decreases entries@.len() - i,
        {
            push_be32(&mut out, entries[i].crc32);
            i += 1;
            assert(out@ =~= head + crc_table(entries@, i as int));
        }
        let ghost head = out@;
        let mut i: usize = 0;
        while i < entries.len()
            invariant
                i <= entries@.len(),
                out@ == head + offset_table(entries@, i as int),
            decreases entries@.len() - i,
        {
            push_be32(&mut out, entries[i].offset);
            i += 1;
            assert(out@ =~= head + offset_table(entries@, i as int));
        }
        append_all(&mut out, pack_checksum.as_slice());
        out
    }

    /// Builds the index of a pack from one row for each of its entries and
    /// the pack's checksum.
    ///
    /// The index holds one row for each hash among `rows` (the last row
    /// with that hash), in strictly ascending order. Fails with `Format`
    /// where there are more rows than 32 bits count.
    pub fn build(rows: &Vec<IndexEntry>, pack_checksum: [u8; 20]) -> (r: Result<
        PackIndex,
        GitError,
    >)
        ensures
            match r {
                Ok(index) => rows@.len() <= u32::MAX && index.wf() && lists(
                    index.entries@,
                    index_map(rows@),
                ) && index.pack_checksum == pack_checksum,
                Err(e) => e == GitError::Format && rows@.len() > u32::MAX,
            },
    {
        if rows.len() > 0xffff_ffff {
            return Err(GitError::Format);
        }
        let entries: Vec<IndexEntry> = sort_entries(rows);
        let fanout: Vec<u32> = fanout_table(&entries);
        let body: Vec<u8> = Self::write_body(&fanout, &entries, &pack_checksum);
        let index_checksum: [u8; 20] = sha1(body.as_slice());
        Ok(PackIndex { fanout, entries, pack_checksum, index_checksum })
    }

    /// The bytes of the index file (see `bytes`).
    pub fn to_bytes(&self) -> (out: Vec<u8>)
        ensures
            out@ == self.body() + self.index_checksum@,
            self.wf() ==> out@ == self.bytes(),
    {
        let mut out: Vec<u8> = Self::write_body(&self.fanout, &self.entries, &self.pack_checksum);
        append_all(&mut out, self.index_checksum.as_slice());
        out
    }
}

} // verus!

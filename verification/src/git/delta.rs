use vstd::prelude::*;
use crate::git::helpers::{group_continues, group_value, size_varint};
use crate::git::packfile::{
    apply_delta, copy_fields, copy_op, delta_run, delta_step, lemma_delta_step_bounds, masked_le,
    pow256,
};

verus! {

proof fn lemma_size_varint_of_prefix(s: Seq<u8>, k: int, pos: int)
    requires
        0 <= k <= s.len(),
        size_varint(s.take(k), pos) is Some,
    ensures
        size_varint(s, pos) == size_varint(s.take(k), pos),
    decreases k - pos,
{
    let t = s.take(k);
    if 0 <= pos < t.len() {
        assert(t[pos] == s[pos]);
        if group_continues(t[pos]) {
            lemma_size_varint_of_prefix(s, k, pos + 1);
        }
    }
}

proof fn lemma_masked_le_of_prefix(s: Seq<u8>, k: int, pos: int, mask: nat, n: nat)
    requires
        0 <= k <= s.len(),
        masked_le(s.take(k), pos, mask, n) is Some,
    ensures
        masked_le(s, pos, mask, n) == masked_le(s.take(k), pos, mask, n),
    decreases n,
{
    let t = s.take(k);
    if n > 0 {
        if mask % 2 == 1 {
            assert(0 <= pos < t.len());
            assert(t[pos] == s[pos]);
            lemma_masked_le_of_prefix(s, k, pos + 1, mask / 2, (n - 1) as nat);
        } else {
            lemma_masked_le_of_prefix(s, k, pos, mask / 2, (n - 1) as nat);
        }
    }
}

proof fn lemma_delta_step_of_prefix(s: Seq<u8>, k: int, pos: int, base: Seq<u8>)
    requires
        0 <= k <= s.len(),
        delta_step(s.take(k), pos, base) is Some,
    ensures
        delta_step(s, pos, base) == delta_step(s.take(k), pos, base),
{
    let t = s.take(k);
    assert(0 <= pos < t.len());
    assert(t[pos] == s[pos]);
    let op = t[pos];
    if op >= 128 {
        lemma_masked_le_of_prefix(s, k, pos + 1, (op % 16) as nat, 4);
        let mid = masked_le(t, pos + 1, (op % 16) as nat, 4)->Some_0.1;
        lemma_masked_le_of_prefix(s, k, mid, ((op / 16) % 8) as nat, 3);
    } else {
        assert(t.subrange(pos + 1, pos + 1 + op) =~= s.subrange(pos + 1, pos + 1 + op));
    }
}

proof fn lemma_delta_run_of_prefix(
    s: Seq<u8>,
    k: int,
    pos: int,
    base: Seq<u8>,
    out: Seq<u8>,
    target: nat,
)
    requires
        0 <= k <= s.len(),
        delta_run(s.take(k), pos, base, out, target) is Some,
    ensures
        delta_run(s, pos, base, out, target) == delta_run(s.take(k), pos, base, out, target),
    decreases k - pos,
{
    let t = s.take(k);
    if out.len() < target {
        lemma_delta_step_of_prefix(s, k, pos, base);
        lemma_delta_step_bounds(t, pos, base);
        let (piece, next) = delta_step(t, pos, base)->Some_0;
        lemma_delta_run_of_prefix(s, k, next, base, out + piece, target);
    }
}

/// A delta that is cut short never gives a short result: where what is
/// left of it still makes an object, it is the object that the whole delta
/// makes.
pub proof fn lemma_truncated_delta(delta: Seq<u8>, base: Seq<u8>, k: int)
    requires
        0 <= k <= delta.len(),
        apply_delta(delta.take(k), base) is Some,
    ensures
        apply_delta(delta, base) == apply_delta(delta.take(k), base),
{
    let t = delta.take(k);
    lemma_size_varint_of_prefix(delta, k, 0);
    let (source, mid) = size_varint(t, 0)->Some_0;
    lemma_size_varint_of_prefix(delta, k, mid);
    let (target, start) = size_varint(t, mid)->Some_0;
    lemma_delta_run_of_prefix(delta, k, start, base, Seq::empty(), target);
}

/// One instruction of a delta, as a differ means it.
pub enum DeltaOp {
    /// `size` bytes of the base, from `offset` on.
    Copy { offset: nat, size: nat },
    /// The bytes `data`.
    Insert { data: Seq<u8> },
}

/// Whether a delta can say `op` against `base`: a copy of 1 to `0xffffff`
/// bytes that lie in `base`, from an offset that 32 bits can say, or an
/// insert of 1 to 127 bytes.
pub open spec fn op_fits(op: DeltaOp, base: Seq<u8>) -> bool {
    match op {
        DeltaOp::Copy { offset, size } => offset < 0x1_0000_0000 && 1 <= size < 0x100_0000
            && offset + size <= base.len(),
        DeltaOp::Insert { data } => 1 <= data.len() <= 127,
    }
}

/// The bytes that `op` stands for.
pub open spec fn op_output(op: DeltaOp, base: Seq<u8>) -> Seq<u8> {
    match op {
        DeltaOp::Copy { offset, size } => base.subrange(offset as int, (offset + size) as int),
        DeltaOp::Insert { data } => data,
    }
}

/// A size number as it is written: seven bits to a byte, the low groups
/// first, the high bit set on every byte but the last.
pub open spec fn size_bytes(n: nat) -> Seq<u8>
    decreases n,
{
    if n < 128 {
        seq![n as u8]
    } else {
        seq![(128 + n % 128) as u8] + size_bytes(n / 128)
    }
}

/// Of the `n` low bytes of `v`, least significant first, those that are
/// not zero.
pub open spec fn stored_bytes(v: nat, n: nat) -> Seq<u8>
    decreases n,
{
    if n == 0 {
        Seq::empty()
    } else if v % 256 != 0 {
        seq![(v % 256) as u8] + stored_bytes(v / 256, (n - 1) as nat)
    } else {
        stored_bytes(v / 256, (n - 1) as nat)
    }
}

/// The bits that say which of the `n` low bytes of `v` are not zero, bit 0
/// for the least significant byte.
pub open spec fn stored_mask(v: nat, n: nat) -> nat
    decreases n,
{
    if n == 0 {
        0
    } else if v % 256 != 0 {
        1 + 2 * stored_mask(v / 256, (n - 1) as nat)
    } else {
        2 * stored_mask(v / 256, (n - 1) as nat)
    }
}

/// The length of a copy as it is stored: nothing for `0x10000`.
pub open spec fn stored_size(size: nat) -> nat {
    if size == 0x10000 {
        0
    } else {
        size
    }
}

/// An instruction as it is written.
pub open spec fn op_bytes(op: DeltaOp) -> Seq<u8> {
    match op {
        DeltaOp::Copy { offset, size } => seq![
            (128 + stored_mask(offset, 4) + 16 * stored_mask(stored_size(size), 3)) as u8,
        ] + stored_bytes(offset, 4) + stored_bytes(stored_size(size), 3),
        DeltaOp::Insert { data } => seq![data.len() as u8] + data,
    }
}

/// Instructions as they are written, one after the other.
pub open spec fn ops_bytes(ops: Seq<DeltaOp>) -> Seq<u8>
    decreases ops.len(),
{
    if ops.len() == 0 {
        Seq::empty()
    } else {
        op_bytes(ops[0]) + ops_bytes(ops.drop_first())
    }
}

/// The bytes that instructions stand for, one after the other.
pub open spec fn ops_output(ops: Seq<DeltaOp>, base: Seq<u8>) -> Seq<u8>
    decreases ops.len(),
{
    if ops.len() == 0 {
        Seq::empty()
    } else {
        op_output(ops[0], base) + ops_output(ops.drop_first(), base)
    }
}

/// The delta that says `ops` against a base of `source` bytes: the size of
/// the base, the size of the result, and the instructions.
pub open spec fn delta_bytes(source: nat, ops: Seq<DeltaOp>, base: Seq<u8>) -> Seq<u8> {
    size_bytes(source) + size_bytes(ops_output(ops, base).len()) + ops_bytes(ops)
}

proof fn lemma_size_bytes_read(pre: Seq<u8>, n: nat, post: Seq<u8>)
    ensures
        size_varint(pre + size_bytes(n) + post, pre.len() as int) == Some(
            (n, (pre.len() + size_bytes(n).len()) as int),
        ),
    decreases n,
{
    let s = pre + size_bytes(n) + post;
    let at = pre.len() as int;
    assert(s[at] == size_bytes(n)[0]);
    if n >= 128 {
        let b = (128 + n % 128) as u8;
        let pre2 = pre + seq![b];
        lemma_size_bytes_read(pre2, n / 128, post);
        assert(pre2 + size_bytes(n / 128) + post =~= s);
        assert(group_value(b) == n % 128);
        assert(n % 128 + 128 * (n / 128) == n);
    }
}

proof fn lemma_stored_mask_bounds(v: nat)
    ensures
        stored_mask(v, 4) < 16,
        stored_mask(v, 3) < 8,
        1 <= v < 0x100_0000 ==> stored_mask(v, 3) != 0,
{
    reveal_with_fuel(stored_mask, 5);
    if 1 <= v < 0x100_0000 {
        let b0 = v % 256;
        let r1 = v / 256;
        let b1 = r1 % 256;
        let r2 = r1 / 256;
        let b2 = r2 % 256;
        assert(r2 < 256);
        if b0 == 0 && b1 == 0 && b2 == 0 {
            assert(r2 == 0);
            assert(r1 == 0);
            assert(v == 0);
        }
    }
}

proof fn lemma_stored_bytes_read(pre: Seq<u8>, v: nat, n: nat, post: Seq<u8>)
    requires
        v < pow256(n),
    ensures
        masked_le(pre + stored_bytes(v, n) + post, pre.len() as int, stored_mask(v, n), n) == Some(
            (v, (pre.len() + stored_bytes(v, n).len()) as int),
        ),
    decreases n,
{
    if n > 0 {
        let s = pre + stored_bytes(v, n) + post;
        let at = pre.len() as int;
        let m = stored_mask(v / 256, (n - 1) as nat);
        assert(v / 256 < pow256((n - 1) as nat));
        if v % 256 != 0 {
            let b = (v % 256) as u8;
            let pre2 = pre + seq![b];
            lemma_stored_bytes_read(pre2, v / 256, (n - 1) as nat, post);
            assert(pre2 + stored_bytes(v / 256, (n - 1) as nat) + post =~= s);
            assert(s[at] == b);
            assert(stored_mask(v, n) == 1 + 2 * m);
            assert((1 + 2 * m) % 2 == 1);
            assert((1 + 2 * m) / 2 == m);
            assert(b as nat + 256 * (v / 256) == v);
        } else {
            lemma_stored_bytes_read(pre, v / 256, (n - 1) as nat, post);
            assert(stored_mask(v, n) == 2 * m);
            assert((2 * m) % 2 == 0);
            assert((2 * m) / 2 == m);
            assert(256 * (v / 256) == v);
        }
    }
}

proof fn lemma_op_read(pre: Seq<u8>, op: DeltaOp, post: Seq<u8>, base: Seq<u8>)
    requires
        op_fits(op, base),
    ensures
        delta_step(pre + op_bytes(op) + post, pre.len() as int, base) == Some(
            (op_output(op, base), (pre.len() + op_bytes(op).len()) as int),
        ),
        op_output(op, base).len() >= 1,
{
    let s = pre + op_bytes(op) + post;
    let at = pre.len() as int;
    match op {
        DeltaOp::Copy { offset, size } => {
            let stored = stored_size(size);
            let m1 = stored_mask(offset, 4);
            let m2 = stored_mask(stored, 3);
            lemma_stored_mask_bounds(offset);
            lemma_stored_mask_bounds(stored);
            let flag = (128 + m1 + 16 * m2) as u8;
            assert(flag == 128 + m1 + 16 * m2);
            assert(flag % 16 == m1);
            assert((flag / 16) % 8 == m2);
            let ob = stored_bytes(offset, 4);
            let sb = stored_bytes(stored, 3);
            assert(s[at] == flag);
            assert(pow256(4) == 0x1_0000_0000 && pow256(3) == 0x100_0000) by {
                reveal_with_fuel(pow256, 5);
            }
            lemma_stored_bytes_read(pre + seq![flag], offset, 4, sb + post);
            assert((pre + seq![flag]) + ob + (sb + post) =~= s);
            lemma_stored_bytes_read(pre + seq![flag] + ob, stored, 3, post);
            assert((pre + seq![flag] + ob) + sb + post =~= s);
            assert((pre + seq![flag]).len() == at + 1);
            assert(copy_fields(s, at + 1, flag) == Some(
                (offset, stored, (at + 1 + ob.len() + sb.len()) as int),
            ));
            assert(stored_mask(0, 3) == 0) by {
                reveal_with_fuel(stored_mask, 5);
            }
            assert((m2 == 0) == (size == 0x10000));
            assert(copy_op(s, at + 1, flag) == Some(
                (offset, size, (at + 1 + ob.len() + sb.len()) as int),
            ));
        },
        DeltaOp::Insert { data } => {
            let count = data.len() as u8;
            assert(s[at] == count);
            assert(s.subrange(at + 1, at + 1 + count) =~= data);
        },
    }
}

proof fn lemma_ops_run(pre: Seq<u8>, ops: Seq<DeltaOp>, base: Seq<u8>, out: Seq<u8>)
    requires
        forall|i: int| 0 <= i < ops.len() ==> op_fits(#[trigger] ops[i], base),
    ensures
        delta_run(
            pre + ops_bytes(ops),
            pre.len() as int,
            base,
            out,
            out.len() + ops_output(ops, base).len(),
        ) == Some(out + ops_output(ops, base)),
    decreases ops.len(),
{
    let s = pre + ops_bytes(ops);
    if ops.len() == 0 {
        assert(out + ops_output(ops, base) =~= out);
    } else {
        let op = ops[0];
        let rest = ops.drop_first();
        lemma_op_read(pre, op, ops_bytes(rest), base);
        assert(pre + op_bytes(op) + ops_bytes(rest) =~= s);
        let piece = op_output(op, base);
        assert forall|i: int| 0 <= i < rest.len() implies op_fits(#[trigger] rest[i], base) by {
            assert(rest[i] == ops[i + 1]);
        }
        lemma_ops_run(pre + op_bytes(op), rest, base, out + piece);
        assert((pre + op_bytes(op)) + ops_bytes(rest) =~= s);
        assert(out + piece + ops_output(rest, base) =~= out + ops_output(ops, base));
    }
}

/// Applying the delta that a differ writes gives the object that the
/// differ meant: for instructions that a delta can say against `base`, the
/// delta that says them makes of `base` exactly the bytes that they stand
/// for.
pub proof fn lemma_delta_round_trip(source: nat, ops: Seq<DeltaOp>, base: Seq<u8>)
    requires
        source <= usize::MAX,
        ops_output(ops, base).len() <= usize::MAX,
        forall|i: int| 0 <= i < ops.len() ==> op_fits(#[trigger] ops[i], base),
    ensures
        apply_delta(delta_bytes(source, ops, base), base) == Some(ops_output(ops, base)),
{
    let target = ops_output(ops, base).len();
    let delta = delta_bytes(source, ops, base);
    let none = Seq::<u8>::empty();
    lemma_size_bytes_read(none, source, size_bytes(target) + ops_bytes(ops));
    assert(none + size_bytes(source) + (size_bytes(target) + ops_bytes(ops)) =~= delta);
    lemma_size_bytes_read(size_bytes(source), target, ops_bytes(ops));
    lemma_ops_run(size_bytes(source) + size_bytes(target), ops, base, none);
    assert(none + ops_output(ops, base) =~= ops_output(ops, base));
}

} // verus!

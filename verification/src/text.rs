use vstd::prelude::*;
use crate::bytes::copy_range;

verus! {

/// The first position at or after `from` where `s` holds `b`.
pub open spec fn find_from(s: Seq<u8>, from: int, b: u8) -> Option<int>
    decreases s.len() - from,
{
    if from < 0 || from >= s.len() {
        None
    } else if s[from] == b {
        Some(from)
    } else {
        find_from(s, from + 1, b)
    }
}

/// What `find_from` finds is the first `b`: it lies in `s` at or after
/// `from`, and no `b` stands before it; where it finds nothing, no `b`
/// stands at or after `from`.
pub proof fn lemma_find_from(s: Seq<u8>, from: int, b: u8)
    requires
        0 <= from,
    ensures
        match find_from(s, from, b) {
            Some(i) => from <= i < s.len() && s[i] == b && forall|j: int|
                from <= j < i ==> s[j] != b,
            None => forall|j: int| from <= j < s.len() ==> s[j] != b,
        },
    decreases s.len() - from,
{
    if from < s.len() && s[from] != b {
        lemma_find_from(s, from + 1, b);
    }
}

/// Finds the first `b` in `s` at or after `from`.
pub fn find_byte(s: &[u8], from: usize, b: u8) -> (r: Option<usize>)
    ensures
        match find_from(s@, from as int, b) {
            Some(i) => r is Some && r->Some_0 == i && from <= i < s@.len() && i < usize::MAX,
            None => r is None,
        },
{
    let mut cur: usize = from;
    proof {
        lemma_find_from(s@, from as int, b);
    }
    while cur < s.len()
        invariant
            from <= cur,
            find_from(s@, from as int, b) == find_from(s@, cur as int, b),
        decreases s@.len() - cur,
    {
        if s[cur] == b {
            return Some(cur);
        }
        cur += 1;
    }
    None
}

/// The pieces of `s` from `from` on that `sep` divides: one more than the
/// number of separators, empty pieces included.
pub open spec fn split_from(s: Seq<u8>, from: int, sep: u8) -> Seq<Seq<u8>>
    decreases s.len() - from,
{
    if from < 0 || from > s.len() {
        Seq::empty()
    } else {
        match find_from(s, from, sep) {
            None => seq![s.subrange(from, s.len() as int)],
            Some(i) => {
                if from <= i < s.len() {
                    seq![s.subrange(from, i)] + split_from(s, i + 1, sep)
                } else {
                    Seq::empty()
                }
            },
        }
    }
}

/// The pieces of `s` that `sep` divides.
pub open spec fn split_on(s: Seq<u8>, sep: u8) -> Seq<Seq<u8>> {
    split_from(s, 0, sep)
}

/// The byte sequences that a vector of byte vectors holds.
pub open spec fn views(v: Seq<Vec<u8>>) -> Seq<Seq<u8>> {
    Seq::new(v.len(), |i: int| v[i]@)
}

/// Divides `s` at every `sep` (see `split_on`).
pub fn split_bytes(s: &[u8], sep: u8) -> (parts: Vec<Vec<u8>>)
    ensures
        views(parts@) == split_on(s@, sep),
{
    let mut parts: Vec<Vec<u8>> = Vec::new();
    let mut cur: usize = 0;
    loop
        invariant
            cur <= s@.len(),
            split_on(s@, sep) == views(parts@) + split_from(s@, cur as int, sep),
        decreases s@.len() - cur,
    {
        proof {
            lemma_find_from(s@, cur as int, sep);
        }
        let ghost before = views(parts@);
        match find_byte(s, cur, sep) {
            None => {
                let piece: Vec<u8> = copy_range(s, cur, s.len());
                parts.push(piece);
                assert(views(parts@) =~= before + seq![s@.subrange(cur as int, s@.len() as int)]);
                return parts;
            },
            Some(i) => {
                let piece: Vec<u8> = copy_range(s, cur, i);
                parts.push(piece);
                assert(views(parts@) =~= before + seq![s@.subrange(cur as int, i as int)]);
                assert(before + (seq![s@.subrange(cur as int, i as int)] + split_from(
                    s@,
                    i + 1,
                    sep,
                )) =~= views(parts@) + split_from(s@, i + 1, sep));
                cur = i + 1;
            },
        }
    }
}

/// `s` without one carriage return at its end.
pub open spec fn strip_cr(s: Seq<u8>) -> Seq<u8> {
    if s.len() > 0 && s.last() == 13 {
        s.drop_last()
    } else {
        s
    }
}

/// The lines of `s` from `from` on. A line ends with a line feed, or with
/// a carriage return and a line feed, neither of which belongs to it; the
/// last line need not end with either, and keeps a carriage return at its
/// end. Nothing follows the last line feed.
pub open spec fn lines_from(s: Seq<u8>, from: int) -> Seq<Seq<u8>>
    decreases s.len() - from,
{
    if from < 0 || from >= s.len() {
        Seq::empty()
    } else {
        match find_from(s, from, 10) {
            None => seq![s.subrange(from, s.len() as int)],
            Some(i) => {
                if from <= i < s.len() {
                    seq![strip_cr(s.subrange(from, i))] + lines_from(s, i + 1)
                } else {
                    Seq::empty()
                }
            },
        }
    }
}

/// The lines of `s` (see `lines_from`).
pub open spec fn lines_of(s: Seq<u8>) -> Seq<Seq<u8>> {
    lines_from(s, 0)
}

/// Divides `s` into its lines (see `lines_of`).
pub fn split_lines(s: &[u8]) -> (lines: Vec<Vec<u8>>)
    ensures
        views(lines@) == lines_of(s@),
{
    let mut lines: Vec<Vec<u8>> = Vec::new();
    let mut cur: usize = 0;
    loop
        invariant
            cur <= s@.len(),
            lines_of(s@) == views(lines@) + lines_from(s@, cur as int),
        decreases s@.len() - cur,
    {
        if cur >= s.len() {
            assert(views(lines@) + Seq::<Seq<u8>>::empty() =~= views(lines@));
            return lines;
        }
        proof {
            lemma_find_from(s@, cur as int, 10);
        }
        let ghost before = views(lines@);
        match find_byte(s, cur, 10) {
            None => {
                let piece: Vec<u8> = copy_range(s, cur, s.len());
                lines.push(piece);
                assert(views(lines@) =~= before + seq![s@.subrange(cur as int, s@.len() as int)]);
                return lines;
            },
            Some(i) => {
                let end: usize = if i > cur && s[i - 1] == 13 {
                    i - 1
                } else {
                    i
                };
                let piece: Vec<u8> = copy_range(s, cur, end);
                assert(piece@ =~= strip_cr(s@.subrange(cur as int, i as int)));
                lines.push(piece);
                assert(views(lines@) =~= before + seq![strip_cr(s@.subrange(cur as int, i as int))]);
                assert(before + (seq![strip_cr(s@.subrange(cur as int, i as int))] + lines_from(
                    s@,
                    i + 1,
                )) =~= views(lines@) + lines_from(s@, i + 1));
                cur = i + 1;
            },
        }
    }
}

/// The value of `c` as a digit: `0` to `9`, then the letters in either
/// case from ten on.
pub open spec fn digit_of(c: u8) -> Option<nat> {
    if 48 <= c <= 57 {
        Some((c - 48) as nat)
    } else if 97 <= c <= 122 {
        Some((c - 87) as nat)
    } else if 65 <= c <= 90 {
        Some((c - 55) as nat)
    } else {
        None
    }
}

/// Whether every character of `s` is a digit below `radix`.
pub open spec fn all_digits(s: Seq<u8>, radix: nat) -> bool {
    forall|i: int| 0 <= i < s.len() ==> (#[trigger] digit_of(s[i])) is Some && digit_of(s[i])->Some_0 < radix
}

/// The number that the digits `s` write in base `radix`, most significant
/// digit first.
pub open spec fn digits_value(s: Seq<u8>, radix: nat) -> nat
    decreases s.len(),
{
    if s.len() == 0 {
        0
    } else {
        digits_value(s.drop_last(), radix) * radix + digit_of(s.last()).unwrap_or(0)
    }
}

/// The number that `s` writes in base `radix`: one or more digits, after
/// an optional `+`. `None` for anything else.
pub open spec fn number_value(s: Seq<u8>, radix: nat) -> Option<nat> {
    let digits = if s.len() > 0 && s[0] == 43 {
        s.subrange(1, s.len() as int)
    } else {
        s
    };
    if digits.len() > 0 && all_digits(digits, radix) {
        Some(digits_value(digits, radix))
    } else {
        None
    }
}

proof fn lemma_digits_value_monotone(s: Seq<u8>, k: int, radix: nat)
    requires
        0 <= k <= s.len(),
        radix >= 1,
    ensures
        digits_value(s.take(k), radix) <= digits_value(s, radix),
    decreases s.len(),
{
    if k < s.len() {
        lemma_digits_value_monotone(s.drop_last(), k, radix);
        assert(s.drop_last().take(k) =~= s.take(k));
        let v = digits_value(s.drop_last(), radix);
        assert(v * radix >= v) by (nonlinear_arith)
            requires
                radix >= 1,
                v >= 0,
        ;
    } else {
        assert(s.take(k) =~= s);
    }
}

/// Reads a number in base `radix` (see `number_value`) that is at most
/// `max`. `None` where `s` writes no number, or a greater one.
pub fn parse_number(s: &[u8], radix: u8, max: u64) -> (r: Option<u64>)
    requires
        2 <= radix <= 36,
    ensures
        match number_value(s@, radix as nat) {
            Some(v) => if v <= max {
                r == Some(v as u64)
            } else {
                r is None
            },
            None => r is None,
        },
{
    let len: usize = s.len();
    let start: usize = if len > 0 && s[0] == 43 {
        1
    } else {
        0
    };
    if start >= len {
        return None;
    }
    let ghost digits = s@.subrange(start as int, len as int);
    assert(s@.subrange(0, len as int) =~= s@);
    assert(number_value(s@, radix as nat) == if all_digits(digits, radix as nat) {
        Some(digits_value(digits, radix as nat))
    } else {
        None
    });
    let mut acc: u64 = 0;
    let mut i: usize = start;
    while i < len
        invariant
            start <= i <= len,
            len == s@.len(),
            2 <= radix <= 36,
            digits == s@.subrange(start as int, len as int),
            number_value(s@, radix as nat) == if all_digits(digits, radix as nat) {
                Some(digits_value(digits, radix as nat))
            } else {
                None
            },
            all_digits(digits.take(i - start), radix as nat),
            acc == digits_value(digits.take(i - start), radix as nat),
            acc <= max,
        decreases len - i,
    {
        let c: u8 = s[i];
        let d: u8 = if 48 <= c && c <= 57 {
            c - 48
        } else if 97 <= c && c <= 122 {
            c - 87
        } else if 65 <= c && c <= 90 {
            c - 55
        } else {
            255
        };
        let ghost k = i - start;
        assert(digits[k] == c);
        assert(digits.take(k + 1).drop_last() =~= digits.take(k));
        assert(digits.take(k + 1).last() == c);
        if d >= radix {
            assert(digit_of(digits[k]) is None || digit_of(digits[k])->Some_0 >= radix);
            assert(!all_digits(digits, radix as nat));
            return None;
        }
        assert(all_digits(digits.take(k + 1), radix as nat)) by {
            assert forall|j: int| 0 <= j < k + 1 implies (#[trigger] digit_of(
                digits.take(k + 1)[j],
            )) is Some && digit_of(digits.take(k + 1)[j])->Some_0 < radix by {
                if j < k {
                    assert(digits.take(k)[j] == digits.take(k + 1)[j]);
                }
            }
        }
        let next: Option<u64> = match acc.checked_mul(radix as u64) {
            None => None,
            Some(t) => t.checked_add(d as u64),
        };
        let ghost grown = digits_value(digits.take(k + 1), radix as nat);
        assert(grown == acc * radix + d);
        proof {
            lemma_digits_value_monotone(digits, k + 1, radix as nat);
        }
        match next {
            None => {
                return None;
            },
            Some(v) => {
                if v > max {
                    return None;
                }
                acc = v;
            },
        }
        i += 1;
    }
    assert(digits.take(len - start) =~= digits);
    Some(acc)
}

/// `s` without the `b`s at its start.
pub open spec fn trim_start(s: Seq<u8>, b: u8) -> Seq<u8>
    decreases s.len(),
{
    if s.len() > 0 && s[0] == b {
        trim_start(s.drop_first(), b)
    } else {
        s
    }
}

/// `s` without the `b`s at its end.
pub open spec fn trim_end(s: Seq<u8>, b: u8) -> Seq<u8>
    decreases s.len(),
{
    if s.len() > 0 && s.last() == b {
        trim_end(s.drop_last(), b)
    } else {
        s
    }
}

/// A copy of `s` without the `open`s at its start and the `close`s at the
/// end of what is left.
pub fn trim_pair(s: &[u8], open: u8, close: u8) -> (r: Vec<u8>)
    ensures
        r@ == trim_end(trim_start(s@, open), close),
{
    let mut from: usize = 0;
    assert(s@.subrange(0, s@.len() as int) =~= s@);
    while from < s.len() && s[from] == open
        invariant
            from <= s@.len(),
            trim_start(s@, open) == trim_start(s@.subrange(from as int, s@.len() as int), open),
        decreases s@.len() - from,
    {
        assert(s@.subrange(from as int, s@.len() as int).drop_first() =~= s@.subrange(
            from + 1,
            s@.len() as int,
        ));
        from += 1;
    }
    let ghost rest = s@.subrange(from as int, s@.len() as int);
    assert(trim_start(s@, open) == rest);
    let mut to: usize = s.len();
    while to > from && s[to - 1] == close
        invariant
            from <= to <= s@.len(),
            rest == s@.subrange(from as int, s@.len() as int),
            trim_end(rest, close) == trim_end(s@.subrange(from as int, to as int), close),
        decreases to,
    {
        assert(s@.subrange(from as int, to as int).drop_last() =~= s@.subrange(
            from as int,
            to - 1,
        ));
        to -= 1;
    }
    copy_range(s, from, to)
}

} // verus!

//! The binary AIGER format as this library reads it: numbers, lines, fields and the
//! variable-length encoding of the and-gate section.

use vstd::prelude::*;
use vstd::utf8::{decode_utf8, valid_utf8};

verus! {

/// The byte of a newline.
pub open spec fn newline() -> u8 {
    10u8
}

/// The byte of a space.
pub open spec fn space() -> u8 {
    32u8
}

/// Whether a byte is an ASCII decimal digit.
pub open spec fn is_digit(b: u8) -> bool {
    48 <= b <= 57
}

/// The number written by a sequence of decimal digits (0 for the empty sequence).
pub open spec fn digits_value(s: Seq<u8>) -> nat
    decreases s.len(),
{
    if s.len() == 0 {
        0
    } else {
        digits_value(s.drop_last()) * 10 + (s.last() - 48) as nat
    }
}

/// A text without the `+` that may stand before the digits of a number.
pub open spec fn unsigned_digits(s: Seq<u8>) -> Seq<u8> {
    if s.len() > 1 && s[0] == 43u8 {
        s.drop_first()
    } else {
        s
    }
}

/// Whether every byte of a text is a decimal digit.
pub open spec fn all_digits(d: Seq<u8>) -> bool {
    forall|i: int| 0 <= i < d.len() ==> is_digit(#[trigger] d[i])
}

/// The number that `usize::from_str` reads from a text: an optional `+`, then one or more
/// decimal digits, with a value that fits in a `usize`.
pub open spec fn parse_number(s: Seq<u8>) -> Option<nat> {
    let d = unsigned_digits(s);
    if d.len() > 0 && all_digits(d) && digits_value(d) <= usize::MAX {
        Some(digits_value(d))
    } else {
        None
    }
}

/// A longer run of digits never stands for a smaller number.
pub proof fn lemma_digits_value_prefix(s: Seq<u8>, n: int)
    requires
        0 <= n <= s.len(),
        forall|i: int| 0 <= i < s.len() ==> is_digit(#[trigger] s[i]),
    ensures
        digits_value(s.subrange(0, n)) <= digits_value(s),
    decreases s.len() - n,
{
    if n < s.len() {
        lemma_digits_value_prefix(s, n + 1);
        assert(s.subrange(0, n + 1).drop_last() =~= s.subrange(0, n));
    } else {
        assert(s.subrange(0, n) =~= s);
    }
}

/// The position of the first newline at or after `start`, or the length when there is none.
pub open spec fn find_newline(b: Seq<u8>, start: int) -> int
    decreases b.len() - start,
{
    if start < 0 || start >= b.len() {
        b.len() as int
    } else if b[start] == newline() {
        start
    } else {
        find_newline(b, start + 1)
    }
}

/// Where the line with index `k` starts: after the `k`-th newline.
pub open spec fn line_start(b: Seq<u8>, k: nat) -> int
    decreases k,
{
    if k == 0 {
        0
    } else {
        find_newline(b, line_start(b, (k - 1) as nat)) + 1
    }
}

/// Where the line with index `k` ends: at its newline, or at the end of the bytes.
pub open spec fn line_end(b: Seq<u8>, k: nat) -> int {
    find_newline(b, line_start(b, k))
}

/// The bytes of the line with index `k`, without its newline.
pub open spec fn line(b: Seq<u8>, k: nat) -> Seq<u8> {
    b.subrange(line_start(b, k), line_end(b, k))
}

/// Whether the line with index `k` exists and ends with a newline.
pub open spec fn line_complete(b: Seq<u8>, k: nat) -> bool {
    line_end(b, k) < b.len()
}

/// The fields of a text separated by a byte, as `str::split` gives them: empty fields count,
/// and a text without the byte is one field.
pub open spec fn split_on(s: Seq<u8>, sep: u8) -> Seq<Seq<u8>>
    decreases s.len(),
{
    if s.len() == 0 {
        seq![Seq::empty()]
    } else {
        let rest = split_on(s.drop_last(), sep);
        if s.last() == sep {
            rest.push(Seq::empty())
        } else {
            rest.update(rest.len() - 1, rest.last().push(s.last()))
        }
    }
}

/// There is always at least one field.
pub proof fn lemma_split_on_len(s: Seq<u8>, sep: u8)
    ensures
        split_on(s, sep).len() >= 1,
    decreases s.len(),
{
    if s.len() > 0 {
        lemma_split_on_len(s.drop_last(), sep);
    }
}

/// The position of the first newline at or after `start` (or the length when there is none).
pub fn next_newline(b: &[u8], start: usize) -> (r: usize)
    requires
        start <= b@.len(),
    ensures
        r == find_newline(b@, start as int),
        start <= r <= b@.len(),
{
    let mut i = start;
    while i < b.len()
        invariant
            start <= i <= b@.len(),
            find_newline(b@, start as int) == find_newline(b@, i as int),
        decreases b@.len() - i,
    {
        if b[i] == 10u8 {
            return i;
        }
        i = i + 1;
    }
    i
}

/// `find_newline` lies at or after its start and within the bytes.
pub proof fn lemma_find_newline_bounds(b: Seq<u8>, start: int)
    requires
        0 <= start,
    ensures
        start <= find_newline(b, start) || start > b.len(),
        find_newline(b, start) <= b.len(),
        find_newline(b, start) < b.len() ==> b[find_newline(b, start)] == newline(),
    decreases b.len() - start,
{
    if start < b.len() && b[start] != newline() {
        lemma_find_newline_bounds(b, start + 1);
    }
}

/// The byte sequences held by a sequence of byte vectors.
pub open spec fn byte_views(v: Seq<Vec<u8>>) -> Seq<Seq<u8>> {
    v.map_values(|x: Vec<u8>| x@)
}

/// Pushing a vector pushes its bytes.
pub proof fn lemma_byte_views_push(v: Seq<Vec<u8>>, x: Vec<u8>)
    ensures
        byte_views(v.push(x)) =~= byte_views(v).push(x@),
{
    assert forall|i: int| 0 <= i < v.len() + 1 implies #[trigger] byte_views(v.push(x))[i]
        == byte_views(v).push(x@)[i] by {
        if i < v.len() {
            assert(v.push(x)[i] == v[i]);
        }
    }
}

/// The fields of `b[start..end]` separated by `sep`.
pub fn split_bytes(b: &[u8], start: usize, end: usize, sep: u8) -> (r: Vec<Vec<u8>>)
    requires
        start <= end <= b@.len(),
    ensures
        byte_views(r@) == split_on(b@.subrange(start as int, end as int), sep),
{
    let mut fields: Vec<Vec<u8>> = Vec::new();
    let mut current: Vec<u8> = Vec::new();
    let mut i = start;
    proof {
        assert(b@.subrange(start as int, start as int) =~= Seq::<u8>::empty());
    }
    while i < end
        invariant
            start <= i <= end <= b@.len(),
            byte_views(fields@).push(current@) == split_on(b@.subrange(start as int, i as int), sep),
        decreases end - i,
    {
        let ghost s = b@.subrange(start as int, i as int + 1);
        proof {
            assert(s.drop_last() =~= b@.subrange(start as int, i as int));
            assert(s.last() == b@[i as int]);
            lemma_split_on_len(s.drop_last(), sep);
        }
        if b[i] == sep {
            let mut done: Vec<u8> = Vec::new();
            std::mem::swap(&mut done, &mut current);
            let ghost old_fields = fields@;
            fields.push(done);
            proof {
                lemma_byte_views_push(old_fields, done);
                assert(byte_views(fields@).push(current@) =~= split_on(s, sep));
            }
        } else {
            let ghost old_current = current@;
            current.push(b[i]);
            proof {
                assert(byte_views(fields@).push(current@) =~= split_on(s, sep));
            }
        }
        i = i + 1;
    }
    let ghost old_fields = fields@;
    let ghost last = current@;
    fields.push(current);
    proof {
        lemma_byte_views_push(old_fields, current);
    }
    fields
}

/// The number that `usize::from_str` reads from `b[start..end]`, if it reads one.
pub fn read_number(b: &[u8], start: usize, end: usize) -> (r: Option<usize>)
    requires
        start <= end <= b@.len(),
    ensures
        match r {
            Some(n) => parse_number(b@.subrange(start as int, end as int)) == Some(n as nat),
            None => parse_number(b@.subrange(start as int, end as int)) is None,
        },
{
    let ghost s = b@.subrange(start as int, end as int);
    let mut first = start;
    if end - start > 1 && b[start] == 43u8 {
        first = start + 1;
    }
    let ghost d = b@.subrange(first as int, end as int);
    proof {
        if end - start > 1 && b@[start as int] == 43u8 {
            assert(d =~= s.drop_first());
        } else {
            assert(d =~= s);
        }
    }
    if first == end {
        return None;
    }
    let mut value: usize = 0;
    let mut i = first;
    proof {
        assert(b@.subrange(first as int, first as int) =~= Seq::<u8>::empty());
    }
    while i < end
        invariant
            start <= first <= i <= end <= b@.len(),
            d == b@.subrange(first as int, end as int),
            s == b@.subrange(start as int, end as int),
            d == unsigned_digits(s),
            forall|k: int| first <= k < i ==> is_digit(#[trigger] b@[k]),
            value == digits_value(b@.subrange(first as int, i as int)),
        decreases end - i,
    {
        let c = b[i];
        if c < 48u8 || c > 57u8 {
            proof {
                assert(d[i - first] == c);
                assert(!is_digit(d[i - first]));
                assert(!all_digits(d));
                assert(parse_number(s) is None);
            }
            return None;
        }
        let digit: usize = (c - 48u8) as usize;
        let ghost p = b@.subrange(first as int, i as int + 1);
        proof {
            assert(p.drop_last() =~= b@.subrange(first as int, i as int));
        }
        if value > (usize::MAX - digit) / 10 {
            proof {
                if all_digits(d) {
                    lemma_digits_value_prefix(d, i - first + 1);
                    assert(d.subrange(0, i - first + 1) =~= p);
                    assert(digits_value(p) == value * 10 + digit);
                    assert(digits_value(d) > usize::MAX);
                }
                assert(parse_number(s) is None);
            }
            return None;
        }
        value = value * 10 + digit;
        i = i + 1;
    }
    proof {
        assert(b@.subrange(first as int, end as int) =~= d);
        assert forall|k: int| 0 <= k < d.len() implies is_digit(#[trigger] d[k]) by {
            assert(d[k] == b@[first + k]);
        }
    }
    Some(value)
}

/// Calls `std::str::from_utf8`, which gives the text that a byte slice holds when the bytes
/// are valid UTF-8 and an error otherwise. Its contract claims that the text exists exactly for
/// valid UTF-8 and holds the characters that the bytes encode.
#[verifier::external_body]
pub(crate) fn utf8_text(bytes: &[u8]) -> (r: Option<&str>)
    ensures
        r is Some <==> valid_utf8(bytes@),
        r matches Some(s) ==> s@ == decode_utf8(bytes@),
{
    std::str::from_utf8(bytes).ok()
}

} // verus!

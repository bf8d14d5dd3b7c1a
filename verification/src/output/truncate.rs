//! Fitting captured output into a byte budget, keeping its start and its end.

use std::borrow::Cow;
use vstd::prelude::*;
use vstd::string::*;
use vstd::utf8::*;

use crate::text::{bytes_of, decimal, push_decimal};

verus! {

/// The last character boundary of `b` at or before `i`.
pub open spec fn floor_of(b: Seq<u8>, i: int) -> int
    decreases i,
{
    if i <= 0 || is_char_boundary(b, i) {
        i
    } else {
        floor_of(b, i - 1)
    }
}

/// The first character boundary of `b` at or after `i`.
pub open spec fn ceil_of(b: Seq<u8>, i: int) -> int
    decreases b.len() - i,
{
    if i >= b.len() || is_char_boundary(b, i) {
        i
    } else {
        ceil_of(b, i + 1)
    }
}

pub open spec fn less(a: int, b: int) -> int {
    if a < b {
        a
    } else {
        b
    }
}

pub open spec fn greater(a: int, b: int) -> int {
    if a < b {
        b
    } else {
        a
    }
}

/// Bytes of the stream that were kept neither in `head` nor in `tail`.
pub open spec fn gap_of(head: Seq<u8>, tail: Seq<u8>, total: int) -> int {
    greater(0, total - (head.len() + tail.len()))
}

/// The stream is shown whole: nothing is missing between the two parts, and
/// together they fit.
pub open spec fn fits(head: Seq<u8>, tail: Seq<u8>, total: int, max: int) -> bool {
    gap_of(head, tail, total) == 0 && head.len() + tail.len() <= max
}

/// How much of the start of `head` is shown.
pub open spec fn front_of(head: Seq<u8>, max: int) -> int {
    floor_of(head, less(max / 2, head.len() as int))
}

/// Where the shown end of `tail` begins.
pub open spec fn from_tail_of(head: Seq<u8>, tail: Seq<u8>, max: int) -> int {
    ceil_of(tail, greater(0, tail.len() - (max - front_of(head, max))))
}

/// What is left of the budget once both the start of `head` and the end of
/// `tail` are taken.
pub open spec fn spare_of(head: Seq<u8>, tail: Seq<u8>, max: int) -> int {
    max - front_of(head, max) - (tail.len() - from_tail_of(head, tail, max))
}

/// Where the shown end of `head` begins. It is shown only when `tail` follows
/// it directly in the stream.
pub open spec fn from_head_of(head: Seq<u8>, tail: Seq<u8>, total: int, max: int) -> int {
    if gap_of(head, tail, total) == 0 && spare_of(head, tail, max) > 0 {
        ceil_of(
            head,
            greater(greater(0, head.len() - spare_of(head, tail, max)), front_of(head, max)),
        )
    } else {
        head.len() as int
    }
}

/// How many bytes of the stream are shown when it is cut.
pub open spec fn shown_of(head: Seq<u8>, tail: Seq<u8>, total: int, max: int) -> int {
    front_of(head, max) + (head.len() - from_head_of(head, tail, total, max)) + (tail.len()
        - from_tail_of(head, tail, max))
}

/// The line that stands where bytes were left out.
pub open spec fn marker(cut: nat, total: nat) -> Seq<char> {
    "\n["@ + decimal(cut) + " of "@ + decimal(total)
        + " bytes cut here; rerun through grep or tail to narrow]\n"@
}

/// What is displayed of the stream.
pub open spec fn displayed(head: Seq<u8>, tail: Seq<u8>, total: int, max: int) -> Seq<char> {
    if fits(head, tail, total, max) {
        decode_utf8(head) + decode_utf8(tail)
    } else {
        decode_utf8(head.take(front_of(head, max))) + marker(
            greater(0, total - shown_of(head, tail, total, max)) as nat,
            total as nat,
        ) + decode_utf8(head.skip(from_head_of(head, tail, total, max))) + decode_utf8(
            tail.skip(from_tail_of(head, tail, max)),
        )
    }
}

pub proof fn lemma_floor(b: Seq<u8>, i: int)
    requires
        0 <= i <= b.len(),
        valid_utf8(b),
    ensures
        0 <= floor_of(b, i) <= i,
        is_char_boundary(b, floor_of(b, i)),
    decreases i,
{
    is_char_boundary_start_end_of_seq(b);
    if i <= 0 || is_char_boundary(b, i) {
    } else {
        lemma_floor(b, i - 1);
    }
}

pub proof fn lemma_ceil(b: Seq<u8>, i: int)
    requires
        0 <= i <= b.len(),
        valid_utf8(b),
    ensures
        i <= ceil_of(b, i) <= b.len(),
        is_char_boundary(b, ceil_of(b, i)),
    decreases b.len() - i,
{
    is_char_boundary_start_end_of_seq(b);
    if i >= b.len() || is_char_boundary(b, i) {
    } else {
        lemma_ceil(b, i + 1);
    }
}

/// The cuts are in order, on character boundaries, and within the budget: what
/// is shown of the stream is a start of `head`, an end of `head` that does not
/// overlap it, and an end of `tail`, together no longer than `max` bytes.
pub proof fn law_cut_within_budget(head: Seq<u8>, tail: Seq<u8>, total: int, max: int)
    requires
        valid_utf8(head),
        valid_utf8(tail),
        0 <= max,
    ensures
        0 <= front_of(head, max) <= from_head_of(head, tail, total, max) <= head.len(),
        0 <= from_tail_of(head, tail, max) <= tail.len(),
        0 <= spare_of(head, tail, max),
        is_char_boundary(head, front_of(head, max)),
        is_char_boundary(head, from_head_of(head, tail, total, max)),
        is_char_boundary(tail, from_tail_of(head, tail, max)),
        0 <= shown_of(head, tail, total, max) <= max,
{
    is_char_boundary_start_end_of_seq(head);
    lemma_floor(head, less(max / 2, head.len() as int));
    let front = front_of(head, max);
    let start = greater(0, tail.len() - (max - front));
    lemma_ceil(tail, start);
    let spare = spare_of(head, tail, max);
    if gap_of(head, tail, total) == 0 && spare > 0 {
        lemma_ceil(head, greater(greater(0, head.len() - spare), front));
    }
}

/// Every byte of the stream is either shown or counted in the marker.
pub proof fn law_cut_counts_every_byte(head: Seq<u8>, tail: Seq<u8>, total: int, max: int)
    requires
        valid_utf8(head),
        valid_utf8(tail),
        0 <= max,
        head.len() + tail.len() <= total,
    ensures
        0 <= shown_of(head, tail, total, max) <= total,
        greater(0, total - shown_of(head, tail, total, max)) + shown_of(head, tail, total, max)
            == total,
{
    law_cut_within_budget(head, tail, total, max);
}

/// A character is at most four bytes, so a boundary is never more than three
/// bytes away, on either side.
pub proof fn lemma_boundary_near(b: Seq<u8>, i: int) -> (r: (int, int))
    requires
        0 <= i <= b.len(),
        valid_utf8(b),
    ensures
        0 <= r.0 <= i <= r.1 <= b.len(),
        i - 3 <= r.0,
        r.1 <= i + 3,
        is_char_boundary(b, r.0),
        is_char_boundary(b, r.1),
    decreases b.len(),
{
    is_char_boundary_start_end_of_seq(b);
    if i == 0 {
        (0, 0)
    } else {
        let n = length_of_first_scalar(b);
        let rest = pop_first_scalar(b);
        assert(valid_utf8(rest));
        is_char_boundary_start_end_of_seq(rest);
        assert(1 <= n <= 4);
        assert(rest.len() == b.len() - n);
        if i < n {
            assert(is_char_boundary(b, n));
            (0, n)
        } else {
            let near = lemma_boundary_near(rest, i - n);
            let r = (near.0 + n, near.1 + n);
            assert(is_char_boundary(b, r.0));
            assert(is_char_boundary(b, r.1));
            r
        }
    }
}

proof fn lemma_floor_reaches(b: Seq<u8>, i: int, k: int)
    requires
        0 <= k <= i <= b.len(),
        is_char_boundary(b, k),
    ensures
        k <= floor_of(b, i) <= i,
    decreases i,
{
    if i > 0 && !is_char_boundary(b, i) {
        lemma_floor_reaches(b, i - 1, k);
    }
}

proof fn lemma_ceil_reaches(b: Seq<u8>, i: int, k: int)
    requires
        0 <= i <= k <= b.len(),
        is_char_boundary(b, k),
    ensures
        i <= ceil_of(b, i) <= k,
    decreases b.len() - i,
{
    if i < b.len() && !is_char_boundary(b, i) {
        lemma_ceil_reaches(b, i + 1, k);
    }
}

/// A stream that fits comes back whole, and one that does not is shown as its
/// start, a line that counts what is left out, and its end. The budget is used:
/// half of it for the start, the rest for the end, each up to the width of a
/// character, and what the end does not need for the part of `head` before it
/// where nothing is missing between the two.
pub proof fn law_cut_keeps_start_and_end(head: Seq<u8>, tail: Seq<u8>, total: int, max: int)
    requires
        valid_utf8(head),
        valid_utf8(tail),
        0 <= max,
        head.len() + tail.len() <= total,
    ensures
        total <= max && head.len() + tail.len() == total ==> displayed(head, tail, total, max)
            == decode_utf8(head) + decode_utf8(tail),
        total > max || head.len() + tail.len() < total ==> exists|f: int, h: int, t: int|
            {
                &&& 0 <= f <= h <= head.len()
                &&& 0 <= t <= tail.len()
                &&& f + (head.len() - h) + (tail.len() - t) <= max
                &&& f <= max / 2
                &&& f >= max / 2 - 3 || f >= head.len() - 3
                &&& t == 0 || tail.len() - t >= max - f - 3
                &&& head.len() + tail.len() < total ==> h == head.len()
                &&& head.len() + tail.len() == total && t > 0 ==> head.len() - h <= 3
                &&& head.len() + tail.len() == total && t == 0 ==> h <= f + 3 || head.len() - h
                    >= max - f - tail.len() - 3
                &&& displayed(head, tail, total, max) == #[trigger] decode_utf8(head.take(f))
                    + ("\n["@ + decimal(
                    (total - f - (head.len() - h) - (tail.len() - t)) as nat,
                ) + " of "@ + decimal(total as nat)
                    + " bytes cut here; rerun through grep or tail to narrow]\n"@)
                    + #[trigger] decode_utf8(head.skip(h)) + #[trigger] decode_utf8(tail.skip(t))
            },
{
    if total > max || head.len() + tail.len() < total {
        law_cut_within_budget(head, tail, total, max);
        let f = front_of(head, max);
        let h = from_head_of(head, tail, total, max);
        let t = from_tail_of(head, tail, max);
        let half = less(max / 2, head.len() as int);
        let near = lemma_boundary_near(head, half);
        lemma_floor_reaches(head, half, near.0);
        let start = greater(0, tail.len() - (max - f));
        let near_tail = lemma_boundary_near(tail, start);
        lemma_ceil_reaches(tail, start, near_tail.1);
        is_char_boundary_start_end_of_seq(tail);
        if start == 0 {
            lemma_ceil_reaches(tail, 0, 0);
        }
        let spare = spare_of(head, tail, max);
        if gap_of(head, tail, total) == 0 && spare > 0 {
            let from = greater(greater(0, head.len() - spare), f);
            let near_head = lemma_boundary_near(head, from);
            lemma_ceil_reaches(head, from, near_head.1);
        }
        assert(displayed(head, tail, total, max) == decode_utf8(head.take(f)) + marker(
            (total - f - (head.len() - h) - (tail.len() - t)) as nat,
            total as nat,
        ) + decode_utf8(head.skip(h)) + decode_utf8(tail.skip(t)));
    }
}

/// A text that fits its budget is displayed as it is.
pub proof fn law_what_fits_is_shown_whole(text: Seq<char>, max: int)
    requires
        bytes_of(text).len() <= max,
    ensures
        displayed(bytes_of(text), Seq::empty(), bytes_of(text).len() as int, max) == text,
{
    let b = bytes_of(text);
    let none = Seq::<u8>::empty();
    encode_utf8_valid_utf8(text);
    encode_utf8_decode_utf8(text);
    assert(valid_utf8(none));
    law_cut_keeps_start_and_end(b, none, b.len() as int, max);
    assert(decode_utf8(none) =~= Seq::<char>::empty());
    assert(decode_utf8(b) + decode_utf8(none) =~= text);
}

fn floor_boundary(s: &str, at: usize) -> (r: usize)
    requires
        at <= s.spec_bytes().len(),
    ensures
        r == floor_of(s.spec_bytes(), at as int),
{
    let mut i: usize = at;
    while i > 0 && !s.is_char_boundary(i)
        invariant
            i <= at <= s.spec_bytes().len(),
            floor_of(s.spec_bytes(), at as int) == floor_of(s.spec_bytes(), i as int),
        decreases i,
    {
        i = i - 1;
    }
    i
}

fn ceil_boundary(s: &str, at: usize) -> (r: usize)
    requires
        at <= s.spec_bytes().len(),
    ensures
        r == ceil_of(s.spec_bytes(), at as int),
{
    let n: usize = s.as_bytes().len();
    let mut i: usize = at;
    while i < n && !s.is_char_boundary(i)
        invariant
            at <= i <= n,
            n == s.spec_bytes().len(),
            ceil_of(s.spec_bytes(), at as int) == ceil_of(s.spec_bytes(), i as int),
        decreases n - i,
    {
        i = i + 1;
    }
    i
}

/// The characters of `s` before byte `at`.
fn before<'a>(s: &'a str, at: usize) -> (r: &'a str)
    requires
        is_char_boundary(s.spec_bytes(), at as int),
        at <= s.spec_bytes().len(),
    ensures
        r@ == decode_utf8(s.spec_bytes().take(at as int)),
{
    let r = s.split_at(at).0;
    proof {
        encode_utf8_decode_utf8(r@);
        assert(r.spec_bytes() =~= s.spec_bytes().take(at as int));
    }
    r
}

/// The characters of `s` from byte `at` on.
fn after<'a>(s: &'a str, at: usize) -> (r: &'a str)
    requires
        is_char_boundary(s.spec_bytes(), at as int),
        at <= s.spec_bytes().len(),
    ensures
        r@ == decode_utf8(s.spec_bytes().skip(at as int)),
{
    let r = s.split_at(at).1;
    proof {
        encode_utf8_decode_utf8(r@);
        assert(r.spec_bytes() =~= s.spec_bytes().skip(at as int));
    }
    r
}

pub proof fn lemma_str_bytes(s: &str)
    ensures
        valid_utf8(s.spec_bytes()),
        decode_utf8(s.spec_bytes()) == s@,
{
    encode_utf8_valid_utf8(s@);
    encode_utf8_decode_utf8(s@);
}

/// Where a stream that does not fit is cut: the end of the shown start of
/// `head`, the beginning of its shown end, and the beginning of the shown end
/// of `tail`.
fn cuts(head: &str, tail: &str, total: usize, max_bytes: usize) -> (r: (usize, usize, usize))
    requires
        head.spec_bytes().len() + tail.spec_bytes().len() <= usize::MAX,
    ensures
        r.0 == front_of(head.spec_bytes(), max_bytes as int),
        r.1 == from_head_of(head.spec_bytes(), tail.spec_bytes(), total as int, max_bytes as int),
        r.2 == from_tail_of(head.spec_bytes(), tail.spec_bytes(), max_bytes as int),
{
    proof {
        lemma_str_bytes(head);
        lemma_str_bytes(tail);
        law_cut_within_budget(
            head.spec_bytes(),
            tail.spec_bytes(),
            total as int,
            max_bytes as int,
        );
    }
    let head_len: usize = head.as_bytes().len();
    let tail_len: usize = tail.as_bytes().len();
    let gap: usize = total.saturating_sub(head_len + tail_len);
    let half: usize = max_bytes / 2;
    let front: usize = floor_boundary(head, if half < head_len { half } else { head_len });
    let budget: usize = max_bytes - front;
    let from_tail: usize = ceil_boundary(tail, tail_len.saturating_sub(budget));
    let spare: usize = budget - (tail_len - from_tail);
    // The end of `head` only continues into `tail` when nothing was dropped
    // between them. Otherwise it belongs before the gap, not after.
    let from_head: usize = if gap == 0 && spare > 0 {
        let start: usize = head_len.saturating_sub(spare);
        ceil_boundary(head, if start < front { front } else { start })
    } else {
        head_len
    };
    (front, from_head, from_tail)
}

/// Truncate long output keeping its start and its end, with a marker in the
/// middle saying how much was cut. Output that fits is borrowed. When it is
/// cut, the original length comes back beside it.
pub fn truncate_with_hint(text: &str, max_bytes: usize) -> (r: (Cow<'_, str>, Option<usize>))
    ensures
        r.0@ == displayed(
            text.spec_bytes(),
            Seq::empty(),
            text.spec_bytes().len() as int,
            max_bytes as int,
        ),
        r.1 == (if text.spec_bytes().len() <= max_bytes {
            None
        } else {
            Some(text.spec_bytes().len() as usize)
        }),
        r.1 is None ==> r.0 == Cow::<'_, str>::Borrowed(text),
{
    proof {
        reveal_strlit("");
        assert(""@ =~= Seq::<char>::empty());
    }
    head_tail(text, "", text.as_bytes().len(), max_bytes)
}

/// Fit a captured stream into `max_bytes` for display.
///
/// The stream is `head`, then `total - head.len() - tail.len()` bytes nobody
/// kept, then `tail`. The start and the end are what a reader needs: a build or
/// a log puts the command it ran at the top and the error at the bottom. When
/// the whole stream fits, and nothing was dropped between `head` and `tail`, it
/// comes back as is.
pub fn head_tail<'a>(head: &'a str, tail: &str, total: usize, max_bytes: usize) -> (r: (
    Cow<'a, str>,
    Option<usize>,
))
    requires
        head.spec_bytes().len() + tail.spec_bytes().len() <= usize::MAX,
    ensures
        r.0@ == displayed(head.spec_bytes(), tail.spec_bytes(), total as int, max_bytes as int),
        r.1 == (if fits(
            head.spec_bytes(),
            tail.spec_bytes(),
            total as int,
            max_bytes as int,
        ) {
            None
        } else {
            Some(total)
        }),
        r.1 is None && tail@.len() == 0 ==> r.0 == Cow::<'a, str>::Borrowed(head),
{
    let ghost hb = head.spec_bytes();
    let ghost tb = tail.spec_bytes();
    proof {
        lemma_str_bytes(head);
        lemma_str_bytes(tail);
        law_cut_within_budget(hb, tb, total as int, max_bytes as int);
    }
    let head_len: usize = head.as_bytes().len();
    let tail_len: usize = tail.as_bytes().len();
    let kept: usize = head_len + tail_len;
    let gap: usize = total.saturating_sub(kept);
    if gap == 0 && kept <= max_bytes {
        if tail.is_empty() {
            return (Cow::Borrowed(head), None);
        }
        let mut whole = head.to_owned();
        whole.push_str(tail);
        return (Cow::Owned(whole), None);
    }
    let (front, from_head, from_tail) = cuts(head, tail, total, max_bytes);
    let shown: usize = front + (head_len - from_head) + (tail_len - from_tail);
    let cut: usize = total.saturating_sub(shown);
    let first = before(head, front);
    let last = after(head, from_head);
    let rest = after(tail, from_tail);
    let mut out = first.to_owned();
    out.push_str("\n[");
    push_decimal(&mut out, cut as u64);
    out.push_str(" of ");
    push_decimal(&mut out, total as u64);
    out.push_str(" bytes cut here; rerun through grep or tail to narrow]\n");
    out.push_str(last);
    out.push_str(rest);
    assert(out@ =~= first@ + marker(cut as nat, total as nat) + last@ + rest@);
    (Cow::Owned(out), Some(total))
}

} // verus!

//! Strings as sequences of characters: the small operations that the rest of
//! the crate is written with.

use vstd::prelude::*;

verus! {

// ---------------------------------------------------------------------------
// Growing a string
// ---------------------------------------------------------------------------

/// `String::push` appends one character.
pub assume_specification[ String::push ](s: &mut String, c: char)
    ensures
        final(s)@ == old(s)@.push(c),
;

/// `String::push_str` appends the characters of a string slice.
pub assume_specification[ String::push_str ](s: &mut String, t: &str)
    ensures
        final(s)@ == old(s)@ + t@,
;

/// The characters of `s`, in order.
pub fn chars_of(s: &str) -> (r: Vec<char>)
    ensures
        r@ == s@,
{
    let mut v: Vec<char> = Vec::new();
    for c in it: s.chars()
        invariant
            v@ == it.seq().take(it.index()),
            it.seq() == s@,
    {
        v.push(c);
    }
    v
}

/// The string made of `v[from..to]`.
pub fn string_of(v: &Vec<char>, from: usize, to: usize) -> (r: String)
    requires
        from <= to <= v@.len(),
    ensures
        r@ == v@.subrange(from as int, to as int),
{
    let mut s = String::new();
    let mut i: usize = from;
    while i < to
        invariant
            from <= i <= to <= v@.len(),
            s@ == v@.subrange(from as int, i as int),
        decreases to - i,
    {
        s.push(v[i]);
        i = i + 1;
    }
    s
}

/// Whether two strings hold the same characters.
pub fn same(a: &str, b: &str) -> (r: bool)
    ensures
        r == (a@ == b@),
{
    let x = chars_of(a);
    let y = chars_of(b);
    if x.len() != y.len() {
        return false;
    }
    let mut i: usize = 0;
    while i < x.len()
        invariant
            i <= x@.len(),
            x@.len() == y@.len(),
            x@ == a@,
            y@ == b@,
            forall|j: int| 0 <= j < i ==> x@[j] == y@[j],
        decreases x@.len() - i,
    {
        if x[i] != y[i] {
            return false;
        }
        i = i + 1;
    }
    assert(x@ =~= y@);
    true
}

/// Appends `v[from..to]`.
pub fn push_chars(buf: &mut String, v: &Vec<char>, from: usize, to: usize)
    requires
        from <= to <= v@.len(),
    ensures
        final(buf)@ == old(buf)@ + v@.subrange(from as int, to as int),
{
    let ghost start = buf@;
    let mut i: usize = from;
    while i < to
        invariant
            from <= i <= to <= v@.len(),
            buf@ == start + v@.subrange(from as int, i as int),
        decreases to - i,
    {
        buf.push(v[i]);
        i = i + 1;
    }
}

/// `a`, `b` and `c` behind one another.
pub fn joined3(a: &str, b: &str, c: &str) -> (r: String)
    ensures
        r@ == a@ + b@ + c@,
{
    let mut s = a.to_owned();
    s.push_str(b);
    s.push_str(c);
    s
}

/// `a` and `b` behind one another.
pub fn joined2(a: &str, b: &str) -> (r: String)
    ensures
        r@ == a@ + b@,
{
    let mut s = a.to_owned();
    s.push_str(b);
    s
}

// ---------------------------------------------------------------------------
// Searching
// ---------------------------------------------------------------------------

/// How many characters stand before the first `c` (all of them when there is
/// none).
pub open spec fn until(s: Seq<char>, c: char) -> int
    decreases s.len(),
{
    if s.len() == 0 || s[0] == c {
        0
    } else {
        1 + until(s.drop_first(), c)
    }
}

pub proof fn lemma_until(s: Seq<char>, c: char)
    ensures
        0 <= until(s, c) <= s.len(),
        forall|i: int| 0 <= i < until(s, c) ==> s[i] != c,
        until(s, c) < s.len() ==> s[until(s, c)] == c,
    decreases s.len(),
{
    if s.len() == 0 || s[0] == c {
    } else {
        lemma_until(s.drop_first(), c);
        assert forall|i: int| 0 <= i < until(s, c) implies s[i] != c by {
            if i > 0 {
                assert(s[i] == s.drop_first()[i - 1]);
            }
        }
    }
}

/// A place where `c` stands with none before it is the one `until` names.
pub proof fn lemma_until_is(s: Seq<char>, c: char, k: int)
    requires
        0 <= k <= s.len(),
        forall|i: int| 0 <= i < k ==> s[i] != c,
        k < s.len() ==> s[k] == c,
    ensures
        until(s, c) == k,
{
    lemma_until(s, c);
}

/// The index of the first `c` at or after `from`, or the length.
pub fn until_from(v: &Vec<char>, c: char, from: usize) -> (r: usize)
    requires
        from <= v@.len(),
    ensures
        from <= r <= v@.len(),
        r == from + until(v@.skip(from as int), c),
        forall|i: int| from <= i < r ==> v@[i] != c,
        r < v@.len() ==> v@[r as int] == c,
{
    let mut i: usize = from;
    while i < v.len() && v[i] != c
        invariant
            from <= i <= v@.len(),
            forall|j: int| from <= j < i ==> v@[j] != c,
        decreases v@.len() - i,
    {
        i = i + 1;
    }
    proof {
        let t = v@.skip(from as int);
        assert forall|j: int| 0 <= j < i - from implies t[j] != c by {}
        lemma_until_is(t, c, i - from);
    }
    i
}

// ---------------------------------------------------------------------------
// Numbers
// ---------------------------------------------------------------------------

/// The digit that stands for `d` (base ten).
pub open spec fn digit(d: nat) -> char {
    (48 + d) as char
}

/// `n` in base ten, without leading zeros.
pub open spec fn decimal(n: nat) -> Seq<char>
    decreases n,
{
    if n < 10 {
        seq![digit(n)]
    } else {
        decimal(n / 10).push(digit(n % 10))
    }
}

/// Appends `n` in base ten.
pub fn push_decimal(buf: &mut String, n: u64)
    ensures
        final(buf)@ == old(buf)@ + decimal(n as nat),
    decreases n,
{
    if n >= 10 {
        push_decimal(buf, n / 10);
    }
    let d: u8 = (n % 10) as u8;
    buf.push((48 + d) as char);
}

/// Appends `n` in base ten.
pub fn push_decimal_wide(buf: &mut String, n: u128)
    ensures
        final(buf)@ == old(buf)@ + decimal(n as nat),
    decreases n,
{
    if n >= 10 {
        push_decimal_wide(buf, n / 10);
    }
    let d: u8 = (n % 10) as u8;
    buf.push((48 + d) as char);
}

/// `n` in base ten, with a minus sign in front where it is negative.
pub open spec fn signed_decimal(n: int) -> Seq<char> {
    if n < 0 {
        "-"@ + decimal((-n) as nat)
    } else {
        decimal(n as nat)
    }
}

/// Appends `n` in base ten.
pub fn push_signed(buf: &mut String, n: i64)
    ensures
        final(buf)@ == old(buf)@ + signed_decimal(n as int),
{
    if n < 0 {
        let ghost start = buf@;
        buf.push_str("-");
        if n == i64::MIN {
            push_decimal(buf, 9223372036854775808u64);
        } else {
            push_decimal(buf, (-n) as u64);
        }
        assert(buf@ =~= start + signed_decimal(n as int));
    } else {
        push_decimal(buf, n as u64);
    }
}

/// A decimal digit.
pub open spec fn is_digit(c: char) -> bool {
    '0' <= c <= '9'
}

pub open spec fn all_digits(s: Seq<char>) -> bool {
    forall|i: int| 0 <= i < s.len() ==> is_digit(#[trigger] s[i])
}

/// The number that a run of digits stands for.
pub open spec fn digits_value(s: Seq<char>) -> nat
    decreases s.len(),
{
    if s.len() == 0 {
        0
    } else {
        digits_value(s.drop_last()) * 10 + (s.last() as nat - 48) as nat
    }
}

/// An unsigned number as `str::parse` takes it: one `+` may stand in front, and
/// the value is at most `max`.
pub open spec fn unsigned_of(s: Seq<char>, max: nat) -> Option<nat> {
    let d = if s.len() > 0 && s[0] == '+' {
        s.skip(1)
    } else {
        s
    };
    if d.len() > 0 && all_digits(d) && digits_value(d) <= max {
        Some(digits_value(d))
    } else {
        None
    }
}

/// A signed 32-bit number as `str::parse` takes it.
pub open spec fn i32_of(s: Seq<char>) -> Option<int> {
    if s.len() > 0 && s[0] == '-' {
        let d = s.skip(1);
        if d.len() > 0 && all_digits(d) && digits_value(d) <= 2147483648 {
            Some(-(digits_value(d) as int))
        } else {
            None
        }
    } else {
        match unsigned_of(s, 2147483647) {
            Some(n) => Some(n as int),
            None => None,
        }
    }
}

/// A number reads back as itself from its decimal digits.
pub proof fn law_decimal_reads_back(n: nat)
    ensures
        decimal(n).len() > 0,
        all_digits(decimal(n)),
        digits_value(decimal(n)) == n,
    decreases n,
{
    let s = decimal(n);
    if n < 10 {
        assert(s.drop_last() =~= Seq::<char>::empty());
        assert(digits_value(s.drop_last()) == 0);
    } else {
        law_decimal_reads_back(n / 10);
        assert(s.drop_last() =~= decimal(n / 10));
        assert forall|i: int| 0 <= i < s.len() implies is_digit(#[trigger] s[i]) by {
            if i < s.len() - 1 {
                assert(s[i] == decimal(n / 10)[i]);
            }
        }
    }
}

proof fn lemma_digits_grow(s: Seq<char>, k: int)
    requires
        0 <= k <= s.len(),
        all_digits(s),
    ensures
        digits_value(s.take(k)) <= digits_value(s),
    decreases s.len() - k,
{
    if k == s.len() {
        assert(s.take(k) =~= s);
    } else {
        lemma_digits_grow(s, k + 1);
        assert(s.take(k + 1).drop_last() =~= s.take(k));
        assert(is_digit(s[k]));
    }
}

/// The value of the digits `v[from..]`, where there is at least one, nothing
/// else, and the value is at most `max`.
fn parse_digits(v: &Vec<char>, from: usize, max: u64) -> (r: Option<u64>)
    requires
        from <= v@.len(),
    ensures
        ({
            let d = v@.skip(from as int);
            r == (if d.len() > 0 && all_digits(d) && digits_value(d) <= max {
                Some(digits_value(d) as u64)
            } else {
                None
            })
        }),
{
    let ghost d = v@.skip(from as int);
    if from == v.len() {
        return None;
    }
    let mut k: usize = from;
    while k < v.len()
        invariant
            from <= k <= v@.len(),
            d == v@.skip(from as int),
            forall|j: int| from <= j < k ==> is_digit(#[trigger] v@[j]),
        decreases v@.len() - k,
    {
        if v[k] < '0' || v[k] > '9' {
            assert(!is_digit(d[k - from]));
            return None;
        }
        k = k + 1;
    }
    assert forall|i: int| 0 <= i < d.len() implies is_digit(#[trigger] d[i]) by {
        assert(is_digit(v@[i + from]));
    }
    let mut acc: u128 = 0;
    let mut i: usize = from;
    assert(d.take(0) =~= Seq::empty());
    while i < v.len()
        invariant
            from <= i <= v@.len(),
            d == v@.skip(from as int),
            all_digits(d),
            acc == digits_value(d.take(i - from)),
            acc <= max,
        decreases v@.len() - i,
    {
        assert(is_digit(d[i - from]));
        let c: u128 = (v[i] as u32 - 48) as u128;
        acc = acc * 10 + c;
        proof {
            assert(d.take(i - from + 1).drop_last() =~= d.take(i - from));
        }
        i = i + 1;
        if acc > max as u128 {
            proof {
                lemma_digits_grow(d, i - from);
            }
            return None;
        }
    }
    assert(d.take(i - from) =~= d);
    Some(acc as u64)
}

/// Reads an unsigned number of at most `max`.
pub fn parse_unsigned(s: &str, max: u64) -> (r: Option<u64>)
    ensures
        match r {
            Some(n) => unsigned_of(s@, max as nat) == Some(n as nat),
            None => unsigned_of(s@, max as nat) is None,
        },
{
    let v = chars_of(s);
    if v.len() > 0 && v[0] == '+' {
        parse_digits(&v, 1, max)
    } else {
        assert(v@.skip(0) =~= v@);
        parse_digits(&v, 0, max)
    }
}

/// Reads a signed 32-bit number.
pub fn parse_i32(s: &str) -> (r: Option<i32>)
    ensures
        match r {
            Some(n) => i32_of(s@) == Some(n as int),
            None => i32_of(s@) is None,
        },
{
    let v = chars_of(s);
    if v.len() > 0 && v[0] == '-' {
        match parse_digits(&v, 1, 2147483648) {
            Some(n) => Some((-(n as i64)) as i32),
            None => None,
        }
    } else {
        match parse_unsigned(s, 2147483647) {
            Some(n) => Some(n as i32),
            None => None,
        }
    }
}

/// `n` in base eight, without leading zeros.
pub open spec fn octal(n: nat) -> Seq<char>
    decreases n,
{
    if n < 8 {
        seq![digit(n)]
    } else {
        octal(n / 8).push(digit(n % 8))
    }
}

/// Appends `n` in base eight.
pub fn push_octal(buf: &mut String, n: u32)
    ensures
        final(buf)@ == old(buf)@ + octal(n as nat),
    decreases n,
{
    if n >= 8 {
        push_octal(buf, n / 8);
    }
    let d: u8 = (n % 8) as u8;
    buf.push((48 + d) as char);
}

/// The number that a text stands for, as a signed 64-bit number.
pub open spec fn i64_of(s: Seq<char>) -> Option<int> {
    if s.len() > 0 && s[0] == '-' {
        let d = s.skip(1);
        if d.len() > 0 && all_digits(d) && digits_value(d) <= 0x8000_0000_0000_0000 {
            Some(-(digits_value(d) as int))
        } else {
            None
        }
    } else {
        match unsigned_of(s, 0x7fff_ffff_ffff_ffff) {
            Some(n) => Some(n as int),
            None => None,
        }
    }
}

/// The number that a text stands for.
pub fn parse_i64(s: &str) -> (r: Option<i64>)
    ensures
        match r {
            Some(n) => i64_of(s@) == Some(n as int),
            None => i64_of(s@) is None,
        },
{
    let v = chars_of(s);
    if v.len() > 0 && v[0] == '-' {
        match parse_digits(&v, 1, 0x8000_0000_0000_0000) {
            Some(n) => Some((-(n as i128)) as i64),
            None => None,
        }
    } else {
        match parse_unsigned(s, 0x7fff_ffff_ffff_ffff) {
            Some(n) => Some(n as i64),
            None => None,
        }
    }
}

/// The sixteen lower-case hexadecimal digits.
pub open spec fn hex_digit(d: nat) -> char {
    if d < 10 {
        (48 + d) as char
    } else {
        (87 + d) as char
    }
}

/// The last `width` hexadecimal digits of `n`, with leading zeros.
pub open spec fn hex_padded(n: nat, width: nat) -> Seq<char>
    decreases width,
{
    if width == 0 {
        Seq::empty()
    } else {
        hex_padded(n / 16, (width - 1) as nat).push(hex_digit(n % 16))
    }
}

fn push_hex(buf: &mut String, n: u64, width: usize)
    ensures
        final(buf)@ == old(buf)@ + hex_padded(n as nat, width as nat),
    decreases width,
{
    if width > 0 {
        push_hex(buf, n / 16, width - 1);
        let d: u8 = (n % 16) as u8;
        buf.push(
            if d < 10 {
                (48 + d) as char
            } else {
                (87 + d) as char
            },
        );
    }
}

/// Appends `n` as sixteen hexadecimal digits.
pub fn push_hex16(buf: &mut String, n: u64)
    ensures
        final(buf)@ == old(buf)@ + hex_padded(n as nat, 16),
{
    push_hex(buf, n, 16);
}

// ---------------------------------------------------------------------------
// White space
// ---------------------------------------------------------------------------

/// Unicode white space (the `White_Space` property).
pub open spec fn is_space(c: char) -> bool {
    let u = c as u32;
    ||| 0x9 <= u <= 0xd
    ||| u == 0x20
    ||| u == 0x85
    ||| u == 0xa0
    ||| u == 0x1680
    ||| 0x2000 <= u <= 0x200a
    ||| u == 0x2028
    ||| u == 0x2029
    ||| u == 0x202f
    ||| u == 0x205f
    ||| u == 0x3000
}

pub fn space(c: char) -> (r: bool)
    ensures
        r == is_space(c),
{
    let u: u32 = c as u32;
    (0x9 <= u && u <= 0xd) || u == 0x20 || u == 0x85 || u == 0xa0 || u == 0x1680 || (0x2000 <= u
        && u <= 0x200a) || u == 0x2028 || u == 0x2029 || u == 0x202f || u == 0x205f || u == 0x3000
}

/// `s` without the white space it begins with.
pub open spec fn trimmed_start(s: Seq<char>) -> Seq<char>
    decreases s.len(),
{
    if s.len() > 0 && is_space(s[0]) {
        trimmed_start(s.drop_first())
    } else {
        s
    }
}

/// `s` without the white space it ends with.
pub open spec fn trimmed_end(s: Seq<char>) -> Seq<char>
    decreases s.len(),
{
    if s.len() > 0 && is_space(s.last()) {
        trimmed_end(s.drop_last())
    } else {
        s
    }
}

/// `s` without the white space around it.
pub open spec fn trimmed(s: Seq<char>) -> Seq<char> {
    trimmed_end(trimmed_start(s))
}

/// Where `v[from..to]` begins once its leading white space is left out.
pub fn skip_space(v: &Vec<char>, from: usize, to: usize) -> (r: usize)
    requires
        from <= to <= v@.len(),
    ensures
        from <= r <= to,
        v@.subrange(r as int, to as int) == trimmed_start(v@.subrange(from as int, to as int)),
        r < to ==> !is_space(v@[r as int]),
        forall|j: int| from <= j < r ==> is_space(v@[j]),
{
    let mut i: usize = from;
    while i < to && space(v[i])
        invariant
            from <= i <= to <= v@.len(),
            trimmed_start(v@.subrange(i as int, to as int)) == trimmed_start(
                v@.subrange(from as int, to as int),
            ),
            forall|j: int| from <= j < i ==> is_space(v@[j]),
        decreases to - i,
    {
        assert(v@.subrange(i as int, to as int).drop_first() =~= v@.subrange(i + 1, to as int));
        i = i + 1;
    }
    i
}

/// Where `v[from..to]` ends once its trailing white space is left out.
pub fn drop_space(v: &Vec<char>, from: usize, to: usize) -> (r: usize)
    requires
        from <= to <= v@.len(),
    ensures
        from <= r <= to,
        v@.subrange(from as int, r as int) == trimmed_end(v@.subrange(from as int, to as int)),
{
    let mut i: usize = to;
    while i > from && space(v[i - 1])
        invariant
            from <= i <= to <= v@.len(),
            trimmed_end(v@.subrange(from as int, i as int)) == trimmed_end(
                v@.subrange(from as int, to as int),
            ),
        decreases i,
    {
        assert(v@.subrange(from as int, i as int).drop_last() =~= v@.subrange(
            from as int,
            i - 1,
        ));
        i = i - 1;
    }
    i
}

/// `s` without the white space around it.
pub fn trim(s: &str) -> (r: String)
    ensures
        r@ == trimmed(s@),
{
    let v = chars_of(s);
    assert(v@.subrange(0, v@.len() as int) =~= s@);
    let n: usize = v.len();
    let from: usize = skip_space(&v, 0, n);
    let to: usize = drop_space(&v, from, n);
    string_of(&v, from, to)
}

// ---------------------------------------------------------------------------
// Lines and case
// ---------------------------------------------------------------------------

/// A line without the carriage return before its line feed.
pub open spec fn without_cr(s: Seq<char>) -> Seq<char> {
    if s.len() > 0 && s.last() == '\r' {
        s.drop_last()
    } else {
        s
    }
}

/// The lines of a text, as `str::lines` gives them: each ends at a line feed,
/// which a carriage return may precede; the last may lack one.
pub open spec fn lines_of(s: Seq<char>) -> Seq<Seq<char>>
    decreases s.len(),
    via lines_of_decreases
{
    if s.len() == 0 {
        Seq::empty()
    } else {
        let n = until(s, '\n');
        if n < s.len() {
            seq![without_cr(s.take(n))] + lines_of(s.skip(n + 1))
        } else {
            seq![s]
        }
    }
}

#[via_fn]
proof fn lines_of_decreases(s: Seq<char>) {
    lemma_until(s, '\n');
}

/// A text that ends with its last line can be read line by line together with
/// what follows.
pub proof fn lemma_lines_add(a: Seq<char>, b: Seq<char>)
    requires
        a.len() == 0 || a.last() == '\n',
    ensures
        lines_of(a + b) == lines_of(a) + lines_of(b),
    decreases a.len(),
{
    if a.len() == 0 {
        assert(a + b =~= b);
        assert(lines_of(a) + lines_of(b) =~= lines_of(b));
    } else {
        lemma_until(a, '\n');
        let n = until(a, '\n');
        assert(n < a.len());
        lemma_until_is(a + b, '\n', n);
        assert((a + b).take(n) =~= a.take(n));
        assert((a + b).skip(n + 1) =~= a.skip(n + 1) + b);
        lemma_lines_add(a.skip(n + 1), b);
        assert(lines_of(a + b) =~= lines_of(a) + lines_of(b));
    }
}

/// The characters of each string.
pub open spec fn views(s: Seq<String>) -> Seq<Seq<char>> {
    Seq::new(s.len(), |i: int| s[i]@)
}

pub proof fn lemma_views_push(s: Seq<String>, x: String)
    ensures
        views(s.push(x)) == views(s).push(x@),
{
    assert(views(s.push(x)) =~= views(s).push(x@));
}

/// The lines of a text.
pub fn lines(s: &str) -> (r: Vec<String>)
    ensures
        views(r@) == lines_of(s@),
{
    let v = chars_of(s);
    let mut out: Vec<String> = Vec::new();
    let mut at: usize = 0;
    assert(v@.skip(0) =~= v@);
    assert(views(out@) + lines_of(v@) =~= lines_of(v@));
    while at < v.len()
        invariant
            at <= v@.len(),
            v@ == s@,
            views(out@) + lines_of(v@.skip(at as int)) == lines_of(s@),
        decreases v@.len() - at,
    {
        let ghost rest = v@.skip(at as int);
        let ghost before = views(out@);
        let end: usize = until_from(&v, '\n', at);
        let to: usize = if end < v.len() && end > at && v[end - 1] == '\r' {
            end - 1
        } else {
            end
        };
        let line = string_of(&v, at, to);
        let ghost n = end - at;
        proof {
            lemma_views_push(out@, line);
            assert(rest.take(n) =~= v@.subrange(at as int, end as int));
            if n < rest.len() {
                assert(line@ =~= without_cr(rest.take(n)));
                assert(rest.skip(n + 1) =~= v@.skip(end + 1));
                assert(before + lines_of(rest) =~= before.push(line@) + lines_of(rest.skip(n + 1)));
            } else {
                assert(line@ =~= rest);
                assert(v@.skip(end as int) =~= Seq::empty());
                assert(before + lines_of(rest) =~= before.push(line@));
                assert(lines_of(v@.skip(end as int)) =~= Seq::empty());
            }
        }
        out.push(line);
        at = if end < v.len() {
            end + 1
        } else {
            end
        };
        assert(views(out@) + lines_of(v@.skip(at as int)) =~= lines_of(s@));
    }
    assert(v@.skip(at as int) =~= Seq::empty());
    assert(views(out@) =~= lines_of(s@));
    out
}

/// An ASCII capital letter becomes the small one; every other character stays.
pub open spec fn lower_char(c: char) -> char {
    if 'A' <= c <= 'Z' {
        (c as u32 + 32) as char
    } else {
        c
    }
}

pub open spec fn lower(s: Seq<char>) -> Seq<char> {
    Seq::new(s.len(), |i: int| lower_char(s[i]))
}

fn to_lower_char(c: char) -> (r: char)
    ensures
        r == lower_char(c),
{
    if 'A' <= c && c <= 'Z' {
        ((c as u8) + 32) as char
    } else {
        c
    }
}

/// `s` with its ASCII capital letters made small.
pub fn to_lower(s: &str) -> (r: String)
    ensures
        r@ == lower(s@),
{
    let v = chars_of(s);
    let mut out = String::new();
    let mut i: usize = 0;
    while i < v.len()
        invariant
            i <= v@.len(),
            v@ == s@,
            out@ == lower(s@).take(i as int),
        decreases v@.len() - i,
    {
        out.push(to_lower_char(v[i]));
        i = i + 1;
        assert(out@ =~= lower(s@).take(i as int));
    }
    assert(lower(s@).take(i as int) =~= lower(s@));
    out
}

/// Whether a vector of strings holds `s`.
pub fn holds(v: &Vec<String>, s: &str) -> (r: bool)
    ensures
        r == views(v@).contains(s@),
{
    let mut i: usize = 0;
    while i < v.len()
        invariant
            i <= v@.len(),
            forall|j: int| 0 <= j < i ==> views(v@)[j] != s@,
        decreases v@.len() - i,
    {
        if same(v[i].as_str(), s) {
            assert(views(v@)[i as int] == s@);
            return true;
        }
        i = i + 1;
    }
    false
}

/// Whether `c` stands in `s`.
pub fn has_char(s: &str, c: char) -> (r: bool)
    ensures
        r == s@.contains(c),
{
    let v = chars_of(s);
    let i: usize = until_from(&v, c, 0);
    proof {
        if i < v@.len() {
            assert(s@[i as int] == c);
        }
    }
    i < v.len()
}

// ---------------------------------------------------------------------------
// Splitting and joining
// ---------------------------------------------------------------------------

/// The parts of `s` between the `c`s in it. There is one more of them than
/// there are `c`s.
pub open spec fn split_on(s: Seq<char>, c: char) -> Seq<Seq<char>>
    decreases s.len(),
    via split_on_decreases
{
    let n = until(s, c);
    if n < s.len() {
        seq![s.take(n)] + split_on(s.skip(n + 1), c)
    } else {
        seq![s]
    }
}

#[via_fn]
proof fn split_on_decreases(s: Seq<char>, c: char) {
    lemma_until(s, c);
}

/// `parts` with one `c` between each two.
pub open spec fn join_with(parts: Seq<Seq<char>>, c: char) -> Seq<char>
    decreases parts.len(),
{
    if parts.len() == 0 {
        Seq::empty()
    } else if parts.len() == 1 {
        parts[0]
    } else {
        join_with(parts.drop_last(), c).push(c) + parts.last()
    }
}

/// The parts of `s` between the `c`s in it.
pub fn split(s: &str, c: char) -> (r: Vec<String>)
    ensures
        views(r@) == split_on(s@, c),
        r@.len() > 0,
{
    let v = chars_of(s);
    let mut out: Vec<String> = Vec::new();
    let mut at: usize = 0;
    assert(v@.skip(0) =~= v@);
    assert(views(out@) + split_on(v@, c) =~= split_on(v@, c));
    loop
        invariant_except_break
            at <= v@.len(),
            views(out@) + split_on(v@.skip(at as int), c) == split_on(s@, c),
        invariant
            v@ == s@,
        ensures
            views(out@) == split_on(s@, c),
            out@.len() > 0,
        decreases v@.len() - at,
    {
        let ghost rest = v@.skip(at as int);
        let ghost before = views(out@);
        let end: usize = until_from(&v, c, at);
        let part = string_of(&v, at, end);
        let ghost n = end - at;
        proof {
            lemma_views_push(out@, part);
            assert(rest.take(n) =~= part@);
            if n < rest.len() {
                assert(rest.skip(n + 1) =~= v@.skip(end + 1));
                assert(before + split_on(rest, c) =~= before.push(part@) + split_on(
                    rest.skip(n + 1),
                    c,
                ));
            } else {
                assert(part@ =~= rest);
                assert(before + split_on(rest, c) =~= before.push(part@));
            }
        }
        out.push(part);
        if end == v.len() {
            break ;
        }
        at = end + 1;
    }
    out
}

/// `parts` with one `c` between each two.
pub fn join(parts: &Vec<String>, c: char) -> (r: String)
    ensures
        r@ == join_with(views(parts@), c),
{
    let ghost all = views(parts@);
    let mut out = String::new();
    let mut i: usize = 0;
    assert(out@ =~= join_with(all.take(0), c));
    while i < parts.len()
        invariant
            i <= parts@.len(),
            all == views(parts@),
            out@ == join_with(all.take(i as int), c),
        decreases parts@.len() - i,
    {
        let ghost before = out@;
        if i > 0 {
            out.push(c);
        }
        out.push_str(parts[i].as_str());
        proof {
            assert(all.take(i + 1).drop_last() =~= all.take(i as int));
            assert(all.take(i + 1).last() == parts@[i as int]@);
            if i == 0 {
                assert(out@ =~= parts@[0]@);
            }
        }
        i = i + 1;
    }
    assert(all.take(i as int) =~= all);
    out
}

/// A part without `c` behind `a` is split off as it is.
pub proof fn lemma_split_on_push(a: Seq<char>, part: Seq<char>, c: char)
    requires
        !part.contains(c),
    ensures
        split_on(a.push(c) + part, c) == split_on(a, c).push(part),
    decreases a.len(),
{
    let s = a.push(c) + part;
    lemma_until(a, c);
    let n = until(a, c);
    assert forall|i: int| 0 <= i < n implies s[i] != c by {
        assert(s[i] == a[i]);
    }
    assert(s[n] == c);
    lemma_until_is(s, c, n);
    if n < a.len() {
        assert(s.skip(n + 1) =~= a.skip(n + 1).push(c) + part);
        lemma_split_on_push(a.skip(n + 1), part, c);
        assert(s.take(n) =~= a.take(n));
        assert(split_on(s, c) =~= split_on(a, c).push(part));
    } else {
        assert(s.take(n) =~= a);
        assert(s.skip(n + 1) =~= part);
        lemma_until(part, c);
        assert(split_on(part, c) =~= seq![part]) by {
            if until(part, c) < part.len() {
                assert(part.contains(part[until(part, c)]));
            }
        }
        assert(split_on(s, c) =~= split_on(a, c).push(part));
    }
}

/// What stands on either side of a separator is split on its own.
pub proof fn lemma_split_on_add(a: Seq<char>, b: Seq<char>, c: char)
    ensures
        split_on(a.push(c) + b, c) == split_on(a, c) + split_on(b, c),
    decreases a.len(),
{
    let s = a.push(c) + b;
    lemma_until(a, c);
    let n = until(a, c);
    assert forall|i: int| 0 <= i < n implies s[i] != c by {
        assert(s[i] == a[i]);
    }
    assert(s[n] == c);
    lemma_until_is(s, c, n);
    if n < a.len() {
        assert(s.skip(n + 1) =~= a.skip(n + 1).push(c) + b);
        lemma_split_on_add(a.skip(n + 1), b, c);
        assert(s.take(n) =~= a.take(n));
        assert(split_on(s, c) =~= split_on(a, c) + split_on(b, c));
    } else {
        assert(s.take(n) =~= a);
        assert(s.skip(n + 1) =~= b);
        assert(split_on(s, c) =~= split_on(a, c) + split_on(b, c));
    }
}

/// A text without the separator is one part.
pub proof fn lemma_split_on_one(s: Seq<char>, c: char)
    requires
        !s.contains(c),
    ensures
        split_on(s, c) == seq![s],
{
    lemma_until(s, c);
    if until(s, c) < s.len() {
        assert(s.contains(s[until(s, c)]));
    }
    assert(split_on(s, c) =~= seq![s]);
}

proof fn lemma_join_front(parts: Seq<Seq<char>>, c: char)
    requires
        parts.len() >= 2,
    ensures
        join_with(parts, c) == parts[0].push(c) + join_with(parts.skip(1), c),
    decreases parts.len(),
{
    let tail = parts.skip(1);
    let before = parts.drop_last();
    assert(tail.last() == parts.last());
    if parts.len() == 2 {
        assert(join_with(before, c) == parts[0]);
        assert(join_with(tail, c) == parts[1]);
    } else {
        lemma_join_front(before, c);
        assert(before.skip(1) =~= tail.drop_last());
    }
    assert(join_with(parts, c) =~= parts[0].push(c) + join_with(tail, c));
}

/// What is split at a separator and joined by it again is what it was.
pub proof fn lemma_join_split(s: Seq<char>, c: char)
    ensures
        join_with(split_on(s, c), c) == s,
    decreases s.len(),
{
    lemma_until(s, c);
    let n = until(s, c);
    if n < s.len() {
        let rest = s.skip(n + 1);
        lemma_join_split(rest, c);
        lemma_split_parts(rest, c);
        lemma_join_front(split_on(s, c), c);
        assert(split_on(s, c).skip(1) =~= split_on(rest, c));
        assert(s.take(n).push(c) + rest =~= s);
    }
}

/// Parts without `c` come back as they were once they are joined by `c`.
pub proof fn lemma_split_join(parts: Seq<Seq<char>>, c: char)
    requires
        parts.len() > 0,
        forall|i: int| 0 <= i < parts.len() ==> !(#[trigger] parts[i]).contains(c),
    ensures
        split_on(join_with(parts, c), c) == parts,
    decreases parts.len(),
{
    if parts.len() == 1 {
        let part = parts[0];
        lemma_until(part, c);
        if until(part, c) < part.len() {
            assert(part.contains(part[until(part, c)]));
        }
        assert(split_on(part, c) =~= parts);
    } else {
        lemma_split_join(parts.drop_last(), c);
        lemma_split_on_push(join_with(parts.drop_last(), c), parts.last(), c);
        assert(parts =~= parts.drop_last().push(parts.last()));
    }
}

/// The parts of a split hold no separator.
pub proof fn lemma_split_parts(s: Seq<char>, c: char)
    ensures
        split_on(s, c).len() > 0,
        forall|i: int| 0 <= i < split_on(s, c).len() ==> !(#[trigger] split_on(s, c)[i]).contains(c),
    decreases s.len(),
{
    lemma_until(s, c);
    let n = until(s, c);
    let parts = split_on(s, c);
    if n < s.len() {
        lemma_split_parts(s.skip(n + 1), c);
        assert forall|i: int| 0 <= i < parts.len() implies !(#[trigger] parts[i]).contains(c) by {
            if i == 0 {
                let first = s.take(n);
                assert(parts[0] == first);
                if first.contains(c) {
                    let k = choose|k: int| 0 <= k < first.len() && first[k] == c;
                    assert(s[k] == c);
                }
            } else {
                assert(parts[i] == split_on(s.skip(n + 1), c)[i - 1]);
            }
        }
    } else {
        assert(!s.contains(c));
    }
}

/// `s` starts with `p`.
pub open spec fn has_prefix(s: Seq<char>, p: Seq<char>) -> bool {
    p.len() <= s.len() && s.take(p.len() as int) == p
}

/// Whether `s` starts with `p`.
pub fn starts_with(s: &str, p: &str) -> (r: bool)
    ensures
        r == has_prefix(s@, p@),
{
    let x = chars_of(s);
    let y = chars_of(p);
    if y.len() > x.len() {
        return false;
    }
    let mut i: usize = 0;
    while i < y.len()
        invariant
            i <= y@.len() <= x@.len(),
            x@ == s@,
            y@ == p@,
            forall|j: int| 0 <= j < i ==> x@[j] == y@[j],
        decreases y@.len() - i,
    {
        if x[i] != y[i] {
            assert(s@.take(p@.len() as int)[i as int] != p@[i as int]);
            return false;
        }
        i = i + 1;
    }
    assert(s@.take(p@.len() as int) =~= p@);
    true
}

/// `s` ends with `p`.
pub open spec fn has_suffix(s: Seq<char>, p: Seq<char>) -> bool {
    p.len() <= s.len() && s.skip(s.len() - p.len()) == p
}

/// Whether `s` ends with `p`.
pub fn ends_with(s: &str, p: &str) -> (r: bool)
    ensures
        r == has_suffix(s@, p@),
{
    let x = chars_of(s);
    let y = chars_of(p);
    if y.len() > x.len() {
        return false;
    }
    let n: usize = x.len();
    let off: usize = n - y.len();
    let mut i: usize = 0;
    while i < y.len()
        invariant
            i <= y@.len(),
            off + y@.len() == n,
            n == x@.len(),
            x@ == s@,
            y@ == p@,
            forall|j: int| 0 <= j < i ==> x@[off + j] == y@[j],
        decreases y@.len() - i,
    {
        if x[off + i] != y[i] {
            assert(s@.skip(off as int)[i as int] != p@[i as int]);
            return false;
        }
        i = i + 1;
    }
    assert(s@.skip(off as int) =~= p@);
    true
}

// ---------------------------------------------------------------------------
// Order
// ---------------------------------------------------------------------------

/// `a` stands before `b` in a dictionary, or is `b`.
pub open spec fn text_le(a: Seq<char>, b: Seq<char>) -> bool
    decreases a.len(),
{
    if a.len() == 0 {
        true
    } else if b.len() == 0 {
        false
    } else if a[0] == b[0] {
        text_le(a.skip(1), b.skip(1))
    } else {
        a[0] < b[0]
    }
}

/// In dictionary order.
pub open spec fn sorted(s: Seq<Seq<char>>) -> bool {
    forall|i: int, j: int| 0 <= i <= j < s.len() ==> text_le(#[trigger] s[i], #[trigger] s[j])
}

pub proof fn lemma_text_le_total(a: Seq<char>, b: Seq<char>)
    ensures
        text_le(a, b) || text_le(b, a),
        text_le(a, b) && text_le(b, a) ==> a == b,
        text_le(a, a),
    decreases a.len(),
{
    if a.len() > 0 && b.len() > 0 && a[0] == b[0] {
        lemma_text_le_total(a.skip(1), b.skip(1));
        if a.skip(1) == b.skip(1) {
            assert(a =~= seq![a[0]] + a.skip(1));
            assert(b =~= seq![b[0]] + b.skip(1));
        }
    } else if a.len() > 0 {
        lemma_text_le_total(a.skip(1), a.skip(1));
    } else if b.len() == 0 {
        assert(a =~= b);
    }
    if a.len() > 0 {
        lemma_text_le_total(a.skip(1), a.skip(1));
    }
}

pub proof fn lemma_text_le_transitive(a: Seq<char>, b: Seq<char>, c: Seq<char>)
    requires
        text_le(a, b),
        text_le(b, c),
    ensures
        text_le(a, c),
    decreases a.len(),
{
    if a.len() > 0 && a[0] == b[0] && b[0] == c[0] {
        lemma_text_le_transitive(a.skip(1), b.skip(1), c.skip(1));
    }
}

/// Whether `a` comes before `b` in a dictionary, or is `b`.
pub fn in_order(a: &str, b: &str) -> (r: bool)
    ensures
        r == text_le(a@, b@),
{
    let x = chars_of(a);
    let y = chars_of(b);
    let mut i: usize = 0;
    assert(x@.skip(0) =~= x@);
    assert(y@.skip(0) =~= y@);
    while i < x.len() && i < y.len() && x[i] == y[i]
        invariant
            i <= x@.len(),
            i <= y@.len(),
            text_le(x@, y@) == text_le(x@.skip(i as int), y@.skip(i as int)),
        decreases x@.len() - i,
    {
        assert(x@.skip(i as int).skip(1) =~= x@.skip(i + 1));
        assert(y@.skip(i as int).skip(1) =~= y@.skip(i + 1));
        i = i + 1;
    }
    if i == x.len() {
        true
    } else if i == y.len() {
        false
    } else {
        x[i] < y[i]
    }
}

/// Where `x` goes in a sorted sequence: behind the entries that are not after
/// it.
pub open spec fn place_in(s: Seq<Seq<char>>, x: Seq<char>) -> int
    decreases s.len(),
{
    if s.len() > 0 && text_le(s[0], x) {
        1 + place_in(s.skip(1), x)
    } else {
        0
    }
}

/// The texts in dictionary order.
pub open spec fn sorted_of(s: Seq<Seq<char>>) -> Seq<Seq<char>>
    decreases s.len(),
{
    if s.len() == 0 {
        Seq::empty()
    } else {
        let before = sorted_of(s.drop_last());
        before.insert(place_in(before, s.last()), s.last())
    }
}

/// Puts `x` into a sorted vector, behind every entry that is not greater.
fn insert_sorted(v: &mut Vec<String>, x: String)
    requires
        sorted(views(old(v)@)),
    ensures
        sorted(views(final(v)@)),
        views(final(v)@).to_multiset() == views(old(v)@).to_multiset().insert(x@),
        views(final(v)@) == views(old(v)@).insert(place_in(views(old(v)@), x@), x@),
{
    let ghost before = views(v@);
    let mut i: usize = 0;
    assert(before.skip(0) =~= before);
    while i < v.len() && in_order(v[i].as_str(), x.as_str())
        invariant
            i <= v@.len(),
            before == views(v@),
            forall|j: int| 0 <= j < i ==> text_le(before[j], x@),
            i + place_in(before.skip(i as int), x@) == place_in(before, x@),
        decreases v@.len() - i,
    {
        assert(before.skip(i as int)[0] == v@[i as int]@);
        assert(before.skip(i as int).skip(1) =~= before.skip(i + 1));
        i = i + 1;
    }
    proof {
        if i < before.len() {
            assert(before.skip(i as int)[0] == v@[i as int]@);
        }
        assert(place_in(before, x@) == i);
        if i < before.len() {
            lemma_text_le_total(before[i as int], x@);
        }
    }
    let ghost y = x@;
    v.insert(i, x);
    proof {
        let after = views(v@);
        assert(after =~= before.insert(i as int, y));
        vstd::seq_lib::to_multiset_insert(before, i as int, y);
        assert forall|a: int, b: int| 0 <= a <= b < after.len() implies text_le(
            #[trigger] after[a],
            #[trigger] after[b],
        ) by {
            lemma_text_le_total(y, y);
            if a == i && b > i {
                lemma_text_le_transitive(y, before[i as int], before[b - 1]);
            } else if b == i && a < i {
                assert(after[a] == before[a]);
            } else if a < i && b < i {
                assert(text_le(before[a], before[b]));
            } else if a < i && b > i {
                assert(text_le(before[a], before[b - 1]));
            } else if a > i {
                assert(text_le(before[a - 1], before[b - 1]));
            }
        }
    }
}

/// The strings of `v` in dictionary order.
pub fn sort_strings(v: Vec<String>) -> (r: Vec<String>)
    ensures
        sorted(views(r@)),
        views(r@).to_multiset() == views(v@).to_multiset(),
        views(r@) == sorted_of(views(v@)),
{
    let ghost all = views(v@);
    let mut out: Vec<String> = Vec::new();
    assert(views(out@) =~= all.take(0));
    assert(views(out@) =~= sorted_of(all.take(0)));
    let mut i: usize = 0;
    while i < v.len()
        invariant
            i <= v@.len(),
            all == views(v@),
            sorted(views(out@)),
            views(out@).to_multiset() == all.take(i as int).to_multiset(),
            views(out@) == sorted_of(all.take(i as int)),
        decreases v@.len() - i,
    {
        insert_sorted(&mut out, v[i].clone());
        proof {
            assert(all.take(i + 1) =~= all.take(i as int).push(all[i as int]));
            assert(all.take(i + 1).drop_last() =~= all.take(i as int));
            all.take(i as int).to_multiset_ensures();
        }
        i = i + 1;
    }
    assert(all.take(i as int) =~= all);
    out
}

// ---------------------------------------------------------------------------
// Words
// ---------------------------------------------------------------------------

/// How many characters come before the first space.
pub open spec fn word_len(s: Seq<char>) -> int
    decreases s.len(),
{
    if s.len() == 0 || is_space(s[0]) {
        0
    } else {
        1 + word_len(s.drop_first())
    }
}

/// The words of a text: what stands between its spaces.
pub open spec fn words_of(s: Seq<char>) -> Seq<Seq<char>>
    decreases s.len(),
    via words_of_decreases
{
    let t = trimmed_start(s);
    if t.len() == 0 {
        Seq::empty()
    } else {
        seq![t.take(word_len(t))] + words_of(t.skip(word_len(t)))
    }
}

#[via_fn]
proof fn words_of_decreases(s: Seq<char>) {
    lemma_trimmed_start(s);
    lemma_word_len(trimmed_start(s));
}

proof fn lemma_trimmed_start(s: Seq<char>)
    ensures
        trimmed_start(s).len() <= s.len(),
        trimmed_start(s).len() > 0 ==> !is_space(trimmed_start(s)[0]),
    decreases s.len(),
{
    if s.len() > 0 && is_space(s[0]) {
        lemma_trimmed_start(s.drop_first());
    }
}

proof fn lemma_word_len(s: Seq<char>)
    ensures
        0 <= word_len(s) <= s.len(),
        s.len() > 0 && !is_space(s[0]) ==> word_len(s) > 0,
    decreases s.len(),
{
    if s.len() > 0 && !is_space(s[0]) {
        lemma_word_len(s.drop_first());
    }
}

proof fn lemma_word_len_is(s: Seq<char>, n: int)
    requires
        0 <= n <= s.len(),
        forall|i: int| 0 <= i < n ==> !is_space(#[trigger] s[i]),
        n < s.len() ==> is_space(s[n]),
    ensures
        word_len(s) == n,
    decreases n,
{
    if n > 0 {
        assert(!is_space(s[0]));
        let t = s.drop_first();
        assert forall|i: int| 0 <= i < n - 1 implies !is_space(#[trigger] t[i]) by {
            assert(t[i] == s[i + 1]);
        }
        lemma_word_len_is(t, n - 1);
    }
}

/// A word before a space, or at the end, is the first word of a text.
pub proof fn lemma_words_front(w: Seq<char>, rest: Seq<char>)
    requires
        forall|i: int| 0 <= i < w.len() ==> !is_space(#[trigger] w[i]),
        rest.len() > 0 ==> is_space(rest[0]),
    ensures
        w.len() > 0 ==> words_of(w + rest) == seq![w] + words_of(rest),
{
    if w.len() > 0 {
        let s = w + rest;
        assert(!is_space(w[0]));
        assert(s[0] == w[0]);
        assert forall|i: int| 0 <= i < w.len() implies !is_space(#[trigger] s[i]) by {
            assert(s[i] == w[i]);
        }
        lemma_word_len_is(s, w.len() as int);
        assert(s.take(w.len() as int) =~= w);
        assert(s.skip(w.len() as int) =~= rest);
    }
}

/// No word is empty.
pub proof fn lemma_words_not_empty(s: Seq<char>)
    ensures
        forall|i: int| 0 <= i < words_of(s).len() ==> (#[trigger] words_of(s)[i]).len() > 0,
    decreases s.len(),
{
    let t = trimmed_start(s);
    lemma_trimmed_start(s);
    lemma_word_len(t);
    if t.len() > 0 {
        let rest = t.skip(word_len(t));
        lemma_words_not_empty(rest);
        assert forall|i: int| 0 <= i < words_of(s).len() implies (#[trigger] words_of(
            s,
        )[i]).len() > 0 by {
            if i > 0 {
                assert(words_of(s)[i] == words_of(rest)[i - 1]);
            }
        }
    }
}

fn word_end(v: &Vec<char>, from: usize) -> (r: usize)
    requires
        from <= v@.len(),
    ensures
        from <= r <= v@.len(),
        r - from == word_len(v@.skip(from as int)),
{
    let mut i: usize = from;
    while i < v.len() && !space(v[i])
        invariant
            from <= i <= v@.len(),
            (i - from) + word_len(v@.skip(i as int)) == word_len(v@.skip(from as int)),
        decreases v@.len() - i,
    {
        assert(v@.skip(i as int).drop_first() =~= v@.skip(i + 1));
        i = i + 1;
    }
    i
}

/// The words of a text: what stands between its spaces.
pub fn words(s: &str) -> (r: Vec<String>)
    ensures
        views(r@) == words_of(s@),
{
    let v = chars_of(s);
    let mut out: Vec<String> = Vec::new();
    let n: usize = v.len();
    let mut at: usize = 0;
    assert(v@.skip(0) =~= v@);
    assert(views(out@) + words_of(v@) =~= words_of(s@));
    loop
        invariant_except_break
            at <= n,
            views(out@) + words_of(v@.skip(at as int)) == words_of(s@),
        invariant
            v@ == s@,
            n == v@.len(),
        ensures
            views(out@) == words_of(s@),
        decreases n - at,
    {
        let start: usize = skip_space(&v, at, n);
        proof {
            assert(v@.subrange(at as int, n as int) =~= v@.skip(at as int));
            assert(v@.subrange(start as int, n as int) =~= v@.skip(start as int));
        }
        if start == n {
            assert(views(out@) + Seq::<Seq<char>>::empty() =~= views(out@));
            break ;
        }
        let end: usize = word_end(&v, start);
        let word = string_of(&v, start, end);
        let ghost t = v@.skip(start as int);
        let ghost before = views(out@);
        proof {
            lemma_word_len(t);
            lemma_views_push(out@, word);
            assert(t.take(end - start) =~= word@);
            assert(t.skip(end - start) =~= v@.skip(end as int));
            assert(before + (seq![word@] + words_of(v@.skip(end as int))) =~= before.push(word@)
                + words_of(v@.skip(end as int)));
        }
        out.push(word);
        at = end;
    }
    out
}

/// Some part of `s` is `p`.
pub open spec fn has_part(s: Seq<char>, p: Seq<char>) -> bool {
    exists|i: int| #![trigger s.skip(i)] 0 <= i <= s.len() && has_prefix(s.skip(i), p)
}

/// Whether some part of `s` is `p`.
pub fn contains_part(s: &str, p: &str) -> (r: bool)
    ensures
        r == has_part(s@, p@),
{
    let v = chars_of(s);
    let w = chars_of(p);
    let n: usize = v.len();
    let m: usize = w.len();
    let mut i: usize = 0;
    while m <= n && i <= n - m
        invariant
            v@ == s@,
            w@ == p@,
            n == v@.len(),
            m == w@.len(),
            i <= n + 1,
            forall|j: int| 0 <= j < i ==> !has_prefix(#[trigger] s@.skip(j), p@),
        decreases n + 1 - i,
    {
        let mut k: usize = 0;
        while k < m && v[i + k] == w[k]
            invariant
                v@ == s@,
                w@ == p@,
                n == v@.len(),
                m == w@.len(),
                i + m <= n,
                k <= m,
                forall|j: int| 0 <= j < k ==> v@[i + j] == w@[j],
            decreases m - k,
        {
            k = k + 1;
        }
        let ghost rest = s@.skip(i as int);
        if k == m {
            assert(rest.take(m as int) =~= p@);
            return true;
        }
        assert(rest.take(m as int)[k as int] != p@[k as int]);
        i = i + 1;
    }
    assert forall|j: int| 0 <= j <= s@.len() implies !has_prefix(#[trigger] s@.skip(j), p@) by {
        if j >= i {
            assert(s@.skip(j).len() < p@.len());
        }
    }
    false
}

/// `s` without each `p` at its start.
pub open spec fn without_prefixes(s: Seq<char>, p: Seq<char>) -> Seq<char>
    decreases s.len(),
{
    if p.len() > 0 && has_prefix(s, p) {
        without_prefixes(s.skip(p.len() as int), p)
    } else {
        s
    }
}

/// `s` without each `p` at its end.
pub open spec fn without_suffixes(s: Seq<char>, p: Seq<char>) -> Seq<char>
    decreases s.len(),
{
    if p.len() > 0 && has_suffix(s, p) {
        without_suffixes(s.take(s.len() - p.len()), p)
    } else {
        s
    }
}

/// `s` without each `p` at its start.
pub fn strip_prefixes(s: String, p: &str) -> (r: String)
    requires
        p@.len() > 0,
    ensures
        r@ == without_prefixes(s@, p@),
{
    let mut s = s;
    let ghost all = s@;
    let w = chars_of(p);
    let n: usize = w.len();
    while starts_with(s.as_str(), p)
        invariant
            n == p@.len(),
            n > 0,
            without_prefixes(s@, p@) == without_prefixes(all, p@),
        decreases s@.len(),
    {
        let v = chars_of(s.as_str());
        let m: usize = v.len();
        let rest = string_of(&v, n, m);
        assert(rest@ =~= s@.skip(n as int));
        s = rest;
    }
    s
}

/// `s` without each `p` at its end.
pub fn strip_suffixes(s: String, p: &str) -> (r: String)
    requires
        p@.len() > 0,
    ensures
        r@ == without_suffixes(s@, p@),
{
    let mut s = s;
    let ghost all = s@;
    let w = chars_of(p);
    let n: usize = w.len();
    while ends_with(s.as_str(), p)
        invariant
            n == p@.len(),
            n > 0,
            without_suffixes(s@, p@) == without_suffixes(all, p@),
        decreases s@.len(),
    {
        let v = chars_of(s.as_str());
        let rest = string_of(&v, 0, v.len() - n);
        assert(rest@ =~= s@.take(s@.len() - n));
        s = rest;
    }
    s
}

// ---------------------------------------------------------------------------
// Bytes
// ---------------------------------------------------------------------------

/// The bytes that a text is stored as.
pub open spec fn bytes_of(s: Seq<char>) -> Seq<u8> {
    vstd::utf8::encode_utf8(s)
}

/// What `String::from_utf8_lossy` makes of a byte string: each part that is no
/// UTF-8 becomes a replacement character.
pub uninterp spec fn utf8_lossy(bytes: Seq<u8>) -> Seq<char>;

/// `String::from_utf8_lossy`. The result is named; of valid UTF-8 it is claimed
/// to be the text that the bytes encode.
#[verifier::external_body]
pub(crate) fn lossy_text(bytes: &[u8]) -> (r: String)
    ensures
        r@ == utf8_lossy(bytes@),
        vstd::utf8::valid_utf8(bytes@) ==> r@ == vstd::utf8::decode_utf8(bytes@),
{
    String::from_utf8_lossy(bytes).into_owned()
}

/// The text that bytes stand for: the one that they encode where they are UTF-8.
pub open spec fn text_of(bytes: Seq<u8>) -> Seq<char> {
    if vstd::utf8::valid_utf8(bytes) {
        vstd::utf8::decode_utf8(bytes)
    } else {
        utf8_lossy(bytes)
    }
}

/// The text that bytes stand for.
pub fn to_text(bytes: &[u8]) -> (r: String)
    ensures
        r@ == text_of(bytes@),
{
    lossy_text(bytes)
}

/// `std::str::from_utf8`, with the text copied: there is a result exactly where
/// the bytes are valid UTF-8, and it is the text that they encode.
#[verifier::external_body]
pub(crate) fn exact_text(bytes: &[u8]) -> (r: Option<String>)
    ensures
        match r {
            Some(s) => vstd::utf8::valid_utf8(bytes@) && s@ == vstd::utf8::decode_utf8(bytes@),
            None => !vstd::utf8::valid_utf8(bytes@),
        },
{
    std::str::from_utf8(bytes).ok().map(|s| s.to_owned())
}

// ---------------------------------------------------------------------------
// Laws
// ---------------------------------------------------------------------------

/// A number is written without leading zeros.
pub proof fn law_decimal_has_no_leading_zero(n: nat)
    ensures
        n > 0 ==> decimal(n)[0] != '0',
        n == 0 ==> decimal(n) == seq!['0'],
    decreases n,
{
    if n >= 10 {
        law_decimal_has_no_leading_zero(n / 10);
        law_decimal_reads_back(n / 10);
        assert(decimal(n)[0] == decimal(n / 10)[0]);
    } else {
        assert(decimal(n) =~= seq![digit(n)]);
    }
}

/// A signed number reads back as itself.
pub proof fn law_signed_decimal_reads_back(n: int)
    ensures
        -0x8000_0000_0000_0000 <= n <= 0x7fff_ffff_ffff_ffff ==> i64_of(signed_decimal(n)) == Some(
            n,
        ),
        -2147483648 <= n <= 2147483647 ==> i32_of(signed_decimal(n)) == Some(n),
{
    let s = signed_decimal(n);
    reveal_strlit("-");
    if n < 0 {
        law_decimal_reads_back((-n) as nat);
        assert(s.skip(1) =~= decimal((-n) as nat));
    } else {
        law_decimal_reads_back(n as nat);
        assert(is_digit(s[0]));
    }
}

/// The number that octal digits stand for.
pub open spec fn octal_value(s: Seq<char>) -> nat
    decreases s.len(),
{
    if s.len() == 0 {
        0
    } else {
        octal_value(s.drop_last()) * 8 + (s.last() as nat - 48) as nat
    }
}

/// A mode reads back from its octal digits.
pub proof fn law_octal_reads_back(n: nat)
    ensures
        octal(n).len() > 0,
        octal_value(octal(n)) == n,
        forall|i: int| 0 <= i < octal(n).len() ==> '0' <= #[trigger] octal(n)[i] <= '7',
        n > 0 ==> octal(n)[0] != '0',
    decreases n,
{
    let s = octal(n);
    if n < 8 {
        assert(s.drop_last() =~= Seq::<char>::empty());
        assert(octal_value(s.drop_last()) == 0);
    } else {
        law_octal_reads_back(n / 8);
        assert(s.drop_last() =~= octal(n / 8));
        assert forall|i: int| 0 <= i < s.len() implies '0' <= #[trigger] s[i] <= '7' by {
            if i < s.len() - 1 {
                assert(s[i] == octal(n / 8)[i]);
            }
        }
    }
}

/// The number that a hexadecimal digit stands for.
pub open spec fn hex_digit_value(c: char) -> nat {
    if '0' <= c <= '9' {
        (c as nat - 48) as nat
    } else if 'a' <= c <= 'f' {
        (c as nat - 87) as nat
    } else {
        0
    }
}

/// The number that hexadecimal digits stand for.
pub open spec fn hex_value(s: Seq<char>) -> nat
    decreases s.len(),
{
    if s.len() == 0 {
        0
    } else {
        hex_value(s.drop_last()) * 16 + hex_digit_value(s.last())
    }
}

/// Sixteen to the power of `width`.
pub open spec fn hex_bound(width: nat) -> nat
    decreases width,
{
    if width == 0 {
        1
    } else {
        hex_bound((width - 1) as nat) * 16
    }
}

/// A number reads back from its hexadecimal digits, as long as there are enough
/// of them.
pub proof fn law_hex_reads_back(n: nat, width: nat)
    ensures
        hex_padded(n, width).len() == width,
        n < hex_bound(width) ==> hex_value(hex_padded(n, width)) == n,
        forall|i: int|
            0 <= i < width ==> '0' <= #[trigger] hex_padded(n, width)[i] <= '9' || 'a'
                <= hex_padded(n, width)[i] <= 'f',
    decreases width,
{
    let s = hex_padded(n, width);
    if width > 0 {
        let less = (width - 1) as nat;
        law_hex_reads_back(n / 16, less);
        assert(s.drop_last() =~= hex_padded(n / 16, less));
        assert(hex_digit_value(s.last()) == n % 16);
        assert(n < hex_bound(less) * 16 ==> n / 16 < hex_bound(less));
        assert forall|i: int| 0 <= i < width implies '0' <= #[trigger] s[i] <= '9' || 'a' <= s[i]
            <= 'f' by {
            if i < less {
                assert(s[i] == hex_padded(n / 16, less)[i]);
            }
        }
    }
}

/// What counts as white space of the characters that a keyboard has.
pub proof fn law_white_space()
    ensures
        is_space(' ') && is_space('\t') && is_space('\n') && is_space('\r'),
        forall|c: char| '!' <= c <= '~' ==> !#[trigger] is_space(c),
{
}

proof fn lemma_trimmed_start_is(s: Seq<char>) -> (i: int)
    ensures
        0 <= i <= s.len(),
        trimmed_start(s) == s.skip(i),
        forall|k: int| 0 <= k < i ==> is_space(#[trigger] s[k]),
        i < s.len() ==> !is_space(s[i]),
    decreases s.len(),
{
    if s.len() > 0 && is_space(s[0]) {
        let t = s.drop_first();
        let i = lemma_trimmed_start_is(t);
        assert(t.skip(i) =~= s.skip(i + 1));
        assert forall|k: int| 0 <= k < i + 1 implies is_space(#[trigger] s[k]) by {
            if k > 0 {
                assert(s[k] == t[k - 1]);
            }
        }
        i + 1
    } else {
        assert(s.skip(0) =~= s);
        0
    }
}

proof fn lemma_trimmed_end_is(s: Seq<char>) -> (j: int)
    ensures
        0 <= j <= s.len(),
        trimmed_end(s) == s.take(j),
        forall|k: int| j <= k < s.len() ==> is_space(#[trigger] s[k]),
        j > 0 ==> !is_space(s[j - 1]),
    decreases s.len(),
{
    if s.len() > 0 && is_space(s.last()) {
        let t = s.drop_last();
        let j = lemma_trimmed_end_is(t);
        assert(t.take(j) =~= s.take(j));
        assert forall|k: int| j <= k < s.len() implies is_space(#[trigger] s[k]) by {
            if k < s.len() - 1 {
                assert(s[k] == t[k]);
            }
        }
        j
    } else {
        assert(s.take(s.len() as int) =~= s);
        s.len() as int
    }
}

/// Trimming takes away the white space at both ends, all of it, and nothing
/// else.
pub proof fn law_trimmed_loses_only_space(s: Seq<char>)
    ensures
        exists|i: int, j: int|
            0 <= i <= j <= s.len() && trimmed(s) == #[trigger] s.subrange(i, j) && (forall|k: int|
                0 <= k < i || j <= k < s.len() ==> is_space(#[trigger] s[k])) && (i < j
                ==> !is_space(s[i]) && !is_space(s[j - 1])),
{
    let i = lemma_trimmed_start_is(s);
    let t = s.skip(i);
    let n = lemma_trimmed_end_is(t);
    let j = i + n;
    assert(t.take(n) =~= s.subrange(i, j));
    assert forall|k: int| 0 <= k < i || j <= k < s.len() implies is_space(#[trigger] s[k]) by {
        if j <= k {
            assert(s[k] == t[k - i]);
        }
    }
    if n > 0 {
        assert(t[n - 1] == s[j - 1]);
        assert(t[0] == s[i]);
    }
}

/// The lines of a text are what stands between its line feeds; one at the very
/// end begins no further line.
pub proof fn law_lines_are_between_breaks(s: Seq<char>)
    requires
        s.len() > 0,
        !s.contains('\r'),
    ensures
        lines_of(s) == split_on(
            if s.last() == '\n' {
                s.drop_last()
            } else {
                s
            },
            '\n',
        ),
    decreases s.len(),
{
    let n = until(s, '\n');
    lemma_until(s, '\n');
    let t = if s.last() == '\n' {
        s.drop_last()
    } else {
        s
    };
    if n < s.len() {
        let first = s.take(n);
        assert(without_cr(first) == first) by {
            if n > 0 {
                assert(first.last() == s[n - 1]);
                assert(s.contains(s[n - 1]));
            }
        }
        assert(!first.contains('\n'));
        lemma_split_on_one(first, '\n');
        if n + 1 < s.len() {
            let rest = s.skip(n + 1);
            assert forall|i: int| 0 <= i < rest.len() implies rest[i] != '\r' by {
                assert(s.contains(s[n + 1 + i]));
            }
            law_lines_are_between_breaks(rest);
            let u = if rest.last() == '\n' {
                rest.drop_last()
            } else {
                rest
            };
            assert(rest.last() == s.last());
            assert(t =~= first.push('\n') + u);
            lemma_split_on_add(first, u, '\n');
        } else {
            assert(t =~= first);
            assert(s.skip(n + 1) =~= Seq::empty());
            assert(lines_of(Seq::<char>::empty()) =~= Seq::empty());
            assert(lines_of(s) =~= seq![first]);
        }
    } else {
        assert(!s.contains('\n'));
        assert(t == s) by {
            assert(s[s.len() - 1] != '\n');
        }
        lemma_split_on_one(s, '\n');
    }
}

/// A carriage return before a line feed is no part of the line.
pub proof fn law_carriage_return_ends_no_line(line: Seq<char>, rest: Seq<char>)
    requires
        !line.contains('\n'),
    ensures
        lines_of(line.push('\r').push('\n') + rest) == seq![line] + lines_of(rest),
{
    let s = line.push('\r').push('\n') + rest;
    let n = line.len() as int + 1;
    assert forall|i: int| 0 <= i < n implies s[i] != '\n' by {
        if i < line.len() {
            assert(s[i] == line[i]);
            assert(line.contains(line[i]));
        }
    }
    lemma_until_is(s, '\n', n);
    assert(s.take(n) =~= line.push('\r'));
    assert(line.push('\r').drop_last() =~= line);
    assert(s.skip(n + 1) =~= rest);
}

/// The words of a text are what stands between its white space.
pub proof fn law_words_are_between_spaces(w: Seq<char>, c: char, rest: Seq<char>)
    requires
        w.len() > 0,
        forall|i: int| 0 <= i < w.len() ==> !is_space(#[trigger] w[i]),
        is_space(c),
    ensures
        words_of(w) == seq![w],
        words_of(w.push(c) + rest) == seq![w] + words_of(rest),
        words_of(seq![c] + rest) == words_of(rest),
        words_of(Seq::<char>::empty()) == Seq::<Seq<char>>::empty(),
{
    let none = Seq::<char>::empty();
    let later = seq![c] + rest;
    assert(words_of(none) =~= Seq::empty());
    lemma_words_front(w, none);
    assert(w + none =~= w);
    assert(seq![w] + words_of(none) =~= seq![w]);
    assert(later.drop_first() =~= rest);
    assert(trimmed_start(later) == trimmed_start(rest));
    lemma_words_front(w, later);
    assert(w.push(c) + rest =~= w + later);
}

/// Lowercasing changes the letters `A` to `Z`, each to its own small letter, and
/// nothing else.
pub proof fn law_lower_changes_only_capitals(s: Seq<char>)
    ensures
        lower(s).len() == s.len(),
        lower(lower(s)) == lower(s),
        forall|i: int|
            0 <= i < s.len() && !('A' <= s[i] <= 'Z') ==> #[trigger] lower(s)[i] == s[i],
        forall|i: int|
            0 <= i < s.len() && 'A' <= s[i] <= 'Z' ==> (#[trigger] lower(s)[i]) as nat == s[i] as nat
                + 32,
{
    assert(lower(lower(s)) =~= lower(s));
}

/// In a dictionary the first character that differs decides, and a text comes
/// before what it begins.
pub proof fn law_dictionary_order(p: Seq<char>, c: char, a: Seq<char>, d: char, b: Seq<char>)
    requires
        c < d,
    ensures
        text_le(p, p + a),
        text_le(p.push(c) + a, p.push(d) + b),
        !text_le(p.push(d) + b, p.push(c) + a),
    decreases p.len(),
{
    if p.len() > 0 {
        let q = p.skip(1);
        law_dictionary_order(q, c, a, d, b);
        assert((p + a).skip(1) =~= q + a);
        assert((p.push(c) + a).skip(1) =~= q.push(c) + a);
        assert((p.push(d) + b).skip(1) =~= q.push(d) + b);
    }
}

/// What stands in the middle of a text is a part of it.
pub proof fn lemma_has_part(a: Seq<char>, p: Seq<char>, b: Seq<char>)
    ensures
        has_part(a + p + b, p),
{
    let s = a + p + b;
    let rest = s.skip(a.len() as int);
    assert(rest.take(p.len() as int) =~= p);
    assert(has_prefix(rest, p));
}

/// Parts that hold no separator come back when what they were joined to is split.
pub proof fn law_split_undoes_join(parts: Seq<Seq<char>>, c: char)
    requires
        parts.len() > 0,
        forall|i: int| 0 <= i < parts.len() ==> !(#[trigger] parts[i]).contains(c),
    ensures
        split_on(join_with(parts, c), c) == parts,
    decreases parts.len(),
{
    let first = parts[0];
    assert forall|i: int| 0 <= i < first.len() implies first[i] != c by {
        assert(first.contains(first[i]));
    }
    if parts.len() == 1 {
        lemma_split_on_one(first, c);
        assert(parts =~= seq![first]);
    } else {
        let tail = parts.skip(1);
        assert forall|i: int| 0 <= i < tail.len() implies !(#[trigger] tail[i]).contains(c) by {
            assert(tail[i] == parts[i + 1]);
        }
        law_split_undoes_join(tail, c);
        lemma_join_front(parts, c);
        let s = join_with(parts, c);
        let n = first.len() as int;
        assert(s[n] == c);
        assert forall|i: int| 0 <= i < n implies s[i] != c by {
            assert(s[i] == first[i]);
        }
        lemma_until_is(s, c, n);
        assert(s.take(n) =~= first);
        assert(s.skip(n + 1) =~= join_with(tail, c));
        assert(split_on(s, c) =~= seq![first] + split_on(join_with(tail, c), c));
        assert(parts =~= seq![first] + tail);
    }
}

/// A number is read where it is written in digits, with or without a plus sign,
/// and is not too large; any other character spoils it.
pub proof fn law_unsigned_number_is_read(n: nat, max: nat, s: Seq<char>, i: int)
    ensures
        unsigned_of(decimal(n), max) == (if n <= max {
            Some(n)
        } else {
            None::<nat>
        }),
        unsigned_of(seq!['+'] + decimal(n), max) == unsigned_of(decimal(n), max),
        unsigned_of(Seq::empty(), max) is None,
        unsigned_of(seq!['+'], max) is None,
        0 < i < s.len() && !('0' <= s[i] <= '9') ==> unsigned_of(s, max) is None,
        s.len() > 0 && s[0] != '+' && !('0' <= s[0] <= '9') ==> unsigned_of(s, max) is None,
{
    law_decimal_reads_back(n);
    let d = decimal(n);
    assert(is_digit(d[0]));
    let p = seq!['+'] + d;
    assert(p[0] == '+' && p.skip(1) =~= d);
    assert(seq!['+'].skip(1) =~= Seq::<char>::empty());
    if 0 < i < s.len() && !('0' <= s[i] <= '9') {
        if s[0] == '+' {
            assert(s.skip(1)[i - 1] == s[i]);
            assert(!is_digit(s.skip(1)[i - 1]));
        } else {
            assert(!is_digit(s[i]));
        }
    }
    if s.len() > 0 && s[0] != '+' && !('0' <= s[0] <= '9') {
        assert(!is_digit(s[0]));
    }
}

/// A minus sign makes a number negative; a sign alone is no number, and one that
/// does not fit is not read.
pub proof fn law_signed_number_is_read(n: nat)
    ensures
        n <= 2147483648 ==> i32_of(seq!['-'] + decimal(n)) == Some(-(n as int)),
        n > 2147483648 ==> i32_of(seq!['-'] + decimal(n)) is None,
        n > 2147483647 ==> i32_of(decimal(n)) is None,
        i32_of(seq!['-']) is None,
        i32_of(Seq::empty()) is None,
{
    law_decimal_reads_back(n);
    let p = seq!['-'] + decimal(n);
    assert(p[0] == '-' && p.skip(1) =~= decimal(n));
    assert(is_digit(decimal(n)[0]));
    assert(seq!['-'].skip(1) =~= Seq::<char>::empty());
}

} // verus!

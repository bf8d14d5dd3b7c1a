//! Persistent shells: the scripts written to a PTY, and finding where the
//! output of a command ends.

use vstd::prelude::*;
use vstd::string::*;
use vstd::utf8::{decode_utf8, valid_utf8};

use crate::bytes::{
    find_last_from, lemma_occurs_grow, lemma_occurs_shift, occurs, occurs_at, occurs_last_at,
};
use crate::errors::{Result, SshError};
use crate::text::{
    bytes_of, decimal, exact_text, has_part, has_prefix, hex_bound, hex_padded, hex_value, i32_of,
    is_digit, joined2, joined3, law_decimal_reads_back, law_hex_reads_back, lemma_until_is,
    parse_i32, push_decimal, push_hex16, text_of, to_text, trim, trimmed, until,
};

verus! {

pub const DEFAULT_PTY_TERM: &'static str = "xterm-256color";

pub const DEFAULT_PTY_COLS: u32 = 200;

pub const DEFAULT_PTY_ROWS: u32 = 50;

/// How a PTY is opened.
#[derive(Debug, Clone, Copy)]
pub struct PtyOpts {
    pub cols: u32,
    pub rows: u32,
    /// Soft cap on bytes captured per `run()`. Excess is dropped.
    pub max_capture: usize,
}

impl Default for PtyOpts {
    fn default() -> (r: Self)
        ensures
            r == (PtyOpts {
                cols: DEFAULT_PTY_COLS,
                rows: DEFAULT_PTY_ROWS,
                max_capture: 262144,
            }),
    {
        Self { cols: DEFAULT_PTY_COLS, rows: DEFAULT_PTY_ROWS, max_capture: 262144 }
    }
}

// ---------------------------------------------------------------------------
// Tokens
// ---------------------------------------------------------------------------

/// `getrandom::fill` on eight bytes, read as a little-endian number. Of the
/// bytes nothing is claimed; the error is kept as text.
#[verifier::external_body]
pub(crate) fn system_random() -> (r: core::result::Result<u64, String>) {
    let mut bytes = [0u8; 8];
    match getrandom::fill(&mut bytes) {
        Ok(()) => Ok(u64::from_le_bytes(bytes)),
        Err(e) => Err(e.to_string()),
    }
}

/// A token: a prefix and sixteen hexadecimal digits.
pub open spec fn token_text(prefix: Seq<char>, n: u64) -> Seq<char> {
    prefix + hex_padded(n as nat, 16)
}

/// The token that the number `n` stands for.
pub fn token_of(prefix: &str, n: u64) -> (r: String)
    ensures
        r@ == token_text(prefix@, n),
{
    let mut s = prefix.to_owned();
    push_hex16(&mut s, n);
    s
}

/// The error of a system without randomness.
pub open spec fn rng_unavailable(e: SshError) -> bool {
    e is Other && exists|why: Seq<char>| e->Other_0@ == #[trigger] rng_error_text(why)
}

pub open spec fn rng_error_text(why: Seq<char>) -> Seq<char> {
    "system RNG unavailable: "@ + why
}

/// What a draw from the system's randomness gives: the number, or the error of
/// a system without.
pub fn drawn(outcome: core::result::Result<u64, String>) -> (r: Result<u64>)
    ensures
        match outcome {
            Ok(n) => r is Ok && r->Ok_0 == n,
            Err(why) => r is Err && r->Err_0 is Other && r->Err_0->Other_0@ == rng_error_text(why@),
        },
{
    match outcome {
        Ok(n) => Ok(n),
        Err(why) => Err(SshError::Other(joined2("system RNG unavailable: ", why.as_str()))),
    }
}

fn random_u64() -> (r: Result<u64>)
    ensures
        r matches Err(e) ==> rng_unavailable(e),
{
    drawn(system_random())
}

/// Random hex token. 64 bits of entropy is enough to make collision with user
/// output unrealistic. Fails the call rather than falling back to a clock: a
/// predictable sentinel could be forged.
pub fn random_token(prefix: &str) -> (r: Result<String>)
    ensures
        match r {
            Ok(s) => exists|n: u64| s@ == #[trigger] token_text(prefix@, n),
            Err(e) => rng_unavailable(e),
        },
{
    match random_u64() {
        Ok(n) => Ok(token_of(prefix, n)),
        Err(e) => Err(e),
    }
}

/// Per-call nonce appended to the `__DONE_*` sentinel. Same hard-fail policy
/// as `random_token`.
pub fn random_nonce() -> (r: Result<String>)
    ensures
        match r {
            Ok(s) => exists|n: u64| s@ == #[trigger] token_text(Seq::empty(), n),
            Err(e) => rng_unavailable(e),
        },
{
    match random_u64() {
        Ok(n) => {
            proof {
                reveal_strlit("");
                assert(""@ =~= Seq::<char>::empty());
            }
            Ok(token_of("", n))
        },
        Err(e) => Err(e),
    }
}

// ---------------------------------------------------------------------------
// Scripts
// ---------------------------------------------------------------------------

/// What a fresh shell is told: no echo, no prompt, no bracketed paste, and a
/// readiness marker. The marker is put together by `printf`, so it does not
/// stand in the script itself.
pub open spec fn init_script_text(session_id: Seq<char>) -> Seq<char> {
    "stty -echo -onlcr 2>/dev/null\nprintf '\\e[?2004l'\nexport PS1='' PS2='' PROMPT_COMMAND=''\nprintf '__%s__\\n' "@
        + session_id + "\n"@
}

pub fn init_script(session_id: &str) -> (r: String)
    ensures
        r@ == init_script_text(session_id@),
{
    joined3(
        "stty -echo -onlcr 2>/dev/null\nprintf '\\e[?2004l'\nexport PS1='' PS2='' PROMPT_COMMAND=''\nprintf '__%s__\\n' ",
        session_id,
        "\n",
    )
}

/// What the shell prints once it has run the whole init script.
pub open spec fn init_marker_text(session_id: Seq<char>) -> Seq<char> {
    "__"@ + session_id + "__"@
}

pub fn init_marker(session_id: &str) -> (r: String)
    ensures
        r@ == init_marker_text(session_id@),
{
    joined3("__", session_id, "__")
}

/// The readiness marker does not stand in the init script: a shell that echoes
/// the script back is not taken for one that has run it.
pub proof fn law_marker_is_not_echoed(id: Seq<char>)
    requires
        id.len() > 0,
        forall|i: int| 0 <= i < id.len() ==> #[trigger] id[i] != '_' && id[i] != '%',
    ensures
        !has_part(init_script_text(id), init_marker_text(id)),
{
    let head =
        "stty -echo -onlcr 2>/dev/null\nprintf '\\e[?2004l'\nexport PS1='' PS2='' PROMPT_COMMAND=''\nprintf '__%s__\\n' "@;
    reveal_strlit(
        "stty -echo -onlcr 2>/dev/null\nprintf '\\e[?2004l'\nexport PS1='' PS2='' PROMPT_COMMAND=''\nprintf '__%s__\\n' ",
    );
    reveal_strlit("\n");
    reveal_strlit("__");
    let at = head.len() - 10;
    let script = init_script_text(id);
    let marker = init_marker_text(id);
    if has_part(script, marker) {
        let i = choose|i: int|
            #![trigger script.skip(i)]
            0 <= i <= script.len() && has_prefix(script.skip(i), marker);
        let rest = script.skip(i);
        let m = rest.take(marker.len() as int);
        let end = i + 2 + id.len();
        assert(m == marker);
        assert(m[0] == '_' && m[1] == '_' && m[2] == id[0]);
        assert(script[i] == '_' && script[i + 1] == '_' && script[i + 2] == id[0]);
        assert(m[2 + id.len() as int] == '_' && m[3 + id.len() as int] == '_');
        assert(script[end] == '_' && script[end + 1] == '_');
        assert forall|k: int| head.len() <= k < script.len() implies script[k] != '_' by {
            if k < head.len() + id.len() {
                assert(script[k] == id[k - head.len()]);
            }
        }
        assert(i + 1 < head.len() && end + 1 < head.len());
        assert(script[i] == head[i] && script[i + 1] == head[i + 1]);
        assert(script[end] == head[end] && script[end + 1] == head[end + 1]);
        assert(i == at && end == at + 4);
        assert(script[i + 2] == head[i + 2]);
    }
}

/// The token that ends the output of one command.
pub open spec fn sentinel_text(session_id: Seq<char>, seq: nat, nonce: Seq<char>) -> Seq<char> {
    "__DONE_"@ + session_id + "_"@ + decimal(seq) + "_"@ + nonce + "__"@
}

pub fn sentinel(session_id: &str, seq: u64, nonce: &str) -> (r: String)
    ensures
        r@ == sentinel_text(session_id@, seq as nat, nonce@),
{
    let mut s = joined3("__DONE_", session_id, "_");
    push_decimal(&mut s, seq);
    s.push_str("_");
    s.push_str(nonce);
    s.push_str("__");
    s
}

/// No two commands of a shell end with the same token: what an earlier one
/// printed, token and all, does not end a later one.
pub proof fn law_tokens_rotate(
    id: Seq<char>,
    seq1: nat,
    nonce1: Seq<char>,
    seq2: nat,
    nonce2: Seq<char>,
)
    requires
        seq1 != seq2,
    ensures
        sentinel_text(id, seq1, nonce1) != sentinel_text(id, seq2, nonce2),
{
    let head = "__DONE_"@ + id + "_"@;
    let s1 = sentinel_text(id, seq1, nonce1);
    let s2 = sentinel_text(id, seq2, nonce2);
    reveal_strlit("_");
    lemma_number_in_token(head, seq1, nonce1);
    lemma_number_in_token(head, seq2, nonce2);
    law_decimal_reads_back(seq1);
    law_decimal_reads_back(seq2);
    if s1 == s2 {
        let rest = s1.skip(head.len() as int);
        assert(rest.take(until(rest, '_')) == decimal(seq1));
        assert(rest.take(until(rest, '_')) == decimal(seq2));
    }
}

/// The number of a token stands between its first parts and the next underscore.
proof fn lemma_number_in_token(head: Seq<char>, seq: nat, nonce: Seq<char>)
    ensures
        ({
            let s = head + decimal(seq) + "_"@ + nonce + "__"@;
            let rest = s.skip(head.len() as int);
            rest.take(until(rest, '_')) == decimal(seq)
        }),
{
    reveal_strlit("_");
    let d = decimal(seq);
    let s = head + d + "_"@ + nonce + "__"@;
    let rest = s.skip(head.len() as int);
    law_decimal_reads_back(seq);
    assert forall|i: int| 0 <= i < d.len() implies rest[i] != '_' by {
        assert(is_digit(d[i]));
        assert(rest[i] == d[i]);
    }
    assert(rest[d.len() as int] == '_');
    lemma_until_is(rest, '_', d.len() as int);
    assert(rest.take(d.len() as int) =~= d);
}

/// What is written to the shell: the command, then a line that prints the token
/// and the exit status.
pub open spec fn payload_text(cmd: Seq<char>, token: Seq<char>) -> Seq<char> {
    cmd + "\nprintf '\\n%s:%s\\n' "@ + token + " \"$?\"\n"@
}

pub fn payload(cmd: &str, token: &str) -> (r: String)
    ensures
        r@ == payload_text(cmd@, token@),
{
    let mut s = joined3(cmd, "\nprintf '\\n%s:%s\\n' ", token);
    s.push_str(" \"$?\"\n");
    s
}

// ---------------------------------------------------------------------------
// Reading until a marker
// ---------------------------------------------------------------------------

/// What a PTY can send.
pub enum PtyEvent<'a> {
    Data(&'a [u8]),
    /// The channel ended or was closed.
    Closed,
    /// The call ran out of time.
    Elapsed,
    /// A message that the call does not depend on.
    Ignored,
}

/// `buf` followed by `data`, cut at `max` bytes. What is there already stays.
pub open spec fn appended_capped(buf: Seq<u8>, data: Seq<u8>, max: nat) -> Seq<u8> {
    if buf.len() >= max {
        buf
    } else if buf.len() + data.len() <= max {
        buf + data
    } else {
        buf + data.take(max - buf.len())
    }
}

pub fn append_capped(buf: &mut Vec<u8>, data: &[u8], max: usize)
    ensures
        final(buf)@ == appended_capped(old(buf)@, data@, max as nat),
{
    if buf.len() >= max {
        return ;
    }
    let room: usize = max - buf.len();
    if data.len() <= room {
        buf.extend_from_slice(data);
    } else {
        let part: &[u8] = &data[0..room];
        assert(part@ =~= data@.take(room as int));
        buf.extend_from_slice(part);
    }
}

/// What the cap keeps is a start of what arrived, however it was split.
pub proof fn law_append_capped_is_a_prefix(a: Seq<u8>, b: Seq<u8>, max: nat)
    ensures
        appended_capped(appended_capped(Seq::empty(), a, max), b, max) == appended_capped(
            Seq::empty(),
            a + b,
            max,
        ),
        appended_capped(Seq::empty(), a, max).len() <= max,
{
    assert(appended_capped(appended_capped(Seq::empty(), a, max), b, max) =~= appended_capped(
        Seq::empty(),
        a + b,
        max,
    ));
}

/// The cap keeps as much of what arrived as it may, from its start.
pub proof fn law_append_capped_keeps_what_it_may(a: Seq<u8>, max: nat)
    ensures
        a.len() <= max ==> appended_capped(Seq::empty(), a, max) == a,
        a.len() > max ==> appended_capped(Seq::empty(), a, max) == a.take(max as int),
{
    let kept = appended_capped(Seq::empty(), a, max);
    assert(a.len() <= max ==> kept =~= a);
    assert(a.len() > max ==> kept =~= a.take(max as int));
}

/// The digits of an exit status end at the first line break.
pub open spec fn line_end(s: Seq<u8>) -> int
    decreases s.len(),
{
    if s.len() == 0 || s[0] == 10u8 || s[0] == 13u8 {
        0
    } else {
        1 + line_end(s.skip(1))
    }
}

/// The exit status that the bytes behind `\n<token>:` stand for.
pub open spec fn exit_code_of(tail: Seq<u8>) -> int {
    let line = tail.take(line_end(tail));
    if valid_utf8(line) {
        match i32_of(trimmed(decode_utf8(line))) {
            Some(n) => n,
            None => -1,
        }
    } else {
        -1
    }
}

proof fn lemma_line_end(s: Seq<u8>, k: int)
    requires
        0 <= k <= s.len(),
        forall|i: int| 0 <= i < k ==> s[i] != 10u8 && s[i] != 13u8,
        k < s.len() ==> s[k] == 10u8 || s[k] == 13u8,
    ensures
        line_end(s) == k,
    decreases k,
{
    if k > 0 {
        assert forall|i: int| 0 <= i < k - 1 implies s.skip(1)[i] != 10u8 && s.skip(1)[i]
            != 13u8 by {
            assert(s.skip(1)[i] == s[i + 1]);
        }
        lemma_line_end(s.skip(1), k - 1);
    }
}

/// Parse the exit code from the bytes following `\n<token>:` — a digit run
/// terminated by `\n` or `\r` (PTY ONLCR emits CRLF).
pub fn parse_exit_code(tail: &[u8]) -> (r: i32)
    ensures
        r == exit_code_of(tail@),
{
    let mut end: usize = 0;
    while end < tail.len() && tail[end] != 10 && tail[end] != 13
        invariant
            end <= tail@.len(),
            forall|i: int| 0 <= i < end ==> tail@[i] != 10u8 && tail@[i] != 13u8,
        decreases tail@.len() - end,
    {
        end = end + 1;
    }
    proof {
        lemma_line_end(tail@, end as int);
    }
    let line: &[u8] = &tail[0..end];
    assert(line@ =~= tail@.take(end as int));
    match exact_text(line) {
        Some(s) => {
            let t = trim(s.as_str());
            match parse_i32(t.as_str()) {
                Some(n) => n,
                None => -1,
            }
        },
        None => -1,
    }
}

/// The bytes behind the marker are digits up to a line feed, with one carriage
/// return allowed before it.
pub open spec fn status_line_at(buf: Seq<u8>, from: int) -> bool {
    exists|nl: int| #[trigger] status_line_ends(buf, from, nl)
}

/// `nl` is where the status line that begins at `from` ends.
pub open spec fn status_line_ends(buf: Seq<u8>, from: int, nl: int) -> bool {
    &&& from <= nl < buf.len()
    &&& buf[nl] == 10u8
    &&& forall|i: int| from <= i < nl ==> buf[i] != 10u8
    &&& digits_between(buf, from, if from < nl && buf[nl - 1] == 13u8 {
        nl - 1
    } else {
        nl
    })
}

/// `buf[from..to]` is one digit or more, and nothing else.
pub open spec fn digits_between(buf: Seq<u8>, from: int, to: int) -> bool {
    from < to && forall|i: int| from <= i < to ==> 48u8 <= #[trigger] buf[i] <= 57u8
}

/// The output of a command is complete at `pos`: the pattern stands there for
/// the last time, and a status follows it.
pub open spec fn terminated_at(buf: Seq<u8>, pattern: Seq<u8>, pos: int) -> bool {
    occurs_last_at(buf, pattern, pos) && status_line_at(buf, pos + pattern.len())
}

fn status_follows(buf: &[u8], from: usize) -> (r: bool)
    requires
        from <= buf@.len(),
    ensures
        r == status_line_at(buf@, from as int),
{
    let rest: &[u8] = &buf[from..buf.len()];
    assert(rest@ =~= buf@.skip(from as int));
    match memchr::memchr(10, rest) {
        None => {
            proof {
                assert forall|nl: int| !#[trigger] status_line_ends(buf@, from as int, nl) by {
                    if from <= nl < buf@.len() {
                        assert(rest@[nl - from] != 10u8);
                    }
                }
            }
            false
        },
        Some(off) => {
            let nl: usize = from + off;
            assert forall|i: int| from <= i < nl implies buf@[i] != 10u8 by {
                assert(rest@[i - from] != 10u8);
            }
            let to: usize = if from < nl && buf[nl - 1] == 13 {
                nl - 1
            } else {
                nl
            };
            let mut i: usize = from;
            while i < to && 48 <= buf[i] && buf[i] <= 57
                invariant
                    from <= i <= to <= buf@.len(),
                    forall|j: int| from <= j < i ==> 48u8 <= #[trigger] buf@[j] <= 57u8,
                decreases to - i,
            {
                i = i + 1;
            }
            let ok = from < to && i == to;
            proof {
                if ok {
                    assert(status_line_ends(buf@, from as int, nl as int));
                } else {
                    assert forall|other: int| !#[trigger] status_line_ends(
                        buf@,
                        from as int,
                        other,
                    ) by {
                        if status_line_ends(buf@, from as int, other) {
                            if other < nl {
                                assert(buf@[other] != 10u8);
                            }
                            assert(other == nl);
                        }
                    }
                }
            }
            ok
        },
    }
}

/// Reading a shell's answer to one command.
pub struct PtyDrain {
    buf: Vec<u8>,
    pattern: Vec<u8>,
    scanned: usize,
    last_match: Option<usize>,
    max_capture: usize,
}

/// What a reader found.
#[derive(Debug, Clone, Copy, PartialEq, Eq, Structural)]
pub enum PtyStep {
    /// Nothing yet: wait for more.
    More,
    /// The output ends at this byte.
    Done(usize),
    /// The shell went away.
    Closed,
    /// The deadline passed.
    TimedOut,
}

/// The bytes that are looked for: a line feed, the token, a colon.
pub open spec fn pattern_of(token: Seq<u8>) -> Seq<u8> {
    seq![10u8] + token + seq![58u8]
}

/// What a command printed and its status come back, whatever it printed: where
/// the shell answers with the output, the token and the status, the output ends
/// where it ended, and the status is the one that the shell wrote.
pub proof fn law_output_and_status_come_back(body: Seq<u8>, token: Seq<u8>, code: nat)
    requires
        forall|i: int| 0 <= i < token.len() ==> token[i] != 10u8,
        code <= i32::MAX,
    ensures
        ({
            let answer = body + pattern_of(token) + bytes_of(decimal(code)) + seq![10u8];
            &&& terminated_at(answer, pattern_of(token), body.len() as int)
            &&& exit_code_of(answer.skip((body.len() + pattern_of(token).len()) as int)) == code
        }),
{
    let pattern = pattern_of(token);
    let text = decimal(code);
    let digits = bytes_of(text);
    let answer = body + pattern + digits + seq![10u8];
    let at = body.len() as int;
    let from = at + pattern.len();
    let nl = from + digits.len();
    lemma_digits_as_bytes(code);
    assert forall|i: int| from <= i < nl implies 48u8 <= #[trigger] answer[i] <= 57u8 by {
        assert(answer[i] == digits[i - from]);
    }
    assert(answer.subrange(at, from) =~= pattern);
    assert(occurs_at(answer, pattern, at));
    assert forall|i: int| at < i implies !occurs_at(answer, pattern, i) by {
        if occurs_at(answer, pattern, i) {
            assert(answer.subrange(i, i + pattern.len())[0] == answer[i]);
            assert(pattern[0] == 10u8);
            if i < from {
                assert(answer[i] == pattern[i - at]);
            }
        }
    }
    assert(status_line_ends(answer, from, nl));
    let tail = answer.skip(from);
    assert forall|i: int| 0 <= i < digits.len() implies tail[i] != 10u8 && tail[i] != 13u8 by {
        assert(tail[i] == answer[from + i]);
    }
    lemma_line_end(tail, digits.len() as int);
    assert(tail.take(digits.len() as int) =~= digits);
    vstd::utf8::encode_utf8_valid_utf8(text);
    vstd::utf8::encode_utf8_decode_utf8(text);
    law_decimal_reads_back(code);
    assert(is_digit(text[0]) && is_digit(text.last()));
    assert(trimmed(text) == text);
}

/// The same holds where the terminal ends its lines with a carriage return and a
/// line feed, and of the command's own last line break nothing is left.
pub proof fn law_status_comes_back_behind_a_carriage_return(
    body: Seq<u8>,
    token: Seq<u8>,
    code: nat,
)
    requires
        forall|i: int| 0 <= i < token.len() ==> token[i] != 10u8,
        code <= i32::MAX,
    ensures
        ({
            let answer = body + pattern_of(token) + bytes_of(decimal(code)) + seq![13u8, 10u8];
            &&& terminated_at(answer, pattern_of(token), body.len() as int)
            &&& exit_code_of(answer.skip((body.len() + pattern_of(token).len()) as int)) == code
            &&& body_text(answer.take(body.len() as int)) == body_text(body)
        }),
{
    let pattern = pattern_of(token);
    let text = decimal(code);
    let digits = bytes_of(text);
    let answer = body + pattern + digits + seq![13u8, 10u8];
    let at = body.len() as int;
    let from = at + pattern.len();
    let cr = from + digits.len();
    let nl = cr + 1;
    lemma_digits_as_bytes(code);
    assert forall|i: int| from <= i < cr implies 48u8 <= #[trigger] answer[i] <= 57u8 by {
        assert(answer[i] == digits[i - from]);
    }
    assert(answer[cr] == 13u8 && answer[nl] == 10u8);
    assert(answer.subrange(at, from) =~= pattern);
    assert(occurs_at(answer, pattern, at));
    assert forall|i: int| at < i implies !occurs_at(answer, pattern, i) by {
        if occurs_at(answer, pattern, i) {
            assert(answer.subrange(i, i + pattern.len())[0] == answer[i]);
            assert(pattern[0] == 10u8);
            if i < from {
                assert(answer[i] == pattern[i - at]);
            }
        }
    }
    assert(status_line_ends(answer, from, nl));
    let tail = answer.skip(from);
    assert forall|i: int| 0 <= i < digits.len() implies tail[i] != 10u8 && tail[i] != 13u8 by {
        assert(tail[i] == answer[from + i]);
    }
    lemma_line_end(tail, digits.len() as int);
    assert(tail.take(digits.len() as int) =~= digits);
    vstd::utf8::encode_utf8_valid_utf8(text);
    vstd::utf8::encode_utf8_decode_utf8(text);
    law_decimal_reads_back(code);
    assert(is_digit(text[0]) && is_digit(text.last()));
    assert(trimmed(text) == text);
    assert(answer.take(at) =~= body);
}

/// The digits of a number are as many bytes, each of them a digit.
proof fn lemma_digits_as_bytes(n: nat)
    ensures
        bytes_of(decimal(n)).len() > 0,
        forall|i: int|
            0 <= i < bytes_of(decimal(n)).len() ==> 48u8 <= #[trigger] bytes_of(decimal(n))[i]
                <= 57u8,
{
    let text = decimal(n);
    law_decimal_reads_back(n);
    assert forall|i: int| 0 <= i < text.len() implies (#[trigger] text[i] as nat) < 128 by {
        assert(is_digit(text[i]));
    }
    vstd::utf8::is_ascii_chars_encode_utf8(text);
    assert forall|i: int| 0 <= i < bytes_of(text).len() implies 48u8 <= #[trigger] bytes_of(text)[i]
        <= 57u8 by {
        assert(is_digit(text[i]));
    }
}

impl PtyDrain {
    /// What has been captured.
    pub closed spec fn captured(&self) -> Seq<u8> {
        self.buf@
    }

    /// What is looked for.
    pub closed spec fn sought(&self) -> Seq<u8> {
        self.pattern@
    }

    pub closed spec fn cap(&self) -> nat {
        self.max_capture as nat
    }

    #[verifier::type_invariant]
    spec fn scanned_so_far(self) -> bool {
        &&& self.scanned <= self.buf@.len()
        &&& self.pattern@.len() > 0
        &&& forall|i: int|
            0 < i < self.pattern@.len() ==> #[trigger] self.pattern@[i] != self.pattern@[0]
        &&& match self.last_match {
            Some(p) => occurs_last_at(self.buf@.take(self.scanned as int), self.pattern@, p as int),
            None => !occurs(self.buf@.take(self.scanned as int), self.pattern@),
        }
    }

    pub fn new(token: &str, max_capture: usize) -> (r: Self)
        requires
            forall|i: int| 0 <= i < token.spec_bytes().len() ==> token.spec_bytes()[i] != 10u8,
        ensures
            r.captured() == Seq::<u8>::empty(),
            r.sought() == pattern_of(token.spec_bytes()),
            r.cap() == max_capture,
    {
        let mut pattern: Vec<u8> = Vec::new();
        pattern.push(10);
        pattern.extend_from_slice(token.as_bytes());
        pattern.push(58);
        proof {
            assert(pattern@ =~= pattern_of(token.spec_bytes()));
        }
        let buf: Vec<u8> = Vec::with_capacity(4096);
        assert(buf@.take(0) =~= Seq::empty());
        PtyDrain { buf, pattern, scanned: 0, last_match: None, max_capture }
    }

    /// Takes in an event. The output is complete where the pattern last stands
    /// in what was captured, once a status line follows it there; an echo of
    /// the command line holds the token too, but no status behind it.
    pub fn step(self, event: PtyEvent) -> (r: (Self, PtyStep))
        ensures
            r.0.sought() == self.sought(),
            r.0.cap() == self.cap(),
            match event {
                PtyEvent::Data(data) => {
                    &&& r.0.captured() == appended_capped(self.captured(), data@, self.cap())
                    &&& match r.1 {
                        PtyStep::Done(p) => terminated_at(
                            r.0.captured(),
                            self.sought(),
                            p as int,
                        ),
                        PtyStep::More => forall|p: int|
                            !#[trigger] terminated_at(r.0.captured(), self.sought(), p),
                        _ => false,
                    }
                },
                PtyEvent::Ignored => {
                    &&& r.0.captured() == self.captured()
                    &&& match r.1 {
                        PtyStep::Done(p) => terminated_at(
                            r.0.captured(),
                            self.sought(),
                            p as int,
                        ),
                        PtyStep::More => forall|p: int|
                            !#[trigger] terminated_at(r.0.captured(), self.sought(), p),
                        _ => false,
                    }
                },
                PtyEvent::Closed => r.0.captured() == self.captured() && r.1 == PtyStep::Closed,
                PtyEvent::Elapsed => r.0.captured() == self.captured() && r.1 == PtyStep::TimedOut,
            },
    {
        match event {
            PtyEvent::Data(data) => self.take_in(data),
            PtyEvent::Ignored => {
                let empty: [u8; 0] = [];
                let ghost before = self.captured();
                let r = self.take_in(&empty);
                assert(r.0.captured() =~= before);
                r
            },
            PtyEvent::Closed => (self, PtyStep::Closed),
            PtyEvent::Elapsed => (self, PtyStep::TimedOut),
        }
    }

    fn take_in(self, data: &[u8]) -> (r: (Self, PtyStep))
        ensures
            r.0.sought() == self.sought(),
            r.0.cap() == self.cap(),
            r.0.captured() == appended_capped(self.captured(), data@, self.cap()),
            match r.1 {
                PtyStep::Done(p) => terminated_at(r.0.captured(), self.sought(), p as int),
                PtyStep::More => forall|p: int|
                    !#[trigger] terminated_at(r.0.captured(), self.sought(), p),
                _ => false,
            },
    {
        proof {
            use_type_invariant(&self);
        }
        let PtyDrain { mut buf, pattern, scanned, last_match, max_capture } = self;
        let ghost before = buf@;
        append_capped(&mut buf, data, max_capture);
        let ghost old = before.take(scanned as int);
        assert(buf@.take(scanned as int) =~= old);
        let overlap: usize = pattern.len() - 1;
        let start: usize = scanned.saturating_sub(overlap);
        let found = find_last_from(buf.as_slice(), pattern.as_slice(), start);
        proof {
            // What is found before `start` lies wholly in the part seen before.
            assert(buf@ =~= old + buf@.skip(scanned as int));
            assert forall|i: int| i < start implies occurs_at(buf@, pattern@, i) == occurs_at(
                old,
                pattern@,
                i,
            ) by {
                if 0 <= i {
                    lemma_occurs_grow(old, buf@.skip(scanned as int), pattern@, i);
                }
            }
        }
        let last_match = match found {
            Some(p) => Some(p),
            None => last_match,
        };
        proof {
            assert(buf@.take(buf@.len() as int) =~= buf@);
            match found {
                Some(p) => {},
                None => {
                    assert forall|i: int| #![trigger occurs_at(buf@, pattern@, i)] occurs_at(
                        buf@,
                        pattern@,
                        i,
                    ) implies occurs_at(old, pattern@, i) by {
                        assert(i < start);
                    }
                    match last_match {
                        Some(p) => {
                            lemma_occurs_grow(old, buf@.skip(scanned as int), pattern@, p as int);
                        },
                        None => {},
                    }
                },
            }
        }
        let scanned: usize = buf.len();
        let step = match last_match {
            Some(p) => {
                if status_follows(buf.as_slice(), p + pattern.len()) {
                    PtyStep::Done(p)
                } else {
                    PtyStep::More
                }
            },
            None => PtyStep::More,
        };
        proof {
            if step == PtyStep::More {
                assert forall|q: int| !#[trigger] terminated_at(buf@, pattern@, q) by {
                    if terminated_at(buf@, pattern@, q) {
                        match last_match {
                            Some(p) => {
                                if q < p {
                                    assert(occurs_at(buf@, pattern@, p as int));
                                } else if p < q {
                                    assert(occurs_at(buf@, pattern@, q));
                                }
                            },
                            None => {},
                        }
                    }
                }
            }
        }
        (PtyDrain { buf, pattern, scanned, last_match, max_capture }, step)
    }

    /// The output and the exit code, once the output is complete at `pos`.
    pub fn finish(self, pos: usize) -> (r: (String, i32))
        requires
            pos + self.sought().len() <= self.captured().len(),
        ensures
            r.0@ == body_text(self.captured().take(pos as int)),
            r.1 == exit_code_of(self.captured().skip((pos + self.sought().len()) as int)),
    {
        let all: &[u8] = self.buf.as_slice();
        let end: usize = all.len();
        let tail: &[u8] = &all[pos + self.pattern.len()..end];
        assert(tail@ =~= all@.skip((pos + self.pattern@.len()) as int));
        let code = parse_exit_code(tail);
        let body: &[u8] = &all[0..pos];
        assert(body@ =~= all@.take(pos as int));
        (body_of(body), code)
    }
}

// ---------------------------------------------------------------------------
// The body
// ---------------------------------------------------------------------------

/// Switching bracketed paste on or off: `ESC [ ? 2 0 0 4` and `h` or `l`.
pub open spec fn paste_mark_at(s: Seq<u8>) -> bool {
    &&& s.len() >= 8
    &&& s[0] == 27u8
    &&& s[1] == 91u8
    &&& s[2] == 63u8
    &&& s[3] == 50u8
    &&& s[4] == 48u8
    &&& s[5] == 48u8
    &&& s[6] == 52u8
    &&& (s[7] == 104u8 || s[7] == 108u8)
}

/// `s` without the marks that readline switches bracketed paste with.
pub open spec fn without_paste_marks(s: Seq<u8>) -> Seq<u8>
    decreases s.len(),
{
    if s.len() == 0 {
        Seq::empty()
    } else if paste_mark_at(s) {
        without_paste_marks(s.skip(8))
    } else {
        seq![s[0]] + without_paste_marks(s.skip(1))
    }
}

/// `s` without the line breaks that it ends with.
pub open spec fn without_last_breaks(s: Seq<u8>) -> Seq<u8>
    decreases s.len(),
{
    if s.len() > 0 && (s.last() == 10u8 || s.last() == 13u8) {
        without_last_breaks(s.drop_last())
    } else {
        s
    }
}

/// The output of a command as it is reported.
pub open spec fn body_text(raw: Seq<u8>) -> Seq<char> {
    text_of(without_last_breaks(without_paste_marks(raw)))
}

proof fn lemma_no_marks(s: Seq<u8>)
    requires
        !occurs(s, seq![27u8, 91, 63, 50, 48, 48, 52, 104]),
        !occurs(s, seq![27u8, 91, 63, 50, 48, 48, 52, 108]),
    ensures
        without_paste_marks(s) == s,
    decreases s.len(),
{
    let on = seq![27u8, 91, 63, 50, 48, 48, 52, 104];
    let off = seq![27u8, 91, 63, 50, 48, 48, 52, 108];
    if s.len() > 0 {
        assert(!occurs_at(s, on, 0));
        assert(!occurs_at(s, off, 0));
        if paste_mark_at(s) {
            let first = s.subrange(0, 8);
            assert(first =~= on || first =~= off);
        }
        assert forall|i: int|
            !occurs_at(s.skip(1), on, i) && !occurs_at(s.skip(1), off, i) by {
            if 0 <= i {
                lemma_occurs_shift(s, on, 1, i);
                lemma_occurs_shift(s, off, 1, i);
                assert(!occurs_at(s, on, 1 + i));
                assert(!occurs_at(s, off, 1 + i));
            }
        }
        lemma_no_marks(s.skip(1));
        assert(seq![s[0]] + s.skip(1) =~= s);
    } else {
        assert(s =~= Seq::empty());
    }
}

proof fn lemma_marks_split(a: Seq<u8>, b: Seq<u8>)
    requires
        b.len() > 0,
        b[0] == 27u8 || b[0] == 10u8 || b[0] == 13u8,
    ensures
        without_paste_marks(a + b) == without_paste_marks(a) + without_paste_marks(b),
    decreases a.len(),
{
    let s = a + b;
    if a.len() == 0 {
        assert(s =~= b);
        assert(without_paste_marks(a) + without_paste_marks(b) =~= without_paste_marks(b));
    } else {
        assert(s[0] == a[0]);
        if paste_mark_at(a) {
            assert(paste_mark_at(s));
            assert(s.skip(8) =~= a.skip(8) + b);
            lemma_marks_split(a.skip(8), b);
        } else {
            if paste_mark_at(s) {
                if a.len() >= 8 {
                    assert(s[1] == a[1] && s[2] == a[2] && s[3] == a[3] && s[4] == a[4] && s[5]
                        == a[5] && s[6] == a[6] && s[7] == a[7]);
                } else {
                    assert(s[a.len() as int] == b[0]);
                }
                assert(false);
            }
            assert(s.skip(1) =~= a.skip(1) + b);
            lemma_marks_split(a.skip(1), b);
            assert(without_paste_marks(s) =~= without_paste_marks(a) + without_paste_marks(b));
        }
    }
}

/// Nothing that a command printed is left out: where it neither switches
/// bracketed paste nor ends in a line break, it comes back as it is, colours and
/// other escape sequences included.
pub proof fn law_printed_output_comes_back(raw: Seq<u8>)
    requires
        !occurs(raw, seq![27u8, 91, 63, 50, 48, 48, 52, 104]),
        !occurs(raw, seq![27u8, 91, 63, 50, 48, 48, 52, 108]),
        raw.len() > 0 ==> raw.last() != 10u8 && raw.last() != 13u8,
    ensures
        body_text(raw) == text_of(raw),
        valid_utf8(raw) ==> body_text(raw) == decode_utf8(raw),
{
    lemma_no_marks(raw);
}

/// Line breaks at the end of the output are no part of it, however many there
/// are.
pub proof fn law_last_breaks_are_dropped(raw: Seq<u8>)
    ensures
        body_text(raw.push(10u8)) == body_text(raw),
        body_text(raw.push(13u8)) == body_text(raw),
{
    let lf = seq![10u8];
    let cr = seq![13u8];
    lemma_marks_split(raw, lf);
    lemma_marks_split(raw, cr);
    assert(raw + lf =~= raw.push(10u8));
    assert(raw + cr =~= raw.push(13u8));
    assert(lf.skip(1) =~= Seq::empty());
    assert(cr.skip(1) =~= Seq::empty());
    assert(without_paste_marks(Seq::<u8>::empty()) =~= Seq::empty());
    assert(without_paste_marks(lf) =~= lf);
    assert(without_paste_marks(cr) =~= cr);
    let kept = without_paste_marks(raw);
    assert((kept + lf).drop_last() =~= kept);
    assert((kept + cr).drop_last() =~= kept);
}

/// Switching bracketed paste is no output, wherever it stands, and what is around
/// it stays.
pub proof fn law_paste_switches_are_left_out(a: Seq<u8>, b: Seq<u8>, on: bool)
    requires
        !occurs(a, seq![27u8, 91, 63, 50, 48, 48, 52, 104]),
        !occurs(a, seq![27u8, 91, 63, 50, 48, 48, 52, 108]),
        !occurs(b, seq![27u8, 91, 63, 50, 48, 48, 52, 104]),
        !occurs(b, seq![27u8, 91, 63, 50, 48, 48, 52, 108]),
        (a + b).len() > 0 ==> (a + b).last() != 10u8 && (a + b).last() != 13u8,
    ensures
        body_text(
            a + seq![27u8, 91, 63, 50, 48, 48, 52, if on {
                104u8
            } else {
                108u8
            }] + b,
        ) == text_of(a + b),
{
    let mark = seq![27u8, 91, 63, 50, 48, 48, 52, if on {
        104u8
    } else {
        108u8
    }];
    assert(a + mark + b =~= a + (mark + b));
    lemma_marks_split(a, mark + b);
    assert(paste_mark_at(mark + b));
    assert((mark + b).skip(8) =~= b);
    lemma_no_marks(a);
    lemma_no_marks(b);
}

fn paste_mark(s: &[u8], at: usize) -> (r: bool)
    requires
        at <= s@.len(),
    ensures
        r == paste_mark_at(s@.skip(at as int)),
{
    s.len() - at >= 8 && s[at] == 27 && s[at + 1] == 91 && s[at + 2] == 63 && s[at + 3] == 50
        && s[at + 4] == 48 && s[at + 5] == 48 && s[at + 6] == 52 && (s[at + 7] == 104 || s[at + 7]
        == 108)
}

/// The output of a command as it is reported: without bracketed-paste marks and
/// without the line breaks at its end.
pub fn body_of(raw: &[u8]) -> (r: String)
    ensures
        r@ == body_text(raw@),
{
    let mut out: Vec<u8> = Vec::new();
    let mut at: usize = 0;
    assert(raw@.skip(0) =~= raw@);
    while at < raw.len()
        invariant
            at <= raw@.len(),
            out@ + without_paste_marks(raw@.skip(at as int)) == without_paste_marks(raw@),
        decreases raw@.len() - at,
    {
        let ghost rest = raw@.skip(at as int);
        if paste_mark(raw, at) {
            assert(rest.skip(8) =~= raw@.skip(at + 8));
            at = at + 8;
        } else {
            assert(rest.skip(1) =~= raw@.skip(at + 1));
            out.push(raw[at]);
            assert(out@ + without_paste_marks(rest.skip(1)) =~= out@.drop_last()
                + without_paste_marks(rest));
            at = at + 1;
        }
    }
    assert(raw@.skip(at as int) =~= Seq::empty());
    assert(out@ =~= without_paste_marks(raw@));
    while out.len() > 0 && (out[out.len() - 1] == 10 || out[out.len() - 1] == 13)
        invariant
            without_last_breaks(out@) == without_last_breaks(without_paste_marks(raw@)),
        decreases out@.len(),
    {
        let ghost whole = out@;
        let _ = out.pop();
        assert(out@ =~= whole.drop_last());
    }
    to_text(out.as_slice())
}

/// The output and exit code of a command whose raw answer holds `\n<token>:` at
/// `pos`.
pub fn body_and_code(raw: &[u8], token: &str, pos: usize) -> (r: (String, i32))
    requires
        pos + token.spec_bytes().len() + 2 <= raw@.len(),
    ensures
        r.0@ == body_text(raw@.take(pos as int)),
        r.1 == exit_code_of(raw@.skip((pos + token.spec_bytes().len() + 2) as int)),
{
    let end: usize = raw.len();
    let from: usize = pos + token.as_bytes().len() + 2;
    let tail: &[u8] = &raw[from..end];
    assert(tail@ =~= raw@.skip(from as int));
    let body: &[u8] = &raw[0..pos];
    assert(body@ =~= raw@.take(pos as int));
    (body_of(body), parse_exit_code(tail))
}

// ---------------------------------------------------------------------------
// Waiting for a fresh shell
// ---------------------------------------------------------------------------

/// Reading a fresh shell's output until its readiness marker.
pub struct PtyInit {
    buf: Vec<u8>,
    marker: Vec<u8>,
    scanned: usize,
    max_capture: usize,
}

impl PtyInit {
    pub closed spec fn captured(&self) -> Seq<u8> {
        self.buf@
    }

    pub closed spec fn sought(&self) -> Seq<u8> {
        self.marker@
    }

    pub closed spec fn cap(&self) -> nat {
        self.max_capture as nat
    }

    #[verifier::type_invariant]
    spec fn scanned_so_far(self) -> bool {
        &&& self.scanned <= self.buf@.len()
        &&& self.scanned > 0 ==> !occurs(self.buf@.take(self.scanned as int), self.marker@)
    }

    pub fn new(marker: &str, max_capture: usize) -> (r: Self)
        ensures
            r.captured() == Seq::<u8>::empty(),
            r.sought() == marker.spec_bytes(),
            r.cap() == max_capture,
    {
        let mut bytes: Vec<u8> = Vec::new();
        bytes.extend_from_slice(marker.as_bytes());
        assert(bytes@ =~= marker.spec_bytes());
        let buf: Vec<u8> = Vec::with_capacity(4096);
        PtyInit { buf, marker: bytes, scanned: 0, max_capture }
    }

    /// Takes in more output. There is nothing more to read once the marker
    /// stands in what was captured.
    pub fn step(self, data: &[u8]) -> (r: (Self, bool))
        ensures
            r.0.sought() == self.sought(),
            r.0.cap() == self.cap(),
            r.0.captured() == appended_capped(self.captured(), data@, self.cap()),
            r.1 == occurs(r.0.captured(), self.sought()),
    {
        proof {
            use_type_invariant(&self);
        }
        let PtyInit { mut buf, marker, scanned, max_capture } = self;
        let ghost before = buf@;
        append_capped(&mut buf, data, max_capture);
        let ghost old = before.take(scanned as int);
        assert(buf@ =~= old + buf@.skip(scanned as int));
        let overlap: usize = marker.len().saturating_sub(1);
        let start: usize = scanned.saturating_sub(overlap);
        let all: &[u8] = buf.as_slice();
        let rest: &[u8] = &all[start..all.len()];
        assert(rest@ =~= buf@.skip(start as int));
        let found = match memchr::memmem::find(rest, marker.as_slice()) {
            Some(i) => {
                proof {
                    lemma_occurs_shift(buf@, marker@, start as int, i as int);
                }
                true
            },
            None => {
                proof {
                    assert forall|i: int| !occurs_at(buf@, marker@, i) by {
                        if occurs_at(buf@, marker@, i) {
                            if i < start {
                                lemma_occurs_grow(old, buf@.skip(scanned as int), marker@, i);
                                assert(occurs_at(old, marker@, i));
                            } else {
                                lemma_occurs_shift(buf@, marker@, start as int, i - start);
                                assert(occurs_at(rest@, marker@, i - start));
                            }
                        }
                    }
                }
                false
            },
        };
        let next: usize = if found {
            0
        } else {
            buf.len()
        };
        assert(buf@.take(buf@.len() as int) =~= buf@);
        (PtyInit { buf, marker, scanned: next, max_capture }, found)
    }
}

/// The output of a command is complete only once the marker stands there for the
/// last time and a digit of the status behind it; a marker alone is not the end.
pub proof fn law_marker_alone_is_not_the_end(buf: Seq<u8>, pattern: Seq<u8>, pos: int)
    requires
        terminated_at(buf, pattern, pos),
    ensures
        0 <= pos,
        pos + pattern.len() + 1 < buf.len(),
        buf.subrange(pos, pos + pattern.len()) == pattern,
        48u8 <= buf[pos + pattern.len()] <= 57u8,
        exists|nl: int|
            pos + pattern.len() < nl < buf.len() && #[trigger] buf[nl] == 10u8,
        forall|later: int|
            pos < later && later + pattern.len() <= buf.len() ==> #[trigger] buf.subrange(
                later,
                later + pattern.len(),
            ) != pattern,
{
    let from = pos + pattern.len();
    let nl = choose|nl: int| #[trigger] status_line_ends(buf, from, nl);
    assert(buf[nl] == 10u8);
    assert forall|later: int|
        pos < later && later + pattern.len() <= buf.len() implies #[trigger] buf.subrange(
        later,
        later + pattern.len(),
    ) != pattern by {
        assert(!occurs_at(buf, pattern, later));
    }
}

/// A token is its prefix and sixteen digits that read back as the number it was
/// made from, so two numbers never share one.
pub proof fn law_token_reads_back(prefix: Seq<char>, n: u64)
    ensures
        has_prefix(token_text(prefix, n), prefix),
        token_text(prefix, n).len() == prefix.len() + 16,
        hex_value(token_text(prefix, n).skip(prefix.len() as int)) == n,
{
    let t = token_text(prefix, n);
    assert(t.take(prefix.len() as int) =~= prefix);
    assert(t.skip(prefix.len() as int) =~= hex_padded(n as nat, 16));
    law_hex_reads_back(n as nat, 16);
    assert(hex_bound(16) == 0x1_0000_0000_0000_0000) by {
        reveal_with_fuel(hex_bound, 17);
    }
}

} // verus!

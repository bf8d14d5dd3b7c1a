//! One-shot commands: capturing two output streams within bounds, and deciding
//! when a command is over.

use std::collections::VecDeque;

use vstd::prelude::*;

use crate::errors::Result;
use crate::text::{text_of, to_text};

verus! {

/// How long to wait for the server's `Close` once the command has exited and
/// its output ended. OpenSSH sends it right behind `Eof`; this only bounds a
/// server that never does.
pub const CLOSE_GRACE_MS: u64 = 250;

/// How much of a stream's end is kept once its head has filled `max_capture`.
/// Covers half of any `truncate_bytes` up to 128 KiB, which is the share of
/// the display `head_tail` gives to the end.
pub const TAIL_KEEP: usize = 65536;

/// What a command did.
#[derive(Debug, Clone)]
pub struct ExecResult {
    /// Start of stdout, up to `max_capture` bytes.
    pub stdout: String,
    /// End of stdout past `stdout`, at most `TAIL_KEEP` bytes. Empty unless
    /// capture was capped. Bytes between the two were never kept when
    /// `stdout_bytes > stdout.len() + stdout_tail.len()`.
    pub stdout_tail: String,
    pub stderr: String,
    pub stderr_tail: String,
    pub exit_code: i32,
    pub duration_ms: u128,
    /// Every byte the channel carried, kept or not.
    pub stdout_bytes: usize,
    pub stderr_bytes: usize,
    pub timed_out: bool,
    /// True if capture stopped at `max_capture` before EOF.
    pub capture_capped: bool,
    /// True if the channel closed without delivering an `ExitStatus`. Caller
    /// should not conflate the resulting `exit_code = -1` with a process that
    /// genuinely exited with -1. Common cause: server-side abrupt hangup.
    pub connection_lost: bool,
    /// True if `interrupt` aborted this call before the remote process exited.
    pub interrupted: bool,
}

// ---------------------------------------------------------------------------
// One stream
// ---------------------------------------------------------------------------

/// The last `n` bytes of `s` (all of them when there are fewer).
pub open spec fn last_n(s: Seq<u8>, n: int) -> Seq<u8> {
    if s.len() <= n {
        s
    } else {
        s.skip(s.len() - n)
    }
}

/// The size of the window over the end of a stream.
pub open spec fn keep_of(max: nat) -> int {
    let wanted = if max == 0 {
        1
    } else {
        max as int
    };
    if wanted < TAIL_KEEP {
        wanted
    } else {
        TAIL_KEEP as int
    }
}

/// Where the kept start of a stream ends.
pub open spec fn head_end(stream: Seq<u8>, max: nat) -> int {
    if stream.len() <= max {
        stream.len() as int
    } else {
        max as int
    }
}

/// The kept start of a stream: its first `max` bytes.
pub open spec fn head_of(stream: Seq<u8>, max: nat) -> Seq<u8> {
    stream.take(head_end(stream, max))
}

/// The kept end of a stream: the last bytes of what lies past the start.
pub open spec fn tail_of(stream: Seq<u8>, max: nat) -> Seq<u8> {
    last_n(stream.skip(head_end(stream, max)), keep_of(max))
}

/// A byte that continues a UTF-8 sequence.
pub open spec fn continues(b: u8) -> bool {
    b & 0xC0 == 0x80
}

/// How many of the first `n` bytes continue a sequence that began earlier.
pub open spec fn orphans(s: Seq<u8>, n: nat) -> int
    decreases n,
{
    if n == 0 || s.len() == 0 || !continues(s[0]) {
        0
    } else {
        1 + orphans(s.skip(1), (n - 1) as nat)
    }
}

/// The text of a window: it slides over bytes, so it can start inside a UTF-8
/// sequence, whose orphaned bytes are left out.
pub open spec fn window_text(window: Seq<u8>) -> Seq<char> {
    text_of(window.skip(orphans(window, 3)))
}

proof fn lemma_last_n_append(a: Seq<u8>, b: Seq<u8>, n: int)
    requires
        0 <= n,
    ensures
        last_n(a + b, n) == last_n(last_n(a, n) + last_n(b, n), n),
{
    assert(last_n(a + b, n) =~= last_n(last_n(a, n) + last_n(b, n), n));
}

/// What is kept of a stream is bounded however much the command prints.
pub proof fn law_capture_is_bounded(stream: Seq<u8>, max: nat)
    ensures
        head_of(stream, max).len() <= max,
        tail_of(stream, max).len() <= TAIL_KEEP,
        head_of(stream, max).len() + tail_of(stream, max).len() <= stream.len(),
{
}

/// A stream no longer than the cap is kept whole, and nothing twice.
pub proof fn law_capture_under_the_cap(stream: Seq<u8>, max: nat)
    requires
        stream.len() <= max,
    ensures
        head_of(stream, max) == stream,
        tail_of(stream, max) == Seq::<u8>::empty(),
{
    assert(head_of(stream, max) =~= stream);
    assert(tail_of(stream, max) =~= Seq::<u8>::empty());
}

/// The kept parts are a start and an end of the stream that do not overlap.
pub proof fn law_capture_keeps_both_ends(stream: Seq<u8>, max: nat)
    ensures
        head_of(stream, max) == stream.take(head_of(stream, max).len() as int),
        tail_of(stream, max) == stream.skip(stream.len() - tail_of(stream, max).len()),
        stream.len() > max ==> tail_of(stream, max).len() > 0,
{
    assert(head_of(stream, max) =~= stream.take(head_of(stream, max).len() as int));
    assert(tail_of(stream, max) =~= stream.skip(stream.len() - tail_of(stream, max).len()));
}

/// Moves the window over the end of a stream on by `rest`.
fn slide(tail: &mut VecDeque<u8>, rest: &[u8], max: usize)
    requires
        old(tail)@.len() <= keep_of(max as nat),
    ensures
        final(tail)@ == last_n(
            last_n(old(tail)@, keep_of(max as nat)) + last_n(rest@, keep_of(max as nat)),
            keep_of(max as nat),
        ),
{
    let wanted: usize = if max == 0 {
        1
    } else {
        max
    };
    let keep: usize = if wanted < TAIL_KEEP {
        wanted
    } else {
        TAIL_KEEP
    };
    let from: usize = rest.len().saturating_sub(keep);
    let last: &[u8] = &rest[from..rest.len()];
    let ghost start = tail@;
    assert(last@ =~= last_n(rest@, keep as int));
    let overflow: usize = (tail.len() + last.len()).saturating_sub(keep);
    let mut dropped: usize = 0;
    while dropped < overflow
        invariant
            dropped <= overflow <= start.len(),
            tail@ == start.skip(dropped as int),
        decreases overflow - dropped,
    {
        let _ = tail.pop_front();
        dropped = dropped + 1;
    }
    let ghost kept = tail@;
    let mut i: usize = 0;
    while i < last.len()
        invariant
            i <= last@.len(),
            tail@ == kept + last@.take(i as int),
        decreases last@.len() - i,
    {
        tail.push_back(last[i]);
        i = i + 1;
    }
    assert(tail@ =~= last_n(start + last@, keep as int));
}

/// One output stream: its first `max` bytes, a rolling window over its last
/// `TAIL_KEEP` bytes once the head is full, and a count of everything seen.
/// Memory stays bounded however much the command prints, and the end of the
/// output, where errors usually are, survives the cap.
pub struct Capture {
    head: Vec<u8>,
    tail: VecDeque<u8>,
    total: usize,
    max: usize,
    seen: Ghost<Seq<u8>>,
}

impl Capture {
    /// Every byte that was pushed, in order.
    pub closed spec fn stream(&self) -> Seq<u8> {
        self.seen@
    }

    /// How many bytes the head holds at most.
    pub closed spec fn limit(&self) -> nat {
        self.max as nat
    }

    #[verifier::type_invariant]
    spec fn holds(self) -> bool {
        &&& self.head@ == head_of(self.seen@, self.max as nat)
        &&& self.tail@ == tail_of(self.seen@, self.max as nat)
        &&& self.total == self.seen@.len()
    }

    pub fn new(max: usize, initial: usize) -> (r: Self)
        ensures
            r.stream() == Seq::<u8>::empty(),
            r.limit() == max,
    {
        let head: Vec<u8> = Vec::with_capacity(
            if max < initial {
                max
            } else {
                initial
            },
        );
        let tail: VecDeque<u8> = VecDeque::new();
        proof {
            assert(head@ =~= head_of(Seq::empty(), max as nat));
            assert(tail@ =~= tail_of(Seq::empty(), max as nat));
        }
        Self { head, tail, total: 0, max, seen: Ghost(Seq::empty()) }
    }

    /// Takes in the next bytes of the stream.
    pub fn push(&mut self, data: &[u8])
        requires
            old(self).stream().len() + data@.len() <= usize::MAX,
        ensures
            final(self).stream() == old(self).stream() + data@,
            final(self).limit() == old(self).limit(),
    {
        proof {
            use_type_invariant(&*self);
        }
        let max: usize = self.max;
        let ghost before = self.seen@;
        let ghost after = self.seen@ + data@;
        let mut taken = Capture::new(max, 0);
        core::mem::swap(self, &mut taken);
        let Capture { mut head, mut tail, total, max: _, seen: _ } = taken;
        let room: usize = max.saturating_sub(head.len());
        let split: usize = if data.len() < room {
            data.len()
        } else {
            room
        };
        let (to_head, rest) = data.split_at(split);
        head.extend_from_slice(to_head);
        slide(&mut tail, rest, max);
        proof {
            let beyond = before.skip(head_end(before, max as nat));
            assert(head@ =~= head_of(after, max as nat));
            assert(after.skip(head_end(after, max as nat)) =~= beyond + rest@);
            lemma_last_n_append(beyond, rest@, keep_of(max as nat));
        }
        *self = Capture { head, tail, total: total + data.len(), max, seen: Ghost(after) };
    }

    /// Whether the stream went on past the head.
    pub fn capped(&self) -> (r: bool)
        ensures
            r == (self.stream().len() > self.limit()),
    {
        proof {
            use_type_invariant(&*self);
        }
        self.total > self.head.len()
    }

    /// The start, the end, and the length of the whole stream.
    pub fn finish(self) -> (r: (String, String, usize))
        ensures
            r.0@ == text_of(head_of(self.stream(), self.limit())),
            r.1@ == window_text(tail_of(self.stream(), self.limit())),
            r.2 == self.stream().len(),
    {
        proof {
            use_type_invariant(&self);
        }
        let Capture { head, mut tail, total, max: _, seen: _ } = self;
        let ghost window = tail@;
        let mut bytes: Vec<u8> = Vec::new();
        while tail.len() > 0
            invariant
                bytes@ + tail@ == window,
            decreases tail@.len(),
        {
            let ghost left = tail@;
            match tail.pop_front() {
                Some(b) => {
                    bytes.push(b);
                    assert(bytes@ + tail@ =~= window);
                },
                None => {},
            }
        }
        assert(bytes@ =~= window);
        let skip: usize = orphan_count(bytes.as_slice());
        let all: &[u8] = bytes.as_slice();
        let rest: &[u8] = &all[skip..all.len()];
        assert(rest@ =~= window.skip(orphans(window, 3)));
        (to_text(head.as_slice()), to_text(rest), total)
    }
}

/// How many of the first three bytes continue a sequence that began earlier.
fn orphan_count(s: &[u8]) -> (r: usize)
    ensures
        r == orphans(s@, 3),
        r <= s@.len(),
{
    let mut n: usize = 0;
    assert(s@.skip(0) =~= s@);
    while n < 3 && n < s.len() && s[n] & 0xC0 == 0x80
        invariant
            n <= 3,
            n <= s@.len(),
            orphans(s@, 3) == n + orphans(s@.skip(n as int), (3 - n) as nat),
        decreases 3 - n,
    {
        assert(s@.skip(n as int).skip(1) =~= s@.skip(n + 1));
        n = n + 1;
    }
    n
}

// ---------------------------------------------------------------------------
// One command
// ---------------------------------------------------------------------------

/// What can happen while a command runs.
pub enum ExecEvent<'a> {
    /// The call was cancelled.
    Cancelled,
    /// The timer ran out.
    TimerFired,
    /// The channel gives nothing more.
    Ended,
    Data(&'a [u8]),
    ExtendedData { ext: u32, data: &'a [u8] },
    ExitStatus(u32),
    Close,
    Eof,
    /// A message that the call does not depend on.
    Ignored,
}

/// What to do next.
#[derive(Debug, Clone, Copy, PartialEq, Eq, Structural)]
pub enum ExecAction {
    /// Wait for the next event.
    Wait,
    /// Set the timer to the closing grace period, then wait.
    WaitForClose,
    /// Close the channel and stop.
    CloseAndStop,
    Stop,
}

/// The mathematical state of a running command.
#[verifier::ext_equal]
pub struct ExecView {
    pub stdout: Seq<u8>,
    pub stderr: Seq<u8>,
    pub exit_code: Option<i32>,
    pub timed_out: bool,
    pub interrupted: bool,
    pub close_seen: bool,
    pub closing: bool,
    pub max: nat,
}

/// What an event does to a running command.
pub open spec fn exec_step(s: ExecView, e: ExecEvent) -> (ExecView, ExecAction) {
    match e {
        ExecEvent::Cancelled => (ExecView { interrupted: true, ..s }, ExecAction::CloseAndStop),
        ExecEvent::TimerFired => if s.closing {
            (s, ExecAction::Stop)
        } else {
            (ExecView { timed_out: true, ..s }, ExecAction::CloseAndStop)
        },
        ExecEvent::Ended => (s, ExecAction::Stop),
        ExecEvent::Data(data) => (ExecView { stdout: s.stdout + data@, ..s }, ExecAction::Wait),
        ExecEvent::ExtendedData { ext, data } => if ext == 1 {
            (ExecView { stderr: s.stderr + data@, ..s }, ExecAction::Wait)
        } else {
            (ExecView { stdout: s.stdout + data@, ..s }, ExecAction::Wait)
        },
        ExecEvent::ExitStatus(status) => (
            ExecView { exit_code: Some(status as i32), ..s },
            if s.close_seen {
                ExecAction::Stop
            } else {
                ExecAction::Wait
            },
        ),
        ExecEvent::Close => (
            ExecView { close_seen: true, ..s },
            if s.exit_code is Some {
                ExecAction::Stop
            } else {
                ExecAction::Wait
            },
        ),
        // The channel still counts against the server's session limit until it
        // has sent `Close`, so the end of the output is not the end of the call.
        ExecEvent::Eof => if s.exit_code is Some && !s.closing {
            (ExecView { closing: true, ..s }, ExecAction::WaitForClose)
        } else {
            (s, ExecAction::Wait)
        },
        ExecEvent::Ignored => (s, ExecAction::Wait),
    }
}

/// How many bytes an event carries.
pub open spec fn event_len(e: ExecEvent) -> nat {
    match e {
        ExecEvent::Data(data) => data@.len(),
        ExecEvent::ExtendedData { ext, data } => data@.len(),
        _ => 0,
    }
}

/// The exit code that is reported: the remote one where it was delivered.
pub open spec fn reported_code(s: ExecView) -> i32 {
    match s.exit_code {
        Some(c) => c,
        None => if s.interrupted {
            130
        } else if s.timed_out {
            124
        } else {
            -1i32
        },
    }
}

/// The outcome of a command whose last state is `s`.
pub open spec fn outcome(s: ExecView, duration_ms: u128, r: ExecResult) -> bool {
    &&& r.stdout@ == text_of(head_of(s.stdout, s.max))
    &&& r.stdout_tail@ == window_text(tail_of(s.stdout, s.max))
    &&& r.stderr@ == text_of(head_of(s.stderr, s.max))
    &&& r.stderr_tail@ == window_text(tail_of(s.stderr, s.max))
    &&& r.exit_code == reported_code(s)
    &&& r.duration_ms == duration_ms
    &&& r.stdout_bytes == s.stdout.len()
    &&& r.stderr_bytes == s.stderr.len()
    &&& r.timed_out == s.timed_out
    &&& r.capture_capped == (s.stdout.len() > s.max || s.stderr.len() > s.max)
    &&& r.connection_lost == (s.close_seen && s.exit_code is None)
    &&& r.interrupted == s.interrupted
}

/// A command that is running.
pub struct ExecRun {
    stdout: Capture,
    stderr: Capture,
    exit_code: Option<i32>,
    timed_out: bool,
    interrupted: bool,
    close_seen: bool,
    /// Set once the command has exited and its output ended: then the call only
    /// waits for the server's `Close`, bounded by `CLOSE_GRACE_MS`.
    closing: bool,
}

impl View for ExecRun {
    type V = ExecView;

    closed spec fn view(&self) -> ExecView {
        ExecView {
            stdout: self.stdout.stream(),
            stderr: self.stderr.stream(),
            exit_code: self.exit_code,
            timed_out: self.timed_out,
            interrupted: self.interrupted,
            close_seen: self.close_seen,
            closing: self.closing,
            max: self.stdout.limit(),
        }
    }
}

impl ExecRun {
    #[verifier::type_invariant]
    spec fn same_limit(self) -> bool {
        self.stdout.limit() == self.stderr.limit()
    }

    pub fn new(max_capture: usize) -> (r: Self)
        ensures
            r@ == (ExecView {
                stdout: Seq::empty(),
                stderr: Seq::empty(),
                exit_code: None,
                timed_out: false,
                interrupted: false,
                close_seen: false,
                closing: false,
                max: max_capture as nat,
            }),
    {
        ExecRun {
            stdout: Capture::new(max_capture, 16384),
            stderr: Capture::new(max_capture, 2048),
            exit_code: None,
            timed_out: false,
            interrupted: false,
            close_seen: false,
            closing: false,
        }
    }

    /// Takes in an event and says what to do next.
    pub fn step(self, event: ExecEvent) -> (r: (Self, ExecAction))
        requires
            self@.stdout.len() + event_len(event) <= usize::MAX,
            self@.stderr.len() + event_len(event) <= usize::MAX,
        ensures
            (r.0@, r.1) == exec_step(self@, event),
    {
        proof {
            use_type_invariant(&self);
        }
        let ghost before = self@;
        let ExecRun {
            mut stdout,
            mut stderr,
            mut exit_code,
            mut timed_out,
            mut interrupted,
            mut close_seen,
            mut closing,
        } = self;
        let action = match event {
            ExecEvent::Cancelled => {
                interrupted = true;
                ExecAction::CloseAndStop
            },
            ExecEvent::TimerFired => if closing {
                ExecAction::Stop
            } else {
                timed_out = true;
                ExecAction::CloseAndStop
            },
            ExecEvent::Ended => ExecAction::Stop,
            ExecEvent::Data(data) => {
                stdout.push(data);
                ExecAction::Wait
            },
            ExecEvent::ExtendedData { ext, data } => {
                if ext == 1 {
                    stderr.push(data);
                } else {
                    stdout.push(data);
                }
                ExecAction::Wait
            },
            ExecEvent::ExitStatus(status) => {
                exit_code = Some(#[verifier::truncate] (status as i32));
                if close_seen {
                    ExecAction::Stop
                } else {
                    ExecAction::Wait
                }
            },
            ExecEvent::Close => {
                close_seen = true;
                if exit_code.is_some() {
                    ExecAction::Stop
                } else {
                    ExecAction::Wait
                }
            },
            ExecEvent::Eof => if exit_code.is_some() && !closing {
                closing = true;
                ExecAction::WaitForClose
            } else {
                ExecAction::Wait
            },
            ExecEvent::Ignored => ExecAction::Wait,
        };
        let next = ExecRun {
            stdout,
            stderr,
            exit_code,
            timed_out,
            interrupted,
            close_seen,
            closing,
        };
        assert(next@ =~= exec_step(before, event).0);
        (next, action)
    }

    /// The outcome, once there is nothing more to wait for.
    pub fn finish(self, duration_ms: u128) -> (r: ExecResult)
        ensures
            outcome(self@, duration_ms, r),
    {
        proof {
            use_type_invariant(&self);
        }
        let ExecRun { stdout, stderr, exit_code, timed_out, interrupted, close_seen, closing: _ } =
            self;
        let connection_lost = close_seen && exit_code.is_none();
        let capture_capped = stdout.capped() || stderr.capped();
        let final_exit: i32 = match exit_code {
            Some(c) => c,
            None => if interrupted {
                130  // 128 + SIGINT
            } else if timed_out {
                124
            } else {
                -1
            },
        };
        let (stdout, stdout_tail, stdout_bytes) = stdout.finish();
        let (stderr, stderr_tail, stderr_bytes) = stderr.finish();
        ExecResult {
            stdout,
            stdout_tail,
            stderr,
            stderr_tail,
            exit_code: final_exit,
            duration_ms,
            stdout_bytes,
            stderr_bytes,
            timed_out,
            capture_capped,
            connection_lost,
            interrupted,
        }
    }
}

/// The channel slot is kept until the server's `Close`: the end of the output
/// never ends a call, and an exit status and a `Close` end it in either order.
pub proof fn law_slot_kept_until_close(s: ExecView, status: u32)
    ensures
        exec_step(s, ExecEvent::Eof).1 != ExecAction::Stop,
        exec_step(s, ExecEvent::Eof).1 != ExecAction::CloseAndStop,
        exec_step(s, ExecEvent::ExitStatus(status)).1 == ExecAction::Stop <==> s.close_seen,
        exec_step(s, ExecEvent::Close).1 == ExecAction::Stop <==> s.exit_code is Some,
        exec_step(exec_step(s, ExecEvent::ExitStatus(status)).0, ExecEvent::Close).1
            == ExecAction::Stop,
        exec_step(exec_step(s, ExecEvent::Close).0, ExecEvent::ExitStatus(status)).1
            == ExecAction::Stop,
{
}

/// A status that the server delivered is the one reported, whatever came after
/// it: no later event but another status changes it.
pub proof fn law_delivered_status_stands(s: ExecView, e: ExecEvent)
    requires
        s.exit_code is Some,
        e !is ExitStatus,
    ensures
        reported_code(exec_step(s, e).0) == reported_code(s),
        reported_code(s) == s.exit_code->0,
{
}

/// Whether a call on a channel that waited in the pool is made again on a fresh
/// one: only where nothing came back. Any data or exit status means that the
/// command may have run, and running it twice is not safe.
pub open spec fn stale(from_pool: bool, first: Result<ExecResult>) -> bool {
    from_pool && match first {
        Ok(r) => r.connection_lost && r.stdout_bytes == 0 && r.stderr_bytes == 0 && !r.timed_out
            && !r.interrupted,
        Err(_) => true,
    }
}

pub fn should_retry(from_pool: bool, first: &Result<ExecResult>) -> (r: bool)
    ensures
        r == stale(from_pool, *first),
{
    match first {
        Ok(r) => from_pool && r.connection_lost && r.stdout_bytes == 0 && r.stderr_bytes == 0
            && !r.timed_out && !r.interrupted,
        Err(_) => from_pool,
    }
}

/// As much is kept as may be: the first `max` bytes, and behind them the last
/// ones, as many as `max` but no more than 65536.
pub proof fn law_capture_keeps_what_it_may(stream: Seq<u8>, max: nat)
    ensures
        stream.len() <= max ==> head_of(stream, max).len() == stream.len(),
        stream.len() > max ==> head_of(stream, max).len() == max,
        max > 0 && stream.len() > 2 * max && max <= 65536 ==> tail_of(stream, max).len() == max,
        stream.len() > max + 65536 && max > 65536 ==> tail_of(stream, max).len() == 65536,
        stream.len() > max && stream.len() <= 2 * max && stream.len() - max <= 65536 ==> tail_of(
            stream,
            max,
        ).len() == stream.len() - max,
{
}

proof fn lemma_continues(b: u8)
    ensures
        continues(b) == vstd::utf8::is_continuation_byte(b),
{
    vstd::utf8::utf8_byte_ranges_bitwise(b);
}

proof fn lemma_orphans(s: Seq<u8>, n: nat)
    ensures
        0 <= orphans(s, n) <= n,
        orphans(s, n) <= s.len(),
        forall|i: int| 0 <= i < orphans(s, n) ==> continues(#[trigger] s[i]),
        orphans(s, n) < n && orphans(s, n) < s.len() ==> !continues(s[orphans(s, n)]),
    decreases n,
{
    if !(n == 0 || s.len() == 0 || !continues(s[0])) {
        let t = s.skip(1);
        lemma_orphans(t, (n - 1) as nat);
        let k = orphans(t, (n - 1) as nat);
        assert forall|i: int| 0 <= i < k + 1 implies continues(#[trigger] s[i]) by {
            if i > 0 {
                assert(s[i] == t[i - 1]);
            }
        }
        if k < t.len() {
            assert(t[k] == s[k + 1]);
        }
    }
}

/// The end of a text comes back from the first whole character on: of a window
/// that begins inside a character, at most three bytes are left out.
pub proof fn law_window_begins_with_a_character(stream: Seq<u8>, from: int)
    requires
        vstd::utf8::valid_utf8(stream),
        0 <= from <= stream.len(),
    ensures
        exists|at: int|
            from <= at <= from + 3 && at <= stream.len() && vstd::utf8::is_char_boundary(stream, at)
                && (forall|i: int| from <= i < at ==> !vstd::utf8::is_char_boundary(stream, i))
                && window_text(stream.skip(from)) == #[trigger] vstd::utf8::decode_utf8(
                stream.skip(at),
            ),
{
    let w = stream.skip(from);
    let k = orphans(w, 3);
    let at = from + k;
    lemma_orphans(w, 3);
    vstd::utf8::is_char_boundary_start_end_of_seq(stream);
    assert forall|i: int| from <= i < at implies !vstd::utf8::is_char_boundary(stream, i) by {
        assert(w[i - from] == stream[i]);
        lemma_continues(stream[i]);
        vstd::utf8::is_char_boundary_iff_not_is_continuation_byte(stream, i);
    }
    if at < stream.len() {
        assert(w[k] == stream[at]);
        let near = crate::output::truncate::lemma_boundary_near(stream, from);
        if k == 3 {
            assert(near.1 == at);
        } else {
            lemma_continues(stream[at]);
            vstd::utf8::is_char_boundary_iff_not_is_continuation_byte(stream, at);
        }
    }
    assert(vstd::utf8::is_char_boundary(stream, at));
    assert(w.skip(k) =~= stream.skip(at));
    vstd::utf8::valid_utf8_split(stream, at);
    assert(stream.subrange(at, stream.len() as int) =~= stream.skip(at));
    assert(window_text(w) == vstd::utf8::decode_utf8(stream.skip(at)));
}

/// What a command prints is kept in the order in which it came, each stream on
/// its own: standard error is the extended data of kind one, everything else is
/// standard output, and no other event touches either.
pub proof fn law_output_is_kept_in_order(s: ExecView, e: ExecEvent)
    ensures
        e matches ExecEvent::Data(d) ==> exec_step(s, e).0.stdout == s.stdout + d@
            && exec_step(s, e).0.stderr == s.stderr,
        e matches ExecEvent::ExtendedData { ext, data } ==> if ext == 1 {
            exec_step(s, e).0.stdout == s.stdout && exec_step(s, e).0.stderr == s.stderr + data@
        } else {
            exec_step(s, e).0.stdout == s.stdout + data@ && exec_step(s, e).0.stderr == s.stderr
        },
        !(e is Data) && !(e is ExtendedData) ==> exec_step(s, e).0.stdout == s.stdout && exec_step(
            s,
            e,
        ).0.stderr == s.stderr,
{
}

/// Why a call ended without a status is told apart: it was interrupted, it ran
/// out of time, or the connection went away. A call that is over says so, and
/// one that is not is neither.
pub proof fn law_end_without_status_is_told(s: ExecView)
    requires
        s.exit_code is None,
        !s.interrupted,
        !s.timed_out,
        !s.closing,
    ensures
        reported_code(exec_step(s, ExecEvent::Cancelled).0) == 130,
        exec_step(s, ExecEvent::Cancelled).0.interrupted,
        exec_step(s, ExecEvent::Cancelled).1 == ExecAction::CloseAndStop,
        reported_code(exec_step(s, ExecEvent::TimerFired).0) == 124,
        exec_step(s, ExecEvent::TimerFired).0.timed_out,
        exec_step(s, ExecEvent::TimerFired).1 == ExecAction::CloseAndStop,
        reported_code(exec_step(s, ExecEvent::Ended).0) == -1,
        exec_step(s, ExecEvent::Ended).1 == ExecAction::Stop,
        !exec_step(s, ExecEvent::Ended).0.timed_out && !exec_step(
            s,
            ExecEvent::Ended,
        ).0.interrupted,
{
}

/// A call that ran out of time only while it waited for the server to close the
/// channel did not time out.
pub proof fn law_closing_grace_is_no_timeout(s: ExecView)
    requires
        s.closing,
    ensures
        exec_step(s, ExecEvent::TimerFired) == (s, ExecAction::Stop),
{
}

/// A command is never run twice: where anything came back, or the call was cut
/// short by time or by the caller, it is not made again.
pub proof fn law_no_second_run_after_output(from_pool: bool, r: ExecResult)
    requires
        r.stdout_bytes > 0 || r.stderr_bytes > 0 || r.timed_out || r.interrupted
            || !r.connection_lost || !from_pool,
    ensures
        !stale(from_pool, Ok(r)),
{
}

/// The closing grace period begins once at most, and only once the exit status is
/// known; what has begun or been seen is never taken back.
pub proof fn law_grace_begins_once(s: ExecView, e: ExecEvent)
    ensures
        exec_step(s, e).1 is WaitForClose ==> s.exit_code is Some && !s.closing && exec_step(
            s,
            e,
        ).0.closing,
        exec_step(s, e).0.closing && !s.closing ==> exec_step(s, e).1 is WaitForClose,
        s.closing ==> exec_step(s, e).0.closing,
        s.close_seen ==> exec_step(s, e).0.close_seen,
        s.exit_code is Some ==> exec_step(s, e).0.exit_code is Some,
        s.timed_out ==> exec_step(s, e).0.timed_out,
        s.interrupted ==> exec_step(s, e).0.interrupted,
        e is Eof && s.exit_code is Some && !s.closing ==> exec_step(s, e).1 is WaitForClose,
{
}

/// A call ends by itself once both the exit status and the end of the channel
/// were seen, in either order, and not before.
pub proof fn law_call_ends_with_status_and_close(s: ExecView, status: u32)
    requires
        s.exit_code is None,
        !s.close_seen,
    ensures
        ({
            let (a, x) = exec_step(s, ExecEvent::ExitStatus(status));
            let (b, y) = exec_step(a, ExecEvent::Close);
            let (c, z) = exec_step(s, ExecEvent::Close);
            let (d, w) = exec_step(c, ExecEvent::ExitStatus(status));
            &&& x is Wait && y is Stop
            &&& z is Wait && w is Stop
            &&& b.exit_code == Some(status as i32)
            &&& d == b
        }),
{
}

} // verus!

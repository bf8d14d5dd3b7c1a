//! Command execution tools: `exec`, `exec_batch`, `sh`, `interrupt`.

use std::sync::Arc;
use vstd::prelude::*;
use vstd::string::*;

use crate::audit::{blank, AuditRecord, RecordView};
use crate::config::HumanDuration;
use crate::confirm::{
    byte_views, is_fresh, is_queued, is_remembered, key_for, key_text, known_answer,
    lemma_approval_comes_from, lemma_remembered, with_approval, Answer, ApprovalView, Approvals,
    Ask, Confirm, KeyedReply,
};
use crate::errors::{Result, SshError};
use crate::guards::{checked, CheckView, CompiledGuards, CompiledView, GuardCheck};
use crate::output::toon::{
    block_text, field_text, hint_text, row_views, scalar, str_views, string_views, table_text, Toon,
};
use crate::output::truncate::{
    displayed, fits, head_tail, law_what_fits_is_shown_whole, truncate_with_hint,
};
use crate::server::{after_lookup, lemma_lookup_keeps};
use crate::session::exec::ExecResult;
use crate::text::{
    bytes_of, chars_of, decimal, has_part, has_prefix, holds, joined2, joined3, lemma_has_part,
    lemma_views_push, push_decimal, push_decimal_wide, push_signed, same, signed_decimal, trim,
    trimmed, views,
};
use crate::tools::gate::{Clearance, ClearedCommand};
use crate::tools::{cmd_too_large, validate_cmd, MAX_BATCH_CMDS, MAX_CMD_BYTES};

verus! {

// ---------------------------------------------------------------------------
// exec
// ---------------------------------------------------------------------------

/// A flag that is written only where it is set.
pub open spec fn flag_text(key: Seq<char>, set: bool) -> Seq<char> {
    if set {
        field_text(0, key, "true"@)
    } else {
        Seq::empty()
    }
}

/// How many bytes of stderr are shown at most.
pub open spec fn stderr_budget(truncate: nat) -> int {
    if truncate < 2048 {
        truncate as int
    } else {
        2048
    }
}

/// The sizes of a stream that is not shown whole.
pub open spec fn sizes_text(
    cut: bool,
    key: Seq<char>,
    total_key: Seq<char>,
    bytes: usize,
) -> Seq<char> {
    if cut {
        field_text(0, key, decimal(bytes as nat)) + field_text(0, total_key, decimal(bytes as nat))
    } else {
        Seq::empty()
    }
}

/// The answer of `exec`. Output keeps its start and its end, and the marker
/// between them counts every byte the command printed.
pub open spec fn exec_text(r: ExecResult, truncate: nat) -> Seq<char> {
    let head = bytes_of(r.stdout@);
    let tail = bytes_of(r.stdout_tail@);
    let ehead = bytes_of(r.stderr@);
    let etail = bytes_of(r.stderr_tail@);
    let budget = stderr_budget(truncate);
    field_text(0, "exit_code"@, signed_decimal(r.exit_code as int)) + field_text(
        0,
        "duration_ms"@,
        decimal(r.duration_ms as u64 as nat),
    ) + flag_text("timed_out"@, r.timed_out) + flag_text("interrupted"@, r.interrupted) + flag_text(
        "capture_capped"@,
        r.capture_capped,
    ) + flag_text("connection_lost"@, r.connection_lost) + sizes_text(
        !fits(head, tail, r.stdout_bytes as int, truncate as int),
        "stdout_bytes"@,
        "stdout_total_bytes"@,
        r.stdout_bytes,
    ) + sizes_text(
        !fits(ehead, etail, r.stderr_bytes as int, budget),
        "stderr_bytes"@,
        "stderr_total_bytes"@,
        r.stderr_bytes,
    ) + block_text(0, "stdout"@, displayed(head, tail, r.stdout_bytes as int, truncate as int)) + (
    if r.stderr@.len() > 0 {
        block_text(0, "stderr"@, displayed(ehead, etail, r.stderr_bytes as int, budget))
    } else {
        Seq::empty()
    }) + (if r.exit_code != 0 && !r.timed_out {
        hint_text(0, "non-zero exit. inspect stderr."@)
    } else {
        Seq::empty()
    })
}

fn push_flag(t: &mut Toon, key: &str, set: bool)
    requires
        old(t).depth() == 0,
    ensures
        final(t).depth() == 0,
        final(t).text() == old(t).text() + flag_text(key@, set),
{
    if set {
        let _ = t.field(key, true);
    } else {
        assert(t.text() + Seq::<char>::empty() =~= t.text());
    }
}

fn push_sizes(t: &mut Toon, cut: bool, key: &str, total_key: &str, bytes: usize)
    requires
        old(t).depth() == 0,
    ensures
        final(t).depth() == 0,
        final(t).text() == old(t).text() + sizes_text(cut, key@, total_key@, bytes),
{
    let ghost before = t.text();
    if cut {
        let _ = t.field(key, bytes);
        let _ = t.field(total_key, bytes);
        assert(t.text() =~= before + sizes_text(cut, key@, total_key@, bytes));
    } else {
        assert(before + Seq::<char>::empty() =~= before);
    }
}

/// The answer of `exec`.
pub fn format_exec(r: &ExecResult, truncate: usize) -> (s: String)
    requires
        bytes_of(r.stdout@).len() + bytes_of(r.stdout_tail@).len() <= usize::MAX,
        bytes_of(r.stderr@).len() + bytes_of(r.stderr_tail@).len() <= usize::MAX,
    ensures
        s@ == exec_text(*r, truncate as nat),
{
    let mut t = Toon::new();
    let _ = t.field("exit_code", r.exit_code as i64);
    let _ = t.field("duration_ms", #[verifier::truncate] (r.duration_ms as u64));
    assert(t.text() =~= field_text(0, "exit_code"@, signed_decimal(r.exit_code as int))
        + field_text(0, "duration_ms"@, decimal(r.duration_ms as u64 as nat)));
    push_flag(&mut t, "timed_out", r.timed_out);
    push_flag(&mut t, "interrupted", r.interrupted);
    push_flag(&mut t, "capture_capped", r.capture_capped);
    push_flag(&mut t, "connection_lost", r.connection_lost);
    let (out, out_full) = head_tail(
        r.stdout.as_str(),
        r.stdout_tail.as_str(),
        r.stdout_bytes,
        truncate,
    );
    let budget: usize = if truncate < 2048 {
        truncate
    } else {
        2048
    };
    let (err, err_full) = head_tail(
        r.stderr.as_str(),
        r.stderr_tail.as_str(),
        r.stderr_bytes,
        budget,
    );
    push_sizes(
        &mut t,
        out_full.is_some(),
        "stdout_bytes",
        "stdout_total_bytes",
        r.stdout_bytes,
    );
    push_sizes(
        &mut t,
        err_full.is_some(),
        "stderr_bytes",
        "stderr_total_bytes",
        r.stderr_bytes,
    );
    let out = shown(out);
    let _ = t.block("stdout", out.as_str());
    let ghost before = t.text();
    if !r.stderr.as_str().is_empty() {
        let err = shown(err);
        let _ = t.block("stderr", err.as_str());
    } else {
        assert(before + Seq::<char>::empty() =~= before);
    }
    let ghost before = t.text();
    if r.exit_code != 0 && !r.timed_out {
        let _ = t.hint("non-zero exit. inspect stderr.");
    } else {
        assert(before + Seq::<char>::empty() =~= before);
    }
    t.into_string()
}

/// The text of an output that may be borrowed.
pub(crate) fn shown(s: std::borrow::Cow<'_, str>) -> (r: String)
    ensures
        r@ == s@,
{
    match s {
        std::borrow::Cow::Borrowed(b) => b.to_owned(),
        std::borrow::Cow::Owned(o) => o,
    }
}

// ---------------------------------------------------------------------------
// exec_batch: arguments
// ---------------------------------------------------------------------------

/// What is wrong with the commands of a batch.
pub open spec fn batch_fault(cmds: Seq<Seq<char>>) -> Option<Seq<char>> {
    if cmds.len() == 0 {
        Some("cmds must contain at least one command"@)
    } else if cmds.len() > MAX_BATCH_CMDS {
        Some(
            "too many commands: "@ + decimal(cmds.len()) + " (max "@ + decimal(
                MAX_BATCH_CMDS as nat,
            ) + ")"@,
        )
    } else {
        first_oversize(cmds)
    }
}

/// What the first command that is too large is told.
pub open spec fn first_oversize(cmds: Seq<Seq<char>>) -> Option<Seq<char>>
    decreases cmds.len(),
{
    if cmds.len() == 0 {
        None
    } else if bytes_of(cmds[0]).len() > MAX_CMD_BYTES {
        Some(cmd_too_large(bytes_of(cmds[0]).len()))
    } else {
        first_oversize(cmds.skip(1))
    }
}

/// Refuses a batch that is empty, too long, or holds too large a command.
pub fn validate_batch(cmds: &Vec<String>) -> (r: Result<()>)
    ensures
        match r {
            Ok(_) => batch_fault(views(cmds@)) is None,
            Err(e) => e is Config && batch_fault(views(cmds@)) == Some(e->Config_0@),
        },
{
    if cmds.len() == 0 {
        return Err(SshError::Config("cmds must contain at least one command".to_owned()));
    }
    if cmds.len() > MAX_BATCH_CMDS {
        let mut m = "too many commands: ".to_owned();
        push_decimal(&mut m, cmds.len() as u64);
        m.push_str(" (max ");
        push_decimal(&mut m, MAX_BATCH_CMDS as u64);
        m.push_str(")");
        return Err(SshError::Config(m));
    }
    let ghost all = views(cmds@);
    assert(all.skip(0) =~= all);
    let mut i: usize = 0;
    while i < cmds.len()
        invariant
            i <= cmds@.len(),
            all == views(cmds@),
            batch_fault(all) == first_oversize(all.skip(i as int)),
        decreases cmds@.len() - i,
    {
        proof {
            assert(all.skip(i as int)[0] == cmds@[i as int]@);
            assert(all.skip(i as int).skip(1) =~= all.skip(i + 1));
        }
        if let Err(e) = validate_cmd(cmds[i].as_str()) {
            return Err(e);
        }
        i = i + 1;
    }
    Ok(())
}

/// How many commands of a batch run at once: one channel is left for the
/// session's SFTP subsystem and PTY.
pub fn batch_fanout(max_channels: usize) -> (r: usize)
    ensures
        r == (if max_channels <= 2 {
            1
        } else {
            (max_channels - 1) as usize
        }),
        r >= 1,
{
    if max_channels <= 2 {
        1
    } else {
        max_channels - 1
    }
}

// ---------------------------------------------------------------------------
// exec_batch: guards
// ---------------------------------------------------------------------------

/// Those commands that the same confirm pattern would stop, in order.
pub open spec fn covered_of(g: CompiledView, cmds: Seq<Seq<char>>, pattern: Seq<char>) -> Seq<
    Seq<char>,
>
    decreases cmds.len(),
{
    if cmds.len() == 0 {
        Seq::empty()
    } else {
        let before = covered_of(g, cmds.drop_last(), pattern);
        if checked(g, cmds.last()) == CheckView::Confirm(pattern) {
            before.push(cmds.last())
        } else {
            before
        }
    }
}

/// Every command in the batch that the same confirm pattern would stop, in
/// submission order. This is the set one approval waives, so it is also the
/// set the prompt has to show.
pub fn covered_by_pattern(guards: &CompiledGuards, cmds: &Vec<String>, pattern_name: &str) -> (r:
    Vec<String>)
    ensures
        views(r@) == covered_of(guards@, views(cmds@), pattern_name@),
{
    let ghost all = views(cmds@);
    let mut out: Vec<String> = Vec::new();
    let mut i: usize = 0;
    assert(views(out@) =~= covered_of(guards@, all.take(0), pattern_name@));
    while i < cmds.len()
        invariant
            i <= cmds@.len(),
            all == views(cmds@),
            views(out@) == covered_of(guards@, all.take(i as int), pattern_name@),
        decreases cmds@.len() - i,
    {
        proof {
            assert(all.take(i + 1).drop_last() =~= all.take(i as int));
            assert(all.take(i + 1).last() == cmds@[i as int]@);
            lemma_views_push(out@, cmds@[i as int]);
        }
        let stopped = match guards.check(cmds[i].as_str()) {
            GuardCheck::Confirm { pattern_name: p } => same(p.as_str(), pattern_name),
            _ => false,
        };
        if stopped {
            out.push(cmds[i].clone());
        }
        i = i + 1;
    }
    assert(all.take(i as int) =~= all);
    out
}

/// The covered commands as a list, one to a line.
pub open spec fn listed(cmds: Seq<Seq<char>>) -> Seq<char>
    decreases cmds.len(),
{
    if cmds.len() == 0 {
        Seq::empty()
    } else if cmds.len() == 1 {
        "  - "@ + cmds[0]
    } else {
        listed(cmds.drop_last()) + "\n"@ + ("  - "@ + cmds.last())
    }
}

/// What the user is asked about the commands of a batch.
pub open spec fn batch_prompt(host: Seq<char>, pattern: Seq<char>, covered: Seq<Seq<char>>) -> Seq<
    char,
> {
    if covered.len() == 1 {
        "fast-mcp-ssh wants to run a sensitive command on '"@ + host + "' (matches '"@ + pattern
            + "'):\n\n"@ + covered[0] + "\n\nReply 'yes' to proceed."@
    } else {
        "fast-mcp-ssh wants to run "@ + decimal(covered.len()) + " sensitive commands on '"@ + host
            + "' (all match '"@ + pattern + "'):\n\n"@ + listed(covered)
            + "\n\nReplying 'yes' approves all "@ + decimal(covered.len())
            + " of them. Reply 'yes' to proceed."@
    }
}

fn list_of(cmds: &Vec<String>) -> (r: String)
    ensures
        r@ == listed(views(cmds@)),
{
    let ghost all = views(cmds@);
    let mut out = String::new();
    let mut i: usize = 0;
    assert(out@ =~= listed(all.take(0)));
    while i < cmds.len()
        invariant
            i <= cmds@.len(),
            all == views(cmds@),
            out@ == listed(all.take(i as int)),
        decreases cmds@.len() - i,
    {
        let ghost before = out@;
        let item = joined2("  - ", cmds[i].as_str());
        if i > 0 {
            out.push_str("\n");
        }
        out.push_str(item.as_str());
        proof {
            assert(all.take(i + 1).drop_last() =~= all.take(i as int));
            assert(all.take(i + 1).last() == cmds@[i as int]@);
            if i == 0 {
                assert(out@ =~= item@);
            }
        }
        i = i + 1;
    }
    assert(all.take(i as int) =~= all);
    out
}

/// Elicitation text for a batch confirmation. Lists every command covered so
/// the operator approves what they can actually see; a single-command batch
/// reads like the single-command prompt.
pub fn confirm_batch_prompt(host: &str, pattern_name: &str, covered: &Vec<String>) -> (r: String)
    ensures
        r@ == batch_prompt(host@, pattern_name@, views(covered@)),
{
    if covered.len() == 1 {
        let mut s = joined3(
            "fast-mcp-ssh wants to run a sensitive command on '",
            host,
            "' (matches '",
        );
        s.push_str(pattern_name);
        s.push_str("'):\n\n");
        s.push_str(covered[0].as_str());
        s.push_str("\n\nReply 'yes' to proceed.");
        return s;
    }
    let mut s = "fast-mcp-ssh wants to run ".to_owned();
    push_decimal(&mut s, covered.len() as u64);
    s.push_str(" sensitive commands on '");
    s.push_str(host);
    s.push_str("' (all match '");
    s.push_str(pattern_name);
    s.push_str("'):\n\n");
    let list = list_of(covered);
    s.push_str(list.as_str());
    s.push_str("\n\nReplying 'yes' approves all ");
    push_decimal(&mut s, covered.len() as u64);
    s.push_str(" of them. Reply 'yes' to proceed.");
    s
}

/// A prompt for several commands shows each of them: the approval covers what
/// the user could read.
pub proof fn law_prompt_shows_every_command(cmds: Seq<Seq<char>>, i: int)
    requires
        0 <= i < cmds.len(),
    ensures
        exists|a: Seq<char>, b: Seq<char>| listed(cmds) == #[trigger] (a + cmds[i] + b),
    decreases cmds.len(),
{
    if cmds.len() == 1 {
        let a = "  - "@;
        let b = Seq::<char>::empty();
        assert(listed(cmds) =~= a + cmds[i] + b);
    } else if i == cmds.len() - 1 {
        let a = listed(cmds.drop_last()) + "\n"@ + "  - "@;
        let b = Seq::<char>::empty();
        assert(listed(cmds) =~= a + cmds[i] + b);
    } else {
        let rest = cmds.drop_last();
        law_prompt_shows_every_command(rest, i);
        let (a, b) = choose|a: Seq<char>, b: Seq<char>| listed(rest) == #[trigger] (a + rest[i] + b);
        let c = b + "\n"@ + ("  - "@ + cmds.last());
        assert(listed(cmds) =~= a + cmds[i] + c);
    }
}

/// The approvals once each of `cmds` was approved.
pub open spec fn with_approvals(
    s: Seq<ApprovalView>,
    host: Seq<char>,
    cmds: Seq<Seq<char>>,
    now_ms: u64,
    ttl: HumanDuration,
) -> Seq<ApprovalView>
    decreases cmds.len(),
{
    if cmds.len() == 0 {
        s
    } else {
        with_approval(
            with_approvals(s, host, cmds.drop_last(), now_ms, ttl),
            host,
            cmds.last(),
            now_ms,
            ttl,
        )
    }
}

/// What the guards say of one command of a batch.
#[derive(Debug)]
pub enum BatchVerdict {
    Clear,
    /// A question about it waits for the client.
    Waiting,
    /// The user has to be asked now. What the answer means, [`settle_batch`]
    /// says.
    Elicit { pattern_name: String, covered: Vec<String>, prompt: String },
    Refused(SshError),
}

/// The key of the question about commands of a batch.
pub open spec fn batch_key(host: Seq<char>, prompt: Seq<char>) -> Seq<char> {
    key_text(seq![bytes_of(host), bytes_of(prompt)])
}

/// What a known answer means for a command of a batch.
pub open spec fn batch_settled(v: BatchVerdict, answer: Answer) -> bool {
    match answer {
        Answer::Approved => v is Clear,
        Answer::Denied => v is Refused && v->Refused_0 is ConfirmationDenied,
        Answer::Deferred => v is Waiting,
    }
}

/// What an answer means for a command of a batch. Each covered command is
/// remembered on its own, so the approval the user actually read is the approval
/// that gets replayed.
pub fn settle_batch(
    answer: Answer,
    approvals: &mut Approvals,
    confirmed: &mut Vec<String>,
    pattern_name: &str,
    covered: &Vec<String>,
    host: &str,
    now_ms: u64,
    ttl: HumanDuration,
) -> (r: BatchVerdict)
    ensures
        batch_settled(r, answer),
        final(approvals)@ == (if answer == Answer::Approved {
            with_approvals(old(approvals)@, host@, views(covered@), now_ms, ttl)
        } else {
            old(approvals)@
        }),
        views(final(confirmed)@) == (if answer == Answer::Approved {
            views(old(confirmed)@).push(pattern_name@)
        } else {
            views(old(confirmed)@)
        }),
{
    match answer {
        Answer::Approved => {
            let ghost all = views(covered@);
            let ghost before = approvals@;
            let mut i: usize = 0;
            assert(all.take(0) =~= Seq::empty());
            while i < covered.len()
                invariant
                    i <= covered@.len(),
                    all == views(covered@),
                    approvals@ == with_approvals(before, host@, all.take(i as int), now_ms, ttl),
                decreases covered@.len() - i,
            {
                approvals.remember(host, covered[i].as_str(), now_ms, ttl);
                proof {
                    assert(all.take(i + 1).drop_last() =~= all.take(i as int));
                    assert(all.take(i + 1).last() == covered@[i as int]@);
                }
                i = i + 1;
            }
            assert(all.take(i as int) =~= all);
            let name = pattern_name.to_owned();
            proof {
                lemma_views_push(confirmed@, name);
            }
            confirmed.push(name);
            BatchVerdict::Clear
        },
        Answer::Denied => BatchVerdict::Refused(SshError::ConfirmationDenied),
        Answer::Deferred => BatchVerdict::Waiting,
    }
}

/// The guard of one command of a batch. `confirmed` holds the patterns that the
/// user approved for this batch: a batch of twenty `systemctl stop` does not
/// become twenty prompts, and the one prompt lists every command the approval
/// covers.
pub fn guard_batch_command(
    guards: &CompiledGuards,
    approvals: &mut Approvals,
    confirm: &mut Confirm,
    confirmed: &mut Vec<String>,
    host: &str,
    cmds: &Vec<String>,
    i: usize,
    now_ms: u64,
    ttl: HumanDuration,
) -> (r: BatchVerdict)
    requires
        i < cmds@.len(),
    ensures
        final(confirm).is_multi_round() == old(confirm).is_multi_round(),
        final(confirm).replies() == old(confirm).replies(),
        ({
            let cmd = cmds@[i as int]@;
            match checked(guards@, cmd) {
                CheckView::Allow => {
                    &&& r is Clear
                    &&& final(approvals)@ == old(approvals)@
                    &&& views(final(confirmed)@) == views(old(confirmed)@)
                    &&& final(confirm).queue() == old(confirm).queue()
                },
                CheckView::Deny(name, pattern) => {
                    &&& r is Refused && r->Refused_0 is BlockedByGuard
                    &&& r->Refused_0->name@ == name && r->Refused_0->pattern@ == pattern
                    &&& final(approvals)@ == old(approvals)@
                    &&& views(final(confirmed)@) == views(old(confirmed)@)
                    &&& final(confirm).queue() == old(confirm).queue()
                },
                CheckView::Confirm(name) => {
                    let looked = after_lookup(old(approvals)@, host@, cmd, now_ms, ttl);
                    let covered = covered_of(guards@, views(cmds@), name);
                    let prompt = batch_prompt(host@, name, covered);
                    let key = batch_key(host@, prompt);
                    if views(old(confirmed)@).contains(name) {
                        &&& r is Clear
                        &&& final(approvals)@ == old(approvals)@
                        &&& views(final(confirmed)@) == views(old(confirmed)@)
                        &&& final(confirm).queue() == old(confirm).queue()
                    } else if is_remembered(old(approvals)@, host@, cmd, now_ms, ttl) {
                        &&& r is Clear
                        &&& final(approvals)@ == old(approvals)@
                        &&& views(final(confirmed)@) == views(old(confirmed)@)
                        &&& final(confirm).queue() == old(confirm).queue()
                    } else if !old(confirm).is_multi_round() {
                        &&& r is Elicit
                        &&& r->pattern_name@ == name && views(r->covered@) == covered
                        &&& r->prompt@ == prompt
                        &&& final(approvals)@ == looked
                        &&& views(final(confirmed)@) == views(old(confirmed)@)
                        &&& final(confirm).queue() == old(confirm).queue()
                    } else {
                        let answer = match known_answer(old(confirm).replies(), key) {
                            Some(a) => a,
                            None => Answer::Deferred,
                        };
                        &&& batch_settled(r, answer)
                        &&& final(approvals)@ == (if answer == Answer::Approved {
                            with_approvals(looked, host@, covered, now_ms, ttl)
                        } else {
                            looked
                        })
                        &&& views(final(confirmed)@) == (if answer == Answer::Approved {
                            views(old(confirmed)@).push(name)
                        } else {
                            views(old(confirmed)@)
                        })
                        &&& final(confirm).queue() == (if answer == Answer::Deferred && !is_queued(
                            old(confirm).queue(),
                            key,
                        ) {
                            old(confirm).queue().push((key, prompt))
                        } else {
                            old(confirm).queue()
                        })
                    }
                },
            }
        }),
{
    let cmd = cmds[i].as_str();
    match guards.check(cmd) {
        GuardCheck::Allow => BatchVerdict::Clear,
        GuardCheck::Deny { pattern_name, pattern } => BatchVerdict::Refused(
            SshError::BlockedByGuard { name: pattern_name, pattern },
        ),
        GuardCheck::Confirm { pattern_name } => {
            if holds(confirmed, pattern_name.as_str()) {
                return BatchVerdict::Clear;
            }
            if approvals.remembered(host, cmd, now_ms, ttl) {
                return BatchVerdict::Clear;
            }
            let covered = covered_by_pattern(guards, cmds, pattern_name.as_str());
            let prompt = confirm_batch_prompt(host, pattern_name.as_str(), &covered);
            let text = prompt.as_str();
            let parts: [&str; 2] = [host, text];
            let key = key_for(&parts);
            assert(byte_views(parts@) =~= seq![bytes_of(host@), bytes_of(prompt@)]);
            match confirm.ask(key.as_str(), prompt.as_str()) {
                Ask::Elicit => BatchVerdict::Elicit { pattern_name, covered, prompt },
                Ask::Known(answer) => settle_batch(
                    answer,
                    approvals,
                    confirmed,
                    pattern_name.as_str(),
                    &covered,
                    host,
                    now_ms,
                    ttl,
                ),
            }
        },
    }
}

/// Why a command of a batch may run.
#[derive(Debug, Clone, Copy, PartialEq, Eq, Structural)]
pub enum Passed {
    /// No pattern stops it.
    Allowed,
    /// The user approved it: for this batch, or a moment ago.
    Approved,
    /// The question about it waits for the client.
    Waiting,
}

/// What a reason says of a command.
pub open spec fn passes(g: CompiledView, cmd: Seq<char>, why: Passed) -> bool {
    match why {
        Passed::Allowed => checked(g, cmd) is Allow,
        Passed::Approved | Passed::Waiting => checked(g, cmd) is Confirm,
    }
}

/// The commands that were checked, each for a reason that holds.
pub open spec fn all_pass(g: CompiledView, cmds: Seq<Seq<char>>, passed: Seq<Passed>) -> bool {
    &&& passed.len() <= cmds.len()
    &&& forall|i: int| 0 <= i < passed.len() ==> passes(g, cmds[i], #[trigger] passed[i])
}

/// The guard of a whole batch. Nothing of it runs before every command of it
/// was checked.
pub struct BatchGate {
    guards: Arc<CompiledGuards>,
    host: String,
    cmds: Vec<String>,
    confirmed: Vec<String>,
    passed: Vec<Passed>,
}

/// A batch that the user has to be asked about.
pub struct AskedBatch {
    gate: BatchGate,
    pattern_name: String,
    covered: Vec<String>,
    prompt: String,
}

/// What comes next for a batch.
pub enum BatchStep {
    /// Every command may run.
    Run(Vec<ClearedCommand>),
    /// The questions have to reach the client first.
    Defer,
    /// The user has to be asked now; the answer goes to [`AskedBatch::answered`].
    Ask(AskedBatch),
    /// The batch is refused for this command of it.
    Refuse { cmd: String, error: SshError },
}

/// How far the guard of a batch has come.
#[verifier::ext_equal]
pub struct GateView {
    pub approvals: Seq<ApprovalView>,
    /// The patterns that the user approved for this batch.
    pub confirmed: Seq<Seq<char>>,
    /// The questions that wait for the client.
    pub queue: Seq<(Seq<char>, Seq<char>)>,
    /// Why each of the commands that were checked may run.
    pub passed: Seq<Passed>,
}

/// What a batch is checked against.
pub struct GateRules {
    pub guards: CompiledView,
    pub multi_round: bool,
    pub replies: Seq<KeyedReply>,
    pub host: Seq<char>,
    pub cmds: Seq<Seq<char>>,
    pub now_ms: u64,
    pub ttl: HumanDuration,
}

/// How the check of one command ended.
pub enum GateStop {
    GoOn,
    Elicit,
    Refuse,
}

/// What the user says to the commands that one pattern stops, as far as it is
/// known.
pub open spec fn batch_answer(r: GateRules, pattern: Seq<char>) -> Answer {
    let prompt = batch_prompt(r.host, pattern, covered_of(r.guards, r.cmds, pattern));
    match known_answer(r.replies, batch_key(r.host, prompt)) {
        Some(a) => a,
        None => Answer::Deferred,
    }
}

/// The next command of a batch is checked.
pub open spec fn gate_step(r: GateRules, s: GateView) -> (GateView, GateStop) {
    let cmd = r.cmds[s.passed.len() as int];
    match checked(r.guards, cmd) {
        CheckView::Allow => (
            GateView { passed: s.passed.push(Passed::Allowed), ..s },
            GateStop::GoOn,
        ),
        CheckView::Deny(_, _) => (s, GateStop::Refuse),
        CheckView::Confirm(name) => {
            let looked = after_lookup(s.approvals, r.host, cmd, r.now_ms, r.ttl);
            let covered = covered_of(r.guards, r.cmds, name);
            let prompt = batch_prompt(r.host, name, covered);
            let key = batch_key(r.host, prompt);
            if s.confirmed.contains(name) || is_remembered(
                s.approvals,
                r.host,
                cmd,
                r.now_ms,
                r.ttl,
            ) {
                (GateView { passed: s.passed.push(Passed::Approved), ..s }, GateStop::GoOn)
            } else if !r.multi_round {
                (GateView { approvals: looked, ..s }, GateStop::Elicit)
            } else {
                match batch_answer(r, name) {
                    Answer::Approved => (
                        GateView {
                            approvals: with_approvals(looked, r.host, covered, r.now_ms, r.ttl),
                            confirmed: s.confirmed.push(name),
                            queue: s.queue,
                            passed: s.passed.push(Passed::Approved),
                        },
                        GateStop::GoOn,
                    ),
                    Answer::Denied => (GateView { approvals: looked, ..s }, GateStop::Refuse),
                    Answer::Deferred => (
                        GateView {
                            approvals: looked,
                            confirmed: s.confirmed,
                            queue: if is_queued(s.queue, key) {
                                s.queue
                            } else {
                                s.queue.push((key, prompt))
                            },
                            passed: s.passed.push(Passed::Waiting),
                        },
                        GateStop::GoOn,
                    ),
                }
            }
        },
    }
}

/// The commands of a batch are checked in turn, until one ends it.
pub open spec fn gate_run(r: GateRules, s: GateView) -> (GateView, GateStop)
    decreases r.cmds.len() - s.passed.len(),
{
    if s.passed.len() >= r.cmds.len() {
        (s, GateStop::GoOn)
    } else {
        let (t, stop) = gate_step(r, s);
        if stop is GoOn {
            gate_run(r, t)
        } else {
            (t, stop)
        }
    }
}

fn any_waits(passed: &Vec<Passed>) -> (r: bool)
    ensures
        r == passed@.contains(Passed::Waiting),
{
    let mut i: usize = 0;
    while i < passed.len()
        invariant
            i <= passed@.len(),
            forall|j: int| 0 <= j < i ==> passed@[j] != Passed::Waiting,
        decreases passed@.len() - i,
    {
        if let Passed::Waiting = passed[i] {
            assert(passed@[i as int] == Passed::Waiting);
            return true;
        }
        i = i + 1;
    }
    false
}

/// A gate, with the approvals and questions that it works on.
pub open spec fn gate_view(gate: BatchGate, approvals: Approvals, confirm: Confirm) -> GateView {
    GateView {
        approvals: approvals@,
        confirmed: gate.confirmed(),
        queue: confirm.queue(),
        passed: gate.passed(),
    }
}

/// What a gate checks its batch against.
pub open spec fn gate_rules(
    gate: BatchGate,
    confirm: Confirm,
    now_ms: u64,
    ttl: HumanDuration,
) -> GateRules {
    GateRules {
        guards: gate.rules(),
        multi_round: confirm.is_multi_round(),
        replies: confirm.replies(),
        host: gate.on(),
        cmds: gate.commands(),
        now_ms,
        ttl,
    }
}

/// The commands of a batch, each let through for its reason.
pub open spec fn batch_cleared(
    v: Seq<ClearedCommand>,
    r: GateRules,
    passed: Seq<Passed>,
) -> bool {
    &&& v.len() == r.cmds.len()
    &&& forall|i: int|
        #![trigger v[i]]
        0 <= i < v.len() ==> {
            &&& v[i].on() == r.host
            &&& v[i].command() == r.cmds[i]
            &&& v[i].rules() == r.guards
            &&& v[i].why() == (if passed[i] == Passed::Allowed {
                Clearance::Allowed
            } else {
                Clearance::Approved
            })
        }
}

fn cleared_batch(
    guards: &CompiledGuards,
    host: &str,
    cmds: &Vec<String>,
    passed: &Vec<Passed>,
    Ghost(r): Ghost<GateRules>,
) -> (v: Vec<ClearedCommand>)
    requires
        all_pass(guards@, views(cmds@), passed@),
        passed@.len() == cmds@.len(),
        !passed@.contains(Passed::Waiting),
        r.guards == guards@,
        r.host == host@,
        r.cmds == views(cmds@),
    ensures
        batch_cleared(v@, r, passed@),
{
    let mut v: Vec<ClearedCommand> = Vec::new();
    let mut i: usize = 0;
    while i < cmds.len()
        invariant
            i <= cmds@.len(),
            v@.len() == i,
            all_pass(guards@, views(cmds@), passed@),
            passed@.len() == cmds@.len(),
            !passed@.contains(Passed::Waiting),
            r.guards == guards@,
            r.host == host@,
            r.cmds == views(cmds@),
            forall|k: int|
                #![trigger v@[k]]
                0 <= k < i ==> {
                    &&& v@[k].on() == r.host
                    &&& v@[k].command() == r.cmds[k]
                    &&& v@[k].rules() == r.guards
                    &&& v@[k].why() == (if passed@[k] == Passed::Allowed {
                        Clearance::Allowed
                    } else {
                        Clearance::Approved
                    })
                },
        decreases cmds@.len() - i,
    {
        let ghost why = if passed@[i as int] == Passed::Allowed {
            Clearance::Allowed
        } else {
            Clearance::Approved
        };
        proof {
            assert(passes(guards@, views(cmds@)[i as int], passed@[i as int]));
            assert(passed@.contains(passed@[i as int]));
        }
        v.push(ClearedCommand::new(guards, host, cmds[i].as_str(), Ghost(why)));
        i = i + 1;
    }
    v
}

impl BatchGate {
    /// The guards that the batch goes through.
    pub closed spec fn rules(&self) -> CompiledView {
        (*self.guards)@
    }

    pub closed spec fn on(&self) -> Seq<char> {
        self.host@
    }

    pub closed spec fn commands(&self) -> Seq<Seq<char>> {
        views(self.cmds@)
    }

    /// Why each of the commands that were checked may run.
    pub closed spec fn passed(&self) -> Seq<Passed> {
        self.passed@
    }

    /// The patterns that the user approved for this batch.
    pub closed spec fn confirmed(&self) -> Seq<Seq<char>> {
        views(self.confirmed@)
    }

    #[verifier::type_invariant]
    spec fn checked_so_far(self) -> bool {
        all_pass((*self.guards)@, views(self.cmds@), self.passed@)
    }

    pub fn new(guards: Arc<CompiledGuards>, host: String, cmds: Vec<String>) -> (r: Self)
        ensures
            r.rules() == (*guards)@,
            r.on() == host@,
            r.commands() == views(cmds@),
            r.passed().len() == 0,
            r.confirmed().len() == 0,
    {
        BatchGate { guards, host, cmds, confirmed: Vec::new(), passed: Vec::new() }
    }

    /// Checks commands until one has to be asked about, one is refused, or all
    /// were checked.
    pub fn advance(
        self,
        approvals: &mut Approvals,
        confirm: &mut Confirm,
        now_ms: u64,
        ttl: HumanDuration,
    ) -> (r: BatchStep)
        ensures
            final(confirm).is_multi_round() == old(confirm).is_multi_round(),
            final(confirm).replies() == old(confirm).replies(),
            ({
                let rules = gate_rules(self, *old(confirm), now_ms, ttl);
                let (after, stop) = gate_run(rules, gate_view(self, *old(approvals), *old(confirm)));
                let at = after.passed.len() as int;
                &&& final(approvals)@ == after.approvals
                &&& final(confirm).queue() == after.queue
                &&& match r {
                    BatchStep::Run(v) => {
                        &&& stop is GoOn && !after.passed.contains(Passed::Waiting)
                        &&& batch_cleared(v@, rules, after.passed)
                    },
                    BatchStep::Defer => stop is GoOn && after.passed.contains(Passed::Waiting),
                    BatchStep::Ask(a) => {
                        &&& stop is Elicit
                        &&& a.gate().rules() == self.rules() && a.gate().on() == self.on()
                        &&& a.gate().commands() == self.commands()
                        &&& a.gate().confirmed() == after.confirmed
                        &&& a.gate().passed() == after.passed
                        &&& checked(self.rules(), self.commands()[at]) == CheckView::Confirm(
                            a.pattern(),
                        )
                    },
                    BatchStep::Refuse { cmd, error } => {
                        &&& stop is Refuse
                        &&& cmd@ == self.commands()[at]
                        &&& match checked(self.rules(), self.commands()[at]) {
                            CheckView::Allow => false,
                            CheckView::Deny(name, pattern) => error is BlockedByGuard
                                && error->name@ == name && error->pattern@ == pattern,
                            CheckView::Confirm(_) => error is ConfirmationDenied,
                        }
                    },
                }
            }),
    {
        proof {
            use_type_invariant(&self);
        }
        let ghost rules = gate_rules(self, *confirm, now_ms, ttl);
        let ghost all = gate_run(rules, gate_view(self, *approvals, *confirm));
        let BatchGate { guards, host, cmds, mut confirmed, mut passed } = self;
        while passed.len() < cmds.len()
            invariant
                rules == (GateRules {
                    guards: (*guards)@,
                    multi_round: old(confirm).is_multi_round(),
                    replies: old(confirm).replies(),
                    host: host@,
                    cmds: views(cmds@),
                    now_ms,
                    ttl,
                }),
                confirm.is_multi_round() == old(confirm).is_multi_round(),
                confirm.replies() == old(confirm).replies(),
                all_pass((*guards)@, views(cmds@), passed@),
                rules == gate_rules(self, *old(confirm), now_ms, ttl),
                all == gate_run(rules, gate_view(self, *old(approvals), *old(confirm))),
                all == gate_run(
                    rules,
                    GateView {
                        approvals: approvals@,
                        confirmed: views(confirmed@),
                        queue: confirm.queue(),
                        passed: passed@,
                    },
                ),
            decreases cmds@.len() - passed@.len(),
        {
            let at: usize = passed.len();
            let ghost before = GateView {
                approvals: approvals@,
                confirmed: views(confirmed@),
                queue: confirm.queue(),
                passed: passed@,
            };
            assert(rules.cmds[at as int] == cmds@[at as int]@);
            let stopped = match guards.check(cmds[at].as_str()) {
                GuardCheck::Confirm { .. } => true,
                _ => false,
            };
            let verdict = guard_batch_command(
                &guards,
                approvals,
                confirm,
                &mut confirmed,
                host.as_str(),
                &cmds,
                at,
                now_ms,
                ttl,
            );
            let ghost after = GateView {
                approvals: approvals@,
                confirmed: views(confirmed@),
                queue: confirm.queue(),
                passed: before.passed,
            };
            match verdict {
                BatchVerdict::Clear => {
                    passed.push(
                        if stopped {
                            Passed::Approved
                        } else {
                            Passed::Allowed
                        },
                    );
                },
                BatchVerdict::Waiting => {
                    passed.push(Passed::Waiting);
                },
                BatchVerdict::Elicit { pattern_name, covered, prompt } => {
                    assert(after =~= gate_step(rules, before).0);
                    let gate = BatchGate { guards, host, cmds, confirmed, passed };
                    return BatchStep::Ask(AskedBatch { gate, pattern_name, covered, prompt });
                },
                BatchVerdict::Refused(error) => {
                    assert(after =~= gate_step(rules, before).0);
                    let cmd = cmds[at].clone();
                    return BatchStep::Refuse { cmd, error };
                },
            }
            proof {
                assert((GateView { passed: passed@, ..after }) =~= gate_step(rules, before).0);
                assert(forall|i: int|
                    0 <= i < before.passed.len() ==> passed@[i] == #[trigger] before.passed[i]);
            }
        }
        if any_waits(&passed) {
            return BatchStep::Defer;
        }
        BatchStep::Run(cleared_batch(&guards, host.as_str(), &cmds, &passed, Ghost(rules)))
    }
}

impl AskedBatch {
    /// The batch, as far as it was checked.
    pub closed spec fn gate(&self) -> BatchGate {
        self.gate
    }

    /// The pattern that stops the next command of it.
    pub closed spec fn pattern(&self) -> Seq<char> {
        self.pattern_name@
    }

    #[verifier::type_invariant]
    spec fn stopped(self) -> bool {
        let at = self.gate.passed().len() as int;
        &&& at < self.gate.cmds@.len()
        &&& checked(self.gate.rules(), self.gate.commands()[at]) == CheckView::Confirm(
            self.pattern_name@,
        )
        &&& views(self.covered@) == covered_of(
            self.gate.rules(),
            self.gate.commands(),
            self.pattern_name@,
        )
        &&& self.prompt@ == batch_prompt(
            self.gate.on(),
            self.pattern_name@,
            views(self.covered@),
        )
    }

    /// What the user is asked: it shows every command that the answer covers.
    pub fn prompt(&self) -> (r: &str)
        ensures
            r@ == batch_prompt(
                self.gate().on(),
                self.pattern(),
                covered_of(self.gate().rules(), self.gate().commands(), self.pattern()),
            ),
    {
        proof {
            use_type_invariant(self);
        }
        self.prompt.as_str()
    }

    /// The command that the question came up for.
    pub fn cmd(&self) -> (r: &str)
        ensures
            r@ == self.gate().commands()[self.gate().passed().len() as int],
            checked(self.gate().rules(), r@) == CheckView::Confirm(self.pattern()),
    {
        proof {
            use_type_invariant(self);
        }
        self.gate.cmds[self.gate.passed.len()].as_str()
    }

    /// The answer to the question: a yes covers every command that it showed.
    pub fn answered(
        self,
        said_yes: bool,
        approvals: &mut Approvals,
        now_ms: u64,
        ttl: HumanDuration,
    ) -> (r: Result<BatchGate>)
        ensures
            match r {
                Ok(g) => {
                    let covered = covered_of(
                        self.gate().rules(),
                        self.gate().commands(),
                        self.pattern(),
                    );
                    &&& said_yes
                    &&& g.rules() == self.gate().rules() && g.on() == self.gate().on()
                    &&& g.commands() == self.gate().commands()
                    &&& g.passed() == self.gate().passed()
                    &&& g.confirmed() == self.gate().confirmed().push(self.pattern())
                    &&& final(approvals)@ == with_approvals(
                        old(approvals)@,
                        self.gate().on(),
                        covered,
                        now_ms,
                        ttl,
                    )
                },
                Err(e) => {
                    &&& !said_yes
                    &&& e is ConfirmationDenied
                    &&& final(approvals)@ == old(approvals)@
                },
            },
    {
        proof {
            use_type_invariant(&self);
            use_type_invariant(&self.gate);
        }
        let answer = if said_yes {
            Answer::Approved
        } else {
            Answer::Denied
        };
        let AskedBatch { gate, pattern_name, covered, prompt: _ } = self;
        let BatchGate { guards, host, cmds, mut confirmed, passed } = gate;
        let verdict = settle_batch(
            answer,
            approvals,
            &mut confirmed,
            pattern_name.as_str(),
            &covered,
            host.as_str(),
            now_ms,
            ttl,
        );
        match verdict {
            BatchVerdict::Clear => Ok(BatchGate { guards, host, cmds, confirmed, passed }),
            _ => Err(SshError::ConfirmationDenied),
        }
    }
}

/// The user approved a command on a host recently enough.
pub open spec fn was_approved(
    s: Seq<ApprovalView>,
    host: Seq<char>,
    cmd: Seq<char>,
    now_ms: u64,
    ttl: HumanDuration,
) -> bool {
    exists|k: int|
        0 <= k < s.len() && (#[trigger] s[k]).host == host && s[k].cmd == cmd && is_fresh(
            s[k],
            now_ms,
            ttl,
        )
}

/// Why a command of a batch may run: no pattern stops it, or the user said yes
/// to it, for this batch or a moment before it.
pub open spec fn justified(r: GateRules, start: GateView, s: GateView, i: int) -> bool {
    match checked(r.guards, r.cmds[i]) {
        CheckView::Allow => true,
        CheckView::Deny(_, _) => false,
        CheckView::Confirm(name) => s.confirmed.contains(name) || was_approved(
            start.approvals,
            r.host,
            r.cmds[i],
            r.now_ms,
            r.ttl,
        ),
    }
}

/// What the client answered yes to.
pub open spec fn answered_yes(r: GateRules, pattern: Seq<char>) -> bool {
    r.multi_round && batch_answer(r, pattern) == Answer::Approved
}

/// An approval was there before, or the yes to a pattern gave it.
spec fn accounted(r: GateRules, start: GateView, s: GateView, a: ApprovalView) -> bool {
    start.approvals.contains(a) || match checked(r.guards, a.cmd) {
        CheckView::Confirm(name) => s.confirmed.contains(name),
        _ => false,
    }
}

/// What holds of a batch while it is checked.
spec fn gate_keeps(r: GateRules, start: GateView, s: GateView) -> bool {
    &&& start.passed.len() <= s.passed.len() <= r.cmds.len()
    &&& forall|k: int|
        0 <= k < s.approvals.len() ==> accounted(r, start, s, #[trigger] s.approvals[k])
    &&& forall|name: Seq<char>| #[trigger]
        s.confirmed.contains(name) ==> start.confirmed.contains(name) || answered_yes(r, name)
    &&& forall|i: int|
        start.passed.len() <= i < s.passed.len() && #[trigger] s.passed[i] != Passed::Waiting
            ==> justified(r, start, s, i)
}

proof fn lemma_covered(g: CompiledView, cmds: Seq<Seq<char>>, name: Seq<char>)
    ensures
        forall|k: int|
            0 <= k < covered_of(g, cmds, name).len() ==> checked(
                g,
                #[trigger] covered_of(g, cmds, name)[k],
            ) == CheckView::Confirm(name),
    decreases cmds.len(),
{
    if cmds.len() > 0 {
        lemma_covered(g, cmds.drop_last(), name);
    }
}

proof fn lemma_approvals_come_from(
    s: Seq<ApprovalView>,
    host: Seq<char>,
    cmds: Seq<Seq<char>>,
    now_ms: u64,
    ttl: HumanDuration,
)
    ensures
        forall|k: int|
            0 <= k < with_approvals(s, host, cmds, now_ms, ttl).len() ==> {
                let a = #[trigger] with_approvals(s, host, cmds, now_ms, ttl)[k];
                s.contains(a) || cmds.contains(a.cmd)
            },
    decreases cmds.len(),
{
    if cmds.len() > 0 {
        let rest = cmds.drop_last();
        let before = with_approvals(s, host, rest, now_ms, ttl);
        let after = with_approvals(s, host, cmds, now_ms, ttl);
        lemma_approvals_come_from(s, host, rest, now_ms, ttl);
        lemma_approval_comes_from(before, host, cmds.last(), now_ms, ttl);
        assert forall|k: int| 0 <= k < after.len() implies {
            let a = #[trigger] after[k];
            s.contains(a) || cmds.contains(a.cmd)
        } by {
            let a = after[k];
            if a.cmd == cmds.last() {
                assert(cmds[cmds.len() - 1] == a.cmd);
            } else {
                assert(before.contains(a));
                let j = choose|j: int| 0 <= j < before.len() && before[j] == a;
                assert(s.contains(before[j]) || rest.contains(before[j].cmd));
                if rest.contains(a.cmd) {
                    let m = choose|m: int| 0 <= m < rest.len() && rest[m] == a.cmd;
                    assert(cmds[m] == a.cmd);
                }
            }
        }
    } else {
        assert forall|k: int| 0 <= k < s.len() implies s.contains(#[trigger] s[k]) by {}
    }
}

proof fn lemma_gate_step_keeps(r: GateRules, start: GateView, s: GateView)
    requires
        gate_keeps(r, start, s),
        s.passed.len() < r.cmds.len(),
    ensures
        gate_step(r, s).1 is GoOn ==> gate_keeps(r, start, gate_step(r, s).0),
        forall|i: int|
            0 <= i < s.passed.len() ==> s.passed[i] == #[trigger] gate_step(r, s).0.passed[i],
{
    let at = s.passed.len() as int;
    let cmd = r.cmds[at];
    let (t, stop) = gate_step(r, s);
    if stop is GoOn {
        if let CheckView::Confirm(name) = checked(r.guards, cmd) {
            let looked = after_lookup(s.approvals, r.host, cmd, r.now_ms, r.ttl);
            let covered = covered_of(r.guards, r.cmds, name);
            lemma_lookup_keeps(s.approvals, r.host, cmd, r.now_ms, r.ttl);
            lemma_covered(r.guards, r.cmds, name);
            lemma_approvals_come_from(looked, r.host, covered, r.now_ms, r.ttl);
            if t.confirmed != s.confirmed {
                assert(t.confirmed[s.confirmed.len() as int] == name);
                assert forall|n: Seq<char>| #[trigger] s.confirmed.contains(n) implies
                    t.confirmed.contains(n) by {
                    let m = choose|m: int| 0 <= m < s.confirmed.len() && s.confirmed[m] == n;
                    assert(t.confirmed[m] == n);
                }
                assert forall|n: Seq<char>| #[trigger] t.confirmed.contains(n) implies
                    start.confirmed.contains(n) || answered_yes(r, n) by {
                    let m = choose|m: int| 0 <= m < t.confirmed.len() && t.confirmed[m] == n;
                    if m < s.confirmed.len() {
                        assert(s.confirmed[m] == n);
                        assert(s.confirmed.contains(n));
                    }
                }
            }
            assert forall|k: int| 0 <= k < t.approvals.len() implies accounted(
                r,
                start,
                t,
                #[trigger] t.approvals[k],
            ) by {
                let a = t.approvals[k];
                if covered.contains(a.cmd) && t.confirmed.contains(name) {
                    let m = choose|m: int| 0 <= m < covered.len() && covered[m] == a.cmd;
                    assert(checked(r.guards, covered[m]) == CheckView::Confirm(name));
                } else {
                    assert(s.approvals.contains(a)) by {
                        if looked.contains(a) {
                            let j = choose|j: int| 0 <= j < looked.len() && looked[j] == a;
                            assert(s.approvals.contains(looked[j]));
                        }
                    }
                    let j = choose|j: int| 0 <= j < s.approvals.len() && s.approvals[j] == a;
                    assert(accounted(r, start, s, s.approvals[j]));
                }
            }
            if t.passed[at] != Passed::Waiting && !t.confirmed.contains(name) {
                lemma_remembered(s.approvals, r.host, cmd, r.now_ms, r.ttl);
                let k = choose|k: int|
                    0 <= k < s.approvals.len() && (#[trigger] s.approvals[k]).host == r.host
                        && s.approvals[k].cmd == cmd && is_fresh(
                        s.approvals[k],
                        r.now_ms,
                        r.ttl,
                    );
                assert(accounted(r, start, s, s.approvals[k]));
                let j = choose|j: int|
                    0 <= j < start.approvals.len() && start.approvals[j] == s.approvals[k];
                assert(start.approvals[j].host == r.host);
            }
        }
        assert forall|i: int|
            start.passed.len() <= i < t.passed.len() && #[trigger] t.passed[i]
                != Passed::Waiting implies justified(r, start, t, i) by {
            if i < at {
                assert(t.passed[i] == s.passed[i]);
                assert(justified(r, start, s, i));
            }
        }
    }
}

proof fn lemma_gate_run_keeps(r: GateRules, start: GateView, s: GateView)
    requires
        gate_keeps(r, start, s),
    ensures
        gate_run(r, s).1 is GoOn ==> gate_keeps(r, start, gate_run(r, s).0) && gate_run(
            r,
            s,
        ).0.passed.len() == r.cmds.len(),
    decreases r.cmds.len() - s.passed.len(),
{
    if s.passed.len() < r.cmds.len() {
        let (t, stop) = gate_step(r, s);
        lemma_gate_step_keeps(r, start, s);
        if stop is GoOn {
            lemma_gate_run_keeps(r, start, t);
        }
    }
}

/// A batch that runs holds no command that a guard denies, and none that a
/// pattern stops without the user's yes: given a moment before, given for this
/// batch, or read from the client's answers.
pub proof fn law_batch_runs_only_what_was_approved(r: GateRules, start: GateView, i: int)
    requires
        start.passed.len() <= i < r.cmds.len(),
        gate_run(r, start).1 is GoOn,
        !gate_run(r, start).0.passed.contains(Passed::Waiting),
    ensures
        justified(r, start, gate_run(r, start).0, i),
        forall|name: Seq<char>| #[trigger]
            gate_run(r, start).0.confirmed.contains(name) ==> start.confirmed.contains(name)
                || answered_yes(r, name),
{
    assert forall|k: int| 0 <= k < start.approvals.len() implies accounted(
        r,
        start,
        start,
        #[trigger] start.approvals[k],
    ) by {
        assert(start.approvals.contains(start.approvals[k]));
    }
    lemma_gate_run_keeps(r, start, start);
    let end = gate_run(r, start).0;
    assert(end.passed.contains(end.passed[i]));
}

// ---------------------------------------------------------------------------
// exec_batch: the answer
// ---------------------------------------------------------------------------

/// The start of a text, at most `max` characters of it.
pub open spec fn start_of(s: Seq<char>, max: int) -> Seq<char> {
    if s.len() <= max {
        s
    } else {
        s.take(max)
    }
}

/// A text on one line.
pub open spec fn on_one_line(s: Seq<char>) -> Seq<char> {
    Seq::new(
        s.len(),
        |i: int|
            if s[i] == '\n' {
                ' '
            } else {
                s[i]
            },
    )
}

/// What is shown of a command's output in a batch: of one that failed its
/// errors, else its output; of one that did not, a little of its output, and
/// only where it was asked for.
pub open spec fn preview_of(r: ExecResult, verbose: bool) -> Seq<char> {
    if r.exit_code != 0 {
        if trimmed(r.stderr@).len() > 0 {
            on_one_line(start_of(trimmed(r.stderr@), 200))
        } else {
            on_one_line(start_of(r.stdout@, 200))
        }
    } else if verbose {
        on_one_line(start_of(r.stdout@, 40))
    } else {
        Seq::empty()
    }
}

fn first_chars(s: &str, max: usize) -> (r: String)
    ensures
        r@ == on_one_line(start_of(s@, max as int)),
{
    let v = chars_of(s);
    let end: usize = if max < v.len() {
        max
    } else {
        v.len()
    };
    let ghost part = start_of(s@, max as int);
    let mut out = String::new();
    let mut i: usize = 0;
    assert(out@ =~= on_one_line(part).take(0));
    while i < end
        invariant
            i <= end == part.len(),
            end <= v@.len(),
            v@ == s@,
            part == start_of(s@, max as int),
            out@ == on_one_line(part).take(i as int),
        decreases end - i,
    {
        out.push(
            if v[i] == '\n' {
                ' '
            } else {
                v[i]
            },
        );
        i = i + 1;
        assert(out@ =~= on_one_line(part).take(i as int));
    }
    assert(out@ =~= on_one_line(part));
    out
}

/// What is shown of a command's output in a batch.
pub fn batch_preview(r: &ExecResult, verbose: bool) -> (s: String)
    ensures
        s@ == preview_of(*r, verbose),
{
    if r.exit_code != 0 {
        let e = trim(r.stderr.as_str());
        if !e.as_str().is_empty() {
            first_chars(e.as_str(), 200)
        } else {
            first_chars(r.stdout.as_str(), 200)
        }
    } else if verbose {
        first_chars(r.stdout.as_str(), 40)
    } else {
        let s = String::new();
        assert(s@ =~= Seq::empty());
        s
    }
}

/// How one command of a batch ended.
#[derive(Debug)]
pub struct BatchItem {
    pub cmd: String,
    /// What it did, or why it could not be run.
    pub outcome: core::result::Result<ExecResult, String>,
}

/// What is logged of a command that ran: both streams count.
pub fn exec_record(cmd: &str, r: &ExecResult) -> (record: AuditRecord)
    ensures
        record@ == (RecordView {
            cmd: Some(cmd@),
            exit_code: Some(r.exit_code),
            duration_ms: Some(r.duration_ms),
            bytes_out: Some(
                if r.stdout_bytes + r.stderr_bytes > usize::MAX {
                    usize::MAX
                } else {
                    (r.stdout_bytes + r.stderr_bytes) as usize
                },
            ),
            ..blank()
        }),
{
    let bytes = r.stdout_bytes.saturating_add(r.stderr_bytes);
    AuditRecord::ran(cmd, r.exit_code, bytes).took(r.duration_ms)
}

/// What is logged of a command of a batch.
pub fn batch_record(item: &BatchItem) -> (record: AuditRecord)
    ensures
        record@ == (match item.outcome {
            Ok(r) => RecordView {
                cmd: Some(item.cmd@),
                exit_code: Some(r.exit_code),
                duration_ms: Some(r.duration_ms),
                bytes_out: Some(r.stdout_bytes),
                ..blank()
            },
            Err(why) => RecordView { cmd: Some(item.cmd@), error: Some(why@), ..blank() },
        }),
{
    match &item.outcome {
        Ok(r) => AuditRecord::ran(item.cmd.as_str(), r.exit_code, r.stdout_bytes).took(
            r.duration_ms,
        ),
        Err(why) => AuditRecord::failed(item.cmd.as_str(), why.as_str()),
    }
}

/// The row of one command of a batch.
pub open spec fn batch_row(item: BatchItem, verbose: bool) -> Seq<Seq<char>> {
    match item.outcome {
        Ok(r) => seq![
            item.cmd@,
            signed_decimal(r.exit_code as int),
            decimal(r.duration_ms as nat),
            decimal(r.stdout_bytes as nat),
            preview_of(r, verbose),
        ],
        Err(e) => seq![item.cmd@, "-1"@, "0"@, "0"@, e@],
    }
}

pub open spec fn batch_rows(items: Seq<BatchItem>, verbose: bool) -> Seq<Seq<Seq<char>>> {
    Seq::new(items.len(), |i: int| batch_row(items[i], verbose))
}

/// The answer of `exec_batch`.
pub open spec fn batch_text(host: Seq<char>, items: Seq<BatchItem>, verbose: bool) -> Seq<char> {
    field_text(0, "host"@, scalar(host)) + table_text(
        0,
        "results"@,
        seq!["cmd"@, "exit"@, "ms"@, "bytes"@, "preview"@],
        batch_rows(items, verbose),
    )
}

fn row_of(item: &BatchItem, verbose: bool) -> (r: Vec<String>)
    ensures
        string_views(r@) == batch_row(*item, verbose),
{
    let mut row: Vec<String> = Vec::new();
    row.push(item.cmd.clone());
    match &item.outcome {
        Ok(r) => {
            let mut exit = String::new();
            push_signed(&mut exit, r.exit_code as i64);
            assert(exit@ =~= signed_decimal(r.exit_code as int));
            let mut ms = String::new();
            push_decimal_wide(&mut ms, r.duration_ms);
            assert(ms@ =~= decimal(r.duration_ms as nat));
            let mut bytes = String::new();
            push_decimal(&mut bytes, r.stdout_bytes as u64);
            assert(bytes@ =~= decimal(r.stdout_bytes as nat));
            row.push(exit);
            row.push(ms);
            row.push(bytes);
            row.push(batch_preview(r, verbose));
        },
        Err(e) => {
            row.push("-1".to_owned());
            row.push("0".to_owned());
            row.push("0".to_owned());
            row.push(e.clone());
        },
    }
    assert(string_views(row@) =~= batch_row(*item, verbose));
    row
}

/// The answer of `exec_batch`.
pub fn format_batch(host: &str, items: &Vec<BatchItem>, verbose: bool) -> (r: String)
    ensures
        r@ == batch_text(host@, items@, verbose),
{
    let mut t = Toon::new();
    let _ = t.field("host", host);
    assert(t.text() =~= field_text(0, "host"@, scalar(host@)));
    let mut rows: Vec<Vec<String>> = Vec::new();
    let mut i: usize = 0;
    while i < items.len()
        invariant
            i <= items@.len(),
            rows@.len() == i,
            forall|k: int|
                0 <= k < i ==> string_views((#[trigger] rows@[k])@) == batch_row(
                    items@[k],
                    verbose,
                ),
        decreases items@.len() - i,
    {
        rows.push(row_of(&items[i], verbose));
        i = i + 1;
    }
    let cols: [&str; 5] = ["cmd", "exit", "ms", "bytes", "preview"];
    assert(row_views(rows@) =~= batch_rows(items@, verbose));
    assert(str_views(cols@) =~= seq!["cmd"@, "exit"@, "ms"@, "bytes"@, "preview"@]);
    let _ = t.table_strs("results", &cols, rows.as_slice());
    t.into_string()
}

// ---------------------------------------------------------------------------
// sh and interrupt
// ---------------------------------------------------------------------------

/// The answer of `sh`.
pub open spec fn sh_text(
    host: Seq<char>,
    shell: Option<Seq<char>>,
    exit_code: i32,
    output: Seq<char>,
    truncate: nat,
) -> Seq<char> {
    field_text(0, "host"@, scalar(host)) + (match shell {
        Some(s) => field_text(0, "shell"@, scalar(s)),
        None => Seq::empty(),
    }) + field_text(0, "exit_code"@, signed_decimal(exit_code as int)) + field_text(
        0,
        "bytes"@,
        decimal(bytes_of(output).len()),
    ) + block_text(
        0,
        "stdout"@,
        displayed(
            bytes_of(output),
            Seq::empty(),
            bytes_of(output).len() as int,
            truncate as int,
        ),
    ) + (if exit_code != 0 {
        hint_text(0, "non-zero exit. cd preserved across sh calls."@)
    } else {
        Seq::empty()
    })
}

/// The answer of `sh`.
pub fn format_sh(
    host: &str,
    shell: Option<&str>,
    exit_code: i32,
    output: &str,
    truncate: usize,
) -> (r: String)
    ensures
        r@ == sh_text(
            host@,
            match shell {
                Some(s) => Some(s@),
                None => None,
            },
            exit_code,
            output@,
            truncate as nat,
        ),
{
    let mut t = Toon::new();
    let _ = t.field("host", host);
    assert(t.text() =~= field_text(0, "host"@, scalar(host@)));
    let ghost before = t.text();
    if let Some(s) = shell {
        let _ = t.field("shell", s);
    } else {
        assert(before + Seq::<char>::empty() =~= before);
    }
    let _ = t.field("exit_code", exit_code as i64);
    let _ = t.field("bytes", output.as_bytes().len());
    let (display, _) = truncate_with_hint(output, truncate);
    let display = shown(display);
    let _ = t.block("stdout", display.as_str());
    let ghost before = t.text();
    if exit_code != 0 {
        let _ = t.hint("non-zero exit. cd preserved across sh calls.");
    } else {
        assert(before + Seq::<char>::empty() =~= before);
    }
    t.into_string()
}

/// The answer of `interrupt` on a host without a session.
pub open spec fn no_session_text(host: Seq<char>) -> Seq<char> {
    field_text(0, "host"@, scalar(host)) + field_text(0, "status"@, scalar("no active session"@))
}

/// The answer of `interrupt` on a host without a session.
pub fn format_no_session(host: &str) -> (r: String)
    ensures
        r@ == no_session_text(host@),
{
    let mut t = Toon::new();
    let _ = t.field("host", host);
    let _ = t.field("status", "no active session");
    let s = t.into_string();
    assert(s@ =~= no_session_text(host@));
    s
}

/// The answer of `interrupt`.
pub open spec fn interrupt_text(host: Seq<char>, pty_acted: bool, exec_aborted: nat) -> Seq<char> {
    field_text(0, "host"@, scalar(host)) + field_text(0, "pty_sigint"@, if pty_acted {
        "true"@
    } else {
        "false"@
    }) + field_text(0, "exec_aborted"@, decimal(exec_aborted)) + field_text(
        0,
        "status"@,
        scalar(if !pty_acted && exec_aborted == 0 {
            "no in-flight commands"@
        } else {
            "interrupt fired"@
        }),
    )
}

/// The answer of `interrupt`.
pub fn format_interrupt(host: &str, pty_acted: bool, exec_aborted: usize) -> (r: String)
    ensures
        r@ == interrupt_text(host@, pty_acted, exec_aborted as nat),
{
    let mut t = Toon::new();
    let _ = t.field("host", host);
    assert(t.text() =~= field_text(0, "host"@, scalar(host@)));
    let _ = t.field("pty_sigint", pty_acted);
    let _ = t.field("exec_aborted", exec_aborted as u64);
    let status = if !pty_acted && exec_aborted == 0 {
        "no in-flight commands"
    } else {
        "interrupt fired"
    };
    let _ = t.field("status", status);
    t.into_string()
}

// ---------------------------------------------------------------------------
// Laws on answers
// ---------------------------------------------------------------------------

proof fn lemma_exec_parts(
    code: Seq<char>,
    ms: Seq<char>,
    timed: Seq<char>,
    stopped: Seq<char>,
    capped: Seq<char>,
    lost: Seq<char>,
    size: Seq<char>,
    more: Seq<char>,
    out: Seq<char>,
    err: Seq<char>,
    hint: Seq<char>,
)
    ensures
        ({
            let all = code + ms + timed + stopped + capped + lost + size + more + out + err + hint;
            &&& has_prefix(all, code)
            &&& has_part(all, timed)
            &&& has_part(all, stopped)
            &&& has_part(all, lost)
            &&& has_part(all, out)
            &&& has_part(all, err)
        }),
{
    let all = code + ms + timed + stopped + capped + lost + size + more + out + err + hint;
    assert(all.take(code.len() as int) =~= code);
    let a = code + ms;
    let b = stopped + capped + lost + size + more + out + err + hint;
    assert(all =~= a + timed + b);
    lemma_has_part(a, timed, b);
    let a = code + ms + timed;
    let b = capped + lost + size + more + out + err + hint;
    assert(all =~= a + stopped + b);
    lemma_has_part(a, stopped, b);
    let a = code + ms + timed + stopped + capped;
    let b = size + more + out + err + hint;
    assert(all =~= a + lost + b);
    lemma_has_part(a, lost, b);
    let a = code + ms + timed + stopped + capped + lost + size + more;
    assert(all =~= a + out + (err + hint));
    lemma_has_part(a, out, err + hint);
    lemma_has_part(a + out, err, hint);
}

/// The answer of `exec` begins with the exit code, and shows what the command
/// printed: standard output always, standard error wherever there is any, each
/// as it is where it fits.
pub proof fn law_exec_answer_shows_the_output(r: ExecResult, truncate: nat)
    requires
        r.stdout_tail@.len() == 0,
        r.stdout_bytes == bytes_of(r.stdout@).len(),
        r.stdout_bytes <= truncate,
        r.stderr_tail@.len() == 0,
        r.stderr_bytes == bytes_of(r.stderr@).len(),
        r.stderr_bytes <= truncate && r.stderr_bytes <= 2048,
    ensures
        has_prefix(
            exec_text(r, truncate),
            field_text(0, "exit_code"@, signed_decimal(r.exit_code as int)),
        ),
        has_part(exec_text(r, truncate), block_text(0, "stdout"@, r.stdout@)),
        r.stderr@.len() > 0 ==> has_part(
            exec_text(r, truncate),
            block_text(0, "stderr"@, r.stderr@),
        ),
        r.timed_out ==> has_part(exec_text(r, truncate), field_text(0, "timed_out"@, "true"@)),
        r.interrupted ==> has_part(exec_text(r, truncate), field_text(0, "interrupted"@, "true"@)),
        r.connection_lost ==> has_part(
            exec_text(r, truncate),
            field_text(0, "connection_lost"@, "true"@),
        ),
{
    let none = Seq::<u8>::empty();
    assert(r.stdout_tail@ =~= Seq::empty());
    assert(r.stderr_tail@ =~= Seq::empty());
    assert(bytes_of(r.stdout_tail@) =~= none);
    assert(bytes_of(r.stderr_tail@) =~= none);
    law_what_fits_is_shown_whole(r.stdout@, truncate as int);
    law_what_fits_is_shown_whole(r.stderr@, stderr_budget(truncate));
    lemma_exec_parts(
        field_text(0, "exit_code"@, signed_decimal(r.exit_code as int)),
        field_text(0, "duration_ms"@, decimal(r.duration_ms as u64 as nat)),
        flag_text("timed_out"@, r.timed_out),
        flag_text("interrupted"@, r.interrupted),
        flag_text("capture_capped"@, r.capture_capped),
        flag_text("connection_lost"@, r.connection_lost),
        sizes_text(
            !fits(bytes_of(r.stdout@), none, r.stdout_bytes as int, truncate as int),
            "stdout_bytes"@,
            "stdout_total_bytes"@,
            r.stdout_bytes,
        ),
        sizes_text(
            !fits(bytes_of(r.stderr@), none, r.stderr_bytes as int, stderr_budget(truncate)),
            "stderr_bytes"@,
            "stderr_total_bytes"@,
            r.stderr_bytes,
        ),
        block_text(0, "stdout"@, r.stdout@),
        if r.stderr@.len() > 0 {
            block_text(0, "stderr"@, r.stderr@)
        } else {
            Seq::empty()
        },
        if r.exit_code != 0 && !r.timed_out {
            hint_text(0, "non-zero exit. inspect stderr."@)
        } else {
            Seq::empty()
        },
    );
}

/// However much the command printed, the answer of `exec` shows both streams
/// within their budgets.
pub proof fn law_exec_answer_shows_both_streams(r: ExecResult, truncate: nat)
    ensures
        has_part(
            exec_text(r, truncate),
            block_text(
                0,
                "stdout"@,
                displayed(
                    bytes_of(r.stdout@),
                    bytes_of(r.stdout_tail@),
                    r.stdout_bytes as int,
                    truncate as int,
                ),
            ),
        ),
        r.stderr@.len() > 0 ==> has_part(
            exec_text(r, truncate),
            block_text(
                0,
                "stderr"@,
                displayed(
                    bytes_of(r.stderr@),
                    bytes_of(r.stderr_tail@),
                    r.stderr_bytes as int,
                    if truncate < 2048 {
                        truncate as int
                    } else {
                        2048
                    },
                ),
            ),
        ),
{
    let head = bytes_of(r.stdout@);
    let tail = bytes_of(r.stdout_tail@);
    let ehead = bytes_of(r.stderr@);
    let etail = bytes_of(r.stderr_tail@);
    let budget = stderr_budget(truncate);
    lemma_exec_parts(
        field_text(0, "exit_code"@, signed_decimal(r.exit_code as int)),
        field_text(0, "duration_ms"@, decimal(r.duration_ms as u64 as nat)),
        flag_text("timed_out"@, r.timed_out),
        flag_text("interrupted"@, r.interrupted),
        flag_text("capture_capped"@, r.capture_capped),
        flag_text("connection_lost"@, r.connection_lost),
        sizes_text(
            !fits(head, tail, r.stdout_bytes as int, truncate as int),
            "stdout_bytes"@,
            "stdout_total_bytes"@,
            r.stdout_bytes,
        ),
        sizes_text(
            !fits(ehead, etail, r.stderr_bytes as int, budget),
            "stderr_bytes"@,
            "stderr_total_bytes"@,
            r.stderr_bytes,
        ),
        block_text(0, "stdout"@, displayed(head, tail, r.stdout_bytes as int, truncate as int)),
        if r.stderr@.len() > 0 {
            block_text(0, "stderr"@, displayed(ehead, etail, r.stderr_bytes as int, budget))
        } else {
            Seq::empty()
        },
        if r.exit_code != 0 && !r.timed_out {
            hint_text(0, "non-zero exit. inspect stderr."@)
        } else {
            Seq::empty()
        },
    );
}

/// The answer of `sh` shows the exit code and the output, as it is where it
/// fits.
pub proof fn law_sh_answer_shows_the_output(
    host: Seq<char>,
    shell: Option<Seq<char>>,
    exit_code: i32,
    output: Seq<char>,
    truncate: nat,
)
    requires
        bytes_of(output).len() <= truncate,
    ensures
        has_part(
            sh_text(host, shell, exit_code, output, truncate),
            field_text(0, "exit_code"@, signed_decimal(exit_code as int)),
        ),
        has_part(
            sh_text(host, shell, exit_code, output, truncate),
            block_text(0, "stdout"@, output),
        ),
{
    law_what_fits_is_shown_whole(output, truncate as int);
    let all = sh_text(host, shell, exit_code, output, truncate);
    let head = field_text(0, "host"@, scalar(host)) + (match shell {
        Some(s) => field_text(0, "shell"@, scalar(s)),
        None => Seq::empty(),
    });
    let code = field_text(0, "exit_code"@, signed_decimal(exit_code as int));
    let size = field_text(0, "bytes"@, decimal(bytes_of(output).len()));
    let out = block_text(0, "stdout"@, output);
    let hint = if exit_code != 0 {
        hint_text(0, "non-zero exit. cd preserved across sh calls."@)
    } else {
        Seq::empty()
    };
    assert(all =~= head + code + (size + out + hint));
    lemma_has_part(head, code, size + out + hint);
    assert(all =~= (head + code + size) + out + hint);
    lemma_has_part(head + code + size, out, hint);
}

/// What a batch shows of a command that failed is the start of what it said on
/// standard error, or of its output where it said nothing there: on one line,
/// with nothing else changed. What it shows of one that did not fail is the start
/// of its output, and only where it was asked for.
pub proof fn law_preview_is_a_start(r: ExecResult, verbose: bool)
    ensures
        ({
            let said = if r.exit_code != 0 && trimmed(r.stderr@).len() > 0 {
                trimmed(r.stderr@)
            } else {
                r.stdout@
            };
            let most: int = if r.exit_code != 0 {
                200
            } else if verbose {
                40
            } else {
                0
            };
            let shown = preview_of(r, verbose);
            &&& shown.len() == (if said.len() <= most {
                said.len() as int
            } else {
                most
            })
            &&& forall|i: int|
                0 <= i < shown.len() ==> #[trigger] shown[i] == said[i] || (said[i] == '\n'
                    && shown[i] == ' ')
            &&& !shown.contains('\n')
        }),
{
}

/// The question about a pattern covers every command of the batch that the
/// pattern stops, and no other.
pub proof fn law_question_covers_what_the_pattern_stops(
    g: CompiledView,
    cmds: Seq<Seq<char>>,
    pattern: Seq<char>,
    c: Seq<char>,
)
    ensures
        covered_of(g, cmds, pattern).contains(c) <==> cmds.contains(c) && checked(g, c)
            == CheckView::Confirm(pattern),
    decreases cmds.len(),
{
    let all = covered_of(g, cmds, pattern);
    if cmds.len() == 0 {
    } else {
        let less = cmds.drop_last();
        let before = covered_of(g, less, pattern);
        law_question_covers_what_the_pattern_stops(g, less, pattern, c);
        if before.contains(c) {
            let k = choose|k: int| 0 <= k < before.len() && before[k] == c;
            assert(all[k] == c);
        }
        if less.contains(c) {
            let k = choose|k: int| 0 <= k < less.len() && less[k] == c;
            assert(cmds[k] == c);
        }
        if cmds.contains(c) && !less.contains(c) {
            let k = choose|k: int| 0 <= k < cmds.len() && cmds[k] == c;
            if k < less.len() {
                assert(less[k] == c);
            }
            assert(c == cmds.last());
            if checked(g, c) == CheckView::Confirm(pattern) {
                assert(all[all.len() - 1] == c);
            }
        }
        if all.contains(c) && !before.contains(c) {
            let k = choose|k: int| 0 <= k < all.len() && all[k] == c;
            if k < before.len() {
                assert(before[k] == c);
            }
            assert(cmds[cmds.len() - 1] == c);
        }
    }
}

/// A batch is accepted exactly where it holds between one and 64 commands, none
/// of them longer than 65536 bytes.
pub proof fn law_batch_is_accepted(cmds: Seq<Seq<char>>)
    ensures
        batch_fault(cmds) is None <==> 1 <= cmds.len() <= 64 && forall|i: int|
            0 <= i < cmds.len() ==> bytes_of(#[trigger] cmds[i]).len() <= 65536,
{
    lemma_first_oversize(cmds);
}

proof fn lemma_first_oversize(cmds: Seq<Seq<char>>)
    ensures
        first_oversize(cmds) is None <==> forall|i: int|
            0 <= i < cmds.len() ==> bytes_of(#[trigger] cmds[i]).len() <= 65536,
    decreases cmds.len(),
{
    if cmds.len() > 0 {
        let rest = cmds.skip(1);
        lemma_first_oversize(rest);
        if bytes_of(cmds[0]).len() <= 65536 {
            if first_oversize(rest) is None {
                assert forall|i: int| 0 <= i < cmds.len() implies bytes_of(#[trigger] cmds[i]).len()
                    <= 65536 by {
                    if i > 0 {
                        assert(rest[i - 1] == cmds[i]);
                    }
                }
            } else {
                let i = choose|i: int|
                    0 <= i < rest.len() && bytes_of(#[trigger] rest[i]).len() > 65536;
                assert(cmds[i + 1] == rest[i]);
            }
        }
    }
}

/// A command of a batch is clear only after a yes.
pub proof fn law_only_a_yes_clears(v: BatchVerdict, answer: Answer)
    requires
        batch_settled(v, answer),
    ensures
        v is Clear <==> answer is Approved,
        v is Refused <==> answer is Denied,
        v is Waiting <==> answer is Deferred,
{
}

/// Of stderr as much is shown as of stdout, but never more than two kilobytes.
pub proof fn law_stderr_has_its_own_limit(truncate: nat)
    ensures
        truncate <= 2048 ==> stderr_budget(truncate) == truncate,
        truncate >= 2048 ==> stderr_budget(truncate) == 2048,
{
}

} // verus!

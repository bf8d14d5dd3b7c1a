//! What stands between a tool call and its work: the guard chain, the default
//! host, and the order in which tools are listed.

use vstd::prelude::*;
use vstd::string::*;

use crate::config::HumanDuration;
use crate::confirm::{
    approval_index, byte_views, is_queued, is_remembered, key_for, key_text, known_answer,
    law_approval_lasts_its_time, millis_of, with_approval, Answer, ApprovalView, Approvals, Ask,
    Confirm, KeyedReply, MAX_REMEMBERED_CONFIRMATIONS,
};
use crate::errors::{Result, SshError};
use crate::guards::{checked, CheckView, CompiledGuards, CompiledView, GuardCheck};
use crate::ssh_config::opt_view;
use crate::text::{
    bytes_of, decimal, has_part, in_order, joined3, lemma_has_part, lemma_text_le_total,
    lemma_text_le_transitive, push_decimal, sorted, text_le, views,
};

verus! {

/// How long a finished task stays collectable past the budget its operation
/// was given. A client that polls slowly still gets its result.
pub const TASK_GRACE_MS: u64 = 120000;

/// Freshness hint on `tools/list`. One hour: the set is fixed for the life of
/// the process, and clients cap what they honour anyway.
pub const TOOL_LIST_TTL_MS: u64 = 3600000;

/// How many named shells a host may have open.
pub const MAX_NAMED_PTYS: usize = 8;

// ---------------------------------------------------------------------------
// The guard chain
// ---------------------------------------------------------------------------

/// Verdict of the guard chain when nothing was blocked.
#[derive(Debug)]
pub enum Guarded {
    /// Cleared. The caller may proceed.
    Passed,
    /// A confirmation was queued for the client and no answer exists yet. The
    /// caller must stop and return the questions that wait.
    Deferred,
    /// The user has to be asked now. What the answer means, [`settle`] says.
    Elicit { prompt: String },
}

/// What the user is asked about a sensitive command.
pub open spec fn guard_prompt(host: Seq<char>, pattern: Seq<char>, cmd: Seq<char>) -> Seq<char> {
    "fast-mcp-ssh wants to run a sensitive command on '"@ + host + "' (matches '"@ + pattern
        + "'):\n\n"@ + cmd + "\n\nReply 'yes' to proceed."@
}

fn prompt_for(host: &str, pattern: &str, cmd: &str) -> (r: String)
    ensures
        r@ == guard_prompt(host@, pattern@, cmd@),
{
    let mut s = joined3(
        "fast-mcp-ssh wants to run a sensitive command on '",
        host,
        "' (matches '",
    );
    s.push_str(pattern);
    s.push_str("'):\n\n");
    s.push_str(cmd);
    s.push_str("\n\nReply 'yes' to proceed.");
    s
}

/// The key of the question about a command on a host.
pub open spec fn command_key(host: Seq<char>, cmd: Seq<char>) -> Seq<char> {
    key_text(seq![bytes_of(host), bytes_of(cmd)])
}

/// The approvals once one was looked up: one that is too old is forgotten.
pub open spec fn after_lookup(
    s: Seq<ApprovalView>,
    host: Seq<char>,
    cmd: Seq<char>,
    now_ms: u64,
    ttl: HumanDuration,
) -> Seq<ApprovalView> {
    if !is_remembered(s, host, cmd, now_ms, ttl) && millis_of(ttl) != 0 && approval_index(
        s,
        host,
        cmd,
    ) < s.len() {
        s.remove(approval_index(s, host, cmd))
    } else {
        s
    }
}

/// Looking an approval up adds none.
pub proof fn lemma_lookup_keeps(
    s: Seq<ApprovalView>,
    host: Seq<char>,
    cmd: Seq<char>,
    now_ms: u64,
    ttl: HumanDuration,
)
    ensures
        forall|k: int|
            0 <= k < after_lookup(s, host, cmd, now_ms, ttl).len() ==> s.contains(
                #[trigger] after_lookup(s, host, cmd, now_ms, ttl)[k],
            ),
{
    lemma_index_in_range(s, host, cmd);
    let t = after_lookup(s, host, cmd, now_ms, ttl);
    let i = approval_index(s, host, cmd);
    assert forall|k: int| 0 <= k < t.len() implies s.contains(#[trigger] t[k]) by {
        if t.len() == s.len() || k < i {
            assert(s[k] == t[k]);
        } else {
            assert(s[k + 1] == t[k]);
        }
    }
}

proof fn lemma_index_in_range(s: Seq<ApprovalView>, host: Seq<char>, cmd: Seq<char>)
    ensures
        0 <= approval_index(s, host, cmd) <= s.len(),
    decreases s.len(),
{
    if s.len() > 0 {
        lemma_index_in_range(s.skip(1), host, cmd);
    }
}

/// What a known answer means for the call.
pub open spec fn settled(r: Result<Guarded>, answer: Answer) -> bool {
    match answer {
        Answer::Approved => r is Ok && r->Ok_0 is Passed,
        Answer::Denied => r is Err && r->Err_0 is ConfirmationDenied,
        Answer::Deferred => r is Ok && r->Ok_0 is Deferred,
    }
}

/// What an answer means for the call. An approval is remembered.
pub fn settle(
    answer: Answer,
    approvals: &mut Approvals,
    host: &str,
    cmd: &str,
    now_ms: u64,
    ttl: HumanDuration,
) -> (r: Result<Guarded>)
    ensures
        settled(r, answer),
        final(approvals)@ == (if answer == Answer::Approved {
            with_approval(old(approvals)@, host@, cmd@, now_ms, ttl)
        } else {
            old(approvals)@
        }),
{
    match answer {
        Answer::Approved => {
            approvals.remember(host, cmd, now_ms, ttl);
            Ok(Guarded::Passed)
        },
        Answer::Denied => Err(SshError::ConfirmationDenied),
        Answer::Deferred => Ok(Guarded::Deferred),
    }
}

/// What the guard chain goes by.
pub struct ChainRules {
    pub guards: CompiledView,
    /// The client answers questions by calling again.
    pub multi_round: bool,
    pub replies: Seq<KeyedReply>,
    pub now_ms: u64,
    pub ttl: HumanDuration,
}

/// What the guard chain changes: the approvals, and the questions that wait.
#[verifier::ext_equal]
pub struct ChainState {
    pub approvals: Seq<ApprovalView>,
    pub queue: Seq<(Seq<char>, Seq<char>)>,
}

/// How a command fares with the guard chain.
pub enum ChainView {
    /// No pattern stops it.
    Allowed,
    /// The user approved it a moment ago.
    Remembered,
    /// The client brought the user's approval.
    Approved,
    /// The client brought another answer than a yes.
    Denied,
    /// The question waits for the client.
    Wait,
    /// The user has to be asked this now.
    Ask(Seq<char>),
    /// A pattern denies it: its name and text.
    Blocked(Seq<char>, Seq<char>),
}

/// The guard chain for one command on one host.
pub open spec fn chain(r: ChainRules, s: ChainState, host: Seq<char>, cmd: Seq<char>) -> (
    ChainState,
    ChainView,
) {
    match checked(r.guards, cmd) {
        CheckView::Allow => (s, ChainView::Allowed),
        CheckView::Deny(name, pattern) => (s, ChainView::Blocked(name, pattern)),
        CheckView::Confirm(name) => if is_remembered(s.approvals, host, cmd, r.now_ms, r.ttl) {
            (s, ChainView::Remembered)
        } else {
            let looked = after_lookup(s.approvals, host, cmd, r.now_ms, r.ttl);
            let key = command_key(host, cmd);
            let prompt = guard_prompt(host, name, cmd);
            if !r.multi_round {
                (ChainState { approvals: looked, ..s }, ChainView::Ask(prompt))
            } else {
                match known_answer(r.replies, key) {
                    Some(Answer::Approved) => (
                        ChainState {
                            approvals: with_approval(looked, host, cmd, r.now_ms, r.ttl),
                            ..s
                        },
                        ChainView::Approved,
                    ),
                    Some(Answer::Denied) => (
                        ChainState { approvals: looked, ..s },
                        ChainView::Denied,
                    ),
                    _ => (
                        ChainState {
                            approvals: looked,
                            queue: if is_queued(s.queue, key) {
                                s.queue
                            } else {
                                s.queue.push((key, prompt))
                            },
                        },
                        ChainView::Wait,
                    ),
                }
            }
        },
    }
}

pub open spec fn chain_rules(
    guards: CompiledView,
    confirm: Confirm,
    now_ms: u64,
    ttl: HumanDuration,
) -> ChainRules {
    ChainRules {
        guards,
        multi_round: confirm.is_multi_round(),
        replies: confirm.replies(),
        now_ms,
        ttl,
    }
}

pub open spec fn chain_state(approvals: Approvals, confirm: Confirm) -> ChainState {
    ChainState { approvals: approvals@, queue: confirm.queue() }
}

/// What the caller is told of how a command fares.
pub open spec fn tells(r: Result<Guarded>, view: ChainView) -> bool {
    match view {
        ChainView::Allowed | ChainView::Remembered | ChainView::Approved => r is Ok
            && r->Ok_0 is Passed,
        ChainView::Denied => r is Err && r->Err_0 is ConfirmationDenied,
        ChainView::Wait => r is Ok && r->Ok_0 is Deferred,
        ChainView::Ask(prompt) => r is Ok && r->Ok_0 is Elicit && r->Ok_0->prompt@ == prompt,
        ChainView::Blocked(name, pattern) => r is Err && r->Err_0 is BlockedByGuard
            && r->Err_0->name@ == name && r->Err_0->pattern@ == pattern,
    }
}

/// The guard chain for one command on one host, up to the point where the user
/// has to be asked.
pub fn run_guards(
    guards: &CompiledGuards,
    approvals: &mut Approvals,
    confirm: &mut Confirm,
    host: &str,
    cmd: &str,
    now_ms: u64,
    ttl: HumanDuration,
) -> (r: Result<Guarded>)
    ensures
        final(confirm).is_multi_round() == old(confirm).is_multi_round(),
        final(confirm).replies() == old(confirm).replies(),
        ({
            let (after, view) = chain(
                chain_rules(guards@, *old(confirm), now_ms, ttl),
                chain_state(*old(approvals), *old(confirm)),
                host@,
                cmd@,
            );
            &&& chain_state(*final(approvals), *final(confirm)) == after
            &&& tells(r, view)
        }),
{
    match guards.check(cmd) {
        GuardCheck::Allow => Ok(Guarded::Passed),
        GuardCheck::Deny { pattern_name, pattern } => Err(
            SshError::BlockedByGuard { name: pattern_name, pattern },
        ),
        GuardCheck::Confirm { pattern_name } => {
            if approvals.remembered(host, cmd, now_ms, ttl) {
                return Ok(Guarded::Passed);
            }
            let prompt = prompt_for(host, pattern_name.as_str(), cmd);
            let parts: [&str; 2] = [host, cmd];
            let key = key_for(&parts);
            assert(byte_views(parts@) =~= seq![bytes_of(host@), bytes_of(cmd@)]);
            match confirm.ask(key.as_str(), prompt.as_str()) {
                Ask::Elicit => Ok(Guarded::Elicit { prompt }),
                Ask::Known(answer) => settle(answer, approvals, host, cmd, now_ms, ttl),
            }
        },
    }
}

/// A client that cannot answer is denied, and so is every answer but a yes:
/// nothing that a confirm pattern matches runs without an approval.
pub proof fn law_unapproved_is_not_run(r: Result<Guarded>, answer: Answer)
    requires
        settled(r, answer),
        answer != Answer::Approved,
    ensures
        !(r is Ok && r->Ok_0 is Passed),
{
}

/// What the guard chain lets through, no pattern stops, or the user approved:
/// a moment ago, or in the answer that the client brought.
pub proof fn law_stopped_command_needs_a_yes(
    r: ChainRules,
    s: ChainState,
    host: Seq<char>,
    cmd: Seq<char>,
)
    requires
        ({
            let view = chain(r, s, host, cmd).1;
            view is Allowed || view is Remembered || view is Approved
        }),
    ensures
        checked(r.guards, cmd) is Allow || (checked(r.guards, cmd) is Confirm && (is_remembered(
            s.approvals,
            host,
            cmd,
            r.now_ms,
            r.ttl,
        ) || (r.multi_round && known_answer(r.replies, command_key(host, cmd)) == Some(
            Answer::Approved,
        )))),
{
}

// ---------------------------------------------------------------------------
// Hosts, shells and tasks
// ---------------------------------------------------------------------------

/// The host of a call: the one it names, else the default one.
pub fn resolve_host(named: Option<String>, default_host: &Option<String>) -> (r: Result<String>)
    ensures
        match r {
            Ok(h) => Some(h@) == (if named is Some {
                opt_view(named)
            } else {
                opt_view(*default_host)
            }),
            Err(e) => named is None && *default_host is None && e is Config && e->Config_0@
                == "host required (or set [defaults] default_host)"@,
        },
{
    match named {
        Some(h) => Ok(h),
        None => match default_host {
            Some(h) => Ok(h.clone()),
            None => Err(
                SshError::Config("host required (or set [defaults] default_host)".to_owned()),
            ),
        },
    }
}

/// What a call is told when a host has too many named shells.
pub open spec fn too_many_shells(open: nat) -> Seq<char> {
    "too many named shells on this host ("@ + decimal(open) + "/"@ + decimal(
        MAX_NAMED_PTYS as nat,
    ) + "). Close one with `shells close=<name>` before opening another."@
}

/// Each named shell holds a channel slot until the session dies. Unbounded,
/// they exhaust the slots of the host and every later call on it times out with
/// no hint about why.
pub fn check_shell_slot(open: usize) -> (r: Result<()>)
    ensures
        r is Ok <==> open < MAX_NAMED_PTYS,
        r is Err ==> r->Err_0 is Config && r->Err_0->Config_0@ == too_many_shells(open as nat),
{
    if open < MAX_NAMED_PTYS {
        return Ok(());
    }
    let mut m = "too many named shells on this host (".to_owned();
    push_decimal(&mut m, open as u64);
    m.push_str("/");
    push_decimal(&mut m, MAX_NAMED_PTYS as u64);
    m.push_str("). Close one with `shells close=<name>` before opening another.");
    Err(SshError::Config(m))
}

/// How long a task's result can be collected: the budget of its operation and a
/// grace period on top.
pub fn task_ttl_ms(budget_ms: u64) -> (r: u64)
    requires
        budget_ms + TASK_GRACE_MS <= u64::MAX,
    ensures
        r == budget_ms + TASK_GRACE_MS,
{
    budget_ms + TASK_GRACE_MS
}

// ---------------------------------------------------------------------------
// The listing
// ---------------------------------------------------------------------------

/// How long a client may keep the listing, where it understands the hint.
pub fn listing_ttl_ms(understands: bool) -> (r: Option<u64>)
    ensures
        r == (if understands {
            Some(TOOL_LIST_TTL_MS)
        } else {
            None
        }),
{
    if understands {
        Some(TOOL_LIST_TTL_MS)
    } else {
        None
    }
}

/// `order` visits each of `n` things once.
pub open spec fn visits_each(order: Seq<usize>, n: nat) -> bool {
    &&& order.len() == n
    &&& order.no_duplicates()
    &&& forall|i: int| 0 <= i < order.len() ==> #[trigger] order[i] < n
}

/// The names come in dictionary order when they are visited in `order`.
pub open spec fn in_name_order(names: Seq<Seq<char>>, order: Seq<usize>) -> bool {
    forall|i: int, j: int|
        0 <= i <= j < order.len() ==> text_le(
            names[(#[trigger] order[i]) as int],
            names[(#[trigger] order[j]) as int],
        )
}

/// The order in which tools are listed: by name, so the listing is the same
/// after a restart.
pub fn listing_order(names: &Vec<String>) -> (r: Vec<usize>)
    ensures
        visits_each(r@, names@.len()),
        in_name_order(views(names@), r@),
{
    let ghost ns = views(names@);
    let mut order: Vec<usize> = Vec::new();
    let mut k: usize = 0;
    while k < names.len()
        invariant
            k <= names@.len(),
            ns == views(names@),
            visits_each(order@, k as nat),
            in_name_order(ns, order@),
        decreases names@.len() - k,
    {
        let mut i: usize = 0;
        while i < order.len() && in_order(names[order[i]].as_str(), names[k].as_str())
            invariant
                k < names@.len(),
                ns == views(names@),
                visits_each(order@, k as nat),
                i <= order@.len(),
                forall|j: int|
                    0 <= j < i ==> text_le(ns[(#[trigger] order@[j]) as int], ns[k as int]),
            decreases order@.len() - i,
        {
            i = i + 1;
        }
        let ghost before = order@;
        proof {
            if i < before.len() {
                lemma_text_le_total(ns[before[i as int] as int], ns[k as int]);
            }
            lemma_text_le_total(ns[k as int], ns[k as int]);
        }
        order.insert(i, k);
        proof {
            let after = order@;
            assert(after == before.insert(i as int, k));
            assert forall|a: int, b: int| 0 <= a < b < after.len() implies after[a] != after[b] by {
                let x = if a < i { a } else { a - 1 };
                let y = if b < i { b } else { b - 1 };
                if a != i && b != i {
                    assert(after[a] == before[x] && after[b] == before[y]);
                } else if a == i {
                    assert(after[b] == before[y]);
                } else {
                    assert(after[a] == before[x]);
                }
            }
            assert(after.no_duplicates());
            assert forall|a: int| 0 <= a < after.len() implies #[trigger] after[a] < k + 1 by {
                if a != i {
                    let x = if a < i { a } else { a - 1 };
                    assert(after[a] == before[x]);
                }
            }
            assert forall|a: int, b: int| 0 <= a <= b < after.len() implies text_le(
                ns[(#[trigger] after[a]) as int],
                ns[(#[trigger] after[b]) as int],
            ) by {
                let x = if a < i { a } else { a - 1 };
                let y = if b < i { b } else { b - 1 };
                if a != i && b != i {
                    assert(after[a] == before[x] && after[b] == before[y]);
                } else if a == i && b > i {
                    assert(after[b] == before[y]);
                    assert(text_le(ns[before[i as int] as int], ns[before[y] as int]));
                    lemma_text_le_transitive(
                        ns[k as int],
                        ns[before[i as int] as int],
                        ns[before[y] as int],
                    );
                } else if b == i && a < i {
                    assert(after[a] == before[x]);
                }
            }
        }
        k = k + 1;
    }
    order
}

/// The names as they are listed.
pub open spec fn listed_names(names: Seq<Seq<char>>, order: Seq<usize>) -> Seq<Seq<char>> {
    Seq::new(order.len(), |i: int| names[order[i] as int])
}

/// An order that visits each of `n` things reaches every one of them.
proof fn lemma_reaches(order: Seq<usize>, n: nat, k: int) -> (i: int)
    requires
        visits_each(order, n),
        0 <= k < n,
    ensures
        0 <= i < order.len(),
        order[i] == k,
{
    let o = order.map_values(|x: usize| x as int);
    assert(o.no_duplicates());
    o.unique_seq_to_set();
    vstd::set_lib::lemma_int_range(0, n as int);
    let range = vstd::set_lib::set_int_range(0, n as int);
    assert(o.to_set().subset_of(range)) by {
        assert forall|x: int| o.to_set().contains(x) implies range.contains(x) by {
            let i = choose|i: int| 0 <= i < o.len() && o[i] == x;
            assert(order[i] < n);
        }
    }
    vstd::set_lib::lemma_subset_equality(o.to_set(), range);
    assert(o.to_set().contains(k));
    let i = choose|i: int| 0 <= i < o.len() && o[i] == k;
    i
}

proof fn lemma_listed_names(names: Seq<Seq<char>>, order: Seq<usize>)
    requires
        names.no_duplicates(),
        visits_each(order, names.len()),
        in_name_order(names, order),
    ensures
        listed_names(names, order).no_duplicates(),
        sorted(listed_names(names, order)),
        forall|n: Seq<char>| #[trigger]
            listed_names(names, order).contains(n) <==> names.contains(n),
{
    let l = listed_names(names, order);
    assert forall|i: int, j: int| 0 <= i < l.len() && 0 <= j < l.len() && i != j implies l[i]
        != l[j] by {
        assert(order[i] != order[j]);
        assert(order[i] < names.len() && order[j] < names.len());
    }
    assert forall|n: Seq<char>| #[trigger] l.contains(n) <==> names.contains(n) by {
        if l.contains(n) {
            let i = choose|i: int| 0 <= i < l.len() && l[i] == n;
            assert(order[i] < names.len());
            assert(names[order[i] as int] == n);
        }
        if names.contains(n) {
            let k = choose|k: int| 0 <= k < names.len() && names[k] == n;
            let i = lemma_reaches(order, names.len(), k);
            assert(l[i] == n);
        }
    }
}

proof fn lemma_sorted_lists_agree(a: Seq<Seq<char>>, b: Seq<Seq<char>>)
    requires
        a.no_duplicates() && b.no_duplicates(),
        sorted(a) && sorted(b),
        forall|n: Seq<char>| #[trigger] a.contains(n) <==> b.contains(n),
    ensures
        a == b,
    decreases a.len(),
{
    if a.len() == 0 {
        if b.len() > 0 {
            assert(b.contains(b[0]));
            assert(a.contains(b[0]));
        }
        assert(a =~= b);
    } else {
        assert(a.contains(a[0]));
        let j = choose|j: int| 0 <= j < b.len() && b[j] == a[0];
        assert(b.contains(b[0]));
        assert(a.contains(b[0]));
        let i = choose|i: int| 0 <= i < a.len() && a[i] == b[0];
        assert(text_le(a[0], a[i]));
        assert(text_le(b[0], b[j]));
        lemma_text_le_total(a[0], b[0]);
        let (x, y) = (a.skip(1), b.skip(1));
        assert forall|n: Seq<char>| #[trigger] x.contains(n) <==> y.contains(n) by {
            if x.contains(n) {
                let k = choose|k: int| 0 <= k < x.len() && x[k] == n;
                assert(a[k + 1] == n);
                assert(a.contains(n));
                let m = choose|m: int| 0 <= m < b.len() && b[m] == n;
                assert(y[m - 1] == n);
            }
            if y.contains(n) {
                let k = choose|k: int| 0 <= k < y.len() && y[k] == n;
                assert(b[k + 1] == n);
                assert(b.contains(n));
                assert(a.contains(n));
                assert(b[k + 1] != b[0]);
                let m = choose|m: int| 0 <= m < a.len() && a[m] == n;
                assert(x[m - 1] == n);
            }
        }
        assert forall|p: int, q: int| 0 <= p <= q < x.len() implies text_le(
            #[trigger] x[p],
            #[trigger] x[q],
        ) by {
            assert(text_le(a[p + 1], a[q + 1]));
        }
        assert forall|p: int, q: int| 0 <= p <= q < y.len() implies text_le(
            #[trigger] y[p],
            #[trigger] y[q],
        ) by {
            assert(text_le(b[p + 1], b[q + 1]));
        }
        lemma_sorted_lists_agree(x, y);
        assert(a =~= seq![a[0]] + x);
        assert(b =~= seq![b[0]] + y);
    }
}

/// Two servers with the same tools list them alike, in whichever order the tools
/// were registered: the listing is the same after a restart.
pub proof fn law_listing_is_the_same(
    a: Seq<Seq<char>>,
    order_a: Seq<usize>,
    b: Seq<Seq<char>>,
    order_b: Seq<usize>,
)
    requires
        a.no_duplicates() && b.no_duplicates(),
        forall|n: Seq<char>| #[trigger] a.contains(n) <==> b.contains(n),
        visits_each(order_a, a.len()) && in_name_order(a, order_a),
        visits_each(order_b, b.len()) && in_name_order(b, order_b),
    ensures
        listed_names(a, order_a) == listed_names(b, order_b),
{
    lemma_listed_names(a, order_a);
    lemma_listed_names(b, order_b);
    let (x, y) = (listed_names(a, order_a), listed_names(b, order_b));
    assert forall|n: Seq<char>| #[trigger] x.contains(n) <==> y.contains(n) by {
        assert(a.contains(n) <==> b.contains(n));
    }
    lemma_sorted_lists_agree(x, y);
}

/// What the user approved once is not asked about again while the approval lasts.
pub proof fn law_approved_command_is_not_asked_again(
    r: ChainRules,
    s: ChainState,
    host: Seq<char>,
    cmd: Seq<char>,
)
    requires
        chain(r, s, host, cmd).1 is Approved,
        millis_of(r.ttl) > 0,
        s.approvals.len() < MAX_REMEMBERED_CONFIRMATIONS,
    ensures
        chain(r, chain(r, s, host, cmd).0, host, cmd).1 is Remembered,
{
    let looked = after_lookup(s.approvals, host, cmd, r.now_ms, r.ttl);
    lemma_index_in_range(s.approvals, host, cmd);
    law_approval_lasts_its_time(looked, host, cmd, r.now_ms, r.now_ms, r.ttl);
}

/// The question about a command shows the command and the host that it would run
/// on, and a question that waits can be found under its key.
pub proof fn law_question_shows_the_command(
    r: ChainRules,
    s: ChainState,
    host: Seq<char>,
    pattern: Seq<char>,
    cmd: Seq<char>,
)
    ensures
        has_part(guard_prompt(host, pattern, cmd), cmd),
        has_part(guard_prompt(host, pattern, cmd), host),
        chain(r, s, host, cmd).1 is Wait ==> is_queued(
            chain(r, s, host, cmd).0.queue,
            command_key(host, cmd),
        ),
{
    let a = "fast-mcp-ssh wants to run a sensitive command on '"@;
    let b = "' (matches '"@;
    let c = "'):\n\n"@;
    let d = "\n\nReply 'yes' to proceed."@;
    let all = guard_prompt(host, pattern, cmd);
    lemma_has_part(a + host + b + pattern + c, cmd, d);
    lemma_has_part(a, host, b + pattern + c + cmd + d);
    assert(all =~= a + host + (b + pattern + c + cmd + d));
    if chain(r, s, host, cmd).1 is Wait {
        let q = chain(r, s, host, cmd).0.queue;
        if !is_queued(s.queue, command_key(host, cmd)) {
            assert(q[q.len() - 1].0 == command_key(host, cmd));
        }
    }
}

/// Only a yes lets a call pass, and a no is told as one.
pub proof fn law_only_a_yes_passes(r: Result<Guarded>, answer: Answer)
    requires
        settled(r, answer),
    ensures
        r is Ok && r->Ok_0 is Passed <==> answer is Approved,
        r is Err && r->Err_0 is ConfirmationDenied <==> answer is Denied,
        r is Ok && r->Ok_0 is Deferred <==> answer is Deferred,
{
}

/// The caller is told that a command passed only where no pattern stops it or
/// the user approved it.
pub proof fn law_only_cleared_commands_pass(r: Result<Guarded>, view: ChainView)
    requires
        tells(r, view),
    ensures
        r is Ok && r->Ok_0 is Passed <==> view is Allowed || view is Remembered || view is Approved,
        r is Err <==> view is Denied || view is Blocked,
        r is Ok && r->Ok_0 is Elicit <==> view is Ask,
        r is Ok && r->Ok_0 is Deferred <==> view is Wait,
{
}

} // verus!

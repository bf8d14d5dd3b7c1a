//! Asking the user before a sensitive call, and remembering the answer.
//!
//! A peer may be asked where the call stands, or be handed the question as the
//! call's result and answer it on a retry. The retry re-runs the call from its
//! first line, so a question has a key that depends on what is asked alone.

use vstd::prelude::*;
use vstd::string::*;

use crate::config::HumanDuration;
use crate::text::{
    hex_padded, is_space, law_lower_changes_only_capitals, law_white_space, lower, lower_char,
    push_hex16, same, to_lower, trim, trimmed, trimmed_end, trimmed_start,
};

verus! {

/// What a caller learned from asking.
#[derive(Debug, Clone, Copy, PartialEq, Eq, Structural)]
pub enum Answer {
    /// The user said yes.
    Approved,
    /// The user said no, cancelled, or the ask never made it through. Every
    /// non-yes collapses here: confirmation fails closed.
    Denied,
    /// The ask was queued for the client and no answer exists yet. The caller
    /// must stop and hand the question back instead of doing the work.
    Deferred,
}

/// What the user did with a question.
#[derive(Debug, Clone, Copy, PartialEq, Eq, Structural)]
pub enum ReplyAction {
    Accept,
    Decline,
    Cancel,
}

/// A user's reply: what was done, and what was typed, where anything was.
#[derive(Debug, Clone)]
pub struct Reply {
    pub action: ReplyAction,
    pub answer: Option<String>,
}

/// A reply that a client sent back, under the key of its question. One that
/// could not be read is kept as such.
#[derive(Debug, Clone)]
pub struct KeyedReply {
    pub key: String,
    pub reply: Option<Reply>,
}

/// The word that approves, with any case and any space around it.
pub open spec fn is_yes(answer: Seq<char>) -> bool {
    lower(trimmed(answer)) == "yes"@
}

/// Only a reply that accepts, and says yes, approves.
pub open spec fn approves(r: Reply) -> bool {
    r.action == ReplyAction::Accept && r.answer is Some && is_yes(r.answer->0@)
}

fn says_yes(answer: &str) -> (r: bool)
    ensures
        r == is_yes(answer@),
{
    let t = trim(answer);
    let l = to_lower(t.as_str());
    same(l.as_str(), "yes")
}

/// What a reply means.
pub fn yes_from(reply: &Reply) -> (r: Answer)
    ensures
        r == (if approves(*reply) {
            Answer::Approved
        } else {
            Answer::Denied
        }),
{
    let accepted = match reply.action {
        ReplyAction::Accept => true,
        _ => false,
    };
    let yes = match &reply.answer {
        Some(a) => says_yes(a.as_str()),
        None => false,
    };
    if accepted && yes {
        Answer::Approved
    } else {
        Answer::Denied
    }
}

/// What asking where the call stands means: `answer` is what the user typed,
/// and nothing where the question did not get through.
pub fn answer_from_elicitation(answer: Option<&str>) -> (r: Answer)
    ensures
        r == (if answer is Some && is_yes(answer->0@) {
            Answer::Approved
        } else {
            Answer::Denied
        }),
{
    match answer {
        Some(a) => if says_yes(a) {
            Answer::Approved
        } else {
            Answer::Denied
        },
        None => Answer::Denied,
    }
}

/// The answer that the replies of an earlier round hold for a key. A reply that
/// cannot be read denies.
pub open spec fn known_answer(replies: Seq<KeyedReply>, key: Seq<char>) -> Option<Answer>
    decreases replies.len(),
{
    if replies.len() == 0 {
        None
    } else if replies[0].key@ == key {
        match replies[0].reply {
            Some(r) => if approves(r) {
                Some(Answer::Approved)
            } else {
                Some(Answer::Denied)
            },
            None => Some(Answer::Denied),
        }
    } else {
        known_answer(replies.skip(1), key)
    }
}

/// The answer a previous round produced for `key`, or `None` when the client
/// has not been asked yet. Reads without removing: a batch may reach the same
/// key from several commands and each of them has to see the same answer.
pub fn answer_for(answers: &Vec<KeyedReply>, key: &str) -> (r: Option<Answer>)
    ensures
        r == known_answer(answers@, key@),
{
    assert(answers@.skip(0) =~= answers@);
    let mut i: usize = 0;
    while i < answers.len()
        invariant
            i <= answers@.len(),
            known_answer(answers@, key@) == known_answer(answers@.skip(i as int), key@),
        decreases answers@.len() - i,
    {
        if same(answers[i].key.as_str(), key) {
            return match &answers[i].reply {
                Some(r) => Some(yes_from(r)),
                None => Some(Answer::Denied),
            };
        }
        assert(answers@.skip(i as int).skip(1) =~= answers@.skip(i + 1));
        i = i + 1;
    }
    None
}

/// An answer approves only where a reply under its key accepts and says yes:
/// every other outcome denies.
pub proof fn law_confirmation_fails_closed(replies: Seq<KeyedReply>, key: Seq<char>)
    ensures
        known_answer(replies, key) != Some(Answer::Deferred),
        known_answer(replies, key) == Some(Answer::Approved) ==> exists|i: int|
            0 <= i < replies.len() && (#[trigger] replies[i]).key@ == key && replies[i].reply is Some
                && approves(replies[i].reply->0),
    decreases replies.len(),
{
    if replies.len() > 0 {
        if replies[0].key@ != key {
            let rest = replies.skip(1);
            law_confirmation_fails_closed(rest, key);
            if known_answer(rest, key) == Some(Answer::Approved) {
                let i = choose|i: int|
                    0 <= i < rest.len() && (#[trigger] rest[i]).key@ == key && rest[i].reply is Some
                        && approves(rest[i].reply->0);
                assert(replies[i + 1] == rest[i]);
            }
        }
    }
}

// ---------------------------------------------------------------------------
// Keys
// ---------------------------------------------------------------------------

/// One step of the FNV-1a hash.
pub open spec fn mixed(hash: u64, byte: u8) -> u64 {
    ((hash ^ (byte as u64)) as int * 0x0000_0100_0000_01b3 % 0x1_0000_0000_0000_0000) as u64
}

/// The FNV-1a hash of `bytes`, begun from `hash`.
pub open spec fn hashed(hash: u64, bytes: Seq<u8>) -> u64
    decreases bytes.len(),
{
    if bytes.len() == 0 {
        hash
    } else {
        mixed(hashed(hash, bytes.drop_last()), bytes.last())
    }
}

/// The bytes that a key is made from: the parts, with a zero byte between them.
pub open spec fn key_bytes(parts: Seq<Seq<u8>>) -> Seq<u8>
    decreases parts.len(),
{
    if parts.len() == 0 {
        Seq::empty()
    } else if parts.len() == 1 {
        parts[0]
    } else {
        key_bytes(parts.drop_last()).push(0u8) + parts.last()
    }
}

/// The key of a question about these parts.
pub open spec fn key_text(parts: Seq<Seq<u8>>) -> Seq<char> {
    "confirm-"@ + hex_padded(hashed(0xcbf2_9ce4_8422_2325u64, key_bytes(parts)) as nat, 16)
}

/// The bytes of each part.
pub open spec fn byte_views(parts: Seq<&str>) -> Seq<Seq<u8>> {
    Seq::new(parts.len(), |i: int| parts[i].spec_bytes())
}

proof fn lemma_hashed_append(hash: u64, a: Seq<u8>, b: Seq<u8>)
    ensures
        hashed(hash, a + b) == hashed(hashed(hash, a), b),
    decreases b.len(),
{
    if b.len() == 0 {
        assert(a + b =~= a);
    } else {
        lemma_hashed_append(hash, a, b.drop_last());
        assert((a + b).drop_last() =~= a + b.drop_last());
    }
}

fn mix(hash: u64, byte: u8) -> (r: u64)
    ensures
        r == mixed(hash, byte),
{
    (hash ^ byte as u64).wrapping_mul(0x0000_0100_0000_01b3)
}

/// A key for what is being confirmed. Stable across rounds because it is a
/// pure function of `parts`, which the retry rebuilds from the same arguments.
pub fn key_for(parts: &[&str]) -> (r: String)
    ensures
        r@ == key_text(byte_views(parts@)),
{
    let ghost all = byte_views(parts@);
    let ghost seed: u64 = 0xcbf2_9ce4_8422_2325u64;
    let mut hash: u64 = 0xcbf2_9ce4_8422_2325;
    let mut i: usize = 0;
    assert(key_bytes(all.take(0)) =~= Seq::empty());
    while i < parts.len()
        invariant
            i <= parts@.len(),
            all == byte_views(parts@),
            hash == hashed(seed, key_bytes(all.take(i as int))),
        decreases parts@.len() - i,
    {
        let ghost before = key_bytes(all.take(i as int));
        let ghost sep = if i > 0 {
            before.push(0u8)
        } else {
            before
        };
        if i > 0 {
            hash = mix(hash, 0);
            assert(before.push(0u8).drop_last() =~= before);
        }
        let bytes = parts[i].as_bytes();
        let mut j: usize = 0;
        assert(bytes@.take(0) =~= Seq::empty());
        assert(hash == hashed(seed, sep));
        let ghost start = hash;
        while j < bytes.len()
            invariant
                j <= bytes@.len(),
                hash == hashed(start, bytes@.take(j as int)),
            decreases bytes@.len() - j,
        {
            hash = mix(hash, bytes[j]);
            assert(bytes@.take(j + 1).drop_last() =~= bytes@.take(j as int));
            j = j + 1;
        }
        proof {
            assert(bytes@.take(j as int) =~= bytes@);
            lemma_hashed_append(seed, sep, bytes@);
            assert(all.take(i + 1).drop_last() =~= all.take(i as int));
            assert(all.take(i + 1).last() == bytes@);
            assert(key_bytes(all.take(i + 1)) =~= sep + bytes@);
        }
        i = i + 1;
    }
    assert(all.take(i as int) =~= all);
    let mut s = "confirm-".to_owned();
    push_hex16(&mut s, hash);
    s
}

/// Parts without a zero byte are kept apart: what is hashed for two lists of as
/// many parts is the same only where the parts are.
pub proof fn law_key_fields_are_separated(a: Seq<Seq<u8>>, b: Seq<Seq<u8>>)
    requires
        a.len() == b.len(),
        forall|i: int| 0 <= i < a.len() ==> !(#[trigger] a[i]).contains(0u8),
        forall|i: int| 0 <= i < b.len() ==> !(#[trigger] b[i]).contains(0u8),
        key_bytes(a) == key_bytes(b),
    ensures
        a == b,
    decreases a.len(),
{
    if a.len() == 0 {
        assert(a =~= b);
    } else if a.len() == 1 {
        assert(a =~= b);
    } else {
        let s = key_bytes(a);
        let x = key_bytes(a.drop_last());
        let y = key_bytes(b.drop_last());
        assert(!a[a.len() - 1].contains(0u8));
        assert(!b[b.len() - 1].contains(0u8));
        assert(s == x.push(0u8) + a.last());
        assert(s == y.push(0u8) + b.last());
        if x.len() < y.len() {
            assert(s[y.len() as int] == 0u8);
            assert(s[y.len() as int] == a.last()[y.len() - x.len() - 1]);
            assert(a.last().contains(0u8));
        } else if y.len() < x.len() {
            assert(s[x.len() as int] == 0u8);
            assert(s[x.len() as int] == b.last()[x.len() - y.len() - 1]);
            assert(b.last().contains(0u8));
        }
        assert(x =~= s.take(x.len() as int));
        assert(y =~= s.take(y.len() as int));
        assert(a.last() =~= s.skip(x.len() as int + 1));
        assert(b.last() =~= s.skip(y.len() as int + 1));
        assert forall|i: int| 0 <= i < a.drop_last().len() implies !(#[trigger] a.drop_last()[i]).contains(
            0u8,
        ) by {
            assert(a.drop_last()[i] == a[i]);
        }
        assert forall|i: int| 0 <= i < b.drop_last().len() implies !(#[trigger] b.drop_last()[i]).contains(
            0u8,
        ) by {
            assert(b.drop_last()[i] == b[i]);
        }
        law_key_fields_are_separated(a.drop_last(), b.drop_last());
        assert(a =~= a.drop_last().push(a.last()));
        assert(b =~= b.drop_last().push(b.last()));
    }
}

// ---------------------------------------------------------------------------
// One call's questions
// ---------------------------------------------------------------------------

/// A question that waits for the client.
#[derive(Debug, Clone)]
pub struct Question {
    pub key: String,
    pub prompt: String,
}

/// The keys and prompts of a list of questions.
pub open spec fn question_views(s: Seq<Question>) -> Seq<(Seq<char>, Seq<char>)> {
    Seq::new(s.len(), |i: int| (s[i].key@, s[i].prompt@))
}

/// A question under this key waits already.
pub open spec fn is_queued(s: Seq<(Seq<char>, Seq<char>)>, key: Seq<char>) -> bool {
    exists|i: int| 0 <= i < s.len() && (#[trigger] s[i]).0 == key
}

/// What to do about a question.
#[derive(Debug, Clone, Copy, PartialEq, Eq, Structural)]
pub enum Ask {
    /// Ask the user now, and take what comes back for the answer.
    Elicit,
    /// The answer is known, or is to be waited for.
    Known(Answer),
}

/// Collects the confirmations one tool call needs.
pub struct Confirm {
    /// True once the peer negotiated a revision where the server may no longer
    /// initiate requests.
    multi_round: bool,
    /// Answers echoed back by the client on a retry, keyed as the previous
    /// round keyed its requests.
    answers: Vec<KeyedReply>,
    /// Asks queued for this round.
    pending: Vec<Question>,
}

impl Confirm {
    pub closed spec fn is_multi_round(&self) -> bool {
        self.multi_round
    }

    pub closed spec fn replies(&self) -> Seq<KeyedReply> {
        self.answers@
    }

    /// The questions that wait for the client, in the order in which they came.
    pub closed spec fn queue(&self) -> Seq<(Seq<char>, Seq<char>)> {
        question_views(self.pending@)
    }

    pub fn new(multi_round: bool, answers: Vec<KeyedReply>) -> (r: Self)
        ensures
            r.is_multi_round() == multi_round,
            r.replies() == answers@,
            r.queue() == Seq::<(Seq<char>, Seq<char>)>::empty(),
    {
        let r = Confirm { multi_round, answers, pending: Vec::new() };
        assert(r.queue() =~= Seq::<(Seq<char>, Seq<char>)>::empty());
        r
    }

    /// Asks for a yes on `key`, or reports the answer a previous round already
    /// produced. `key` must be derived from what is being confirmed, not from
    /// call order: the retry re-runs the same code and has to land on the same
    /// key to find its answer. See [`key_for`].
    pub fn ask(&mut self, key: &str, prompt: &str) -> (r: Ask)
        ensures
            final(self).is_multi_round() == old(self).is_multi_round(),
            final(self).replies() == old(self).replies(),
            r == (if !old(self).is_multi_round() {
                Ask::Elicit
            } else {
                match known_answer(old(self).replies(), key@) {
                    Some(a) => Ask::Known(a),
                    None => Ask::Known(Answer::Deferred),
                }
            }),
            final(self).queue() == (if r == Ask::Known(Answer::Deferred) && !is_queued(
                old(self).queue(),
                key@,
            ) {
                old(self).queue().push((key@, prompt@))
            } else {
                old(self).queue()
            }),
    {
        if !self.multi_round {
            return Ask::Elicit;
        }
        proof {
            law_confirmation_fails_closed(self.answers@, key@);
        }
        if let Some(a) = answer_for(&self.answers, key) {
            return Ask::Known(a);
        }
        let ghost before = question_views(self.pending@);
        let mut i: usize = 0;
        while i < self.pending.len()
            invariant
                self.answers@ == old(self).answers@,
                self.multi_round == old(self).multi_round,
                self.multi_round,
                known_answer(self.answers@, key@) is None,
                i <= self.pending@.len(),
                self.pending@ == old(self).pending@,
                before == question_views(self.pending@),
                forall|j: int| 0 <= j < i ==> (#[trigger] before[j]).0 != key@,
            decreases self.pending@.len() - i,
        {
            assert(before[i as int].0 == self.pending@[i as int].key@);
            if same(self.pending[i].key.as_str(), key) {
                return Ask::Known(Answer::Deferred);
            }
            i = i + 1;
        }
        self.pending.push(Question { key: key.to_owned(), prompt: prompt.to_owned() });
        assert(question_views(self.pending@) =~= before.push((key@, prompt@)));
        Ask::Known(Answer::Deferred)
    }

    /// True once at least one ask was queued for the client.
    pub fn deferred(&self) -> (r: bool)
        ensures
            r == (self.queue().len() > 0),
    {
        self.pending.len() > 0
    }

    /// The questions to return in place of the tool's own result.
    pub fn into_questions(self) -> (r: Vec<Question>)
        ensures
            question_views(r@) == self.queue(),
    {
        self.pending
    }
}

// ---------------------------------------------------------------------------
// Remembered approvals
// ---------------------------------------------------------------------------

/// Cap on the remembered-approval list. Reached only by a pathological caller.
pub const MAX_REMEMBERED_CONFIRMATIONS: usize = 512;

/// A command that the user approved on a host, and when.
struct Approval {
    host: String,
    cmd: String,
    at_ms: u64,
}

/// The mathematical content of an approval.
#[verifier::ext_equal]
pub struct ApprovalView {
    pub host: Seq<char>,
    pub cmd: Seq<char>,
    pub at_ms: u64,
}

spec fn approval_view(a: Approval) -> ApprovalView {
    ApprovalView { host: a.host@, cmd: a.cmd@, at_ms: a.at_ms }
}

/// Commands the user approved, keyed by host and exact command and stamped with
/// the approval instant. Only the server writes here; a caller-supplied "already
/// confirmed" flag would let the model waive its own confirmation prompts.
pub struct Approvals {
    list: Vec<Approval>,
}

impl View for Approvals {
    type V = Seq<ApprovalView>;

    closed spec fn view(&self) -> Seq<ApprovalView> {
        Seq::new(self.list@.len(), |i: int| approval_view(self.list@[i]))
    }
}

/// The whole of a duration in milliseconds.
pub open spec fn millis_of(d: HumanDuration) -> int {
    d.secs as int * 1000 + d.millis
}

/// Where the approval of a command on a host stands; the length where it does
/// not.
pub open spec fn approval_index(s: Seq<ApprovalView>, host: Seq<char>, cmd: Seq<char>) -> int
    decreases s.len(),
{
    if s.len() == 0 || (s[0].host == host && s[0].cmd == cmd) {
        0
    } else {
        1 + approval_index(s.skip(1), host, cmd)
    }
}

/// An approval that is not older than it may be.
pub open spec fn is_fresh(a: ApprovalView, now_ms: u64, ttl: HumanDuration) -> bool {
    (if now_ms >= a.at_ms {
        now_ms - a.at_ms
    } else {
        0
    }) < millis_of(ttl)
}

/// This exact command was approved on this host recently enough.
pub open spec fn is_remembered(
    s: Seq<ApprovalView>,
    host: Seq<char>,
    cmd: Seq<char>,
    now_ms: u64,
    ttl: HumanDuration,
) -> bool {
    let i = approval_index(s, host, cmd);
    i < s.len() && is_fresh(s[i], now_ms, ttl)
}

/// Those approvals that are fresh.
pub open spec fn fresh_only(s: Seq<ApprovalView>, now_ms: u64, ttl: HumanDuration) -> Seq<
    ApprovalView,
>
    decreases s.len(),
{
    if s.len() == 0 {
        Seq::empty()
    } else {
        let before = fresh_only(s.drop_last(), now_ms, ttl);
        if is_fresh(s.last(), now_ms, ttl) {
            before.push(s.last())
        } else {
            before
        }
    }
}

/// The approvals once one more was given. A full list first loses what is
/// stale; where it stays full, nothing more is remembered.
pub open spec fn with_approval(
    s: Seq<ApprovalView>,
    host: Seq<char>,
    cmd: Seq<char>,
    now_ms: u64,
    ttl: HumanDuration,
) -> Seq<ApprovalView> {
    if millis_of(ttl) == 0 {
        s
    } else {
        let t = if s.len() >= MAX_REMEMBERED_CONFIRMATIONS {
            fresh_only(s, now_ms, ttl)
        } else {
            s
        };
        if t.len() >= MAX_REMEMBERED_CONFIRMATIONS {
            t
        } else {
            let a = ApprovalView { host, cmd, at_ms: now_ms };
            let i = approval_index(t, host, cmd);
            if i < t.len() {
                t.update(i, a)
            } else {
                t.push(a)
            }
        }
    }
}

proof fn lemma_approval_index(s: Seq<ApprovalView>, host: Seq<char>, cmd: Seq<char>)
    ensures
        0 <= approval_index(s, host, cmd) <= s.len(),
        approval_index(s, host, cmd) < s.len() ==> s[approval_index(s, host, cmd)].host == host
            && s[approval_index(s, host, cmd)].cmd == cmd,
        forall|i: int|
            0 <= i < approval_index(s, host, cmd) ==> !((#[trigger] s[i]).host == host && s[i].cmd
                == cmd),
    decreases s.len(),
{
    if s.len() == 0 || (s[0].host == host && s[0].cmd == cmd) {
    } else {
        lemma_approval_index(s.skip(1), host, cmd);
        assert forall|i: int| 0 <= i < approval_index(s, host, cmd) implies !((
        #[trigger] s[i]).host == host && s[i].cmd == cmd) by {
            if i > 0 {
                assert(s[i] == s.skip(1)[i - 1]);
            }
        }
    }
}

impl Approvals {
    pub fn new() -> (r: Self)
        ensures
            r@ == Seq::<ApprovalView>::empty(),
    {
        let r = Approvals { list: Vec::new() };
        assert(r@ =~= Seq::<ApprovalView>::empty());
        r
    }

    fn position(&self, host: &str, cmd: &str) -> (r: usize)
        ensures
            r == approval_index(self@, host@, cmd@),
            r <= self@.len(),
    {
        let ghost all = self@;
        assert(all.skip(0) =~= all);
        let mut i: usize = 0;
        while i < self.list.len()
            invariant
                i <= self.list@.len(),
                all == self@,
                all.len() == self.list@.len(),
                approval_index(all, host@, cmd@) == i + approval_index(
                    all.skip(i as int),
                    host@,
                    cmd@,
                ),
            decreases self.list@.len() - i,
        {
            assert(all.skip(i as int)[0] == approval_view(self.list@[i as int]));
            if same(self.list[i].host.as_str(), host) && same(self.list[i].cmd.as_str(), cmd) {
                return i;
            }
            assert(all.skip(i as int).skip(1) =~= all.skip(i + 1));
            i = i + 1;
        }
        i
    }

    fn fresh(a: &Approval, now_ms: u64, ttl: HumanDuration) -> (r: bool)
        ensures
            r == is_fresh(approval_view(*a), now_ms, ttl),
    {
        let age: u64 = now_ms.saturating_sub(a.at_ms);
        (age as u128) < ttl.as_millis()
    }

    /// True when this exact command was approved on this host within `ttl`.
    /// Keyed on the full command string, not on the pattern name: approving
    /// `systemctl stop nginx` must not silently approve `systemctl stop
    /// firewalld`. An approval that is too old is forgotten.
    pub fn remembered(&mut self, host: &str, cmd: &str, now_ms: u64, ttl: HumanDuration) -> (r:
        bool)
        ensures
            r == is_remembered(old(self)@, host@, cmd@, now_ms, ttl),
            final(self)@ == (if !r && millis_of(ttl) != 0 && approval_index(
                old(self)@,
                host@,
                cmd@,
            ) < old(self)@.len() {
                old(self)@.remove(approval_index(old(self)@, host@, cmd@))
            } else {
                old(self)@
            }),
    {
        let ghost before = self@;
        if ttl.as_millis() == 0 {
            return false;
        }
        let i: usize = self.position(host, cmd);
        if i == self.list.len() {
            return false;
        }
        if Self::fresh(&self.list[i], now_ms, ttl) {
            return true;
        }
        let _ = self.list.remove(i);
        assert(self@ =~= before.remove(i as int));
        false
    }

    fn drop_stale(&mut self, now_ms: u64, ttl: HumanDuration)
        ensures
            final(self)@ == fresh_only(old(self)@, now_ms, ttl),
    {
        let ghost all = self@;
        let mut list: Vec<Approval> = Vec::new();
        core::mem::swap(&mut list, &mut self.list);
        let mut i: usize = 0;
        assert(all.take(0) =~= Seq::empty());
        assert(self@ =~= Seq::empty());
        while i < list.len()
            invariant
                i <= list@.len(),
                all.len() == list@.len(),
                forall|k: int| 0 <= k < list@.len() ==> #[trigger] all[k] == approval_view(list@[k]),
                self@ == fresh_only(all.take(i as int), now_ms, ttl),
            decreases list@.len() - i,
        {
            proof {
                assert(all.take(i + 1).drop_last() =~= all.take(i as int));
                assert(all.take(i + 1).last() == all[i as int]);
            }
            if Self::fresh(&list[i], now_ms, ttl) {
                let ghost before = self@;
                let a = Approval {
                    host: list[i].host.clone(),
                    cmd: list[i].cmd.clone(),
                    at_ms: list[i].at_ms,
                };
                self.list.push(a);
                assert(self@ =~= before.push(all[i as int]));
            }
            i = i + 1;
        }
        assert(all.take(i as int) =~= all);
    }

    pub fn remember(&mut self, host: &str, cmd: &str, now_ms: u64, ttl: HumanDuration)
        ensures
            final(self)@ == with_approval(old(self)@, host@, cmd@, now_ms, ttl),
    {
        if ttl.as_millis() == 0 {
            return ;
        }
        if self.list.len() >= MAX_REMEMBERED_CONFIRMATIONS {
            self.drop_stale(now_ms, ttl);
            if self.list.len() >= MAX_REMEMBERED_CONFIRMATIONS {
                return ;
            }
        }
        let ghost before = self@;
        let i: usize = self.position(host, cmd);
        let a = Approval { host: host.to_owned(), cmd: cmd.to_owned(), at_ms: now_ms };
        if i < self.list.len() {
            self.list.set(i, a);
            assert(self@ =~= before.update(i as int, approval_view(a)));
        } else {
            self.list.push(a);
            assert(self@ =~= before.push(approval_view(a)));
        }
    }

    /// Drops every remembered approval. Called by `reload`, since the guard
    /// set the approvals were granted against no longer exists.
    pub fn forget(&mut self)
        ensures
            final(self)@ == Seq::<ApprovalView>::empty(),
    {
        self.list.clear();
        assert(self@ =~= Seq::<ApprovalView>::empty());
    }
}

proof fn lemma_fresh_only_bounded(s: Seq<ApprovalView>, now_ms: u64, ttl: HumanDuration)
    ensures
        fresh_only(s, now_ms, ttl).len() <= s.len(),
    decreases s.len(),
{
    if s.len() > 0 {
        lemma_fresh_only_bounded(s.drop_last(), now_ms, ttl);
    }
}

/// The list of approvals never outgrows its cap.
pub proof fn law_approvals_are_bounded(
    s: Seq<ApprovalView>,
    host: Seq<char>,
    cmd: Seq<char>,
    now_ms: u64,
    ttl: HumanDuration,
)
    requires
        s.len() <= MAX_REMEMBERED_CONFIRMATIONS,
    ensures
        with_approval(s, host, cmd, now_ms, ttl).len() <= MAX_REMEMBERED_CONFIRMATIONS,
{
    lemma_fresh_only_bounded(s, now_ms, ttl);
    lemma_approval_index(s, host, cmd);
    lemma_approval_index(fresh_only(s, now_ms, ttl), host, cmd);
}

/// An approval lasts as long as it is meant to and no longer, counted from when
/// it was given. It needs a place in the list.
pub proof fn law_approval_lasts_its_time(
    s: Seq<ApprovalView>,
    host: Seq<char>,
    cmd: Seq<char>,
    given_ms: u64,
    now_ms: u64,
    ttl: HumanDuration,
)
    requires
        s.len() < MAX_REMEMBERED_CONFIRMATIONS,
        given_ms <= now_ms,
    ensures
        is_remembered(with_approval(s, host, cmd, given_ms, ttl), host, cmd, now_ms, ttl) <==> {
            now_ms - given_ms < millis_of(ttl)
        },
{
    let a = ApprovalView { host, cmd, at_ms: given_ms };
    let i = approval_index(s, host, cmd);
    lemma_approval_index(s, host, cmd);
    let t = with_approval(s, host, cmd, given_ms, ttl);
    lemma_approval_index(t, host, cmd);
    if millis_of(ttl) != 0 {
        assert(t[i] == a);
        let j = approval_index(t, host, cmd);
        if j < i {
            assert(t[j] == s[j]);
        }
    }
}

/// What is remembered after an approval is the new one or was there before.
pub proof fn lemma_approval_comes_from(
    s: Seq<ApprovalView>,
    host: Seq<char>,
    cmd: Seq<char>,
    now_ms: u64,
    ttl: HumanDuration,
)
    ensures
        forall|k: int|
            0 <= k < with_approval(s, host, cmd, now_ms, ttl).len() ==> {
                let a = #[trigger] with_approval(s, host, cmd, now_ms, ttl)[k];
                s.contains(a) || a == (ApprovalView { host, cmd, at_ms: now_ms })
            },
{
    let t = if s.len() >= MAX_REMEMBERED_CONFIRMATIONS {
        fresh_only(s, now_ms, ttl)
    } else {
        s
    };
    lemma_fresh_only_subset(s, now_ms, ttl);
    lemma_approval_index(t, host, cmd);
    let w = with_approval(s, host, cmd, now_ms, ttl);
    let new = ApprovalView { host, cmd, at_ms: now_ms };
    assert forall|k: int| 0 <= k < w.len() implies s.contains(#[trigger] w[k]) || w[k] == new by {
        if millis_of(ttl) == 0 {
            assert(w[k] == s[k]);
        } else if w[k] != new {
            assert(w[k] == t[k]);
            assert(s.contains(t[k]));
        }
    }
}

proof fn lemma_fresh_only_subset(s: Seq<ApprovalView>, now_ms: u64, ttl: HumanDuration)
    ensures
        forall|k: int|
            0 <= k < fresh_only(s, now_ms, ttl).len() ==> s.contains(
                #[trigger] fresh_only(s, now_ms, ttl)[k],
            ),
    decreases s.len(),
{
    if s.len() > 0 {
        let rest = s.drop_last();
        lemma_fresh_only_subset(rest, now_ms, ttl);
        let f = fresh_only(s, now_ms, ttl);
        assert forall|k: int| 0 <= k < f.len() implies s.contains(#[trigger] f[k]) by {
            let before = fresh_only(rest, now_ms, ttl);
            if k < before.len() {
                assert(rest.contains(before[k]));
                let j = choose|j: int| 0 <= j < rest.len() && rest[j] == before[k];
                assert(s[j] == f[k]);
            } else {
                assert(s[s.len() - 1] == f[k]);
            }
        }
    }
}

/// What is remembered of a command stands in the list, and is fresh.
pub proof fn lemma_remembered(
    s: Seq<ApprovalView>,
    host: Seq<char>,
    cmd: Seq<char>,
    now_ms: u64,
    ttl: HumanDuration,
)
    requires
        is_remembered(s, host, cmd, now_ms, ttl),
    ensures
        exists|k: int|
            0 <= k < s.len() && (#[trigger] s[k]).host == host && s[k].cmd == cmd && is_fresh(
                s[k],
                now_ms,
                ttl,
            ),
{
    lemma_approval_index(s, host, cmd);
    let i = approval_index(s, host, cmd);
    assert(s[i].host == host);
}

/// Approving one command approves no other: where nothing of another command
/// was remembered, nothing of it is afterwards.
pub proof fn law_approval_is_for_one_command(
    s: Seq<ApprovalView>,
    host: Seq<char>,
    cmd: Seq<char>,
    other_host: Seq<char>,
    other: Seq<char>,
    now_ms: u64,
    ttl: HumanDuration,
)
    requires
        other_host != host || other != cmd,
        approval_index(s, other_host, other) == s.len(),
    ensures
        approval_index(with_approval(s, host, cmd, now_ms, ttl), other_host, other)
            == with_approval(s, host, cmd, now_ms, ttl).len(),
{
    let t = if s.len() >= MAX_REMEMBERED_CONFIRMATIONS {
        fresh_only(s, now_ms, ttl)
    } else {
        s
    };
    lemma_approval_index(s, other_host, other);
    lemma_fresh_only_within(s, now_ms, ttl, other_host, other);
    let w = with_approval(s, host, cmd, now_ms, ttl);
    lemma_approval_index(w, other_host, other);
    lemma_approval_index(t, host, cmd);
    let i = approval_index(w, other_host, other);
    if i < w.len() {
        if i < t.len() {
            assert(w[i] == t[i] || w[i] == (ApprovalView { host, cmd, at_ms: now_ms }));
        }
    }
}

proof fn lemma_fresh_only_within(
    s: Seq<ApprovalView>,
    now_ms: u64,
    ttl: HumanDuration,
    host: Seq<char>,
    cmd: Seq<char>,
)
    requires
        forall|i: int| 0 <= i < s.len() ==> !((#[trigger] s[i]).host == host && s[i].cmd == cmd),
    ensures
        forall|i: int|
            0 <= i < fresh_only(s, now_ms, ttl).len() ==> !((#[trigger] fresh_only(
                s,
                now_ms,
                ttl,
            )[i]).host == host && fresh_only(s, now_ms, ttl)[i].cmd == cmd),
    decreases s.len(),
{
    if s.len() > 0 {
        let rest = s.drop_last();
        assert forall|i: int| 0 <= i < rest.len() implies !((#[trigger] rest[i]).host == host
            && rest[i].cmd == cmd) by {
            assert(rest[i] == s[i]);
        }
        lemma_fresh_only_within(rest, now_ms, ttl, host, cmd);
        assert(!(s[s.len() - 1].host == host && s[s.len() - 1].cmd == cmd));
        let before = fresh_only(rest, now_ms, ttl);
        let after = fresh_only(s, now_ms, ttl);
        assert forall|i: int| 0 <= i < after.len() implies !((#[trigger] after[i]).host == host
            && after[i].cmd == cmd) by {
            if i < before.len() {
                assert(after[i] == before[i]);
            } else {
                assert(after[i] == s.last());
            }
        }
    }
}

/// Yes is yes in any case and with any white space around it; no word that is not
/// three letters long is.
pub proof fn law_yes_is_the_word_yes(w: Seq<char>)
    requires
        forall|i: int| 0 <= i < w.len() ==> !is_space(#[trigger] w[i]),
    ensures
        is_yes(w) <==> w.len() == 3 && (w[0] == 'y' || w[0] == 'Y') && (w[1] == 'e' || w[1] == 'E')
            && (w[2] == 's' || w[2] == 'S'),
        is_yes(seq![' '] + w + seq!['\n']) == is_yes(w),
{
    law_white_space();
    reveal_strlit("yes");
    if w.len() > 0 {
        assert(!is_space(w[0]));
        assert(!is_space(w[w.len() - 1]));
    }
    assert(trimmed_start(w) == w);
    assert(trimmed(w) == w);
    law_lower_changes_only_capitals(w);
    let low = lower(w);
    if w.len() == 3 {
        assert(low[0] == lower_char(w[0]) && low[1] == lower_char(w[1]) && low[2] == lower_char(
            w[2],
        ));
        if low[0] == 'y' && low[1] == 'e' && low[2] == 's' {
            assert(low =~= "yes"@);
        }
    }
    let s = seq![' '] + w + seq!['\n'];
    let t = w + seq!['\n'];
    assert(s.drop_first() =~= t);
    assert(trimmed_start(s) == trimmed_start(t));
    if w.len() > 0 {
        assert(t[0] == w[0]);
        assert(trimmed_start(t) == t);
        assert(t.drop_last() =~= w);
        assert(trimmed_end(t) == trimmed_end(w));
    } else {
        let none = Seq::<char>::empty();
        assert(t.drop_first() =~= none);
        assert(trimmed_start(none) == none);
        assert(trimmed_end(none) == none);
        assert(w =~= none);
    }
}

/// Approving one command takes no approval from another, as long as the list has
/// room.
pub proof fn law_approval_keeps_the_others(
    s: Seq<ApprovalView>,
    host: Seq<char>,
    cmd: Seq<char>,
    other_host: Seq<char>,
    other: Seq<char>,
    given_ms: u64,
    now_ms: u64,
    ttl: HumanDuration,
)
    requires
        other_host != host || other != cmd,
        s.len() < MAX_REMEMBERED_CONFIRMATIONS,
    ensures
        is_remembered(with_approval(s, host, cmd, given_ms, ttl), other_host, other, now_ms, ttl)
            == is_remembered(s, other_host, other, now_ms, ttl),
{
    let t = with_approval(s, host, cmd, given_ms, ttl);
    lemma_approval_index(s, host, cmd);
    lemma_approval_index(s, other_host, other);
    lemma_approval_index(t, other_host, other);
    let i = approval_index(s, other_host, other);
    let j = approval_index(t, other_host, other);
    if millis_of(ttl) != 0 {
        if i < s.len() {
            assert(t[i] == s[i]);
        }
        if j < t.len() && j < s.len() {
            assert(t[j].host == other_host && t[j].cmd == other);
            assert(t[j] == s[j]);
        }
    }
}

/// The first reply under a key is the answer: a yes is heard, and anything else
/// denies. Where there is none, there is no answer.
pub proof fn law_first_reply_is_the_answer(replies: Seq<KeyedReply>, key: Seq<char>, i: int)
    requires
        0 <= i < replies.len(),
        replies[i].key@ == key,
        forall|k: int| 0 <= k < i ==> (#[trigger] replies[k]).key@ != key,
    ensures
        replies[i].reply matches Some(r) ==> (r.action == ReplyAction::Accept && r.answer is Some
            && is_yes(r.answer->0@) ==> known_answer(replies, key) == Some(Answer::Approved)),
        replies[i].reply matches Some(r) ==> (!(r.action == ReplyAction::Accept && r.answer is Some
            && is_yes(r.answer->0@)) ==> known_answer(replies, key) == Some(Answer::Denied)),
        replies[i].reply is None ==> known_answer(replies, key) == Some(Answer::Denied),
    decreases i,
{
    if i > 0 {
        let rest = replies.skip(1);
        assert(replies[0].key@ != key);
        assert(rest[i - 1] == replies[i]);
        assert forall|k: int| 0 <= k < i - 1 implies (#[trigger] rest[k]).key@ != key by {
            assert(rest[k] == replies[k + 1]);
        }
        law_first_reply_is_the_answer(rest, key, i - 1);
    }
}

} // verus!

//! What has passed the guards. A tool gets the command that it runs and the
//! paths that it touches from here, and only once the guards let them through.

use vstd::prelude::*;

use crate::config::HumanDuration;
use crate::confirm::{is_remembered, with_approval, Answer, Approvals, Confirm};
use crate::errors::{error_text, Result, SshError};
use crate::guards::command::writeful;
use crate::guards::pattern::regex_finds;
use crate::guards::{
    allowed, checked, home_dotrc, law_confirm_is_never_skipped, law_deny_refuses_outright,
    law_harmless_command_runs, law_home_startup_files_are_found, law_read_only_blocks_writes,
    law_undenied_command_is_not_denied, CheckView, CompiledGuards, CompiledView, LOCAL_READ,
    LOCAL_READ_BLOCKED, LOCAL_WRITE, LOCAL_WRITE_BLOCKED,
};
use crate::paths::{covered_by, folded, resolve_local_path, resolved_local, slashed_text, LocalEnv};
use crate::server::{
    chain, chain_rules, chain_state, guard_prompt, run_guards, settle, ChainView, Guarded,
};
use crate::tools::{guard_resolved, refusal_text, remote_path_clear, unresolvable_text};

verus! {

// ---------------------------------------------------------------------------
// Commands
// ---------------------------------------------------------------------------

/// Why a command may run.
pub enum Clearance {
    /// No pattern stops it.
    Allowed,
    /// The user approved it a moment ago.
    Remembered,
    /// The user approved it now.
    Approved,
}

/// The guards let a command run for this reason.
pub open spec fn lets_through(rules: CompiledView, cmd: Seq<char>, why: Clearance) -> bool {
    match checked(rules, cmd) {
        CheckView::Allow => why is Allowed,
        CheckView::Confirm(_) => why is Remembered || why is Approved,
        CheckView::Deny(_, _) => false,
    }
}

/// A command that may run on a host. There is none that the guards did not let
/// through.
pub struct ClearedCommand {
    host: String,
    cmd: String,
    rules: Ghost<CompiledView>,
    why: Ghost<Clearance>,
}

impl ClearedCommand {
    /// Where it runs.
    pub closed spec fn on(&self) -> Seq<char> {
        self.host@
    }

    pub closed spec fn command(&self) -> Seq<char> {
        self.cmd@
    }

    /// The guards that let it through.
    pub closed spec fn rules(&self) -> CompiledView {
        self.rules@
    }

    pub closed spec fn why(&self) -> Clearance {
        self.why@
    }

    #[verifier::type_invariant]
    spec fn passed(self) -> bool {
        lets_through(self.rules@, self.cmd@, self.why@)
    }

    pub(crate) fn new(
        guards: &CompiledGuards,
        host: &str,
        cmd: &str,
        Ghost(why): Ghost<Clearance>,
    ) -> (r: Self)
        requires
            lets_through(guards@, cmd@, why),
        ensures
            r.on() == host@,
            r.command() == cmd@,
            r.rules() == guards@,
            r.why() == why,
    {
        ClearedCommand {
            host: host.to_owned(),
            cmd: cmd.to_owned(),
            rules: Ghost(guards@),
            why: Ghost(why),
        }
    }

    pub fn host(&self) -> (r: &str)
        ensures
            r@ == self.on(),
    {
        self.host.as_str()
    }

    /// What is run. The guards let it through, whoever holds it.
    pub fn cmd(&self) -> (r: &str)
        ensures
            r@ == self.command(),
            lets_through(self.rules(), r@, self.why()),
    {
        proof {
            use_type_invariant(self);
        }
        self.cmd.as_str()
    }
}

/// A command that the user has to be asked about.
pub struct AskedCommand {
    host: String,
    cmd: String,
    prompt: String,
    rules: Ghost<CompiledView>,
}

/// How far a command has come with the guards.
pub enum Clearing {
    Cleared(ClearedCommand),
    /// The user has to be asked now; the answer goes to
    /// [`AskedCommand::answered`].
    Ask(AskedCommand),
    /// The question waits for the client, which calls again.
    Wait,
    Refused(SshError),
}

/// `c` is this command, let through by these guards for this reason.
pub open spec fn is_cleared(
    c: Clearing,
    rules: CompiledView,
    host: Seq<char>,
    cmd: Seq<char>,
    why: Clearance,
) -> bool {
    c matches Clearing::Cleared(x) && x.on() == host && x.command() == cmd && x.rules() == rules
        && x.why() == why
}

/// What an answer makes of a command.
pub open spec fn clears_by(
    c: Clearing,
    rules: CompiledView,
    host: Seq<char>,
    cmd: Seq<char>,
    answer: Answer,
) -> bool {
    match answer {
        Answer::Approved => is_cleared(c, rules, host, cmd, Clearance::Approved),
        Answer::Denied => c is Refused && c->Refused_0 is ConfirmationDenied,
        Answer::Deferred => c is Wait,
    }
}

/// What the guard chain makes of a command.
pub open spec fn clears_as(
    c: Clearing,
    rules: CompiledView,
    host: Seq<char>,
    cmd: Seq<char>,
    view: ChainView,
) -> bool {
    match view {
        ChainView::Allowed => is_cleared(c, rules, host, cmd, Clearance::Allowed),
        ChainView::Remembered => is_cleared(c, rules, host, cmd, Clearance::Remembered),
        ChainView::Approved => is_cleared(c, rules, host, cmd, Clearance::Approved),
        ChainView::Denied => c is Refused && c->Refused_0 is ConfirmationDenied,
        ChainView::Wait => c is Wait,
        ChainView::Ask(_) => c matches Clearing::Ask(a) && a.on() == host && a.command() == cmd
            && a.rules() == rules,
        ChainView::Blocked(name, pattern) => c is Refused && c->Refused_0 is BlockedByGuard
            && c->Refused_0->name@ == name && c->Refused_0->pattern@ == pattern,
    }
}

impl AskedCommand {
    pub closed spec fn on(&self) -> Seq<char> {
        self.host@
    }

    pub closed spec fn command(&self) -> Seq<char> {
        self.cmd@
    }

    pub closed spec fn rules(&self) -> CompiledView {
        self.rules@
    }

    #[verifier::type_invariant]
    spec fn stopped(self) -> bool {
        match checked(self.rules@, self.cmd@) {
            CheckView::Confirm(name) => self.prompt@ == guard_prompt(self.host@, name, self.cmd@),
            _ => false,
        }
    }

    /// What the user is asked: it shows the command and the pattern that stops
    /// it.
    pub fn prompt(&self) -> (r: &str)
        ensures
            match checked(self.rules(), self.command()) {
                CheckView::Confirm(name) => r@ == guard_prompt(self.on(), name, self.command()),
                _ => false,
            },
    {
        proof {
            use_type_invariant(self);
        }
        self.prompt.as_str()
    }

    /// What the answer makes of the command. An approval is remembered.
    pub fn answered(
        self,
        answer: Answer,
        approvals: &mut Approvals,
        now_ms: u64,
        ttl: HumanDuration,
    ) -> (r: Clearing)
        ensures
            clears_by(r, self.rules(), self.on(), self.command(), answer),
            final(approvals)@ == (if answer == Answer::Approved {
                with_approval(old(approvals)@, self.on(), self.command(), now_ms, ttl)
            } else {
                old(approvals)@
            }),
    {
        proof {
            use_type_invariant(&self);
        }
        let AskedCommand { host, cmd, prompt: _, rules } = self;
        match settle(answer, approvals, host.as_str(), cmd.as_str(), now_ms, ttl) {
            Ok(Guarded::Passed) => Clearing::Cleared(
                ClearedCommand { host, cmd, rules, why: Ghost(Clearance::Approved) },
            ),
            Ok(_) => Clearing::Wait,
            Err(e) => Clearing::Refused(e),
        }
    }
}

/// Takes a command through the guards. Nothing is sent to a host before this
/// has let it through: what is run there is asked for as a [`ClearedCommand`].
pub fn clear_command(
    guards: &CompiledGuards,
    approvals: &mut Approvals,
    confirm: &mut Confirm,
    host: &str,
    cmd: &str,
    now_ms: u64,
    ttl: HumanDuration,
) -> (r: Clearing)
    ensures
        final(confirm).is_multi_round() == old(confirm).is_multi_round(),
        final(confirm).replies() == old(confirm).replies(),
        ({
            let (after, view) = chain(
                chain_rules(guards@, *old(confirm), now_ms, ttl),
                chain_state(*old(approvals), *old(confirm)),
                host@,
                cmd@,
            );
            &&& chain_state(*final(approvals), *final(confirm)) == after
            &&& clears_as(r, guards@, host@, cmd@, view)
        }),
{
    let ghost why = match checked(guards@, cmd@) {
        CheckView::Allow => Clearance::Allowed,
        _ => if is_remembered(approvals@, host@, cmd@, now_ms, ttl) {
            Clearance::Remembered
        } else {
            Clearance::Approved
        },
    };
    match run_guards(guards, approvals, confirm, host, cmd, now_ms, ttl) {
        Ok(Guarded::Passed) => Clearing::Cleared(
            ClearedCommand::new(guards, host, cmd, Ghost(why)),
        ),
        Ok(Guarded::Deferred) => Clearing::Wait,
        Ok(Guarded::Elicit { prompt }) => Clearing::Ask(
            AskedCommand {
                host: host.to_owned(),
                cmd: cmd.to_owned(),
                prompt,
                rules: Ghost(guards@),
            },
        ),
        Err(e) => Clearing::Refused(e),
    }
}

// ---------------------------------------------------------------------------
// Remote paths
// ---------------------------------------------------------------------------

/// A remote path that the guards let through as it is written. What it resolves
/// to is not known yet.
pub struct CheckedPath {
    path: String,
    write: bool,
    rules: Ghost<CompiledView>,
}

/// A remote path that the guards let through, as it is written and as the server
/// resolves it.
pub struct ClearedPath {
    path: String,
    target: Ghost<Seq<char>>,
    write: Ghost<bool>,
    rules: Ghost<CompiledView>,
    resolved_rules: Ghost<CompiledView>,
}

/// How a remote path is refused.
pub open spec fn path_refused(e: SshError, g: CompiledView, write: bool) -> bool {
    e is BlockedByGuard && error_text(e) == refusal_text(g, write)
}

/// Runs the path guard on a remote path as it is written.
pub fn check_path(guards: &CompiledGuards, path: &str, write: bool) -> (r: Result<CheckedPath>)
    ensures
        match r {
            Ok(p) => {
                &&& remote_path_clear(guards@, path@, write)
                &&& p.text() == path@
                &&& p.writes() == write
                &&& p.rules() == guards@
            },
            Err(e) => !remote_path_clear(guards@, path@, write) && path_refused(e, guards@, write),
        },
{
    let verdict = if write {
        guards.check_sftp_write(path)
    } else {
        guards.check_sftp_read(path)
    };
    match verdict {
        Ok(_) => Ok(CheckedPath { path: path.to_owned(), write, rules: Ghost(guards@) }),
        Err(e) => Err(e),
    }
}

impl CheckedPath {
    pub closed spec fn text(&self) -> Seq<char> {
        self.path@
    }

    pub closed spec fn writes(&self) -> bool {
        self.write
    }

    pub closed spec fn rules(&self) -> CompiledView {
        self.rules@
    }

    #[verifier::type_invariant]
    spec fn passed(self) -> bool {
        remote_path_clear(self.rules@, self.path@, self.write)
    }

    pub fn path(&self) -> (r: &str)
        ensures
            r@ == self.text(),
    {
        self.path.as_str()
    }

    /// Runs the path guard again, on what the server resolved the path to. A
    /// path that does not resolve is refused.
    pub fn resolved(
        self,
        guards: &CompiledGuards,
        resolved: core::result::Result<&str, &str>,
    ) -> (r: Result<ClearedPath>)
        ensures
            match resolved {
                Err(why) => r is Err && r->Err_0 is BlockedByGuard && r->Err_0->name@
                    == "unresolvable-path"@ && r->Err_0->pattern@ == unresolvable_text(
                    self.text(),
                    why@,
                ),
                Ok(p) => match r {
                    Ok(c) => {
                        &&& p@ == self.text() || remote_path_clear(guards@, p@, self.writes())
                        &&& c.text() == self.text()
                        &&& c.target() == p@
                        &&& c.writes() == self.writes()
                        &&& c.rules() == self.rules()
                        &&& c.resolved_rules() == guards@
                    },
                    Err(e) => {
                        &&& p@ != self.text() && !remote_path_clear(guards@, p@, self.writes())
                        &&& e is BlockedByGuard && e->name@ == "resolved-path"@
                        &&& e->pattern@ == self.text() + " resolves to "@ + p@ + ": "@
                            + refusal_text(guards@, self.writes())
                    },
                },
            },
    {
        proof {
            use_type_invariant(&self);
        }
        match guard_resolved(guards, self.path.as_str(), resolved, self.write) {
            Err(e) => Err(e),
            Ok(_) => {
                let ghost target = match resolved {
                    Ok(p) => p@,
                    Err(_) => Seq::empty(),
                };
                let CheckedPath { path, write, rules } = self;
                Ok(
                    ClearedPath {
                        path,
                        target: Ghost(target),
                        write: Ghost(write),
                        rules,
                        resolved_rules: Ghost(guards@),
                    },
                )
            },
        }
    }
}

impl ClearedPath {
    pub closed spec fn text(&self) -> Seq<char> {
        self.path@
    }

    /// What the server resolved it to.
    pub closed spec fn target(&self) -> Seq<char> {
        self.target@
    }

    pub closed spec fn writes(&self) -> bool {
        self.write@
    }

    /// The guards that let the path through as it is written.
    pub closed spec fn rules(&self) -> CompiledView {
        self.rules@
    }

    /// The guards that let through what it resolves to.
    pub closed spec fn resolved_rules(&self) -> CompiledView {
        self.resolved_rules@
    }

    #[verifier::type_invariant]
    spec fn passed(self) -> bool {
        &&& remote_path_clear(self.rules@, self.path@, self.write@)
        &&& self.target@ == self.path@ || remote_path_clear(
            self.resolved_rules@,
            self.target@,
            self.write@,
        )
    }

    /// The path that a tool works on. A link cannot launder a blocked target,
    /// whoever holds the path.
    pub fn path(&self) -> (r: &str)
        ensures
            r@ == self.text(),
            remote_path_clear(self.rules(), r@, self.writes()),
            self.target() == r@ || remote_path_clear(
                self.resolved_rules(),
                self.target(),
                self.writes(),
            ),
    {
        proof {
            use_type_invariant(self);
        }
        self.path.as_str()
    }
}

// ---------------------------------------------------------------------------
// Local paths
// ---------------------------------------------------------------------------

/// A local path that the guards let a tool read or write.
pub open spec fn local_path_clear(g: CompiledView, resolved: Seq<char>, write: bool) -> bool {
    if write {
        allowed(g.local_write_allow, resolved, g.windows) || !(regex_finds(
            LOCAL_WRITE@,
            slashed_text(resolved),
        ) || home_dotrc(resolved, g.home))
    } else {
        allowed(g.local_read_allow, resolved, g.windows) || !regex_finds(
            LOCAL_READ@,
            slashed_text(resolved),
        )
    }
}

/// A path on the operator's own machine that a tool may use, resolved.
pub struct ClearedLocal {
    path: String,
    write: Ghost<bool>,
    rules: Ghost<CompiledView>,
}

/// Resolves a path on the operator's own machine and runs the guard on it: what
/// must not leave the machine is not read, and what would run is not written.
pub fn check_local(guards: &CompiledGuards, raw: &str, env: &LocalEnv, write: bool) -> (r: Result<
    ClearedLocal,
>)
    ensures
        match r {
            Ok(p) => {
                &&& local_path_clear(guards@, resolved_local(raw@, env@), write)
                &&& p.text() == resolved_local(raw@, env@)
                &&& p.writes() == write
                &&& p.rules() == guards@
            },
            Err(e) => {
                &&& !local_path_clear(guards@, resolved_local(raw@, env@), write)
                &&& e is BlockedByGuard
                &&& e->name@ == (if write {
                    "local-write"@
                } else {
                    "local-read"@
                })
                &&& e->pattern@ == (if write {
                    LOCAL_WRITE_BLOCKED@
                } else {
                    LOCAL_READ_BLOCKED@
                })
            },
        },
{
    let path = resolve_local_path(raw, env);
    let verdict = if write {
        guards.check_local_write(path.as_str())
    } else {
        guards.check_local_read(path.as_str())
    };
    match verdict {
        Ok(_) => Ok(ClearedLocal { path, write: Ghost(write), rules: Ghost(guards@) }),
        Err(e) => Err(e),
    }
}

impl ClearedLocal {
    pub closed spec fn text(&self) -> Seq<char> {
        self.path@
    }

    pub closed spec fn writes(&self) -> bool {
        self.write@
    }

    pub closed spec fn rules(&self) -> CompiledView {
        self.rules@
    }

    #[verifier::type_invariant]
    spec fn passed(self) -> bool {
        local_path_clear(self.rules@, self.path@, self.write@)
    }

    /// The path that is read or written. The guards let it through, whoever
    /// holds it.
    pub fn path(&self) -> (r: &str)
        ensures
            r@ == self.text(),
            local_path_clear(self.rules(), r@, self.writes()),
    {
        proof {
            use_type_invariant(self);
        }
        self.path.as_str()
    }
}

// ---------------------------------------------------------------------------
// What gets through
// ---------------------------------------------------------------------------

/// No answer and no memory of one lets a command through that a deny pattern
/// matches, or one that writes where nothing may be written.
pub proof fn law_denied_command_never_runs(
    rules: CompiledView,
    cmd: Seq<char>,
    why: Clearance,
    i: int,
)
    requires
        rules.read_only && writeful(cmd) || 0 <= i < rules.deny.len() && regex_finds(
            rules.deny[i].1,
            cmd,
        ),
    ensures
        !lets_through(rules, cmd, why),
{
    if rules.read_only && writeful(cmd) {
        law_read_only_blocks_writes(rules, cmd);
    } else {
        law_deny_refuses_outright(rules, cmd, i);
    }
}

/// What a confirm pattern matches runs only where the user approved it.
pub proof fn law_stopped_command_needs_the_user(
    rules: CompiledView,
    cmd: Seq<char>,
    why: Clearance,
    i: int,
)
    requires
        0 <= i < rules.confirm.len(),
        regex_finds(rules.confirm[i].1, cmd),
        lets_through(rules, cmd, why),
    ensures
        why is Remembered || why is Approved,
{
    law_confirm_is_never_skipped(rules, cmd, i);
}

/// A command that no pattern matches runs as it is, on a host that may be written
/// to or where it writes nothing.
pub proof fn law_ordinary_command_runs(rules: CompiledView, cmd: Seq<char>)
    requires
        forall|k: int|
            0 <= k < rules.deny.len() ==> !regex_finds((#[trigger] rules.deny[k]).1, cmd),
        forall|k: int|
            0 <= k < rules.confirm.len() ==> !regex_finds((#[trigger] rules.confirm[k]).1, cmd),
        !rules.read_only || !writeful(cmd),
    ensures
        lets_through(rules, cmd, Clearance::Allowed),
{
    law_harmless_command_runs(rules, cmd);
}

/// An exception of the operator opens a path, for reading or for writing as it
/// says; what is private stays closed without one, whatever the exceptions for
/// the other direction are.
pub proof fn law_exceptions_open_local_paths(g: CompiledView, path: Seq<char>, i: int)
    ensures
        0 <= i < g.local_read_allow.len() && covered_by(
            folded(path, g.windows),
            g.local_read_allow[i],
        ) ==> local_path_clear(g, path, false),
        0 <= i < g.local_write_allow.len() && covered_by(
            folded(path, g.windows),
            g.local_write_allow[i],
        ) ==> local_path_clear(g, path, true),
        g.local_read_allow.len() == 0 && regex_finds(LOCAL_READ@, slashed_text(path))
            ==> !local_path_clear(g, path, false),
        g.local_write_allow.len() == 0 && regex_finds(LOCAL_WRITE@, slashed_text(path))
            ==> !local_path_clear(g, path, true),
        !regex_finds(LOCAL_READ@, slashed_text(path)) ==> local_path_clear(g, path, false),
        !regex_finds(LOCAL_WRITE@, slashed_text(path)) && g.home is None ==> local_path_clear(
            g,
            path,
            true,
        ),
{
}

/// A startup file directly under the home directory is not written, unless the
/// operator made an exception.
pub proof fn law_startup_files_are_not_written(
    g: CompiledView,
    home: Seq<char>,
    something: Seq<char>,
)
    requires
        g.home == Some(home),
        g.local_write_allow.len() == 0,
        home.len() > 1,
        home[0] == '/',
        home[1] != '/',
        home.last() != '/',
        !home.contains('\\'),
        something.len() > 0,
        !something.contains('/'),
        !something.contains('\\'),
    ensures
        !local_path_clear(g, home + seq!['/', '.'] + something + seq!['r', 'c'], true),
{
    law_home_startup_files_are_found(home, something);
}

/// Only a yes clears a command that was asked about, and it clears that command
/// on that host and no other.
pub proof fn law_only_a_yes_clears_the_command(
    c: Clearing,
    rules: CompiledView,
    host: Seq<char>,
    cmd: Seq<char>,
    answer: Answer,
)
    requires
        clears_by(c, rules, host, cmd, answer),
    ensures
        c is Cleared <==> answer is Approved,
        c matches Clearing::Cleared(x) ==> x.on() == host && x.command() == cmd && x.rules()
            == rules && x.why() is Approved,
        c is Refused <==> answer is Denied,
{
}

/// A command that the chain blocks or has to ask about is not cleared; one that
/// is cleared is the one that was put to the chain.
pub proof fn law_chain_clears_its_own_command(
    c: Clearing,
    rules: CompiledView,
    host: Seq<char>,
    cmd: Seq<char>,
    view: ChainView,
)
    requires
        clears_as(c, rules, host, cmd, view),
    ensures
        c is Cleared <==> view is Allowed || view is Remembered || view is Approved,
        c matches Clearing::Cleared(x) ==> x.on() == host && x.command() == cmd && x.rules()
            == rules,
        c is Ask <==> view is Ask,
        c matches Clearing::Ask(a) ==> a.on() == host && a.command() == cmd && a.rules() == rules,
        c is Refused <==> view is Denied || view is Blocked,
{
}

/// The user's approval, given now or a moment ago, lets through a command that
/// only a confirm pattern stops.
pub proof fn law_approved_command_runs(rules: CompiledView, cmd: Seq<char>, i: int)
    requires
        forall|k: int|
            0 <= k < rules.deny.len() ==> !regex_finds((#[trigger] rules.deny[k]).1, cmd),
        0 <= i < rules.confirm.len(),
        regex_finds(rules.confirm[i].1, cmd),
        !rules.read_only || !writeful(cmd),
    ensures
        lets_through(rules, cmd, Clearance::Approved),
        lets_through(rules, cmd, Clearance::Remembered),
{
    law_confirm_is_never_skipped(rules, cmd, i);
    law_undenied_command_is_not_denied(rules, cmd);
}

} // verus!

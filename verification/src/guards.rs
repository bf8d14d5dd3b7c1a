//! What a call may do: patterns that commands are held against, and paths that
//! are off limits on either side.

pub mod command;
pub mod pattern;

use std::sync::Arc;

use vstd::prelude::*;

use crate::config::{
    default_confirm, default_confirm_patterns, default_deny, default_deny_patterns, default_guards,
    index_of_name, lookup, Config, Guards, GuardsView, HostView,
};
use crate::errors::{Result, SshError};
use crate::paths::{
    covered_by, directory_and_name, fold_path, folded, is_covered_by, is_filesystem_root,
    law_directory_and_name_make_the_path, names_filesystem, resolve_local_path, resolved_local,
    slashed, slashed_text, split_last_name, strip_last_slashes, with_slashes, without_last_slashes,
    LocalEnv, LocalView,
};
use crate::ssh_config::opt_view;
use crate::text::{
    chars_of, ends_with, has_char, has_suffix, joined2, joined3, law_lower_changes_only_capitals,
    lemma_views_push, lower, same, starts_with, string_of, to_lower, trim, trimmed, views,
};
use command::{looks_writeful, writeful};
use pattern::{
    compile_all, compiled_views, expressions, first_match, patterns_fault, regex_fault, regex_finds,
    regex_set_fault, set_error_text, CompiledPattern, PatternBank,
};

verus! {

// ---------------------------------------------------------------------------
// Paths that are off limits
// ---------------------------------------------------------------------------

/// Remote files that are not read: keys, shadow files, cloud credentials.
pub const REMOTE_READ: &'static str = r#"(?ix)
            (?:^|/)
            (?:
                shadow | gshadow
              | sudoers
              | id_(?:rsa|ed25519|ecdsa|dsa|sk)
              | identity
            )
            $
            |
            (?:^|/)\.ssh/id_[a-z0-9_]+$
            |
            (?:^|/)\.aws/credentials$
            |
            (?:^|/)\.kube/config$
            |
            (?:^|/)\.docker/config\.json$
            |
            (?:^|/)\.config/gcloud/.+$
            |
            (?:^|/)\.azure/.+$
            |
            (?:^|/)\.git-credentials$
            |
            (?:^|/)\.netrc$
            |
            (?:^|/)\.pgpass$
            |
            (?:^|/)etc/(?:shadow|gshadow|sudoers)$
            |
            (?:^|/)etc/sudoers\.d/.+$
            |
            (?:^|/)etc/ssh/ssh_host_[a-z0-9_]+_key$
            |
            (?:^|/)proc/[0-9]+/(?:mem|environ)$
            "#;

/// Remote files that are not written: whoever can write them can log in or run
/// code as someone else.
pub const REMOTE_WRITE: &'static str = r#"(?ix)
            (?:^|/)
            (?:
                \.ssh/(?:authorized_keys2?|known_hosts2?|id_[a-z0-9]+|rc|config|environment)
              | sudoers
              | shadow | gshadow | passwd | group
              | crontab
            )
            $
            |
            (?:^|/)
            (?:
                etc/(?:sudoers\.d|cron\.(?:d|hourly|daily|weekly|monthly)|init\.d|systemd/system|pam\.d|ssh|profile\.d)/.*
              | etc/(?:fstab|hosts|resolv\.conf|nsswitch\.conf|environment|profile|ld\.so\.preload|ld\.so\.conf)
              | etc/ld\.so\.conf\.d/.*
              | (?:usr/)?lib/systemd/(?:system|user)/.*
              | var/spool/cron/.*
              | root/\.ssh/.*
              | boot/.*
            )
            $"#;

/// Local files that are not written: shell startup files, SSH material,
/// credential stores, crontabs and autostart directories.
pub const LOCAL_WRITE: &'static str = r#"(?ix)
            (?:^|/)\.(?:bashrc|bash_profile|bash_login|bash_logout|profile
                      |zshrc|zshenv|zprofile|zlogin|zlogout|kshrc|cshrc|tcshrc)$
            |
            (?:^|/)\.config/fish/(?:config\.fish|conf\.d/.+|functions/.+)$
            |
            (?:^|/)\.ssh/.+$
            |
            (?:^|/)\.(?:gitconfig|npmrc|pypirc|netrc|pgpass|curlrc|wgetrc)$
            |
            (?:^|/)\.aws/.+$
            |
            (?:^|/)\.config/gcloud/.+$
            |
            (?:^|/)\.kube/.+$
            |
            (?:^|/)\.docker/.+$
            |
            (?:^|/)(?:var/spool/cron|etc/cron\.d|etc/cron\.(?:hourly|daily|weekly|monthly))/.+$
            |
            (?:^|/)\.config/(?:autostart|systemd/user)/.+$
            |
            (?:^|/)start\x20menu/programs/startup/.+$
            "#;

/// Local files that are not read: private keys, credentials, cookie stores and
/// `.env` files. A public key stays readable: it is meant to be copied around.
pub const LOCAL_READ: &'static str = r#"(?ix)
            (?:^|/)\.ssh/id_[a-z0-9_-]+$
            |
            \.(?:pem|key|pfx|p12)$
            |
            (?:^|/)\.aws/credentials$
            |
            (?:^|/)\.config/gcloud/.+$
            |
            (?:^|/)\.kube/config$
            |
            (?:^|/)\.docker/config\.json$
            |
            (?:^|/)\.(?:netrc|npmrc|pypirc|pgpass|git-credentials)$
            |
            (?:^|/)(?:cookies\.sqlite|cookies|login\x20data|key[34]\.db|logins\.json)$
            |
            (?:^|/)\.env(?:\.[a-z0-9_.-]+)?$
            "#;

/// The first of two faults.
pub open spec fn first_fault(a: Option<Seq<char>>, b: Option<Seq<char>>) -> Option<Seq<char>> {
    if a is Some {
        a
    } else {
        b
    }
}

/// What is wrong with a bank, as it is reported.
pub open spec fn bank_fault(bank: Seq<Seq<char>>) -> Option<Seq<char>> {
    match regex_set_fault(bank) {
        Some(why) => Some(set_error_text(why)),
        None => None,
    }
}

/// What is wrong with the built-in path expressions.
pub open spec fn path_banks_fault() -> Option<Seq<char>> {
    first_fault(
        bank_fault(seq![REMOTE_READ@]),
        first_fault(
            bank_fault(seq![REMOTE_WRITE@]),
            first_fault(bank_fault(seq![LOCAL_READ@]), bank_fault(seq![LOCAL_WRITE@])),
        ),
    )
}

/// The built-in path expressions.
#[derive(Debug)]
struct PathBanks {
    remote_read: PatternBank,
    remote_write: PatternBank,
    local_read: PatternBank,
    local_write: PatternBank,
}

/// A bank of one expression.
pub open spec fn lone(pattern: Seq<char>) -> Seq<(Seq<char>, Seq<char>)> {
    seq![(""@, pattern)]
}

fn lone_bank(pattern: &str) -> (r: Result<PatternBank>)
    ensures
        match r {
            Ok(b) => bank_fault(seq![pattern@]) is None && b@ == lone(pattern@),
            Err(e) => e is Config && bank_fault(seq![pattern@]) == Some(e->Config_0@),
        },
{
    let mut v: Vec<CompiledPattern> = Vec::new();
    v.push(CompiledPattern { name: "".to_owned(), pattern: pattern.to_owned() });
    assert(compiled_views(v@) =~= lone(pattern@));
    assert(expressions(lone(pattern@)) =~= seq![pattern@]);
    PatternBank::new(v)
}

/// Whether the one expression of a bank matches.
fn bank_finds(bank: &PatternBank, text: &str, Ghost(pattern): Ghost<Seq<char>>) -> (r: bool)
    requires
        bank@ == lone(pattern),
    ensures
        r == regex_finds(pattern, text@),
{
    proof {
        assert(bank@[0].1 == pattern);
        assert(bank@.skip(1) =~= Seq::empty());
        assert(first_match(bank@.skip(1), text@) is None);
    }
    bank.matched(text).is_some()
}

impl PathBanks {
    #[verifier::type_invariant]
    spec fn built_in(self) -> bool {
        &&& self.remote_read@ == lone(REMOTE_READ@)
        &&& self.remote_write@ == lone(REMOTE_WRITE@)
        &&& self.local_read@ == lone(LOCAL_READ@)
        &&& self.local_write@ == lone(LOCAL_WRITE@)
    }

    fn new() -> (r: Result<Self>)
        ensures
            match r {
                Ok(_) => path_banks_fault() is None,
                Err(e) => e is Config && path_banks_fault() == Some(e->Config_0@),
            },
    {
        let remote_read = match lone_bank(REMOTE_READ) {
            Ok(b) => b,
            Err(e) => {
                return Err(e);
            },
        };
        let remote_write = match lone_bank(REMOTE_WRITE) {
            Ok(b) => b,
            Err(e) => {
                return Err(e);
            },
        };
        let local_read = match lone_bank(LOCAL_READ) {
            Ok(b) => b,
            Err(e) => {
                return Err(e);
            },
        };
        let local_write = match lone_bank(LOCAL_WRITE) {
            Ok(b) => b,
            Err(e) => {
                return Err(e);
            },
        };
        Ok(PathBanks { remote_read, remote_write, local_read, local_write })
    }

    fn remote_read_blocked(&self, path: &str) -> (r: bool)
        ensures
            r == regex_finds(REMOTE_READ@, path@),
    {
        proof {
            use_type_invariant(&*self);
        }
        bank_finds(&self.remote_read, path, Ghost(REMOTE_READ@))
    }

    fn remote_write_blocked(&self, path: &str) -> (r: bool)
        ensures
            r == regex_finds(REMOTE_WRITE@, path@),
    {
        proof {
            use_type_invariant(&*self);
        }
        bank_finds(&self.remote_write, path, Ghost(REMOTE_WRITE@))
    }

    fn local_read_blocked(&self, path: &str) -> (r: bool)
        ensures
            r == regex_finds(LOCAL_READ@, path@),
    {
        proof {
            use_type_invariant(&*self);
        }
        bank_finds(&self.local_read, path, Ghost(LOCAL_READ@))
    }

    fn local_write_blocked(&self, path: &str) -> (r: bool)
        ensures
            r == regex_finds(LOCAL_WRITE@, path@),
    {
        proof {
            use_type_invariant(&*self);
        }
        bank_finds(&self.local_write, path, Ghost(LOCAL_WRITE@))
    }
}

// ---------------------------------------------------------------------------
// Allowlists
//
// The exception is deliberately config-only: nothing a tool call carries can
// widen it.
// ---------------------------------------------------------------------------

/// The operator's home directory itself, not a path under it.
pub open spec fn operator_home(path: Seq<char>, home: Option<Seq<char>>, windows: bool) -> bool {
    home is Some && folded(home->0, windows).len() > 0 && folded(path, windows) == folded(
        home->0,
        windows,
    )
}

/// What is wrong with one entry of an allowlist: those that would hand back the
/// whole filesystem are refused.
pub open spec fn entry_fault(entry: Seq<char>, field: Seq<char>, env: LocalView) -> Option<
    Seq<char>,
> {
    let raw = trimmed(entry);
    let resolved = resolved_local(raw, env);
    if raw.len() == 0 {
        Some(field + ": empty path"@)
    } else if raw.contains('*') || raw.contains('?') {
        Some(
            field + ": globs are not supported, name the file or its directory: "@ + raw,
        )
    } else if is_filesystem_root(resolved, env.windows) {
        Some(field + ": a filesystem root allows everything: "@ + raw)
    } else if operator_home(resolved, env.home, env.windows) {
        Some(field + ": the home directory allows everything under it: "@ + raw)
    } else if folded(resolved, env.windows).len() == 0 {
        Some(field + ": empty path: "@ + raw)
    } else {
        None
    }
}

/// An entry that is accepted names one file or one directory subtree: no glob,
/// no filesystem root and not the home directory.
pub proof fn law_allow_entry_is_no_root(entry: Seq<char>, field: Seq<char>, env: LocalView)
    requires
        entry_fault(entry, field, env) is None,
    ensures
        !trimmed(entry).contains('*') && !trimmed(entry).contains('?'),
        !is_filesystem_root(resolved_local(trimmed(entry), env), env.windows),
        !operator_home(resolved_local(trimmed(entry), env), env.home, env.windows),
{
}

/// What is wrong with the first entry that anything is wrong with.
pub open spec fn allow_fault(entries: Seq<Seq<char>>, field: Seq<char>, env: LocalView) -> Option<
    Seq<char>,
>
    decreases entries.len(),
{
    if entries.len() == 0 {
        None
    } else {
        first_fault(entry_fault(entries[0], field, env), allow_fault(entries.skip(1), field, env))
    }
}

/// The entries of an allowlist in the form that paths are compared in.
pub open spec fn allow_list(entries: Seq<Seq<char>>, env: LocalView) -> Seq<Seq<char>> {
    Seq::new(
        entries.len(),
        |i: int| folded(resolved_local(trimmed(entries[i]), env), env.windows),
    )
}

fn is_operator_home(path: &str, home: &Option<String>, windows: bool) -> (r: bool)
    ensures
        r == operator_home(path@, opt_view(*home), windows),
{
    match home {
        None => false,
        Some(h) => {
            let h = fold_path(h.as_str(), windows);
            let p = fold_path(path, windows);
            !h.as_str().is_empty() && same(p.as_str(), h.as_str())
        },
    }
}

fn entry_error(field: &str, what: &str, raw: &str) -> (r: SshError)
    ensures
        r is Config,
        r->Config_0@ == field@ + what@ + raw@,
{
    SshError::Config(joined3(field, what, raw))
}

/// Normalize one allowlist entry at config-load time, so a typo is a startup
/// error rather than a guard that silently never fires.
fn compile_entry(entry: &str, field: &str, env: &LocalEnv) -> (r: Result<String>)
    ensures
        match r {
            Ok(s) => entry_fault(entry@, field@, env@) is None && s@ == folded(
                resolved_local(trimmed(entry@), env@),
                env@.windows,
            ),
            Err(e) => e is Config && entry_fault(entry@, field@, env@) == Some(e->Config_0@),
        },
{
    let raw = trim(entry);
    if raw.as_str().is_empty() {
        return Err(SshError::Config(joined2(field, ": empty path")));
    }
    if has_char(raw.as_str(), '*') || has_char(raw.as_str(), '?') {
        return Err(
            entry_error(
                field,
                ": globs are not supported, name the file or its directory: ",
                raw.as_str(),
            ),
        );
    }
    let resolved = resolve_local_path(raw.as_str(), env);
    if names_filesystem(resolved.as_str(), env.windows) {
        return Err(entry_error(field, ": a filesystem root allows everything: ", raw.as_str()));
    }
    if is_operator_home(resolved.as_str(), &env.home, env.windows) {
        return Err(
            entry_error(
                field,
                ": the home directory allows everything under it: ",
                raw.as_str(),
            ),
        );
    }
    let norm = fold_path(resolved.as_str(), env.windows);
    if norm.as_str().is_empty() {
        return Err(entry_error(field, ": empty path: ", raw.as_str()));
    }
    Ok(norm)
}

fn compile_local_allow(entries: &Vec<String>, field: &str, env: &LocalEnv) -> (r: Result<
    Vec<String>,
>)
    ensures
        match r {
            Ok(v) => allow_fault(views(entries@), field@, env@) is None && views(v@) == allow_list(
                views(entries@),
                env@,
            ),
            Err(e) => e is Config && allow_fault(views(entries@), field@, env@) == Some(
                e->Config_0@,
            ),
        },
{
    let ghost all = views(entries@);
    let ghost list = allow_list(all, env@);
    let mut out: Vec<String> = Vec::new();
    let mut i: usize = 0;
    proof {
        assert(all.skip(0) =~= all);
        assert(views(out@) =~= list.take(0));
    }
    while i < entries.len()
        invariant
            i <= entries@.len(),
            all == views(entries@),
            list == allow_list(all, env@),
            allow_fault(all, field@, env@) == allow_fault(all.skip(i as int), field@, env@),
            views(out@) == list.take(i as int),
        decreases entries@.len() - i,
    {
        proof {
            assert(all.skip(i as int)[0] == all[i as int]);
            assert(all.skip(i as int).skip(1) =~= all.skip(i + 1));
            assert(list.take(i + 1) =~= list.take(i as int).push(list[i as int]));
        }
        match compile_entry(entries[i].as_str(), field, env) {
            Ok(s) => {
                proof {
                    lemma_views_push(out@, s);
                }
                out.push(s);
            },
            Err(e) => {
                return Err(e);
            },
        }
        i = i + 1;
    }
    assert(all.skip(i as int) =~= Seq::empty());
    assert(list.take(i as int) =~= list);
    Ok(out)
}

/// `path` is an entry of an allowlist itself or sits under one. A directory
/// entry covers its whole subtree.
pub open spec fn allowed(allow: Seq<Seq<char>>, path: Seq<char>, windows: bool) -> bool {
    exists|i: int| 0 <= i < allow.len() && covered_by(folded(path, windows), #[trigger] allow[i])
}

/// Matching is textual on the already-resolved path, so `..` and symlinked
/// parents cannot smuggle a protected file in under an allowed prefix.
fn path_allowed(allow: &Vec<String>, path: &str, windows: bool) -> (r: bool)
    ensures
        r == allowed(views(allow@), path@, windows),
{
    let p = fold_path(path, windows);
    let ghost all = views(allow@);
    let mut i: usize = 0;
    while i < allow.len()
        invariant
            i <= allow@.len(),
            all == views(allow@),
            p@ == folded(path@, windows),
            forall|j: int| 0 <= j < i ==> !covered_by(p@, #[trigger] all[j]),
        decreases allow@.len() - i,
    {
        assert(all[i as int] == allow@[i as int]@);
        if is_covered_by(p.as_str(), allow[i].as_str()) {
            return true;
        }
        i = i + 1;
    }
    false
}

/// A file name of the form `.<something>rc`.
pub open spec fn dotrc_name(name: Seq<char>) -> bool {
    name.len() >= 4 && name[0] == '.' && has_suffix(lower(name), "rc"@)
}

/// The path of a home directory in the form that startup files are found in.
pub open spec fn home_form(home: Seq<char>) -> Seq<char> {
    lower(without_last_slashes(slashed_text(home)))
}

/// Catch-all for dotfiles the explicit list misses: any `.<something>rc`
/// directly under the operator's home is a startup file for *some* tool.
/// Scoped to home so an unrelated `./.foorc` in a scratch dir stays writable.
pub open spec fn home_dotrc(path: Seq<char>, home: Option<Seq<char>>) -> bool {
    match (directory_and_name(path), home) {
        (Some((dir, name)), Some(h)) => {
            let p = lower(slashed_text(path));
            let f = home_form(h);
            &&& dotrc_name(name)
            &&& f.len() > 0
            &&& p.len() > f.len()
            &&& p.take(f.len() as int) == f
            &&& p[f.len() as int] == '/'
            &&& !p.skip(f.len() as int + 1).contains('/')
        },
        _ => false,
    }
}

fn is_home_dotrc(path: &str, home: &Option<String>) -> (r: bool)
    ensures
        r == home_dotrc(path@, opt_view(*home)),
{
    let name = match split_last_name(path) {
        Some((_, name)) => name,
        None => {
            return false;
        },
    };
    let n = chars_of(name.as_str());
    let lowered = to_lower(name.as_str());
    if !(n.len() >= 4 && n[0] == '.' && ends_with(lowered.as_str(), "rc")) {
        return false;
    }
    match home {
        None => false,
        Some(h) => {
            let f = slashed(h.as_str());
            let f = strip_last_slashes(f.as_str());
            let f = to_lower(f.as_str());
            let p = slashed(path);
            let p = to_lower(p.as_str());
            let pv = chars_of(p.as_str());
            let fv = chars_of(f.as_str());
            let len: usize = pv.len();
            if !(fv.len() > 0 && len > fv.len() && starts_with(p.as_str(), f.as_str())
                && pv[fv.len()] == '/') {
                return false;
            }
            let rest = string_of(&pv, fv.len() + 1, len);
            assert(rest@ =~= p@.skip(f@.len() as int + 1));
            !has_char(rest.as_str(), '/')
        },
    }
}

// ---------------------------------------------------------------------------
// Compiled guards
// ---------------------------------------------------------------------------

/// What a guard says of a command.
#[derive(Debug, Clone, PartialEq, Eq)]
pub enum GuardCheck {
    Allow,
    Confirm { pattern_name: String },
    Deny { pattern_name: String, pattern: String },
}

/// The mathematical content of a [`GuardCheck`].
pub enum CheckView {
    Allow,
    Confirm(Seq<char>),
    Deny(Seq<char>, Seq<char>),
}

impl View for GuardCheck {
    type V = CheckView;

    open spec fn view(&self) -> CheckView {
        match self {
            GuardCheck::Allow => CheckView::Allow,
            GuardCheck::Confirm { pattern_name } => CheckView::Confirm(pattern_name@),
            GuardCheck::Deny { pattern_name, pattern } => CheckView::Deny(pattern_name@, pattern@),
        }
    }
}

/// What guards hold, once they are compiled.
#[verifier::ext_equal]
pub struct CompiledView {
    pub deny: Seq<(Seq<char>, Seq<char>)>,
    pub confirm: Seq<(Seq<char>, Seq<char>)>,
    pub read_only: bool,
    pub local_read_allow: Seq<Seq<char>>,
    pub local_write_allow: Seq<Seq<char>>,
    pub home: Option<Seq<char>>,
    pub windows: bool,
}

/// The patterns that are refused.
pub open spec fn deny_list(g: GuardsView) -> Seq<(Seq<char>, Seq<char>)> {
    if g.use_default_deny {
        default_deny() + g.deny
    } else {
        g.deny
    }
}

/// The patterns that are asked about.
pub open spec fn confirm_list(g: GuardsView) -> Seq<(Seq<char>, Seq<char>)> {
    if g.use_default_confirm {
        default_confirm() + g.confirm
    } else {
        g.confirm
    }
}

/// What is wrong with guards: the first of their patterns that does not
/// compile, then a bank that does not, then an entry of an allowlist.
pub open spec fn guards_fault(g: GuardsView, env: LocalView) -> Option<Seq<char>> {
    let built_in_deny = if g.use_default_deny {
        patterns_fault(default_deny())
    } else {
        None
    };
    let built_in_confirm = if g.use_default_confirm {
        patterns_fault(default_confirm())
    } else {
        None
    };
    let patterns = first_fault(
        first_fault(built_in_deny, built_in_confirm),
        first_fault(patterns_fault(g.deny), patterns_fault(g.confirm)),
    );
    let banks = first_fault(
        bank_fault(expressions(deny_list(g))),
        bank_fault(expressions(confirm_list(g))),
    );
    let allow = first_fault(
        allow_fault(g.local_read_allow, "local_read_allow"@, env),
        allow_fault(g.local_write_allow, "local_write_allow"@, env),
    );
    first_fault(patterns, first_fault(banks, first_fault(allow, path_banks_fault())))
}

/// What guards compile to.
pub open spec fn compiled(g: GuardsView, env: LocalView) -> CompiledView {
    CompiledView {
        deny: deny_list(g),
        confirm: confirm_list(g),
        read_only: g.read_only,
        local_read_allow: allow_list(g.local_read_allow, env),
        local_write_allow: allow_list(g.local_write_allow, env),
        home: env.home,
        windows: env.windows,
    }
}

/// What compiled guards say of a command: deny patterns first, then the
/// read-only rule, then confirm patterns.
pub open spec fn checked(g: CompiledView, cmd: Seq<char>) -> CheckView {
    match first_match(g.deny, cmd) {
        Some((name, pattern)) => CheckView::Deny(name, pattern),
        None => if g.read_only && writeful(cmd) {
            CheckView::Deny("read-only"@, "host marked read_only"@)
        } else {
            match first_match(g.confirm, cmd) {
                Some((name, _)) => CheckView::Confirm(name),
                None => CheckView::Allow,
            }
        },
    }
}

/// `r` is a refusal by the named guard.
pub open spec fn blocked_by(r: Result<()>, name: Seq<char>, pattern: Seq<char>) -> bool {
    match r {
        Err(e) => e is BlockedByGuard && e->name@ == name && e->pattern@ == pattern,
        Ok(_) => false,
    }
}

fn blocked(name: &str, pattern: &str) -> (r: Result<()>)
    ensures
        blocked_by(r, name@, pattern@),
{
    Err(SshError::BlockedByGuard { name: name.to_owned(), pattern: pattern.to_owned() })
}

/// What a refused local read is told.
pub const LOCAL_READ_BLOCKED: &'static str =
    "read of sensitive local path blocked; only the operator can allow it, by listing this path under local_read_allow in ~/.fast-mcp-ssh/hosts.toml";

/// What a refused local write is told.
pub const LOCAL_WRITE_BLOCKED: &'static str =
    "write to sensitive local path blocked; only the operator can allow it, by listing this path under local_write_allow in ~/.fast-mcp-ssh/hosts.toml";

#[derive(Debug)]
pub struct CompiledGuards {
    deny: PatternBank,
    confirm: PatternBank,
    read_only: bool,
    /// Normalized local paths exempt from the sensitive-path banks. Slashed,
    /// trailing slash stripped, case-folded on Windows only.
    local_read_allow: Vec<String>,
    local_write_allow: Vec<String>,
    home: Option<String>,
    windows: bool,
    paths: PathBanks,
}

impl View for CompiledGuards {
    type V = CompiledView;

    closed spec fn view(&self) -> CompiledView {
        CompiledView {
            deny: self.deny@,
            confirm: self.confirm@,
            read_only: self.read_only,
            local_read_allow: views(self.local_read_allow@),
            local_write_allow: views(self.local_write_allow@),
            home: opt_view(self.home),
            windows: self.windows,
        }
    }
}

fn compile_banks(g: &Guards) -> (r: Result<(PatternBank, PatternBank)>)
    ensures
        match r {
            Ok(b) => b.0@ == deny_list(g@) && b.1@ == confirm_list(g@) && first_fault(
                first_fault(
                    first_fault(
                        if g@.use_default_deny {
                            patterns_fault(default_deny())
                        } else {
                            None
                        },
                        if g@.use_default_confirm {
                            patterns_fault(default_confirm())
                        } else {
                            None
                        },
                    ),
                    first_fault(patterns_fault(g@.deny), patterns_fault(g@.confirm)),
                ),
                first_fault(
                    bank_fault(expressions(deny_list(g@))),
                    bank_fault(expressions(confirm_list(g@))),
                ),
            ) is None,
            Err(e) => e is Config && first_fault(
                first_fault(
                    first_fault(
                        if g@.use_default_deny {
                            patterns_fault(default_deny())
                        } else {
                            None
                        },
                        if g@.use_default_confirm {
                            patterns_fault(default_confirm())
                        } else {
                            None
                        },
                    ),
                    first_fault(patterns_fault(g@.deny), patterns_fault(g@.confirm)),
                ),
                first_fault(
                    bank_fault(expressions(deny_list(g@))),
                    bank_fault(expressions(confirm_list(g@))),
                ),
            ) == Some(e->Config_0@),
        },
{
    let mut deny: Vec<CompiledPattern> = Vec::new();
    let mut confirm: Vec<CompiledPattern> = Vec::new();
    assert(compiled_views(deny@) =~= Seq::empty());
    assert(compiled_views(confirm@) =~= Seq::empty());
    if g.use_default_deny {
        deny = match compile_all(deny, &default_deny_patterns()) {
            Ok(v) => v,
            Err(e) => {
                return Err(e);
            },
        };
    }
    if g.use_default_confirm {
        confirm = match compile_all(confirm, &default_confirm_patterns()) {
            Ok(v) => v,
            Err(e) => {
                return Err(e);
            },
        };
    }
    deny = match compile_all(deny, &g.deny) {
        Ok(v) => v,
        Err(e) => {
            return Err(e);
        },
    };
    confirm = match compile_all(confirm, &g.confirm) {
        Ok(v) => v,
        Err(e) => {
            return Err(e);
        },
    };
    assert(compiled_views(deny@) =~= deny_list(g@));
    assert(compiled_views(confirm@) =~= confirm_list(g@));
    let deny = match PatternBank::new(deny) {
        Ok(b) => b,
        Err(e) => {
            return Err(e);
        },
    };
    let confirm = match PatternBank::new(confirm) {
        Ok(b) => b,
        Err(e) => {
            return Err(e);
        },
    };
    Ok((deny, confirm))
}

impl CompiledGuards {
    /// Compiles every pattern and resolves every allowlist entry, so that a typo
    /// is a startup error rather than a guard that silently never fires.
    pub fn compile(g: &Guards, env: &LocalEnv) -> (r: Result<Self>)
        ensures
            match r {
                Ok(c) => guards_fault(g@, env@) is None && c@ == compiled(g@, env@),
                Err(e) => e is Config && guards_fault(g@, env@) == Some(e->Config_0@),
            },
    {
        let (deny, confirm) = match compile_banks(g) {
            Ok(b) => b,
            Err(e) => {
                return Err(e);
            },
        };
        let local_read_allow = match compile_local_allow(
            &g.local_read_allow,
            "local_read_allow",
            env,
        ) {
            Ok(v) => v,
            Err(e) => {
                return Err(e);
            },
        };
        let local_write_allow = match compile_local_allow(
            &g.local_write_allow,
            "local_write_allow",
            env,
        ) {
            Ok(v) => v,
            Err(e) => {
                return Err(e);
            },
        };
        let paths = match PathBanks::new() {
            Ok(p) => p,
            Err(e) => {
                return Err(e);
            },
        };
        let home = match &env.home {
            Some(h) => Some(h.clone()),
            None => None,
        };
        let c = CompiledGuards {
            deny,
            confirm,
            read_only: g.read_only,
            local_read_allow,
            local_write_allow,
            home,
            windows: env.windows,
            paths,
        };
        assert(c@ =~= compiled(g@, env@));
        Ok(c)
    }

    /// Whether the host is marked read-only.
    pub fn is_read_only(&self) -> (r: bool)
        ensures
            r == self@.read_only,
    {
        self.read_only
    }

    pub fn check(&self, cmd: &str) -> (r: GuardCheck)
        ensures
            r@ == checked(self@, cmd@),
    {
        // Single RegexSet pass per bank.
        if let Some(p) = self.deny.matched(cmd) {
            return GuardCheck::Deny {
                pattern_name: p.name.clone(),
                pattern: p.pattern.clone(),
            };
        }
        if self.read_only && looks_writeful(cmd) {
            return GuardCheck::Deny {
                pattern_name: "read-only".to_owned(),
                pattern: "host marked read_only".to_owned(),
            };
        }
        if let Some(p) = self.confirm.matched(cmd) {
            return GuardCheck::Confirm { pattern_name: p.name.clone() };
        }
        GuardCheck::Allow
    }

    /// Guard for SFTP write paths (`wr` / `up`). Refuses on read_only hosts and
    /// on a small set of sensitive paths (authorized_keys, sudoers, cron, shadow,
    /// passwd, systemd units). Path is matched server-side as the AI sees it.
    pub fn check_sftp_write(&self, remote_path: &str) -> (r: Result<()>)
        ensures
            r is Ok <==> !self@.read_only && !regex_finds(REMOTE_WRITE@, remote_path@),
            self@.read_only ==> blocked_by(r, "read-only"@, "host marked read_only"@),
            !self@.read_only && r is Err ==> blocked_by(
                r,
                "sensitive-path"@,
                "write to sensitive system path blocked"@,
            ),
    {
        if self.read_only {
            return blocked("read-only", "host marked read_only");
        }
        if self.paths.remote_write_blocked(remote_path) {
            return blocked("sensitive-path", "write to sensitive system path blocked");
        }
        Ok(())
    }

    /// Guard for SFTP read paths (`dn` / `ls` / `stat`). Blocks reads of
    /// private keys, shadow files, sudoers, and cloud-credential files
    /// regardless of `read_only`. Read-only hosts still allow safe reads.
    pub fn check_sftp_read(&self, remote_path: &str) -> (r: Result<()>)
        ensures
            r is Ok <==> !regex_finds(REMOTE_READ@, remote_path@),
            r is Err ==> blocked_by(
                r,
                "sensitive-read"@,
                "read of sensitive system path blocked"@,
            ),
    {
        if self.paths.remote_read_blocked(remote_path) {
            return blocked("sensitive-read", "read of sensitive system path blocked");
        }
        Ok(())
    }

    /// Refuse a local read of private keys, credential files, browser cookie
    /// stores or `.env` files. Without it `up` could carry them off.
    /// `local_read_allow` exempts a path the operator wrote down in advance.
    pub fn check_local_read(&self, resolved: &str) -> (r: Result<()>)
        ensures
            r is Ok <==> allowed(self@.local_read_allow, resolved@, self@.windows) || !regex_finds(
                LOCAL_READ@,
                slashed_text(resolved@),
            ),
            r is Err ==> blocked_by(r, "local-read"@, LOCAL_READ_BLOCKED@),
    {
        if path_allowed(&self.local_read_allow, resolved, self.windows) {
            return Ok(());
        }
        let s = slashed(resolved);
        if self.paths.local_read_blocked(s.as_str()) {
            return blocked("local-read", LOCAL_READ_BLOCKED);
        }
        Ok(())
    }

    /// Refuse a local write that would land on shell startup files, SSH
    /// material, credential stores or an autostart directory: a `dn` into
    /// `~/.bashrc` is code execution on the operator's box.
    /// `local_write_allow` exempts a path the operator wrote down in advance.
    pub fn check_local_write(&self, resolved: &str) -> (r: Result<()>)
        ensures
            r is Ok <==> allowed(self@.local_write_allow, resolved@, self@.windows) || !(
            regex_finds(LOCAL_WRITE@, slashed_text(resolved@)) || home_dotrc(
                resolved@,
                self@.home,
            )),
            r is Err ==> blocked_by(r, "local-write"@, LOCAL_WRITE_BLOCKED@),
    {
        if path_allowed(&self.local_write_allow, resolved, self.windows) {
            return Ok(());
        }
        let s = slashed(resolved);
        if self.paths.local_write_blocked(s.as_str()) || is_home_dotrc(resolved, &self.home) {
            return blocked("local-write", LOCAL_WRITE_BLOCKED);
        }
        Ok(())
    }
}

// ---------------------------------------------------------------------------
// One set of guards for each host
// ---------------------------------------------------------------------------

/// The guards that hold for a host: its own, where it declares any.
pub open spec fn guards_of(h: HostView, default: GuardsView) -> GuardsView {
    match h.guards {
        Some(g) => g,
        None => default,
    }
}

/// The guards that hold for calls to a host of this name.
pub open spec fn guards_for(
    hosts: Seq<(Seq<char>, HostView)>,
    default: GuardsView,
    name: Seq<char>,
) -> GuardsView {
    match lookup(hosts, name) {
        Some(h) => guards_of(h, default),
        None => default,
    }
}

/// What is wrong with the first set of guards that anything is wrong with.
pub open spec fn host_guards_fault(hosts: Seq<(Seq<char>, HostView)>, env: LocalView) -> Option<
    Seq<char>,
>
    decreases hosts.len(),
{
    if hosts.len() == 0 {
        None
    } else {
        first_fault(
            match hosts[0].1.guards {
                Some(g) => guards_fault(g, env),
                None => None,
            },
            host_guards_fault(hosts.skip(1), env),
        )
    }
}

/// Pre-compiled guards keyed by host name. The `default` slot holds the global
/// rules used for any host that does not declare its own block.
pub struct GuardCache {
    default: Arc<CompiledGuards>,
    names: Vec<String>,
    by_host: Vec<Option<Arc<CompiledGuards>>>,
    declared: Ghost<Seq<(Seq<char>, HostView)>>,
    global: Ghost<GuardsView>,
    env: Ghost<LocalView>,
}

/// The guards that were compiled for the `i`-th host.
pub open spec fn compiled_for(
    hosts: Seq<(Seq<char>, HostView)>,
    env: LocalView,
    i: int,
    g: Option<Arc<CompiledGuards>>,
) -> bool {
    match hosts[i].1.guards {
        Some(own) => g is Some && (*g->0)@ == compiled(own, env),
        None => g is None,
    }
}

impl GuardCache {
    /// The hosts that the cache was built for.
    pub closed spec fn hosts(&self) -> Seq<(Seq<char>, HostView)> {
        self.declared@
    }

    /// The global rules that it was built with.
    pub closed spec fn rules(&self) -> GuardsView {
        self.global@
    }

    /// The machine that it was built on.
    pub closed spec fn machine(&self) -> LocalView {
        self.env@
    }

    #[verifier::type_invariant]
    spec fn complete(self) -> bool {
        &&& (*self.default)@ == compiled(self.global@, self.env@)
        &&& self.names@.len() == self.declared@.len()
        &&& self.by_host@.len() == self.declared@.len()
        &&& forall|i: int|
            #![trigger self.names@[i]]
            0 <= i < self.declared@.len() ==> self.names@[i]@ == self.declared@[i].0
        &&& forall|i: int|
            #![trigger self.by_host@[i]]
            0 <= i < self.declared@.len() ==> compiled_for(
                self.declared@,
                self.env@,
                i,
                self.by_host@[i],
            )
    }

    pub fn build(cfg: &Config, env: &LocalEnv) -> (r: Result<Self>)
        ensures
            match r {
                Ok(c) => {
                    &&& guards_fault(cfg.defaults.guards@, env@) is None
                    &&& host_guards_fault(cfg.hosts@, env@) is None
                    &&& c.hosts() == cfg.hosts@
                    &&& c.rules() == cfg.defaults.guards@
                    &&& c.machine() == env@
                },
                Err(e) => e is Config && first_fault(
                    guards_fault(cfg.defaults.guards@, env@),
                    host_guards_fault(cfg.hosts@, env@),
                ) == Some(e->Config_0@),
            },
    {
        let default = match CompiledGuards::compile(&cfg.defaults.guards, env) {
            Ok(g) => Arc::new(g),
            Err(e) => {
                return Err(e);
            },
        };
        let ghost all = cfg.hosts@;
        assert(all.skip(0) =~= all);
        let mut names: Vec<String> = Vec::new();
        let mut by_host: Vec<Option<Arc<CompiledGuards>>> = Vec::new();
        let mut i: usize = 0;
        while i < cfg.hosts.len()
            invariant
                i <= cfg.hosts@.len(),
                all == cfg.hosts@,
                host_guards_fault(all, env@) == host_guards_fault(all.skip(i as int), env@),
                names@.len() == i,
                by_host@.len() == i,
                forall|k: int| #![trigger names@[k]] 0 <= k < i ==> names@[k]@ == all[k].0,
                forall|k: int|
                    #![trigger by_host@[k]]
                    0 <= k < i ==> compiled_for(all, env@, k, by_host@[k]),
                guards_fault(cfg.defaults.guards@, env@) is None,
            decreases cfg.hosts@.len() - i,
        {
            proof {
                assert(all.skip(i as int)[0] == all[i as int]);
                assert(all.skip(i as int).skip(1) =~= all.skip(i + 1));
            }
            let host = cfg.hosts.host_at(i);
            let own: Option<Arc<CompiledGuards>> = match &host.guards {
                Some(g) => match CompiledGuards::compile(g, env) {
                    Ok(c) => Some(Arc::new(c)),
                    Err(e) => {
                        return Err(e);
                    },
                },
                None => None,
            };
            names.push(cfg.hosts.name_at(i).clone());
            by_host.push(own);
            i = i + 1;
        }
        assert(all.skip(i as int) =~= Seq::empty());
        Ok(
            GuardCache {
                default,
                names,
                by_host,
                declared: Ghost(all),
                global: Ghost(cfg.defaults.guards@),
                env: Ghost(env@),
            },
        )
    }

    /// The guards that hold for calls to `host`.
    pub fn for_host(&self, host: &str) -> (r: Arc<CompiledGuards>)
        ensures
            (*r)@ == compiled(guards_for(self.hosts(), self.rules(), host@), self.machine()),
    {
        proof {
            use_type_invariant(&*self);
        }
        let ghost all = self.declared@;
        assert(all.skip(0) =~= all);
        let mut i: usize = 0;
        while i < self.names.len()
            invariant
                self.complete(),
                i <= self.names@.len(),
                all == self.declared@,
                index_of_name(all, host@) == i + index_of_name(all.skip(i as int), host@),
            decreases self.names@.len() - i,
        {
            assert(all.skip(i as int)[0] == all[i as int]);
            assert(self.names@[i as int]@ == all[i as int].0);
            if same(self.names[i].as_str(), host) {
                assert(compiled_for(all, self.env@, i as int, self.by_host@[i as int]));
                return match &self.by_host[i] {
                    Some(g) => Arc::clone(g),
                    None => Arc::clone(&self.default),
                };
            }
            assert(all.skip(i as int).skip(1) =~= all.skip(i + 1));
            i = i + 1;
        }
        Arc::clone(&self.default)
    }
}

// ---------------------------------------------------------------------------
// Laws
// ---------------------------------------------------------------------------

/// A deny pattern refuses outright: neither the read-only rule nor a confirm
/// pattern can soften it.
pub proof fn law_deny_refuses_outright(g: CompiledView, cmd: Seq<char>, i: int)
    requires
        0 <= i < g.deny.len(),
        regex_finds(g.deny[i].1, cmd),
    ensures
        checked(g, cmd) is Deny,
{
    lemma_match_found(g.deny, cmd, i);
}

proof fn lemma_match_found(bank: Seq<(Seq<char>, Seq<char>)>, text: Seq<char>, i: int)
    requires
        0 <= i < bank.len(),
        regex_finds(bank[i].1, text),
    ensures
        first_match(bank, text) is Some,
    decreases i,
{
    if !regex_finds(bank[0].1, text) {
        assert(bank.skip(1)[i - 1] == bank[i]);
        lemma_match_found(bank.skip(1), text, i - 1);
    }
}

/// A read-only host lets nothing through that looks like a write.
pub proof fn law_read_only_blocks_writes(g: CompiledView, cmd: Seq<char>)
    requires
        g.read_only,
        writeful(cmd),
    ensures
        checked(g, cmd) is Deny,
{
}

/// What a confirm pattern matches is never let through unasked.
pub proof fn law_confirm_is_never_skipped(g: CompiledView, cmd: Seq<char>, i: int)
    requires
        0 <= i < g.confirm.len(),
        regex_finds(g.confirm[i].1, cmd),
    ensures
        !(checked(g, cmd) is Allow),
{
    lemma_match_found(g.confirm, cmd, i);
}

/// An exception for reading grants nothing on the writing side, and the other
/// way round.
pub proof fn law_read_and_write_exceptions_are_separate(
    g: GuardsView,
    other: Seq<Seq<char>>,
    env: LocalView,
)
    ensures
        compiled(GuardsView { local_read_allow: other, ..g }, env).local_write_allow == compiled(
            g,
            env,
        ).local_write_allow,
        compiled(GuardsView { local_write_allow: other, ..g }, env).local_read_allow == compiled(
            g,
            env,
        ).local_read_allow,
{
}

/// A directory entry of an allowlist covers its whole subtree, and an entry
/// covers nothing that merely shares its text.
pub proof fn law_allow_entry_covers_its_subtree(e: Seq<char>, below: Seq<char>, other: Seq<char>)
    requires
        other.len() > 0,
        other[0] != '/',
    ensures
        covered_by(e, e),
        covered_by(e + "/"@ + below, e),
        !covered_by(e + other, e),
{
    reveal_strlit("/");
    let p = e + "/"@ + below;
    assert(p.take(e.len() as int) =~= e);
    let q = e + other;
    assert(q.take(e.len() as int) =~= e);
    assert(q[e.len() as int] == other[0]);
}

/// The first pattern of a bank that matches is the one that counts.
pub proof fn law_first_match_counts(
    bank: Seq<(Seq<char>, Seq<char>)>,
    text: Seq<char>,
    i: int,
)
    requires
        0 <= i < bank.len(),
        regex_finds(bank[i].1, text),
        forall|k: int| 0 <= k < i ==> !regex_finds((#[trigger] bank[k]).1, text),
    ensures
        first_match(bank, text) == Some(bank[i]),
    decreases i,
{
    if i > 0 {
        let rest = bank.skip(1);
        assert(!regex_finds(bank[0].1, text));
        assert(rest[i - 1] == bank[i]);
        assert forall|k: int| 0 <= k < i - 1 implies !regex_finds((#[trigger] rest[k]).1, text) by {
            assert(rest[k] == bank[k + 1]);
        }
        law_first_match_counts(rest, text, i - 1);
    }
}

proof fn lemma_no_match(bank: Seq<(Seq<char>, Seq<char>)>, text: Seq<char>)
    requires
        forall|k: int| 0 <= k < bank.len() ==> !regex_finds((#[trigger] bank[k]).1, text),
    ensures
        first_match(bank, text) is None,
    decreases bank.len(),
{
    if bank.len() > 0 {
        let rest = bank.skip(1);
        assert(!regex_finds(bank[0].1, text));
        assert forall|k: int| 0 <= k < rest.len() implies !regex_finds(
            (#[trigger] rest[k]).1,
            text,
        ) by {
            assert(rest[k] == bank[k + 1]);
        }
        lemma_no_match(rest, text);
    }
}

/// A command that no pattern matches runs, unless the host is read-only and it
/// looks like a write; one that only a confirm pattern matches is asked about.
pub proof fn law_harmless_command_runs(g: CompiledView, cmd: Seq<char>)
    requires
        forall|k: int| 0 <= k < g.deny.len() ==> !regex_finds((#[trigger] g.deny[k]).1, cmd),
        !g.read_only || !writeful(cmd),
    ensures
        (forall|k: int|
            0 <= k < g.confirm.len() ==> !regex_finds((#[trigger] g.confirm[k]).1, cmd))
            ==> checked(g, cmd) is Allow,
        forall|i: int|
            #![trigger g.confirm[i]]
            0 <= i < g.confirm.len() && regex_finds(g.confirm[i].1, cmd) && (forall|k: int|
                0 <= k < i ==> !regex_finds((#[trigger] g.confirm[k]).1, cmd)) ==> checked(g, cmd)
                == CheckView::Confirm(g.confirm[i].0),
{
    lemma_no_match(g.deny, cmd);
    if forall|k: int| 0 <= k < g.confirm.len() ==> !regex_finds((#[trigger] g.confirm[k]).1, cmd) {
        lemma_no_match(g.confirm, cmd);
    }
    assert forall|i: int|
        #![trigger g.confirm[i]]
        0 <= i < g.confirm.len() && regex_finds(g.confirm[i].1, cmd) && (forall|k: int|
            0 <= k < i ==> !regex_finds((#[trigger] g.confirm[k]).1, cmd)) implies checked(g, cmd)
        == CheckView::Confirm(g.confirm[i].0) by {
        law_first_match_counts(g.confirm, cmd, i);
    }
}

/// What the operator writes down always counts, and what is built in counts too
/// unless the operator switched it off.
pub proof fn law_every_declared_pattern_counts(g: GuardsView, env: LocalView)
    ensures
        forall|i: int|
            0 <= i < g.deny.len() ==> compiled(g, env).deny.contains(#[trigger] g.deny[i]),
        forall|i: int|
            0 <= i < g.confirm.len() ==> compiled(g, env).confirm.contains(#[trigger] g.confirm[i]),
        g.use_default_deny ==> forall|i: int|
            0 <= i < default_deny().len() ==> compiled(g, env).deny.contains(
                #[trigger] default_deny()[i],
            ),
        g.use_default_confirm ==> forall|i: int|
            0 <= i < default_confirm().len() ==> compiled(g, env).confirm.contains(
                #[trigger] default_confirm()[i],
            ),
        compiled(g, env).read_only == g.read_only,
        default_deny().len() == 6 && default_confirm().len() == 6,
{
    let d = compiled(g, env).deny;
    let c = compiled(g, env).confirm;
    assert forall|i: int| 0 <= i < g.deny.len() implies d.contains(#[trigger] g.deny[i]) by {
        if g.use_default_deny {
            assert(d[default_deny().len() + i] == g.deny[i]);
        } else {
            assert(d[i] == g.deny[i]);
        }
    }
    assert forall|i: int| 0 <= i < g.confirm.len() implies c.contains(#[trigger] g.confirm[i]) by {
        if g.use_default_confirm {
            assert(c[default_confirm().len() + i] == g.confirm[i]);
        } else {
            assert(c[i] == g.confirm[i]);
        }
    }
    if g.use_default_deny {
        assert forall|i: int| 0 <= i < default_deny().len() implies d.contains(
            #[trigger] default_deny()[i],
        ) by {
            assert(d[i] == default_deny()[i]);
        }
    }
    if g.use_default_confirm {
        assert forall|i: int| 0 <= i < default_confirm().len() implies c.contains(
            #[trigger] default_confirm()[i],
        ) by {
            assert(c[i] == default_confirm()[i]);
        }
    }
}

/// A host that declares guards of its own goes by those alone; any other goes by
/// the global ones.
pub proof fn law_own_guards_replace_the_global_ones(
    hosts: Seq<(Seq<char>, HostView)>,
    default: GuardsView,
    name: Seq<char>,
)
    ensures
        lookup(hosts, name) matches Some(h) ==> (h.guards matches Some(g) ==> guards_for(
            hosts,
            default,
            name,
        ) == g),
        lookup(hosts, name) matches Some(h) ==> (h.guards is None ==> guards_for(
            hosts,
            default,
            name,
        ) == default),
        lookup(hosts, name) is None ==> guards_for(hosts, default, name) == default,
{
}

/// An entry of an allowlist is accepted wherever it names something below a root
/// and is not the home directory.
pub proof fn law_ordinary_entry_is_accepted(entry: Seq<char>, field: Seq<char>, env: LocalView)
    requires
        trimmed(entry).len() > 0,
        !trimmed(entry).contains('*'),
        !trimmed(entry).contains('?'),
        !is_filesystem_root(resolved_local(trimmed(entry), env), env.windows),
        !operator_home(resolved_local(trimmed(entry), env), env.home, env.windows),
        folded(resolved_local(trimmed(entry), env), env.windows).len() > 0,
    ensures
        entry_fault(entry, field, env) is None,
{
}

/// Any `.<something>rc` directly under the home directory is a startup file.
pub proof fn law_home_startup_files_are_found(home: Seq<char>, something: Seq<char>)
    requires
        home.len() > 1,
        home[0] == '/',
        home[1] != '/',
        home.last() != '/',
        !home.contains('\\'),
        something.len() > 0,
        !something.contains('/'),
        !something.contains('\\'),
    ensures
        home_dotrc(home + seq!['/', '.'] + something + seq!['r', 'c'], Some(home)),
{
    let name = seq!['.'] + something + seq!['r', 'c'];
    let dir = home.push('/');
    let path = home + seq!['/', '.'] + something + seq!['r', 'c'];
    assert(path =~= dir + name);
    assert forall|i: int| 0 <= i < name.len() implies name[i] != '/' && name[i] != '\\' by {
        if 0 < i <= something.len() {
            assert(name[i] == something[i - 1]);
            assert(something.contains(something[i - 1]));
        }
    }
    assert(!name.contains('/'));
    law_directory_and_name_make_the_path(dir, name);
    reveal_strlit("rc");
    let low = lower(name);
    assert(low.skip(low.len() - 2) =~= "rc"@);
    assert(dotrc_name(name));
    lemma_slashed_is(home);
    assert forall|i: int| 0 <= i < path.len() implies path[i] != '\\' by {
        if i < home.len() {
            assert(path[i] == home[i]);
            assert(home.contains(home[i]));
        } else if i > home.len() {
            assert(path[i] == name[i - home.len() - 1]);
        }
    }
    assert(path[0] == home[0] && path[1] == home[1]);
    lemma_slashed_is(path);
    let f = home_form(home);
    assert(without_last_slashes(home) == home);
    assert(f == lower(home));
    let p = lower(path);
    assert(p.take(f.len() as int) =~= f);
    assert(p.skip(f.len() as int + 1) =~= lower(name));
    assert(!lower(name).contains('/')) by {
        assert forall|i: int| 0 <= i < name.len() implies lower(name)[i] != '/' by {
            law_lower_changes_only_capitals(name);
        }
    }
}

proof fn lemma_slashed_is(p: Seq<char>)
    requires
        p.len() > 1,
        p[1] != '/',
        !p.contains('\\'),
    ensures
        slashed_text(p) == p,
{
    assert(with_slashes(p) =~= p) by {
        assert forall|i: int| 0 <= i < p.len() implies p[i] != '\\' by {
            assert(p.contains(p[i]));
        }
    }
    reveal_strlit("//?/");
    if p.len() >= 4 {
        assert(p.take(4)[1] == p[1]);
    }
}

/// A list of exceptions is accepted only where each of them is.
pub proof fn law_every_exception_is_looked_at(
    entries: Seq<Seq<char>>,
    field: Seq<char>,
    env: LocalView,
    i: int,
)
    ensures
        0 <= i < entries.len() && entry_fault(entries[i], field, env) is Some ==> allow_fault(
            entries,
            field,
            env,
        ) is Some,
        (forall|k: int|
            0 <= k < entries.len() ==> entry_fault(#[trigger] entries[k], field, env) is None)
            ==> allow_fault(entries, field, env) is None,
    decreases entries.len(),
{
    if entries.len() > 0 {
        let rest = entries.skip(1);
        law_every_exception_is_looked_at(rest, field, env, i - 1);
        if 0 < i < entries.len() {
            assert(rest[i - 1] == entries[i]);
        }
        if forall|k: int|
            0 <= k < entries.len() ==> entry_fault(#[trigger] entries[k], field, env) is None {
            assert(entry_fault(entries[0], field, env) is None);
            assert forall|k: int| 0 <= k < rest.len() implies entry_fault(
                #[trigger] rest[k],
                field,
                env,
            ) is None by {
                assert(rest[k] == entries[k + 1]);
            }
        }
    }
}

/// Guards are refused where one of their patterns does not compile or one of
/// their exceptions is not accepted.
pub proof fn law_faulty_guards_are_refused(g: GuardsView, env: LocalView, i: int)
    requires
        ({
            ||| 0 <= i < g.deny.len() && regex_fault(g.deny[i].1) is Some
            ||| 0 <= i < g.confirm.len() && regex_fault(g.confirm[i].1) is Some
            ||| 0 <= i < g.local_read_allow.len() && entry_fault(
                g.local_read_allow[i],
                "local_read_allow"@,
                env,
            ) is Some
            ||| 0 <= i < g.local_write_allow.len() && entry_fault(
                g.local_write_allow[i],
                "local_write_allow"@,
                env,
            ) is Some
        }),
    ensures
        guards_fault(g, env) is Some,
{
    if 0 <= i < g.deny.len() && regex_fault(g.deny[i].1) is Some {
        lemma_bad_pattern(g.deny, i);
    }
    if 0 <= i < g.confirm.len() && regex_fault(g.confirm[i].1) is Some {
        lemma_bad_pattern(g.confirm, i);
    }
    law_every_exception_is_looked_at(g.local_read_allow, "local_read_allow"@, env, i);
    law_every_exception_is_looked_at(g.local_write_allow, "local_write_allow"@, env, i);
}

proof fn lemma_bad_pattern(s: Seq<(Seq<char>, Seq<char>)>, i: int)
    requires
        0 <= i < s.len(),
        regex_fault(s[i].1) is Some,
    ensures
        patterns_fault(s) is Some,
    decreases i,
{
    if i > 0 {
        assert(s.skip(1)[i - 1] == s[i]);
        lemma_bad_pattern(s.skip(1), i - 1);
    }
}

/// Every host's own guards are looked at: one that has faulty ones spoils the
/// lot, and where none has, all is well.
pub proof fn law_guards_of_every_host_are_looked_at(
    hosts: Seq<(Seq<char>, HostView)>,
    env: LocalView,
    i: int,
)
    ensures
        0 <= i < hosts.len() && hosts[i].1.guards is Some && guards_fault(
            hosts[i].1.guards->0,
            env,
        ) is Some ==> host_guards_fault(hosts, env) is Some,
        (forall|k: int|
            0 <= k < hosts.len() && (#[trigger] hosts[k]).1.guards is Some ==> guards_fault(
                hosts[k].1.guards->0,
                env,
            ) is None) ==> host_guards_fault(hosts, env) is None,
    decreases hosts.len(),
{
    if hosts.len() > 0 {
        let rest = hosts.skip(1);
        law_guards_of_every_host_are_looked_at(rest, env, i - 1);
        if 0 < i < hosts.len() {
            assert(rest[i - 1] == hosts[i]);
        }
        if forall|k: int|
            0 <= k < hosts.len() && (#[trigger] hosts[k]).1.guards is Some ==> guards_fault(
                hosts[k].1.guards->0,
                env,
            ) is None {
            assert(hosts[0].1.guards is Some ==> guards_fault(hosts[0].1.guards->0, env) is None);
            assert forall|k: int|
                0 <= k < rest.len() && (#[trigger] rest[k]).1.guards is Some implies guards_fault(
                rest[k].1.guards->0,
                env,
            ) is None by {
                assert(rest[k] == hosts[k + 1]);
            }
        }
    }
}

/// Where nothing is said, everything built in holds, nothing is read-only and
/// there are no exceptions.
pub proof fn law_default_guards_are_the_built_in_ones(env: LocalView)
    ensures
        compiled(default_guards(), env).deny == default_deny(),
        compiled(default_guards(), env).confirm == default_confirm(),
        !compiled(default_guards(), env).read_only,
        forall|path: Seq<char>, windows: bool| !#[trigger]
            allowed(compiled(default_guards(), env).local_read_allow, path, windows),
        forall|path: Seq<char>, windows: bool| !#[trigger]
            allowed(compiled(default_guards(), env).local_write_allow, path, windows),
{
    assert(compiled(default_guards(), env).deny =~= default_deny());
    assert(compiled(default_guards(), env).confirm =~= default_confirm());
}

/// What is found to be a startup file is a file with a name of that form, directly
/// under the home directory.
pub proof fn law_only_startup_files_are_found(path: Seq<char>, home: Seq<char>)
    requires
        home_dotrc(path, Some(home)),
    ensures
        directory_and_name(path) matches Some((_, name)) && name.len() >= 4 && name[0] == '.'
            && has_suffix(lower(name), "rc"@),
        exists|name: Seq<char>| #[trigger]
            (home_form(home).push('/') + name) == lower(slashed_text(path)) && !name.contains('/'),
        !home_dotrc(path, None),
{
    let p = lower(slashed_text(path));
    let f = home_form(home);
    let name = p.skip(f.len() as int + 1);
    assert(f.push('/') + name =~= p) by {
        assert forall|i: int| 0 <= i < f.len() implies p[i] == f[i] by {
            assert(p.take(f.len() as int)[i] == p[i]);
        }
    }
}

/// A command that no deny pattern matches is not denied, unless the host is
/// read-only and it looks like a write.
pub proof fn law_undenied_command_is_not_denied(g: CompiledView, cmd: Seq<char>)
    requires
        forall|k: int| 0 <= k < g.deny.len() ==> !regex_finds((#[trigger] g.deny[k]).1, cmd),
        !g.read_only || !writeful(cmd),
    ensures
        !(checked(g, cmd) is Deny),
{
    lemma_no_match(g.deny, cmd);
}

} // verus!

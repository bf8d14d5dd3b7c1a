//! What the tools of the server do around their remote work: checking their
//! arguments, building remote commands, and writing their answers.

pub mod discovery;
pub mod files;
pub mod gate;
pub mod net;
pub mod ops;
pub mod run;
pub mod session;
pub mod visual;

use vstd::prelude::*;
use vstd::string::*;

use crate::config::AuthMethod;
use crate::errors::{Result, SshError};
use crate::guards::pattern::regex_finds;
use crate::guards::{CompiledGuards, CompiledView, REMOTE_READ, REMOTE_WRITE};
use crate::output::toon::{field_text, scalar, Toon};
use crate::text::{chars_of, decimal, joined3, push_decimal, same};

verus! {

pub const DEFAULT_TIMEOUT: u64 = 60;

/// Hard cap on per-call timeouts. Prevents an AI-supplied `timeout=u64::MAX`
/// from holding a channel slot indefinitely.
pub const MAX_TIMEOUT_SECS: u64 = 600;

pub const MAX_FOLLOW_SECS: u64 = 600;

pub const INLINE_MAX_BYTES: usize = 262144;

/// Hard cap on a single command string. Refuses oversize inputs before they
/// reach the SSH channel.
pub const MAX_CMD_BYTES: usize = 65536;

/// Hard cap on `exec_batch` fan-out. Past this an AI is almost certainly
/// looping when it should be using a script.
pub const MAX_BATCH_CMDS: usize = 64;

/// Hard cap on inline `wr` content. Larger files should go through `up`.
pub const MAX_WRITE_INLINE_BYTES: usize = 8388608;

/// Cap on a single SFTP listing returned in one call. Pagination via
/// `offset` lets the AI walk past it.
pub const MAX_LS_ENTRIES: usize = 1000;

/// The timeout of a call in seconds: at least one, and at most the cap.
pub fn clamp_timeout(t: Option<u64>) -> (r: u64)
    ensures
        r == (match t {
            None => DEFAULT_TIMEOUT,
            Some(n) => if n < 1 {
                1
            } else if n > MAX_TIMEOUT_SECS {
                MAX_TIMEOUT_SECS
            } else {
                n
            },
        }),
        1 <= r <= MAX_TIMEOUT_SECS,
{
    match t {
        None => DEFAULT_TIMEOUT,
        Some(n) => if n < 1 {
            1
        } else if n > MAX_TIMEOUT_SECS {
            MAX_TIMEOUT_SECS
        } else {
            n
        },
    }
}

/// What a call with too large a command is told.
pub open spec fn cmd_too_large(len: nat) -> Seq<char> {
    "cmd too large: "@ + decimal(len) + " bytes (max "@ + decimal(MAX_CMD_BYTES as nat) + ")"@
}

/// Refuses a command that is too large.
pub fn validate_cmd(cmd: &str) -> (r: Result<()>)
    ensures
        r is Ok <==> cmd.spec_bytes().len() <= MAX_CMD_BYTES,
        r is Err ==> r->Err_0 is Config && r->Err_0->Config_0@ == cmd_too_large(
            cmd.spec_bytes().len(),
        ),
{
    let n: usize = cmd.as_bytes().len();
    if n > MAX_CMD_BYTES {
        let mut m = "cmd too large: ".to_owned();
        push_decimal(&mut m, n as u64);
        m.push_str(" bytes (max ");
        push_decimal(&mut m, MAX_CMD_BYTES as u64);
        m.push_str(")");
        return Err(SshError::Config(m));
    }
    Ok(())
}

/// The name of a way to log in.
pub open spec fn auth_name(a: AuthMethod) -> Seq<char> {
    match a {
        AuthMethod::Key => "key"@,
        AuthMethod::Agent => "agent"@,
        AuthMethod::Password => "password"@,
    }
}

pub fn auth_str(a: AuthMethod) -> (r: &'static str)
    ensures
        r@ == auth_name(a),
{
    match a {
        AuthMethod::Key => "key",
        AuthMethod::Agent => "agent",
        AuthMethod::Password => "password",
    }
}

// ---------------------------------------------------------------------------
// Quoting for a remote shell
// ---------------------------------------------------------------------------

/// `s` with every single quote spliced: the quoted run is closed, the quote
/// passed literally, and a new run opened.
pub open spec fn spliced(s: Seq<char>) -> Seq<char>
    decreases s.len(),
{
    if s.len() == 0 {
        Seq::empty()
    } else if s.last() == '\'' {
        spliced(s.drop_last()) + seq!['\'', '\\', '\'', '\'']
    } else {
        spliced(s.drop_last()).push(s.last())
    }
}

/// `s` as one word for `sh`.
pub open spec fn quoted_word(s: Seq<char>) -> Seq<char> {
    seq!['\''] + spliced(s) + seq!['\'']
}

/// Wrap a remote path for `sh -c`. Single quotes stop every metacharacter, and
/// the only thing they cannot carry is a single quote, which is spliced.
///
/// The one quoting routine in the crate.
pub fn shell_quote(s: &str) -> (r: String)
    ensures
        r@ == quoted_word(s@),
{
    let v = chars_of(s);
    let mut out = String::new();
    out.push('\'');
    let mut i: usize = 0;
    assert(out@ =~= seq!['\''] + spliced(v@.take(0)));
    while i < v.len()
        invariant
            i <= v@.len(),
            v@ == s@,
            out@ == seq!['\''] + spliced(v@.take(i as int)),
        decreases v@.len() - i,
    {
        let ghost before = out@;
        if v[i] == '\'' {
            out.push('\'');
            out.push('\\');
            out.push('\'');
            out.push('\'');
        } else {
            out.push(v[i]);
        }
        proof {
            assert(v@.take(i + 1).drop_last() =~= v@.take(i as int));
            assert(v@.take(i + 1).last() == v@[i as int]);
            assert(out@ =~= seq!['\''] + spliced(v@.take(i + 1)));
        }
        i = i + 1;
    }
    assert(v@.take(i as int) =~= s@);
    out.push('\'');
    assert(out@ =~= quoted_word(s@));
    out
}

/// What a POSIX shell reads as one word from single-quoted runs and characters
/// behind a backslash. Anything that stands bare is none of its business: there
/// is no word then.
pub open spec fn sh_word(s: Seq<char>, in_quotes: bool) -> Option<Seq<char>>
    decreases s.len(),
{
    if s.len() == 0 {
        if in_quotes {
            None
        } else {
            Some(Seq::empty())
        }
    } else if in_quotes {
        if s[0] == '\'' {
            sh_word(s.skip(1), false)
        } else {
            match sh_word(s.skip(1), true) {
                Some(w) => Some(seq![s[0]] + w),
                None => None,
            }
        }
    } else if s[0] == '\'' {
        sh_word(s.skip(1), true)
    } else if s[0] == '\\' && s.len() >= 2 {
        match sh_word(s.skip(2), false) {
            Some(w) => Some(seq![s[1]] + w),
            None => None,
        }
    } else {
        None
    }
}

proof fn lemma_spliced_front(s: Seq<char>)
    requires
        s.len() > 0,
    ensures
        spliced(s) == (if s[0] == '\'' {
            seq!['\'', '\\', '\'', '\'']
        } else {
            seq![s[0]]
        }) + spliced(s.skip(1)),
    decreases s.len(),
{
    let head = if s[0] == '\'' {
        seq!['\'', '\\', '\'', '\'']
    } else {
        seq![s[0]]
    };
    if s.len() == 1 {
        assert(s.drop_last() =~= Seq::empty());
        assert(s.skip(1) =~= Seq::empty());
        assert(spliced(s) =~= head + spliced(s.skip(1)));
    } else {
        lemma_spliced_front(s.drop_last());
        assert(s.drop_last().skip(1) =~= s.skip(1).drop_last());
        assert(spliced(s) =~= head + spliced(s.skip(1)));
    }
}

proof fn lemma_sh_word_spliced(s: Seq<char>)
    ensures
        sh_word(spliced(s) + seq!['\''], true) == Some(s),
    decreases s.len(),
{
    let q = spliced(s) + seq!['\''];
    if s.len() == 0 {
        assert(q.skip(1) =~= Seq::empty());
        assert(sh_word(q.skip(1), false) == Some(Seq::<char>::empty()));
        assert(s =~= Seq::empty());
    } else {
        lemma_spliced_front(s);
        lemma_sh_word_spliced(s.skip(1));
        let rest = spliced(s.skip(1)) + seq!['\''];
        if s[0] == '\'' {
            assert(q.skip(1) =~= seq!['\\', '\'', '\''] + rest);
            let b = q.skip(1);
            assert(b.skip(2) =~= seq!['\''] + rest);
            let c = b.skip(2);
            assert(c.skip(1) =~= rest);
            assert(sh_word(c, false) == Some(s.skip(1)));
            assert(sh_word(b, false) == Some(seq!['\''] + s.skip(1)));
            assert(sh_word(q, true) == Some(seq!['\''] + s.skip(1)));
        } else {
            assert(q.skip(1) =~= rest);
            assert(sh_word(q, true) == Some(seq![s[0]] + s.skip(1)));
        }
        assert(s =~= seq![s[0]] + s.skip(1));
    }
}

/// A shell reads a quoted string back as exactly that string: nothing in it is
/// ever seen as a metacharacter.
pub proof fn law_shell_reads_quoted_word_back(s: Seq<char>)
    ensures
        sh_word(quoted_word(s), false) == Some(s),
{
    let q = quoted_word(s);
    assert(q.skip(1) =~= spliced(s) + seq!['\'']);
    lemma_sh_word_spliced(s);
}

// ---------------------------------------------------------------------------
// Paths that resolve to something else
// ---------------------------------------------------------------------------

/// What a call is told whose path cannot be resolved.
pub open spec fn unresolvable_text(path: Seq<char>, why: Seq<char>) -> Seq<char> {
    "cannot verify what "@ + path + " resolves to: "@ + why
}

/// A remote path that the guards let through, for reading or for writing.
pub open spec fn remote_path_clear(g: CompiledView, path: Seq<char>, write: bool) -> bool {
    if write {
        !g.read_only && !regex_finds(REMOTE_WRITE@, path)
    } else {
        !regex_finds(REMOTE_READ@, path)
    }
}

/// How the refusal of a remote path reads.
pub open spec fn refusal_text(g: CompiledView, write: bool) -> Seq<char> {
    if write && g.read_only {
        "blocked by guard '"@ + "read-only"@ + "': "@ + "host marked read_only"@
    } else if write {
        "blocked by guard '"@ + "sensitive-path"@ + "': "@
            + "write to sensitive system path blocked"@
    } else {
        "blocked by guard '"@ + "sensitive-read"@ + "': "@
            + "read of sensitive system path blocked"@
    }
}

/// Re-run the remote path guard against what the path actually resolves to
/// server-side. SFTP follows symlinks, so a link could otherwise launder a
/// blocked read through a harmless-looking string.
///
/// Fails closed: a path that does not resolve refuses the call.
pub fn guard_resolved(
    guards: &CompiledGuards,
    path: &str,
    resolved: core::result::Result<&str, &str>,
    write: bool,
) -> (r: Result<()>)
    ensures
        match resolved {
            Err(why) => r is Err && r->Err_0 is BlockedByGuard && r->Err_0->name@
                == "unresolvable-path"@ && r->Err_0->pattern@ == unresolvable_text(path@, why@),
            Ok(p) => {
                &&& r is Ok <==> p@ == path@ || remote_path_clear(guards@, p@, write)
                &&& r is Err ==> r->Err_0 is BlockedByGuard && r->Err_0->name@ == "resolved-path"@
                    && r->Err_0->pattern@ == path@ + " resolves to "@ + p@ + ": "@ + refusal_text(
                    guards@,
                    write,
                )
            },
        },
{
    match resolved {
        Err(why) => {
            let mut m = joined3("cannot verify what ", path, " resolves to: ");
            m.push_str(why);
            Err(SshError::BlockedByGuard { name: "unresolvable-path".to_owned(), pattern: m })
        },
        Ok(p) => {
            if same(p, path) {
                return Ok(());
            }
            let verdict = if write {
                guards.check_sftp_write(p)
            } else {
                guards.check_sftp_read(p)
            };
            match verdict {
                Ok(_) => Ok(()),
                Err(e) => {
                    let mut m = joined3(path, " resolves to ", p);
                    m.push_str(": ");
                    let why = e.message();
                    m.push_str(why.as_str());
                    Err(SshError::BlockedByGuard { name: "resolved-path".to_owned(), pattern: m })
                },
            }
        },
    }
}

// ---------------------------------------------------------------------------
// Answers
// ---------------------------------------------------------------------------

/// A field that is left out where there is no value for it.
pub open spec fn maybe_field(key: Seq<char>, value: Option<Seq<char>>) -> Seq<char> {
    match value {
        Some(v) => field_text(0, key, scalar(v)),
        None => Seq::empty(),
    }
}

pub open spec fn str_view(s: Option<&str>) -> Option<Seq<char>> {
    match s {
        Some(v) => Some(v@),
        None => None,
    }
}

/// Writes a field, unless there is no value for it.
pub(crate) fn push_maybe(t: &mut Toon, key: &str, value: Option<&str>)
    requires
        old(t).depth() == 0,
    ensures
        final(t).text() == old(t).text() + maybe_field(key@, str_view(value)),
        final(t).depth() == 0,
{
    match value {
        Some(v) => {
            let _ = t.field(key, v);
        },
        None => {
            assert(t.text() + Seq::<char>::empty() =~= t.text());
        },
    }
}

/// A read-only host takes no file, and gives the same files as any other; apart
/// from that only the path decides.
pub proof fn law_read_only_host_is_not_written(g: CompiledView, h: CompiledView, path: Seq<char>)
    ensures
        g.read_only ==> !remote_path_clear(g, path, true),
        remote_path_clear(g, path, false) == remote_path_clear(h, path, false),
        g.read_only == h.read_only ==> remote_path_clear(g, path, true) == remote_path_clear(
            h,
            path,
            true,
        ),
        regex_finds(REMOTE_READ@, path) ==> !remote_path_clear(g, path, false),
        regex_finds(REMOTE_WRITE@, path) ==> !remote_path_clear(g, path, true),
        !regex_finds(REMOTE_READ@, path) ==> remote_path_clear(g, path, false),
        !regex_finds(REMOTE_WRITE@, path) && !g.read_only ==> remote_path_clear(g, path, true),
{
}

} // verus!

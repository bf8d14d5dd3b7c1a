//! What can go wrong, how it reads, and how it is reported to an MCP client.

use vstd::prelude::*;

use crate::text::{decimal, joined2, joined3, push_decimal};

verus! {

/// How an SSH transport failed, as far as the report depends on it.
#[derive(Debug, Clone, Copy, PartialEq, Eq, Structural)]
pub enum TransportFault {
    /// Connecting, a keepalive or an idle connection ran out of time.
    Timeout,
    /// No authentication method was accepted or available.
    Auth,
    /// The key is not the one on this line of a known_hosts file.
    KeyChanged { line: u64 },
    /// The peer hung up.
    Disconnected,
    Other,
}

#[derive(Debug)]
pub enum SshError {
    UnknownHost(String),
    BlockedByGuard { name: String, pattern: String },
    ConfirmationDenied,
    AuthFailed { user: String, host: String },
    PasswordRequired(String),
    Timeout(u64),
    /// Every channel slot of a host stayed taken for the whole wait.
    ChannelLimit { limit: u64, waited_ms: u64 },
    FingerprintMismatch { host: String, expected: String, actual: String },
    Config(String),
    Io(String),
    Russh { fault: TransportFault, message: String },
    Sftp(String),
    Regex(String),
    Toml(String),
    Other(String),
}

pub type Result<T> = std::result::Result<T, SshError>;

/// Custom JSON-RPC codes outside the reserved range.
pub const CODE_GUARD_BLOCKED: i32 = -32001;

pub const CODE_CONFIRMATION_DENIED: i32 = -32002;

pub const CODE_TIMEOUT: i32 = -32003;

pub const CODE_FINGERPRINT_MISMATCH: i32 = -32004;

pub const CODE_AUTH_FAILED: i32 = -32005;

/// JSON-RPC's own codes.
pub const CODE_INVALID_PARAMS: i32 = -32602;

pub const CODE_INTERNAL_ERROR: i32 = -32603;

/// How an error reads.
pub open spec fn error_text(e: SshError) -> Seq<char> {
    match e {
        SshError::UnknownHost(name) => "host '"@ + name@ + "' not found in config"@,
        SshError::BlockedByGuard { name, pattern } => "blocked by guard '"@ + name@ + "': "@
            + pattern@,
        SshError::ConfirmationDenied => "user denied confirmation for command"@,
        SshError::AuthFailed { user, host } => "authentication failed for "@ + user@ + "@"@ + host@,
        SshError::PasswordRequired(host) => "password required for host '"@ + host@ + "'"@,
        SshError::Timeout(ms) => "command timed out after "@ + decimal(ms as nat) + "ms"@,
        SshError::ChannelLimit { limit, waited_ms } => "all "@ + decimal(limit as nat)
            + " channels of the host stayed busy for "@ + decimal(waited_ms as nat) + "ms"@,
        SshError::FingerprintMismatch { host, expected, actual } =>
            "server fingerprint mismatch for '"@ + host@ + "': expected "@ + expected@ + ", got "@
            + actual@,
        SshError::Config(m) => "config error: "@ + m@,
        SshError::Io(m) => "io: "@ + m@,
        SshError::Russh { fault, message } => "ssh: "@ + message@,
        SshError::Sftp(m) => "sftp: "@ + m@,
        SshError::Regex(m) => "regex: "@ + m@,
        SshError::Toml(m) => "toml: "@ + m@,
        SshError::Other(m) => m@,
    }
}

/// Recovery hint surfaced in error `data.recovery` so an LLM can pick a retry
/// strategy without re-asking the user. Stable string contract; do not rename.
pub open spec fn recovery_text(e: SshError) -> Seq<char> {
    match e {
        SshError::Timeout(_) | SshError::ChannelLimit { .. } => "retry_later"@,
        SshError::UnknownHost(_) | SshError::Config(_) | SshError::PasswordRequired(_) =>
            "check_input"@,
        SshError::BlockedByGuard { .. } => "edit_config"@,
        SshError::ConfirmationDenied | SshError::AuthFailed { .. } => "ask_user"@,
        SshError::FingerprintMismatch { .. } => "unrecoverable"@,
        SshError::Russh { fault: TransportFault::Auth, .. } => "ask_user"@,
        SshError::Russh { fault: TransportFault::KeyChanged { .. }, .. } => "unrecoverable"@,
        SshError::Regex(_) | SshError::Toml(_) => "check_input"@,
        _ => "retry_later"@,
    }
}

/// The code that an error is reported under.
pub open spec fn code_of(e: SshError) -> i32 {
    match e {
        SshError::UnknownHost(_) | SshError::Config(_) | SshError::PasswordRequired(_) =>
            CODE_INVALID_PARAMS,
        SshError::BlockedByGuard { .. } => CODE_GUARD_BLOCKED,
        SshError::ConfirmationDenied => CODE_CONFIRMATION_DENIED,
        SshError::Timeout(_) | SshError::Russh { fault: TransportFault::Timeout, .. } =>
            CODE_TIMEOUT,
        SshError::FingerprintMismatch { .. } | SshError::Russh {
            fault: TransportFault::KeyChanged { .. },
            ..
        } => CODE_FINGERPRINT_MISMATCH,
        SshError::AuthFailed { .. } | SshError::Russh { fault: TransportFault::Auth, .. } =>
            CODE_AUTH_FAILED,
        _ => CODE_INTERNAL_ERROR,
    }
}

/// The kind that an error is reported as.
pub open spec fn kind_text(e: SshError) -> Seq<char> {
    match e {
        SshError::UnknownHost(_) => "unknown_host"@,
        SshError::Config(_) => "config"@,
        SshError::PasswordRequired(_) => "password_required"@,
        SshError::BlockedByGuard { .. } => "guard_blocked"@,
        SshError::ConfirmationDenied => "confirmation_denied"@,
        SshError::Timeout(_) | SshError::Russh { fault: TransportFault::Timeout, .. } => "timeout"@,
        SshError::ChannelLimit { .. } => "channel_limit"@,
        SshError::FingerprintMismatch { .. } | SshError::Russh {
            fault: TransportFault::KeyChanged { .. },
            ..
        } => "fingerprint_mismatch"@,
        SshError::AuthFailed { .. } | SshError::Russh { fault: TransportFault::Auth, .. } =>
            "auth_failed"@,
        SshError::Russh { fault: TransportFault::Disconnected, .. } => "disconnected"@,
        _ => "internal"@,
    }
}

/// A value reported beside an error.
#[derive(Debug)]
pub enum DetailValue {
    Text(String),
    Number(u64),
}

/// A named value reported beside an error.
#[derive(Debug)]
pub struct Detail {
    pub key: &'static str,
    pub value: DetailValue,
}

/// The mathematical content of a [`Detail`].
pub enum DetailView {
    Text(Seq<char>, Seq<char>),
    Number(Seq<char>, nat),
}

impl View for Detail {
    type V = DetailView;

    open spec fn view(&self) -> DetailView {
        match self.value {
            DetailValue::Text(s) => DetailView::Text(self.key@, s@),
            DetailValue::Number(n) => DetailView::Number(self.key@, n as nat),
        }
    }
}

/// What is reported beside an error, besides its kind and recovery hint.
pub open spec fn details_of(e: SshError) -> Seq<DetailView> {
    match e {
        SshError::UnknownHost(name) => seq![DetailView::Text("host"@, name@)],
        SshError::PasswordRequired(host) => seq![DetailView::Text("host"@, host@)],
        SshError::BlockedByGuard { name, pattern } => seq![
            DetailView::Text("guard"@, name@),
            DetailView::Text("pattern"@, pattern@),
        ],
        SshError::Timeout(ms) => seq![DetailView::Number("ms"@, ms as nat)],
        SshError::ChannelLimit { limit, waited_ms } => seq![
            DetailView::Number("limit"@, limit as nat),
            DetailView::Number("ms"@, waited_ms as nat),
        ],
        SshError::FingerprintMismatch { host, expected, actual } => seq![
            DetailView::Text("host"@, host@),
            DetailView::Text("expected"@, expected@),
            DetailView::Text("actual"@, actual@),
        ],
        SshError::AuthFailed { user, host } => seq![
            DetailView::Text("user"@, user@),
            DetailView::Text("host"@, host@),
        ],
        SshError::Russh { fault: TransportFault::KeyChanged { line }, .. } => seq![
            DetailView::Number("known_hosts_line"@, line as nat),
        ],
        _ => Seq::empty(),
    }
}

/// An error as an MCP client is told of it.
#[derive(Debug)]
pub struct McpError {
    pub code: i32,
    pub message: String,
    pub kind: &'static str,
    pub details: Vec<Detail>,
    pub recovery: &'static str,
}

impl McpError {
    pub open spec fn details_view(&self) -> Seq<DetailView> {
        Seq::new(self.details@.len(), |i: int| self.details@[i]@)
    }
}

fn recovery_for(err: &SshError) -> (r: &'static str)
    ensures
        r@ == recovery_text(*err),
{
    match err {
        SshError::Timeout(_) | SshError::ChannelLimit { .. } => "retry_later",
        SshError::UnknownHost(_) | SshError::Config(_) | SshError::PasswordRequired(_) =>
            "check_input",
        SshError::BlockedByGuard { .. } => "edit_config",
        SshError::ConfirmationDenied | SshError::AuthFailed { .. } => "ask_user",
        SshError::FingerprintMismatch { .. } => "unrecoverable",
        SshError::Russh { fault, .. } => match fault {
            TransportFault::Auth => "ask_user",
            TransportFault::KeyChanged { .. } => "unrecoverable",
            _ => "retry_later",
        },
        SshError::Regex(_) | SshError::Toml(_) => "check_input",
        SshError::Io(_) | SshError::Sftp(_) | SshError::Other(_) => "retry_later",
    }
}

fn text_detail(key: &'static str, value: &String) -> (r: Detail)
    ensures
        r@ == DetailView::Text(key@, value@),
{
    Detail { key, value: DetailValue::Text(value.clone()) }
}

fn number_detail(key: &'static str, value: u64) -> (r: Detail)
    ensures
        r@ == DetailView::Number(key@, value as nat),
{
    Detail { key, value: DetailValue::Number(value) }
}

impl SshError {
    /// How the error reads.
    pub fn message(&self) -> (r: String)
        ensures
            r@ == error_text(*self),
    {
        match self {
            SshError::UnknownHost(name) => joined3("host '", name.as_str(), "' not found in config"),
            SshError::BlockedByGuard { name, pattern } => {
                let mut s = joined3("blocked by guard '", name.as_str(), "': ");
                s.push_str(pattern.as_str());
                s
            },
            SshError::ConfirmationDenied => "user denied confirmation for command".to_owned(),
            SshError::AuthFailed { user, host } => {
                let mut s = joined3("authentication failed for ", user.as_str(), "@");
                s.push_str(host.as_str());
                s
            },
            SshError::PasswordRequired(host) => joined3(
                "password required for host '",
                host.as_str(),
                "'",
            ),
            SshError::Timeout(ms) => {
                let mut s = "command timed out after ".to_owned();
                push_decimal(&mut s, *ms);
                s.push_str("ms");
                s
            },
            SshError::ChannelLimit { limit, waited_ms } => {
                let mut s = "all ".to_owned();
                push_decimal(&mut s, *limit);
                s.push_str(" channels of the host stayed busy for ");
                push_decimal(&mut s, *waited_ms);
                s.push_str("ms");
                s
            },
            SshError::FingerprintMismatch { host, expected, actual } => {
                let mut s = joined3(
                    "server fingerprint mismatch for '",
                    host.as_str(),
                    "': expected ",
                );
                s.push_str(expected.as_str());
                s.push_str(", got ");
                s.push_str(actual.as_str());
                s
            },
            SshError::Config(m) => joined2("config error: ", m.as_str()),
            SshError::Io(m) => joined2("io: ", m.as_str()),
            SshError::Russh { fault: _, message } => joined2("ssh: ", message.as_str()),
            SshError::Sftp(m) => joined2("sftp: ", m.as_str()),
            SshError::Regex(m) => joined2("regex: ", m.as_str()),
            SshError::Toml(m) => joined2("toml: ", m.as_str()),
            SshError::Other(m) => m.clone(),
        }
    }

    /// The report for an MCP client. Failures of the transport come under the
    /// same codes as the crate's own errors.
    pub fn into_mcp(self) -> (r: McpError)
        ensures
            r.code == code_of(self),
            r.message@ == error_text(self),
            r.kind@ == kind_text(self),
            r.recovery@ == recovery_text(self),
            r.details_view() == details_of(self),
    {
        let message = self.message();
        let recovery = recovery_for(&self);
        let mut details: Vec<Detail> = Vec::new();
        let (code, kind): (i32, &'static str) = match &self {
            SshError::UnknownHost(name) => {
                details.push(text_detail("host", name));
                (CODE_INVALID_PARAMS, "unknown_host")
            },
            SshError::Config(_) => (CODE_INVALID_PARAMS, "config"),
            SshError::PasswordRequired(host) => {
                details.push(text_detail("host", host));
                (CODE_INVALID_PARAMS, "password_required")
            },
            SshError::BlockedByGuard { name, pattern } => {
                details.push(text_detail("guard", name));
                details.push(text_detail("pattern", pattern));
                (CODE_GUARD_BLOCKED, "guard_blocked")
            },
            SshError::ConfirmationDenied => (CODE_CONFIRMATION_DENIED, "confirmation_denied"),
            SshError::Timeout(ms) => {
                details.push(number_detail("ms", *ms));
                (CODE_TIMEOUT, "timeout")
            },
            SshError::ChannelLimit { limit, waited_ms } => {
                details.push(number_detail("limit", *limit));
                details.push(number_detail("ms", *waited_ms));
                (CODE_INTERNAL_ERROR, "channel_limit")
            },
            SshError::FingerprintMismatch { host, expected, actual } => {
                details.push(text_detail("host", host));
                details.push(text_detail("expected", expected));
                details.push(text_detail("actual", actual));
                (CODE_FINGERPRINT_MISMATCH, "fingerprint_mismatch")
            },
            SshError::AuthFailed { user, host } => {
                details.push(text_detail("user", user));
                details.push(text_detail("host", host));
                (CODE_AUTH_FAILED, "auth_failed")
            },
            SshError::Russh { fault, message: _ } => match fault {
                TransportFault::Timeout => (CODE_TIMEOUT, "timeout"),
                TransportFault::Auth => (CODE_AUTH_FAILED, "auth_failed"),
                TransportFault::KeyChanged { line } => {
                    details.push(number_detail("known_hosts_line", *line));
                    (CODE_FINGERPRINT_MISMATCH, "fingerprint_mismatch")
                },
                TransportFault::Disconnected => (CODE_INTERNAL_ERROR, "disconnected"),
                TransportFault::Other => (CODE_INTERNAL_ERROR, "internal"),
            },
            SshError::Io(_)
            | SshError::Sftp(_)
            | SshError::Regex(_)
            | SshError::Toml(_)
            | SshError::Other(_) => (CODE_INTERNAL_ERROR, "internal"),
        };
        let r = McpError { code, message, kind, details, recovery };
        assert(r.details_view() =~= details_of(self));
        r
    }
}

/// No answer given back through a tool call can lift a guard: a blocked call
/// points at the configuration, a denied confirmation at the user.
pub proof fn law_guard_points_at_config(name: String, pattern: String)
    ensures
        recovery_text(SshError::BlockedByGuard { name, pattern }) == "edit_config"@,
        recovery_text(SshError::ConfirmationDenied) == "ask_user"@,
{
}

} // verus!

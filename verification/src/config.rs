//! The configuration: hosts, defaults and guards, with the checks that are run
//! on it before anything connects.

use vstd::prelude::*;

use crate::errors::{Result, SshError};
use crate::paths::{distinct_paths, holds_path, join_path, joined_path, lists_path, same_path};
use crate::ssh_config::{
    aliases_of, applying, first_value, opt_view, port_of, BlockView, SshConfig,
};
use crate::text::{
    all_digits, chars_of, decimal, is_digit, joined3, law_decimal_reads_back, law_white_space,
    lemma_views_push, lower, parse_unsigned, same, sort_strings, sorted, sorted_of, string_of,
    to_lower, trim, trimmed, trimmed_start, unsigned_of, views,
};

verus! {

// ---------------------------------------------------------------------------
// Durations
// ---------------------------------------------------------------------------

/// A length of time, as it is written in the configuration.
#[derive(Debug, Clone, Copy, PartialEq, Eq, Structural)]
pub struct HumanDuration {
    pub secs: u64,
    /// Less than a thousand.
    pub millis: u16,
}

/// `n` seconds.
pub open spec fn duration_secs(n: u64) -> HumanDuration {
    HumanDuration { secs: n, millis: 0 }
}

/// `n` milliseconds.
pub open spec fn duration_millis(n: u64) -> HumanDuration {
    HumanDuration { secs: n / 1000, millis: (n % 1000) as u16 }
}

impl HumanDuration {
    pub fn from_secs(n: u64) -> (r: Self)
        ensures
            r == duration_secs(n),
    {
        HumanDuration { secs: n, millis: 0 }
    }

    pub fn from_millis(n: u64) -> (r: Self)
        ensures
            r == duration_millis(n),
    {
        HumanDuration { secs: n / 1000, millis: (n % 1000) as u16 }
    }

    /// The whole time in milliseconds.
    pub fn as_millis(&self) -> (r: u128)
        ensures
            r == self.secs as int * 1000 + self.millis,
    {
        self.secs as u128 * 1000 + self.millis as u128
    }
}

/// How many seconds a unit stands for; none for milliseconds.
pub open spec fn unit_seconds(unit: Seq<char>) -> Option<nat> {
    if unit == ""@ || unit == "s"@ || unit == "sec"@ || unit == "secs"@ {
        Some(1)
    } else if unit == "ms"@ {
        Some(0)
    } else if unit == "m"@ || unit == "min"@ || unit == "mins"@ {
        Some(60)
    } else if unit == "h"@ || unit == "hr"@ || unit == "hrs"@ {
        Some(3600)
    } else if unit == "d"@ || unit == "day"@ || unit == "days"@ {
        Some(86400)
    } else {
        None
    }
}

/// How many digits `s` begins with.
pub open spec fn digits_len(s: Seq<char>) -> int
    decreases s.len(),
{
    if s.len() == 0 || !is_digit(s[0]) {
        0
    } else {
        1 + digits_len(s.skip(1))
    }
}

/// The number that a duration is written with.
pub open spec fn duration_number(s: Seq<char>) -> Option<nat> {
    let t = trimmed(s);
    unsigned_of(t.take(digits_len(t)), u64::MAX as nat)
}

/// The unit that a duration is written with.
pub open spec fn duration_unit(s: Seq<char>) -> Seq<char> {
    let t = trimmed(s);
    trimmed(t.skip(digits_len(t)))
}

/// The duration is not longer than a 64-bit number of seconds can say.
pub open spec fn duration_in_range(s: Seq<char>) -> bool {
    match (duration_number(s), unit_seconds(duration_unit(s))) {
        (Some(n), Some(k)) => n * k <= u64::MAX,
        _ => true,
    }
}

/// What a duration in the configuration stands for.
pub open spec fn duration_of(s: Seq<char>) -> core::result::Result<HumanDuration, Seq<char>> {
    let t = trimmed(s);
    if t.len() == 0 {
        Err("empty duration"@)
    } else {
        match duration_number(s) {
            None => Err(
                "bad number in duration '"@ + t + (if digits_len(t) == 0 {
                    "': cannot parse integer from empty string"@
                } else {
                    "': number too large to fit in target type"@
                }),
            ),
            Some(n) => match unit_seconds(duration_unit(s)) {
                None => Err(
                    "unknown unit '"@ + duration_unit(s) + "' in duration '"@ + t + "'"@,
                ),
                Some(k) => if k == 0 {
                    Ok(duration_millis(n as u64))
                } else {
                    Ok(duration_secs((n * k) as u64))
                },
            },
        }
    }
}

fn seconds_of_unit(unit: &str) -> (r: Option<u64>)
    ensures
        match r {
            Some(k) => unit_seconds(unit@) == Some(k as nat) && k <= 86400,
            None => unit_seconds(unit@) is None,
        },
{
    if same(unit, "") || same(unit, "s") || same(unit, "sec") || same(unit, "secs") {
        Some(1)
    } else if same(unit, "ms") {
        Some(0)
    } else if same(unit, "m") || same(unit, "min") || same(unit, "mins") {
        Some(60)
    } else if same(unit, "h") || same(unit, "hr") || same(unit, "hrs") {
        Some(3600)
    } else if same(unit, "d") || same(unit, "day") || same(unit, "days") {
        Some(86400)
    } else {
        None
    }
}

/// A duration taken apart: its trimmed text, its number and its unit.
fn duration_parts(s: &str) -> (r: (String, usize, Option<u64>, String))
    ensures
        r.0@ == trimmed(s@),
        r.1 == digits_len(trimmed(s@)),
        match r.2 {
            Some(n) => duration_number(s@) == Some(n as nat),
            None => duration_number(s@) is None,
        },
        r.3@ == duration_unit(s@),
{
    let t = trim(s);
    let v = chars_of(t.as_str());
    let len: usize = v.len();
    let mut n: usize = 0;
    assert(v@.skip(0) =~= v@);
    while n < len && '0' <= v[n] && v[n] <= '9'
        invariant
            len == v@.len(),
            n <= len,
            digits_len(v@) == n + digits_len(v@.skip(n as int)),
        decreases len - n,
    {
        assert(v@.skip(n as int).skip(1) =~= v@.skip(n + 1));
        n = n + 1;
    }
    let num = string_of(&v, 0, n);
    assert(num@ =~= v@.take(n as int));
    let rest = string_of(&v, n, len);
    assert(rest@ =~= v@.skip(n as int));
    let number = parse_unsigned(num.as_str(), u64::MAX);
    let unit = trim(rest.as_str());
    (t, n, number, unit)
}

/// Whether a duration is one that `parse_duration` can hold.
pub fn duration_fits(s: &str) -> (r: bool)
    ensures
        r == duration_in_range(s@),
{
    let (_, _, number, unit) = duration_parts(s);
    match (number, seconds_of_unit(unit.as_str())) {
        (Some(n), Some(k)) => {
            assert(n * k <= 18446744073709551615 * 86400) by (nonlinear_arith)
                requires
                    n <= 18446744073709551615,
                    k <= 86400,
            ;
            n as u128 * k as u128 <= u64::MAX as u128
        },
        _ => true,
    }
}

/// Reads a duration such as `30s`, `15m`, `2h` or `500ms`.
pub fn parse_duration(s: &str) -> (r: core::result::Result<HumanDuration, String>)
    requires
        duration_in_range(s@),
    ensures
        match r {
            Ok(d) => duration_of(s@) == core::result::Result::<HumanDuration, Seq<char>>::Ok(d),
            Err(e) => duration_of(s@) == core::result::Result::<HumanDuration, Seq<char>>::Err(e@),
        },
{
    let (t, digits, number, unit) = duration_parts(s);
    if t.as_str().is_empty() {
        return Err("empty duration".to_owned());
    }
    match number {
        None => {
            let why = if digits == 0 {
                "': cannot parse integer from empty string"
            } else {
                "': number too large to fit in target type"
            };
            Err(joined3("bad number in duration '", t.as_str(), why))
        },
        Some(n) => match seconds_of_unit(unit.as_str()) {
            None => {
                let mut m = joined3("unknown unit '", unit.as_str(), "' in duration '");
                m.push_str(t.as_str());
                m.push_str("'");
                Err(m)
            },
            Some(k) => if k == 0 {
                Ok(HumanDuration::from_millis(n))
            } else {
                Ok(HumanDuration::from_secs(n * k))
            },
        },
    }
}

// ---------------------------------------------------------------------------
// Guards
// ---------------------------------------------------------------------------

/// A regular expression that a command is held against, under a name.
#[derive(Debug, Clone)]
pub struct NamedPattern {
    pub name: String,
    pub pattern: String,
}

/// The names and patterns of a list.
pub open spec fn named_views(s: Seq<NamedPattern>) -> Seq<(Seq<char>, Seq<char>)> {
    Seq::new(s.len(), |i: int| (s[i].name@, s[i].pattern@))
}

/// What is refused, what is asked about, and what is exempt.
#[derive(Debug, Clone)]
pub struct Guards {
    pub use_default_deny: bool,
    pub use_default_confirm: bool,
    pub deny: Vec<NamedPattern>,
    pub confirm: Vec<NamedPattern>,
    pub read_only: bool,
    /// Local files or directories that may be read although they look
    /// sensitive.
    pub local_read_allow: Vec<String>,
    /// Local files or directories that may be written although they look
    /// sensitive.
    pub local_write_allow: Vec<String>,
}

/// The mathematical content of [`Guards`].
#[verifier::ext_equal]
pub struct GuardsView {
    pub use_default_deny: bool,
    pub use_default_confirm: bool,
    pub deny: Seq<(Seq<char>, Seq<char>)>,
    pub confirm: Seq<(Seq<char>, Seq<char>)>,
    pub read_only: bool,
    pub local_read_allow: Seq<Seq<char>>,
    pub local_write_allow: Seq<Seq<char>>,
}

impl View for Guards {
    type V = GuardsView;

    open spec fn view(&self) -> GuardsView {
        GuardsView {
            use_default_deny: self.use_default_deny,
            use_default_confirm: self.use_default_confirm,
            deny: named_views(self.deny@),
            confirm: named_views(self.confirm@),
            read_only: self.read_only,
            local_read_allow: views(self.local_read_allow@),
            local_write_allow: views(self.local_write_allow@),
        }
    }
}

/// The guards that hold where nothing else is said.
pub open spec fn default_guards() -> GuardsView {
    GuardsView {
        use_default_deny: true,
        use_default_confirm: true,
        deny: Seq::empty(),
        confirm: Seq::empty(),
        read_only: false,
        local_read_allow: Seq::empty(),
        local_write_allow: Seq::empty(),
    }
}

impl Default for Guards {
    fn default() -> (r: Self)
        ensures
            r@ == default_guards(),
    {
        let r = Guards {
            use_default_deny: true,
            use_default_confirm: true,
            deny: Vec::new(),
            confirm: Vec::new(),
            read_only: false,
            local_read_allow: Vec::new(),
            local_write_allow: Vec::new(),
        };
        assert(r@ =~= default_guards());
        r
    }
}

// Matches: rm -rf /, rm -rf '/', rm -rf "/", rm -rf //, rm -rf /*,
// rm -rf -- /, rm --recursive --force /, rm -rf /etc, RM -rf /, etc.
// Won't match relative paths (./tmp, ../foo), nor what is deeper than a
// first-level root dir: those are legitimate day-to-day deletes.
pub const DENY_RM_ROOT: &'static str =
    r#"(?im)\brm\b(?:\s+(?:-{1,2}[a-zA-Z\-]+|--))*\s+['"]?/+\*?[a-zA-Z]*['"]?/*['"]?(\s|$)"#;

pub const DENY_DD_DISK: &'static str =
    r#"(?im)\bdd\b.*\bof\s*=\s*['"]?/dev/(sd|nvme|hd|vd)"#;

pub const DENY_MKFS: &'static str = r#"(?im)\bmkfs(\.[a-z0-9]+)?\s+['"]?/dev/"#;

pub const DENY_FORKBOMB: &'static str = r":\(\)\s*\{\s*:\s*\|\s*:\s*&\s*\}\s*;\s*:";

pub const DENY_REDIRECT_DISK: &'static str = r#">\s*['"]?/dev/(sd|nvme|hd|vd)"#;

// chmod root: only literal `/` (filesystem root) is denied. `/etc` is allowed
// by design — escalate via per-host guards if you want broader coverage.
pub const DENY_CHMOD_ROOT: &'static str =
    r#"(?im)\bchmod\b(?:\s+(?:-{1,2}[a-zA-Z\-]+|--))*\s+[0-7]{3,4}\s+['"]?/+['"]?(\s|$)"#;

pub const CONFIRM_SHUTDOWN: &'static str = r"(?im)\b(shutdown|halt|poweroff)\b";

pub const CONFIRM_REBOOT: &'static str = r"(?im)\breboot\b";

pub const CONFIRM_SQL_DROP: &'static str = r"(?i)\bDROP\s+(TABLE|DATABASE|SCHEMA)\b";

pub const CONFIRM_SQL_TRUNCATE: &'static str = r"(?i)\bTRUNCATE\s+TABLE\b";

pub const CONFIRM_SYSTEMCTL_STOP: &'static str =
    r"(?im)\bsystemctl\s+(stop|disable|mask)\b";

pub const CONFIRM_DOCKER_RM: &'static str =
    r"(?im)\bdocker\s+(rm|rmi|volume\s+rm|system\s+prune)\b";

/// What is refused everywhere unless it is switched off.
pub open spec fn default_deny() -> Seq<(Seq<char>, Seq<char>)> {
    seq![
        ("rm-rf-root"@, DENY_RM_ROOT@),
        ("dd-disk"@, DENY_DD_DISK@),
        ("mkfs"@, DENY_MKFS@),
        ("forkbomb"@, DENY_FORKBOMB@),
        ("redirect-disk"@, DENY_REDIRECT_DISK@),
        ("chmod-root"@, DENY_CHMOD_ROOT@),
    ]
}

/// What is asked about everywhere unless it is switched off.
pub open spec fn default_confirm() -> Seq<(Seq<char>, Seq<char>)> {
    seq![
        ("shutdown"@, CONFIRM_SHUTDOWN@),
        ("reboot"@, CONFIRM_REBOOT@),
        ("sql-drop"@, CONFIRM_SQL_DROP@),
        ("sql-truncate"@, CONFIRM_SQL_TRUNCATE@),
        ("systemctl-stop"@, CONFIRM_SYSTEMCTL_STOP@),
        ("docker-rm"@, CONFIRM_DOCKER_RM@),
    ]
}

fn named(name: &str, pattern: &str) -> (r: NamedPattern)
    ensures
        r.name@ == name@,
        r.pattern@ == pattern@,
{
    NamedPattern { name: name.to_owned(), pattern: pattern.to_owned() }
}

pub fn default_deny_patterns() -> (r: Vec<NamedPattern>)
    ensures
        named_views(r@) == default_deny(),
{
    let mut v: Vec<NamedPattern> = Vec::new();
    v.push(named("rm-rf-root", DENY_RM_ROOT));
    v.push(named("dd-disk", DENY_DD_DISK));
    v.push(named("mkfs", DENY_MKFS));
    v.push(named("forkbomb", DENY_FORKBOMB));
    v.push(named("redirect-disk", DENY_REDIRECT_DISK));
    v.push(named("chmod-root", DENY_CHMOD_ROOT));
    assert(named_views(v@) =~= default_deny());
    v
}

pub fn default_confirm_patterns() -> (r: Vec<NamedPattern>)
    ensures
        named_views(r@) == default_confirm(),
{
    let mut v: Vec<NamedPattern> = Vec::new();
    v.push(named("shutdown", CONFIRM_SHUTDOWN));
    v.push(named("reboot", CONFIRM_REBOOT));
    v.push(named("sql-drop", CONFIRM_SQL_DROP));
    v.push(named("sql-truncate", CONFIRM_SQL_TRUNCATE));
    v.push(named("systemctl-stop", CONFIRM_SYSTEMCTL_STOP));
    v.push(named("docker-rm", CONFIRM_DOCKER_RM));
    assert(named_views(v@) =~= default_confirm());
    v
}

// ---------------------------------------------------------------------------
// Hosts
// ---------------------------------------------------------------------------

/// How a connection proves who it is.
#[derive(Debug, Clone, Copy, PartialEq, Eq, Structural)]
pub enum AuthMethod {
    Key,
    Agent,
    Password,
}

impl Default for AuthMethod {
    fn default() -> (r: Self)
        ensures
            r == AuthMethod::Key,
    {
        AuthMethod::Key
    }
}

/// A machine that can be connected to.
#[derive(Debug, Clone)]
pub struct Host {
    pub addr: String,
    pub user: String,
    pub port: u16,
    pub auth: AuthMethod,
    /// Primary private key path (back-compat with single-key configs).
    pub key: Option<String>,
    /// Optional list of additional candidate keys, tried in order after `key`.
    /// Useful when migrating between ed25519/rsa or when a host accepts
    /// multiple identities.
    pub keys: Option<Vec<String>>,
    pub guards: Option<Guards>,
    pub known_host_fingerprint: Option<String>,
    /// Another declared host that the connection goes through.
    pub proxy_jump: Option<String>,
}

/// The mathematical content of a [`Host`].
#[verifier::ext_equal]
pub struct HostView {
    pub addr: Seq<char>,
    pub user: Seq<char>,
    pub port: u16,
    pub auth: AuthMethod,
    pub key: Option<Seq<char>>,
    pub keys: Option<Seq<Seq<char>>>,
    pub guards: Option<GuardsView>,
    pub known_host_fingerprint: Option<Seq<char>>,
    pub proxy_jump: Option<Seq<char>>,
}

impl View for Host {
    type V = HostView;

    open spec fn view(&self) -> HostView {
        HostView {
            addr: self.addr@,
            user: self.user@,
            port: self.port,
            auth: self.auth,
            key: opt_view(self.key),
            keys: match self.keys {
                Some(k) => Some(views(k@)),
                None => None,
            },
            guards: match self.guards {
                Some(g) => Some(g@),
                None => None,
            },
            known_host_fingerprint: opt_view(self.known_host_fingerprint),
            proxy_jump: opt_view(self.proxy_jump),
        }
    }
}

/// `list` with those paths of `more` that it does not hold yet, in order.
pub open spec fn extended(list: Seq<Seq<char>>, more: Seq<Seq<char>>, windows: bool) -> Seq<
    Seq<char>,
>
    decreases more.len(),
{
    if more.len() == 0 {
        list
    } else {
        let before = extended(list, more.drop_last(), windows);
        if holds_path(before, more.last(), windows) {
            before
        } else {
            before.push(more.last())
        }
    }
}

/// Every configured key path of a host, in priority order, none twice.
pub open spec fn keys_of(h: HostView, windows: bool) -> Seq<Seq<char>> {
    let first = match h.key {
        Some(k) => seq![k],
        None => Seq::empty(),
    };
    match h.keys {
        Some(more) => extended(first, more, windows),
        None => first,
    }
}

/// A host without a key path.
pub open spec fn is_keyless(h: HostView) -> bool {
    h.key is None && (h.keys is None || h.keys->0.len() == 0)
}

impl Host {
    /// Every configured key path in priority order, where paths have neither
    /// drives nor backslashes.
    pub fn all_keys(&self) -> (r: Vec<String>)
        ensures
            views(r@) == keys_of(self@, false),
    {
        self.all_keys_on(false)
    }

    /// Every configured key path in priority order. Two texts that write the
    /// same path are one.
    pub fn all_keys_on(&self, windows: bool) -> (r: Vec<String>)
        ensures
            views(r@) == keys_of(self@, windows),
    {
        let mut out: Vec<String> = Vec::new();
        if let Some(k) = &self.key {
            out.push(k.clone());
        }
        let ghost first = match self@.key {
            Some(k) => seq![k],
            None => Seq::empty(),
        };
        assert(views(out@) =~= first);
        if let Some(extra) = &self.keys {
            let ghost more = views(extra@);
            let mut i: usize = 0;
            while i < extra.len()
                invariant
                    i <= extra@.len(),
                    more == views(extra@),
                    views(out@) == extended(first, more.take(i as int), windows),
                decreases extra@.len() - i,
            {
                proof {
                    assert(more.take(i + 1).drop_last() =~= more.take(i as int));
                    assert(more.take(i + 1).last() == extra@[i as int]@);
                    lemma_views_push(out@, extra@[i as int]);
                }
                if !lists_path(&out, extra[i].as_str(), windows) {
                    out.push(extra[i].clone());
                }
                i = i + 1;
            }
            assert(more.take(i as int) =~= more);
        }
        out
    }
}

proof fn lemma_extended(list: Seq<Seq<char>>, more: Seq<Seq<char>>, windows: bool)
    requires
        distinct_paths(list, windows),
    ensures
        distinct_paths(extended(list, more, windows), windows),
        extended(list, more, windows).len() >= list.len(),
        more.len() > 0 ==> extended(list, more, windows).len() > 0,
        forall|i: int| 0 <= i < list.len() ==> extended(list, more, windows)[i] == list[i],
    decreases more.len(),
{
    if more.len() > 0 {
        lemma_extended(list, more.drop_last(), windows);
    }
}

/// No key is tried twice, however often it is written, and the primary key comes
/// first. A host has keys to try where it names any.
pub proof fn law_keys_are_distinct(h: HostView, windows: bool)
    ensures
        distinct_paths(keys_of(h, windows), windows),
        h.key is Some ==> keys_of(h, windows).len() > 0 && keys_of(h, windows)[0] == h.key->0,
        keys_of(h, windows).len() == 0 <==> is_keyless(h),
{
    let first = match h.key {
        Some(k) => seq![k],
        None => Seq::empty(),
    };
    if h.keys is Some {
        lemma_extended(first, h.keys->0, windows);
        if h.key is Some {
            assert(first[0] == h.key->0);
        }
    }
}

/// The declared hosts, each under a name of its own, in the order in which they
/// were declared.
#[derive(Debug)]
pub struct Hosts {
    names: Vec<String>,
    hosts: Vec<Host>,
}

/// Where a name stands in a list of declarations; the length where it does not.
pub open spec fn index_of_name(v: Seq<(Seq<char>, HostView)>, name: Seq<char>) -> int
    decreases v.len(),
{
    if v.len() == 0 || v[0].0 == name {
        0
    } else {
        1 + index_of_name(v.skip(1), name)
    }
}

/// The host that is declared under a name.
pub open spec fn lookup(v: Seq<(Seq<char>, HostView)>, name: Seq<char>) -> Option<HostView> {
    let i = index_of_name(v, name);
    if i < v.len() {
        Some(v[i].1)
    } else {
        None
    }
}

/// The names of a list of declarations.
pub open spec fn names_of(v: Seq<(Seq<char>, HostView)>) -> Seq<Seq<char>> {
    Seq::new(v.len(), |i: int| v[i].0)
}

pub proof fn lemma_index_of_name(v: Seq<(Seq<char>, HostView)>, name: Seq<char>)
    ensures
        0 <= index_of_name(v, name) <= v.len(),
        index_of_name(v, name) < v.len() ==> v[index_of_name(v, name)].0 == name,
        forall|i: int| 0 <= i < index_of_name(v, name) ==> (#[trigger] v[i]).0 != name,
    decreases v.len(),
{
    if v.len() == 0 || v[0].0 == name {
    } else {
        lemma_index_of_name(v.skip(1), name);
        assert forall|i: int| 0 <= i < index_of_name(v, name) implies (#[trigger] v[i]).0
            != name by {
            if i > 0 {
                assert(v[i] == v.skip(1)[i - 1]);
            }
        }
    }
}

impl View for Hosts {
    type V = Seq<(Seq<char>, HostView)>;

    closed spec fn view(&self) -> Seq<(Seq<char>, HostView)> {
        Seq::new(self.names@.len(), |i: int| (self.names@[i]@, self.hosts@[i]@))
    }
}

impl Hosts {
    #[verifier::type_invariant]
    spec fn paired(self) -> bool {
        &&& self.names@.len() == self.hosts@.len()
        &&& names_of(self@).no_duplicates()
    }

    pub fn new() -> (r: Self)
        ensures
            r@ == Seq::<(Seq<char>, HostView)>::empty(),
    {
        let r = Hosts { names: Vec::new(), hosts: Vec::new() };
        assert(r@ =~= Seq::<(Seq<char>, HostView)>::empty());
        r
    }

    pub fn len(&self) -> (r: usize)
        ensures
            r == self@.len(),
    {
        self.names.len()
    }

    /// The name of the `i`-th declaration.
    pub fn name_at(&self, i: usize) -> (r: &String)
        requires
            i < self@.len(),
        ensures
            r@ == self@[i as int].0,
    {
        &self.names[i]
    }

    /// The host of the `i`-th declaration.
    pub fn host_at(&self, i: usize) -> (r: &Host)
        requires
            i < self@.len(),
        ensures
            r@ == self@[i as int].1,
    {
        proof {
            use_type_invariant(&*self);
        }
        &self.hosts[i]
    }

    fn position(&self, name: &str) -> (r: usize)
        ensures
            r == index_of_name(self@, name@),
            r <= self@.len(),
    {
        let ghost all = self@;
        assert(all.skip(0) =~= all);
        let mut i: usize = 0;
        while i < self.names.len()
            invariant
                i <= self.names@.len(),
                all == self@,
                all.len() == self.names@.len(),
                index_of_name(all, name@) == i + index_of_name(all.skip(i as int), name@),
            decreases self.names@.len() - i,
        {
            assert(all.skip(i as int)[0].0 == self.names@[i as int]@);
            if same(self.names[i].as_str(), name) {
                return i;
            }
            assert(all.skip(i as int).skip(1) =~= all.skip(i + 1));
            i = i + 1;
        }
        i
    }

    pub fn get(&self, name: &str) -> (r: Option<&Host>)
        ensures
            match r {
                Some(h) => lookup(self@, name@) == Some(h@),
                None => lookup(self@, name@) is None,
            },
    {
        proof {
            use_type_invariant(&*self);
        }
        let i: usize = self.position(name);
        if i < self.hosts.len() {
            Some(&self.hosts[i])
        } else {
            None
        }
    }

    pub fn contains(&self, name: &str) -> (r: bool)
        ensures
            r == (lookup(self@, name@) is Some),
    {
        self.get(name).is_some()
    }

    /// Declares a host. One that stands under the same name gives way.
    pub fn insert(self, name: String, host: Host) -> (r: Self)
        ensures
            r@ == declared(self@, name@, host@),
    {
        proof {
            use_type_invariant(&self);
        }
        let ghost before = self@;
        let i: usize = self.position(name.as_str());
        let Hosts { mut names, mut hosts } = self;
        proof {
            lemma_index_of_name(before, name@);
        }
        if i < hosts.len() {
            let ghost hs = hosts@;
            hosts.set(i, host);
            let ghost after = Seq::new(names@.len(), |k: int| (names@[k]@, hosts@[k]@));
            proof {
                assert(after =~= declared(before, name@, host@));
                assert(names_of(after) =~= names_of(before));
            }
        } else {
            let ghost n = name@;
            let ghost h = host@;
            names.push(name);
            hosts.push(host);
            let ghost after = Seq::new(names@.len(), |k: int| (names@[k]@, hosts@[k]@));
            proof {
                assert(after =~= declared(before, n, h));
                assert(names_of(after) =~= names_of(before).push(n));
                assert forall|k: int| 0 <= k < before.len() implies names_of(before)[k] != n by {
                    assert(before[k].0 != n);
                }
            }
        }
        Hosts { names, hosts }
    }
}

impl Clone for Hosts {
    fn clone(&self) -> (r: Self)
        ensures
            r@ == self@,
    {
        proof {
            use_type_invariant(self);
        }
        let ghost before = self@;
        let names = clone_strings(&self.names);
        let mut hosts: Vec<Host> = Vec::new();
        let mut i: usize = 0;
        while i < self.hosts.len()
            invariant
                i <= self.hosts@.len(),
                hosts@.len() == i,
                forall|k: int| 0 <= k < i ==> (#[trigger] hosts@[k])@ == self.hosts@[k]@,
            decreases self.hosts@.len() - i,
        {
            hosts.push(clone_host(&self.hosts[i]));
            i = i + 1;
        }
        proof {
            let after = Seq::new(names@.len(), |k: int| (names@[k]@, hosts@[k]@));
            assert forall|k: int| 0 <= k < names@.len() implies names@[k]@ == self.names@[k]@ by {
                assert(views(names@)[k] == views(self.names@)[k]);
            }
            assert(after =~= before);
        }
        Hosts { names, hosts }
    }
}

/// The declarations once `host` stands under `name`.
pub open spec fn declared(v: Seq<(Seq<char>, HostView)>, name: Seq<char>, host: HostView) -> Seq<
    (Seq<char>, HostView),
> {
    let i = index_of_name(v, name);
    if i < v.len() {
        v.update(i, (name, host))
    } else {
        v.push((name, host))
    }
}

/// A declared host is found under its name, and no other name is touched.
pub proof fn law_declared_host_is_found(
    v: Seq<(Seq<char>, HostView)>,
    name: Seq<char>,
    host: HostView,
    other: Seq<char>,
)
    ensures
        lookup(declared(v, name, host), name) == Some(host),
        other != name ==> lookup(declared(v, name, host), other) == lookup(v, other),
{
    let w = declared(v, name, host);
    lemma_index_of_name(v, name);
    lemma_index_of_name(w, name);
    lemma_index_of_name(v, other);
    lemma_index_of_name(w, other);
    let i = index_of_name(v, name);
    assert(w[i] == (name, host));
    assert forall|k: int| 0 <= k < i implies (#[trigger] w[k]).0 != name by {
        assert(w[k] == v[k]);
    }
    let k = index_of_name(w, name);
    if k < i {
        assert(w[k].0 == name);
    } else if k > i {
        assert(w[i].0 != name);
    }
    if other != name {
        let a = index_of_name(v, other);
        let b = index_of_name(w, other);
        if a < v.len() {
            assert(w[a] == v[a]);
            if b > a {
                assert(w[a].0 != other);
            } else if b < a {
                assert(w[b] == v[b] || b == i);
                assert(v[b].0 != other);
            }
        } else {
            if b < w.len() {
                if b < v.len() {
                    assert(v[b].0 != other);
                }
            }
        }
    }
}

// ---------------------------------------------------------------------------
// Defaults
// ---------------------------------------------------------------------------

/// How host keys are checked.
#[derive(Debug, Clone, Copy, PartialEq, Eq, Structural)]
pub enum StrictHostKey {
    /// Pin on first connect, reject on mismatch.
    Tofu,
    /// Reject any host not already pinned.
    Strict,
    /// Accept anything.
    Off,
}

impl Default for StrictHostKey {
    fn default() -> (r: Self)
        ensures
            r == StrictHostKey::Tofu,
    {
        StrictHostKey::Tofu
    }
}

/// How answers are written.
#[derive(Debug, Clone, Copy, PartialEq, Eq, Structural)]
pub enum OutputFmt {
    Toon,
    Json,
    Text,
}

/// What holds for every host that does not say otherwise.
#[derive(Debug, Clone)]
pub struct Defaults {
    pub import_ssh_config: bool,
    pub output: OutputFmt,
    pub session_idle_timeout: HumanDuration,
    pub audit_log: bool,
    pub audit_log_path: String,
    /// Rotate the audit log once it crosses this size. `0` disables rotation.
    pub audit_max_bytes: u64,
    /// Generations of the audit log to keep.
    pub audit_keep_files: usize,
    pub guards: Guards,
    pub keepalive: HumanDuration,
    pub connect_timeout: HumanDuration,
    pub truncate_bytes: usize,
    pub max_capture_bytes: usize,
    pub max_channels_per_host: usize,
    pub max_connections_per_host: usize,
    pub strict_host_key_checking: StrictHostKey,
    /// How long an answer to a confirmation is remembered. Nothing is where it
    /// is zero.
    pub confirm_ttl: HumanDuration,
    /// Optional default host alias used when a tool call omits `host`.
    pub default_host: Option<String>,
}

pub fn default_true() -> (r: bool)
    ensures
        r,
{
    true
}

pub fn default_port() -> (r: u16)
    ensures
        r == 22,
{
    22
}

pub fn default_output() -> (r: OutputFmt)
    ensures
        r == OutputFmt::Toon,
{
    OutputFmt::Toon
}

pub fn default_idle() -> (r: HumanDuration)
    ensures
        r == duration_secs(900),
{
    HumanDuration::from_secs(900)
}

pub fn default_keepalive() -> (r: HumanDuration)
    ensures
        r == duration_secs(30),
{
    HumanDuration::from_secs(30)
}

pub fn default_connect_timeout() -> (r: HumanDuration)
    ensures
        r == duration_secs(15),
{
    HumanDuration::from_secs(15)
}

pub fn default_truncate() -> (r: usize)
    ensures
        r == 32 * 1024,
{
    32 * 1024
}

pub fn default_max_capture() -> (r: usize)
    ensures
        r == 256 * 1024,
{
    256 * 1024
}

pub fn default_max_channels() -> (r: usize)
    ensures
        r == 8,
{
    8
}

pub fn default_max_connections() -> (r: usize)
    ensures
        r == 2,
{
    2
}

/// The directory that holds the configuration: the one that the environment
/// names, else one below the home directory.
pub open spec fn config_dir_text(named: Option<Seq<char>>, home: Option<Seq<char>>) -> Seq<char> {
    match named {
        Some(d) => d,
        None => joined_path(
            match home {
                Some(h) => h,
                None => "."@,
            },
            ".fast-mcp-ssh"@,
        ),
    }
}

pub open spec fn opt_str_view(s: Option<&str>) -> Option<Seq<char>> {
    match s {
        Some(s) => Some(s@),
        None => None,
    }
}

/// `named` is what the environment variable `FAST_MCP_SSH_HOME` holds.
pub fn config_dir(named: Option<&str>, home: Option<&str>) -> (r: String)
    ensures
        r@ == config_dir_text(opt_str_view(named), opt_str_view(home)),
{
    match named {
        Some(d) => d.to_owned(),
        None => {
            let h = match home {
                Some(h) => h,
                None => ".",
            };
            join_path(h, ".fast-mcp-ssh")
        },
    }
}

/// Where the configuration is read from unless it is said.
pub fn default_config_path(named: Option<&str>, home: Option<&str>) -> (r: String)
    ensures
        r@ == joined_path(config_dir_text(opt_str_view(named), opt_str_view(home)), "hosts.toml"@),
{
    let dir = config_dir(named, home);
    join_path(dir.as_str(), "hosts.toml")
}

/// Where the audit log is written unless it is said.
pub fn default_audit_path(named: Option<&str>, home: Option<&str>) -> (r: String)
    ensures
        r@ == joined_path(config_dir_text(opt_str_view(named), opt_str_view(home)), "audit.log"@),
{
    let dir = config_dir(named, home);
    join_path(dir.as_str(), "audit.log")
}

impl Defaults {
    /// The defaults of a machine where the audit log stands at `audit_path`.
    pub fn with_audit_path(audit_path: String) -> (r: Self)
        ensures
            r.import_ssh_config,
            r.output == OutputFmt::Toon,
            r.session_idle_timeout == duration_secs(900),
            r.audit_log,
            r.audit_log_path@ == audit_path@,
            r.audit_max_bytes == 16 * 1024 * 1024,
            r.audit_keep_files == 5,
            r.guards@ == default_guards(),
            r.keepalive == duration_secs(30),
            r.connect_timeout == duration_secs(15),
            r.truncate_bytes == 32 * 1024,
            r.max_capture_bytes == 256 * 1024,
            r.max_channels_per_host == 8,
            r.max_connections_per_host == 2,
            r.strict_host_key_checking == StrictHostKey::Tofu,
            r.confirm_ttl == duration_secs(0),
            r.default_host is None,
    {
        Defaults {
            import_ssh_config: true,
            output: default_output(),
            session_idle_timeout: default_idle(),
            audit_log: true,
            audit_log_path: audit_path,
            audit_max_bytes: 16777216,
            audit_keep_files: 5,
            guards: Guards::default(),
            keepalive: default_keepalive(),
            connect_timeout: default_connect_timeout(),
            truncate_bytes: default_truncate(),
            max_capture_bytes: default_max_capture(),
            max_channels_per_host: default_max_channels(),
            max_connections_per_host: default_max_connections(),
            strict_host_key_checking: StrictHostKey::Tofu,
            confirm_ttl: HumanDuration::from_secs(0),
            default_host: None,
        }
    }
}

// ---------------------------------------------------------------------------
// The whole configuration
// ---------------------------------------------------------------------------

#[derive(Debug, Clone)]
pub struct Config {
    pub defaults: Defaults,
    pub hosts: Hosts,
}

/// What is wrong with one declared host.
pub open spec fn host_fault(name: Seq<char>, h: HostView) -> Option<Seq<char>> {
    if h.auth == AuthMethod::Key && keys_of(h, false).len() == 0 {
        Some("host '"@ + name + "': auth = \"key\" but no `key` or `keys[]` set"@)
    } else if trimmed(h.addr).len() == 0 {
        Some("host '"@ + name + "': addr is empty"@)
    } else if trimmed(h.user).len() == 0 {
        Some("host '"@ + name + "': user is empty"@)
    } else {
        None
    }
}

/// What is wrong with the first declared host that anything is wrong with.
pub open spec fn hosts_fault(v: Seq<(Seq<char>, HostView)>) -> Option<Seq<char>>
    decreases v.len(),
{
    if v.len() == 0 {
        None
    } else {
        match host_fault(v[0].0, v[0].1) {
            Some(m) => Some(m),
            None => hosts_fault(v.skip(1)),
        }
    }
}

/// What is wrong with a configuration.
pub open spec fn config_fault(
    default_host: Option<Seq<char>>,
    v: Seq<(Seq<char>, HostView)>,
) -> Option<Seq<char>> {
    if default_host is Some && lookup(v, default_host->0) is None {
        Some("default_host '"@ + default_host->0 + "' is not declared in [host.*]"@)
    } else {
        hosts_fault(v)
    }
}

/// `r` is a success where there is no fault, and else the fault as a
/// configuration error.
pub open spec fn reports(r: Result<()>, fault: Option<Seq<char>>) -> bool {
    match r {
        Ok(_) => fault is None,
        Err(e) => e is Config && fault == Some(e->Config_0@),
    }
}

/// The host that an alias of an ssh configuration stands for, where it names
/// an address.
pub open spec fn imported_host(entries: Seq<(Seq<char>, Seq<char>)>) -> Option<HostView> {
    match first_value(entries, "hostname"@) {
        None => None,
        Some(addr) => {
            let files = crate::ssh_config::all_values(entries, "identityfile"@);
            Some(
                HostView {
                    addr,
                    user: match first_value(entries, "user"@) {
                        Some(u) => u,
                        None => "root"@,
                    },
                    port: match port_of(first_value(entries, "port"@)) {
                        Some(p) => p,
                        None => 22,
                    },
                    auth: if files.len() > 0 {
                        AuthMethod::Key
                    } else {
                        AuthMethod::Agent
                    },
                    key: if files.len() > 0 {
                        Some(files[0])
                    } else {
                        None
                    },
                    keys: None,
                    guards: None,
                    known_host_fingerprint: None,
                    proxy_jump: None,
                },
            )
        },
    }
}

/// The declarations once the aliases of an ssh configuration are taken in.
pub open spec fn merged(
    v: Seq<(Seq<char>, HostView)>,
    blocks: Seq<BlockView>,
    aliases: Seq<Seq<char>>,
) -> Seq<(Seq<char>, HostView)>
    decreases aliases.len(),
{
    if aliases.len() == 0 {
        v
    } else {
        let before = merged(v, blocks, aliases.drop_last());
        let alias = aliases.last();
        match imported_host(applying(blocks, alias)) {
            Some(h) => if lookup(before, alias) is None {
                declared(before, alias, h)
            } else {
                before
            },
            None => before,
        }
    }
}

/// Importing never touches a host that the operator declared.
pub proof fn law_import_keeps_declared_hosts(
    v: Seq<(Seq<char>, HostView)>,
    blocks: Seq<BlockView>,
    aliases: Seq<Seq<char>>,
    name: Seq<char>,
)
    requires
        lookup(v, name) is Some,
    ensures
        lookup(merged(v, blocks, aliases), name) == lookup(v, name),
    decreases aliases.len(),
{
    if aliases.len() > 0 {
        law_import_keeps_declared_hosts(v, blocks, aliases.drop_last(), name);
        let before = merged(v, blocks, aliases.drop_last());
        if let Some(h) = imported_host(applying(blocks, aliases.last())) {
            if lookup(before, aliases.last()) is None {
                law_declared_host_is_found(before, aliases.last(), h, name);
            }
        }
    }
}

/// A path that names neither a home directory nor a variable.
pub open spec fn is_plain(p: Seq<char>) -> bool {
    &&& p.len() > 0 ==> p[0] != '~'
    &&& !p.contains('$')
}

/// An environment variable.
#[derive(Debug, Clone)]
pub struct EnvVar {
    pub name: String,
    pub value: String,
}

/// What paths are expanded with.
#[derive(Debug, Clone)]
pub struct ShellEnv {
    /// The operator's home directory, where there is one.
    pub home: Option<String>,
    /// The environment. The first of two variables of one name counts.
    pub vars: Vec<EnvVar>,
    /// Variable names are told apart without regard to case.
    pub windows: bool,
}

/// The mathematical content of a [`ShellEnv`].
#[verifier::ext_equal]
pub struct ShellView {
    pub home: Option<Seq<char>>,
    pub vars: Seq<(Seq<char>, Seq<char>)>,
    pub windows: bool,
}

impl View for ShellEnv {
    type V = ShellView;

    open spec fn view(&self) -> ShellView {
        ShellView {
            home: opt_view(self.home),
            vars: Seq::new(
                self.vars@.len(),
                |i: int| (self.vars@[i].name@, self.vars@[i].value@),
            ),
            windows: self.windows,
        }
    }
}

/// Whether a variable goes by this name.
pub open spec fn goes_by(var: Seq<char>, name: Seq<char>, windows: bool) -> bool {
    var == name || (windows && lower(var) == lower(name))
}

/// The value of a variable, where it is set.
pub open spec fn var_value(
    vars: Seq<(Seq<char>, Seq<char>)>,
    name: Seq<char>,
    windows: bool,
) -> Option<Seq<char>>
    decreases vars.len(),
{
    if vars.len() == 0 {
        None
    } else if goes_by(vars[0].0, name, windows) {
        Some(vars[0].1)
    } else {
        var_value(vars.skip(1), name, windows)
    }
}

impl ShellEnv {
    /// The value of a variable; an error where it is not set.
    pub fn lookup(&self, name: &str) -> (r: core::result::Result<Option<String>, ()>)
        ensures
            match var_value(self@.vars, name@, self@.windows) {
                Some(v) => r is Ok && opt_view(r->Ok_0) == Some(v),
                None => r is Err,
            },
    {
        let ghost all = self@.vars;
        assert(all.skip(0) =~= all);
        let folded = to_lower(name);
        let mut i: usize = 0;
        while i < self.vars.len()
            invariant
                i <= self.vars@.len(),
                all == self@.vars,
                folded@ == lower(name@),
                var_value(all, name@, self.windows) == var_value(
                    all.skip(i as int),
                    name@,
                    self.windows,
                ),
            decreases self.vars@.len() - i,
        {
            let v = &self.vars[i];
            proof {
                assert(all.skip(i as int)[0] == (v.name@, v.value@));
                assert(all.skip(i as int).skip(1) =~= all.skip(i + 1));
            }
            if same(v.name.as_str(), name) {
                return Ok(Some(v.value.clone()));
            }
            if self.windows {
                let other = to_lower(v.name.as_str());
                if same(other.as_str(), folded.as_str()) {
                    return Ok(Some(v.value.clone()));
                }
            }
            i = i + 1;
        }
        Err(())
    }
}

/// What `shellexpand::full_with_context` makes of a text with this home
/// directory and these variables; nothing where a variable is not set.
pub uninterp spec fn expansion_of(
    text: Seq<char>,
    home: Option<Seq<char>>,
    vars: Seq<(Seq<char>, Seq<char>)>,
    windows: bool,
) -> Option<Seq<char>>;

/// The home directory, or a path below it, with no variable in it.
pub open spec fn is_under_home(p: Seq<char>) -> bool {
    &&& p.len() > 0 && p[0] == '~'
    &&& p.len() == 1 || p[1] == '/'
    &&& !p.contains('$')
}

/// A text whose `~` may come to stand before a backslash. Whether that names
/// the home directory is a matter of the platform.
pub open spec fn is_platform_tilde(p: Seq<char>) -> bool {
    p.len() > 1 && p[0] == '~' && (p[1] == '\\' || p[1] == '$')
}

/// What a path under the home directory stands for.
pub open spec fn under_home(p: Seq<char>, home: Option<Seq<char>>) -> Seq<char> {
    match home {
        Some(h) => h + p.skip(1),
        None => p,
    }
}

/// `shellexpand::full_with_context`: `~` and variables replaced, where every
/// variable is set. The result is named. Claimed of it besides: a text with no
/// `$` that does not begin with `~` comes back as it is; a `~` that is a whole
/// text or stands before a `/` is replaced by the home directory, and stays
/// where there is none. Where the `~` may come to stand before a backslash, what
/// comes back depends on the platform, and nothing is claimed.
#[verifier::external_body]
fn shell_expanded(s: &str, env: &ShellEnv) -> (r: Option<String>)
    ensures
        !is_platform_tilde(s@) ==> opt_view(r) == expansion_of(
            s@,
            env@.home,
            env@.vars,
            env@.windows,
        ),
        is_plain(s@) ==> opt_view(r) == Some(s@),
        is_under_home(s@) ==> opt_view(r) == Some(under_home(s@, env@.home)),
{
    shellexpand::full_with_context(s, || env.home.as_deref(), |name| env.lookup(name))
        .ok()
        .map(|s| s.into_owned())
}

/// A path once the outcome of expanding it is known: one that cannot be
/// expanded stays as it is.
pub fn with_expansion(path: String, expanded: Option<String>) -> (r: String)
    ensures
        r@ == (match expanded {
            Some(e) => e@,
            None => path@,
        }),
{
    match expanded {
        Some(e) => e,
        None => path,
    }
}

/// What expanding makes of a path. One that cannot be expanded stays as it is.
pub open spec fn becomes(before: Seq<char>, after: Seq<char>, env: ShellView) -> bool {
    &&& !is_platform_tilde(before) ==> after == (match expansion_of(
        before,
        env.home,
        env.vars,
        env.windows,
    ) {
        Some(e) => e,
        None => before,
    })
    &&& is_plain(before) ==> after == before
    &&& is_under_home(before) ==> after == under_home(before, env.home)
}

fn expanded_path(path: String, env: &ShellEnv) -> (r: String)
    ensures
        becomes(path@, r@, env@),
{
    let e = shell_expanded(path.as_str(), env);
    with_expansion(path, e)
}

/// A host before and after its key paths were expanded.
pub open spec fn host_becomes(a: HostView, b: HostView, env: ShellView) -> bool {
    &&& a.addr == b.addr
    &&& a.user == b.user
    &&& a.port == b.port
    &&& a.auth == b.auth
    &&& a.guards == b.guards
    &&& a.known_host_fingerprint == b.known_host_fingerprint
    &&& a.proxy_jump == b.proxy_jump
    &&& a.key is Some == b.key is Some
    &&& a.key is Some ==> becomes(a.key->0, b.key->0, env)
    &&& a.keys is Some == b.keys is Some
    &&& a.keys is Some ==> a.keys->0.len() == b.keys->0.len()
    &&& a.keys is Some ==> forall|i: int|
        #![trigger b.keys->0[i]]
        0 <= i < a.keys->0.len() ==> becomes(a.keys->0[i], b.keys->0[i], env)
}

/// Expanding leaves a host alone whose key paths are plain.
pub proof fn law_plain_paths_stay(a: HostView, b: HostView, env: ShellView)
    requires
        host_becomes(a, b, env),
        a.key is Some ==> is_plain(a.key->0),
        a.keys is Some ==> forall|i: int|
            0 <= i < a.keys->0.len() ==> is_plain(#[trigger] a.keys->0[i]),
    ensures
        a == b,
{
    if a.keys is Some {
        assert forall|i: int| 0 <= i < a.keys->0.len() implies a.keys->0[i] == b.keys->0[i] by {
            assert(is_plain(a.keys->0[i]));
            assert(becomes(a.keys->0[i], b.keys->0[i], env));
        }
        assert(a.keys->0 =~= b.keys->0);
    }
}

fn expanded_host(h: Host, env: &ShellEnv) -> (r: Host)
    ensures
        host_becomes(h@, r@, env@),
{
    let ghost before = h@;
    let Host {
        addr,
        user,
        port,
        auth,
        key,
        keys,
        guards,
        known_host_fingerprint,
        proxy_jump,
    } = h;
    let key = match key {
        Some(k) => Some(expanded_path(k, env)),
        None => None,
    };
    let keys = match keys {
        Some(list) => {
            let mut out: Vec<String> = Vec::new();
            let mut i: usize = 0;
            while i < list.len()
                invariant
                    i <= list@.len(),
                    out@.len() == i,
                    forall|k: int|
                        #![trigger out@[k]]
                        0 <= k < i ==> becomes(list@[k]@, out@[k]@, env@),
                decreases list@.len() - i,
            {
                out.push(expanded_path(list[i].clone(), env));
                i = i + 1;
            }
            assert forall|k: int|
                #![trigger views(out@)[k]]
                0 <= k < list@.len() implies becomes(
                before.keys->0[k],
                views(out@)[k],
                env@,
            ) by {
                assert(becomes(list@[k]@, out@[k]@, env@));
            }
            Some(out)
        },
        None => None,
    };
    Host { addr, user, port, auth, key, keys, guards, known_host_fingerprint, proxy_jump }
}

impl Config {
    /// Catches the common misconfigurations at startup so the first tool
    /// call doesn't have to discover them. Refuses:
    /// * `default_host` pointing at an undeclared alias
    /// * `auth = "key"` with no `key` and no `keys[]`
    /// * `auth = "password"` is fine — password is supplied per-call
    /// * `auth = "agent"` is fine — no key path needed
    pub fn validate(&self) -> (r: Result<()>)
        ensures
            reports(r, config_fault(opt_view(self.defaults.default_host), self.hosts@)),
    {
        if let Some(dh) = &self.defaults.default_host {
            if !self.hosts.contains(dh.as_str()) {
                return Err(
                    SshError::Config(
                        joined3("default_host '", dh.as_str(), "' is not declared in [host.*]"),
                    ),
                );
            }
        }
        let ghost all = self.hosts@;
        assert(all.skip(0) =~= all);
        let mut i: usize = 0;
        while i < self.hosts.len()
            invariant
                i <= self.hosts@.len(),
                all == self.hosts@,
                config_fault(opt_view(self.defaults.default_host), all) == hosts_fault(
                    all.skip(i as int),
                ),
            decreases self.hosts@.len() - i,
        {
            let name = self.hosts.name_at(i);
            let h = self.hosts.host_at(i);
            proof {
                assert(all.skip(i as int)[0] == all[i as int]);
                assert(all.skip(i as int).skip(1) =~= all.skip(i + 1));
            }
            if matches!(h.auth, AuthMethod::Key) && h.all_keys().len() == 0 {
                return Err(
                    SshError::Config(
                        joined3(
                            "host '",
                            name.as_str(),
                            "': auth = \"key\" but no `key` or `keys[]` set",
                        ),
                    ),
                );
            }
            let addr = trim(h.addr.as_str());
            if addr.as_str().is_empty() {
                return Err(
                    SshError::Config(joined3("host '", name.as_str(), "': addr is empty")),
                );
            }
            let user = trim(h.user.as_str());
            if user.as_str().is_empty() {
                return Err(
                    SshError::Config(joined3("host '", name.as_str(), "': user is empty")),
                );
            }
            i = i + 1;
        }
        Ok(())
    }

    pub fn host(&self, name: &str) -> (r: Result<&Host>)
        ensures
            match r {
                Ok(h) => lookup(self.hosts@, name@) == Some(h@),
                Err(e) => lookup(self.hosts@, name@) is None && e is UnknownHost
                    && e->UnknownHost_0@ == name@,
            },
    {
        match self.hosts.get(name) {
            Some(h) => Ok(h),
            None => Err(SshError::UnknownHost(name.to_owned())),
        }
    }

    pub fn host_names(&self) -> (r: Vec<String>)
        ensures
            sorted(views(r@)),
            views(r@).to_multiset() == names_of(self.hosts@).to_multiset(),
            views(r@) == sorted_of(names_of(self.hosts@)),
            names_of(self.hosts@).no_duplicates(),
            views(r@).no_duplicates(),
    {
        proof {
            use_type_invariant(&self.hosts);
        }
        let ghost all = names_of(self.hosts@);
        let mut v: Vec<String> = Vec::new();
        let mut i: usize = 0;
        while i < self.hosts.len()
            invariant
                i <= self.hosts@.len(),
                all == names_of(self.hosts@),
                views(v@) == all.take(i as int),
            decreases self.hosts@.len() - i,
        {
            let name = self.hosts.name_at(i).clone();
            proof {
                lemma_views_push(v@, name);
                assert(all.take(i + 1) =~= all.take(i as int).push(all[i as int]));
            }
            v.push(name);
            i = i + 1;
        }
        assert(views(v@) =~= all);
        let r = sort_strings(v);
        proof {
            all.lemma_multiset_has_no_duplicates();
            views(r@).lemma_multiset_has_no_duplicates_conv();
        }
        r
    }

    /// Expands `~` and environment variables in every key path and in the path
    /// of the audit log.
    pub fn expand_paths(self, env: &ShellEnv) -> (r: Self)
        ensures
            r.hosts@.len() == self.hosts@.len(),
            forall|i: int|
                #![trigger r.hosts@[i]]
                0 <= i < self.hosts@.len() ==> r.hosts@[i].0 == self.hosts@[i].0
                    && host_becomes(self.hosts@[i].1, r.hosts@[i].1, env@),
            becomes(self.defaults.audit_log_path@, r.defaults.audit_log_path@, env@),
            r.defaults == (Defaults { audit_log_path: r.defaults.audit_log_path, ..self.defaults }),
    {
        let Config { defaults, hosts } = self;
        let ghost before = hosts@;
        proof {
            use_type_invariant(&hosts);
        }
        let mut out = Hosts::new();
        let mut i: usize = 0;
        while i < hosts.len()
            invariant
                i <= hosts@.len(),
                before == hosts@,
                names_of(before).no_duplicates(),
                out@.len() == i,
                forall|k: int|
                    #![trigger out@[k]]
                    0 <= k < i ==> out@[k].0 == before[k].0 && host_becomes(
                        before[k].1,
                        out@[k].1,
                        env@,
                    ),
            decreases hosts@.len() - i,
        {
            let h = clone_host(hosts.host_at(i));
            let name = hosts.name_at(i).clone();
            proof {
                lemma_index_of_name(out@, name@);
                let k = index_of_name(out@, name@);
                if k < out@.len() {
                    assert(out@[k].0 == before[k].0);
                    assert(names_of(before)[k] == names_of(before)[i as int]);
                }
            }
            out = out.insert(name, expanded_host(h, env));
            i = i + 1;
        }
        let Defaults {
            import_ssh_config,
            output,
            session_idle_timeout,
            audit_log,
            audit_log_path,
            audit_max_bytes,
            audit_keep_files,
            guards,
            keepalive,
            connect_timeout,
            truncate_bytes,
            max_capture_bytes,
            max_channels_per_host,
            max_connections_per_host,
            strict_host_key_checking,
            confirm_ttl,
            default_host,
        } = defaults;
        let audit_log_path = expanded_path(audit_log_path, env);
        let defaults = Defaults {
            import_ssh_config,
            output,
            session_idle_timeout,
            audit_log,
            audit_log_path,
            audit_max_bytes,
            audit_keep_files,
            guards,
            keepalive,
            connect_timeout,
            truncate_bytes,
            max_capture_bytes,
            max_channels_per_host,
            max_connections_per_host,
            strict_host_key_checking,
            confirm_ttl,
            default_host,
        };
        Config { defaults, hosts: out }
    }

    /// Best-effort import of ssh_config aliases: adds any non-wildcard host that
    /// names an address and is not already declared.
    pub fn merge_ssh_config(self, parsed: &SshConfig) -> (r: Self)
        ensures
            r.hosts@ == merged(self.hosts@, parsed@, aliases_of(parsed@)),
            r.defaults == self.defaults,
    {
        let Config { defaults, mut hosts } = self;
        let ghost before = hosts@;
        let aliases = parsed.list_aliases();
        let ghost all = aliases_of(parsed@);
        let mut i: usize = 0;
        while i < aliases.len()
            invariant
                i <= aliases@.len(),
                all == views(aliases@),
                hosts@ == merged(before, parsed@, all.take(i as int)),
            decreases aliases@.len() - i,
        {
            let alias = &aliases[i];
            proof {
                assert(all.take(i + 1).drop_last() =~= all.take(i as int));
                assert(all.take(i + 1).last() == alias@);
            }
            if !hosts.contains(alias.as_str()) {
                let resolved = parsed.query(alias.as_str());
                let ghost files = views(resolved.identity_files@);
                if let Some(addr) = resolved.host_name {
                    let user = match resolved.user {
                        Some(u) => u,
                        None => "root".to_owned(),
                    };
                    let port: u16 = match resolved.port {
                        Some(p) => p,
                        None => 22,
                    };
                    let key: Option<String> = if resolved.identity_files.len() > 0 {
                        Some(resolved.identity_files[0].clone())
                    } else {
                        None
                    };
                    let host = Host {
                        addr,
                        user,
                        port,
                        auth: if key.is_some() {
                            AuthMethod::Key
                        } else {
                            AuthMethod::Agent
                        },
                        key,
                        keys: None,
                        guards: None,
                        known_host_fingerprint: None,
                        proxy_jump: None,
                    };
                    assert(Some(host@) == imported_host(applying(parsed@, alias@)));
                    hosts = hosts.insert(alias.clone(), host);
                }
            }
            i = i + 1;
        }
        assert(all.take(i as int) =~= all);
        Config { defaults, hosts }
    }
}

fn clone_strings(v: &Vec<String>) -> (r: Vec<String>)
    ensures
        views(r@) == views(v@),
        r@.len() == v@.len(),
{
    let mut out: Vec<String> = Vec::new();
    let mut i: usize = 0;
    while i < v.len()
        invariant
            i <= v@.len(),
            out@.len() == i,
            forall|k: int| 0 <= k < i ==> out@[k]@ == v@[k]@,
        decreases v@.len() - i,
    {
        out.push(v[i].clone());
        i = i + 1;
    }
    assert(views(out@) =~= views(v@));
    out
}

fn clone_patterns(v: &Vec<NamedPattern>) -> (r: Vec<NamedPattern>)
    ensures
        named_views(r@) == named_views(v@),
{
    let mut out: Vec<NamedPattern> = Vec::new();
    let mut i: usize = 0;
    while i < v.len()
        invariant
            i <= v@.len(),
            out@.len() == i,
            forall|k: int|
                #![trigger out@[k]]
                0 <= k < i ==> out@[k].name@ == v@[k].name@ && out@[k].pattern@ == v@[k].pattern@,
        decreases v@.len() - i,
    {
        out.push(NamedPattern { name: v[i].name.clone(), pattern: v[i].pattern.clone() });
        i = i + 1;
    }
    assert(named_views(out@) =~= named_views(v@));
    out
}

fn clone_opt(s: &Option<String>) -> (r: Option<String>)
    ensures
        opt_view(r) == opt_view(*s),
{
    match s {
        Some(s) => Some(s.clone()),
        None => None,
    }
}

/// A copy of the guards.
pub fn clone_guards(g: &Guards) -> (r: Guards)
    ensures
        r@ == g@,
{
    Guards {
        use_default_deny: g.use_default_deny,
        use_default_confirm: g.use_default_confirm,
        deny: clone_patterns(&g.deny),
        confirm: clone_patterns(&g.confirm),
        read_only: g.read_only,
        local_read_allow: clone_strings(&g.local_read_allow),
        local_write_allow: clone_strings(&g.local_write_allow),
    }
}

/// A copy of a host.
pub fn clone_host(h: &Host) -> (r: Host)
    ensures
        r@ == h@,
{
    Host {
        addr: h.addr.clone(),
        user: h.user.clone(),
        port: h.port,
        auth: h.auth,
        key: clone_opt(&h.key),
        keys: match &h.keys {
            Some(k) => Some(clone_strings(k)),
            None => None,
        },
        guards: match &h.guards {
            Some(g) => Some(clone_guards(g)),
            None => None,
        },
        known_host_fingerprint: clone_opt(&h.known_host_fingerprint),
        proxy_jump: clone_opt(&h.proxy_jump),
    }
}

// ---------------------------------------------------------------------------
// Laws
// ---------------------------------------------------------------------------

proof fn lemma_digits_len(d: Seq<char>, rest: Seq<char>)
    requires
        all_digits(d),
        rest.len() > 0 ==> !is_digit(rest[0]),
    ensures
        digits_len(d + rest) == d.len(),
    decreases d.len(),
{
    let s = d + rest;
    if d.len() == 0 {
        assert(s =~= rest);
    } else {
        assert(is_digit(d[0]));
        assert(s.skip(1) =~= d.skip(1) + rest);
        assert forall|i: int| 0 <= i < d.skip(1).len() implies is_digit(#[trigger] d.skip(1)[i]) by {
            assert(d.skip(1)[i] == d[i + 1]);
        }
        lemma_digits_len(d.skip(1), rest);
    }
}

/// A duration is a number and a unit, which a blank may keep apart.
proof fn lemma_duration_parts(n: nat, unit: Seq<char>)
    requires
        n <= u64::MAX,
        unit.len() > 0 ==> 'a' <= unit[0] <= 'z' && 'a' <= unit.last() <= 'z',
    ensures
        duration_number(decimal(n) + unit) == Some(n),
        duration_unit(decimal(n) + unit) == unit,
        trimmed(decimal(n) + unit).len() > 0,
        unit.len() > 0 && unit_seconds(unit) is Some ==> duration_of(
            decimal(n) + seq![' '] + unit,
        ) == duration_of(decimal(n) + unit),
{
    let d = decimal(n);
    law_decimal_reads_back(n);
    law_white_space();
    let s = d + unit;
    assert(is_digit(d[0]) && is_digit(d.last()));
    assert(s[0] == d[0]);
    assert(s.last() == if unit.len() > 0 {
        unit.last()
    } else {
        d.last()
    });
    assert(trimmed(s) == s);
    lemma_digits_len(d, unit);
    assert(s.take(d.len() as int) =~= d);
    assert(s.skip(d.len() as int) =~= unit);
    assert(trimmed(unit) =~= unit) by {
        if unit.len() == 0 {
            assert(trimmed_start(unit) == unit);
        }
    }
    assert(d[0] != '+');
    if unit.len() > 0 {
        let gap = seq![' '] + unit;
        let w = d + seq![' '] + unit;
        assert(w =~= d + gap);
        assert(w[0] == d[0] && w.last() == unit.last());
        assert(trimmed(w) == w);
        lemma_digits_len(d, gap);
        assert(w.take(d.len() as int) =~= d);
        assert(w.skip(d.len() as int) =~= gap);
        assert(gap.drop_first() =~= unit);
        assert(trimmed_start(gap) == unit);
        assert(trimmed(gap) == unit);
        assert(duration_number(w) == Some(n));
        assert(duration_unit(w) == unit);
    }
}

/// A duration is as long as its unit says: seconds, where there is none.
pub proof fn law_duration_units(n: nat)
    requires
        n * 86400 <= u64::MAX,
    ensures
        duration_of(decimal(n)) == core::result::Result::<HumanDuration, Seq<char>>::Ok(
            (HumanDuration { secs: n as u64, millis: 0 }),
        ),
        duration_of(decimal(n) + "s"@) == core::result::Result::<HumanDuration, Seq<char>>::Ok(
            (HumanDuration { secs: n as u64, millis: 0 }),
        ),
        duration_of(decimal(n) + "m"@) == core::result::Result::<HumanDuration, Seq<char>>::Ok(
            (HumanDuration { secs: (n * 60) as u64, millis: 0 }),
        ),
        duration_of(decimal(n) + "h"@) == core::result::Result::<HumanDuration, Seq<char>>::Ok(
            (HumanDuration { secs: (n * 3600) as u64, millis: 0 }),
        ),
        duration_of(decimal(n) + "d"@) == core::result::Result::<HumanDuration, Seq<char>>::Ok(
            (HumanDuration { secs: (n * 86400) as u64, millis: 0 }),
        ),
        duration_of(decimal(n) + "ms"@) == core::result::Result::<HumanDuration, Seq<char>>::Ok(
            (HumanDuration { secs: (n / 1000) as u64, millis: (n % 1000) as u16 }),
        ),
{
    reveal_strlit("");
    reveal_strlit("s");
    reveal_strlit("sec");
    reveal_strlit("secs");
    reveal_strlit("ms");
    reveal_strlit("m");
    reveal_strlit("min");
    reveal_strlit("mins");
    reveal_strlit("h");
    reveal_strlit("hr");
    reveal_strlit("hrs");
    reveal_strlit("d");
    let none = Seq::<char>::empty();
    assert(""@ =~= none);
    assert(decimal(n) + none =~= decimal(n));
    lemma_duration_parts(n, none);
    lemma_duration_parts(n, "s"@);
    lemma_duration_parts(n, "m"@);
    lemma_duration_parts(n, "h"@);
    lemma_duration_parts(n, "d"@);
    lemma_duration_parts(n, "ms"@);
    assert("m"@.len() == 1 && "ms"@.len() == 2 && "h"@.len() == 1 && "d"@.len() == 1 && "s"@.len()
        == 1);
    assert("m"@[0] == 'm' && "s"@[0] == 's' && "h"@[0] == 'h' && "d"@[0] == 'd');
}

/// A host is found under its name, and nothing is found under any other.
pub proof fn law_lookup_finds_each(v: Seq<(Seq<char>, HostView)>, name: Seq<char>)
    ensures
        lookup(v, name) is None <==> !names_of(v).contains(name),
        names_of(v).no_duplicates() ==> forall|i: int|
            0 <= i < v.len() && (#[trigger] v[i]).0 == name ==> lookup(v, name) == Some(v[i].1),
{
    lemma_index_of_name(v, name);
    let at = index_of_name(v, name);
    if names_of(v).contains(name) {
        let k = choose|k: int| 0 <= k < v.len() && names_of(v)[k] == name;
        assert(v[k].0 == name);
    }
    if at < v.len() {
        assert(names_of(v)[at] == name);
    }
    if names_of(v).no_duplicates() {
        assert forall|i: int| 0 <= i < v.len() && (#[trigger] v[i]).0 == name implies lookup(v, name)
            == Some(v[i].1) by {
            assert(names_of(v)[i] == names_of(v)[at]);
        }
    }
}

proof fn lemma_merged_lookup(
    v: Seq<(Seq<char>, HostView)>,
    blocks: Seq<BlockView>,
    aliases: Seq<Seq<char>>,
    name: Seq<char>,
)
    ensures
        lookup(merged(v, blocks, aliases), name) == (if lookup(v, name) is Some {
            lookup(v, name)
        } else if aliases.contains(name) {
            imported_host(applying(blocks, name))
        } else {
            None
        }),
    decreases aliases.len(),
{
    if aliases.len() > 0 {
        let less = aliases.drop_last();
        let alias = aliases.last();
        let before = merged(v, blocks, less);
        lemma_merged_lookup(v, blocks, less, name);
        assert(aliases.contains(name) <==> less.contains(name) || alias == name) by {
            if less.contains(name) {
                let k = choose|k: int| 0 <= k < less.len() && less[k] == name;
                assert(aliases[k] == name);
            }
            if aliases.contains(name) {
                let k = choose|k: int| 0 <= k < aliases.len() && aliases[k] == name;
                if k < less.len() {
                    assert(less[k] == name);
                }
            }
            assert(aliases[aliases.len() - 1] == alias);
        }
        if let Some(h) = imported_host(applying(blocks, alias)) {
            law_declared_host_is_found(before, alias, h, name);
        }
    }
}

/// Importing adds each alias that names an address and was not declared: with
/// that address, with the user, port and first identity file that apply to it,
/// and with the defaults of OpenSSH and of this program where none does. Nothing
/// else is added.
pub proof fn law_import_adds_each_alias(
    v: Seq<(Seq<char>, HostView)>,
    blocks: Seq<BlockView>,
    aliases: Seq<Seq<char>>,
    name: Seq<char>,
)
    requires
        lookup(v, name) is None,
    ensures
        ({
            let found = lookup(merged(v, blocks, aliases), name);
            let entries = applying(blocks, name);
            let addr = first_value(entries, "hostname"@);
            let user = first_value(entries, "user"@);
            let port = port_of(first_value(entries, "port"@));
            let files = crate::ssh_config::all_values(entries, "identityfile"@);
            &&& found is Some <==> aliases.contains(name) && addr is Some
            &&& found is Some ==> {
                let h = found->0;
                &&& h.addr == addr->0
                &&& user is Some ==> h.user == user->0
                &&& user is None ==> h.user == "root"@
                &&& port is Some ==> h.port == port->0
                &&& port is None ==> h.port == 22
                &&& files.len() > 0 ==> h.auth == AuthMethod::Key && h.key == Some(files[0])
                &&& files.len() == 0 ==> h.auth == AuthMethod::Agent && h.key is None
                &&& h.keys is None && h.guards is None && h.known_host_fingerprint is None
                &&& h.proxy_jump is None
            }
        }),
{
    lemma_merged_lookup(v, blocks, aliases, name);
}

proof fn lemma_hosts_fault(v: Seq<(Seq<char>, HostView)>)
    ensures
        hosts_fault(v) is None <==> forall|i: int|
            0 <= i < v.len() ==> host_fault((#[trigger] v[i]).0, v[i].1) is None,
    decreases v.len(),
{
    if v.len() > 0 {
        let rest = v.skip(1);
        lemma_hosts_fault(rest);
        if host_fault(v[0].0, v[0].1) is None {
            if hosts_fault(rest) is None {
                assert forall|i: int| 0 <= i < v.len() implies host_fault(
                    (#[trigger] v[i]).0,
                    v[i].1,
                ) is None by {
                    if i > 0 {
                        assert(rest[i - 1] == v[i]);
                    }
                }
            } else {
                let i = choose|i: int|
                    0 <= i < rest.len() && !(host_fault((#[trigger] rest[i]).0, rest[i].1) is None);
                assert(v[i + 1] == rest[i]);
            }
        }
    }
}

/// A configuration is accepted exactly where its default host is declared, where
/// it has one, and every host has an address, a user and, if it logs in by key, a
/// key.
pub proof fn law_configuration_is_accepted(
    default_host: Option<Seq<char>>,
    v: Seq<(Seq<char>, HostView)>,
)
    ensures
        config_fault(default_host, v) is None <==> {
            &&& default_host is Some ==> lookup(v, default_host->0) is Some
            &&& forall|i: int|
                0 <= i < v.len() ==> {
                    &&& trimmed((#[trigger] v[i]).1.addr).len() > 0
                    &&& trimmed(v[i].1.user).len() > 0
                    &&& v[i].1.auth == AuthMethod::Key ==> v[i].1.key is Some || (v[i].1.keys is Some
                        && v[i].1.keys->0.len() > 0)
                }
        },
{
    lemma_hosts_fault(v);
    assert forall|i: int| 0 <= i < v.len() implies (host_fault((#[trigger] v[i]).0, v[i].1) is None
        <==> {
        &&& trimmed(v[i].1.addr).len() > 0
        &&& trimmed(v[i].1.user).len() > 0
        &&& v[i].1.auth == AuthMethod::Key ==> v[i].1.key is Some || (v[i].1.keys is Some
            && v[i].1.keys->0.len() > 0)
    }) by {
        law_keys_are_distinct(v[i].1, false);
    }
}

proof fn lemma_extended_holds(
    list: Seq<Seq<char>>,
    more: Seq<Seq<char>>,
    windows: bool,
    p: Seq<char>,
)
    ensures
        holds_path(extended(list, more, windows), p, windows) <==> holds_path(list, p, windows)
            || holds_path(more, p, windows),
    decreases more.len(),
{
    if more.len() == 0 {
        assert(!holds_path(more, p, windows));
    } else {
        let less = more.drop_last();
        let last = more.last();
        let before = extended(list, less, windows);
        let after = extended(list, more, windows);
        lemma_extended_holds(list, less, windows, p);
        if holds_path(more, p, windows) {
            let i = choose|i: int| 0 <= i < more.len() && same_path(#[trigger] more[i], p, windows);
            if i < less.len() {
                assert(same_path(less[i], p, windows));
            } else if holds_path(before, last, windows) {
                let k = choose|k: int|
                    0 <= k < before.len() && same_path(#[trigger] before[k], last, windows);
                assert(same_path(before[k], p, windows));
            } else {
                assert(same_path(after[after.len() - 1], p, windows));
            }
        }
        if holds_path(less, p, windows) {
            let i = choose|i: int| 0 <= i < less.len() && same_path(#[trigger] less[i], p, windows);
            assert(same_path(more[i], p, windows));
        }
        if holds_path(before, p, windows) {
            let k = choose|k: int|
                0 <= k < before.len() && same_path(#[trigger] before[k], p, windows);
            assert(after[k] == before[k]);
        }
        if holds_path(after, p, windows) {
            let k = choose|k: int|
                0 <= k < after.len() && same_path(#[trigger] after[k], p, windows);
            if k < before.len() {
                assert(same_path(before[k], p, windows));
            } else {
                assert(same_path(more[more.len() - 1], p, windows));
            }
        }
    }
}

/// Every key that a host names is tried, and no other.
pub proof fn law_every_key_is_tried(h: HostView, windows: bool, p: Seq<char>)
    ensures
        holds_path(keys_of(h, windows), p, windows) <==> (h.key is Some && same_path(
            h.key->0,
            p,
            windows,
        )) || (h.keys is Some && holds_path(h.keys->0, p, windows)),
{
    let first = match h.key {
        Some(k) => seq![k],
        None => Seq::empty(),
    };
    if h.key is Some && same_path(h.key->0, p, windows) {
        assert(same_path(first[0], p, windows));
    }
    if h.keys is Some {
        lemma_extended_holds(first, h.keys->0, windows, p);
    }
}

/// A variable has the first value that it is set to, and on Windows a name is the
/// same in capitals and in small letters.
pub proof fn law_first_setting_of_a_variable_counts(
    vars: Seq<(Seq<char>, Seq<char>)>,
    name: Seq<char>,
    windows: bool,
    i: int,
)
    requires
        0 <= i < vars.len(),
        vars[i].0 == name || windows && lower(vars[i].0) == lower(name),
        forall|k: int|
            0 <= k < i ==> (#[trigger] vars[k]).0 != name && (windows ==> lower(vars[k].0) != lower(
                name,
            )),
    ensures
        var_value(vars, name, windows) == Some(vars[i].1),
    decreases i,
{
    if i > 0 {
        let rest = vars.skip(1);
        assert(vars[0].0 != name);
        assert forall|k: int| 0 <= k < i - 1 implies (#[trigger] rest[k]).0 != name && (windows
            ==> lower(rest[k].0) != lower(name)) by {
            assert(rest[k] == vars[k + 1]);
        }
        law_first_setting_of_a_variable_counts(rest, name, windows, i - 1);
    }
}

/// A variable that nothing sets has no value.
pub proof fn law_unset_variable_has_no_value(
    vars: Seq<(Seq<char>, Seq<char>)>,
    name: Seq<char>,
    windows: bool,
)
    requires
        forall|k: int|
            0 <= k < vars.len() ==> (#[trigger] vars[k]).0 != name && (windows ==> lower(vars[k].0)
                != lower(name)),
    ensures
        var_value(vars, name, windows) is None,
    decreases vars.len(),
{
    if vars.len() > 0 {
        let rest = vars.skip(1);
        assert(vars[0].0 != name);
        assert forall|k: int| 0 <= k < rest.len() implies (#[trigger] rest[k]).0 != name && (windows
            ==> lower(rest[k].0) != lower(name)) by {
            assert(rest[k] == vars[k + 1]);
        }
        law_unset_variable_has_no_value(rest, name, windows);
    }
}

/// The configuration lies where the environment says; else it lies directly below
/// the home directory.
pub proof fn law_configuration_directory(named: Seq<char>, home: Seq<char>)
    requires
        home.len() > 0,
        home.last() != '/',
    ensures
        config_dir_text(Some(named), Some(home)) == named,
        config_dir_text(Some(named), None) == named,
        config_dir_text(None, Some(home)) == home + "/.fast-mcp-ssh"@,
{
    reveal_strlit("/.fast-mcp-ssh");
    reveal_strlit(".fast-mcp-ssh");
    reveal_strlit("/");
    assert(home + "/"@ + ".fast-mcp-ssh"@ =~= home + "/.fast-mcp-ssh"@);
}

} // verus!

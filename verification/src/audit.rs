//! The audit log: what is written of a call, without the credentials in it, and
//! when the file is rotated.

use vstd::prelude::*;

use crate::errors::{Result, SshError};
use crate::guards::pattern::{regex_fault, regex_finds};
use crate::json::{json_string, json_text, law_json_text_is_one_line};
use crate::ssh_config::opt_view;
use crate::text::{
    decimal, digit, has_part, has_prefix, joined2, law_decimal_reads_back, lemma_has_part,
    push_decimal, push_decimal_wide, push_signed, signed_decimal, views,
};

verus! {

/// How many entries wait for the writer at most.
pub const AUDIT_QUEUE_CAP: usize = 1024;

/// How many entries are written at once.
pub const AUDIT_BATCH: usize = 32;

/// Size-based rotation policy. Enforced on the writer task, never on a tool
/// call: rotation renames and reopens files.
#[derive(Debug, Clone, Copy, PartialEq, Eq, Structural)]
pub struct AuditRotation {
    /// Rotate once the live file crosses this size. `0` disables rotation.
    pub max_bytes: u64,
    /// Generations of `audit.log.N` to keep. `0` discards on rotate.
    pub keep_files: usize,
}

impl Default for AuditRotation {
    fn default() -> (r: Self)
        ensures
            r == (AuditRotation { max_bytes: 16777216, keep_files: 5 }),
    {
        Self { max_bytes: 16777216, keep_files: 5 }
    }
}

/// One step of a rotation.
#[derive(Debug, Clone)]
pub enum RotateStep {
    Remove { path: String },
    Rename { from: String, to: String },
}

/// The mathematical content of a step.
pub enum RotateView {
    Remove(Seq<char>),
    Rename(Seq<char>, Seq<char>),
}

impl View for RotateStep {
    type V = RotateView;

    open spec fn view(&self) -> RotateView {
        match self {
            RotateStep::Remove { path } => RotateView::Remove(path@),
            RotateStep::Rename { from, to } => RotateView::Rename(from@, to@),
        }
    }
}

pub open spec fn step_views(s: Seq<RotateStep>) -> Seq<RotateView> {
    Seq::new(s.len(), |i: int| s[i]@)
}

/// The name of a generation; the live file is generation zero.
pub open spec fn generation(path: Seq<char>, n: nat) -> Seq<char> {
    if n == 0 {
        path
    } else {
        path + "."@ + decimal(n)
    }
}

/// The steps that move each of the first `n` generations one on, the oldest
/// first.
pub open spec fn shift_steps(path: Seq<char>, n: nat) -> Seq<RotateView>
    decreases n,
{
    if n == 0 {
        Seq::empty()
    } else {
        seq![
            RotateView::Rename(
                generation(path, (n - 1) as nat),
                generation(path, n),
            ),
        ] + shift_steps(path, (n - 1) as nat)
    }
}

/// The steps of a rotation.
pub open spec fn rotation_steps(path: Seq<char>, keep: nat) -> Seq<RotateView> {
    if keep == 0 {
        seq![RotateView::Remove(path)]
    } else {
        shift_steps(path, keep)
    }
}

fn generation_name(path: &str, n: usize) -> (r: String)
    ensures
        r@ == generation(path@, n as nat),
{
    if n == 0 {
        path.to_owned()
    } else {
        let mut s = joined2(path, ".");
        push_decimal(&mut s, n as u64);
        s
    }
}

impl AuditRotation {
    /// Whether a live file of this size is rotated.
    pub fn is_due(&self, size: u64) -> (r: bool)
        ensures
            r == (self.max_bytes > 0 && size > self.max_bytes),
    {
        self.max_bytes > 0 && size > self.max_bytes
    }

    /// What a rotation does, in order. The oldest generation is replaced by the
    /// one before it.
    pub fn plan(&self, path: &str) -> (r: Vec<RotateStep>)
        ensures
            step_views(r@) == rotation_steps(path@, self.keep_files as nat),
    {
        let mut out: Vec<RotateStep> = Vec::new();
        if self.keep_files == 0 {
            out.push(RotateStep::Remove { path: path.to_owned() });
            assert(step_views(out@) =~= rotation_steps(path@, 0));
            return out;
        }
        let ghost all = shift_steps(path@, self.keep_files as nat);
        let mut n: usize = self.keep_files;
        assert(step_views(out@) + all =~= all);
        while n > 0
            invariant
                step_views(out@) + shift_steps(path@, n as nat) == all,
            decreases n,
        {
            let ghost before = step_views(out@);
            let step = RotateStep::Rename {
                from: generation_name(path, n - 1),
                to: generation_name(path, n),
            };
            out.push(step);
            proof {
                assert(step_views(out@) =~= before.push(step@));
                assert(before + shift_steps(path@, n as nat) =~= before.push(step@) + shift_steps(
                    path@,
                    (n - 1) as nat,
                ));
            }
            n = n - 1;
        }
        assert(step_views(out@) =~= all);
        out
    }
}

/// A rotation renames each kept generation to the next name, oldest first, so
/// that nothing is overwritten but the oldest.
pub proof fn law_rotation_moves_oldest_first(path: Seq<char>, keep: nat, i: int)
    requires
        0 <= i < keep,
    ensures
        rotation_steps(path, keep).len() == keep,
        rotation_steps(path, keep)[i] == RotateView::Rename(
            generation(path, (keep - i - 1) as nat),
            generation(path, (keep - i) as nat),
        ),
    decreases keep,
{
    lemma_shift_len(path, keep);
    if i > 0 {
        law_rotation_moves_oldest_first(path, (keep - 1) as nat, i - 1);
        assert(shift_steps(path, keep)[i] == shift_steps(path, (keep - 1) as nat)[i - 1]);
    }
}

proof fn lemma_shift_len(path: Seq<char>, n: nat)
    ensures
        shift_steps(path, n).len() == n,
    decreases n,
{
    if n > 0 {
        lemma_shift_len(path, (n - 1) as nat);
    }
}

// ---------------------------------------------------------------------------
// Credentials
// ---------------------------------------------------------------------------

/// The common shapes of inline credentials: attached password flags, long flags
/// and assignments, HTTP authorization headers, and upper-case secrets of cloud,
/// version control and other services.
pub const CREDENTIALS: &'static str = r#"(?ix)
            (?:
                -p[^\s'"]{1,256}
              | --(?:password|token|secret|api[-_]?key)[=\s]\S+
              | (?:password|token|secret|api[-_]?key)=\S+
              | Bearer\s+\S+
              | Authorization:[^'"\n]*
              | (?:AWS|GCP|AZURE|GITHUB|GITLAB|VAULT|STRIPE|TWILIO|SLACK|HF)_[A-Z0-9_]*(?:TOKEN|KEY|SECRET|PASSWORD|PASS)\s*=\s*\S+
            )"#;

/// What `regex::Regex::replace_all` makes of a text.
pub uninterp spec fn regex_replaced(
    pattern: Seq<char>,
    text: Seq<char>,
    replacement: Seq<char>,
) -> Seq<char>;

/// `regex::Regex::new` and `regex::Regex::replace_all`. The text that comes out
/// is named; where the expression finds nothing, it is the text that went in.
#[verifier::external_body]
fn replace_all(pattern: &str, text: &str, replacement: &str) -> (r: core::result::Result<
    String,
    String,
>)
    ensures
        match r {
            Ok(s) => {
                &&& regex_fault(pattern@) is None
                &&& s@ == regex_replaced(pattern@, text@, replacement@)
                &&& !regex_finds(pattern@, text@) ==> s@ == text@
            },
            Err(e) => regex_fault(pattern@) == Some(e@),
        },
{
    match regex::Regex::new(pattern) {
        Ok(re) => Ok(re.replace_all(text, replacement).into_owned()),
        Err(e) => Err(e.to_string()),
    }
}

/// A text without the credentials in it.
pub open spec fn scrubbed(s: Seq<char>) -> Seq<char> {
    regex_replaced(CREDENTIALS@, s, "[REDACTED]"@)
}

/// Replace inline credentials in a command string with `[REDACTED]`. Best-effort:
/// covers the common shapes (`mysql -p<pw>`, `--password=`, `Bearer xxx`,
/// `AWS_*=...`, `GITHUB_TOKEN=...`, `Authorization: ...`). Not a sandbox.
pub fn scrub_credentials(s: &str) -> (r: Result<String>)
    ensures
        match r {
            Ok(t) => {
                &&& regex_fault(CREDENTIALS@) is None
                &&& t@ == scrubbed(s@)
                &&& !regex_finds(CREDENTIALS@, s@) ==> t@ == s@
            },
            Err(e) => e is Regex && regex_fault(CREDENTIALS@) == Some(e->Regex_0@),
        },
{
    match replace_all(CREDENTIALS, s, "[REDACTED]") {
        Ok(t) => Ok(t),
        Err(e) => Err(SshError::Regex(e)),
    }
}

// ---------------------------------------------------------------------------
// Entries
// ---------------------------------------------------------------------------

/// What is known of a call when it is logged.
#[derive(Debug, Clone)]
pub struct AuditRecord {
    pub cmd: Option<String>,
    pub exit_code: Option<i32>,
    pub duration_ms: Option<u128>,
    pub bytes_in: Option<usize>,
    pub bytes_out: Option<usize>,
    pub blocked: Option<String>,
    pub error: Option<String>,
}

#[verifier::ext_equal]
pub struct RecordView {
    pub cmd: Option<Seq<char>>,
    pub exit_code: Option<i32>,
    pub duration_ms: Option<u128>,
    pub bytes_in: Option<usize>,
    pub bytes_out: Option<usize>,
    pub blocked: Option<Seq<char>>,
    pub error: Option<Seq<char>>,
}

impl View for AuditRecord {
    type V = RecordView;

    open spec fn view(&self) -> RecordView {
        RecordView {
            cmd: opt_view(self.cmd),
            exit_code: self.exit_code,
            duration_ms: self.duration_ms,
            bytes_in: self.bytes_in,
            bytes_out: self.bytes_out,
            blocked: opt_view(self.blocked),
            error: opt_view(self.error),
        }
    }
}

/// A record that says nothing.
pub open spec fn blank() -> RecordView {
    RecordView {
        cmd: None,
        exit_code: None,
        duration_ms: None,
        bytes_in: None,
        bytes_out: None,
        blocked: None,
        error: None,
    }
}

impl AuditRecord {
    /// A call of which nothing but the host and the tool is logged.
    pub fn empty() -> (r: Self)
        ensures
            r@ == blank(),
    {
        AuditRecord {
            cmd: None,
            exit_code: None,
            duration_ms: None,
            bytes_in: None,
            bytes_out: None,
            blocked: None,
            error: None,
        }
    }

    /// A call of which only the command or path is logged.
    pub fn cmd(cmd: &str) -> (r: Self)
        ensures
            r@ == (RecordView { cmd: Some(cmd@), ..blank() }),
    {
        let mut r = AuditRecord::empty();
        r.cmd = Some(cmd.to_owned());
        r
    }

    /// A call that was refused.
    pub fn blocked(cmd: &str, why: &str) -> (r: Self)
        ensures
            r@ == (RecordView { cmd: Some(cmd@), blocked: Some(why@), ..blank() }),
    {
        let mut r = AuditRecord::cmd(cmd);
        r.blocked = Some(why.to_owned());
        r
    }

    /// A call that failed.
    pub fn failed(cmd: &str, error: &str) -> (r: Self)
        ensures
            r@ == (RecordView { cmd: Some(cmd@), error: Some(error@), ..blank() }),
    {
        let mut r = AuditRecord::cmd(cmd);
        r.error = Some(error.to_owned());
        r
    }

    /// A file that may not be written on this machine: refused, and failed for
    /// the same reason.
    pub fn blocked_here(path: &str, why: &str) -> (r: Self)
        ensures
            r@ == (RecordView {
                cmd: Some(path@),
                blocked: Some(why@),
                error: Some(why@),
                ..blank()
            }),
    {
        let mut r = AuditRecord::blocked(path, why);
        r.error = Some(why.to_owned());
        r
    }

    /// A call that failed and is about no command or path.
    pub fn error(error: &str) -> (r: Self)
        ensures
            r@ == (RecordView { error: Some(error@), ..blank() }),
    {
        let mut r = AuditRecord::empty();
        r.error = Some(error.to_owned());
        r
    }

    /// A command that ran.
    pub fn ran(cmd: &str, exit_code: i32, bytes_out: usize) -> (r: Self)
        ensures
            r@ == (RecordView {
                cmd: Some(cmd@),
                exit_code: Some(exit_code),
                bytes_out: Some(bytes_out),
                ..blank()
            }),
    {
        let mut r = AuditRecord::cmd(cmd);
        r.exit_code = Some(exit_code);
        r.bytes_out = Some(bytes_out);
        r
    }

    /// A file that came from a host.
    pub fn received(path: &str, duration_ms: u128, bytes: usize) -> (r: Self)
        ensures
            r@ == (RecordView {
                cmd: Some(path@),
                duration_ms: Some(duration_ms),
                bytes_out: Some(bytes),
                ..blank()
            }),
    {
        let mut r = AuditRecord::cmd(path);
        r.duration_ms = Some(duration_ms);
        r.bytes_out = Some(bytes);
        r
    }

    /// A file that went to a host.
    pub fn sent(path: &str, duration_ms: u128, bytes: usize) -> (r: Self)
        ensures
            r@ == (RecordView {
                cmd: Some(path@),
                duration_ms: Some(duration_ms),
                bytes_in: Some(bytes),
                ..blank()
            }),
    {
        let mut r = AuditRecord::cmd(path);
        r.duration_ms = Some(duration_ms);
        r.bytes_in = Some(bytes);
        r
    }

    /// The same call, with how long it took.
    pub fn took(self, duration_ms: u128) -> (r: Self)
        ensures
            r@ == (RecordView { duration_ms: Some(duration_ms), ..self@ }),
    {
        let mut r = self;
        r.duration_ms = Some(duration_ms);
        r
    }
}

/// `time::OffsetDateTime`'s RFC 3339 text of a number of nanoseconds since the
/// epoch; nothing where the date is out of range.
pub uninterp spec fn rfc3339_of(nanos: int) -> Option<Seq<char>>;

/// `time::OffsetDateTime::from_unix_timestamp_nanos` and `format` with
/// `time::format_description::well_known::Rfc3339`. The result is named.
#[verifier::external_body]
pub(crate) fn rfc3339(nanos: i128) -> (r: Option<String>)
    ensures
        match r {
            Some(s) => rfc3339_of(nanos as int) == Some(s@),
            None => rfc3339_of(nanos as int) is None,
        },
{
    let at = time::OffsetDateTime::from_unix_timestamp_nanos(nanos).ok()?;
    at.format(&time::format_description::well_known::Rfc3339).ok()
}

/// A JSON value that may be missing.
pub open spec fn or_null(value: Option<Seq<char>>) -> Seq<char> {
    match value {
        Some(v) => v,
        None => "null"@,
    }
}

/// A text as JSON, without the credentials in it; `null` where there is none.
pub open spec fn scrubbed_json(s: Option<Seq<char>>) -> Seq<char> {
    or_null(
        match s {
            Some(s) => Some(json_text(scrubbed(s))),
            None => None,
        },
    )
}

/// A text as JSON; `null` where there is none.
pub open spec fn text_json(s: Option<Seq<char>>) -> Seq<char> {
    or_null(
        match s {
            Some(s) => Some(json_text(s)),
            None => None,
        },
    )
}

/// A number as JSON; `null` where there is none.
pub open spec fn number_json(n: Option<int>) -> Seq<char> {
    or_null(
        match n {
            Some(n) => Some(signed_decimal(n)),
            None => None,
        },
    )
}

/// The numbers of a record.
pub open spec fn exit_number(r: AuditRecord) -> Option<int> {
    match r.exit_code {
        Some(n) => Some(n as int),
        None => None,
    }
}

pub open spec fn duration_number(r: AuditRecord) -> Option<int> {
    match r.duration_ms {
        Some(n) => Some(n as int),
        None => None,
    }
}

pub open spec fn size_number(n: Option<usize>) -> Option<int> {
    match n {
        Some(n) => Some(n as int),
        None => None,
    }
}

/// The line that a call leaves in the log: one JSON object, and a line feed.
/// Credentials are scrubbed from the command and from the error.
pub open spec fn entry_line(
    ts: Seq<char>,
    host: Seq<char>,
    tool: Seq<char>,
    r: AuditRecord,
) -> Seq<char> {
    "{\"ts\":"@ + json_text(ts) + ",\"host\":"@ + json_text(host) + ",\"tool\":"@ + json_text(tool)
        + ",\"cmd\":"@ + scrubbed_json(opt_view(r.cmd)) + ",\"exit_code\":"@ + number_json(
        exit_number(r),
    ) + ",\"duration_ms\":"@ + number_json(duration_number(r)) + ",\"bytes_in\":"@ + number_json(
        size_number(r.bytes_in),
    ) + ",\"bytes_out\":"@ + number_json(size_number(r.bytes_out)) + ",\"blocked\":"@ + text_json(
        opt_view(r.blocked),
    ) + ",\"error\":"@ + scrubbed_json(opt_view(r.error)) + "}\n"@
}

/// The time stamp of an entry; empty where the clock is out of range.
pub open spec fn stamp(nanos: int) -> Seq<char> {
    match rfc3339_of(nanos) {
        Some(s) => s,
        None => Seq::empty(),
    }
}

fn push_scrubbed(buf: &mut String, s: &Option<String>) -> (r: Result<()>)
    ensures
        match r {
            Ok(_) => final(buf)@ == old(buf)@ + scrubbed_json(opt_view(*s)),
            Err(e) => e is Regex && regex_fault(CREDENTIALS@) == Some(e->Regex_0@),
        },
{
    match s {
        None => {
            buf.push_str("null");
            Ok(())
        },
        Some(s) => match scrub_credentials(s.as_str()) {
            Ok(t) => {
                buf.push_str(json_string(t.as_str()).as_str());
                Ok(())
            },
            Err(e) => Err(e),
        },
    }
}

fn push_text(buf: &mut String, s: &Option<String>)
    ensures
        final(buf)@ == old(buf)@ + text_json(opt_view(*s)),
{
    match s {
        None => buf.push_str("null"),
        Some(s) => buf.push_str(json_string(s.as_str()).as_str()),
    }
}

fn push_size(buf: &mut String, n: Option<usize>)
    ensures
        final(buf)@ == old(buf)@ + number_json(size_number(n)),
{
    match n {
        None => buf.push_str("null"),
        Some(n) => push_decimal(buf, n as u64),
    }
}

/// Appends the line of a call to `buf`. Where the credentials cannot be
/// scrubbed, nothing is appended.
fn push_entry(buf: &mut String, ts: &str, host: &str, tool: &str, record: &AuditRecord) -> (r:
    Result<()>)
    ensures
        match r {
            Ok(_) => final(buf)@ == old(buf)@ + entry_line(ts@, host@, tool@, *record),
            Err(e) => e is Regex && regex_fault(CREDENTIALS@) == Some(e->Regex_0@) && final(buf)@
                == old(buf)@,
        },
{
    let mut line = "{\"ts\":".to_owned();
    line.push_str(json_string(ts).as_str());
    line.push_str(",\"host\":");
    line.push_str(json_string(host).as_str());
    line.push_str(",\"tool\":");
    line.push_str(json_string(tool).as_str());
    line.push_str(",\"cmd\":");
    if let Err(e) = push_scrubbed(&mut line, &record.cmd) {
        return Err(e);
    }
    line.push_str(",\"exit_code\":");
    match record.exit_code {
        None => line.push_str("null"),
        Some(n) => push_signed(&mut line, n as i64),
    }
    line.push_str(",\"duration_ms\":");
    match record.duration_ms {
        None => line.push_str("null"),
        Some(n) => push_decimal_wide(&mut line, n),
    }
    line.push_str(",\"bytes_in\":");
    push_size(&mut line, record.bytes_in);
    line.push_str(",\"bytes_out\":");
    push_size(&mut line, record.bytes_out);
    line.push_str(",\"blocked\":");
    push_text(&mut line, &record.blocked);
    line.push_str(",\"error\":");
    if let Err(e) = push_scrubbed(&mut line, &record.error) {
        return Err(e);
    }
    line.push_str("}\n");
    buf.push_str(line.as_str());
    Ok(())
}

/// The line that a call leaves in the log. `nanos` is the time since the epoch.
pub fn audit_line(nanos: i128, host: &str, tool: &str, record: &AuditRecord) -> (r: Result<String>)
    ensures
        match r {
            Ok(s) => s@ == entry_line(stamp(nanos as int), host@, tool@, *record),
            Err(e) => e is Regex && regex_fault(CREDENTIALS@) == Some(e->Regex_0@),
        },
{
    let ts = match rfc3339(nanos) {
        Some(s) => s,
        None => String::new(),
    };
    assert(ts@ =~= stamp(nanos as int));
    let mut s = String::new();
    match push_entry(&mut s, ts.as_str(), host, tool, record) {
        Ok(_) => {
            assert(s@ =~= entry_line(ts@, host@, tool@, *record));
            Ok(s)
        },
        Err(e) => Err(e),
    }
}

/// No control character is in it.
pub open spec fn printable(s: Seq<char>) -> bool {
    forall|i: int| 0 <= i < s.len() ==> (#[trigger] s[i]) as u32 >= 32
}

proof fn lemma_printable_add(a: Seq<char>, b: Seq<char>)
    requires
        printable(a),
        printable(b),
    ensures
        printable(a + b),
{
    assert forall|i: int| 0 <= i < (a + b).len() implies (#[trigger] (a + b)[i]) as u32 >= 32 by {
        if i < a.len() {
            assert((a + b)[i] == a[i]);
        } else {
            assert((a + b)[i] == b[i - a.len()]);
        }
    }
}

proof fn lemma_decimal_printable(n: nat)
    ensures
        printable(decimal(n)),
    decreases n,
{
    if n >= 10 {
        lemma_decimal_printable(n / 10);
        let a = decimal(n / 10);
        let d = digit(n % 10);
        assert forall|i: int| 0 <= i < decimal(n).len() implies (#[trigger] decimal(n)[i]) as u32
            >= 32 by {
            if i < a.len() {
                assert(decimal(n)[i] == a[i]);
            } else {
                assert(decimal(n)[i] == d);
            }
        }
    }
}

proof fn lemma_field_printable(s: Option<Seq<char>>, n: Option<int>)
    ensures
        printable(text_json(s)),
        printable(scrubbed_json(s)),
        printable(number_json(n)),
{
    reveal_strlit("null");
    reveal_strlit("-");
    if let Some(t) = s {
        law_json_text_is_one_line(t);
        law_json_text_is_one_line(scrubbed(t));
    }
    if let Some(k) = n {
        if k < 0 {
            lemma_decimal_printable((-k) as nat);
            lemma_printable_add("-"@, decimal((-k) as nat));
        } else {
            lemma_decimal_printable(k as nat);
        }
    }
}

/// An entry is one line, whatever the call: a line feed stands at its end and
/// nowhere else.
pub proof fn law_entry_is_one_line(
    ts: Seq<char>,
    host: Seq<char>,
    tool: Seq<char>,
    r: AuditRecord,
)
    ensures
        entry_line(ts, host, tool, r).last() == '\n',
        printable(entry_line(ts, host, tool, r).drop_last()),
{
    reveal_strlit("{\"ts\":");
    reveal_strlit(",\"host\":");
    reveal_strlit(",\"tool\":");
    reveal_strlit(",\"cmd\":");
    reveal_strlit(",\"exit_code\":");
    reveal_strlit(",\"duration_ms\":");
    reveal_strlit(",\"bytes_in\":");
    reveal_strlit(",\"bytes_out\":");
    reveal_strlit(",\"blocked\":");
    reveal_strlit(",\"error\":");
    reveal_strlit("}\n");
    reveal_strlit("}");
    law_json_text_is_one_line(ts);
    law_json_text_is_one_line(host);
    law_json_text_is_one_line(tool);
    lemma_field_printable(opt_view(r.cmd), exit_number(r));
    lemma_field_printable(opt_view(r.blocked), duration_number(r));
    lemma_field_printable(opt_view(r.error), size_number(r.bytes_in));
    lemma_field_printable(opt_view(r.error), size_number(r.bytes_out));
    let a = "{\"ts\":"@ + json_text(ts);
    lemma_printable_add("{\"ts\":"@, json_text(ts));
    let b = a + ",\"host\":"@;
    lemma_printable_add(a, ",\"host\":"@);
    let c = b + json_text(host);
    lemma_printable_add(b, json_text(host));
    let d = c + ",\"tool\":"@;
    lemma_printable_add(c, ",\"tool\":"@);
    let e = d + json_text(tool);
    lemma_printable_add(d, json_text(tool));
    let f = e + ",\"cmd\":"@;
    lemma_printable_add(e, ",\"cmd\":"@);
    let g = f + scrubbed_json(opt_view(r.cmd));
    lemma_printable_add(f, scrubbed_json(opt_view(r.cmd)));
    let h = g + ",\"exit_code\":"@;
    lemma_printable_add(g, ",\"exit_code\":"@);
    let i = h + number_json(exit_number(r));
    lemma_printable_add(h, number_json(exit_number(r)));
    let j = i + ",\"duration_ms\":"@;
    lemma_printable_add(i, ",\"duration_ms\":"@);
    let k = j + number_json(duration_number(r));
    lemma_printable_add(j, number_json(duration_number(r)));
    let l = k + ",\"bytes_in\":"@;
    lemma_printable_add(k, ",\"bytes_in\":"@);
    let m = l + number_json(size_number(r.bytes_in));
    lemma_printable_add(l, number_json(size_number(r.bytes_in)));
    let n = m + ",\"bytes_out\":"@;
    lemma_printable_add(m, ",\"bytes_out\":"@);
    let o = n + number_json(size_number(r.bytes_out));
    lemma_printable_add(n, number_json(size_number(r.bytes_out)));
    let p = o + ",\"blocked\":"@;
    lemma_printable_add(o, ",\"blocked\":"@);
    let q = p + text_json(opt_view(r.blocked));
    lemma_printable_add(p, text_json(opt_view(r.blocked)));
    let s = q + ",\"error\":"@;
    lemma_printable_add(q, ",\"error\":"@);
    let t = s + scrubbed_json(opt_view(r.error));
    lemma_printable_add(s, scrubbed_json(opt_view(r.error)));
    lemma_printable_add(t, "}"@);
    assert(entry_line(ts, host, tool, r) == t + "}\n"@);
    assert((t + "}\n"@).drop_last() =~= t + "}"@);
}

// ---------------------------------------------------------------------------
// The writer
// ---------------------------------------------------------------------------

/// What can happen to the task that writes the log.
#[derive(Debug, Clone, Copy, PartialEq, Eq, Structural)]
pub enum WriterEvent {
    /// The server stops.
    Shutdown,
    /// The shutdown signal changed, but does not say to stop.
    StillRunning,
    /// This many entries came from the queue.
    Received(usize),
}

/// What the task does next.
#[derive(Debug, Clone, Copy, PartialEq, Eq, Structural)]
pub enum WriterAction {
    /// Write what was received, then go on.
    WriteBatch,
    /// Write whatever still waits, then stop.
    DrainAndStop,
    /// Flush and stop.
    Stop,
    GoOn,
}

/// What the writer does about an event: what was queued before a shutdown is
/// still written, and a queue that gives nothing is closed.
pub fn writer_step(event: WriterEvent) -> (r: WriterAction)
    ensures
        r == (match event {
            WriterEvent::Shutdown => WriterAction::DrainAndStop,
            WriterEvent::StillRunning => WriterAction::GoOn,
            WriterEvent::Received(n) => if n == 0 {
                WriterAction::Stop
            } else {
                WriterAction::WriteBatch
            },
        }),
{
    match event {
        WriterEvent::Shutdown => WriterAction::DrainAndStop,
        WriterEvent::StillRunning => WriterAction::GoOn,
        WriterEvent::Received(n) => if n == 0 {
            WriterAction::Stop
        } else {
            WriterAction::WriteBatch
        },
    }
}

/// The lines of a batch behind one another.
pub open spec fn batch_text(lines: Seq<Seq<char>>) -> Seq<char>
    decreases lines.len(),
{
    if lines.len() == 0 {
        Seq::empty()
    } else {
        batch_text(lines.drop_last()) + lines.last()
    }
}

/// The lines of a batch behind one another, as they are written.
pub fn serialize_batch(lines: &Vec<String>) -> (r: String)
    ensures
        r@ == batch_text(views(lines@)),
{
    let ghost all = views(lines@);
    let mut buf = String::new();
    let mut i: usize = 0;
    assert(buf@ =~= batch_text(all.take(0)));
    while i < lines.len()
        invariant
            i <= lines@.len(),
            all == views(lines@),
            buf@ == batch_text(all.take(i as int)),
        decreases lines@.len() - i,
    {
        buf.push_str(lines[i].as_str());
        proof {
            assert(all.take(i + 1).drop_last() =~= all.take(i as int));
            assert(all.take(i + 1).last() == lines@[i as int]@);
        }
        i = i + 1;
    }
    assert(all.take(i as int) =~= all);
    buf
}

/// No two generations of the log have the same name.
pub proof fn law_generations_are_told_apart(path: Seq<char>, m: nat, n: nat)
    requires
        m != n,
    ensures
        generation(path, m) != generation(path, n),
{
    reveal_strlit(".");
    law_decimal_reads_back(m);
    law_decimal_reads_back(n);
    let a = generation(path, m);
    let b = generation(path, n);
    if m > 0 {
        assert(a.skip(path.len() as int + 1) =~= decimal(m));
    }
    if n > 0 {
        assert(b.skip(path.len() as int + 1) =~= decimal(n));
    }
}

/// A batch is its lines one behind the other, none of them changed.
pub proof fn law_batch_is_its_lines(a: Seq<Seq<char>>, b: Seq<Seq<char>>, line: Seq<char>)
    ensures
        batch_text(a + b) == batch_text(a) + batch_text(b),
        batch_text(seq![line]) == line,
    decreases b.len(),
{
    let none = Seq::<Seq<char>>::empty();
    assert(seq![line].drop_last() =~= none);
    reveal_with_fuel(batch_text, 2);
    assert(batch_text(seq![line]) =~= line);
    if b.len() == 0 {
        assert(a + b =~= a);
        assert(batch_text(a) + batch_text(b) =~= batch_text(a));
    } else {
        law_batch_is_its_lines(a, b.drop_last(), line);
        assert((a + b).drop_last() =~= a + b.drop_last());
        assert(batch_text(a + b) =~= batch_text(a) + batch_text(b));
    }
}

/// The log does not tell two calls apart that differ in credentials alone: of a
/// command and of an error it holds what is left once they are scrubbed.
pub proof fn law_entry_holds_no_credentials(
    ts: Seq<char>,
    host: Seq<char>,
    tool: Seq<char>,
    a: AuditRecord,
    b: AuditRecord,
)
    requires
        a.cmd is Some == b.cmd is Some,
        a.cmd is Some ==> scrubbed(a.cmd->0@) == scrubbed(b.cmd->0@),
        a.error is Some == b.error is Some,
        a.error is Some ==> scrubbed(a.error->0@) == scrubbed(b.error->0@),
        a.exit_code == b.exit_code,
        a.duration_ms == b.duration_ms,
        a.bytes_in == b.bytes_in,
        a.bytes_out == b.bytes_out,
        opt_view(a.blocked) == opt_view(b.blocked),
    ensures
        entry_line(ts, host, tool, a) == entry_line(ts, host, tool, b),
{
}

/// An entry tells when, where and by which tool a call was made, what was run,
/// how it ended, and what blocked it.
pub proof fn law_entry_tells_the_call(
    ts: Seq<char>,
    host: Seq<char>,
    tool: Seq<char>,
    r: AuditRecord,
)
    ensures
        has_part(entry_line(ts, host, tool, r), "{\"ts\":"@ + json_text(ts)),
        has_part(entry_line(ts, host, tool, r), ",\"host\":"@ + json_text(host)),
        has_part(entry_line(ts, host, tool, r), ",\"tool\":"@ + json_text(tool)),
        r.cmd matches Some(c) ==> has_part(
            entry_line(ts, host, tool, r),
            ",\"cmd\":"@ + json_text(scrubbed(c@)),
        ),
        r.exit_code matches Some(n) ==> has_part(
            entry_line(ts, host, tool, r),
            ",\"exit_code\":"@ + signed_decimal(n as int),
        ),
        r.blocked matches Some(b) ==> has_part(
            entry_line(ts, host, tool, r),
            ",\"blocked\":"@ + json_text(b@),
        ),
        r.error matches Some(e) ==> has_part(
            entry_line(ts, host, tool, r),
            ",\"error\":"@ + json_text(scrubbed(e@)),
        ),
{
    lemma_entry_parts(
        "{\"ts\":"@,
        json_text(ts),
        ",\"host\":"@,
        json_text(host),
        ",\"tool\":"@,
        json_text(tool),
        ",\"cmd\":"@,
        scrubbed_json(opt_view(r.cmd)),
        ",\"exit_code\":"@,
        number_json(exit_number(r)),
        ",\"duration_ms\":"@,
        number_json(duration_number(r)),
        ",\"bytes_in\":"@,
        number_json(size_number(r.bytes_in)),
        ",\"bytes_out\":"@,
        number_json(size_number(r.bytes_out)),
        ",\"blocked\":"@,
        text_json(opt_view(r.blocked)),
        ",\"error\":"@,
        scrubbed_json(opt_view(r.error)),
        "}\n"@,
    );
}

proof fn lemma_entry_parts(
    a: Seq<char>,
    ts: Seq<char>,
    b: Seq<char>,
    host: Seq<char>,
    c: Seq<char>,
    tool: Seq<char>,
    d: Seq<char>,
    cmd: Seq<char>,
    e: Seq<char>,
    code: Seq<char>,
    f: Seq<char>,
    ms: Seq<char>,
    g: Seq<char>,
    bytes_in: Seq<char>,
    h: Seq<char>,
    bytes_out: Seq<char>,
    i: Seq<char>,
    blocked: Seq<char>,
    j: Seq<char>,
    error: Seq<char>,
    end: Seq<char>,
)
    ensures
        ({
            let all = a + ts + b + host + c + tool + d + cmd + e + code + f + ms + g + bytes_in + h
                + bytes_out + i + blocked + j + error + end;
            &&& has_part(all, a + ts)
            &&& has_part(all, b + host)
            &&& has_part(all, c + tool)
            &&& has_part(all, d + cmd)
            &&& has_part(all, e + code)
            &&& has_part(all, i + blocked)
            &&& has_part(all, j + error)
        }),
{
    let s1 = a + ts;
    let s2 = s1 + b + host;
    let s3 = s2 + c + tool;
    let s4 = s3 + d + cmd;
    let s5 = s4 + e + code;
    let s6 = s5 + f + ms + g + bytes_in + h + bytes_out;
    let s7 = s6 + i + blocked;
    let all = s7 + j + error + end;
    let none = Seq::<char>::empty();
    lemma_part_grows(s6, i, blocked);
    lemma_part_grows(s7, j, error);
    lemma_part_grows(s4, e, code);
    lemma_part_grows(s3, d, cmd);
    lemma_part_grows(s2, c, tool);
    lemma_part_grows(s1, b, host);
    lemma_has_part(none, s1, none);
    assert(none + s1 + none =~= s1);
    lemma_part_kept(s1, b, s1);
    lemma_part_kept(s1 + b, host, s1);
    lemma_two_kept(s2, c, tool, s1);
    lemma_two_kept(s2, c, tool, b + host);
    lemma_two_kept(s3, d, cmd, s1);
    lemma_two_kept(s3, d, cmd, b + host);
    lemma_two_kept(s3, d, cmd, c + tool);
    lemma_two_kept(s4, e, code, s1);
    lemma_two_kept(s4, e, code, b + host);
    lemma_two_kept(s4, e, code, c + tool);
    lemma_two_kept(s4, e, code, d + cmd);
    let rest = f + ms + g + bytes_in + h + bytes_out + i + blocked + j + error + end;
    assert(all =~= s5 + rest);
    lemma_part_kept(s5, rest, s1);
    lemma_part_kept(s5, rest, b + host);
    lemma_part_kept(s5, rest, c + tool);
    lemma_part_kept(s5, rest, d + cmd);
    lemma_part_kept(s5, rest, e + code);
    lemma_part_kept(s7, j + error + end, i + blocked);
    assert(all =~= s7 + (j + error + end));
    lemma_part_kept(s7 + j + error, end, j + error);
}

proof fn lemma_part_grows(a: Seq<char>, b: Seq<char>, c: Seq<char>)
    ensures
        has_part(a + b + c, b + c),
{
    let whole = a + b + c;
    let rest = whole.skip(a.len() as int);
    assert(rest =~= b + c);
    assert(rest.take((b + c).len() as int) =~= b + c);
    assert(has_prefix(rest, b + c));
}

proof fn lemma_part_kept(s: Seq<char>, more: Seq<char>, p: Seq<char>)
    requires
        has_part(s, p),
    ensures
        has_part(s + more, p),
{
    let k = choose|k: int| #![trigger s.skip(k)] 0 <= k <= s.len() && has_prefix(s.skip(k), p);
    let whole = s + more;
    assert(s.skip(k).take(p.len() as int) == p);
    assert(whole.skip(k).take(p.len() as int) =~= p);
    assert(has_prefix(whole.skip(k), p));
}

proof fn lemma_two_kept(s: Seq<char>, a: Seq<char>, b: Seq<char>, p: Seq<char>)
    requires
        has_part(s, p),
    ensures
        has_part(s + a + b, p),
{
    lemma_part_kept(s, a, p);
    lemma_part_kept(s + a, b, p);
}

} // verus!

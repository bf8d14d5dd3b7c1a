//! Telling from a command line whether it writes.

use vstd::prelude::*;

use crate::text::{
    chars_of, is_space, law_white_space, lemma_words_front, lemma_words_not_empty, lower, same,
    space, to_lower, trimmed_start, words_of,
};

verus! {

/// Commands that always write/mutate filesystem state. Matched on the first
/// token of each pipeline segment, case-insensitive.
pub open spec fn always_writes(w: Seq<char>) -> bool {
    ||| w == "rm"@
    ||| w == "mv"@
    ||| w == "cp"@
    ||| w == "mkdir"@
    ||| w == "rmdir"@
    ||| w == "chmod"@
    ||| w == "chown"@
    ||| w == "ln"@
    ||| w == "touch"@
    ||| w == "dd"@
    ||| w == "mkfs"@
    ||| w == "shred"@
    ||| w == "fallocate"@
    ||| w == "truncate"@
    ||| w == "tee"@
    ||| w == "sponge"@
    ||| w == "reboot"@
    ||| w == "shutdown"@
    ||| w == "halt"@
    ||| w == "poweroff"@
}

/// Commands whose write nature depends on the second token. Matched as
/// `(first, second)` after lowercasing, so every word here is in lower case.
pub open spec fn subcommand_writes(a: Seq<char>, b: Seq<char>) -> bool {
    ||| a == "systemctl"@ && (b == "restart"@ || b == "stop"@ || b == "start"@ || b == "enable"@ || b
        == "disable"@ || b == "mask"@ || b == "unmask"@ || b == "reload"@)
    ||| a == "service"@ && (b == "restart"@ || b == "stop"@ || b == "start"@)
    ||| a == "docker"@ && (b == "run"@ || b == "rm"@ || b == "rmi"@ || b == "stop"@ || b == "start"@
        || b == "restart"@ || b == "kill"@ || b == "exec"@ || b == "compose"@ || b == "build"@ || b
        == "pull"@ || b == "push"@)
    ||| a == "apt"@ && (b == "install"@ || b == "upgrade"@ || b == "remove"@ || b == "purge"@ || b
        == "autoremove"@)
    ||| a == "apt-get"@ && (b == "install"@ || b == "upgrade"@ || b == "remove"@ || b == "purge"@)
    ||| a == "yum"@ && (b == "install"@ || b == "remove"@ || b == "update"@)
    ||| a == "dnf"@ && (b == "install"@ || b == "remove"@ || b == "update"@)
    ||| a == "pacman"@ && (b == "-s"@ || b == "-r"@ || b == "-u"@ || b == "-syu"@)
    ||| a == "pip"@ && (b == "install"@ || b == "uninstall"@)
    ||| a == "pip3"@ && (b == "install"@ || b == "uninstall"@)
    ||| a == "npm"@ && (b == "install"@ || b == "i"@ || b == "uninstall"@)
    ||| a == "yarn"@ && (b == "add"@ || b == "remove"@)
    ||| a == "pnpm"@ && (b == "add"@ || b == "remove"@)
    ||| a == "git"@ && (b == "push"@ || b == "reset"@ || b == "checkout"@ || b == "rebase"@ || b
        == "merge"@ || b == "pull"@ || b == "commit"@ || b == "clean"@)
}

fn is_always_write(w: &str) -> (r: bool)
    ensures
        r == always_writes(w@),
{
    same(w, "rm") || same(w, "mv") || same(w, "cp") || same(w, "mkdir") || same(w, "rmdir") || same(
        w,
        "chmod",
    ) || same(w, "chown") || same(w, "ln") || same(w, "touch") || same(w, "dd") || same(w, "mkfs")
        || same(w, "shred") || same(w, "fallocate") || same(w, "truncate") || same(w, "tee")
        || same(w, "sponge") || same(w, "reboot") || same(w, "shutdown") || same(w, "halt") || same(
        w,
        "poweroff",
    )
}

fn is_subcommand_write(a: &str, b: &str) -> (r: bool)
    ensures
        r == subcommand_writes(a@, b@),
{
    (same(a, "systemctl") && (same(b, "restart") || same(b, "stop") || same(b, "start") || same(
        b,
        "enable",
    ) || same(b, "disable") || same(b, "mask") || same(b, "unmask") || same(b, "reload"))) || (same(
        a,
        "service",
    ) && (same(b, "restart") || same(b, "stop") || same(b, "start"))) || (same(a, "docker") && (
    same(b, "run") || same(b, "rm") || same(b, "rmi") || same(b, "stop") || same(b, "start")
        || same(b, "restart") || same(b, "kill") || same(b, "exec") || same(b, "compose") || same(
        b,
        "build",
    ) || same(b, "pull") || same(b, "push"))) || (same(a, "apt") && (same(b, "install") || same(
        b,
        "upgrade",
    ) || same(b, "remove") || same(b, "purge") || same(b, "autoremove"))) || (same(a, "apt-get")
        && (same(b, "install") || same(b, "upgrade") || same(b, "remove") || same(b, "purge")))
        || (same(a, "yum") && (same(b, "install") || same(b, "remove") || same(b, "update")))
        || (same(a, "dnf") && (same(b, "install") || same(b, "remove") || same(b, "update")))
        || (same(a, "pacman") && (same(b, "-s") || same(b, "-r") || same(b, "-u") || same(
        b,
        "-syu",
    ))) || (same(a, "pip") && (same(b, "install") || same(b, "uninstall"))) || (same(a, "pip3") && (
    same(b, "install") || same(b, "uninstall"))) || (same(a, "npm") && (same(b, "install") || same(
        b,
        "i",
    ) || same(b, "uninstall"))) || (same(a, "yarn") && (same(b, "add") || same(b, "remove"))) || (
    same(a, "pnpm") && (same(b, "add") || same(b, "remove"))) || (same(a, "git") && (same(b, "push")
        || same(b, "reset") || same(b, "checkout") || same(b, "rebase") || same(b, "merge") || same(
        b,
        "pull",
    ) || same(b, "commit") || same(b, "clean")))
}

// ---------------------------------------------------------------------------
// Segments
// ---------------------------------------------------------------------------

/// One command of a pipeline or list: its first two words, and whether a
/// redirection stands in it.
#[verifier::ext_equal]
pub struct SegmentView {
    pub first: Option<Seq<char>>,
    pub second: Option<Seq<char>>,
    pub redirect: bool,
}

/// Where the reader is: the segment that is open, the word that is being read,
/// and the quotes that are open.
#[verifier::ext_equal]
pub struct ReaderView {
    pub cur: SegmentView,
    pub word: Seq<char>,
    pub in_single: bool,
    pub in_double: bool,
}

pub open spec fn empty_segment() -> SegmentView {
    SegmentView { first: None, second: None, redirect: false }
}

pub open spec fn fresh_reader() -> ReaderView {
    ReaderView { cur: empty_segment(), word: Seq::empty(), in_single: false, in_double: false }
}

/// The segment once the word that was read ends. Only two words are kept.
pub open spec fn with_word(seg: SegmentView, word: Seq<char>) -> SegmentView {
    if word.len() == 0 {
        seg
    } else if seg.first is None {
        SegmentView { first: Some(word), ..seg }
    } else if seg.second is None {
        SegmentView { second: Some(word), ..seg }
    } else {
        seg
    }
}

/// The reader once a word ends.
pub open spec fn after_word(r: ReaderView) -> ReaderView {
    ReaderView { cur: with_word(r.cur, r.word), word: Seq::empty(), ..r }
}

/// The reader with one more character in its word.
pub open spec fn with_char(r: ReaderView, c: char) -> ReaderView {
    ReaderView { word: r.word.push(c), ..r }
}

/// A character that a backslash protects between double quotes.
pub open spec fn escapable(c: char) -> bool {
    c == '"' || c == '\\' || c == '$' || c == '`' || c == '\n'
}

/// A character that ends a command.
pub open spec fn ends_command(c: char) -> bool {
    c == '|' || c == '&' || c == ';' || c == '\n'
}

/// How many characters an operator that begins `s` has: `||`, `&&`, `>>`, `<<`,
/// `>&` and the like are taken as one.
pub open spec fn operator_len(s: Seq<char>) -> int {
    let c = s[0];
    if s.len() < 2 {
        1
    } else if (c == '|' && s[1] == '|') || (c == '&' && s[1] == '&') {
        2
    } else if (c == '>' || c == '<') && (s[1] == '>' || s[1] == '<' || s[1] == '&') {
        2
    } else {
        1
    }
}

/// The segments of a command line, read from `s` on by a reader that is at `r`.
pub open spec fn segments_from(s: Seq<char>, r: ReaderView) -> Seq<SegmentView>
    decreases s.len(),
{
    if s.len() == 0 {
        seq![with_word(r.cur, r.word)]
    } else if r.in_single {
        if s[0] == '\'' {
            segments_from(s.skip(1), ReaderView { in_single: false, ..r })
        } else {
            segments_from(s.skip(1), with_char(r, s[0]))
        }
    } else if r.in_double {
        if s[0] == '"' {
            segments_from(s.skip(1), ReaderView { in_double: false, ..r })
        } else if s[0] == '\\' && s.len() >= 2 && escapable(s[1]) {
            segments_from(s.skip(2), with_char(r, s[1]))
        } else {
            segments_from(s.skip(1), with_char(r, s[0]))
        }
    } else if s[0] == '\'' {
        segments_from(s.skip(1), ReaderView { in_single: true, ..r })
    } else if s[0] == '"' {
        segments_from(s.skip(1), ReaderView { in_double: true, ..r })
    } else if s[0] == '\\' {
        if s.len() >= 2 {
            segments_from(s.skip(2), with_char(r, s[1]))
        } else {
            segments_from(s.skip(1), r)
        }
    } else if ends_command(s[0]) {
        seq![with_word(r.cur, r.word)] + segments_from(s.skip(operator_len(s)), fresh_reader())
    } else if s[0] == '>' || s[0] == '<' {
        let w = after_word(r);
        segments_from(
            s.skip(operator_len(s)),
            ReaderView { cur: SegmentView { redirect: true, ..w.cur }, ..w },
        )
    } else if is_space(s[0]) {
        segments_from(s.skip(1), after_word(r))
    } else {
        segments_from(s.skip(1), with_char(r, s[0]))
    }
}

/// The segments of a command line.
pub open spec fn segments_of(cmd: Seq<char>) -> Seq<SegmentView> {
    segments_from(cmd, fresh_reader())
}

/// A segment that writes.
pub open spec fn segment_writes(seg: SegmentView) -> bool {
    ||| seg.redirect
    ||| seg.first is Some && always_writes(lower(seg.first->0))
    ||| seg.first is Some && seg.second is Some && subcommand_writes(
        lower(seg.first->0),
        lower(seg.second->0),
    )
}

/// A word that lowercasing leaves as it is.
pub open spec fn is_lower_word(w: Seq<char>) -> bool {
    lower(w) == w
}

proof fn lemma_listed_words()
    ensures
        forall|w: Seq<char>| #[trigger] always_writes(w) ==> is_lower_word(w),
        forall|a: Seq<char>, b: Seq<char>| #[trigger]
            subcommand_writes(a, b) ==> is_lower_word(a) && is_lower_word(b),
{
    reveal_strlit("rm");
    assert(lower("rm"@) =~= "rm"@);
    reveal_strlit("mv");
    assert(lower("mv"@) =~= "mv"@);
    reveal_strlit("cp");
    assert(lower("cp"@) =~= "cp"@);
    reveal_strlit("mkdir");
    assert(lower("mkdir"@) =~= "mkdir"@);
    reveal_strlit("rmdir");
    assert(lower("rmdir"@) =~= "rmdir"@);
    reveal_strlit("chmod");
    assert(lower("chmod"@) =~= "chmod"@);
    reveal_strlit("chown");
    assert(lower("chown"@) =~= "chown"@);
    reveal_strlit("ln");
    assert(lower("ln"@) =~= "ln"@);
    reveal_strlit("touch");
    assert(lower("touch"@) =~= "touch"@);
    reveal_strlit("dd");
    assert(lower("dd"@) =~= "dd"@);
    reveal_strlit("mkfs");
    assert(lower("mkfs"@) =~= "mkfs"@);
    reveal_strlit("shred");
    assert(lower("shred"@) =~= "shred"@);
    reveal_strlit("fallocate");
    assert(lower("fallocate"@) =~= "fallocate"@);
    reveal_strlit("truncate");
    assert(lower("truncate"@) =~= "truncate"@);
    reveal_strlit("tee");
    assert(lower("tee"@) =~= "tee"@);
    reveal_strlit("sponge");
    assert(lower("sponge"@) =~= "sponge"@);
    reveal_strlit("reboot");
    assert(lower("reboot"@) =~= "reboot"@);
    reveal_strlit("shutdown");
    assert(lower("shutdown"@) =~= "shutdown"@);
    reveal_strlit("halt");
    assert(lower("halt"@) =~= "halt"@);
    reveal_strlit("poweroff");
    assert(lower("poweroff"@) =~= "poweroff"@);
    reveal_strlit("systemctl");
    assert(lower("systemctl"@) =~= "systemctl"@);
    reveal_strlit("restart");
    assert(lower("restart"@) =~= "restart"@);
    reveal_strlit("stop");
    assert(lower("stop"@) =~= "stop"@);
    reveal_strlit("start");
    assert(lower("start"@) =~= "start"@);
    reveal_strlit("enable");
    assert(lower("enable"@) =~= "enable"@);
    reveal_strlit("disable");
    assert(lower("disable"@) =~= "disable"@);
    reveal_strlit("mask");
    assert(lower("mask"@) =~= "mask"@);
    reveal_strlit("unmask");
    assert(lower("unmask"@) =~= "unmask"@);
    reveal_strlit("reload");
    assert(lower("reload"@) =~= "reload"@);
    reveal_strlit("service");
    assert(lower("service"@) =~= "service"@);
    reveal_strlit("docker");
    assert(lower("docker"@) =~= "docker"@);
    reveal_strlit("run");
    assert(lower("run"@) =~= "run"@);
    reveal_strlit("rmi");
    assert(lower("rmi"@) =~= "rmi"@);
    reveal_strlit("kill");
    assert(lower("kill"@) =~= "kill"@);
    reveal_strlit("exec");
    assert(lower("exec"@) =~= "exec"@);
    reveal_strlit("compose");
    assert(lower("compose"@) =~= "compose"@);
    reveal_strlit("build");
    assert(lower("build"@) =~= "build"@);
    reveal_strlit("pull");
    assert(lower("pull"@) =~= "pull"@);
    reveal_strlit("push");
    assert(lower("push"@) =~= "push"@);
    reveal_strlit("apt");
    assert(lower("apt"@) =~= "apt"@);
    reveal_strlit("install");
    assert(lower("install"@) =~= "install"@);
    reveal_strlit("upgrade");
    assert(lower("upgrade"@) =~= "upgrade"@);
    reveal_strlit("remove");
    assert(lower("remove"@) =~= "remove"@);
    reveal_strlit("purge");
    assert(lower("purge"@) =~= "purge"@);
    reveal_strlit("autoremove");
    assert(lower("autoremove"@) =~= "autoremove"@);
    reveal_strlit("apt-get");
    assert(lower("apt-get"@) =~= "apt-get"@);
    reveal_strlit("yum");
    assert(lower("yum"@) =~= "yum"@);
    reveal_strlit("update");
    assert(lower("update"@) =~= "update"@);
    reveal_strlit("dnf");
    assert(lower("dnf"@) =~= "dnf"@);
    reveal_strlit("pacman");
    assert(lower("pacman"@) =~= "pacman"@);
    reveal_strlit("-s");
    assert(lower("-s"@) =~= "-s"@);
    reveal_strlit("-r");
    assert(lower("-r"@) =~= "-r"@);
    reveal_strlit("-u");
    assert(lower("-u"@) =~= "-u"@);
    reveal_strlit("-syu");
    assert(lower("-syu"@) =~= "-syu"@);
    reveal_strlit("pip");
    assert(lower("pip"@) =~= "pip"@);
    reveal_strlit("uninstall");
    assert(lower("uninstall"@) =~= "uninstall"@);
    reveal_strlit("pip3");
    assert(lower("pip3"@) =~= "pip3"@);
    reveal_strlit("npm");
    assert(lower("npm"@) =~= "npm"@);
    reveal_strlit("i");
    assert(lower("i"@) =~= "i"@);
    reveal_strlit("yarn");
    assert(lower("yarn"@) =~= "yarn"@);
    reveal_strlit("add");
    assert(lower("add"@) =~= "add"@);
    reveal_strlit("pnpm");
    assert(lower("pnpm"@) =~= "pnpm"@);
    reveal_strlit("git");
    assert(lower("git"@) =~= "git"@);
    reveal_strlit("reset");
    assert(lower("reset"@) =~= "reset"@);
    reveal_strlit("checkout");
    assert(lower("checkout"@) =~= "checkout"@);
    reveal_strlit("rebase");
    assert(lower("rebase"@) =~= "rebase"@);
    reveal_strlit("merge");
    assert(lower("merge"@) =~= "merge"@);
    reveal_strlit("commit");
    assert(lower("commit"@) =~= "commit"@);
    reveal_strlit("clean");
    assert(lower("clean"@) =~= "clean"@);
}

/// A command that is listed as a write is found to be one, in whichever case it
/// is written: no entry of the lists is out of reach.
pub proof fn law_listed_command_is_a_write(seg: SegmentView, first: Seq<char>, second: Seq<char>)
    requires
        seg.first is Some && lower(seg.first->0) == lower(first),
        always_writes(first) || (subcommand_writes(first, second) && seg.second is Some && lower(
            seg.second->0,
        ) == lower(second)),
    ensures
        segment_writes(seg),
{
    lemma_listed_words();
    assert(always_writes(first) ==> is_lower_word(first));
    assert(subcommand_writes(first, second) ==> is_lower_word(first) && is_lower_word(second));
}

/// A command line that writes: some segment of it does.
pub open spec fn writeful(cmd: Seq<char>) -> bool {
    exists|i: int| 0 <= i < segments_of(cmd).len() && segment_writes(#[trigger] segments_of(cmd)[i])
}

/// One command of a pipeline or list.
#[derive(Debug, Clone)]
pub struct Segment {
    pub first: Option<String>,
    pub second: Option<String>,
    pub has_redirect: bool,
}

impl View for Segment {
    type V = SegmentView;

    open spec fn view(&self) -> SegmentView {
        SegmentView {
            first: match self.first {
                Some(w) => Some(w@),
                None => None,
            },
            second: match self.second {
                Some(w) => Some(w@),
                None => None,
            },
            redirect: self.has_redirect,
        }
    }
}

pub open spec fn segment_views(s: Seq<Segment>) -> Seq<SegmentView> {
    Seq::new(s.len(), |i: int| s[i]@)
}

fn no_segment() -> (r: Segment)
    ensures
        r@ == empty_segment(),
{
    Segment { first: None, second: None, has_redirect: false }
}

/// Ends the word that is being read.
fn end_word(cur: Segment, word: String) -> (r: Segment)
    ensures
        r@ == with_word(cur@, word@),
{
    if word.as_str().is_empty() {
        return cur;
    }
    let Segment { first, second, has_redirect } = cur;
    if first.is_none() {
        Segment { first: Some(word), second, has_redirect }
    } else if second.is_none() {
        Segment { first, second: Some(word), has_redirect }
    } else {
        Segment { first, second, has_redirect }
    }
}

fn is_escapable(c: char) -> (r: bool)
    ensures
        r == escapable(c),
{
    c == '"' || c == '\\' || c == '$' || c == '`' || c == '\n'
}

fn operator_length(v: &Vec<char>, at: usize) -> (r: usize)
    requires
        at < v@.len(),
    ensures
        r == operator_len(v@.skip(at as int)),
        1 <= r <= 2,
        at + r <= v@.len(),
{
    let n: usize = v.len();
    let c = v[at];
    if n - at < 2 {
        1
    } else {
        let d = v[at + 1];
        if (c == '|' && d == '|') || (c == '&' && d == '&') {
            2
        } else if (c == '>' || c == '<') && (d == '>' || d == '<' || d == '&') {
            2
        } else {
            1
        }
    }
}

/// Walk `cmd` once, splitting on top-level `|`, `||`, `&&`, `;`, `\n`.
/// Tracks single/double quote state. Records the first two whitespace-separated
/// tokens of each segment plus whether any redirect operator appears.
pub fn parse_segments(cmd: &str) -> (r: Vec<Segment>)
    ensures
        segment_views(r@) == segments_of(cmd@),
{
    let v = chars_of(cmd);
    let n: usize = v.len();
    let mut out: Vec<Segment> = Vec::new();
    let mut cur = no_segment();
    let mut word = String::new();
    let mut in_single = false;
    let mut in_double = false;
    let mut i: usize = 0;
    let ghost all = segments_of(cmd@);
    proof {
        assert(v@.skip(0) =~= v@);
        assert(word@ =~= Seq::empty());
        assert(segment_views(out@) + segments_of(v@) =~= all);
    }
    while i < n
        invariant
            n == v@.len(),
            v@ == cmd@,
            i <= n,
            all == segments_of(cmd@),
            segment_views(out@) + segments_from(
                v@.skip(i as int),
                ReaderView { cur: cur@, word: word@, in_single, in_double },
            ) == all,
        decreases n - i,
    {
        let c = v[i];
        let ghost rest = v@.skip(i as int);
        proof {
            assert(rest.skip(1) =~= v@.skip(i + 1));
            if i + 2 <= n {
                assert(rest.skip(2) =~= v@.skip(i + 2));
            }
        }
        if in_single {
            if c == '\'' {
                in_single = false;
            } else {
                word.push(c);
            }
            i = i + 1;
        } else if in_double {
            if c == '"' {
                in_double = false;
                i = i + 1;
            } else if c == '\\' && n - i >= 2 && is_escapable(v[i + 1]) {
                word.push(v[i + 1]);
                i = i + 2;
            } else {
                word.push(c);
                i = i + 1;
            }
        } else if c == '\'' {
            in_single = true;
            i = i + 1;
        } else if c == '"' {
            in_double = true;
            i = i + 1;
        } else if c == '\\' {
            if n - i >= 2 {
                word.push(v[i + 1]);
                i = i + 2;
            } else {
                i = i + 1;
            }
        } else if c == '|' || c == '&' || c == ';' || c == '\n' {
            let step: usize = operator_length(&v, i);
            let seg = end_word(cur, word);
            let ghost before = segment_views(out@);
            out.push(seg);
            proof {
                assert(segment_views(out@) =~= before.push(seg@));
                let tail = segments_from(v@.skip(i + step), fresh_reader());
                assert(before + (seq![seg@] + tail) =~= before.push(seg@) + tail);
            }
            cur = no_segment();
            word = String::new();
            assert(word@ =~= Seq::empty());
            i = i + step;
        } else if c == '>' || c == '<' {
            let step: usize = operator_length(&v, i);
            let seg = end_word(cur, word);
            cur = Segment { first: seg.first, second: seg.second, has_redirect: true };
            word = String::new();
            assert(word@ =~= Seq::empty());
            assert(cur@ =~= SegmentView { redirect: true, ..seg@ });
            i = i + step;
        } else if space(c) {
            cur = end_word(cur, word);
            word = String::new();
            assert(word@ =~= Seq::empty());
            i = i + 1;
        } else {
            word.push(c);
            i = i + 1;
        }
    }
    assert(v@.skip(i as int) =~= Seq::empty());
    let seg = end_word(cur, word);
    let ghost before = segment_views(out@);
    out.push(seg);
    assert(segment_views(out@) =~= before + seq![seg@]);
    out
}

/// Tokenized read-only check. Splits `cmd` into pipeline segments
/// (`| && || ; \n`), respects single/double quotes, and detects:
/// 1. any redirection operator (`>`, `>>`, `<<`, `<`) outside quotes,
/// 2. any segment whose first token always writes,
/// 3. any segment whose first two tokens together write.
pub fn looks_writeful(cmd: &str) -> (r: bool)
    ensures
        r == writeful(cmd@),
{
    let segs = parse_segments(cmd);
    let ghost all = segments_of(cmd@);
    let mut i: usize = 0;
    while i < segs.len()
        invariant
            i <= segs@.len(),
            all == segment_views(segs@),
            all == segments_of(cmd@),
            forall|j: int| 0 <= j < i ==> !segment_writes(#[trigger] all[j]),
        decreases segs@.len() - i,
    {
        let seg = &segs[i];
        assert(all[i as int] == seg@);
        let writes = match &seg.first {
            None => seg.has_redirect,
            Some(first) => {
                let a = to_lower(first.as_str());
                let second = match &seg.second {
                    None => false,
                    Some(second) => {
                        let b = to_lower(second.as_str());
                        is_subcommand_write(a.as_str(), b.as_str())
                    },
                };
                seg.has_redirect || is_always_write(a.as_str()) || second
            },
        };
        if writes {
            assert(segment_writes(all[i as int]));
            return true;
        }
        i = i + 1;
    }
    false
}

// ---------------------------------------------------------------------------
// Laws
// ---------------------------------------------------------------------------

/// What stands between single quotes is part of a word, whatever it is: no
/// operator, redirection or word break in it counts.
pub proof fn law_single_quotes_hide(q: Seq<char>, rest: Seq<char>, r: ReaderView)
    requires
        !r.in_single,
        !r.in_double,
        !q.contains('\''),
    ensures
        segments_from(seq!['\''] + q + seq!['\''] + rest, r) == segments_from(
            rest,
            ReaderView { word: r.word + q, ..r },
        ),
{
    let s = seq!['\''] + q + seq!['\''] + rest;
    assert(s.skip(1) =~= q + seq!['\''] + rest);
    lemma_single_quoted(q, rest, ReaderView { in_single: true, ..r });
}

proof fn lemma_single_quoted(q: Seq<char>, rest: Seq<char>, r: ReaderView)
    requires
        r.in_single,
        !q.contains('\''),
    ensures
        segments_from(q + seq!['\''] + rest, r) == segments_from(
            rest,
            ReaderView { word: r.word + q, in_single: false, ..r },
        ),
    decreases q.len(),
{
    let s = q + seq!['\''] + rest;
    if q.len() == 0 {
        assert(s.skip(1) =~= rest);
        assert(r.word + q =~= r.word);
    } else {
        assert(q.contains(q[0]));
        let q1 = q.skip(1);
        assert(s.skip(1) =~= q1 + seq!['\''] + rest);
        assert forall|i: int| 0 <= i < q1.len() implies q1[i] != '\'' by {
            assert(q.contains(q[i + 1]));
        }
        lemma_single_quoted(q1, rest, with_char(r, q[0]));
        assert(with_char(r, q[0]).word + q1 =~= r.word + q);
    }
}

/// A redirection outside quotes marks the command that it stands in as a write,
/// with or without spaces around it.
pub proof fn law_redirect_is_seen(s: Seq<char>, r: ReaderView)
    requires
        !r.in_single,
        !r.in_double,
        s.len() > 0,
        s[0] == '>' || s[0] == '<',
    ensures
        exists|i: int|
            0 <= i < segments_from(s, r).len() && (#[trigger] segments_from(s, r)[i]).redirect,
{
    let w = after_word(r);
    let next = ReaderView { cur: SegmentView { redirect: true, ..w.cur }, ..w };
    lemma_redirect_stays(s.skip(operator_len(s)), next);
    assert(segments_from(s, r)[0].redirect);
}

proof fn lemma_redirect_stays(s: Seq<char>, r: ReaderView)
    requires
        r.cur.redirect,
    ensures
        segments_from(s, r).len() > 0,
        segments_from(s, r)[0].redirect,
    decreases s.len(),
{
    if s.len() == 0 {
    } else if r.in_single {
        if s[0] == '\'' {
            lemma_redirect_stays(s.skip(1), ReaderView { in_single: false, ..r });
        } else {
            lemma_redirect_stays(s.skip(1), with_char(r, s[0]));
        }
    } else if r.in_double {
        if s[0] == '"' {
            lemma_redirect_stays(s.skip(1), ReaderView { in_double: false, ..r });
        } else if s[0] == '\\' && s.len() >= 2 && escapable(s[1]) {
            lemma_redirect_stays(s.skip(2), with_char(r, s[1]));
        } else {
            lemma_redirect_stays(s.skip(1), with_char(r, s[0]));
        }
    } else if s[0] == '\'' {
        lemma_redirect_stays(s.skip(1), ReaderView { in_single: true, ..r });
    } else if s[0] == '"' {
        lemma_redirect_stays(s.skip(1), ReaderView { in_double: true, ..r });
    } else if s[0] == '\\' {
        if s.len() >= 2 {
            lemma_redirect_stays(s.skip(2), with_char(r, s[1]));
        } else {
            lemma_redirect_stays(s.skip(1), r);
        }
    } else if ends_command(s[0]) {
    } else if s[0] == '>' || s[0] == '<' {
        let w = after_word(r);
        lemma_redirect_stays(
            s.skip(operator_len(s)),
            ReaderView { cur: SegmentView { redirect: true, ..w.cur }, ..w },
        );
    } else if is_space(s[0]) {
        lemma_redirect_stays(s.skip(1), after_word(r));
    } else {
        lemma_redirect_stays(s.skip(1), with_char(r, s[0]));
    }
}

/// Every quote that a text opens is closed in it again, and no backslash stands
/// last: read from where a single or a double quote is open, or none is.
pub open spec fn complete_from(s: Seq<char>, single: bool, double: bool) -> bool
    decreases s.len(),
{
    if s.len() == 0 {
        !single && !double
    } else if single {
        complete_from(s.skip(1), s[0] != '\'', double)
    } else if s[0] == '\\' {
        s.len() >= 2 && complete_from(s.skip(2), single, double)
    } else if double {
        complete_from(s.skip(1), single, s[0] != '"')
    } else {
        complete_from(s.skip(1), s[0] == '\'', s[0] == '"')
    }
}

/// A text after which the shell reads on as if it stood at its beginning.
pub open spec fn is_complete(s: Seq<char>) -> bool {
    complete_from(s, false, false)
}

/// A character that can be the first or the second half of an operator.
pub open spec fn pairs_up(c: char) -> bool {
    c == '|' || c == '&' || c == '>' || c == '<'
}

proof fn lemma_segments_split(a: Seq<char>, op: Seq<char>, b: Seq<char>, r: ReaderView)
    requires
        complete_from(a, r.in_single, r.in_double),
        !(r.in_single && r.in_double),
        op == seq!['\n'] || op == seq![';'] || op == seq!['|'] || op == seq!['|', '|'] || op
            == seq!['&'] || op == seq!['&', '&'],
        op.len() == 1 && pairs_up(op[0]) && b.len() > 0 ==> b[0] != op[0],
        a.len() > 0 && pairs_up(op[0]) ==> !pairs_up(a.last()),
    ensures
        segments_from(a + op + b, r) == segments_from(a, r) + segments_of(b),
    decreases a.len(),
{
    let s = a + op + b;
    if a.len() == 0 {
        assert(s =~= op + b);
        assert(s.skip(op.len() as int) =~= b);
        assert(s[0] == op[0]);
        if op.len() == 2 {
            assert(s[1] == op[1]);
        } else if b.len() > 0 {
            assert(s[1] == b[0]);
        }
        assert(operator_len(s) == op.len());
        assert(segments_from(a, r) =~= seq![with_word(r.cur, r.word)]);
        assert(segments_from(s, r) == seq![with_word(r.cur, r.word)] + segments_of(b));
    } else {
        assert(s[0] == a[0]);
        assert(s.skip(1) =~= a.skip(1) + op + b);
        if a.len() >= 2 {
            assert(s[1] == a[1]);
            assert(s.skip(2) =~= a.skip(2) + op + b);
            assert(a.skip(1).last() == a.last());
        }
        if a.len() >= 3 {
            assert(a.skip(2).last() == a.last());
        }
        if r.in_single {
            if s[0] == '\'' {
                lemma_segments_split(a.skip(1), op, b, ReaderView { in_single: false, ..r });
            } else {
                lemma_segments_split(a.skip(1), op, b, with_char(r, s[0]));
            }
        } else if r.in_double {
            if s[0] == '"' {
                lemma_segments_split(a.skip(1), op, b, ReaderView { in_double: false, ..r });
            } else if s[0] == '\\' {
                if escapable(s[1]) {
                    lemma_segments_split(a.skip(2), op, b, with_char(r, s[1]));
                } else {
                    let next = with_char(r, s[0]);
                    assert(s.skip(1).skip(1) =~= s.skip(2));
                    assert(a.skip(1).skip(1) =~= a.skip(2));
                    assert(s.skip(1)[0] == s[1]);
                    assert(a.skip(1)[0] == a[1]);
                    lemma_segments_split(a.skip(2), op, b, with_char(next, s[1]));
                    assert(segments_from(s.skip(1), next) == segments_from(
                        s.skip(2),
                        with_char(next, s[1]),
                    ));
                    assert(segments_from(a.skip(1), next) == segments_from(
                        a.skip(2),
                        with_char(next, s[1]),
                    ));
                }
            } else {
                lemma_segments_split(a.skip(1), op, b, with_char(r, s[0]));
            }
        } else if s[0] == '\'' {
            lemma_segments_split(a.skip(1), op, b, ReaderView { in_single: true, ..r });
        } else if s[0] == '"' {
            lemma_segments_split(a.skip(1), op, b, ReaderView { in_double: true, ..r });
        } else if s[0] == '\\' {
            lemma_segments_split(a.skip(2), op, b, with_char(r, s[1]));
        } else if ends_command(s[0]) {
            let n = operator_len(s);
            assert(n == operator_len(a));
            if n == 2 {
                assert(a.skip(1)[0] == a[1]);
                assert(a.skip(1).skip(1) =~= a.skip(2));
                assert(complete_from(a.skip(1), false, false));
            }
            lemma_segments_split(a.skip(n), op, b, fresh_reader());
            let first = seq![with_word(r.cur, r.word)];
            assert(first + (segments_of(a.skip(n)) + segments_of(b)) =~= first + segments_of(
                a.skip(n),
            ) + segments_of(b));
        } else if s[0] == '>' || s[0] == '<' {
            let n = operator_len(s);
            assert(n == operator_len(a));
            if n == 2 {
                assert(a.skip(1)[0] == a[1]);
                assert(a.skip(1).skip(1) =~= a.skip(2));
                assert(complete_from(a.skip(1), false, false));
            }
            let w = after_word(r);
            lemma_segments_split(
                a.skip(n),
                op,
                b,
                ReaderView { cur: SegmentView { redirect: true, ..w.cur }, ..w },
            );
        } else if is_space(s[0]) {
            lemma_segments_split(a.skip(1), op, b, after_word(r));
        } else {
            lemma_segments_split(a.skip(1), op, b, with_char(r, s[0]));
        }
    }
}

proof fn lemma_writeful_split(whole: Seq<char>, a: Seq<char>, b: Seq<char>)
    requires
        segments_of(whole) == segments_of(a) + segments_of(b),
    ensures
        writeful(whole) == (writeful(a) || writeful(b)),
{
    let x = segments_of(a);
    let y = segments_of(b);
    let z = segments_of(whole);
    if writeful(whole) {
        let i = choose|i: int| 0 <= i < z.len() && segment_writes(#[trigger] z[i]);
        if i < x.len() {
            assert(segment_writes(x[i]));
        } else {
            assert(segment_writes(y[i - x.len()]));
        }
    }
    if writeful(a) {
        let i = choose|i: int| 0 <= i < x.len() && segment_writes(#[trigger] x[i]);
        assert(segment_writes(z[i]));
    }
    if writeful(b) {
        let i = choose|i: int| 0 <= i < y.len() && segment_writes(#[trigger] y[i]);
        assert(segment_writes(z[x.len() + i]));
    }
}

/// A line break ends a command, and so does a semicolon: what stands behind it
/// is read as if it stood alone, and a write on either side is one of the whole.
pub proof fn law_lines_are_commands(a: Seq<char>, b: Seq<char>)
    requires
        is_complete(a),
    ensures
        segments_of(a + seq!['\n'] + b) == segments_of(a) + segments_of(b),
        segments_of(a + seq![';'] + b) == segments_of(a) + segments_of(b),
        writeful(a + seq!['\n'] + b) == (writeful(a) || writeful(b)),
        writeful(a + seq![';'] + b) == (writeful(a) || writeful(b)),
{
    lemma_segments_split(a, seq!['\n'], b, fresh_reader());
    lemma_segments_split(a, seq![';'], b, fresh_reader());
    lemma_writeful_split(a + seq!['\n'] + b, a, b);
    lemma_writeful_split(a + seq![';'] + b, a, b);
}

/// Each command of a pipeline, of an and-or list and of a list of background
/// jobs is one of its own.
pub proof fn law_operators_part_commands(a: Seq<char>, b: Seq<char>)
    requires
        is_complete(a),
        a.len() > 0 ==> a.last() != '|' && a.last() != '&' && a.last() != '>' && a.last() != '<',
        b.len() > 0 ==> b[0] != '|' && b[0] != '&',
    ensures
        segments_of(a + seq!['|'] + b) == segments_of(a) + segments_of(b),
        segments_of(a + seq!['|', '|'] + b) == segments_of(a) + segments_of(b),
        segments_of(a + seq!['&'] + b) == segments_of(a) + segments_of(b),
        segments_of(a + seq!['&', '&'] + b) == segments_of(a) + segments_of(b),
        writeful(a + seq!['|'] + b) == (writeful(a) || writeful(b)),
        writeful(a + seq!['|', '|'] + b) == (writeful(a) || writeful(b)),
        writeful(a + seq!['&'] + b) == (writeful(a) || writeful(b)),
        writeful(a + seq!['&', '&'] + b) == (writeful(a) || writeful(b)),
{
    lemma_segments_split(a, seq!['|'], b, fresh_reader());
    lemma_segments_split(a, seq!['|', '|'], b, fresh_reader());
    lemma_segments_split(a, seq!['&'], b, fresh_reader());
    lemma_segments_split(a, seq!['&', '&'], b, fresh_reader());
    lemma_writeful_split(a + seq!['|'] + b, a, b);
    lemma_writeful_split(a + seq!['|', '|'] + b, a, b);
    lemma_writeful_split(a + seq!['&'] + b, a, b);
    lemma_writeful_split(a + seq!['&', '&'] + b, a, b);
}

/// A text without quotes and backslashes is complete.
pub proof fn law_plain_text_is_complete(s: Seq<char>)
    requires
        forall|i: int|
            0 <= i < s.len() ==> #[trigger] s[i] != '\'' && s[i] != '"' && s[i] != '\\',
    ensures
        is_complete(s),
    decreases s.len(),
{
    if s.len() > 0 {
        assert forall|i: int| 0 <= i < s.skip(1).len() implies #[trigger] s.skip(1)[i] != '\''
            && s.skip(1)[i] != '"' && s.skip(1)[i] != '\\' by {
            assert(s.skip(1)[i] == s[i + 1]);
        }
        law_plain_text_is_complete(s.skip(1));
    }
}

/// A character that stands for itself wherever no quote is open.
pub open spec fn is_plain(c: char) -> bool {
    c != '\'' && c != '"' && c != '\\' && c != '|' && c != '&' && c != ';' && c != '\n' && c != '>'
        && c != '<'
}

/// A word that is written without quotes.
pub open spec fn is_plain_word(w: Seq<char>) -> bool {
    w.len() > 0 && forall|i: int|
        0 <= i < w.len() ==> is_plain(#[trigger] w[i]) && !is_space(w[i])
}

proof fn lemma_word_read(w: Seq<char>, rest: Seq<char>, r: ReaderView)
    requires
        !r.in_single,
        !r.in_double,
        forall|i: int| 0 <= i < w.len() ==> is_plain(#[trigger] w[i]) && !is_space(w[i]),
    ensures
        segments_from(w + rest, r) == segments_from(rest, ReaderView { word: r.word + w, ..r }),
    decreases w.len(),
{
    if w.len() == 0 {
        assert(w + rest =~= rest);
        assert(r.word + w =~= r.word);
    } else {
        let next = with_char(r, w[0]);
        assert(is_plain(w[0]) && !is_space(w[0]));
        assert((w + rest)[0] == w[0]);
        assert((w + rest).skip(1) =~= w.skip(1) + rest);
        assert forall|i: int| 0 <= i < w.skip(1).len() implies is_plain(#[trigger] w.skip(1)[i])
            && !is_space(w.skip(1)[i]) by {
            assert(w.skip(1)[i] == w[i + 1]);
        }
        lemma_word_read(w.skip(1), rest, next);
        assert(next.word + w.skip(1) =~= r.word + w);
    }
}

proof fn lemma_words_stay(s: Seq<char>, r: ReaderView)
    requires
        r.cur.first is Some,
    ensures
        segments_from(s, r).len() > 0,
        segments_from(s, r)[0].first == r.cur.first,
        r.cur.second is Some ==> segments_from(s, r)[0].second == r.cur.second,
    decreases s.len(),
{
    if s.len() == 0 {
    } else if r.in_single {
        if s[0] == '\'' {
            lemma_words_stay(s.skip(1), ReaderView { in_single: false, ..r });
        } else {
            lemma_words_stay(s.skip(1), with_char(r, s[0]));
        }
    } else if r.in_double {
        if s[0] == '"' {
            lemma_words_stay(s.skip(1), ReaderView { in_double: false, ..r });
        } else if s[0] == '\\' && s.len() >= 2 && escapable(s[1]) {
            lemma_words_stay(s.skip(2), with_char(r, s[1]));
        } else {
            lemma_words_stay(s.skip(1), with_char(r, s[0]));
        }
    } else if s[0] == '\'' {
        lemma_words_stay(s.skip(1), ReaderView { in_single: true, ..r });
    } else if s[0] == '"' {
        lemma_words_stay(s.skip(1), ReaderView { in_double: true, ..r });
    } else if s[0] == '\\' {
        if s.len() >= 2 {
            lemma_words_stay(s.skip(2), with_char(r, s[1]));
        } else {
            lemma_words_stay(s.skip(1), r);
        }
    } else if ends_command(s[0]) {
    } else if s[0] == '>' || s[0] == '<' {
        let w = after_word(r);
        lemma_words_stay(
            s.skip(operator_len(s)),
            ReaderView { cur: SegmentView { redirect: true, ..w.cur }, ..w },
        );
    } else if is_space(s[0]) {
        lemma_words_stay(s.skip(1), after_word(r));
    } else {
        lemma_words_stay(s.skip(1), with_char(r, s[0]));
    }
}

/// The first two words of a command are the ones that it is judged by, whatever
/// follows them.
pub proof fn law_command_begins_with_its_words(
    first: Seq<char>,
    second: Seq<char>,
    rest: Seq<char>,
)
    requires
        is_plain_word(first),
        is_plain_word(second),
    ensures
        segments_of(first + seq![' '] + rest)[0].first == Some(first),
        segments_of(first + seq![' '] + second + seq![' '] + rest)[0].first == Some(first),
        segments_of(first + seq![' '] + second + seq![' '] + rest)[0].second == Some(second),
        segments_of(first + seq![' '] + rest).len() > 0,
        segments_of(first + seq![' '] + second + seq![' '] + rest).len() > 0,
{
    let blank = seq![' '];
    lemma_word_read(first, blank + rest, fresh_reader());
    assert(first + blank + rest =~= first + (blank + rest));
    assert((blank + rest).skip(1) =~= rest);
    assert(Seq::<char>::empty() + first =~= first);
    let one = ReaderView { cur: SegmentView { first: Some(first), ..empty_segment() }, ..fresh_reader() };
    lemma_words_stay(rest, one);
    let more = second + (blank + rest);
    assert(first + blank + second + blank + rest =~= first + (blank + more));
    lemma_word_read(first, blank + more, fresh_reader());
    assert((blank + more).skip(1) =~= more);
    lemma_word_read(second, blank + rest, one);
    assert(Seq::<char>::empty() + second =~= second);
    let two = ReaderView {
        cur: SegmentView { first: Some(first), second: Some(second), redirect: false },
        ..fresh_reader()
    };
    lemma_words_stay(rest, two);
}

/// The segment once words were read one after the other.
pub open spec fn with_words(seg: SegmentView, words: Seq<Seq<char>>) -> SegmentView
    decreases words.len(),
{
    if words.len() == 0 {
        seg
    } else {
        with_words(with_word(seg, words[0]), words.skip(1))
    }
}

proof fn lemma_plain_segment(s: Seq<char>, r: ReaderView)
    requires
        !r.in_single,
        !r.in_double,
        forall|i: int| 0 <= i < s.len() ==> is_plain(#[trigger] s[i]),
        forall|i: int| 0 <= i < r.word.len() ==> !is_space(#[trigger] r.word[i]),
    ensures
        segments_from(s, r) == seq![with_words(r.cur, words_of(r.word + s))],
    decreases s.len(),
{
    if s.len() == 0 {
        assert(r.word + s =~= r.word);
        lemma_words_front(r.word, s);
        assert(words_of(s) =~= Seq::empty());
        if r.word.len() > 0 {
            assert(words_of(r.word) =~= seq![r.word]);
            assert(seq![r.word].skip(1) =~= Seq::empty());
            reveal_with_fuel(with_words, 2);
        }
    } else {
        let rest = s.skip(1);
        assert(is_plain(s[0]));
        assert forall|i: int| 0 <= i < rest.len() implies is_plain(#[trigger] rest[i]) by {
            assert(rest[i] == s[i + 1]);
        }
        if is_space(s[0]) {
            lemma_plain_segment(rest, after_word(r));
            assert(Seq::<char>::empty() + rest =~= rest);
            lemma_words_front(r.word, s);
            assert(s.drop_first() =~= rest);
            assert(trimmed_start(s) == trimmed_start(rest));
            assert(words_of(s) == words_of(rest));
            if r.word.len() > 0 {
                assert((seq![r.word] + words_of(rest)).skip(1) =~= words_of(rest));
            } else {
                assert(r.word + s =~= s);
            }
        } else {
            lemma_plain_segment(rest, with_char(r, s[0]));
            assert(with_char(r, s[0]).word + rest =~= r.word + s);
        }
    }
}

/// A command without quotes, operators and redirections is one command, judged
/// by the first two of its words.
pub proof fn law_plain_command_is_its_words(s: Seq<char>)
    requires
        forall|i: int| 0 <= i < s.len() ==> is_plain(#[trigger] s[i]),
    ensures
        segments_of(s) == seq![
            SegmentView {
                first: if words_of(s).len() > 0 {
                    Some(words_of(s)[0])
                } else {
                    None
                },
                second: if words_of(s).len() > 1 {
                    Some(words_of(s)[1])
                } else {
                    None
                },
                redirect: false,
            },
        ],
{
    lemma_plain_segment(s, fresh_reader());
    assert(Seq::<char>::empty() + s =~= s);
    lemma_words_not_empty(s);
    let ws = words_of(s);
    lemma_with_words(empty_segment(), ws);
}

proof fn lemma_with_words(seg: SegmentView, ws: Seq<Seq<char>>)
    requires
        forall|i: int| 0 <= i < ws.len() ==> (#[trigger] ws[i]).len() > 0,
        seg.first is None ==> seg.second is None,
    ensures
        with_words(seg, ws) == (SegmentView {
            first: if seg.first is Some {
                seg.first
            } else if ws.len() > 0 {
                Some(ws[0])
            } else {
                None
            },
            second: if seg.second is Some {
                seg.second
            } else if seg.first is Some && ws.len() > 0 {
                Some(ws[0])
            } else if seg.first is None && ws.len() > 1 {
                Some(ws[1])
            } else {
                None
            },
            redirect: seg.redirect,
        }),
    decreases ws.len(),
{
    if ws.len() > 0 {
        assert(ws[0].len() > 0);
        let tail = ws.skip(1);
        assert forall|i: int| 0 <= i < tail.len() implies (#[trigger] tail[i]).len() > 0 by {
            assert(tail[i] == ws[i + 1]);
        }
        lemma_with_words(with_word(seg, ws[0]), tail);
    }
}

/// What stands between double quotes is part of a word too.
pub proof fn law_double_quotes_hide(q: Seq<char>, rest: Seq<char>, r: ReaderView)
    requires
        !r.in_single,
        !r.in_double,
        !q.contains('"'),
        !q.contains('\\'),
    ensures
        segments_from(seq!['"'] + q + seq!['"'] + rest, r) == segments_from(
            rest,
            ReaderView { word: r.word + q, ..r },
        ),
{
    let s = seq!['"'] + q + seq!['"'] + rest;
    assert(s.skip(1) =~= q + seq!['"'] + rest);
    lemma_double_quoted(q, rest, ReaderView { in_double: true, ..r });
}

proof fn lemma_double_quoted(q: Seq<char>, rest: Seq<char>, r: ReaderView)
    requires
        r.in_double,
        !r.in_single,
        !q.contains('"'),
        !q.contains('\\'),
    ensures
        segments_from(q + seq!['"'] + rest, r) == segments_from(
            rest,
            ReaderView { word: r.word + q, in_double: false, ..r },
        ),
    decreases q.len(),
{
    let s = q + seq!['"'] + rest;
    if q.len() == 0 {
        assert(s.skip(1) =~= rest);
        assert(r.word + q =~= r.word);
    } else {
        assert(q.contains(q[0]));
        let q1 = q.skip(1);
        assert(s.skip(1) =~= q1 + seq!['"'] + rest);
        assert forall|i: int| 0 <= i < q1.len() implies q1[i] != '"' && q1[i] != '\\' by {
            assert(q.contains(q[i + 1]));
        }
        lemma_double_quoted(q1, rest, with_char(r, q[0]));
        assert(with_char(r, q[0]).word + q1 =~= r.word + q);
    }
}

/// A character behind a backslash is part of a word, whatever it is.
pub proof fn law_backslash_hides(c: char, rest: Seq<char>, r: ReaderView)
    requires
        !r.in_single,
        !r.in_double,
    ensures
        segments_from(seq!['\\', c] + rest, r) == segments_from(
            rest,
            ReaderView { word: r.word.push(c), ..r },
        ),
{
    assert((seq!['\\', c] + rest).skip(2) =~= rest);
}

proof fn lemma_command_writes(first: Seq<char>, rest: Seq<char>)
    requires
        is_plain_word(first),
        always_writes(lower(first)),
    ensures
        writeful(first + seq![' '] + rest),
{
    law_command_begins_with_its_words(first, first, rest);
    assert(segment_writes(segments_of(first + seq![' '] + rest)[0]));
}

proof fn lemma_subcommand_writes(first: Seq<char>, second: Seq<char>, rest: Seq<char>)
    requires
        is_plain_word(first),
        is_plain_word(second),
        subcommand_writes(lower(first), lower(second)),
    ensures
        writeful(first + seq![' '] + second + seq![' '] + rest),
{
    law_command_begins_with_its_words(first, second, rest);
    assert(segment_writes(
        segments_of(first + seq![' '] + second + seq![' '] + rest)[0],
    ));
}

proof fn lemma_word_literals()
    ensures
        is_plain_word("rm"@) && lower("rm"@) == "rm"@,
        is_plain_word("mv"@) && lower("mv"@) == "mv"@,
        is_plain_word("cp"@) && lower("cp"@) == "cp"@,
        is_plain_word("mkdir"@) && lower("mkdir"@) == "mkdir"@,
        is_plain_word("rmdir"@) && lower("rmdir"@) == "rmdir"@,
        is_plain_word("chmod"@) && lower("chmod"@) == "chmod"@,
        is_plain_word("chown"@) && lower("chown"@) == "chown"@,
        is_plain_word("ln"@) && lower("ln"@) == "ln"@,
        is_plain_word("touch"@) && lower("touch"@) == "touch"@,
        is_plain_word("dd"@) && lower("dd"@) == "dd"@,
        is_plain_word("mkfs"@) && lower("mkfs"@) == "mkfs"@,
        is_plain_word("shred"@) && lower("shred"@) == "shred"@,
        is_plain_word("fallocate"@) && lower("fallocate"@) == "fallocate"@,
        is_plain_word("truncate"@) && lower("truncate"@) == "truncate"@,
        is_plain_word("tee"@) && lower("tee"@) == "tee"@,
        is_plain_word("sponge"@) && lower("sponge"@) == "sponge"@,
        is_plain_word("reboot"@) && lower("reboot"@) == "reboot"@,
        is_plain_word("shutdown"@) && lower("shutdown"@) == "shutdown"@,
        is_plain_word("halt"@) && lower("halt"@) == "halt"@,
        is_plain_word("poweroff"@) && lower("poweroff"@) == "poweroff"@,
        is_plain_word("systemctl"@) && lower("systemctl"@) == "systemctl"@,
        is_plain_word("restart"@) && lower("restart"@) == "restart"@,
        is_plain_word("stop"@) && lower("stop"@) == "stop"@,
        is_plain_word("start"@) && lower("start"@) == "start"@,
        is_plain_word("enable"@) && lower("enable"@) == "enable"@,
        is_plain_word("disable"@) && lower("disable"@) == "disable"@,
        is_plain_word("mask"@) && lower("mask"@) == "mask"@,
        is_plain_word("unmask"@) && lower("unmask"@) == "unmask"@,
        is_plain_word("reload"@) && lower("reload"@) == "reload"@,
        is_plain_word("service"@) && lower("service"@) == "service"@,
        is_plain_word("docker"@) && lower("docker"@) == "docker"@,
        is_plain_word("run"@) && lower("run"@) == "run"@,
        is_plain_word("rmi"@) && lower("rmi"@) == "rmi"@,
        is_plain_word("kill"@) && lower("kill"@) == "kill"@,
        is_plain_word("exec"@) && lower("exec"@) == "exec"@,
        is_plain_word("compose"@) && lower("compose"@) == "compose"@,
        is_plain_word("build"@) && lower("build"@) == "build"@,
        is_plain_word("pull"@) && lower("pull"@) == "pull"@,
        is_plain_word("push"@) && lower("push"@) == "push"@,
        is_plain_word("apt"@) && lower("apt"@) == "apt"@,
        is_plain_word("install"@) && lower("install"@) == "install"@,
        is_plain_word("upgrade"@) && lower("upgrade"@) == "upgrade"@,
        is_plain_word("remove"@) && lower("remove"@) == "remove"@,
        is_plain_word("purge"@) && lower("purge"@) == "purge"@,
        is_plain_word("autoremove"@) && lower("autoremove"@) == "autoremove"@,
        is_plain_word("apt-get"@) && lower("apt-get"@) == "apt-get"@,
        is_plain_word("yum"@) && lower("yum"@) == "yum"@,
        is_plain_word("update"@) && lower("update"@) == "update"@,
        is_plain_word("dnf"@) && lower("dnf"@) == "dnf"@,
        is_plain_word("pacman"@) && lower("pacman"@) == "pacman"@,
        is_plain_word("-s"@) && lower("-s"@) == "-s"@,
        is_plain_word("-r"@) && lower("-r"@) == "-r"@,
        is_plain_word("-u"@) && lower("-u"@) == "-u"@,
        is_plain_word("-syu"@) && lower("-syu"@) == "-syu"@,
        is_plain_word("pip"@) && lower("pip"@) == "pip"@,
        is_plain_word("uninstall"@) && lower("uninstall"@) == "uninstall"@,
        is_plain_word("pip3"@) && lower("pip3"@) == "pip3"@,
        is_plain_word("npm"@) && lower("npm"@) == "npm"@,
        is_plain_word("i"@) && lower("i"@) == "i"@,
        is_plain_word("yarn"@) && lower("yarn"@) == "yarn"@,
        is_plain_word("add"@) && lower("add"@) == "add"@,
        is_plain_word("pnpm"@) && lower("pnpm"@) == "pnpm"@,
        is_plain_word("git"@) && lower("git"@) == "git"@,
        is_plain_word("reset"@) && lower("reset"@) == "reset"@,
        is_plain_word("checkout"@) && lower("checkout"@) == "checkout"@,
        is_plain_word("rebase"@) && lower("rebase"@) == "rebase"@,
        is_plain_word("merge"@) && lower("merge"@) == "merge"@,
        is_plain_word("commit"@) && lower("commit"@) == "commit"@,
        is_plain_word("clean"@) && lower("clean"@) == "clean"@,
{
    reveal_strlit("rm");
    assert(lower("rm"@) =~= "rm"@);
    reveal_strlit("mv");
    assert(lower("mv"@) =~= "mv"@);
    reveal_strlit("cp");
    assert(lower("cp"@) =~= "cp"@);
    reveal_strlit("mkdir");
    assert(lower("mkdir"@) =~= "mkdir"@);
    reveal_strlit("rmdir");
    assert(lower("rmdir"@) =~= "rmdir"@);
    reveal_strlit("chmod");
    assert(lower("chmod"@) =~= "chmod"@);
    reveal_strlit("chown");
    assert(lower("chown"@) =~= "chown"@);
    reveal_strlit("ln");
    assert(lower("ln"@) =~= "ln"@);
    reveal_strlit("touch");
    assert(lower("touch"@) =~= "touch"@);
    reveal_strlit("dd");
    assert(lower("dd"@) =~= "dd"@);
    reveal_strlit("mkfs");
    assert(lower("mkfs"@) =~= "mkfs"@);
    reveal_strlit("shred");
    assert(lower("shred"@) =~= "shred"@);
    reveal_strlit("fallocate");
    assert(lower("fallocate"@) =~= "fallocate"@);
    reveal_strlit("truncate");
    assert(lower("truncate"@) =~= "truncate"@);
    reveal_strlit("tee");
    assert(lower("tee"@) =~= "tee"@);
    reveal_strlit("sponge");
    assert(lower("sponge"@) =~= "sponge"@);
    reveal_strlit("reboot");
    assert(lower("reboot"@) =~= "reboot"@);
    reveal_strlit("shutdown");
    assert(lower("shutdown"@) =~= "shutdown"@);
    reveal_strlit("halt");
    assert(lower("halt"@) =~= "halt"@);
    reveal_strlit("poweroff");
    assert(lower("poweroff"@) =~= "poweroff"@);
    reveal_strlit("systemctl");
    assert(lower("systemctl"@) =~= "systemctl"@);
    reveal_strlit("restart");
    assert(lower("restart"@) =~= "restart"@);
    reveal_strlit("stop");
    assert(lower("stop"@) =~= "stop"@);
    reveal_strlit("start");
    assert(lower("start"@) =~= "start"@);
    reveal_strlit("enable");
    assert(lower("enable"@) =~= "enable"@);
    reveal_strlit("disable");
    assert(lower("disable"@) =~= "disable"@);
    reveal_strlit("mask");
    assert(lower("mask"@) =~= "mask"@);
    reveal_strlit("unmask");
    assert(lower("unmask"@) =~= "unmask"@);
    reveal_strlit("reload");
    assert(lower("reload"@) =~= "reload"@);
    reveal_strlit("service");
    assert(lower("service"@) =~= "service"@);
    reveal_strlit("docker");
    assert(lower("docker"@) =~= "docker"@);
    reveal_strlit("run");
    assert(lower("run"@) =~= "run"@);
    reveal_strlit("rmi");
    assert(lower("rmi"@) =~= "rmi"@);
    reveal_strlit("kill");
    assert(lower("kill"@) =~= "kill"@);
    reveal_strlit("exec");
    assert(lower("exec"@) =~= "exec"@);
    reveal_strlit("compose");
    assert(lower("compose"@) =~= "compose"@);
    reveal_strlit("build");
    assert(lower("build"@) =~= "build"@);
    reveal_strlit("pull");
    assert(lower("pull"@) =~= "pull"@);
    reveal_strlit("push");
    assert(lower("push"@) =~= "push"@);
    reveal_strlit("apt");
    assert(lower("apt"@) =~= "apt"@);
    reveal_strlit("install");
    assert(lower("install"@) =~= "install"@);
    reveal_strlit("upgrade");
    assert(lower("upgrade"@) =~= "upgrade"@);
    reveal_strlit("remove");
    assert(lower("remove"@) =~= "remove"@);
    reveal_strlit("purge");
    assert(lower("purge"@) =~= "purge"@);
    reveal_strlit("autoremove");
    assert(lower("autoremove"@) =~= "autoremove"@);
    reveal_strlit("apt-get");
    assert(lower("apt-get"@) =~= "apt-get"@);
    reveal_strlit("yum");
    assert(lower("yum"@) =~= "yum"@);
    reveal_strlit("update");
    assert(lower("update"@) =~= "update"@);
    reveal_strlit("dnf");
    assert(lower("dnf"@) =~= "dnf"@);
    reveal_strlit("pacman");
    assert(lower("pacman"@) =~= "pacman"@);
    reveal_strlit("-s");
    assert(lower("-s"@) =~= "-s"@);
    reveal_strlit("-r");
    assert(lower("-r"@) =~= "-r"@);
    reveal_strlit("-u");
    assert(lower("-u"@) =~= "-u"@);
    reveal_strlit("-syu");
    assert(lower("-syu"@) =~= "-syu"@);
    reveal_strlit("pip");
    assert(lower("pip"@) =~= "pip"@);
    reveal_strlit("uninstall");
    assert(lower("uninstall"@) =~= "uninstall"@);
    reveal_strlit("pip3");
    assert(lower("pip3"@) =~= "pip3"@);
    reveal_strlit("npm");
    assert(lower("npm"@) =~= "npm"@);
    reveal_strlit("i");
    assert(lower("i"@) =~= "i"@);
    reveal_strlit("yarn");
    assert(lower("yarn"@) =~= "yarn"@);
    reveal_strlit("add");
    assert(lower("add"@) =~= "add"@);
    reveal_strlit("pnpm");
    assert(lower("pnpm"@) =~= "pnpm"@);
    reveal_strlit("git");
    assert(lower("git"@) =~= "git"@);
    reveal_strlit("reset");
    assert(lower("reset"@) =~= "reset"@);
    reveal_strlit("checkout");
    assert(lower("checkout"@) =~= "checkout"@);
    reveal_strlit("rebase");
    assert(lower("rebase"@) =~= "rebase"@);
    reveal_strlit("merge");
    assert(lower("merge"@) =~= "merge"@);
    reveal_strlit("commit");
    assert(lower("commit"@) =~= "commit"@);
    reveal_strlit("clean");
    assert(lower("clean"@) =~= "clean"@);
}

/// The commands that change files or stop the machine are writes, whatever they
/// are given.
pub proof fn law_mutating_commands_write(rest: Seq<char>)
    ensures
        writeful("rm"@ + seq![' '] + rest),
        writeful("mv"@ + seq![' '] + rest),
        writeful("cp"@ + seq![' '] + rest),
        writeful("mkdir"@ + seq![' '] + rest),
        writeful("rmdir"@ + seq![' '] + rest),
        writeful("chmod"@ + seq![' '] + rest),
        writeful("chown"@ + seq![' '] + rest),
        writeful("ln"@ + seq![' '] + rest),
        writeful("touch"@ + seq![' '] + rest),
        writeful("dd"@ + seq![' '] + rest),
        writeful("mkfs"@ + seq![' '] + rest),
        writeful("shred"@ + seq![' '] + rest),
        writeful("fallocate"@ + seq![' '] + rest),
        writeful("truncate"@ + seq![' '] + rest),
        writeful("tee"@ + seq![' '] + rest),
        writeful("sponge"@ + seq![' '] + rest),
        writeful("reboot"@ + seq![' '] + rest),
        writeful("shutdown"@ + seq![' '] + rest),
        writeful("halt"@ + seq![' '] + rest),
        writeful("poweroff"@ + seq![' '] + rest),
{
    lemma_word_literals();
    lemma_command_writes("rm"@, rest);
    lemma_command_writes("mv"@, rest);
    lemma_command_writes("cp"@, rest);
    lemma_command_writes("mkdir"@, rest);
    lemma_command_writes("rmdir"@, rest);
    lemma_command_writes("chmod"@, rest);
    lemma_command_writes("chown"@, rest);
    lemma_command_writes("ln"@, rest);
    lemma_command_writes("touch"@, rest);
    lemma_command_writes("dd"@, rest);
    lemma_command_writes("mkfs"@, rest);
    lemma_command_writes("shred"@, rest);
    lemma_command_writes("fallocate"@, rest);
    lemma_command_writes("truncate"@, rest);
    lemma_command_writes("tee"@, rest);
    lemma_command_writes("sponge"@, rest);
    lemma_command_writes("reboot"@, rest);
    lemma_command_writes("shutdown"@, rest);
    lemma_command_writes("halt"@, rest);
    lemma_command_writes("poweroff"@, rest);
}

/// Whatever starts, stops or reconfigures a service is a write.
pub proof fn law_service_changes_write(rest: Seq<char>)
    ensures
        writeful("systemctl"@ + seq![' '] + "restart"@ + seq![' '] + rest),
        writeful("systemctl"@ + seq![' '] + "stop"@ + seq![' '] + rest),
        writeful("systemctl"@ + seq![' '] + "start"@ + seq![' '] + rest),
        writeful("systemctl"@ + seq![' '] + "enable"@ + seq![' '] + rest),
        writeful("systemctl"@ + seq![' '] + "disable"@ + seq![' '] + rest),
        writeful("systemctl"@ + seq![' '] + "mask"@ + seq![' '] + rest),
        writeful("systemctl"@ + seq![' '] + "unmask"@ + seq![' '] + rest),
        writeful("systemctl"@ + seq![' '] + "reload"@ + seq![' '] + rest),
        writeful("service"@ + seq![' '] + "restart"@ + seq![' '] + rest),
        writeful("service"@ + seq![' '] + "stop"@ + seq![' '] + rest),
        writeful("service"@ + seq![' '] + "start"@ + seq![' '] + rest),
{
    lemma_word_literals();
    lemma_subcommand_writes("systemctl"@, "restart"@, rest);
    lemma_subcommand_writes("systemctl"@, "stop"@, rest);
    lemma_subcommand_writes("systemctl"@, "start"@, rest);
    lemma_subcommand_writes("systemctl"@, "enable"@, rest);
    lemma_subcommand_writes("systemctl"@, "disable"@, rest);
    lemma_subcommand_writes("systemctl"@, "mask"@, rest);
    lemma_subcommand_writes("systemctl"@, "unmask"@, rest);
    lemma_subcommand_writes("systemctl"@, "reload"@, rest);
    lemma_subcommand_writes("service"@, "restart"@, rest);
    lemma_subcommand_writes("service"@, "stop"@, rest);
    lemma_subcommand_writes("service"@, "start"@, rest);
}

/// Whatever runs, changes or publishes a container is a write.
pub proof fn law_container_changes_write(rest: Seq<char>)
    ensures
        writeful("docker"@ + seq![' '] + "run"@ + seq![' '] + rest),
        writeful("docker"@ + seq![' '] + "rm"@ + seq![' '] + rest),
        writeful("docker"@ + seq![' '] + "rmi"@ + seq![' '] + rest),
        writeful("docker"@ + seq![' '] + "stop"@ + seq![' '] + rest),
        writeful("docker"@ + seq![' '] + "start"@ + seq![' '] + rest),
        writeful("docker"@ + seq![' '] + "restart"@ + seq![' '] + rest),
        writeful("docker"@ + seq![' '] + "kill"@ + seq![' '] + rest),
        writeful("docker"@ + seq![' '] + "exec"@ + seq![' '] + rest),
        writeful("docker"@ + seq![' '] + "compose"@ + seq![' '] + rest),
        writeful("docker"@ + seq![' '] + "build"@ + seq![' '] + rest),
        writeful("docker"@ + seq![' '] + "pull"@ + seq![' '] + rest),
        writeful("docker"@ + seq![' '] + "push"@ + seq![' '] + rest),
{
    lemma_word_literals();
    lemma_subcommand_writes("docker"@, "run"@, rest);
    lemma_subcommand_writes("docker"@, "rm"@, rest);
    lemma_subcommand_writes("docker"@, "rmi"@, rest);
    lemma_subcommand_writes("docker"@, "stop"@, rest);
    lemma_subcommand_writes("docker"@, "start"@, rest);
    lemma_subcommand_writes("docker"@, "restart"@, rest);
    lemma_subcommand_writes("docker"@, "kill"@, rest);
    lemma_subcommand_writes("docker"@, "exec"@, rest);
    lemma_subcommand_writes("docker"@, "compose"@, rest);
    lemma_subcommand_writes("docker"@, "build"@, rest);
    lemma_subcommand_writes("docker"@, "pull"@, rest);
    lemma_subcommand_writes("docker"@, "push"@, rest);
}

/// Whatever installs or removes a package is a write.
pub proof fn law_package_changes_write(rest: Seq<char>)
    ensures
        writeful("apt"@ + seq![' '] + "install"@ + seq![' '] + rest),
        writeful("apt"@ + seq![' '] + "upgrade"@ + seq![' '] + rest),
        writeful("apt"@ + seq![' '] + "remove"@ + seq![' '] + rest),
        writeful("apt"@ + seq![' '] + "purge"@ + seq![' '] + rest),
        writeful("apt"@ + seq![' '] + "autoremove"@ + seq![' '] + rest),
        writeful("apt-get"@ + seq![' '] + "install"@ + seq![' '] + rest),
        writeful("apt-get"@ + seq![' '] + "upgrade"@ + seq![' '] + rest),
        writeful("apt-get"@ + seq![' '] + "remove"@ + seq![' '] + rest),
        writeful("apt-get"@ + seq![' '] + "purge"@ + seq![' '] + rest),
        writeful("yum"@ + seq![' '] + "install"@ + seq![' '] + rest),
        writeful("yum"@ + seq![' '] + "remove"@ + seq![' '] + rest),
        writeful("yum"@ + seq![' '] + "update"@ + seq![' '] + rest),
        writeful("dnf"@ + seq![' '] + "install"@ + seq![' '] + rest),
        writeful("dnf"@ + seq![' '] + "remove"@ + seq![' '] + rest),
        writeful("dnf"@ + seq![' '] + "update"@ + seq![' '] + rest),
        writeful("pacman"@ + seq![' '] + "-s"@ + seq![' '] + rest),
        writeful("pacman"@ + seq![' '] + "-r"@ + seq![' '] + rest),
        writeful("pacman"@ + seq![' '] + "-u"@ + seq![' '] + rest),
        writeful("pacman"@ + seq![' '] + "-syu"@ + seq![' '] + rest),
        writeful("pip"@ + seq![' '] + "install"@ + seq![' '] + rest),
        writeful("pip"@ + seq![' '] + "uninstall"@ + seq![' '] + rest),
        writeful("pip3"@ + seq![' '] + "install"@ + seq![' '] + rest),
        writeful("pip3"@ + seq![' '] + "uninstall"@ + seq![' '] + rest),
        writeful("npm"@ + seq![' '] + "install"@ + seq![' '] + rest),
        writeful("npm"@ + seq![' '] + "i"@ + seq![' '] + rest),
        writeful("npm"@ + seq![' '] + "uninstall"@ + seq![' '] + rest),
        writeful("yarn"@ + seq![' '] + "add"@ + seq![' '] + rest),
        writeful("yarn"@ + seq![' '] + "remove"@ + seq![' '] + rest),
        writeful("pnpm"@ + seq![' '] + "add"@ + seq![' '] + rest),
        writeful("pnpm"@ + seq![' '] + "remove"@ + seq![' '] + rest),
{
    lemma_word_literals();
    lemma_subcommand_writes("apt"@, "install"@, rest);
    lemma_subcommand_writes("apt"@, "upgrade"@, rest);
    lemma_subcommand_writes("apt"@, "remove"@, rest);
    lemma_subcommand_writes("apt"@, "purge"@, rest);
    lemma_subcommand_writes("apt"@, "autoremove"@, rest);
    lemma_subcommand_writes("apt-get"@, "install"@, rest);
    lemma_subcommand_writes("apt-get"@, "upgrade"@, rest);
    lemma_subcommand_writes("apt-get"@, "remove"@, rest);
    lemma_subcommand_writes("apt-get"@, "purge"@, rest);
    lemma_subcommand_writes("yum"@, "install"@, rest);
    lemma_subcommand_writes("yum"@, "remove"@, rest);
    lemma_subcommand_writes("yum"@, "update"@, rest);
    lemma_subcommand_writes("dnf"@, "install"@, rest);
    lemma_subcommand_writes("dnf"@, "remove"@, rest);
    lemma_subcommand_writes("dnf"@, "update"@, rest);
    lemma_subcommand_writes("pacman"@, "-s"@, rest);
    lemma_subcommand_writes("pacman"@, "-r"@, rest);
    lemma_subcommand_writes("pacman"@, "-u"@, rest);
    lemma_subcommand_writes("pacman"@, "-syu"@, rest);
    lemma_subcommand_writes("pip"@, "install"@, rest);
    lemma_subcommand_writes("pip"@, "uninstall"@, rest);
    lemma_subcommand_writes("pip3"@, "install"@, rest);
    lemma_subcommand_writes("pip3"@, "uninstall"@, rest);
    lemma_subcommand_writes("npm"@, "install"@, rest);
    lemma_subcommand_writes("npm"@, "i"@, rest);
    lemma_subcommand_writes("npm"@, "uninstall"@, rest);
    lemma_subcommand_writes("yarn"@, "add"@, rest);
    lemma_subcommand_writes("yarn"@, "remove"@, rest);
    lemma_subcommand_writes("pnpm"@, "add"@, rest);
    lemma_subcommand_writes("pnpm"@, "remove"@, rest);
}

/// Whatever moves a branch or the working tree of a repository is a write.
pub proof fn law_repository_changes_write(rest: Seq<char>)
    ensures
        writeful("git"@ + seq![' '] + "push"@ + seq![' '] + rest),
        writeful("git"@ + seq![' '] + "reset"@ + seq![' '] + rest),
        writeful("git"@ + seq![' '] + "checkout"@ + seq![' '] + rest),
        writeful("git"@ + seq![' '] + "rebase"@ + seq![' '] + rest),
        writeful("git"@ + seq![' '] + "merge"@ + seq![' '] + rest),
        writeful("git"@ + seq![' '] + "pull"@ + seq![' '] + rest),
        writeful("git"@ + seq![' '] + "commit"@ + seq![' '] + rest),
        writeful("git"@ + seq![' '] + "clean"@ + seq![' '] + rest),
{
    lemma_word_literals();
    lemma_subcommand_writes("git"@, "push"@, rest);
    lemma_subcommand_writes("git"@, "reset"@, rest);
    lemma_subcommand_writes("git"@, "checkout"@, rest);
    lemma_subcommand_writes("git"@, "rebase"@, rest);
    lemma_subcommand_writes("git"@, "merge"@, rest);
    lemma_subcommand_writes("git"@, "pull"@, rest);
    lemma_subcommand_writes("git"@, "commit"@, rest);
    lemma_subcommand_writes("git"@, "clean"@, rest);
}

/// Between double quotes a backslash protects a quote, a backslash, a dollar
/// sign, a backquote and a line break, and is a character like any other before
/// anything else.
pub proof fn law_backslash_between_double_quotes(c: char, rest: Seq<char>, r: ReaderView)
    requires
        r.in_double,
        !r.in_single,
    ensures
        c == '"' || c == '\\' || c == '$' || c == '`' || c == '\n' ==> segments_from(
            seq!['\\', c] + rest,
            r,
        ) == segments_from(rest, ReaderView { word: r.word.push(c), ..r }),
        c != '"' && c != '\\' && c != '$' && c != '`' && c != '\n' ==> segments_from(
            seq!['\\', c] + rest,
            r,
        ) == segments_from(rest, ReaderView { word: r.word.push('\\').push(c), ..r }),
{
    let s = seq!['\\', c] + rest;
    assert(s.skip(2) =~= rest);
    assert(s.skip(1).skip(1) =~= rest);
    assert(s.skip(1)[0] == c);
    if !escapable(c) {
        let next = with_char(r, '\\');
        assert(segments_from(s, r) == segments_from(s.skip(1), next));
        assert(segments_from(s.skip(1), next) == segments_from(rest, with_char(next, c)));
    }
}

proof fn lemma_plain_pair(w: Seq<char>, rest: Seq<char>)
    requires
        is_plain_word(w),
        forall|i: int| 0 <= i < rest.len() ==> is_plain(#[trigger] rest[i]),
    ensures
        segments_of(w + seq![' '] + rest).len() == 1,
        segments_of(w + seq![' '] + rest)[0].first == Some(w),
        !segments_of(w + seq![' '] + rest)[0].redirect,
{
    let s = w + seq![' '] + rest;
    assert forall|i: int| 0 <= i < s.len() implies is_plain(#[trigger] s[i]) by {
        if i < w.len() {
            assert(s[i] == w[i]);
        } else if i > w.len() {
            assert(s[i] == rest[i - w.len() - 1]);
        }
    }
    law_plain_command_is_its_words(s);
    law_command_begins_with_its_words(w, w, rest);
}

/// A command that no list begins with is no write, whatever plain words it is
/// given.
pub proof fn law_unlisted_command_does_not_write(w: Seq<char>, rest: Seq<char>)
    requires
        is_plain_word(w),
        lower(w) != "rm"@,
        lower(w) != "mv"@,
        lower(w) != "cp"@,
        lower(w) != "mkdir"@,
        lower(w) != "rmdir"@,
        lower(w) != "chmod"@,
        lower(w) != "chown"@,
        lower(w) != "ln"@,
        lower(w) != "touch"@,
        lower(w) != "dd"@,
        lower(w) != "mkfs"@,
        lower(w) != "shred"@,
        lower(w) != "fallocate"@,
        lower(w) != "truncate"@,
        lower(w) != "tee"@,
        lower(w) != "sponge"@,
        lower(w) != "reboot"@,
        lower(w) != "shutdown"@,
        lower(w) != "halt"@,
        lower(w) != "poweroff"@,
        lower(w) != "systemctl"@,
        lower(w) != "service"@,
        lower(w) != "docker"@,
        lower(w) != "apt"@,
        lower(w) != "apt-get"@,
        lower(w) != "yum"@,
        lower(w) != "dnf"@,
        lower(w) != "pacman"@,
        lower(w) != "pip"@,
        lower(w) != "pip3"@,
        lower(w) != "npm"@,
        lower(w) != "yarn"@,
        lower(w) != "pnpm"@,
        lower(w) != "git"@,
        forall|i: int| 0 <= i < rest.len() ==> is_plain(#[trigger] rest[i]),
    ensures
        !writeful(w + seq![' '] + rest),
{
    lemma_plain_pair(w, rest);
}

/// Of the commands that both look and change, what the lists do not name only
/// looks.
pub proof fn law_unlisted_subcommand_does_not_write(b: Seq<char>, rest: Seq<char>)
    requires
        is_plain_word(b),
        forall|i: int| 0 <= i < rest.len() ==> is_plain(#[trigger] rest[i]),
    ensures
        lower(b) != "restart"@ && lower(b) != "stop"@ && lower(b) != "start"@ && lower(b) != "enable"@ && lower(b) != "disable"@ && lower(b) != "mask"@ && lower(b) != "unmask"@ && lower(b) != "reload"@ ==> !writeful("systemctl"@ + seq![' '] + b + seq![' '] + rest),
        lower(b) != "restart"@ && lower(b) != "stop"@ && lower(b) != "start"@ ==> !writeful("service"@ + seq![' '] + b + seq![' '] + rest),
        lower(b) != "run"@ && lower(b) != "rm"@ && lower(b) != "rmi"@ && lower(b) != "stop"@ && lower(b) != "start"@ && lower(b) != "restart"@ && lower(b) != "kill"@ && lower(b) != "exec"@ && lower(b) != "compose"@ && lower(b) != "build"@ && lower(b) != "pull"@ && lower(b) != "push"@ ==> !writeful("docker"@ + seq![' '] + b + seq![' '] + rest),
        lower(b) != "install"@ && lower(b) != "upgrade"@ && lower(b) != "remove"@ && lower(b) != "purge"@ && lower(b) != "autoremove"@ ==> !writeful("apt"@ + seq![' '] + b + seq![' '] + rest),
        lower(b) != "install"@ && lower(b) != "upgrade"@ && lower(b) != "remove"@ && lower(b) != "purge"@ ==> !writeful("apt-get"@ + seq![' '] + b + seq![' '] + rest),
        lower(b) != "install"@ && lower(b) != "remove"@ && lower(b) != "update"@ ==> !writeful("yum"@ + seq![' '] + b + seq![' '] + rest),
        lower(b) != "install"@ && lower(b) != "remove"@ && lower(b) != "update"@ ==> !writeful("dnf"@ + seq![' '] + b + seq![' '] + rest),
        lower(b) != "-s"@ && lower(b) != "-r"@ && lower(b) != "-u"@ && lower(b) != "-syu"@ ==> !writeful("pacman"@ + seq![' '] + b + seq![' '] + rest),
        lower(b) != "install"@ && lower(b) != "uninstall"@ ==> !writeful("pip"@ + seq![' '] + b + seq![' '] + rest),
        lower(b) != "install"@ && lower(b) != "uninstall"@ ==> !writeful("pip3"@ + seq![' '] + b + seq![' '] + rest),
        lower(b) != "install"@ && lower(b) != "i"@ && lower(b) != "uninstall"@ ==> !writeful("npm"@ + seq![' '] + b + seq![' '] + rest),
        lower(b) != "add"@ && lower(b) != "remove"@ ==> !writeful("yarn"@ + seq![' '] + b + seq![' '] + rest),
        lower(b) != "add"@ && lower(b) != "remove"@ ==> !writeful("pnpm"@ + seq![' '] + b + seq![' '] + rest),
        lower(b) != "push"@ && lower(b) != "reset"@ && lower(b) != "checkout"@ && lower(b) != "rebase"@ && lower(b) != "merge"@ && lower(b) != "pull"@ && lower(b) != "commit"@ && lower(b) != "clean"@ ==> !writeful("git"@ + seq![' '] + b + seq![' '] + rest),
{
    lemma_word_literals();
    law_white_space();
    reveal_strlit("systemctl");
    reveal_strlit("service");
    reveal_strlit("docker");
    reveal_strlit("apt");
    reveal_strlit("apt-get");
    reveal_strlit("yum");
    reveal_strlit("dnf");
    reveal_strlit("pacman");
    reveal_strlit("pip");
    reveal_strlit("pip3");
    reveal_strlit("npm");
    reveal_strlit("yarn");
    reveal_strlit("pnpm");
    reveal_strlit("git");
    reveal_strlit("rm");
    reveal_strlit("mv");
    reveal_strlit("cp");
    reveal_strlit("mkdir");
    reveal_strlit("rmdir");
    reveal_strlit("chmod");
    reveal_strlit("chown");
    reveal_strlit("ln");
    reveal_strlit("touch");
    reveal_strlit("dd");
    reveal_strlit("mkfs");
    reveal_strlit("shred");
    reveal_strlit("fallocate");
    reveal_strlit("truncate");
    reveal_strlit("tee");
    reveal_strlit("sponge");
    reveal_strlit("reboot");
    reveal_strlit("shutdown");
    reveal_strlit("halt");
    reveal_strlit("poweroff");
    lemma_tool_looks("systemctl"@, b, rest);
    lemma_tool_looks("service"@, b, rest);
    lemma_tool_looks("docker"@, b, rest);
    lemma_tool_looks("apt"@, b, rest);
    lemma_tool_looks("apt-get"@, b, rest);
    lemma_tool_looks("yum"@, b, rest);
    lemma_tool_looks("dnf"@, b, rest);
    lemma_tool_looks("pacman"@, b, rest);
    lemma_tool_looks("pip"@, b, rest);
    lemma_tool_looks("pip3"@, b, rest);
    lemma_tool_looks("npm"@, b, rest);
    lemma_tool_looks("yarn"@, b, rest);
    lemma_tool_looks("pnpm"@, b, rest);
    lemma_tool_looks("git"@, b, rest);
}

proof fn lemma_tool_looks(t: Seq<char>, b: Seq<char>, rest: Seq<char>)
    requires
        is_plain_word(t),
        lower(t) == t,
        is_plain_word(b),
        forall|i: int| 0 <= i < rest.len() ==> is_plain(#[trigger] rest[i]),
    ensures
        !always_writes(t) && !subcommand_writes(t, lower(b)) ==> !writeful(
            t + seq![' '] + b + seq![' '] + rest,
        ),
{
    let more = b + seq![' '] + rest;
    let s = t + seq![' '] + b + seq![' '] + rest;
    assert(s =~= t + seq![' '] + more);
    assert forall|i: int| 0 <= i < more.len() implies is_plain(#[trigger] more[i]) by {
        if i < b.len() {
            assert(more[i] == b[i]);
        } else if i > b.len() {
            assert(more[i] == rest[i - b.len() - 1]);
        }
    }
    lemma_plain_pair(t, more);
    law_command_begins_with_its_words(t, b, rest);
}

} // verus!

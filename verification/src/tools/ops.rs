//! Host introspection: `facts`, `sys`, `svc`.
//!
//! Every probe here runs a machine-readable invocation rather than the
//! human-facing one. Column-aligned human output is what models mis-parse, and
//! re-emitting it costs tokens that carry no information.

use vstd::prelude::*;
use vstd::string::*;

use crate::audit::{rfc3339, rfc3339_of};
use crate::config::HumanDuration;
use crate::confirm::{with_approval, Answer, Approvals, Confirm};
use crate::errors::{Result, SshError};
use crate::guards::{checked, CheckView, CompiledGuards, CompiledView};
use crate::json::{json_field, json_field_of, JsonField, JsonFieldView};
use crate::output::toon::{
    block_text, field_text, hint_text, row_views, scalar, str_views, string_views, table_text, Toon,
};
use crate::server::{chain, chain_rules, chain_state, guard_prompt, ChainView};
use crate::ssh_config::opt_view;
use crate::text::{
    bytes_of, chars_of, contains_part, decimal, has_part, has_prefix, has_suffix, holds, i64_of,
    in_order, is_digit, is_space, join, join_with, joined2, joined3,
    law_white_space, lemma_has_part, lemma_text_le_total, lemma_text_le_transitive, lemma_until_is,
    lemma_views_push, lines, lines_of, lower, lower_char, parse_i64, push_decimal, push_signed,
    same, signed_decimal, split, split_on, string_of, strip_prefixes, strip_suffixes, text_le,
    text_of, to_text, trim, trimmed, trimmed_end, trimmed_start, until, until_from, views,
    without_prefixes, without_suffixes, words, words_of,
};
use crate::tools::gate::{clear_command, lets_through, AskedCommand, Clearance, Clearing};
use crate::tools::{
    law_shell_reads_quoted_word_back, maybe_field, push_maybe, quoted_word, sh_word, shell_quote,
    str_view,
};

verus! {

/// Probe script for `facts`. POSIX sh only: it has to run under dash, ash and
/// busybox, not just bash. Emits `key=value` lines and never fails the call,
/// so a missing tool yields an absent key rather than a non-zero exit.
pub const FACTS_PROBE: &'static str = r#"
p() { printf '%s=%s\n' "$1" "$2"; }
p os "$(uname -s 2>/dev/null)"
p kernel "$(uname -r 2>/dev/null)"
p arch "$(uname -m 2>/dev/null)"
p hostname "$(uname -n 2>/dev/null)"
if [ -r /etc/os-release ]; then
  . /etc/os-release 2>/dev/null
  p distro "${ID:-}"
  p distro_version "${VERSION_ID:-}"
fi
[ -r /proc/uptime ] && p uptime_s "$(cut -d' ' -f1 /proc/uptime 2>/dev/null)"
p cpus "$(nproc 2>/dev/null || sysctl -n hw.ncpu 2>/dev/null)"
if [ -r /proc/meminfo ]; then
  p mem_total_kb "$(awk '/^MemTotal:/{print $2}' /proc/meminfo 2>/dev/null)"
  p mem_avail_kb "$(awk '/^MemAvailable:/{print $2}' /proc/meminfo 2>/dev/null)"
fi
p root_free_kb "$(df -Pk / 2>/dev/null | awk 'NR==2{print $4}')"
if [ -d /run/systemd/system ]; then p init systemd
elif [ -d /run/openrc ]; then p init openrc
elif [ -x /sbin/init ]; then p init sysv
fi
for m in apt-get dnf yum apk pacman zypper brew; do
  command -v "$m" >/dev/null 2>&1 && { p pkg_mgr "$m"; break; }
done
p shell "$(basename "${SHELL:-sh}" 2>/dev/null)"
if [ -f /.dockerenv ]; then p container docker
elif grep -qi microsoft /proc/sys/kernel/osrelease 2>/dev/null; then p container wsl
elif grep -qa 'lxc\|docker\|containerd' /proc/1/cgroup 2>/dev/null; then p container yes
else p container none
fi
if sudo -n true >/dev/null 2>&1; then p sudo_nopasswd yes; else p sudo_nopasswd no; fi
h=
# Every name another tool gates on has to be in this list, or that tool reads
# the absence as "not installed" and refuses on a host that has it: `sys
# what=net` did exactly that for `ss`, on every host, and `shot` never picked
# `spectacle`.
for c in rg rsync tmux screen python3 node jq git docker podman systemctl ss curl wget tar zstd sha256sum grim scrot import gnome-screenshot spectacle; do
  command -v "$c" >/dev/null 2>&1 && h="$h,$c"
done
p has "${h#,}"
"#;

// ---------------------------------------------------------------------------
// Facts
// ---------------------------------------------------------------------------

/// What a line of the probe's output says: a name and its value, around the
/// first equals sign. A line without a value says nothing.
pub open spec fn fact_in(line: Seq<char>) -> Option<(Seq<char>, Seq<char>)> {
    let l = trimmed(line);
    let n = until(l, '=');
    if n < l.len() && trimmed(l.skip(n + 1)).len() > 0 {
        Some((trimmed(l.take(n)), trimmed(l.skip(n + 1))))
    } else {
        None
    }
}

/// The value of a fact: that of the last line that says it.
pub open spec fn fact_value(ls: Seq<Seq<char>>, key: Seq<char>) -> Option<Seq<char>>
    decreases ls.len(),
{
    if ls.len() == 0 {
        None
    } else {
        match fact_in(ls.last()) {
            Some((k, v)) => if k == key {
                Some(v)
            } else {
                fact_value(ls.drop_last(), key)
            },
            None => fact_value(ls.drop_last(), key),
        }
    }
}

/// The names are in order, each once.
pub open spec fn in_key_order(p: Seq<(Seq<char>, Seq<char>)>) -> bool {
    forall|i: int, j: int|
        0 <= i < j < p.len() ==> text_le((#[trigger] p[i]).0, (#[trigger] p[j]).0) && p[i].0
            != p[j].0
}

/// The value that stands under a name.
pub open spec fn lookup(p: Seq<(Seq<char>, Seq<char>)>, key: Seq<char>) -> Option<Seq<char>>
    decreases p.len(),
{
    if p.len() == 0 {
        None
    } else if (p.last()).0 == key {
        Some((p.last()).1)
    } else {
        lookup(p.drop_last(), key)
    }
}

proof fn lemma_lookup_at(p: Seq<(Seq<char>, Seq<char>)>, i: int)
    requires
        in_key_order(p),
        0 <= i < p.len(),
    ensures
        lookup(p, (p[i]).0) == Some((p[i]).1),
    decreases p.len(),
{
    if i < p.len() - 1 {
        assert((p[i]).0 != (p[p.len() - 1]).0);
        assert(p.drop_last()[i] == p[i]);
        lemma_lookup_at(p.drop_last(), i);
    }
}

proof fn lemma_lookup_none(p: Seq<(Seq<char>, Seq<char>)>, key: Seq<char>)
    ensures
        lookup(p, key) is None <==> forall|i: int| 0 <= i < p.len() ==> (#[trigger] p[i]).0 != key,
    decreases p.len(),
{
    if p.len() > 0 {
        lemma_lookup_none(p.drop_last(), key);
        if (p.last()).0 == key {
            assert((p[p.len() - 1]).0 == key);
        } else {
            assert forall|i: int| 0 <= i < p.drop_last().len() implies p.drop_last()[i]
                == #[trigger] p[i] by {}
            if lookup(p, key) is Some {
                let i = choose|i: int|
                    0 <= i < p.drop_last().len() && (#[trigger] p.drop_last()[i]).0 == key;
                assert((p[i]).0 == key);
            }
        }
    }
}

/// Where all names of `q` but `key` have the value that they have in `p`.
proof fn lemma_lookup_other(
    p: Seq<(Seq<char>, Seq<char>)>,
    q: Seq<(Seq<char>, Seq<char>)>,
    at: int,
    gap: int,
    other: Seq<char>,
)
    requires
        in_key_order(p),
        in_key_order(q),
        gap == 0 || gap == 1,
        0 <= at < q.len(),
        q.len() == p.len() + gap,
        forall|i: int| 0 <= i < at ==> #[trigger] q[i] == p[i],
        forall|i: int| at < i < q.len() ==> #[trigger] q[i] == p[i - gap],
        gap == 0 ==> (p[at]).0 == (q[at]).0,
        other != (q[at]).0,
    ensures
        lookup(q, other) == lookup(p, other),
{
    lemma_lookup_none(p, other);
    lemma_lookup_none(q, other);
    if lookup(p, other) is Some {
        let i = choose|i: int| 0 <= i < p.len() && (#[trigger] p[i]).0 == other;
        lemma_lookup_at(p, i);
        let j = if i < at {
            i
        } else {
            i + gap
        };
        assert(q[j] == p[i]);
        lemma_lookup_at(q, j);
    } else if lookup(q, other) is Some {
        let j = choose|j: int| 0 <= j < q.len() && (#[trigger] q[j]).0 == other;
        let i = if j < at {
            j
        } else {
            j - gap
        };
        assert(q[j] == p[i]);
    }
}

pub open spec fn pair_views(s: Seq<(String, String)>) -> Seq<(Seq<char>, Seq<char>)> {
    Seq::new(s.len(), |i: int| ((s[i]).0@, (s[i]).1@))
}

/// Cached per-host profile. Every other tool that has to pick between two
/// backends (ripgrep or grep, docker or podman, which screenshot binary
/// exists) reads this instead of probing again.
#[derive(Debug)]
pub struct HostFacts {
    fields: Vec<(String, String)>,
}

impl HostFacts {
    #[verifier::type_invariant]
    spec fn wf(self) -> bool {
        in_key_order(pair_views(self.fields@))
    }

    /// The facts, by name.
    pub closed spec fn pairs(self) -> Seq<(Seq<char>, Seq<char>)> {
        pair_views(self.fields@)
    }

    /// What the output of the probe says.
    pub fn parse(raw: &str) -> (r: Self)
        ensures
            in_key_order(r.pairs()),
            forall|key: Seq<char>| #[trigger]
                lookup(r.pairs(), key) == fact_value(lines_of(raw@), key),
    {
        let ls = lines(raw);
        let ghost all = lines_of(raw@);
        let mut fields: Vec<(String, String)> = Vec::new();
        let mut i: usize = 0;
        while i < ls.len()
            invariant
                i <= ls@.len(),
                all == views(ls@),
                in_key_order(pair_views(fields@)),
                forall|key: Seq<char>| #[trigger]
                    lookup(pair_views(fields@), key) == fact_value(all.take(i as int), key),
            decreases ls@.len() - i,
        {
            proof {
                assert(all.take(i + 1).drop_last() =~= all.take(i as int));
                assert(all.take(i + 1).last() == ls@[i as int]@);
            }
            match read_fact(ls[i].as_str()) {
                Some((k, v)) => {
                    put(&mut fields, k, v);
                },
                None => {},
            }
            i = i + 1;
        }
        assert(all.take(i as int) =~= all);
        HostFacts { fields }
    }

    pub fn get(&self, key: &str) -> (r: Option<&str>)
        ensures
            str_view(r) == lookup(self.pairs(), key@),
    {
        proof {
            use_type_invariant(self);
        }
        let ghost p = self.pairs();
        let mut i: usize = 0;
        while i < self.fields.len()
            invariant
                i <= self.fields@.len(),
                p == pair_views(self.fields@),
                in_key_order(p),
                forall|j: int| 0 <= j < i ==> (#[trigger] p[j]).0 != key@,
            decreases self.fields@.len() - i,
        {
            assert((p[i as int]).0 == (self.fields@[i as int]).0@);
            if same(self.fields[i].0.as_str(), key) {
                proof {
                    lemma_lookup_at(p, i as int);
                }
                return Some(self.fields[i].1.as_str());
            }
            i = i + 1;
        }
        proof {
            lemma_lookup_none(p, key@);
        }
        None
    }

    /// True when the remote has the named binary on `PATH`, per the probe.
    pub fn has(&self, tool: &str) -> (r: bool)
        ensures
            r == has_tool(self.pairs(), tool@),
    {
        match self.get("has") {
            Some(list) => holds(&split(list, ','), tool),
            None => false,
        }
    }

    /// Whether the probe said nothing.
    pub fn is_empty(&self) -> (r: bool)
        ensures
            r == (self.pairs().len() == 0),
    {
        self.fields.len() == 0
    }
}

impl Clone for HostFacts {
    fn clone(&self) -> (r: Self)
        ensures
            r.pairs() == self.pairs(),
    {
        proof {
            use_type_invariant(self);
        }
        let mut fields: Vec<(String, String)> = Vec::new();
        let mut i: usize = 0;
        while i < self.fields.len()
            invariant
                i <= self.fields@.len(),
                pair_views(fields@) == self.pairs().take(i as int),
            decreases self.fields@.len() - i,
        {
            let ghost before = pair_views(fields@);
            let key = self.fields[i].0.clone();
            let value = self.fields[i].1.clone();
            let ghost pair = (key@, value@);
            fields.push((key, value));
            proof {
                assert(pair == self.pairs()[i as int]);
                assert(pair_views(fields@) =~= before.push(pair));
                assert(self.pairs().take(i + 1) =~= self.pairs().take(i as int).push(pair));
            }
            i = i + 1;
        }
        assert(pair_views(fields@) =~= self.pairs());
        HostFacts { fields }
    }
}

/// The probe found the binary.
pub open spec fn has_tool(p: Seq<(Seq<char>, Seq<char>)>, tool: Seq<char>) -> bool {
    match lookup(p, "has"@) {
        Some(list) => split_on(list, ',').contains(tool),
        None => false,
    }
}

fn read_fact(line: &str) -> (r: Option<(String, String)>)
    ensures
        match r {
            Some(x) => fact_in(line@) == Some((x.0@, x.1@)),
            None => fact_in(line@) is None,
        },
{
    let l = trim(line);
    let v = chars_of(l.as_str());
    let n: usize = v.len();
    let at: usize = until_from(&v, '=', 0);
    assert(v@.skip(0) =~= v@);
    if at == n {
        return None;
    }
    let value = string_of(&v, at + 1, n);
    assert(value@ =~= l@.skip(at + 1));
    let value = trim(value.as_str());
    if value.as_str().is_empty() {
        return None;
    }
    let key = string_of(&v, 0, at);
    assert(key@ =~= l@.take(at as int));
    Some((trim(key.as_str()), value))
}

fn put(fields: &mut Vec<(String, String)>, k: String, v: String)
    requires
        in_key_order(pair_views(old(fields)@)),
    ensures
        in_key_order(pair_views(final(fields)@)),
        forall|key: Seq<char>| #[trigger]
            lookup(pair_views(final(fields)@), key) == (if key == k@ {
                Some(v@)
            } else {
                lookup(pair_views(old(fields)@), key)
            }),
{
    let ghost p = pair_views(fields@);
    let ghost kv = k@;
    let ghost vv = v@;
    let mut i: usize = 0;
    while i < fields.len() && in_order(fields[i].0.as_str(), k.as_str())
        invariant
            *fields == *old(fields),
            p == pair_views(fields@),
            in_key_order(p),
            kv == k@,
            vv == v@,
            i <= p.len(),
            forall|j: int| 0 <= j < i ==> text_le((#[trigger] p[j]).0, kv) && (p[j]).0 != kv,
        decreases p.len() - i,
    {
        assert((p[i as int]).0 == (fields@[i as int]).0@);
        if same(fields[i].0.as_str(), k.as_str()) {
            let ghost at = i as int;
            fields.set(i, (k, v));
            proof {
                let q = pair_views(fields@);
                assert(q =~= p.update(at, (kv, vv)));
                assert forall|a: int, b: int| 0 <= a < b < q.len() implies text_le(
                    (#[trigger] q[a]).0,
                    (#[trigger] q[b]).0,
                ) && q[a].0 != q[b].0 by {
                    assert((q[a]).0 == (p[a]).0);
                    assert((q[b]).0 == (p[b]).0);
                }
                assert forall|key: Seq<char>| #[trigger] lookup(q, key) == (if key == kv {
                    Some(vv)
                } else {
                    lookup(p, key)
                }) by {
                    lemma_lookup_at(q, at);
                    if key != kv {
                        lemma_lookup_other(p, q, at, 0, key);
                    }
                }
            }
            return ;
        }
        i = i + 1;
    }
    let ghost at = i as int;
    fields.insert(i, (k, v));
    proof {
        let q = pair_views(fields@);
        assert(q =~= p.insert(at, (kv, vv)));
        if at < p.len() {
            assert((p[at]).0 == (old(fields)@[at]).0@);
            lemma_text_le_total((p[at]).0, kv);
        }
        assert forall|a: int, b: int| 0 <= a < b < q.len() implies text_le(
            (#[trigger] q[a]).0,
            (#[trigger] q[b]).0,
        ) && q[a].0 != q[b].0 by {
            if b < at {
                assert(q[a] == p[a] && q[b] == p[b]);
            } else if b == at {
                assert(q[a] == p[a]);
            } else if a < at {
                assert(q[a] == p[a] && q[b] == p[b - 1]);
            } else if a == at {
                assert(q[b] == p[b - 1]);
                lemma_text_le_total((p[at]).0, (p[at]).0);
                if b - 1 > at {
                    lemma_text_le_transitive(kv, (p[at]).0, (p[b - 1]).0);
                }
                if kv == (p[b - 1]).0 && b - 1 > at {
                    assert(text_le((p[at]).0, (p[b - 1]).0));
                }
                if b - 1 == at && (p[at]).0 == kv {
                    lemma_text_le_total(kv, kv);
                }
            } else {
                assert(q[a] == p[a - 1] && q[b] == p[b - 1]);
            }
        }
        assert forall|key: Seq<char>| #[trigger] lookup(q, key) == (if key == kv {
            Some(vv)
        } else {
            lookup(p, key)
        }) by {
            lemma_lookup_at(q, at);
            if key != kv {
                lemma_lookup_other(p, q, at, 1, key);
            }
        }
    }
}

/// The error of a probe that said nothing.
pub open spec fn no_facts_text(exit_code: i32, stderr: Seq<char>) -> Seq<char> {
    "host profile probe returned nothing (exit "@ + signed_decimal(exit_code as int) + "): "@
        + trimmed(stderr)
}

/// The profile of a host, from what its probe said.
pub fn facts_from_probe(stdout: &str, exit_code: i32, stderr: &str) -> (r: Result<HostFacts>)
    ensures
        match r {
            Ok(f) => in_key_order(f.pairs()) && f.pairs().len() > 0 && forall|key: Seq<char>|
                #[trigger]
                lookup(f.pairs(), key) == fact_value(lines_of(stdout@), key),
            Err(e) => e is Other && e->Other_0@ == no_facts_text(exit_code, stderr@)
                && forall|key: Seq<char>| #[trigger]
                fact_value(lines_of(stdout@), key) is None,
        },
{
    let facts = HostFacts::parse(stdout);
    if facts.is_empty() {
        let mut m = "host profile probe returned nothing (exit ".to_owned();
        push_signed(&mut m, exit_code as i64);
        m.push_str("): ");
        let why = trim(stderr);
        m.push_str(why.as_str());
        proof {
            assert forall|key: Seq<char>| #[trigger]
                fact_value(lines_of(stdout@), key) is None by {
                assert(lookup(facts.pairs(), key) is None);
            }
        }
        return Err(SshError::Other(m));
    }
    Ok(facts)
}

/// The facts but for the list of binaries, one to a line.
pub open spec fn facts_fields(p: Seq<(Seq<char>, Seq<char>)>) -> Seq<char>
    decreases p.len(),
{
    if p.len() == 0 {
        Seq::empty()
    } else if (p.last()).0 == "has"@ {
        facts_fields(p.drop_last())
    } else {
        facts_fields(p.drop_last()) + field_text(0, (p.last()).0, scalar((p.last()).1))
    }
}

/// The answer of `facts`.
pub open spec fn facts_text(host: Seq<char>, p: Seq<(Seq<char>, Seq<char>)>) -> Seq<char> {
    field_text(0, "host"@, scalar(host)) + facts_fields(p) + maybe_field(
        "has"@,
        lookup(p, "has"@),
    )
}

impl HostFacts {
    /// The answer of `facts`.
    pub fn format(&self, host: &str) -> (r: String)
        ensures
            r@ == facts_text(host@, self.pairs()),
    {
        let mut t = Toon::new();
        let _ = t.field("host", host);
        let ghost start = t.text();
        let ghost p = self.pairs();
        let mut i: usize = 0;
        proof {
            assert(start =~= field_text(0, "host"@, scalar(host@)));
            assert(start + facts_fields(p.take(0)) =~= start);
        }
        while i < self.fields.len()
            invariant
                i <= self.fields@.len(),
                p == pair_views(self.fields@),
                t.depth() == 0,
                t.text() == start + facts_fields(p.take(i as int)),
            decreases self.fields@.len() - i,
        {
            proof {
                assert(p.take(i + 1).drop_last() =~= p.take(i as int));
                assert(p.take(i + 1).last() == p[i as int]);
            }
            let ghost before = t.text();
            if !same(self.fields[i].0.as_str(), "has") {
                let _ = t.field(self.fields[i].0.as_str(), self.fields[i].1.as_str());
                assert(t.text() =~= start + facts_fields(p.take(i + 1)));
            }
            i = i + 1;
        }
        assert(p.take(i as int) =~= p);
        push_maybe(&mut t, "has", self.get("has"));
        t.into_string()
    }
}

// ---------------------------------------------------------------------------
// Tables out of command output
// ---------------------------------------------------------------------------

/// A row of `cols` cells: the words of a line, the last cell absorbing the rest
/// of the line, or dashes where there are too few.
pub open spec fn columns_of(ws: Seq<Seq<char>>, cols: nat) -> Seq<Seq<char>> {
    if cols == 0 {
        Seq::empty()
    } else if ws.len() < cols {
        ws + Seq::new((cols - ws.len()) as nat, |i: int| "-"@)
    } else {
        ws.take(cols - 1).push(join_with(ws.skip(cols - 1), ' '))
    }
}

/// The rows of the lines that are not blank.
pub open spec fn column_rows(ls: Seq<Seq<char>>, cols: nat) -> Seq<Seq<Seq<char>>>
    decreases ls.len(),
{
    if ls.len() == 0 {
        Seq::empty()
    } else {
        let before = column_rows(ls.drop_last(), cols);
        if trimmed(ls.last()).len() == 0 {
            before
        } else {
            before.push(columns_of(words_of(trimmed(ls.last())), cols))
        }
    }
}

fn columns(ws: &Vec<String>, cols: usize) -> (r: Vec<String>)
    ensures
        views(r@) == columns_of(views(ws@), cols as nat),
{
    let ghost all = views(ws@);
    let mut row: Vec<String> = Vec::new();
    if cols == 0 {
        assert(views(row@) =~= columns_of(all, 0));
        return row;
    }
    let n: usize = ws.len();
    let head: usize = if n < cols {
        n
    } else {
        cols - 1
    };
    let mut i: usize = 0;
    while i < head
        invariant
            i <= head <= ws@.len(),
            all == views(ws@),
            views(row@) == all.take(i as int),
        decreases head - i,
    {
        let word = ws[i].clone();
        proof {
            lemma_views_push(row@, word);
            assert(all.take(i + 1) =~= all.take(i as int).push(word@));
        }
        row.push(word);
        i = i + 1;
    }
    if n < cols {
        assert(all.take(i as int) =~= all);
        let mut k: usize = n;
        assert(views(row@) =~= all + Seq::new((k - n) as nat, |j: int| "-"@));
        while k < cols
            invariant
                n <= k <= cols,
                views(row@) == all + Seq::new((k - n) as nat, |j: int| "-"@),
            decreases cols - k,
        {
            let ghost before = views(row@);
            let dash = "-".to_owned();
            proof {
                lemma_views_push(row@, dash);
            }
            row.push(dash);
            k = k + 1;
            assert(views(row@) =~= all + Seq::new((k - n) as nat, |j: int| "-"@));
        }
    } else {
        let mut rest: Vec<String> = Vec::new();
        while i < n
            invariant
                head <= i <= n,
                n == ws@.len(),
                all == views(ws@),
                views(rest@) == all.subrange(head as int, i as int),
            decreases n - i,
        {
            let word = ws[i].clone();
            proof {
                lemma_views_push(rest@, word);
                assert(all.subrange(head as int, i + 1) =~= all.subrange(head as int, i as int).push(
                    word@,
                ));
            }
            rest.push(word);
            i = i + 1;
        }
        let last = join(&rest, ' ');
        proof {
            assert(views(rest@) =~= all.skip(head as int));
            lemma_views_push(row@, last);
        }
        row.push(last);
    }
    row
}

/// Splits whitespace-separated output into rows of `cols` fields, with the
/// last column absorbing the remaining words so paths and command lines
/// survive. Short rows are padded so the table stays rectangular.
pub fn split_columns(out: &str, cols: usize) -> (r: Vec<Vec<String>>)
    ensures
        row_views(r@) == column_rows(lines_of(out@), cols as nat),
{
    let ls = lines(out);
    let ghost all = lines_of(out@);
    let mut rows: Vec<Vec<String>> = Vec::new();
    let mut i: usize = 0;
    assert(row_views(rows@) =~= column_rows(all.take(0), cols as nat));
    while i < ls.len()
        invariant
            i <= ls@.len(),
            all == views(ls@),
            row_views(rows@) == column_rows(all.take(i as int), cols as nat),
        decreases ls@.len() - i,
    {
        let ghost before = row_views(rows@);
        proof {
            assert(all.take(i + 1).drop_last() =~= all.take(i as int));
            assert(all.take(i + 1).last() == ls@[i as int]@);
        }
        let line = trim(ls[i].as_str());
        if !line.as_str().is_empty() {
            let ws = words(line.as_str());
            let row = columns(&ws, cols);
            let ghost cells = views(row@);
            rows.push(row);
            proof {
                assert(string_views(rows@[rows@.len() - 1]@) =~= cells);
                assert(row_views(rows@) =~= before.push(cells));
            }
        }
        i = i + 1;
    }
    assert(all.take(i as int) =~= all);
    rows
}

/// The table is rectangular: each row has as many cells as it has columns.
pub proof fn law_rows_are_rectangular(ls: Seq<Seq<char>>, cols: nat)
    ensures
        forall|i: int|
            0 <= i < column_rows(ls, cols).len() ==> (#[trigger] column_rows(ls, cols)[i]).len()
                == cols,
    decreases ls.len(),
{
    if ls.len() > 0 {
        law_rows_are_rectangular(ls.drop_last(), cols);
        let before = column_rows(ls.drop_last(), cols);
        assert forall|i: int| 0 <= i < column_rows(ls, cols).len() implies (#[trigger] column_rows(
            ls,
            cols,
        )[i]).len() == cols by {
            if i < before.len() {
                assert(column_rows(ls, cols)[i] == before[i]);
            }
        }
    }
}

/// What a line of `ss` says of a listening socket: the protocol, the address
/// and the process that owns it.
pub open spec fn socket_of(line: Seq<char>) -> Option<Seq<Seq<char>>> {
    let l = trimmed(line);
    let f = words_of(l);
    if f.len() > 3 {
        Some(
            seq![
                if has_part(l, "UNCONN"@) {
                    "udp"@
                } else {
                    "tcp"@
                },
                f[3],
                without_suffixes(
                    without_prefixes(
                        if f.len() > 5 {
                            f[5]
                        } else {
                            "-"@
                        },
                        "users:(("@,
                    ),
                    "))"@,
                ),
            ],
        )
    } else {
        None
    }
}

pub open spec fn sockets_of(ls: Seq<Seq<char>>) -> Seq<Seq<Seq<char>>>
    decreases ls.len(),
{
    if ls.len() == 0 {
        Seq::empty()
    } else {
        let before = sockets_of(ls.drop_last());
        match socket_of(ls.last()) {
            Some(row) => before.push(row),
            None => before,
        }
    }
}

fn read_socket(line: &str) -> (r: Option<Vec<String>>)
    ensures
        match r {
            Some(row) => socket_of(line@) == Some(views(row@)),
            None => socket_of(line@) is None,
        },
{
    let l = trim(line);
    let f = words(l.as_str());
    let ghost all = views(f@);
    if f.len() <= 3 {
        return None;
    }
    proof {
        reveal_strlit("users:((");
        reveal_strlit("))");
        assert(all[3] == f@[3]@);
    }
    let proto = if contains_part(l.as_str(), "UNCONN") {
        "udp"
    } else {
        "tcp"
    };
    let process = if f.len() > 5 {
        assert(all[5] == f@[5]@);
        f[5].clone()
    } else {
        "-".to_owned()
    };
    let process = strip_suffixes(strip_prefixes(process, "users:(("), "))");
    let mut row: Vec<String> = Vec::new();
    row.push(proto.to_owned());
    row.push(f[3].clone());
    row.push(process);
    assert(views(row@) =~= socket_of(line@)->0);
    Some(row)
}

/// `ss -ltnpH` emits `State Recv-Q Send-Q Local Peer Process`. Only the
/// address and the owning process carry information for a caller asking what
/// is listening.
pub fn parse_ss(out: &str) -> (r: Vec<Vec<String>>)
    ensures
        row_views(r@) == sockets_of(lines_of(out@)),
{
    let ls = lines(out);
    let ghost all = lines_of(out@);
    let mut rows: Vec<Vec<String>> = Vec::new();
    let mut i: usize = 0;
    assert(row_views(rows@) =~= sockets_of(all.take(0)));
    while i < ls.len()
        invariant
            i <= ls@.len(),
            all == views(ls@),
            row_views(rows@) == sockets_of(all.take(i as int)),
        decreases ls@.len() - i,
    {
        let ghost before = row_views(rows@);
        proof {
            assert(all.take(i + 1).drop_last() =~= all.take(i as int));
            assert(all.take(i + 1).last() == ls@[i as int]@);
        }
        if let Some(row) = read_socket(ls[i].as_str()) {
            let ghost cells = views(row@);
            rows.push(row);
            proof {
                assert(string_views(rows@[rows@.len() - 1]@) =~= cells);
                assert(row_views(rows@) =~= before.push(cells));
            }
        }
        i = i + 1;
    }
    assert(all.take(i as int) =~= all);
    rows
}

// ---------------------------------------------------------------------------
// The journal
// ---------------------------------------------------------------------------

/// Division that drops the fraction, whatever the sign.
pub open spec fn whole_seconds(us: int) -> int {
    if us < 0 {
        -((-us) / 1000000)
    } else {
        us / 1000000
    }
}

/// A time in microseconds since the epoch, to the second; the number of seconds
/// where no date can be made of it.
pub open spec fn epoch_text(us: int) -> Seq<char> {
    match rfc3339_of(whole_seconds(us) * 1000000000) {
        Some(s) => s,
        None => signed_decimal(whole_seconds(us)),
    }
}

/// Microseconds since the epoch to RFC 3339.
pub fn format_epoch_us(us: i64) -> (r: String)
    ensures
        r@ == epoch_text(us as int),
{
    let secs: i64 = if us < 0 {
        -(((-(us as i128)) / 1000000) as i64)
    } else {
        us / 1000000
    };
    match rfc3339(secs as i128 * 1000000000) {
        Some(s) => s,
        None => {
            let mut s = String::new();
            push_signed(&mut s, secs);
            assert(s@ =~= signed_decimal(secs as int));
            s
        },
    }
}

/// The entries of an array that are numbers, each as a byte.
pub open spec fn number_bytes(a: Seq<Option<u64>>) -> Seq<u8>
    decreases a.len(),
{
    if a.len() == 0 {
        Seq::empty()
    } else {
        match a.last() {
            Some(n) => number_bytes(a.drop_last()).push((n % 256) as u8),
            None => number_bytes(a.drop_last()),
        }
    }
}

/// The cells of a journal entry, from its three fields: the time, the priority
/// and the message. An entry without a message is left out. A message that is
/// no UTF-8 comes as an array of bytes; rendering it lossily beats dropping the
/// line.
pub open spec fn journal_cells(
    time: JsonFieldView,
    priority: JsonFieldView,
    message: JsonFieldView,
) -> Option<Seq<Seq<char>>> {
    let ts = match time {
        JsonFieldView::Text(s) => match i64_of(s) {
            Some(us) => epoch_text(us),
            None => "-"@,
        },
        _ => "-"@,
    };
    let prio = match priority {
        JsonFieldView::Text(s) => s,
        _ => "-"@,
    };
    match message {
        JsonFieldView::Text(s) => Some(seq![ts, prio, s]),
        JsonFieldView::Numbers(a) => Some(seq![ts, prio, text_of(number_bytes(a))]),
        _ => None,
    }
}

fn bytes_from(a: &Vec<Option<u64>>) -> (r: Vec<u8>)
    ensures
        r@ == number_bytes(a@),
{
    let mut out: Vec<u8> = Vec::new();
    let mut i: usize = 0;
    assert(out@ =~= number_bytes(a@.take(0)));
    while i < a.len()
        invariant
            i <= a@.len(),
            out@ == number_bytes(a@.take(i as int)),
        decreases a@.len() - i,
    {
        proof {
            assert(a@.take(i + 1).drop_last() =~= a@.take(i as int));
            assert(a@.take(i + 1).last() == a@[i as int]);
        }
        if let Some(n) = a[i] {
            out.push((n % 256) as u8);
        }
        i = i + 1;
    }
    assert(a@.take(i as int) =~= a@);
    out
}

/// The cells of a journal entry, from its three fields.
pub fn journal_row(time: &JsonField, priority: &JsonField, message: &JsonField) -> (r: Option<
    Vec<String>,
>)
    ensures
        match r {
            Some(row) => journal_cells(time@, priority@, message@) == Some(views(row@)),
            None => journal_cells(time@, priority@, message@) is None,
        },
{
    let ts = match time {
        JsonField::Text(s) => match parse_i64(s.as_str()) {
            Some(us) => format_epoch_us(us),
            None => "-".to_owned(),
        },
        _ => "-".to_owned(),
    };
    let prio = match priority {
        JsonField::Text(s) => s.clone(),
        _ => "-".to_owned(),
    };
    let msg = match message {
        JsonField::Text(s) => s.clone(),
        JsonField::Numbers(a) => {
            let raw = bytes_from(a);
            to_text(raw.as_slice())
        },
        _ => return None,
    };
    let mut row: Vec<String> = Vec::new();
    row.push(ts);
    row.push(prio);
    row.push(msg);
    assert(views(row@) =~= journal_cells(time@, priority@, message@)->0);
    Some(row)
}

/// The cells of a line of the journal.
pub open spec fn journal_of(line: Seq<char>) -> Option<Seq<Seq<char>>> {
    if trimmed(line).len() == 0 {
        None
    } else {
        match (
            json_field_of(line, "__REALTIME_TIMESTAMP"@),
            json_field_of(line, "PRIORITY"@),
            json_field_of(line, "MESSAGE"@),
        ) {
            (Some(t), Some(p), Some(m)) => journal_cells(t, p, m),
            _ => None,
        }
    }
}

pub open spec fn journal_rows(ls: Seq<Seq<char>>) -> Seq<Seq<Seq<char>>>
    decreases ls.len(),
{
    if ls.len() == 0 {
        Seq::empty()
    } else {
        let before = journal_rows(ls.drop_last());
        match journal_of(ls.last()) {
            Some(row) => before.push(row),
            None => before,
        }
    }
}

fn read_journal(line: &str) -> (r: Option<Vec<String>>)
    ensures
        match r {
            Some(row) => journal_of(line@) == Some(views(row@)),
            None => journal_of(line@) is None,
        },
{
    let l = trim(line);
    if l.as_str().is_empty() {
        return None;
    }
    let time = match json_field(line, "__REALTIME_TIMESTAMP") {
        Some(f) => f,
        None => return None,
    };
    let priority = match json_field(line, "PRIORITY") {
        Some(f) => f,
        None => return None,
    };
    let message = match json_field(line, "MESSAGE") {
        Some(f) => f,
        None => return None,
    };
    journal_row(&time, &priority, &message)
}

/// journald emits about thirty fields per entry. Three of them answer the
/// question the caller actually asked.
pub fn parse_journal_json(out: &str) -> (r: Vec<Vec<String>>)
    ensures
        row_views(r@) == journal_rows(lines_of(out@)),
{
    let ls = lines(out);
    let ghost all = lines_of(out@);
    let mut rows: Vec<Vec<String>> = Vec::new();
    let mut i: usize = 0;
    assert(row_views(rows@) =~= journal_rows(all.take(0)));
    while i < ls.len()
        invariant
            i <= ls@.len(),
            all == views(ls@),
            row_views(rows@) == journal_rows(all.take(i as int)),
        decreases ls@.len() - i,
    {
        let ghost before = row_views(rows@);
        proof {
            assert(all.take(i + 1).drop_last() =~= all.take(i as int));
            assert(all.take(i + 1).last() == ls@[i as int]@);
        }
        if let Some(row) = read_journal(ls[i].as_str()) {
            let ghost cells = views(row@);
            rows.push(row);
            proof {
                assert(string_views(rows@[rows@.len() - 1]@) =~= cells);
                assert(row_views(rows@) =~= before.push(cells));
            }
        }
        i = i + 1;
    }
    assert(all.take(i as int) =~= all);
    rows
}

// ---------------------------------------------------------------------------
// sys
// ---------------------------------------------------------------------------

/// A view of the state of a system.
#[derive(Debug, Clone, Copy, PartialEq, Eq, Structural)]
pub enum SysView {
    /// Processes by CPU share.
    Ps,
    /// Filesystem usage in bytes.
    Df,
    /// Memory and swap from /proc/meminfo.
    Mem,
    /// Listening TCP and UDP sockets with owning process.
    Net,
    /// Directory sizes under `path`, largest first.
    Du,
    /// Logged-in users.
    Who,
    /// Load average and PSI pressure stalls.
    Load,
}

impl SysView {
    /// Whether the host's profile is needed to tell if it can answer.
    pub fn wants_facts(self) -> (r: bool)
        ensures
            r == (self is Net),
    {
        match self {
            SysView::Net => true,
            _ => false,
        }
    }
}

pub const DF_COMMAND: &'static str = "df -PT -B1 2>/dev/null | tail -n +2";

pub const MEM_COMMAND: &'static str = "awk '/^(MemTotal|MemFree|MemAvailable|Buffers|Cached|SwapTotal|SwapFree|Dirty):/{print $1, $2}' /proc/meminfo 2>/dev/null";

pub const NET_COMMAND: &'static str = "{ ss -ltnpH 2>/dev/null; ss -lunpH 2>/dev/null; } | head -n 200";

pub const LOAD_COMMAND: &'static str = "cat /proc/loadavg 2>/dev/null; for f in cpu io memory; do [ -r /proc/pressure/$f ] && sed \"s/^/$f /\" /proc/pressure/$f; done 2>/dev/null";

/// How many rows `sys` returns.
pub fn sys_rows(top: Option<u32>) -> (r: u32)
    ensures
        r == (match top {
            None => 15,
            Some(n) => if n < 1 {
                1
            } else if n > 200 {
                200
            } else {
                n
            },
        }),
        1 <= r <= 200,
{
    match top {
        None => 15,
        Some(n) => if n < 1 {
            1
        } else if n > 200 {
            200
        } else {
            n
        },
    }
}

/// The command behind a view.
pub open spec fn sys_command_text(what: SysView, top: nat, path: Option<Seq<char>>) -> Seq<char> {
    match what {
        SysView::Ps =>
            "ps -eo pid,ppid,user,pcpu,pmem,rss,etimes,stat,comm --sort=-pcpu --no-headers 2>/dev/null | head -n "@
            + decimal(top),
        SysView::Df => DF_COMMAND@,
        SysView::Mem => MEM_COMMAND@,
        SysView::Net => NET_COMMAND@,
        SysView::Du => "du -x -d 1 -B1 "@ + quoted_word(
            match path {
                Some(p) => p,
                None => "/"@,
            },
        ) + " 2>/dev/null | sort -rn | head -n "@ + decimal(top),
        SysView::Who => "who -u 2>/dev/null | head -n "@ + decimal(top),
        SysView::Load => LOAD_COMMAND@,
    }
}

/// The command behind a view.
pub fn sys_command(what: SysView, top: u32, path: Option<&str>) -> (r: String)
    ensures
        r@ == sys_command_text(what, top as nat, str_view(path)),
{
    match what {
        SysView::Ps => {
            let mut s =
                "ps -eo pid,ppid,user,pcpu,pmem,rss,etimes,stat,comm --sort=-pcpu --no-headers 2>/dev/null | head -n ".to_owned();
            push_decimal(&mut s, top as u64);
            s
        },
        SysView::Df => DF_COMMAND.to_owned(),
        SysView::Mem => MEM_COMMAND.to_owned(),
        SysView::Net => NET_COMMAND.to_owned(),
        SysView::Du => {
            let q = shell_quote(
                match path {
                    Some(p) => p,
                    None => "/",
                },
            );
            let mut s = joined3(
                "du -x -d 1 -B1 ",
                q.as_str(),
                " 2>/dev/null | sort -rn | head -n ",
            );
            push_decimal(&mut s, top as u64);
            s
        },
        SysView::Who => {
            let mut s = "who -u 2>/dev/null | head -n ".to_owned();
            push_decimal(&mut s, top as u64);
            s
        },
        SysView::Load => LOAD_COMMAND.to_owned(),
    }
}

pub open spec fn no_ss_text(host: Seq<char>) -> Seq<char> {
    "`ss` is not installed on '"@ + host
        + "', so the net view has no source (Alpine: apk add iproute2). Use exec with netstat if that is all the host has."@
}

/// Whether a host has what a view reads. `ss` missing looks exactly like
/// "nothing is listening" once stderr is swallowed, so it is said instead of
/// returning an empty table.
pub fn check_sys_view(what: SysView, host: &str, facts: &HostFacts) -> (r: Result<()>)
    ensures
        match r {
            Ok(_) => what != SysView::Net || has_tool(facts.pairs(), "ss"@),
            Err(e) => what == SysView::Net && !has_tool(facts.pairs(), "ss"@) && e is Config
                && e->Config_0@ == no_ss_text(host@),
        },
{
    if let SysView::Net = what {
        if !facts.has("ss") {
            return Err(
                SshError::Config(
                    joined3(
                        "`ss` is not installed on '",
                        host,
                        "', so the net view has no source (Alpine: apk add iproute2). Use exec with netstat if that is all the host has.",
                    ),
                ),
            );
        }
    }
    Ok(())
}

/// What a line about memory says.
pub open spec fn mem_field(line: Seq<char>) -> Seq<char> {
    let l = trimmed(line);
    let n = until(l, ' ');
    if n < l.len() {
        field_text(0, without_suffixes(l.take(n), ":"@), scalar(trimmed(l.skip(n + 1))))
    } else {
        Seq::empty()
    }
}

pub open spec fn mem_fields(ls: Seq<Seq<char>>) -> Seq<char>
    decreases ls.len(),
{
    if ls.len() == 0 {
        Seq::empty()
    } else {
        mem_fields(ls.drop_last()) + mem_field(ls.last())
    }
}

/// What a view shows of a command's output.
pub open spec fn sys_body(what: SysView, stdout: Seq<char>) -> Seq<char> {
    let ls = lines_of(stdout);
    match what {
        SysView::Ps => table_text(
            0,
            "ps"@,
            seq![
                "pid"@,
                "ppid"@,
                "user"@,
                "cpu"@,
                "mem"@,
                "rss"@,
                "secs"@,
                "stat"@,
                "comm"@,
            ],
            column_rows(ls, 9),
        ),
        SysView::Df => table_text(
            0,
            "df"@,
            seq!["fs"@, "type"@, "bytes"@, "used"@, "avail"@, "pct"@, "mount"@],
            column_rows(ls, 7),
        ),
        SysView::Mem => mem_fields(ls) + hint_text(0, "values in kB"@),
        SysView::Net => table_text(
            0,
            "listening"@,
            seq!["proto"@, "local"@, "process"@],
            sockets_of(ls),
        ),
        SysView::Du => table_text(0, "du"@, seq!["bytes"@, "path"@], column_rows(ls, 2)),
        SysView::Who => table_text(
            0,
            "who"@,
            seq!["user"@, "tty"@, "date"@, "time"@, "idle"@],
            column_rows(ls, 5),
        ),
        SysView::Load => block_text(0, "load"@, trimmed(stdout)),
    }
}

/// The answer of `sys`. What a command said on stderr is shown where it said
/// nothing else.
pub open spec fn sys_text(
    what: SysView,
    host: Seq<char>,
    stdout: Seq<char>,
    stderr: Seq<char>,
) -> Seq<char> {
    field_text(0, "host"@, scalar(host)) + sys_body(what, stdout) + (if trimmed(stdout).len() == 0
        && trimmed(stderr).len() > 0 {
        field_text(0, "stderr"@, scalar(trimmed(stderr)))
    } else {
        Seq::empty()
    })
}

fn push_mem(t: &mut Toon, line: &str)
    requires
        old(t).depth() == 0,
    ensures
        final(t).depth() == 0,
        final(t).text() == old(t).text() + mem_field(line@),
{
    let l = trim(line);
    let v = chars_of(l.as_str());
    let n: usize = v.len();
    let at: usize = until_from(&v, ' ', 0);
    assert(v@.skip(0) =~= v@);
    if at == n {
        assert(t.text() + Seq::<char>::empty() =~= t.text());
        return ;
    }
    proof {
        reveal_strlit(":");
    }
    let key = string_of(&v, 0, at);
    assert(key@ =~= l@.take(at as int));
    let key = strip_suffixes(key, ":");
    let value = string_of(&v, at + 1, n);
    assert(value@ =~= l@.skip(at + 1));
    let value = trim(value.as_str());
    let _ = t.field(key.as_str(), value.as_str());
}

fn push_mems(t: &mut Toon, out: &str)
    requires
        old(t).depth() == 0,
    ensures
        final(t).depth() == 0,
        final(t).text() == old(t).text() + mem_fields(lines_of(out@)),
{
    let ls = lines(out);
    let ghost all = lines_of(out@);
    let ghost start = t.text();
    let mut i: usize = 0;
    assert(start + mem_fields(all.take(0)) =~= start);
    while i < ls.len()
        invariant
            i <= ls@.len(),
            all == views(ls@),
            t.depth() == 0,
            t.text() == start + mem_fields(all.take(i as int)),
        decreases ls@.len() - i,
    {
        proof {
            assert(all.take(i + 1).drop_last() =~= all.take(i as int));
            assert(all.take(i + 1).last() == ls@[i as int]@);
        }
        push_mem(t, ls[i].as_str());
        assert(t.text() =~= start + mem_fields(all.take(i + 1)));
        i = i + 1;
    }
    assert(all.take(i as int) =~= all);
}

fn push_table(t: &mut Toon, key: &str, cols: &[&str], rows: &Vec<Vec<String>>)
    requires
        old(t).depth() == 0,
        old(t).wf(),
    ensures
        final(t).depth() == 0,
        final(t).text() == old(t).text() + table_text(0, key@, str_views(cols@), row_views(rows@)),
{
    let _ = t.table_strs(key, cols, rows.as_slice());
}

/// The answer of `sys`.
pub fn format_sys(what: SysView, host: &str, stdout: &str, stderr: &str) -> (r: String)
    ensures
        r@ == sys_text(what, host@, stdout@, stderr@),
{
    let mut t = Toon::new();
    let _ = t.field("host", host);
    assert(t.text() =~= field_text(0, "host"@, scalar(host@)));
    match what {
        SysView::Ps => {
            let cols: [&str; 9] = [
                "pid",
                "ppid",
                "user",
                "cpu",
                "mem",
                "rss",
                "secs",
                "stat",
                "comm",
            ];
            assert(str_views(cols@) =~= seq![
                "pid"@,
                "ppid"@,
                "user"@,
                "cpu"@,
                "mem"@,
                "rss"@,
                "secs"@,
                "stat"@,
                "comm"@,
            ]);
            push_table(&mut t, "ps", &cols, &split_columns(stdout, 9));
        },
        SysView::Df => {
            let cols: [&str; 7] = ["fs", "type", "bytes", "used", "avail", "pct", "mount"];
            assert(str_views(cols@) =~= seq![
                "fs"@,
                "type"@,
                "bytes"@,
                "used"@,
                "avail"@,
                "pct"@,
                "mount"@,
            ]);
            push_table(&mut t, "df", &cols, &split_columns(stdout, 7));
        },
        SysView::Mem => {
            let ghost before = t.text();
            push_mems(&mut t, stdout);
            let _ = t.hint("values in kB");
            assert(t.text() =~= before + sys_body(what, stdout@));
        },
        SysView::Net => {
            let cols: [&str; 3] = ["proto", "local", "process"];
            assert(str_views(cols@) =~= seq!["proto"@, "local"@, "process"@]);
            push_table(&mut t, "listening", &cols, &parse_ss(stdout));
        },
        SysView::Du => {
            let cols: [&str; 2] = ["bytes", "path"];
            assert(str_views(cols@) =~= seq!["bytes"@, "path"@]);
            push_table(&mut t, "du", &cols, &split_columns(stdout, 2));
        },
        SysView::Who => {
            let cols: [&str; 5] = ["user", "tty", "date", "time", "idle"];
            assert(str_views(cols@) =~= seq!["user"@, "tty"@, "date"@, "time"@, "idle"@]);
            push_table(&mut t, "who", &cols, &split_columns(stdout, 5));
        },
        SysView::Load => {
            let body = trim(stdout);
            let _ = t.block("load", body.as_str());
        },
    }
    let ghost before = t.text();
    let out = trim(stdout);
    let err = trim(stderr);
    if out.as_str().is_empty() && !err.as_str().is_empty() {
        let _ = t.field("stderr", err.as_str());
    } else {
        assert(before + Seq::<char>::empty() =~= before);
    }
    t.into_string()
}

// ---------------------------------------------------------------------------
// svc
// ---------------------------------------------------------------------------

/// What `svc` does.
#[derive(Debug, Clone, Copy, PartialEq, Eq, Structural)]
pub enum SvcAction {
    Status,
    Logs,
    Start,
    Stop,
    Restart,
    Reload,
    Enable,
    Disable,
    /// List units in a failed state. `unit` is ignored.
    Failed,
}

/// The word that `systemctl` knows an action by; empty for one that changes
/// nothing.
pub open spec fn verb_text(a: SvcAction) -> Seq<char> {
    match a {
        SvcAction::Start => "start"@,
        SvcAction::Stop => "stop"@,
        SvcAction::Restart => "restart"@,
        SvcAction::Reload => "reload"@,
        SvcAction::Enable => "enable"@,
        SvcAction::Disable => "disable"@,
        _ => ""@,
    }
}

impl SvcAction {
    /// Whether the action changes the host.
    pub open spec fn mutates(self) -> bool {
        !(self is Status || self is Logs || self is Failed)
    }

    pub fn is_mutating(self) -> (r: bool)
        ensures
            r == self.mutates(),
    {
        match self {
            SvcAction::Start
            | SvcAction::Stop
            | SvcAction::Restart
            | SvcAction::Reload
            | SvcAction::Enable
            | SvcAction::Disable => true,
            _ => false,
        }
    }

    pub fn verb(self) -> (r: &'static str)
        ensures
            r@ == verb_text(self),
    {
        match self {
            SvcAction::Start => "start",
            SvcAction::Stop => "stop",
            SvcAction::Restart => "restart",
            SvcAction::Reload => "reload",
            SvcAction::Enable => "enable",
            SvcAction::Disable => "disable",
            _ => "",
        }
    }

    /// Whether the state before the action is worth asking for.
    pub fn wants_state_before(self) -> (r: bool)
        ensures
            r == (self is Restart || self is Start),
    {
        match self {
            SvcAction::Restart | SvcAction::Start => true,
            _ => false,
        }
    }
}

/// Properties pulled by `svc status`. `systemctl show --value` returns them
/// one per line in this exact order, with an empty line for anything unset,
/// so the parse is positional and needs no key matching.
pub open spec fn property_names() -> Seq<Seq<char>> {
    seq![
        "LoadState"@,
        "ActiveState"@,
        "SubState"@,
        "UnitFileState"@,
        "MainPID"@,
        "MemoryCurrent"@,
        "TasksCurrent"@,
        "ActiveEnterTimestamp"@,
        "Result"@,
    ]
}

fn properties() -> (r: Vec<String>)
    ensures
        views(r@) == property_names(),
{
    let mut v: Vec<String> = Vec::new();
    v.push("LoadState".to_owned());
    v.push("ActiveState".to_owned());
    v.push("SubState".to_owned());
    v.push("UnitFileState".to_owned());
    v.push("MainPID".to_owned());
    v.push("MemoryCurrent".to_owned());
    v.push("TasksCurrent".to_owned());
    v.push("ActiveEnterTimestamp".to_owned());
    v.push("Result".to_owned());
    assert(views(v@) =~= property_names());
    v
}

/// How many lines of the journal `svc` returns.
pub open spec fn journal_count(lines: Option<u32>) -> nat {
    match lines {
        None => 50,
        Some(n) => if n < 1 {
            1
        } else if n > 500 {
            500
        } else {
            n as nat
        },
    }
}

/// How many lines of the journal `svc` returns.
pub fn journal_lines(lines: Option<u32>) -> (r: u32)
    ensures
        r == journal_count(lines),
{
    match lines {
        None => 50,
        Some(n) => if n < 1 {
            1
        } else if n > 500 {
            500
        } else {
            n
        },
    }
}

/// A character that unit names are made of.
pub open spec fn is_unit_char(c: char) -> bool {
    ||| '0' <= c <= '9'
    ||| 'A' <= c <= 'Z'
    ||| 'a' <= c <= 'z'
    ||| c == '-'
    ||| c == '_'
    ||| c == '.'
    ||| c == '@'
    ||| c == ':'
    ||| c == '\\'
}

/// What is wrong with a unit name.
pub open spec fn unit_fault(unit: Seq<char>) -> Option<Seq<char>> {
    if unit.len() == 0 || bytes_of(unit).len() > 256 {
        Some("unit name empty or too long"@)
    } else if exists|i: int| 0 <= i < unit.len() && !is_unit_char(#[trigger] unit[i]) {
        Some("refusing unit name with shell metacharacters: "@ + unit)
    } else {
        None
    }
}

/// Rejects unit names that could break out of the shell word they are
/// interpolated into. systemd unit names use a narrow character set, so this
/// costs nothing legitimate.
pub fn validate_unit(unit: &str) -> (r: Result<()>)
    ensures
        match r {
            Ok(_) => unit_fault(unit@) is None,
            Err(e) => e is Config && unit_fault(unit@) == Some(e->Config_0@),
        },
{
    let v = chars_of(unit);
    if v.len() == 0 || unit.as_bytes().len() > 256 {
        return Err(SshError::Config("unit name empty or too long".to_owned()));
    }
    let mut i: usize = 0;
    while i < v.len()
        invariant
            i <= v@.len(),
            v@ == unit@,
            v@.len() > 0,
            bytes_of(unit@).len() <= 256,
            forall|j: int| 0 <= j < i ==> is_unit_char(#[trigger] unit@[j]),
        decreases v@.len() - i,
    {
        let c = v[i];
        let plain = ('0' <= c && c <= '9') || ('A' <= c && c <= 'Z') || ('a' <= c && c <= 'z') || c
            == '-' || c == '_' || c == '.' || c == '@' || c == ':' || c == '\\';
        if !plain {
            assert(!is_unit_char(unit@[i as int]));
            return Err(
                SshError::Config(
                    joined2("refusing unit name with shell metacharacters: ", unit),
                ),
            );
        }
        i = i + 1;
    }
    Ok(())
}

/// A unit name that is accepted is one shell word as it stands: it holds nothing
/// that a shell reads as more than itself, but for the backslash, and is quoted
/// besides.
pub proof fn law_accepted_unit_has_no_metacharacters(unit: Seq<char>, i: int)
    requires
        unit_fault(unit) is None,
        0 <= i < unit.len(),
    ensures
        unit[i] != ' ' && unit[i] != ';' && unit[i] != '$' && unit[i] != '`' && unit[i] != '|'
            && unit[i] != '&' && unit[i] != '(' && unit[i] != '\'' && unit[i] != '"' && unit[i]
            != '\n',
{
    assert(is_unit_char(unit[i]));
}

/// The unit that an action is about; empty for `failed`, which is about all of
/// them.
pub fn svc_unit(unit: Option<&str>, action: SvcAction) -> (r: Result<String>)
    ensures
        match r {
            Ok(u) => if action is Failed {
                u@.len() == 0
            } else {
                unit is Some && u@ == unit->0@ && unit_fault(u@) is None
            },
            Err(e) => !(action is Failed) && e is Config && (match unit {
                Some(u) => unit_fault(u@) == Some(e->Config_0@),
                None => e->Config_0@ == "unit is required for every action except 'failed'"@,
            }),
        },
{
    if let SvcAction::Failed = action {
        return Ok(String::new());
    }
    match unit {
        Some(u) => match validate_unit(u) {
            Ok(_) => Ok(u.to_owned()),
            Err(e) => Err(e),
        },
        None => Err(
            SshError::Config("unit is required for every action except 'failed'".to_owned()),
        ),
    }
}

/// The command behind an action.
pub open spec fn svc_command_text(action: SvcAction, unit: Seq<char>, lines: nat) -> Seq<char> {
    match action {
        SvcAction::Failed =>
            "systemctl list-units --state=failed --no-legend --plain 2>/dev/null"@,
        SvcAction::Status => "systemctl show "@ + quoted_word(unit) + " --property="@ + join_with(
            property_names(),
            ',',
        ) + " --value 2>/dev/null"@,
        SvcAction::Logs => "journalctl -u "@ + quoted_word(unit) + " -n "@ + decimal(lines)
            + " -o json --no-pager 2>/dev/null"@,
        a => "systemctl "@ + verb_text(a) + " "@ + quoted_word(unit),
    }
}

/// The command behind an action. One that changes the host goes through the
/// guard chain like any other command.
pub fn svc_command(action: SvcAction, unit: &str, lines: u32) -> (r: String)
    ensures
        r@ == svc_command_text(action, unit@, lines as nat),
{
    let q = shell_quote(unit);
    match action {
        SvcAction::Failed =>
            "systemctl list-units --state=failed --no-legend --plain 2>/dev/null".to_owned(),
        SvcAction::Status => {
            let names = join(&properties(), ',');
            let mut s = joined3("systemctl show ", q.as_str(), " --property=");
            s.push_str(names.as_str());
            s.push_str(" --value 2>/dev/null");
            s
        },
        SvcAction::Logs => {
            let mut s = joined3("journalctl -u ", q.as_str(), " -n ");
            push_decimal(&mut s, lines as u64);
            s.push_str(" -o json --no-pager 2>/dev/null");
            s
        },
        a => {
            let mut s = joined3("systemctl ", a.verb(), " ");
            s.push_str(q.as_str());
            s
        },
    }
}

/// The command that prints a unit's state.
pub open spec fn state_command_text(unit: Seq<char>) -> Seq<char> {
    "systemctl show "@ + quoted_word(unit) + " --property=ActiveState --value 2>/dev/null"@
}

/// One `systemctl show` round trip for the single property worth polling
/// after a mutating action.
pub fn active_state_command(unit: &str) -> (r: String)
    ensures
        r@ == state_command_text(unit@),
{
    let q = shell_quote(unit);
    joined3("systemctl show ", q.as_str(), " --property=ActiveState --value 2>/dev/null")
}

/// The state that the command printed; nothing when systemd is not the init.
pub fn unit_active_state(stdout: &str) -> (r: Option<String>)
    ensures
        match r {
            Some(s) => s@.len() > 0 && s@ == trimmed(stdout@),
            None => trimmed(stdout@).len() == 0,
        },
{
    let s = trim(stdout);
    if s.as_str().is_empty() {
        None
    } else {
        Some(s)
    }
}

/// The journal that is shown of a unit that failed.
pub fn journal_tail_command(unit: &str) -> (r: String)
    ensures
        r@ == "journalctl -u "@ + quoted_word(unit@) + " -n 30 -o cat --no-pager 2>/dev/null"@,
{
    let q = shell_quote(unit);
    joined3("journalctl -u ", q.as_str(), " -n 30 -o cat --no-pager 2>/dev/null")
}

/// Whether a unit's journal is worth showing.
pub fn is_failed(state: &str) -> (r: bool)
    ensures
        r == (state@ == "failed"@),
{
    same(state, "failed")
}

pub open spec fn is_upper(c: char) -> bool {
    'A' <= c <= 'Z'
}

pub open spec fn is_lower(c: char) -> bool {
    'a' <= c <= 'z'
}

/// A capital that begins a word: it follows a small letter or a digit, or is
/// the last one of a run of capitals.
pub open spec fn begins_word(s: Seq<char>, i: int) -> bool {
    &&& is_upper(s[i])
    &&& i > 0
    &&& is_lower(s[i - 1]) || is_digit(s[i - 1]) || (i + 1 < s.len() && is_lower(s[i + 1]))
}

/// The first `n` characters in small letters, with an underscore before each
/// word but the first.
pub open spec fn snake_of(s: Seq<char>, n: int) -> Seq<char>
    decreases n,
{
    if n <= 0 {
        Seq::empty()
    } else if begins_word(s, n - 1) {
        snake_of(s, n - 1).push('_').push(lower_char(s[n - 1]))
    } else {
        snake_of(s, n - 1).push(lower_char(s[n - 1]))
    }
}

/// `ActiveState` to `active_state`, `MainPID` to `main_pid`. An underscore
/// goes in only at a lower-to-upper boundary or before the final capital of
/// an acronym run, so `PID` does not become `p_i_d`.
pub fn camel_to_snake(s: &str) -> (r: String)
    ensures
        r@ == snake_of(s@, s@.len() as int),
{
    let v = chars_of(s);
    let mut out = String::new();
    let mut i: usize = 0;
    assert(out@ =~= snake_of(s@, 0));
    while i < v.len()
        invariant
            i <= v@.len(),
            v@ == s@,
            out@ == snake_of(s@, i as int),
        decreases v@.len() - i,
    {
        let c = v[i];
        let upper = 'A' <= c && c <= 'Z';
        if upper && i != 0 {
            let before = v[i - 1];
            let after_small = ('a' <= before && before <= 'z') || ('0' <= before && before <= '9');
            let before_small = i + 1 < v.len() && 'a' <= v[i + 1] && v[i + 1] <= 'z';
            if after_small || before_small {
                out.push('_');
            }
        }
        out.push(
            if upper {
                (c as u8 + 32) as char
            } else {
                c
            },
        );
        i = i + 1;
    }
    out
}

/// A property that is set: a value and not the word for none.
pub open spec fn is_set(value: Seq<char>) -> bool {
    trimmed(value).len() > 0 && trimmed(value) != "[not set]"@
}

/// The first `n` properties that are set, one to a line.
pub open spec fn property_fields(names: Seq<Seq<char>>, ls: Seq<Seq<char>>, n: int) -> Seq<char>
    decreases n,
{
    if n <= 0 {
        Seq::empty()
    } else {
        let before = property_fields(names, ls, n - 1);
        if is_set(ls[n - 1]) {
            before + field_text(
                0,
                snake_of(names[n - 1], names[n - 1].len() as int),
                scalar(trimmed(ls[n - 1])),
            )
        } else {
            before
        }
    }
}

/// The answer of `svc status`.
pub open spec fn status_text(host: Seq<char>, unit: Seq<char>, stdout: Seq<char>) -> Seq<char> {
    let ls = lines_of(stdout);
    let names = property_names();
    field_text(0, "host"@, scalar(host)) + field_text(0, "unit"@, scalar(unit)) + property_fields(
        names,
        ls,
        if ls.len() < names.len() {
            ls.len() as int
        } else {
            names.len() as int
        },
    )
}

/// The answer of `svc status`.
pub fn format_status(host: &str, unit: &str, stdout: &str) -> (r: String)
    ensures
        r@ == status_text(host@, unit@, stdout@),
{
    let mut t = Toon::new();
    let _ = t.field("host", host);
    assert(t.text() =~= field_text(0, "host"@, scalar(host@)));
    let _ = t.field("unit", unit);
    let ghost start = t.text();
    let names = properties();
    let ls = lines(stdout);
    let ghost ns = property_names();
    let ghost all = lines_of(stdout@);
    let mut i: usize = 0;
    assert(start + property_fields(ns, all, 0) =~= start);
    while i < names.len() && i < ls.len()
        invariant
            i <= names@.len(),
            i <= ls@.len(),
            ns == views(names@),
            all == views(ls@),
            t.depth() == 0,
            t.text() == start + property_fields(ns, all, i as int),
        decreases names@.len() - i,
    {
        assert(ns[i as int] == names@[i as int]@);
        assert(all[i as int] == ls@[i as int]@);
        let v = trim(ls[i].as_str());
        if !v.as_str().is_empty() && !same(v.as_str(), "[not set]") {
            let key = camel_to_snake(names[i].as_str());
            let _ = t.field(key.as_str(), v.as_str());
            assert(t.text() =~= start + property_fields(ns, all, i + 1));
        }
        i = i + 1;
    }
    t.into_string()
}

/// The answer of `svc failed`.
pub open spec fn failed_text(host: Seq<char>, stdout: Seq<char>) -> Seq<char> {
    let rows = column_rows(lines_of(stdout), 4);
    field_text(0, "host"@, scalar(host)) + (if rows.len() == 0 {
        field_text(0, "failed"@, scalar("none"@))
    } else {
        table_text(0, "failed"@, seq!["unit"@, "load"@, "active"@, "sub"@], rows)
    })
}

/// The answer of `svc failed`.
pub fn format_failed(host: &str, stdout: &str) -> (r: String)
    ensures
        r@ == failed_text(host@, stdout@),
{
    let mut t = Toon::new();
    let _ = t.field("host", host);
    assert(t.text() =~= field_text(0, "host"@, scalar(host@)));
    let rows = split_columns(stdout, 4);
    assert(row_views(rows@).len() == rows@.len());
    if rows.len() == 0 {
        let _ = t.field("failed", "none");
    } else {
        let cols: [&str; 4] = ["unit", "load", "active", "sub"];
        assert(str_views(cols@) =~= seq!["unit"@, "load"@, "active"@, "sub"@]);
        push_table(&mut t, "failed", &cols, &rows);
    }
    t.into_string()
}

/// The answer of `svc logs`.
pub open spec fn logs_text(host: Seq<char>, stdout: Seq<char>) -> Seq<char> {
    field_text(0, "host"@, scalar(host)) + table_text(
        0,
        "lines"@,
        seq!["ts"@, "prio"@, "msg"@],
        journal_rows(lines_of(stdout)),
    )
}

/// The answer of `svc logs`.
pub fn format_logs(host: &str, stdout: &str) -> (r: String)
    ensures
        r@ == logs_text(host@, stdout@),
{
    let mut t = Toon::new();
    let _ = t.field("host", host);
    assert(t.text() =~= field_text(0, "host"@, scalar(host@)));
    let cols: [&str; 3] = ["ts", "prio", "msg"];
    assert(str_views(cols@) =~= seq!["ts"@, "prio"@, "msg"@]);
    push_table(&mut t, "lines", &cols, &parse_journal_json(stdout));
    t.into_string()
}

/// What is said of the state of a unit after an action. A restart that succeeds
/// at the systemctl level but lands in `failed` is the most common follow-up
/// question; it is answered here.
pub open spec fn state_text(
    state: Option<Seq<char>>,
    before: Option<Seq<char>>,
    journal: Option<Seq<char>>,
) -> Seq<char> {
    match state {
        None => Seq::empty(),
        Some(s) => maybe_field("active"@, Some(s)) + maybe_field("active_before"@, before) + (if s
            == "failed"@ && journal is Some {
            block_text(0, "journal_tail"@, trimmed(journal->0))
        } else {
            Seq::empty()
        }),
    }
}

/// The answer of `svc` to an action that changes the host.
pub open spec fn action_text(
    host: Seq<char>,
    unit: Seq<char>,
    action: SvcAction,
    exit_code: i32,
    state: Seq<char>,
    stderr: Seq<char>,
) -> Seq<char> {
    field_text(0, "host"@, scalar(host)) + field_text(0, "unit"@, scalar(unit)) + field_text(
        0,
        "action"@,
        scalar(verb_text(action)),
    ) + field_text(0, "exit"@, signed_decimal(exit_code as int)) + state + (if trimmed(stderr).len()
        > 0 {
        field_text(0, "stderr"@, scalar(trimmed(stderr)))
    } else {
        Seq::empty()
    })
}

fn push_state(t: &mut Toon, state: Option<&str>, before: Option<&str>, journal: Option<&str>)
    requires
        old(t).depth() == 0,
        old(t).wf(),
    ensures
        final(t).depth() == 0,
        final(t).text() == old(t).text() + state_text(
            str_view(state),
            str_view(before),
            str_view(journal),
        ),
{
    let ghost start = t.text();
    match state {
        None => {
            assert(start + Seq::<char>::empty() =~= start);
        },
        Some(s) => {
            push_maybe(t, "active", Some(s));
            push_maybe(t, "active_before", before);
            let ghost now = t.text();
            match journal {
                Some(j) => {
                    if is_failed(s) {
                        let body = trim(j);
                        let _ = t.block("journal_tail", body.as_str());
                    } else {
                        assert(now + Seq::<char>::empty() =~= now);
                    }
                },
                None => {
                    assert(now + Seq::<char>::empty() =~= now);
                },
            }
            assert(t.text() =~= start + state_text(
                str_view(state),
                str_view(before),
                str_view(journal),
            ));
        },
    }
}

/// The answer of `svc` to an action that changes the host.
pub fn format_action(
    host: &str,
    unit: &str,
    action: SvcAction,
    exit_code: i32,
    state: Option<&str>,
    before: Option<&str>,
    journal: Option<&str>,
    stderr: &str,
) -> (r: String)
    ensures
        r@ == action_text(
            host@,
            unit@,
            action,
            exit_code,
            state_text(str_view(state), str_view(before), str_view(journal)),
            stderr@,
        ),
{
    let mut t = Toon::new();
    let _ = t.field("host", host);
    assert(t.text() =~= field_text(0, "host"@, scalar(host@)));
    let _ = t.field("unit", unit);
    let _ = t.field("action", action.verb());
    let _ = t.field("exit", exit_code);
    push_state(&mut t, state, before, journal);
    let ghost now = t.text();
    let err = trim(stderr);
    if !err.as_str().is_empty() {
        let _ = t.field("stderr", err.as_str());
    } else {
        assert(now + Seq::<char>::empty() =~= now);
    }
    t.into_string()
}

// ---------------------------------------------------------------------------
// A call of svc
// ---------------------------------------------------------------------------

/// What a call of `svc` is about.
#[verifier::ext_equal]
pub struct SvcView {
    pub host: Seq<char>,
    pub unit: Seq<char>,
    pub action: SvcAction,
    pub cmd: Seq<char>,
}

/// A call of `svc` that has not been to the guards yet.
pub struct SvcCall {
    host: String,
    unit: String,
    action: SvcAction,
    cmd: String,
}

impl View for SvcCall {
    type V = SvcView;

    closed spec fn view(&self) -> SvcView {
        SvcView {
            host: self.host@,
            unit: self.unit@,
            action: self.action,
            cmd: self.cmd@,
        }
    }
}

/// A call of `svc` that may run.
pub struct SvcRun {
    call: SvcCall,
    rules: Ghost<CompiledView>,
    why: Ghost<Clearance>,
}

/// A call of `svc` that the user has to be asked about.
pub struct SvcAsked {
    call: SvcCall,
    asked: AskedCommand,
}

/// How far a call of `svc` has come with the guards.
pub enum SvcGuard {
    Run(SvcRun),
    /// The user has to be asked now; the answer goes to [`SvcAsked::answered`].
    Ask(SvcAsked),
    /// The question waits for the client, which calls again.
    Wait,
    Refused(SshError),
}

/// An action that ran. The state that it left the unit in is asked for next.
pub struct SvcActed {
    call: SvcCall,
    before: Option<String>,
    exit_code: i32,
    stderr: String,
}

/// An action that left its unit failed. The end of the journal is asked for.
pub struct SvcFailed {
    acted: SvcActed,
    state: String,
}

/// What follows a command of `svc`.
pub enum SvcNext {
    Answer(String),
    /// The unit's state goes to [`SvcActed::state`].
    State(SvcActed),
}

/// What follows the state that an action left.
pub enum SvcEnd {
    Answer(String),
    /// The journal goes to [`SvcFailed::journal`].
    Journal(SvcFailed),
}

/// `c` is this call, which may run for this reason.
pub open spec fn may_run(c: SvcGuard, call: SvcView, rules: CompiledView, why: Clearance) -> bool {
    c matches SvcGuard::Run(x) && x@ == call && x.rules() == rules && x.why() == why
}

/// What the guard chain makes of a call.
pub open spec fn svc_fares(
    c: SvcGuard,
    call: SvcView,
    rules: CompiledView,
    view: ChainView,
) -> bool {
    match view {
        ChainView::Allowed => may_run(c, call, rules, Clearance::Allowed),
        ChainView::Remembered => may_run(c, call, rules, Clearance::Remembered),
        ChainView::Approved => may_run(c, call, rules, Clearance::Approved),
        ChainView::Denied => c is Refused && c->Refused_0 is ConfirmationDenied,
        ChainView::Wait => c is Wait,
        ChainView::Ask(_) => c matches SvcGuard::Ask(a) && a@ == call && a.rules() == rules,
        ChainView::Blocked(name, pattern) => c is Refused && c->Refused_0 is BlockedByGuard
            && c->Refused_0->name@ == name && c->Refused_0->pattern@ == pattern,
    }
}

impl SvcCall {
    pub fn new(
        host: String,
        unit: Option<&str>,
        action: SvcAction,
        lines: Option<u32>,
    ) -> (r: Result<Self>)
        ensures
            match r {
                Ok(c) => {
                    &&& c@.host == host@
                    &&& c@.action == action
                    &&& c@.cmd == svc_command_text(action, c@.unit, journal_count(lines))
                    &&& if action is Failed {
                        c@.unit.len() == 0
                    } else {
                        unit is Some && c@.unit == unit->0@ && unit_fault(c@.unit) is None
                    }
                },
                Err(e) => !(action is Failed) && e is Config && (match unit {
                    Some(u) => unit_fault(u@) == Some(e->Config_0@),
                    None => e->Config_0@ == "unit is required for every action except 'failed'"@,
                }),
            },
    {
        match svc_unit(unit, action) {
            Err(e) => Err(e),
            Ok(unit) => {
                let cmd = svc_command(action, unit.as_str(), journal_lines(lines));
                Ok(SvcCall { host, unit, action, cmd })
            },
        }
    }

    pub fn cmd(&self) -> (r: &str)
        ensures
            r@ == self@.cmd,
    {
        self.cmd.as_str()
    }

    /// Takes an action that changes the host through the guard chain, like any
    /// other command. One that only looks needs none.
    pub fn guarded(
        self,
        guards: &CompiledGuards,
        approvals: &mut Approvals,
        confirm: &mut Confirm,
        now_ms: u64,
        ttl: HumanDuration,
    ) -> (r: SvcGuard)
        ensures
            final(confirm).is_multi_round() == old(confirm).is_multi_round(),
            final(confirm).replies() == old(confirm).replies(),
            !self@.action.mutates() ==> {
                &&& r is Run && r->Run_0@ == self@
                &&& final(approvals)@ == old(approvals)@
                &&& final(confirm).queue() == old(confirm).queue()
            },
            self@.action.mutates() ==> {
                let (after, view) = chain(
                    chain_rules(guards@, *old(confirm), now_ms, ttl),
                    chain_state(*old(approvals), *old(confirm)),
                    self@.host,
                    self@.cmd,
                );
                &&& chain_state(*final(approvals), *final(confirm)) == after
                &&& svc_fares(r, self@, guards@, view)
            },
    {
        if !self.action.is_mutating() {
            return SvcGuard::Run(
                SvcRun { call: self, rules: Ghost(guards@), why: Ghost(Clearance::Allowed) },
            );
        }
        let cleared = clear_command(
            guards,
            approvals,
            confirm,
            self.host.as_str(),
            self.cmd.as_str(),
            now_ms,
            ttl,
        );
        match cleared {
            Clearing::Cleared(c) => {
                let _ = c.cmd();
                SvcGuard::Run(
                    SvcRun { call: self, rules: Ghost(c.rules()), why: Ghost(c.why()) },
                )
            },
            Clearing::Ask(asked) => SvcGuard::Ask(SvcAsked { call: self, asked }),
            Clearing::Wait => SvcGuard::Wait,
            Clearing::Refused(e) => SvcGuard::Refused(e),
        }
    }
}

impl View for SvcAsked {
    type V = SvcView;

    closed spec fn view(&self) -> SvcView {
        self.call@
    }
}

impl SvcAsked {
    pub closed spec fn rules(&self) -> CompiledView {
        self.asked.rules()
    }

    #[verifier::type_invariant]
    spec fn about_the_call(self) -> bool {
        &&& self.call.action.mutates()
        &&& self.asked.on() == self.call.host@
        &&& self.asked.command() == self.call.cmd@
    }

    pub fn cmd(&self) -> (r: &str)
        ensures
            r@ == self@.cmd,
    {
        self.call.cmd.as_str()
    }

    pub fn prompt(&self) -> (r: &str)
        ensures
            match checked(self.rules(), self@.cmd) {
                CheckView::Confirm(name) => r@ == guard_prompt(self@.host, name, self@.cmd),
                _ => false,
            },
    {
        proof {
            use_type_invariant(self);
        }
        self.asked.prompt()
    }

    /// What the answer makes of the call. An approval is remembered.
    pub fn answered(
        self,
        answer: Answer,
        approvals: &mut Approvals,
        now_ms: u64,
        ttl: HumanDuration,
    ) -> (r: SvcGuard)
        ensures
            match answer {
                Answer::Approved => may_run(r, self@, self.rules(), Clearance::Approved),
                Answer::Denied => r is Refused && r->Refused_0 is ConfirmationDenied,
                Answer::Deferred => r is Wait,
            },
            final(approvals)@ == (if answer == Answer::Approved {
                with_approval(old(approvals)@, self@.host, self@.cmd, now_ms, ttl)
            } else {
                old(approvals)@
            }),
    {
        proof {
            use_type_invariant(&self);
        }
        let SvcAsked { call, asked } = self;
        match asked.answered(answer, approvals, now_ms, ttl) {
            Clearing::Cleared(c) => {
                let _ = c.cmd();
                SvcGuard::Run(SvcRun { call, rules: Ghost(c.rules()), why: Ghost(c.why()) })
            },
            Clearing::Ask(_) | Clearing::Wait => SvcGuard::Wait,
            Clearing::Refused(e) => SvcGuard::Refused(e),
        }
    }
}

impl View for SvcRun {
    type V = SvcView;

    closed spec fn view(&self) -> SvcView {
        self.call@
    }
}

impl SvcRun {
    /// The guards that let it through.
    pub closed spec fn rules(&self) -> CompiledView {
        self.rules@
    }

    pub closed spec fn why(&self) -> Clearance {
        self.why@
    }

    #[verifier::type_invariant]
    spec fn passed(self) -> bool {
        self.call.action.mutates() ==> lets_through(self.rules@, self.call.cmd@, self.why@)
    }

    /// What is run. Where it changes the host, the guards let it through.
    pub fn cmd(&self) -> (r: &str)
        ensures
            r@ == self@.cmd,
            self@.action.mutates() ==> lets_through(self.rules(), r@, self.why()),
    {
        proof {
            use_type_invariant(self);
        }
        self.call.cmd.as_str()
    }

    /// The command that tells the unit's state, where it is worth asking for
    /// before the action: a restart that ends in `failed` is then told apart
    /// from a unit that had failed already.
    pub fn state_command(&self) -> (r: Option<String>)
        ensures
            match r {
                Some(c) => (self@.action is Restart || self@.action is Start) && c@
                    == state_command_text(self@.unit),
                None => !(self@.action is Restart || self@.action is Start),
            },
    {
        if self.call.action.wants_state_before() {
            Some(active_state_command(self.call.unit.as_str()))
        } else {
            None
        }
    }

    /// What follows the command: the answer, or for an action that changes the
    /// host a look at the state that it left. `before` is what the state
    /// command printed, where it ran.
    pub fn ran(
        self,
        before: Option<&str>,
        exit_code: i32,
        stdout: &str,
        stderr: &str,
    ) -> (r: SvcNext)
        ensures
            match self@.action {
                SvcAction::Failed => r is Answer && r->Answer_0@ == failed_text(
                    self@.host,
                    stdout@,
                ),
                SvcAction::Status => r is Answer && r->Answer_0@ == status_text(
                    self@.host,
                    self@.unit,
                    stdout@,
                ),
                SvcAction::Logs => r is Answer && r->Answer_0@ == logs_text(self@.host, stdout@),
                _ => {
                    &&& r is State && r->State_0@ == self@
                    &&& r->State_0.before() == printed_state(str_view(before))
                    &&& r->State_0.exit_code() == exit_code
                    &&& r->State_0.stderr() == stderr@
                },
            },
    {
        let SvcRun { call, rules: _, why: _ } = self;
        match call.action {
            SvcAction::Failed => SvcNext::Answer(format_failed(call.host.as_str(), stdout)),
            SvcAction::Status => SvcNext::Answer(
                format_status(call.host.as_str(), call.unit.as_str(), stdout),
            ),
            SvcAction::Logs => SvcNext::Answer(format_logs(call.host.as_str(), stdout)),
            _ => {
                let before = match before {
                    Some(s) => unit_active_state(s),
                    None => None,
                };
                SvcNext::State(SvcActed { call, before, exit_code, stderr: stderr.to_owned() })
            },
        }
    }
}

/// The state that the state command printed, where it ran and printed one.
pub open spec fn printed_state(stdout: Option<Seq<char>>) -> Option<Seq<char>> {
    match stdout {
        Some(s) => if trimmed(s).len() > 0 {
            Some(trimmed(s))
        } else {
            None
        },
        None => None,
    }
}

impl View for SvcActed {
    type V = SvcView;

    closed spec fn view(&self) -> SvcView {
        self.call@
    }
}

impl SvcActed {
    pub closed spec fn before(&self) -> Option<Seq<char>> {
        opt_view(self.before)
    }

    pub closed spec fn exit_code(&self) -> i32 {
        self.exit_code
    }

    pub closed spec fn stderr(&self) -> Seq<char> {
        self.stderr@
    }

    /// The answer, once the state and the journal are known.
    pub open spec fn answer(&self, state: Option<Seq<char>>, journal: Option<Seq<char>>) -> Seq<
        char,
    > {
        action_text(
            self@.host,
            self@.unit,
            self@.action,
            self.exit_code(),
            state_text(state, self.before(), journal),
            self.stderr(),
        )
    }

    /// The command that tells the unit's state.
    pub fn state_command(&self) -> (r: String)
        ensures
            r@ == state_command_text(self@.unit),
    {
        active_state_command(self.call.unit.as_str())
    }

    /// What follows the state. `stdout` is what the state command printed, where
    /// it ran.
    pub fn state(self, stdout: Option<&str>) -> (r: SvcEnd)
        ensures
            match printed_state(str_view(stdout)) {
                Some(s) if s == "failed"@ => r is Journal && r->Journal_0.acted() == self,
                state => r is Answer && r->Answer_0@ == self.answer(state, None),
            },
    {
        let state = match stdout {
            Some(s) => unit_active_state(s),
            None => None,
        };
        match state {
            Some(s) => {
                if is_failed(s.as_str()) {
                    SvcEnd::Journal(SvcFailed { acted: self, state: s })
                } else {
                    SvcEnd::Answer(self.format(Some(s.as_str()), None))
                }
            },
            None => SvcEnd::Answer(self.format(None, None)),
        }
    }

    fn format(&self, state: Option<&str>, journal: Option<&str>) -> (r: String)
        ensures
            r@ == self.answer(str_view(state), str_view(journal)),
    {
        let before = match &self.before {
            Some(s) => Some(s.as_str()),
            None => None,
        };
        format_action(
            self.call.host.as_str(),
            self.call.unit.as_str(),
            self.call.action,
            self.exit_code,
            state,
            before,
            journal,
            self.stderr.as_str(),
        )
    }
}

impl SvcFailed {
    pub closed spec fn acted(&self) -> SvcActed {
        self.acted
    }

    #[verifier::type_invariant]
    spec fn has_failed(self) -> bool {
        self.state@ == "failed"@
    }

    /// The command that shows the end of the unit's journal.
    pub fn journal_command(&self) -> (r: String)
        ensures
            r@ == "journalctl -u "@ + quoted_word(self.acted()@.unit)
                + " -n 30 -o cat --no-pager 2>/dev/null"@,
    {
        journal_tail_command(self.acted.call.unit.as_str())
    }

    /// The answer. `stdout` is the journal, where the command ran.
    pub fn journal(self, stdout: Option<&str>) -> (r: String)
        ensures
            r@ == self.acted().answer(Some("failed"@), str_view(stdout)),
    {
        proof {
            use_type_invariant(&self);
        }
        self.acted.format(Some(self.state.as_str()), stdout)
    }
}

// ---------------------------------------------------------------------------
// Laws on parsing
// ---------------------------------------------------------------------------

/// A line `key=value` says that the key has the value, whatever else stands in
/// it; an equals sign in the value is a part of it.
pub proof fn law_fact_line_says_its_value(key: Seq<char>, value: Seq<char>)
    requires
        key.len() > 0 && !is_space(key[0]) && !is_space(key.last()),
        !key.contains('='),
        value.len() > 0 && !is_space(value[0]) && !is_space(value.last()),
    ensures
        fact_in(key + seq!['='] + value) == Some((key, value)),
{
    let l = key + seq!['='] + value;
    assert(l[0] == key[0] && l.last() == value.last());
    assert(trimmed(l) == l);
    assert forall|i: int| 0 <= i < key.len() implies l[i] != '=' by {
        assert(l[i] == key[i]);
        assert(key.contains(key[i]));
    }
    lemma_until_is(l, '=', key.len() as int);
    assert(l.take(key.len() as int) =~= key);
    assert(l.skip(key.len() as int + 1) =~= value);
    assert(trimmed(key) == key);
    assert(trimmed(value) == value);
}

/// The last line that says a fact counts, and a line says nothing of any other.
pub proof fn law_last_fact_counts(ls: Seq<Seq<char>>, line: Seq<char>, key: Seq<char>)
    ensures
        fact_value(ls.push(line), key) == (match fact_in(line) {
            Some((k, v)) => if k == key {
                Some(v)
            } else {
                fact_value(ls, key)
            },
            None => fact_value(ls, key),
        }),
{
    assert(ls.push(line).drop_last() =~= ls);
}

proof fn lemma_join_add(a: Seq<Seq<char>>, b: Seq<Seq<char>>, c: char)
    requires
        a.len() > 0,
        b.len() > 0,
    ensures
        join_with(a + b, c) == join_with(a, c).push(c) + join_with(b, c),
    decreases b.len(),
{
    let ab = a + b;
    assert(ab.drop_last() =~= a + b.drop_last());
    assert(ab.last() == b.last());
    if b.len() == 1 {
        assert(ab.drop_last() =~= a);
    } else {
        lemma_join_add(a, b.drop_last(), c);
        assert(join_with(ab, c) =~= join_with(a, c).push(c) + join_with(b, c));
    }
}

/// A row loses nothing of its line: the words come in order, and those that have
/// no column of their own stand in the last. A column that has no word shows a
/// dash.
pub proof fn law_row_loses_nothing(ws: Seq<Seq<char>>, cols: nat)
    requires
        cols > 0,
    ensures
        columns_of(ws, cols).len() == cols,
        ws.len() >= cols ==> join_with(columns_of(ws, cols), ' ') == join_with(ws, ' '),
        forall|i: int|
            0 <= i < ws.len() && i < cols - 1 ==> #[trigger] columns_of(ws, cols)[i] == ws[i],
        forall|i: int|
            ws.len() <= i < cols ==> #[trigger] columns_of(ws, cols)[i] == seq!['-'],
        ws.len() == cols ==> columns_of(ws, cols) == ws,
{
    reveal_strlit("-");
    assert("-"@ =~= seq!['-']);
    let row = columns_of(ws, cols);
    if ws.len() >= cols {
        let a = ws.take(cols - 1);
        let b = ws.skip(cols - 1);
        let last = seq![join_with(b, ' ')];
        assert(row =~= a + last);
        assert(ws =~= a + b);
        if cols == 1 {
            assert(b =~= ws);
            assert(row =~= last);
        } else {
            lemma_join_add(a, last, ' ');
            lemma_join_add(a, b, ' ');
        }
        if ws.len() == cols {
            assert(b =~= seq![ws.last()]);
            assert(row =~= ws);
        }
    }
}

/// Every line that is not blank has a row of its own, in order, and a blank one
/// has none.
pub proof fn law_a_row_for_each_line(ls: Seq<Seq<char>>, line: Seq<char>, cols: nat)
    ensures
        column_rows(ls.push(line), cols) == (if trimmed(line).len() == 0 {
            column_rows(ls, cols)
        } else {
            column_rows(ls, cols).push(columns_of(words_of(trimmed(line)), cols))
        }),
        column_rows(Seq::empty(), cols).len() == 0,
{
    assert(ls.push(line).drop_last() =~= ls);
}

/// A capital behind a small letter begins a word.
pub proof fn law_snake_case_parts_words(a: Seq<char>, b: Seq<char>)
    requires
        a.len() > 0,
        b.len() > 0,
        'a' <= a.last() <= 'z',
        'A' <= b[0] <= 'Z',
    ensures
        snake_of(a + b, (a.len() + b.len()) as int) == snake_of(a, a.len() as int).push('_')
            + snake_of(b, b.len() as int),
{
    lemma_snake_first(a, b, a.len() as int);
    lemma_snake_second(a, b, b.len() as int);
}

proof fn lemma_snake_first(a: Seq<char>, b: Seq<char>, n: int)
    requires
        0 <= n <= a.len(),
        a.len() > 0,
        b.len() > 0,
        'a' <= a.last() <= 'z',
        'A' <= b[0] <= 'Z',
    ensures
        snake_of(a + b, n) == snake_of(a, n),
    decreases n,
{
    if n > 0 {
        lemma_snake_first(a, b, n - 1);
        let s = a + b;
        assert(s[n - 1] == a[n - 1]);
        if n >= 2 {
            assert(s[n - 2] == a[n - 2]);
        }
        if n < a.len() {
            assert(s[n] == a[n]);
        }
    }
}

proof fn lemma_snake_second(a: Seq<char>, b: Seq<char>, n: int)
    requires
        0 < n <= b.len(),
        a.len() > 0,
        b.len() > 0,
        'a' <= a.last() <= 'z',
        'A' <= b[0] <= 'Z',
    ensures
        snake_of(a + b, a.len() + n) == snake_of(a + b, a.len() as int).push('_') + snake_of(b, n),
    decreases n,
{
    let s = a + b;
    let at = a.len() + n - 1;
    assert(s[at] == b[n - 1]);
    assert(s[a.len() - 1] == a.last());
    if n < b.len() {
        assert(s[at + 1] == b[n]);
    }
    let head = snake_of(s, a.len() as int).push('_');
    if n == 1 {
        assert(begins_word(s, at));
        assert(snake_of(b, 0) =~= Seq::empty());
        assert(snake_of(b, 1) =~= seq![lower_char(b[0])]);
        assert(snake_of(s, at + 1) =~= head + snake_of(b, 1));
    } else {
        lemma_snake_second(a, b, n - 1);
        assert(s[at - 1] == b[n - 2]);
        assert(begins_word(s, at) == begins_word(b, n - 1));
        assert(snake_of(s, at + 1) =~= head + snake_of(b, n));
    }
}

/// A word of small letters behind a first letter of either case is only
/// lowercased.
pub proof fn law_snake_case_keeps_a_word(w: Seq<char>, n: int)
    requires
        0 <= n <= w.len(),
        forall|i: int| 0 < i < w.len() ==> 'a' <= #[trigger] w[i] <= 'z',
    ensures
        snake_of(w, n) == lower(w.take(n)),
    decreases n,
{
    if n > 0 {
        law_snake_case_keeps_a_word(w, n - 1);
        assert(n > 1 ==> 'a' <= w[n - 1] <= 'z');
        assert(!begins_word(w, n - 1));
        assert(lower(w.take(n)) =~= lower(w.take(n - 1)).push(lower_char(w[n - 1])));
    } else {
        assert(lower(w.take(0)) =~= Seq::empty());
    }
}

/// Every property that is set is shown, under its own name and with its own
/// value.
pub proof fn law_set_properties_are_shown(
    names: Seq<Seq<char>>,
    ls: Seq<Seq<char>>,
    n: int,
    i: int,
)
    requires
        0 <= i < n,
        trimmed(ls[i]).len() > 0,
        trimmed(ls[i]) != "[not set]"@,
    ensures
        has_part(
            property_fields(names, ls, n),
            field_text(0, snake_of(names[i], names[i].len() as int), scalar(trimmed(ls[i]))),
        ),
    decreases n,
{
    let part = field_text(0, snake_of(names[i], names[i].len() as int), scalar(trimmed(ls[i])));
    let before = property_fields(names, ls, n - 1);
    let none = Seq::<char>::empty();
    if i == n - 1 {
        lemma_has_part(before, part, none);
        assert(before + part + none =~= before + part);
    } else {
        law_set_properties_are_shown(names, ls, n - 1, i);
        if is_set(ls[n - 1]) {
            let more = field_text(
                0,
                snake_of(names[n - 1], names[n - 1].len() as int),
                scalar(trimmed(ls[n - 1])),
            );
            let k = choose|k: int|
                #![trigger before.skip(k)]
                0 <= k <= before.len() && has_prefix(before.skip(k), part);
            let whole = before + more;
            assert(before.skip(k).take(part.len() as int) == part);
            assert(whole.skip(k).take(part.len() as int) =~= part);
            assert(has_prefix(whole.skip(k), part));
        }
    }
}

/// A message of the journal is shown as it is, and an entry without one is left
/// out.
pub proof fn law_journal_shows_the_message(
    time: JsonFieldView,
    priority: JsonFieldView,
    message: Seq<char>,
)
    ensures
        journal_cells(time, priority, JsonFieldView::Text(message)) is Some,
        journal_cells(time, priority, JsonFieldView::Text(message))->0.len() == 3,
        journal_cells(time, priority, JsonFieldView::Text(message))->0[2] == message,
        priority matches JsonFieldView::Text(p) ==> journal_cells(
            time,
            priority,
            JsonFieldView::Text(message),
        )->0[1] == p,
        journal_cells(time, priority, JsonFieldView::Absent) is None,
{
}

/// Looking changes nothing and needs no leave; everything else changes the host.
pub proof fn law_only_looking_is_harmless(a: SvcAction)
    ensures
        a is Status || a is Logs || a is Failed <==> !a.mutates(),
{
}

/// Letters, digits and the signs that unit names are made of are accepted.
pub proof fn law_ordinary_units_are_accepted(unit: Seq<char>)
    requires
        0 < unit.len(),
        bytes_of(unit).len() <= 256,
        forall|i: int|
            0 <= i < unit.len() ==> ('a' <= #[trigger] unit[i] <= 'z' || 'A' <= unit[i] <= 'Z'
                || '0' <= unit[i] <= '9' || unit[i] == '-' || unit[i] == '_' || unit[i] == '.'
                || unit[i] == '@' || unit[i] == ':' || unit[i] == '\\'),
    ensures
        unit_fault(unit) is None,
{
}

/// Every line about a socket has a row: its protocol, the address that it
/// listens on, and what owns it.
pub proof fn law_a_row_for_each_socket(ls: Seq<Seq<char>>, line: Seq<char>)
    requires
        words_of(trimmed(line)).len() > 3,
    ensures
        sockets_of(ls.push(line)).len() == sockets_of(ls).len() + 1,
        sockets_of(ls.push(line)).drop_last() == sockets_of(ls),
        sockets_of(ls.push(line)).last().len() == 3,
        sockets_of(ls.push(line)).last()[1] == words_of(trimmed(line))[3],
        sockets_of(ls.push(line)).last()[0] == (if has_part(trimmed(line), "UNCONN"@) {
            "udp"@
        } else {
            "tcp"@
        }),
{
    assert(ls.push(line).drop_last() =~= ls);
    assert(sockets_of(ls.push(line)).drop_last() =~= sockets_of(ls));
}

/// Whatever a path holds, the shell reads it as the one word that it is.
pub proof fn law_du_names_the_path(top: nat, path: Seq<char>)
    ensures
        exists|w: Seq<char>| #[trigger]
            sh_word(w, false) == Some(path) && sys_command_text(SysView::Du, top, Some(path))
                == "du -x -d 1 -B1 "@ + w + " 2>/dev/null | sort -rn | head -n "@ + decimal(top),
{
    law_shell_reads_quoted_word_back(path);
    assert(sh_word(quoted_word(path), false) == Some(path));
}

/// An action on a unit is that action, on that unit.
pub proof fn law_action_names_its_unit(unit: Seq<char>, lines: nat)
    ensures
        exists|w: Seq<char>| #[trigger]
            sh_word(w, false) == Some(unit) && {
                &&& svc_command_text(SvcAction::Start, unit, lines) == "systemctl "@ + "start"@
                    + " "@ + w
                &&& svc_command_text(SvcAction::Stop, unit, lines) == "systemctl "@ + "stop"@ + " "@
                    + w
                &&& svc_command_text(SvcAction::Restart, unit, lines) == "systemctl "@ + "restart"@
                    + " "@ + w
                &&& svc_command_text(SvcAction::Reload, unit, lines) == "systemctl "@ + "reload"@
                    + " "@ + w
                &&& svc_command_text(SvcAction::Enable, unit, lines) == "systemctl "@ + "enable"@
                    + " "@ + w
                &&& svc_command_text(SvcAction::Disable, unit, lines) == "systemctl "@ + "disable"@
                    + " "@ + w
                &&& svc_command_text(SvcAction::Logs, unit, lines) == "journalctl -u "@ + w
                    + " -n "@ + decimal(lines) + " -o json --no-pager 2>/dev/null"@
                &&& has_prefix(
                    svc_command_text(SvcAction::Status, unit, lines),
                    "systemctl show "@ + w,
                )
            },
{
    law_shell_reads_quoted_word_back(unit);
    let w = quoted_word(unit);
    assert(sh_word(w, false) == Some(unit));
    let s = svc_command_text(SvcAction::Status, unit, lines);
    let a = "systemctl show "@ + w;
    assert(s.take(a.len() as int) =~= a);
}

/// Every fact but the list of tools is shown, under its own name.
pub proof fn law_every_fact_is_shown(p: Seq<(Seq<char>, Seq<char>)>, i: int)
    requires
        0 <= i < p.len(),
        p[i].0 != "has"@,
    ensures
        has_part(facts_fields(p), field_text(0, p[i].0, scalar(p[i].1))),
    decreases p.len(),
{
    let part = field_text(0, p[i].0, scalar(p[i].1));
    let less = p.drop_last();
    let before = facts_fields(less);
    let none = Seq::<char>::empty();
    if i == p.len() - 1 {
        lemma_has_part(before, part, none);
        assert(before + part + none =~= before + part);
    } else {
        law_every_fact_is_shown(less, i);
        if p.last().0 != "has"@ {
            let whole = before + field_text(0, p.last().0, scalar(p.last().1));
            let k = choose|k: int|
                #![trigger before.skip(k)]
                0 <= k <= before.len() && has_prefix(before.skip(k), part);
            assert(before.skip(k).take(part.len() as int) == part);
            assert(whole.skip(k).take(part.len() as int) =~= part);
            assert(has_prefix(whole.skip(k), part));
        }
    }
}

/// A line about memory is shown under its name, without the colon.
pub proof fn law_memory_line_is_a_field(name: Seq<char>, value: Seq<char>)
    requires
        name.len() > 0,
        !name.contains(' '),
        !is_space(name[0]),
        name.last() != ':',
        value.len() > 0,
        !is_space(value[0]) && !is_space(value.last()),
    ensures
        mem_field(name + seq![':', ' '] + value) == field_text(0, name, scalar(value)),
{
    law_white_space();
    reveal_strlit(":");
    let l = name + seq![':', ' '] + value;
    let key = name.push(':');
    assert(l[0] == name[0] && l.last() == value.last());
    assert(trimmed(l) == l);
    assert forall|i: int| 0 <= i < key.len() implies l[i] != ' ' by {
        assert(l[i] == key[i]);
        if i < name.len() {
            assert(name.contains(name[i]));
        }
    }
    lemma_until_is(l, ' ', key.len() as int);
    assert(l.take(key.len() as int) =~= key);
    assert(l.skip(key.len() as int + 1) =~= value);
    assert(trimmed(value) == value);
    let colon = ":"@;
    assert(colon =~= seq![':']);
    assert(key.skip(key.len() - 1) =~= colon);
    assert(key.take(key.len() - 1) =~= name);
    assert(has_suffix(key, colon));
    assert(!has_suffix(name, colon)) by {
        assert(name.skip(name.len() - 1)[0] == name.last());
    }
    assert(without_suffixes(key, colon) == without_suffixes(name, colon));
    assert(without_suffixes(name, colon) == name);
}

/// How many lines of the journal come back is what was asked for, between one and
/// five hundred.
pub proof fn law_journal_count_is_kept_within_limits(n: u32)
    ensures
        1 <= n <= 500 ==> journal_count(Some(n)) == n,
        1 <= journal_count(Some(n)) <= 500,
        1 <= journal_count(None) <= 500,
{
}

/// Each entry of the journal has its row, in order.
pub proof fn law_a_row_for_each_journal_entry(ls: Seq<Seq<char>>)
    requires
        forall|i: int| 0 <= i < ls.len() ==> journal_of(#[trigger] ls[i]) is Some,
    ensures
        journal_rows(ls).len() == ls.len(),
        forall|i: int|
            0 <= i < ls.len() ==> #[trigger] journal_rows(ls)[i] == journal_of(ls[i])->0,
    decreases ls.len(),
{
    if ls.len() > 0 {
        let less = ls.drop_last();
        assert forall|i: int| 0 <= i < less.len() implies journal_of(#[trigger] less[i]) is Some by {
            assert(less[i] == ls[i]);
        }
        law_a_row_for_each_journal_entry(less);
        assert(journal_of(ls[ls.len() - 1]) is Some);
        assert forall|i: int| 0 <= i < ls.len() implies #[trigger] journal_rows(ls)[i]
            == journal_of(ls[i])->0 by {
            if i < less.len() {
                assert(journal_rows(less)[i] == journal_of(less[i])->0);
            }
        }
    }
}

/// What is said about memory in two pieces of output is said in both together, in
/// order.
pub proof fn law_memory_is_shown_line_by_line(a: Seq<Seq<char>>, b: Seq<Seq<char>>)
    ensures
        mem_fields(a + b) == mem_fields(a) + mem_fields(b),
    decreases b.len(),
{
    if b.len() == 0 {
        assert(a + b =~= a);
        assert(mem_fields(a) + mem_fields(b) =~= mem_fields(a));
    } else {
        law_memory_is_shown_line_by_line(a, b.drop_last());
        assert((a + b).drop_last() =~= a + b.drop_last());
        assert((a + b).last() == b.last());
        assert(mem_fields(a + b) =~= mem_fields(a) + mem_fields(b));
    }
}

/// A state is heard without the white space around it, and silence is no state.
pub proof fn law_state_is_the_printed_word(w: Seq<char>)
    requires
        w.len() > 0,
        !is_space(w[0]),
        !is_space(w.last()),
    ensures
        printed_state(Some(w.push('\n'))) == Some(w),
        printed_state(Some(seq!['\n'])) is None,
        printed_state(Some(Seq::empty())) is None,
        printed_state(None) is None,
{
    law_white_space();
    let l = w.push('\n');
    assert(l[0] == w[0] && !is_space(l[0]));
    assert(trimmed_start(l) == l);
    assert(l.drop_last() =~= w);
    assert(trimmed_end(w) == w);
    assert(trimmed_end(l) == w);
    let b = seq!['\n'];
    let none = Seq::<char>::empty();
    assert(b.drop_first() =~= none);
    assert(trimmed_start(none) == none);
    assert(trimmed_start(b) == none);
    assert(trimmed_end(none) == none);
}

/// A call that the chain blocks or has to ask about does not run; one that runs
/// is the one that was put to the chain.
pub proof fn law_chain_runs_its_own_call(
    c: SvcGuard,
    call: SvcView,
    rules: CompiledView,
    view: ChainView,
)
    requires
        svc_fares(c, call, rules, view),
    ensures
        c is Run <==> view is Allowed || view is Remembered || view is Approved,
        c matches SvcGuard::Run(x) ==> x@ == call && x.rules() == rules,
        c is Ask <==> view is Ask,
        c matches SvcGuard::Ask(a) ==> a@ == call && a.rules() == rules,
        c is Refused <==> view is Denied || view is Blocked,
{
}

/// A time is cut to the second before it, seen from the epoch: less than a second
/// is lost, and never more than there was.
pub proof fn law_seconds_are_cut_towards_the_epoch(us: int)
    ensures
        us >= 0 ==> 0 <= us - whole_seconds(us) * 1000000 < 1000000,
        us < 0 ==> 0 <= whole_seconds(us) * 1000000 - us < 1000000,
        us >= 0 ==> whole_seconds(us) >= 0,
        us <= 0 ==> whole_seconds(us) <= 0,
{
}

} // verus!

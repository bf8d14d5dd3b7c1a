//! Minimal `ssh_config(5)` client-config parser.
//!
//! Scope is deliberately narrow: `Host` blocks, keyword/value lines,
//! `Include`, and first-value-wins resolution. `Match` blocks are parsed only
//! so their keyword lines are not misattributed to the preceding `Host`
//! block; their conditions are never evaluated and their contents are
//! dropped. Token expansion (`%h`, `%p`, `%r`) is not performed, and no
//! value is interpreted beyond `Port` (parsed as `u16`).
//!
//! Everything here is fail-soft: a malformed line is skipped.

pub mod files;

use vstd::prelude::*;

use crate::text::{
    chars_of, drop_space, has_char, holds, is_space, law_white_space, lemma_lines_add, lemma_until,
    lemma_until_is, lemma_views_push, lines, lines_of, lower, lower_char, parse_unsigned, same,
    skip_space, space, string_of, to_lower, trim, trimmed, trimmed_end, trimmed_start, unsigned_of,
    until, views, without_cr,
};

verus! {

// ---------------------------------------------------------------------------
// Globs
// ---------------------------------------------------------------------------

/// `*` matches any run of characters, `?` exactly one.
pub open spec fn glob(p: Seq<char>, t: Seq<char>) -> bool
    decreases p.len() + t.len(),
{
    if p.len() == 0 {
        t.len() == 0
    } else if p[0] == '*' {
        glob(p.skip(1), t) || (t.len() > 0 && glob(p, t.skip(1)))
    } else {
        t.len() > 0 && (p[0] == '?' || p[0] == t[0]) && glob(p.skip(1), t.skip(1))
    }
}

/// One step of a pattern and a text that are looked at from `i` and `j` on.
proof fn lemma_glob_step(p: Seq<char>, t: Seq<char>, i: int, j: int)
    requires
        0 <= i <= p.len(),
        0 <= j <= t.len(),
    ensures
        i == p.len() ==> glob(p.skip(i), t.skip(j)) == (j == t.len()),
        i < p.len() && p[i] == '*' ==> glob(p.skip(i), t.skip(j)) == (glob(
            p.skip(i + 1),
            t.skip(j),
        ) || (j < t.len() && glob(p.skip(i), t.skip(j + 1)))),
        i < p.len() && p[i] != '*' ==> glob(p.skip(i), t.skip(j)) == (j < t.len() && (p[i] == '?'
            || p[i] == t[j]) && glob(p.skip(i + 1), t.skip(j + 1))),
{
    if i < p.len() {
        assert(p.skip(i).skip(1) =~= p.skip(i + 1));
    }
    if j < t.len() {
        assert(t.skip(j).skip(1) =~= t.skip(j + 1));
    }
}

/// `k` pattern characters without a star take `k` characters of the text.
proof fn lemma_glob_run(p: Seq<char>, t: Seq<char>, i: int, j: int, k: int)
    requires
        0 <= k,
        0 <= i,
        i + k <= p.len(),
        0 <= j <= t.len(),
        forall|x: int| i <= x < i + k ==> p[x] != '*',
        glob(p.skip(i), t.skip(j)),
    ensures
        j + k <= t.len(),
        glob(p.skip(i + k), t.skip(j + k)),
    decreases k,
{
    if k > 0 {
        lemma_glob_step(p, t, i, j);
        lemma_glob_run(p, t, i + 1, j + 1, k - 1);
    }
}

/// A star takes whatever comes before a place where it can begin.
proof fn lemma_glob_star_absorbs(p: Seq<char>, t: Seq<char>, s: int, i: int, j: int)
    requires
        0 <= s < p.len(),
        p[s] == '*',
        0 <= i <= j <= t.len(),
        glob(p.skip(s), t.skip(j)),
    ensures
        glob(p.skip(s), t.skip(i)),
    decreases j - i,
{
    if i < j {
        lemma_glob_star_absorbs(p, t, s, i + 1, j);
        lemma_glob_step(p, t, s, i);
    }
}

/// Where the part of the text that a star takes ends.
proof fn lemma_glob_star_end(p: Seq<char>, t: Seq<char>, s: int, i: int) -> (r: int)
    requires
        0 <= s < p.len(),
        p[s] == '*',
        0 <= i <= t.len(),
        glob(p.skip(s), t.skip(i)),
    ensures
        i <= r <= t.len(),
        glob(p.skip(s + 1), t.skip(r)),
    decreases t.len() - i,
{
    lemma_glob_step(p, t, s, i);
    if glob(p.skip(s + 1), t.skip(i)) {
        i
    } else {
        lemma_glob_star_end(p, t, s, i + 1)
    }
}

/// Iterative with a single backtrack point, so it is linear in practice and
/// cannot recurse itself into a stack overflow. Compares by `char`, never by
/// byte offset.
pub fn glob_match(pattern: &str, text: &str) -> (r: bool)
    ensures
        r == glob(pattern@, text@),
{
    let p = chars_of(pattern);
    let t = chars_of(text);
    let ghost ps = p@;
    let ghost ts = t@;
    let mut pi: usize = 0;
    let mut ti: usize = 0;
    let mut star: Option<usize> = None;
    let mut resume: usize = 0;
    assert(ps.skip(0) =~= ps);
    assert(ts.skip(0) =~= ts);
    while ti < t.len()
        invariant
            ps == p@,
            ps == pattern@,
            ts == t@,
            ts == text@,
            pi <= ps.len(),
            resume <= ti <= ts.len(),
            match star {
                None => glob(ps, ts) == glob(ps.skip(pi as int), ts.skip(ti as int)),
                Some(s) => {
                    &&& s < pi
                    &&& ps[s as int] == '*'
                    &&& glob(ps, ts) == glob(ps.skip(s as int), ts.skip(resume as int))
                    &&& pi - s - 1 == ti - resume
                    &&& forall|x: int| s < x < pi ==> ps[x] != '*'
                    &&& glob(ps.skip(s + 1), ts.skip(resume as int)) == glob(
                        ps.skip(pi as int),
                        ts.skip(ti as int),
                    )
                },
            },
        decreases ts.len() - resume, ps.len() - pi,
    {
        proof {
            lemma_glob_step(ps, ts, pi as int, ti as int);
        }
        if pi < p.len() && p[pi] == '*' {
            proof {
                if let Some(s) = star {
                    // The star before this one took as little as it could; a
                    // later end of it is one that this star can take over.
                    lemma_glob_step(ps, ts, s as int, resume as int);
                    if glob(ps.skip(s as int), ts.skip(resume as int)) {
                        let e = lemma_glob_star_end(ps, ts, s as int, resume as int);
                        let k = pi - s - 1;
                        lemma_glob_run(ps, ts, s + 1, e, k);
                        lemma_glob_star_absorbs(ps, ts, pi as int, ti as int, e + k);
                    }
                }
            }
            star = Some(pi);
            resume = ti;
            pi = pi + 1;
        } else if pi < p.len() && (p[pi] == '?' || p[pi] == t[ti]) {
            pi = pi + 1;
            ti = ti + 1;
        } else {
            match star {
                Some(s) => {
                    proof {
                        lemma_glob_step(ps, ts, s as int, resume as int);
                    }
                    pi = s + 1;
                    resume = resume + 1;
                    ti = resume;
                },
                None => {
                    return false;
                },
            }
        }
    }
    let ghost stop = pi;
    while pi < p.len() && p[pi] == '*'
        invariant
            ps == p@,
            ts == t@,
            ti == ts.len(),
            stop <= pi <= ps.len(),
            glob(ps.skip(stop as int), ts.skip(ti as int)) == glob(
                ps.skip(pi as int),
                ts.skip(ti as int),
            ),
        decreases ps.len() - pi,
    {
        proof {
            lemma_glob_step(ps, ts, pi as int, ti as int);
        }
        pi = pi + 1;
    }
    proof {
        lemma_glob_step(ps, ts, pi as int, ti as int);
        if let Some(s) = star {
            lemma_glob_step(ps, ts, s as int, resume as int);
            if glob(ps.skip(s as int), ts.skip(resume as int)) {
                let e = lemma_glob_star_end(ps, ts, s as int, resume as int);
                lemma_glob_run(ps, ts, s + 1, e, stop - s - 1);
                assert(e == resume);
            }
        }
    }
    pi == p.len()
}

/// A pattern without wildcards matches itself and nothing else.
pub proof fn law_literal_pattern_matches_itself(p: Seq<char>, t: Seq<char>)
    requires
        !p.contains('*'),
        !p.contains('?'),
    ensures
        glob(p, t) == (p == t),
    decreases p.len(),
{
    if p.len() > 0 {
        assert(p.contains(p[0]));
        if t.len() > 0 {
            let p1 = p.skip(1);
            let t1 = t.skip(1);
            assert forall|c: char| !p.contains(c) implies !p1.contains(c) by {
                if p1.contains(c) {
                    let i = choose|i: int| 0 <= i < p1.len() && p1[i] == c;
                    assert(p[i + 1] == c);
                }
            }
            law_literal_pattern_matches_itself(p1, t1);
            assert(p =~= seq![p[0]] + p1);
            assert(t =~= seq![t[0]] + t1);
            if p == t {
                assert(p1 =~= t1);
            }
        }
    } else if t.len() == 0 {
        assert(p =~= t);
    }
}

/// A lone star matches everything.
pub proof fn law_star_matches_everything(t: Seq<char>)
    ensures
        glob(seq!['*'], t),
    decreases t.len(),
{
    assert(seq!['*'].skip(1) =~= Seq::empty());
    if t.len() > 0 {
        law_star_matches_everything(t.skip(1));
    } else {
        assert(glob(Seq::empty(), t));
    }
}

// ---------------------------------------------------------------------------
// Lines
// ---------------------------------------------------------------------------

/// Where a trailing comment begins: at the first `#` outside double quotes.
pub open spec fn comment_at(s: Seq<char>, in_quote: bool) -> int
    decreases s.len(),
{
    if s.len() == 0 || (s[0] == '#' && !in_quote) {
        0
    } else {
        1 + comment_at(s.skip(1), if s[0] == '"' {
            !in_quote
        } else {
            in_quote
        })
    }
}

/// A line without its trailing comment.
pub open spec fn uncommented(s: Seq<char>) -> Seq<char> {
    s.take(comment_at(s, false))
}

/// How long the keyword of a line is: it ends at white space or `=`.
pub open spec fn keyword_len(s: Seq<char>) -> int
    decreases s.len(),
{
    if s.len() == 0 || is_space(s[0]) || s[0] == '=' {
        0
    } else {
        1 + keyword_len(s.skip(1))
    }
}

/// What follows a keyword: one `=` may stand between the two.
pub open spec fn value_of(rest: Seq<char>) -> Seq<char> {
    let r = trimmed_start(rest);
    let v = if r.len() > 0 && r[0] == '=' {
        r.skip(1)
    } else {
        r
    };
    trimmed_end(trimmed_start(v))
}

/// A line as keyword and value, where there is anything on it.
pub open spec fn key_value(line: Seq<char>) -> Option<(Seq<char>, Seq<char>)> {
    let s = trimmed(line);
    if s.len() == 0 {
        None
    } else {
        Some((s.take(keyword_len(s)), value_of(s.skip(keyword_len(s)))))
    }
}

/// Tokens between white space, honoring double quotes. `cur` is the token read
/// so far, `quoted` says that quotes stood in it, `in_quote` that they are open.
pub open spec fn tokens_from(s: Seq<char>, cur: Seq<char>, quoted: bool, in_quote: bool) -> Seq<
    Seq<char>,
>
    decreases s.len(),
{
    if s.len() == 0 {
        if quoted || cur.len() > 0 {
            seq![cur]
        } else {
            Seq::empty()
        }
    } else if in_quote {
        if s[0] == '"' {
            tokens_from(s.skip(1), cur, quoted, false)
        } else {
            tokens_from(s.skip(1), cur.push(s[0]), quoted, true)
        }
    } else if s[0] == '"' {
        tokens_from(s.skip(1), cur, true, true)
    } else if is_space(s[0]) {
        if quoted || cur.len() > 0 {
            seq![cur] + tokens_from(s.skip(1), Seq::empty(), false, false)
        } else {
            tokens_from(s.skip(1), cur, quoted, false)
        }
    } else {
        tokens_from(s.skip(1), cur.push(s[0]), quoted, false)
    }
}

/// The tokens of a value.
pub open spec fn tokens_of(s: Seq<char>) -> Seq<Seq<char>> {
    tokens_from(s, Seq::empty(), false, false)
}

/// A value without one pair of double quotes around it.
pub open spec fn unquoted(v: Seq<char>) -> Seq<char> {
    let t = trimmed(v);
    if t.len() >= 2 && t[0] == '"' && t.last() == '"' {
        t.subrange(1, t.len() - 1)
    } else {
        t
    }
}

/// Cuts a trailing `#` comment when it sits outside double quotes. OpenSSH
/// itself only honors whole-line comments; trailing ones are accepted here
/// because every hand-written config uses them.
pub(crate) fn strip_comment(line: &str) -> (r: String)
    ensures
        r@ == uncommented(line@),
{
    let v = chars_of(line);
    let mut in_quote = false;
    let mut i: usize = 0;
    assert(v@.skip(0) =~= v@);
    while i < v.len() && !(v[i] == '#' && !in_quote)
        invariant
            i <= v@.len(),
            comment_at(v@, false) == i + comment_at(v@.skip(i as int), in_quote),
        decreases v@.len() - i,
    {
        assert(v@.skip(i as int).skip(1) =~= v@.skip(i + 1));
        if v[i] == '"' {
            in_quote = !in_quote;
        }
        i = i + 1;
    }
    assert(v@.subrange(0, i as int) =~= v@.take(i as int));
    string_of(&v, 0, i)
}

/// Splits `Keyword value...` on whitespace or `=` (`Port=2222` is valid).
/// Returns `None` only for an empty line.
pub(crate) fn split_kv(line: &str) -> (r: Option<(String, String)>)
    ensures
        match r {
            Some(kv) => key_value(line@) == Some((kv.0@, kv.1@)),
            None => key_value(line@) is None,
        },
{
    let t = trim(line);
    let v = chars_of(t.as_str());
    let ghost s = v@;
    if v.len() == 0 {
        return None;
    }
    let n: usize = v.len();
    let mut i: usize = 0;
    assert(s.skip(0) =~= s);
    while i < n && !(space(v[i]) || v[i] == '=')
        invariant
            n == v@.len(),
            s == v@,
            i <= n,
            keyword_len(s) == i + keyword_len(s.skip(i as int)),
        decreases n - i,
    {
        assert(s.skip(i as int).skip(1) =~= s.skip(i + 1));
        i = i + 1;
    }
    let kw = string_of(&v, 0, i);
    assert(kw@ =~= s.take(i as int));
    assert(s.subrange(i as int, n as int) =~= s.skip(i as int));
    let a: usize = skip_space(&v, i, n);
    let b: usize = if a < n && v[a] == '=' {
        a + 1
    } else {
        a
    };
    proof {
        let r = trimmed_start(s.skip(i as int));
        assert(r == s.subrange(a as int, n as int));
        if b == a + 1 {
            assert(r.skip(1) =~= s.subrange(b as int, n as int));
        }
    }
    let c: usize = skip_space(&v, b, n);
    let d: usize = drop_space(&v, c, n);
    let value = string_of(&v, c, d);
    Some((kw, value))
}

/// Whitespace-separated tokens, honoring double quotes.
pub(crate) fn split_tokens(s: &str) -> (r: Vec<String>)
    ensures
        views(r@) == tokens_of(s@),
{
    let v = chars_of(s);
    let mut out: Vec<String> = Vec::new();
    let mut cur = String::new();
    let mut quoted = false;
    let mut in_quote = false;
    let mut i: usize = 0;
    assert(v@.skip(0) =~= v@);
    assert(cur@ =~= Seq::empty());
    assert(views(out@) + tokens_of(v@) =~= tokens_of(v@));
    while i < v.len()
        invariant
            i <= v@.len(),
            v@ == s@,
            views(out@) + tokens_from(v@.skip(i as int), cur@, quoted, in_quote) == tokens_of(s@),
        decreases v@.len() - i,
    {
        let c = v[i];
        let ghost rest = v@.skip(i as int);
        assert(rest.skip(1) =~= v@.skip(i + 1));
        if in_quote {
            if c == '"' {
                in_quote = false;
            } else {
                cur.push(c);
            }
        } else if c == '"' {
            in_quote = true;
            quoted = true;
        } else if space(c) {
            if quoted || !cur.as_str().is_empty() {
                proof {
                    lemma_views_push(out@, cur);
                    assert(views(out@) + tokens_from(rest, cur@, quoted, in_quote) =~= views(
                        out@.push(cur),
                    ) + tokens_from(rest.skip(1), Seq::empty(), false, false));
                }
                out.push(cur);
                cur = String::new();
                quoted = false;
                assert(cur@ =~= Seq::empty());
            }
        } else {
            cur.push(c);
        }
        i = i + 1;
    }
    assert(v@.skip(i as int) =~= Seq::empty());
    if quoted || !cur.as_str().is_empty() {
        proof {
            lemma_views_push(out@, cur);
        }
        out.push(cur);
    }
    assert(views(out@) =~= tokens_of(s@));
    out
}

/// Strips one pair of surrounding double quotes, if present.
fn unquote(v: &str) -> (r: String)
    ensures
        r@ == unquoted(v@),
{
    let t = trim(v);
    let c = chars_of(t.as_str());
    let n: usize = c.len();
    if n >= 2 && c[0] == '"' && c[n - 1] == '"' {
        string_of(&c, 1, n - 1)
    } else {
        t
    }
}

// ---------------------------------------------------------------------------
// Blocks
// ---------------------------------------------------------------------------

/// A pattern of a `Host` line.
#[derive(Debug, Clone)]
pub struct Pattern {
    /// `!pattern` — a match here disqualifies the whole block.
    pub negated: bool,
    pub glob: String,
}

/// A keyword, in small letters, and its value as written.
#[derive(Debug, Clone)]
pub struct Entry {
    pub keyword: String,
    pub value: String,
}

/// A `Host` line and the keywords below it.
#[derive(Debug, Clone)]
pub struct Block {
    pub patterns: Vec<Pattern>,
    /// In file order.
    pub entries: Vec<Entry>,
    /// Synthetic `Host *` block holding keywords that appear before the first
    /// `Host` line. Dropped when empty so it never shows up in resolution.
    pub implicit: bool,
}

/// The mathematical content of a block.
#[verifier::ext_equal]
pub struct BlockView {
    pub patterns: Seq<(bool, Seq<char>)>,
    pub entries: Seq<(Seq<char>, Seq<char>)>,
    pub implicit: bool,
}

pub open spec fn pattern_views(s: Seq<Pattern>) -> Seq<(bool, Seq<char>)> {
    Seq::new(s.len(), |i: int| (s[i].negated, s[i].glob@))
}

pub open spec fn entry_views(s: Seq<Entry>) -> Seq<(Seq<char>, Seq<char>)> {
    Seq::new(s.len(), |i: int| (s[i].keyword@, s[i].value@))
}

impl View for Block {
    type V = BlockView;

    open spec fn view(&self) -> BlockView {
        BlockView {
            patterns: pattern_views(self.patterns@),
            entries: entry_views(self.entries@),
            implicit: self.implicit,
        }
    }
}

/// The patterns that a list of tokens stands for; a token that names nothing
/// stands for none.
pub open spec fn patterns_of(tokens: Seq<Seq<char>>) -> Seq<(bool, Seq<char>)>
    decreases tokens.len(),
{
    if tokens.len() == 0 {
        Seq::empty()
    } else {
        let t = tokens.last();
        let before = patterns_of(tokens.drop_last());
        if t.len() > 0 && t[0] == '!' {
            if t.len() > 1 {
                before.push((true, t.skip(1)))
            } else {
                before
            }
        } else if t.len() > 0 {
            before.push((false, t))
        } else {
            before
        }
    }
}

/// A block applies when at least one positive pattern matches and no negated
/// pattern does.
pub open spec fn block_applies(patterns: Seq<(bool, Seq<char>)>, alias: Seq<char>) -> bool {
    &&& exists|i: int|
        0 <= i < patterns.len() && !(#[trigger] patterns[i]).0 && glob(patterns[i].1, alias)
    &&& forall|i: int|
        0 <= i < patterns.len() && (#[trigger] patterns[i]).0 ==> !glob(patterns[i].1, alias)
}

impl Block {
    pub fn matches(&self, alias: &str) -> (r: bool)
        ensures
            r == block_applies(self@.patterns, alias@),
    {
        let ghost ps = self@.patterns;
        let mut hit = false;
        let mut i: usize = 0;
        while i < self.patterns.len()
            invariant
                i <= self.patterns@.len(),
                ps == pattern_views(self.patterns@),
                hit == exists|j: int|
                    0 <= j < i && !(#[trigger] ps[j]).0 && glob(ps[j].1, alias@),
                forall|j: int| 0 <= j < i && (#[trigger] ps[j]).0 ==> !glob(ps[j].1, alias@),
            decreases self.patterns@.len() - i,
        {
            assert(ps[i as int] == (self.patterns@[i as int].negated, self.patterns@[i as int].glob@));
            if glob_match(self.patterns[i].glob.as_str(), alias) {
                if self.patterns[i].negated {
                    return false;
                }
                hit = true;
            }
            i = i + 1;
        }
        hit
    }
}

/// Splits `Host a b !c` into its patterns.
fn parse_patterns(value: &str) -> (r: Vec<Pattern>)
    ensures
        pattern_views(r@) == patterns_of(tokens_of(value@)),
{
    let tokens = split_tokens(value);
    let ghost ts = tokens_of(value@);
    let mut out: Vec<Pattern> = Vec::new();
    assert(pattern_views(out@) =~= patterns_of(ts.take(0)));
    let mut i: usize = 0;
    while i < tokens.len()
        invariant
            i <= tokens@.len(),
            ts == views(tokens@),
            pattern_views(out@) == patterns_of(ts.take(i as int)),
        decreases tokens@.len() - i,
    {
        let ghost before = out@;
        let t = chars_of(tokens[i].as_str());
        proof {
            assert(ts.take(i + 1).drop_last() =~= ts.take(i as int));
            assert(ts.take(i + 1).last() == t@);
        }
        if t.len() > 0 && t[0] == '!' {
            if t.len() > 1 {
                let n: usize = t.len();
                let glob = string_of(&t, 1, n);
                assert(glob@ =~= t@.skip(1));
                out.push(Pattern { negated: true, glob });
            }
        } else if t.len() > 0 {
            out.push(Pattern { negated: false, glob: tokens[i].clone() });
        }
        assert(pattern_views(out@) =~= patterns_of(ts.take(i + 1)));
        i = i + 1;
    }
    assert(ts.take(i as int) =~= ts);
    out
}

// ---------------------------------------------------------------------------
// The parser
// ---------------------------------------------------------------------------

/// What has been read: the finished blocks and the one that is open.
#[verifier::ext_equal]
pub struct ParserView {
    pub blocks: Seq<BlockView>,
    pub current: Option<BlockView>,
}

/// Keywords before the first `Host` line are global defaults in OpenSSH, i.e.
/// an implicit `Host *` at the very top.
pub open spec fn opening() -> ParserView {
    ParserView {
        blocks: Seq::empty(),
        current: Some(
            BlockView { patterns: seq![(false, "*"@)], entries: Seq::empty(), implicit: true },
        ),
    }
}

/// The open block is finished. The implicit one leaves no trace when it is
/// empty.
pub open spec fn flushed(p: ParserView) -> Seq<BlockView> {
    match p.current {
        Some(b) => if b.implicit && b.entries.len() == 0 {
            p.blocks
        } else {
            p.blocks.push(b)
        },
        None => p.blocks,
    }
}

/// What one line does.
pub open spec fn after_line(p: ParserView, raw: Seq<char>) -> ParserView {
    match key_value(uncommented(raw)) {
        None => p,
        Some((kw, value)) => {
            if lower(kw) == "host"@ {
                ParserView {
                    blocks: flushed(p),
                    current: Some(
                        BlockView {
                            patterns: patterns_of(tokens_of(value)),
                            entries: Seq::empty(),
                            implicit: false,
                        },
                    ),
                }
            } else if lower(kw) == "match"@ {
                // Stops the keywords below from landing in the block above.
                ParserView { blocks: flushed(p), current: None }
            } else if lower(kw) == "include"@ || value.len() == 0 {
                p
            } else {
                match p.current {
                    Some(b) => ParserView {
                        blocks: p.blocks,
                        current: Some(
                            BlockView {
                                entries: b.entries.push((lower(kw), unquoted(value))),
                                ..b
                            },
                        ),
                    },
                    None => p,
                }
            }
        },
    }
}

pub open spec fn after_lines(p: ParserView, lines: Seq<Seq<char>>) -> ParserView
    decreases lines.len(),
{
    if lines.len() == 0 {
        p
    } else {
        after_line(after_lines(p, lines.drop_last()), lines.last())
    }
}

/// The blocks that a text describes.
pub open spec fn parsed(text: Seq<char>) -> Seq<BlockView> {
    flushed(after_lines(opening(), lines_of(text)))
}

pub open spec fn block_views(s: Seq<Block>) -> Seq<BlockView> {
    Seq::new(s.len(), |i: int| s[i]@)
}

pub(crate) struct Parser {
    blocks: Vec<Block>,
    current: Option<Block>,
}

impl View for Parser {
    type V = ParserView;

    closed spec fn view(&self) -> ParserView {
        ParserView {
            blocks: block_views(self.blocks@),
            current: match self.current {
                Some(b) => Some(b@),
                None => None,
            },
        }
    }
}

impl Parser {
    pub(crate) fn new() -> (r: Self)
        ensures
            r@ == opening(),
    {
        let mut patterns: Vec<Pattern> = Vec::new();
        patterns.push(Pattern { negated: false, glob: "*".to_owned() });
        let r = Parser {
            blocks: Vec::new(),
            current: Some(Block { patterns, entries: Vec::new(), implicit: true }),
        };
        assert(r@ =~~= opening());
        r
    }

    fn flush(&mut self)
        ensures
            final(self)@.blocks == flushed(old(self)@),
            final(self)@.current is None,
    {
        let ghost before = self@;
        let open = self.current.take();
        if let Some(b) = open {
            if !(b.implicit && b.entries.len() == 0) {
                self.blocks.push(b);
            }
        }
        assert(self@.blocks =~= flushed(before));
    }

    pub(crate) fn finish(self) -> (r: SshConfig)
        ensures
            r@ == flushed(self@),
    {
        let mut p = self;
        p.flush();
        SshConfig { blocks: p.blocks }
    }

    pub(crate) fn line(&mut self, raw: &str)
        ensures
            final(self)@ == after_line(old(self)@, raw@),
    {
        let ghost before = self@;
        let line = strip_comment(raw);
        if let Some((kw, value)) = split_kv(line.as_str()) {
            let key = to_lower(kw.as_str());
            if same(key.as_str(), "host") {
                self.flush();
                let b = Block {
                    patterns: parse_patterns(value.as_str()),
                    entries: Vec::new(),
                    implicit: false,
                };
                assert(b@.entries =~= Seq::empty());
                self.current = Some(b);
            } else if same(key.as_str(), "match") {
                self.flush();
            } else if same(key.as_str(), "include") || value.as_str().is_empty() {
            } else {
                let open = self.current.take();
                if let Some(b) = open {
                    let ghost earlier = b@;
                    let Block { patterns, mut entries, implicit } = b;
                    entries.push(Entry { keyword: key, value: unquote(value.as_str()) });
                    let b = Block { patterns, entries, implicit };
                    assert(b@.entries =~= earlier.entries.push((lower(kw@), unquoted(value@))));
                    self.current = Some(b);
                }
            }
        }
        assert(self@ =~= after_line(before, raw@));
    }

    fn feed(&mut self, text: &str)
        ensures
            final(self)@ == after_lines(old(self)@, lines_of(text@)),
    {
        let ghost before = self@;
        let ls = lines(text);
        let ghost all = lines_of(text@);
        let mut i: usize = 0;
        while i < ls.len()
            invariant
                i <= ls@.len(),
                all == views(ls@),
                self@ == after_lines(before, all.take(i as int)),
            decreases ls@.len() - i,
        {
            self.line(ls[i].as_str());
            proof {
                assert(all.take(i + 1).drop_last() =~= all.take(i as int));
                assert(all.take(i + 1).last() == ls@[i as int]@);
            }
            i = i + 1;
        }
        assert(all.take(i as int) =~= all);
    }
}

// ---------------------------------------------------------------------------
// Resolution
// ---------------------------------------------------------------------------

/// Parsed config: an ordered list of `Host` blocks.
#[derive(Debug, Clone)]
pub struct SshConfig {
    blocks: Vec<Block>,
}

impl View for SshConfig {
    type V = Seq<BlockView>;

    closed spec fn view(&self) -> Seq<BlockView> {
        block_views(self.blocks@)
    }
}

/// Result of resolving one alias against every matching block.
#[derive(Debug, Clone)]
pub struct ResolvedHost {
    pub host_name: Option<String>,
    pub user: Option<String>,
    pub port: Option<u16>,
    /// Every `IdentityFile` seen across all matching blocks, in file order.
    /// Not deduplicated and not path-expanded — `~` is left as written.
    pub identity_files: Vec<String>,
    pub proxy_jump: Option<String>,
}

/// The keywords that apply to an alias: those of each block that matches, in
/// file order.
pub open spec fn applying(blocks: Seq<BlockView>, alias: Seq<char>) -> Seq<(Seq<char>, Seq<char>)>
    decreases blocks.len(),
{
    if blocks.len() == 0 {
        Seq::empty()
    } else {
        let before = applying(blocks.drop_last(), alias);
        if block_applies(blocks.last().patterns, alias) {
            before + blocks.last().entries
        } else {
            before
        }
    }
}

/// The first value that a keyword has.
pub open spec fn first_value(entries: Seq<(Seq<char>, Seq<char>)>, key: Seq<char>) -> Option<
    Seq<char>,
>
    decreases entries.len(),
{
    if entries.len() == 0 {
        None
    } else {
        match first_value(entries.drop_last(), key) {
            Some(v) => Some(v),
            None => if entries.last().0 == key {
                Some(entries.last().1)
            } else {
                None
            },
        }
    }
}

/// Every value that a keyword has, in order.
pub open spec fn all_values(entries: Seq<(Seq<char>, Seq<char>)>, key: Seq<char>) -> Seq<Seq<char>>
    decreases entries.len(),
{
    if entries.len() == 0 {
        Seq::empty()
    } else {
        let before = all_values(entries.drop_last(), key);
        if entries.last().0 == key {
            before.push(entries.last().1)
        } else {
            before
        }
    }
}

/// The characters of a string that may be absent.
pub open spec fn opt_view(s: Option<String>) -> Option<Seq<char>> {
    match s {
        Some(s) => Some(s@),
        None => None,
    }
}

/// The port that a value names.
pub open spec fn port_of(value: Option<Seq<char>>) -> Option<u16> {
    match value {
        Some(v) => match unsigned_of(v, 65535) {
            Some(n) => Some(n as u16),
            None => None,
        },
        None => None,
    }
}

/// `r` is what a list of applying keywords resolves to.
pub open spec fn resolves_to(entries: Seq<(Seq<char>, Seq<char>)>, r: ResolvedHost) -> bool {
    &&& opt_view(r.host_name) == first_value(entries, "hostname"@)
    &&& opt_view(r.user) == first_value(entries, "user"@)
    &&& r.port == port_of(first_value(entries, "port"@))
    &&& views(r.identity_files@) == all_values(entries, "identityfile"@)
    &&& opt_view(r.proxy_jump) == first_value(entries, "proxyjump"@)
}

/// The literal names of a list of patterns: neither wildcards nor negations.
pub open spec fn literal_names(patterns: Seq<(bool, Seq<char>)>) -> Seq<Seq<char>>
    decreases patterns.len(),
{
    if patterns.len() == 0 {
        Seq::empty()
    } else {
        let (negated, name) = patterns.last();
        let before = literal_names(patterns.drop_last());
        if negated || name.contains('*') || name.contains('?') {
            before
        } else {
            before.push(name)
        }
    }
}

/// `names` with those of `more` that it does not hold yet, in order.
pub open spec fn with_new(names: Seq<Seq<char>>, more: Seq<Seq<char>>) -> Seq<Seq<char>>
    decreases more.len(),
{
    if more.len() == 0 {
        names
    } else {
        let before = with_new(names, more.drop_last());
        if before.contains(more.last()) {
            before
        } else {
            before.push(more.last())
        }
    }
}

/// Every literal alias that the blocks declare, once, in file order.
pub open spec fn aliases_of(blocks: Seq<BlockView>) -> Seq<Seq<char>>
    decreases blocks.len(),
{
    if blocks.len() == 0 {
        Seq::empty()
    } else {
        with_new(aliases_of(blocks.drop_last()), literal_names(blocks.last().patterns))
    }
}

/// Notes a value, unless the keyword had one before.
fn note(slot: &mut Option<String>, value: &String)
    ensures
        opt_view(*final(slot)) == (match opt_view(*old(slot)) {
            Some(v) => Some(v),
            None => Some(value@),
        }),
{
    if slot.is_none() {
        *slot = Some(value.clone());
    }
}

impl SshConfig {
    /// Parses config text with no filesystem access at all: `Include` lines
    /// are recognized and discarded rather than resolved.
    pub fn parse_str(s: &str) -> (r: SshConfig)
        ensures
            r@ == parsed(s@),
    {
        let mut p = Parser::new();
        p.feed(s);
        p.finish()
    }

    /// Walks blocks in file order and keeps the **first** value seen for each
    /// keyword, which is the real OpenSSH rule — a `Host *` block at the
    /// bottom therefore acts as defaults. `IdentityFile` accumulates instead
    /// of being overwritten.
    pub fn query(&self, alias: &str) -> (r: ResolvedHost)
        ensures
            resolves_to(applying(self@, alias@), r),
    {
        let ghost all = self@;
        let mut host_name: Option<String> = None;
        let mut user: Option<String> = None;
        let mut port: Option<String> = None;
        let mut identity_files: Vec<String> = Vec::new();
        let mut proxy_jump: Option<String> = None;
        let mut i: usize = 0;
        assert(views(identity_files@) =~= Seq::empty());
        while i < self.blocks.len()
            invariant
                i <= self.blocks@.len(),
                all == block_views(self.blocks@),
                opt_view(host_name) == first_value(
                    applying(all.take(i as int), alias@),
                    "hostname"@,
                ),
                opt_view(user) == first_value(applying(all.take(i as int), alias@), "user"@),
                opt_view(port) == first_value(applying(all.take(i as int), alias@), "port"@),
                views(identity_files@) == all_values(
                    applying(all.take(i as int), alias@),
                    "identityfile"@,
                ),
                opt_view(proxy_jump) == first_value(
                    applying(all.take(i as int), alias@),
                    "proxyjump"@,
                ),
            decreases self.blocks@.len() - i,
        {
            let b = &self.blocks[i];
            let ghost before = applying(all.take(i as int), alias@);
            proof {
                assert(all.take(i + 1).drop_last() =~= all.take(i as int));
                assert(all.take(i + 1).last() == b@);
            }
            if b.matches(alias) {
                let ghost es = b@.entries;
                assert(before + es.take(0) =~= before);
                let mut j: usize = 0;
                while j < b.entries.len()
                    invariant
                        j <= b.entries@.len(),
                        es == entry_views(b.entries@),
                        opt_view(host_name) == first_value(
                            before + es.take(j as int),
                            "hostname"@,
                        ),
                        opt_view(user) == first_value(before + es.take(j as int), "user"@),
                        opt_view(port) == first_value(before + es.take(j as int), "port"@),
                        views(identity_files@) == all_values(
                            before + es.take(j as int),
                            "identityfile"@,
                        ),
                        opt_view(proxy_jump) == first_value(
                            before + es.take(j as int),
                            "proxyjump"@,
                        ),
                    decreases b.entries@.len() - j,
                {
                    let e = &b.entries[j];
                    proof {
                        let longer = before + es.take(j + 1);
                        assert(longer.drop_last() =~= before + es.take(j as int));
                        assert(longer.last() == (e.keyword@, e.value@));
                        lemma_keywords_differ();
                        lemma_views_push(identity_files@, e.value);
                    }
                    let key = e.keyword.as_str();
                    if same(key, "identityfile") {
                        identity_files.push(e.value.clone());
                    } else if same(key, "hostname") {
                        note(&mut host_name, &e.value);
                    } else if same(key, "user") {
                        note(&mut user, &e.value);
                    } else if same(key, "port") {
                        note(&mut port, &e.value);
                    } else if same(key, "proxyjump") {
                        note(&mut proxy_jump, &e.value);
                    }
                    j = j + 1;
                }
                assert(es.take(j as int) =~= es);
            }
            i = i + 1;
        }
        assert(all.take(i as int) =~= all);
        let port: Option<u16> = match port {
            Some(v) => match parse_unsigned(v.as_str(), 65535) {
                Some(n) => Some(n as u16),
                None => None,
            },
            None => None,
        };
        ResolvedHost { host_name, user, port, identity_files, proxy_jump }
    }

    /// Every literal alias declared by a `Host` line, in file order, deduped.
    /// Wildcard (`*`, `?`) and negated patterns are skipped — they name a
    /// class of hosts, not a host.
    pub fn list_aliases(&self) -> (r: Vec<String>)
        ensures
            views(r@) == aliases_of(self@),
    {
        let ghost all = self@;
        let mut out: Vec<String> = Vec::new();
        assert(views(out@) =~= Seq::empty());
        let mut i: usize = 0;
        while i < self.blocks.len()
            invariant
                i <= self.blocks@.len(),
                all == block_views(self.blocks@),
                views(out@) == aliases_of(all.take(i as int)),
            decreases self.blocks@.len() - i,
        {
            let b = &self.blocks[i];
            let ghost ps = b@.patterns;
            let ghost before = views(out@);
            proof {
                assert(all.take(i + 1).drop_last() =~= all.take(i as int));
                assert(all.take(i + 1).last() == b@);
            }
            let mut j: usize = 0;
            while j < b.patterns.len()
                invariant
                    j <= b.patterns@.len(),
                    ps == pattern_views(b.patterns@),
                    views(out@) == with_new(before, literal_names(ps.take(j as int))),
                decreases b.patterns@.len() - j,
            {
                let p = &b.patterns[j];
                proof {
                    assert(ps.take(j + 1).drop_last() =~= ps.take(j as int));
                    assert(ps.take(j + 1).last() == (p.negated, p.glob@));
                    let ls = literal_names(ps.take(j as int));
                    assert(ls.push(p.glob@).drop_last() =~= ls);
                    lemma_views_push(out@, p.glob);
                }
                if !(p.negated || has_char(p.glob.as_str(), '*') || has_char(
                    p.glob.as_str(),
                    '?',
                )) {
                    if !holds(&out, p.glob.as_str()) {
                        out.push(p.glob.clone());
                    }
                }
                j = j + 1;
            }
            assert(ps.take(j as int) =~= ps);
            i = i + 1;
        }
        assert(all.take(i as int) =~= all);
        out
    }
}

proof fn lemma_keywords_differ()
    ensures
        "identityfile"@ != "hostname"@,
        "identityfile"@ != "user"@,
        "identityfile"@ != "port"@,
        "identityfile"@ != "proxyjump"@,
        "hostname"@ != "user"@,
        "hostname"@ != "port"@,
        "hostname"@ != "proxyjump"@,
        "user"@ != "port"@,
        "user"@ != "proxyjump"@,
        "port"@ != "proxyjump"@,
{
    reveal_strlit("identityfile");
    reveal_strlit("hostname");
    reveal_strlit("user");
    reveal_strlit("port");
    reveal_strlit("proxyjump");
    assert("identityfile"@.len() == 12);
    assert("hostname"@.len() == 8);
    assert("proxyjump"@.len() == 9);
    assert("user"@[0] == 'u');
    assert("port"@[0] == 'p');
}

// ---------------------------------------------------------------------------
// Laws
// ---------------------------------------------------------------------------

/// First value wins: what earlier blocks set, later ones do not change, and
/// what they leave open, later ones set.
pub proof fn law_first_value_wins(
    a: Seq<(Seq<char>, Seq<char>)>,
    b: Seq<(Seq<char>, Seq<char>)>,
    key: Seq<char>,
)
    ensures
        first_value(a + b, key) == (match first_value(a, key) {
            Some(v) => Some(v),
            None => first_value(b, key),
        }),
    decreases b.len(),
{
    if b.len() == 0 {
        assert(a + b =~= a);
    } else {
        law_first_value_wins(a, b.drop_last(), key);
        assert((a + b).drop_last() =~= a + b.drop_last());
    }
}

/// `IdentityFile` accumulates: every value of every block that applies is kept,
/// in file order.
pub proof fn law_values_accumulate(
    a: Seq<(Seq<char>, Seq<char>)>,
    b: Seq<(Seq<char>, Seq<char>)>,
    key: Seq<char>,
)
    ensures
        all_values(a + b, key) == all_values(a, key) + all_values(b, key),
    decreases b.len(),
{
    if b.len() == 0 {
        assert(a + b =~= a);
        assert(all_values(a, key) + all_values(b, key) =~= all_values(a, key));
    } else {
        law_values_accumulate(a, b.drop_last(), key);
        assert((a + b).drop_last() =~= a + b.drop_last());
        assert(all_values(a + b, key) =~= all_values(a, key) + all_values(b, key));
    }
}

/// The keywords that apply are those of the blocks one after the other, so a
/// block at the bottom acts as defaults.
pub proof fn law_blocks_apply_in_order(a: Seq<BlockView>, b: Seq<BlockView>, alias: Seq<char>)
    ensures
        applying(a + b, alias) == applying(a, alias) + applying(b, alias),
    decreases b.len(),
{
    if b.len() == 0 {
        assert(a + b =~= a);
        assert(applying(a, alias) + applying(b, alias) =~= applying(a, alias));
    } else {
        law_blocks_apply_in_order(a, b.drop_last(), alias);
        assert((a + b).drop_last() =~= a + b.drop_last());
        assert(applying(a + b, alias) =~= applying(a, alias) + applying(b, alias));
    }
}

/// Once a `Match` line was read, nothing but a `Host` line has any effect: the
/// keywords below a `Match` reach no block.
pub proof fn law_match_never_leaks(p: ParserView, raw: Seq<char>)
    requires
        p.current is None,
        match key_value(uncommented(raw)) {
            Some((kw, value)) => lower(kw) != "host"@,
            None => true,
        },
    ensures
        after_line(p, raw) == p,
{
    reveal_strlit("host");
    reveal_strlit("match");
    assert(after_line(p, raw) =~= p);
}

proof fn lemma_with_new_distinct(names: Seq<Seq<char>>, more: Seq<Seq<char>>)
    requires
        names.no_duplicates(),
    ensures
        with_new(names, more).no_duplicates(),
    decreases more.len(),
{
    if more.len() > 0 {
        lemma_with_new_distinct(names, more.drop_last());
    }
}

/// No alias is listed twice.
pub proof fn law_aliases_are_distinct(blocks: Seq<BlockView>)
    ensures
        aliases_of(blocks).no_duplicates(),
    decreases blocks.len(),
{
    if blocks.len() > 0 {
        law_aliases_are_distinct(blocks.drop_last());
        lemma_with_new_distinct(
            aliases_of(blocks.drop_last()),
            literal_names(blocks.last().patterns),
        );
    }
}

/// The literal names of every block, in file order, as often as they occur.
pub open spec fn all_literal_names(blocks: Seq<BlockView>) -> Seq<Seq<char>>
    decreases blocks.len(),
{
    if blocks.len() == 0 {
        Seq::empty()
    } else {
        all_literal_names(blocks.drop_last()) + literal_names(blocks.last().patterns)
    }
}

proof fn lemma_with_new_add(names: Seq<Seq<char>>, a: Seq<Seq<char>>, b: Seq<Seq<char>>)
    ensures
        with_new(names, a + b) == with_new(with_new(names, a), b),
    decreases b.len(),
{
    if b.len() == 0 {
        assert(a + b =~= a);
    } else {
        lemma_with_new_add(names, a, b.drop_last());
        assert((a + b).drop_last() =~= a + b.drop_last());
        assert((a + b).last() == b.last());
    }
}

/// Aliases are listed in file order, each where it occurs first.
pub proof fn law_aliases_come_in_file_order(blocks: Seq<BlockView>)
    ensures
        aliases_of(blocks) == with_new(Seq::empty(), all_literal_names(blocks)),
    decreases blocks.len(),
{
    if blocks.len() > 0 {
        law_aliases_come_in_file_order(blocks.drop_last());
        lemma_with_new_add(
            Seq::empty(),
            all_literal_names(blocks.drop_last()),
            literal_names(blocks.last().patterns),
        );
    }
}

proof fn lemma_literal_names(patterns: Seq<(bool, Seq<char>)>, name: Seq<char>)
    ensures
        literal_names(patterns).contains(name) <==> patterns.contains((false, name))
            && !name.contains('*') && !name.contains('?'),
    decreases patterns.len(),
{
    if patterns.len() > 0 {
        let rest = patterns.drop_last();
        let last = patterns.last();
        lemma_literal_names(rest, name);
        assert(patterns =~= rest.push(last));
        assert(patterns.contains((false, name)) <==> rest.contains((false, name)) || last == (
            false,
            name,
        )) by {
            if patterns.contains((false, name)) {
                let i = choose|i: int| 0 <= i < patterns.len() && patterns[i] == (false, name);
                if i < rest.len() {
                    assert(rest[i] == (false, name));
                }
            }
            if rest.contains((false, name)) {
                let i = choose|i: int| 0 <= i < rest.len() && rest[i] == (false, name);
                assert(patterns[i] == (false, name));
            }
            if last == (false, name) {
                assert(patterns[patterns.len() - 1] == (false, name));
            }
        }
        let before = literal_names(rest);
        assert(before.push(last.1).contains(name) <==> before.contains(name) || last.1 == name) by {
            if before.contains(name) {
                let i = choose|i: int| 0 <= i < before.len() && before[i] == name;
                assert(before.push(last.1)[i] == name);
            }
            if last.1 == name {
                assert(before.push(last.1)[before.len() as int] == name);
            }
            if before.push(last.1).contains(name) {
                let i = choose|i: int|
                    0 <= i < before.push(last.1).len() && before.push(last.1)[i] == name;
                if i < before.len() {
                    assert(before[i] == name);
                }
            }
        }
    }
}

proof fn lemma_with_new_holds(names: Seq<Seq<char>>, more: Seq<Seq<char>>, name: Seq<char>)
    ensures
        with_new(names, more).contains(name) <==> names.contains(name) || more.contains(name),
    decreases more.len(),
{
    if more.len() > 0 {
        let rest = more.drop_last();
        lemma_with_new_holds(names, rest, name);
        let before = with_new(names, rest);
        assert(more.contains(name) <==> rest.contains(name) || more.last() == name) by {
            if more.contains(name) {
                let i = choose|i: int| 0 <= i < more.len() && more[i] == name;
                if i < rest.len() {
                    assert(rest[i] == name);
                }
            }
            if rest.contains(name) {
                let i = choose|i: int| 0 <= i < rest.len() && rest[i] == name;
                assert(more[i] == name);
            }
            if more.last() == name {
                assert(more[more.len() - 1] == name);
            }
        }
        if !before.contains(more.last()) {
            let after = before.push(more.last());
            if before.contains(name) {
                let i = choose|i: int| 0 <= i < before.len() && before[i] == name;
                assert(after[i] == name);
            }
            if more.last() == name {
                assert(after[before.len() as int] == name);
            }
            if after.contains(name) {
                let i = choose|i: int| 0 <= i < after.len() && after[i] == name;
                if i < before.len() {
                    assert(before[i] == name);
                }
            }
        }
    }
}

/// What is listed are exactly the names that some `Host` line declares without
/// a wildcard and without a negation.
pub proof fn law_aliases_are_the_literal_names(blocks: Seq<BlockView>, name: Seq<char>)
    ensures
        aliases_of(blocks).contains(name) <==> !name.contains('*') && !name.contains('?')
            && exists|i: int|
            0 <= i < blocks.len() && (#[trigger] blocks[i]).patterns.contains((false, name)),
    decreases blocks.len(),
{
    if blocks.len() > 0 {
        let rest = blocks.drop_last();
        law_aliases_are_the_literal_names(rest, name);
        lemma_with_new_holds(aliases_of(rest), literal_names(blocks.last().patterns), name);
        lemma_literal_names(blocks.last().patterns, name);
        if exists|i: int|
            0 <= i < blocks.len() && (#[trigger] blocks[i]).patterns.contains((false, name)) {
            let i = choose|i: int|
                0 <= i < blocks.len() && (#[trigger] blocks[i]).patterns.contains((false, name));
            if i < rest.len() {
                assert(rest[i].patterns.contains((false, name)));
            }
        }
        if exists|i: int|
            0 <= i < rest.len() && (#[trigger] rest[i]).patterns.contains((false, name)) {
            let i = choose|i: int|
                0 <= i < rest.len() && (#[trigger] rest[i]).patterns.contains((false, name));
            assert(blocks[i].patterns.contains((false, name)));
        }
        if blocks.last().patterns.contains((false, name)) {
            assert(blocks[blocks.len() - 1].patterns.contains((false, name)));
        }
    }
}

// ---------------------------------------------------------------------------
// Longer texts
// ---------------------------------------------------------------------------

pub proof fn lemma_after_lines_add(p: ParserView, a: Seq<Seq<char>>, b: Seq<Seq<char>>)
    ensures
        after_lines(p, a + b) == after_lines(after_lines(p, a), b),
    decreases b.len(),
{
    if b.len() == 0 {
        assert(a + b =~= a);
    } else {
        lemma_after_lines_add(p, a, b.drop_last());
        assert((a + b).drop_last() =~= a + b.drop_last());
        assert((a + b).last() == b.last());
    }
}

proof fn lemma_after_one_line(p: ParserView, line: Seq<char>)
    ensures
        after_lines(p, seq![line]) == after_line(p, line),
{
    assert(seq![line].drop_last() =~= Seq::empty());
    assert(after_lines(p, seq![line].drop_last()) == p);
}

proof fn lemma_comment_bounds(s: Seq<char>, in_quote: bool)
    ensures
        0 <= comment_at(s, in_quote) <= s.len(),
    decreases s.len(),
{
    if s.len() > 0 && !(s[0] == '#' && !in_quote) {
        lemma_comment_bounds(
            s.skip(1),
            if s[0] == '"' {
                !in_quote
            } else {
                in_quote
            },
        );
    }
}

proof fn lemma_comment_behind(s: Seq<char>, in_quote: bool, n: int)
    requires
        0 <= n <= s.len(),
        forall|i: int| 0 <= i < n ==> s[i] != '#',
    ensures
        n <= comment_at(s, in_quote) <= s.len(),
    decreases s.len(),
{
    lemma_comment_bounds(s, in_quote);
    if n > 0 {
        lemma_comment_behind(
            s.skip(1),
            if s[0] == '"' {
                !in_quote
            } else {
                in_quote
            },
            n - 1,
        );
    }
}

proof fn lemma_comment_push(s: Seq<char>, in_quote: bool)
    ensures
        comment_at(s.push('\r'), in_quote) == (if comment_at(s, in_quote) < s.len() {
            comment_at(s, in_quote)
        } else {
            (s.len() + 1) as int
        }),
    decreases s.len(),
{
    let t = s.push('\r');
    if s.len() == 0 {
        assert(t.skip(1) =~= Seq::empty());
        assert(comment_at(t.skip(1), in_quote) == 0);
    } else if !(s[0] == '#' && !in_quote) {
        let q = if s[0] == '"' {
            !in_quote
        } else {
            in_quote
        };
        assert(t.skip(1) =~= s.skip(1).push('\r'));
        lemma_comment_push(s.skip(1), q);
        assert(comment_at(t, in_quote) == 1 + comment_at(t.skip(1), q));
    }
}

proof fn lemma_trimmed_push(s: Seq<char>)
    ensures
        trimmed_start(s.push('\r')) == (if trimmed_start(s).len() == 0 {
            Seq::empty()
        } else {
            trimmed_start(s).push('\r')
        }),
        trimmed(s.push('\r')) == trimmed(s),
    decreases s.len(),
{
    let t = s.push('\r');
    if s.len() == 0 {
        assert(t.drop_first() =~= Seq::empty());
        assert(trimmed_start(t) == trimmed_start(t.drop_first()));
    } else if is_space(s[0]) {
        assert(t.drop_first() =~= s.drop_first().push('\r'));
        lemma_trimmed_push(s.drop_first());
    } else {
        assert(trimmed_start(s) == s);
        assert(t.drop_last() =~= s);
    }
}

/// A carriage return at the end of a line makes no difference.
proof fn lemma_cr_is_nothing(p: ParserView, line: Seq<char>)
    ensures
        after_line(p, without_cr(line)) == after_line(p, line),
{
    if line.len() > 0 && line.last() == '\r' {
        let s = line.drop_last();
        assert(line =~= s.push('\r'));
        lemma_comment_bounds(s, false);
        lemma_comment_push(s, false);
        if comment_at(s, false) < s.len() {
            assert(uncommented(line) =~= uncommented(s));
        } else {
            assert(uncommented(line) =~= line);
            assert(uncommented(s) =~= s);
            lemma_trimmed_push(s);
        }
    }
}

/// A line feed at the end of a text makes no difference.
proof fn lemma_final_newline(p: ParserView, a: Seq<char>)
    ensures
        after_lines(p, lines_of(a.push('\n'))) == after_lines(p, lines_of(a)),
    decreases a.len(),
{
    let t = a.push('\n');
    lemma_until(a, '\n');
    let n = until(a, '\n');
    lemma_until_is(t, '\n', n);
    assert(t.take(n) =~= a.take(n));
    if n < a.len() {
        let head = seq![without_cr(a.take(n))];
        let q = after_lines(p, head);
        assert(t.skip(n + 1) =~= a.skip(n + 1).push('\n'));
        lemma_final_newline(q, a.skip(n + 1));
        lemma_after_lines_add(p, head, lines_of(t.skip(n + 1)));
        lemma_after_lines_add(p, head, lines_of(a.skip(n + 1)));
    } else {
        assert(a.take(n) =~= a);
        assert(t.skip(n + 1) =~= Seq::empty());
        assert(lines_of(t.skip(n + 1)) == Seq::<Seq<char>>::empty());
        assert(lines_of(t) =~= seq![without_cr(a)]);
        lemma_after_one_line(p, without_cr(a));
        lemma_cr_is_nothing(p, a);
        if a.len() == 0 {
            assert(comment_at(a, false) == 0);
            assert(uncommented(a) =~= a);
            assert(key_value(uncommented(a)) is None);
        } else {
            lemma_after_one_line(p, a);
        }
    }
}

/// A text read line by line, and then another below it.
proof fn lemma_text_below(p: ParserView, a: Seq<char>, b: Seq<char>)
    ensures
        after_lines(p, lines_of(a + seq!['\n'] + b)) == after_lines(
            after_lines(p, lines_of(a)),
            lines_of(b),
        ),
{
    let t = a.push('\n');
    assert(a + seq!['\n'] + b =~= t + b);
    lemma_lines_add(t, b);
    lemma_after_lines_add(p, lines_of(t), lines_of(b));
    lemma_final_newline(p, a);
}

proof fn lemma_with_new_grows(names: Seq<Seq<char>>, more: Seq<Seq<char>>)
    ensures
        names.is_prefix_of(with_new(names, more)),
    decreases more.len(),
{
    if more.len() > 0 {
        lemma_with_new_grows(names, more.drop_last());
    }
}

/// What has been read before a line stays in force behind it.
proof fn lemma_line_only_adds(p: ParserView, line: Seq<char>, alias: Seq<char>)
    ensures
        applying(flushed(p), alias).is_prefix_of(applying(flushed(after_line(p, line)), alias)),
        aliases_of(flushed(p)).is_prefix_of(aliases_of(flushed(after_line(p, line)))),
{
    let q = after_line(p, line);
    let (f, g) = (flushed(p), flushed(q));
    match key_value(uncommented(line)) {
        None => {},
        Some((kw, value)) => {
            if lower(kw) == "host"@ {
                let b = q.current->0;
                assert(g =~= f.push(b));
                assert(g.drop_last() =~= f);
                lemma_with_new_grows(aliases_of(f), literal_names(b.patterns));
                assert(applying(f, alias) + b.entries =~= applying(f, alias));
            } else if lower(kw) == "match"@ {
                assert(g == f);
            } else if lower(kw) == "include"@ || value.len() == 0 {
            } else if p.current is Some {
                let b = p.current->0;
                let c = q.current->0;
                assert(g =~= p.blocks.push(c));
                assert(g.drop_last() =~= p.blocks);
                let before = applying(p.blocks, alias);
                lemma_with_new_grows(aliases_of(p.blocks), literal_names(c.patterns));
                if b.implicit && b.entries.len() == 0 {
                    assert(f == p.blocks);
                } else {
                    assert(f.drop_last() =~= p.blocks);
                    assert(before + c.entries =~= (before + b.entries).push(c.entries.last()));
                }
            }
        },
    }
}

proof fn lemma_lines_only_add(p: ParserView, lines: Seq<Seq<char>>, alias: Seq<char>)
    ensures
        applying(flushed(p), alias).is_prefix_of(applying(flushed(after_lines(p, lines)), alias)),
        aliases_of(flushed(p)).is_prefix_of(aliases_of(flushed(after_lines(p, lines)))),
    decreases lines.len(),
{
    if lines.len() > 0 {
        lemma_lines_only_add(p, lines.drop_last(), alias);
        let q = after_lines(p, lines.drop_last());
        lemma_line_only_adds(q, lines.last(), alias);
        let (x, y, z) = (
            applying(flushed(p), alias),
            applying(flushed(q), alias),
            applying(flushed(after_lines(p, lines)), alias),
        );
        assert(x =~= z.subrange(0, x.len() as int)) by {
            assert forall|i: int| 0 <= i < x.len() implies x[i] == z[i] by {
                assert(x[i] == y.subrange(0, x.len() as int)[i]);
                assert(y[i] == z.subrange(0, y.len() as int)[i]);
            }
        }
        let (u, v, w) = (
            aliases_of(flushed(p)),
            aliases_of(flushed(q)),
            aliases_of(flushed(after_lines(p, lines))),
        );
        assert(u =~= w.subrange(0, u.len() as int)) by {
            assert forall|i: int| 0 <= i < u.len() implies u[i] == w[i] by {
                assert(u[i] == v.subrange(0, u.len() as int)[i]);
                assert(v[i] == w.subrange(0, v.len() as int)[i]);
            }
        }
    }
}

/// Text that is added below overrides nothing: of every keyword that has a value
/// already the value stays, and identity files are added at the end only. A
/// `Host *` block at the bottom therefore acts as defaults.
pub proof fn law_added_text_overrides_nothing(
    a: Seq<char>,
    b: Seq<char>,
    alias: Seq<char>,
    short: ResolvedHost,
    long: ResolvedHost,
)
    requires
        resolves_to(applying(parsed(a), alias), short),
        resolves_to(applying(parsed(a + seq!['\n'] + b), alias), long),
    ensures
        short.host_name is Some ==> opt_view(long.host_name) == opt_view(short.host_name),
        short.user is Some ==> opt_view(long.user) == opt_view(short.user),
        short.port is Some ==> long.port == short.port,
        short.proxy_jump is Some ==> opt_view(long.proxy_jump) == opt_view(short.proxy_jump),
        views(short.identity_files@).is_prefix_of(views(long.identity_files@)),
{
    let p = after_lines(opening(), lines_of(a));
    lemma_text_below(opening(), a, b);
    lemma_lines_only_add(p, lines_of(b), alias);
    let x = applying(parsed(a), alias);
    let y = applying(parsed(a + seq!['\n'] + b), alias);
    let more = y.skip(x.len() as int);
    assert(y =~= x + more);
    law_first_value_wins(x, more, "hostname"@);
    law_first_value_wins(x, more, "user"@);
    law_first_value_wins(x, more, "port"@);
    law_first_value_wins(x, more, "proxyjump"@);
    law_values_accumulate(x, more, "identityfile"@);
}

/// Text that is added below takes no alias away and moves none: the aliases of
/// the shorter text come first.
pub proof fn law_added_text_keeps_the_aliases(a: Seq<char>, b: Seq<char>)
    ensures
        aliases_of(parsed(a)).is_prefix_of(aliases_of(parsed(a + seq!['\n'] + b))),
{
    let p = after_lines(opening(), lines_of(a));
    lemma_text_below(opening(), a, b);
    lemma_lines_only_add(p, lines_of(b), Seq::empty());
}

/// A line that names the keyword `Include`, and whatever it includes.
pub open spec fn includes(line: Seq<char>) -> bool {
    let s = trimmed_start(line);
    &&& s.len() >= 7 && lower(s.take(7)) == "include"@
    &&& s.len() == 7 || is_space(s[7]) || s[7] == '=' || s[7] == '#'
}

/// A line that says nothing: it is blank, a comment or an `Include`.
pub open spec fn says_nothing(line: Seq<char>) -> bool {
    let s = trimmed_start(line);
    s.len() == 0 || s[0] == '#' || includes(line)
}

proof fn lemma_trimmed_uncommented(s: Seq<char>)
    ensures
        trimmed_start(uncommented(s)) == uncommented(trimmed_start(s)),
    decreases s.len(),
{
    lemma_comment_bounds(s, false);
    if s.len() > 0 && is_space(s[0]) {
        let t = s.drop_first();
        assert(s.skip(1) =~= t);
        lemma_comment_bounds(t, false);
        lemma_trimmed_uncommented(t);
        assert(uncommented(s).drop_first() =~= uncommented(t));
    }
}

proof fn lemma_trimmed_end_keeps(s: Seq<char>, i: int)
    requires
        0 <= i < s.len(),
        !is_space(s[i]),
    ensures
        i < trimmed_end(s).len() <= s.len(),
        trimmed_end(s) == s.take(trimmed_end(s).len() as int),
    decreases s.len(),
{
    if is_space(s.last()) {
        lemma_trimmed_end_keeps(s.drop_last(), i);
        let n = trimmed_end(s).len() as int;
        assert(s.drop_last().take(n) =~= s.take(n));
    } else {
        assert(s.take(s.len() as int) =~= s);
    }
}

proof fn lemma_keyword_is(s: Seq<char>, n: int)
    requires
        0 <= n <= s.len(),
        forall|i: int| 0 <= i < n ==> !is_space(s[i]) && s[i] != '=',
        n < s.len() ==> is_space(s[n]) || s[n] == '=',
    ensures
        keyword_len(s) == n,
    decreases n,
{
    if n > 0 {
        lemma_keyword_is(s.skip(1), n - 1);
    }
}

proof fn lemma_includes(line: Seq<char>)
    requires
        includes(line),
    ensures
        match key_value(uncommented(line)) {
            Some((kw, _)) => lower(kw) == "include"@,
            None => false,
        },
{
    let s = trimmed_start(line);
    let k = s.take(7);
    reveal_strlit("include");
    assert forall|i: int| 0 <= i < 7 implies !is_space(#[trigger] s[i]) && s[i] != '=' && s[i]
        != '#' && s[i] != '"' by {
        assert(k[i] == s[i]);
        assert(lower(k)[i] == lower_char(k[i]));
        assert(lower(k)[i] == "include"@[i]);
    }
    lemma_trimmed_uncommented(line);
    lemma_comment_behind(s, false, 7);
    let u = uncommented(s);
    lemma_trimmed_end_keeps(u, 6);
    let e = trimmed_end(u);
    if e.len() > 7 {
        assert(s[7] != '#') by {
            if s[7] == '#' {
                lemma_comment_stops(s, 7);
            }
        }
    }
    lemma_keyword_is(e, 7);
    assert(e.take(7) =~= k);
}

proof fn lemma_comment_stops(s: Seq<char>, n: int)
    requires
        0 <= n < s.len(),
        s[n] == '#',
        forall|i: int| 0 <= i < n ==> s[i] != '#' && s[i] != '"',
    ensures
        comment_at(s, false) == n,
    decreases n,
{
    if n > 0 {
        lemma_comment_stops(s.skip(1), n - 1);
    }
}

proof fn lemma_nothing_is_done(p: ParserView, line: Seq<char>)
    requires
        says_nothing(line),
    ensures
        after_line(p, line) == p,
{
    let s = trimmed_start(line);
    lemma_trimmed_uncommented(line);
    if s.len() == 0 || s[0] == '#' {
        assert(comment_at(s, false) == 0);
        assert(uncommented(s) =~= Seq::empty());
        assert(trimmed(uncommented(line)).len() == 0);
    } else {
        lemma_includes(line);
        reveal_strlit("include");
        reveal_strlit("host");
        reveal_strlit("match");
        assert("include"@.len() == 7 && "host"@.len() == 4 && "match"@.len() == 5);
    }
}

/// A blank line, a comment or an `Include` that is added anywhere changes
/// nothing: `u` is what stands above it, `v` what stands below. No file is read.
pub proof fn law_idle_line_changes_nothing(u: Seq<char>, line: Seq<char>, v: Seq<char>)
    requires
        !line.contains('\n'),
        says_nothing(line),
    ensures
        u.len() == 0 || u.last() == '\n' ==> parsed(u + line + seq!['\n'] + v) == parsed(u + v),
        parsed(u + seq!['\n'] + line) == parsed(u),
{
    let p = after_lines(opening(), lines_of(u));
    assert(until(line, '\n') == line.len()) by {
        lemma_until(line, '\n');
        if until(line, '\n') < line.len() {
            assert(line.contains(line[until(line, '\n')]));
        }
    }
    assert(after_lines(p, lines_of(line)) == p) by {
        if line.len() > 0 {
            assert(lines_of(line) =~= seq![line]);
            lemma_after_one_line(p, line);
            lemma_nothing_is_done(p, line);
        }
    }
    lemma_text_below(opening(), u, line);
    if u.len() == 0 || u.last() == '\n' {
        let below = line + seq!['\n'] + v;
        assert(u + line + seq!['\n'] + v =~= u + below);
        lemma_lines_add(u, below);
        lemma_lines_add(u, v);
        lemma_after_lines_add(opening(), lines_of(u), lines_of(below));
        lemma_after_lines_add(opening(), lines_of(u), lines_of(v));
        lemma_text_below(p, line, v);
    }
}

// ---------------------------------------------------------------------------
// Laws on lines
// ---------------------------------------------------------------------------

/// A question mark stands for exactly one character, whatever it is.
pub proof fn law_question_mark_is_one_character(p: Seq<char>, c: char, t: Seq<char>)
    ensures
        glob(seq!['?'] + p, seq![c] + t) == glob(p, t),
        !glob(seq!['?'] + p, Seq::empty()),
{
    assert((seq!['?'] + p).skip(1) =~= p);
    assert((seq![c] + t).skip(1) =~= t);
}

/// A star stands for any run of characters, none included.
pub proof fn law_star_is_any_run(p: Seq<char>, t: Seq<char>)
    ensures
        glob(seq!['*'] + p, t) <==> exists|k: int|
            0 <= k <= t.len() && glob(p, #[trigger] t.skip(k)),
    decreases t.len(),
{
    let star = seq!['*'] + p;
    assert(star.skip(1) =~= p);
    assert(t.skip(0) =~= t);
    if t.len() > 0 {
        let rest = t.skip(1);
        law_star_is_any_run(p, rest);
        if exists|k: int| 0 <= k <= t.len() && glob(p, #[trigger] t.skip(k)) {
            let k = choose|k: int| 0 <= k <= t.len() && glob(p, #[trigger] t.skip(k));
            if k > 0 {
                assert(rest.skip(k - 1) =~= t.skip(k));
            }
        }
        if exists|k: int| 0 <= k <= rest.len() && glob(p, #[trigger] rest.skip(k)) {
            let k = choose|k: int| 0 <= k <= rest.len() && glob(p, #[trigger] rest.skip(k));
            assert(rest.skip(k) =~= t.skip(k + 1));
        }
    }
}

proof fn lemma_comment_at_add(a: Seq<char>, b: Seq<char>, in_quote: bool)
    requires
        !a.contains('"'),
        in_quote || !a.contains('#'),
    ensures
        comment_at(a + b, in_quote) == a.len() + comment_at(b, in_quote),
    decreases a.len(),
{
    let s = a + b;
    if a.len() == 0 {
        assert(s =~= b);
    } else {
        assert(a.contains(a[0]));
        let rest = a.skip(1);
        assert(s.skip(1) =~= rest + b);
        assert forall|c: char| !a.contains(c) implies !rest.contains(c) by {
            if rest.contains(c) {
                let i = choose|i: int| 0 <= i < rest.len() && rest[i] == c;
                assert(a[i + 1] == c);
            }
        }
        lemma_comment_at_add(rest, b, in_quote);
    }
}

/// What follows a `#` is a comment, unless it stands between double quotes.
pub proof fn law_comment_ends_the_line(a: Seq<char>, q: Seq<char>, b: Seq<char>)
    requires
        !a.contains('"'),
        !a.contains('#'),
        !q.contains('"'),
    ensures
        uncommented(a) == a,
        uncommented(a + seq!['#'] + b) == a,
        uncommented(seq!['"'] + q + seq!['"'] + a + seq!['#'] + b) == seq!['"'] + q + seq!['"'] + a,
{
    let none = Seq::<char>::empty();
    lemma_comment_at_add(a, none, false);
    assert(a + none =~= a);
    assert(a.take(a.len() as int) =~= a);
    let tail = seq!['#'] + b;
    lemma_comment_at_add(a, tail, false);
    assert(a + seq!['#'] + b =~= a + tail);
    assert((a + tail).take(a.len() as int) =~= a);
    let quote = seq!['"'];
    let s = quote + q + quote + a + seq!['#'] + b;
    let after = quote + (a + tail);
    assert(s.skip(1) =~= q + after);
    lemma_comment_at_add(q, after, true);
    assert(after.skip(1) =~= a + tail);
    assert(comment_at(after, true) == 1 + comment_at(a + tail, false));
    assert(s.take(comment_at(s, false)) =~= quote + q + quote + a);
}

proof fn lemma_keyword_len(kw: Seq<char>, rest: Seq<char>)
    requires
        forall|i: int| 0 <= i < kw.len() ==> !is_space(#[trigger] kw[i]) && kw[i] != '=',
        rest.len() > 0 ==> is_space(rest[0]) || rest[0] == '=',
    ensures
        keyword_len(kw + rest) == kw.len(),
    decreases kw.len(),
{
    let s = kw + rest;
    if kw.len() == 0 {
        assert(s =~= rest);
    } else {
        assert(!is_space(kw[0]) && kw[0] != '=');
        assert(s.skip(1) =~= kw.skip(1) + rest);
        assert forall|i: int| 0 <= i < kw.skip(1).len() implies !is_space(#[trigger] kw.skip(1)[i])
            && kw.skip(1)[i] != '=' by {
            assert(kw.skip(1)[i] == kw[i + 1]);
        }
        lemma_keyword_len(kw.skip(1), rest);
    }
}

/// A keyword and its value stand on a line with a blank or an equals sign between
/// them, and white space around them does not count.
pub proof fn law_line_is_keyword_and_value(kw: Seq<char>, value: Seq<char>)
    requires
        kw.len() > 0,
        forall|i: int| 0 <= i < kw.len() ==> !is_space(#[trigger] kw[i]) && kw[i] != '=',
        value.len() > 0,
        !is_space(value[0]) && !is_space(value.last()) && value[0] != '=',
    ensures
        key_value(kw + seq![' '] + value) == Some((kw, value)),
        key_value(kw + seq!['='] + value) == Some((kw, value)),
        key_value(seq![' '] + kw + seq![' '] + value) == Some((kw, value)),
        key_value(seq!['\t'] + kw + seq![' '] + value) == Some((kw, value)),
        key_value(kw) == Some((kw, Seq::<char>::empty())),
{
    law_white_space();
    let none = Seq::<char>::empty();
    assert(!is_space(kw[0]));
    assert(!is_space(kw[kw.len() - 1]));
    let blank = seq![' '] + value;
    let sign = seq!['='] + value;
    let a = kw + seq![' '] + value;
    let b = kw + seq!['='] + value;
    assert(a =~= kw + blank && b =~= kw + sign);
    assert(a[0] == kw[0] && a.last() == value.last());
    assert(b[0] == kw[0] && b.last() == value.last());
    assert(trimmed(a) == a && trimmed(b) == b);
    lemma_keyword_len(kw, blank);
    lemma_keyword_len(kw, sign);
    assert(a.take(kw.len() as int) =~= kw && a.skip(kw.len() as int) =~= blank);
    assert(b.take(kw.len() as int) =~= kw && b.skip(kw.len() as int) =~= sign);
    assert(blank.drop_first() =~= value);
    assert(trimmed_start(blank) == trimmed_start(value));
    assert(trimmed_start(value) == value);
    assert(trimmed_end(value) == value);
    assert(!is_space('='));
    assert(trimmed_start(sign) == sign);
    assert(sign.skip(1) =~= value);
    let c = seq![' '] + kw + seq![' '] + value;
    let d = seq!['\t'] + kw + seq![' '] + value;
    assert(c.drop_first() =~= a);
    assert(d.drop_first() =~= a);
    assert(trimmed_start(a) == a);
    assert(trimmed(c) == trimmed(a));
    assert(trimmed(d) == trimmed(a));
    assert(trimmed(kw) == kw);
    lemma_keyword_len(kw, none);
    assert(kw + none =~= kw);
    assert(kw.take(kw.len() as int) =~= kw);
    assert(kw.skip(kw.len() as int) =~= none);
    assert(trimmed_start(none) == none);
    assert(trimmed_end(none) == none);
}

proof fn lemma_plain_token(w: Seq<char>, rest: Seq<char>, cur: Seq<char>, quoted: bool)
    requires
        forall|i: int| 0 <= i < w.len() ==> !is_space(#[trigger] w[i]) && w[i] != '"',
    ensures
        tokens_from(w + rest, cur, quoted, false) == tokens_from(rest, cur + w, quoted, false),
    decreases w.len(),
{
    if w.len() == 0 {
        assert(w + rest =~= rest);
        assert(cur + w =~= cur);
    } else {
        let s = w + rest;
        assert(!is_space(w[0]) && w[0] != '"');
        assert(s[0] == w[0]);
        assert(s.skip(1) =~= w.skip(1) + rest);
        assert forall|i: int| 0 <= i < w.skip(1).len() implies !is_space(#[trigger] w.skip(1)[i])
            && w.skip(1)[i] != '"' by {
            assert(w.skip(1)[i] == w[i + 1]);
        }
        lemma_plain_token(w.skip(1), rest, cur.push(w[0]), quoted);
        assert(cur.push(w[0]) + w.skip(1) =~= cur + w);
    }
}

proof fn lemma_quoted_token(q: Seq<char>, rest: Seq<char>, cur: Seq<char>, quoted: bool)
    requires
        !q.contains('"'),
    ensures
        tokens_from(q + rest, cur, quoted, true) == tokens_from(rest, cur + q, quoted, true),
    decreases q.len(),
{
    if q.len() == 0 {
        assert(q + rest =~= rest);
        assert(cur + q =~= cur);
    } else {
        let s = q + rest;
        assert(q.contains(q[0]));
        assert(s[0] == q[0]);
        assert(s.skip(1) =~= q.skip(1) + rest);
        assert forall|i: int| 0 <= i < q.skip(1).len() implies q.skip(1)[i] != '"' by {
            assert(q.contains(q[i + 1]));
        }
        lemma_quoted_token(q.skip(1), rest, cur.push(q[0]), quoted);
        assert(cur.push(q[0]) + q.skip(1) =~= cur + q);
    }
}

/// Tokens stand between white space; what stands between double quotes is one,
/// with the white space in it.
pub proof fn law_tokens_are_between_spaces(w: Seq<char>, q: Seq<char>, c: char, rest: Seq<char>)
    requires
        w.len() > 0,
        forall|i: int| 0 <= i < w.len() ==> !is_space(#[trigger] w[i]) && w[i] != '"',
        !q.contains('"'),
        is_space(c) && c != '"',
    ensures
        tokens_of(w) == seq![w],
        tokens_of(w.push(c) + rest) == seq![w] + tokens_of(rest),
        tokens_of(seq!['"'] + q + seq!['"', c] + rest) == seq![q] + tokens_of(rest),
        tokens_of(seq![c] + rest) == tokens_of(rest),
        tokens_of(Seq::<char>::empty()) == Seq::<Seq<char>>::empty(),
{
    let none = Seq::<char>::empty();
    lemma_plain_token(w, none, none, false);
    assert(w + none =~= w && none + w =~= w);
    let gap = seq![c] + rest;
    lemma_plain_token(w, gap, none, false);
    assert(w.push(c) + rest =~= w + gap);
    assert(gap.skip(1) =~= rest);
    let s = seq!['"'] + q + seq!['"', c] + rest;
    let closing = seq!['"', c] + rest;
    assert(s.skip(1) =~= q + closing);
    lemma_quoted_token(q, closing, none, true);
    assert(none + q =~= q);
    assert(closing.skip(1) =~= gap);
    assert(tokens_from(s, none, false, false) == tokens_from(q + closing, none, true, true));
    assert(tokens_from(closing, q, true, true) == tokens_from(gap, q, true, false));
    assert(gap[0] == c);
    assert(tokens_from(gap, q, true, false) == seq![q] + tokens_of(rest));
}

/// One pair of double quotes around a value is no part of it.
pub proof fn law_quotes_around_a_value(v: Seq<char>)
    ensures
        unquoted(seq!['"'] + v + seq!['"']) == v,
        v.len() > 0 && !is_space(v[0]) && !is_space(v.last()) && v[0] != '"' ==> unquoted(v) == v,
{
    law_white_space();
    let s = seq!['"'] + v + seq!['"'];
    assert(s[0] == '"' && s.last() == '"');
    assert(trimmed(s) == s);
    assert(s.subrange(1, s.len() - 1) =~= v);
}

/// An exclamation mark before a pattern negates it, and is no part of it.
pub proof fn law_exclamation_mark_negates(tokens: Seq<Seq<char>>, name: Seq<char>)
    requires
        name.len() > 0,
        name[0] != '!',
    ensures
        patterns_of(tokens.push(name)) == patterns_of(tokens).push((false, name)),
        patterns_of(tokens.push(seq!['!'] + name)) == patterns_of(tokens).push((true, name)),
{
    assert(tokens.push(name).drop_last() =~= tokens);
    let negated = seq!['!'] + name;
    assert(tokens.push(negated).drop_last() =~= tokens);
    assert(negated.skip(1) =~= name);
}

/// A keyword below a `Host` line is a keyword of that host, in any case and with
/// its value as written.
pub proof fn law_keyword_lands_in_the_open_block(
    p: ParserView,
    b: BlockView,
    kw: Seq<char>,
    value: Seq<char>,
)
    requires
        p.current == Some(b),
        kw.len() > 0,
        forall|i: int|
            0 <= i < kw.len() ==> !is_space(#[trigger] kw[i]) && kw[i] != '=' && kw[i] != '"'
                && kw[i] != '#',
        lower(kw) != "host"@ && lower(kw) != "match"@ && lower(kw) != "include"@,
        value.len() > 0,
        !is_space(value[0]) && !is_space(value.last()) && value[0] != '=',
        !value.contains('"') && !value.contains('#'),
    ensures
        after_line(p, seq![' '] + kw + seq![' '] + value) == (ParserView {
            blocks: p.blocks,
            current: Some(BlockView { entries: b.entries.push((lower(kw), value)), ..b }),
        }),
{
    let line = seq![' '] + kw + seq![' '] + value;
    assert forall|i: int| 0 <= i < line.len() implies line[i] != '"' && line[i] != '#' by {
        if 0 < i <= kw.len() {
            assert(line[i] == kw[i - 1]);
            assert(kw[i - 1] != '"' && kw[i - 1] != '#');
        } else if i > kw.len() + 1 {
            assert(line[i] == value[i - kw.len() - 2]);
            assert(value.contains(value[i - kw.len() - 2]));
        }
    }
    law_comment_ends_the_line(line, Seq::empty(), Seq::empty());
    law_line_is_keyword_and_value(kw, value);
    assert(value.contains(value[0]));
    law_quotes_around_a_value(value);
}

/// A `Host` line opens a block for the names on it, and closes the one before.
pub proof fn law_host_line_opens_a_block(p: ParserView, name: Seq<char>)
    requires
        name.len() > 0,
        name[0] != '!' && name[0] != '=',
        forall|i: int|
            0 <= i < name.len() ==> !is_space(#[trigger] name[i]) && name[i] != '"' && name[i]
                != '#',
    ensures
        after_line(p, "Host"@ + seq![' '] + name) == (ParserView {
            blocks: flushed(p),
            current: Some(
                BlockView {
                    patterns: seq![(false, name)],
                    entries: Seq::empty(),
                    implicit: false,
                },
            ),
        }),
{
    reveal_strlit("Host");
    reveal_strlit("host");
    let kw = "Host"@;
    let line = kw + seq![' '] + name;
    assert forall|i: int| 0 <= i < line.len() implies line[i] != '"' && line[i] != '#' by {
        if i > 4 {
            assert(line[i] == name[i - 5]);
            assert(name[i - 5] != '"' && name[i - 5] != '#');
        }
    }
    law_white_space();
    assert(!is_space(name[0]) && !is_space(name[name.len() - 1]));
    law_comment_ends_the_line(line, Seq::empty(), Seq::empty());
    law_line_is_keyword_and_value(kw, name);
    assert(lower(kw) =~= "host"@);
    law_tokens_are_between_spaces(name, Seq::empty(), ' ', Seq::empty());
    let none = Seq::<Seq<char>>::empty();
    law_exclamation_mark_negates(none, name);
    assert(none.push(name) =~= seq![name]);
    assert(patterns_of(none) =~= Seq::empty());
    assert(patterns_of(seq![name]) =~= seq![(false, name)]);
}

} // verus!

//! Paths as text: joining, resolving `.` and `..`, and finding out where a
//! path on the operator's machine really points.

use vstd::prelude::*;

use crate::text::{
    chars_of, join, join_with, joined2, joined3, lemma_split_join, lemma_split_on_add,
    lemma_split_on_one, lemma_split_on_push, lemma_split_parts, lemma_until, lemma_until_is,
    lemma_views_push, lower, push_chars, same, split, split_on, starts_with, string_of, to_lower,
    views,
};

verus! {

// ---------------------------------------------------------------------------
// Joining
// ---------------------------------------------------------------------------

/// What separates the parts of a path on Windows.
pub open spec fn is_sep(c: char) -> bool {
    c == '/' || c == '\\'
}

/// Where the next separator stands at or behind `i`; the length where there is
/// none.
pub open spec fn sep_at(p: Seq<char>, i: int) -> int
    decreases p.len() - i,
{
    if i >= p.len() {
        p.len() as int
    } else if is_sep(p[i]) {
        i
    } else {
        sep_at(p, i + 1)
    }
}

/// A path that begins with a drive.
pub open spec fn has_drive(p: Seq<char>) -> bool {
    p.len() >= 2 && p[1] == ':' && ('a' <= p[0] <= 'z' || 'A' <= p[0] <= 'Z')
}

/// How long the `//server/share` is that a path begins with.
pub open spec fn share_len(p: Seq<char>) -> int {
    if p.len() >= 2 && is_sep(p[0]) && is_sep(p[1]) {
        let server = sep_at(p, 2);
        let share = sep_at(p, server + 1);
        if server == 2 || server >= p.len() || share == server + 1 {
            0
        } else {
            share
        }
    } else {
        0
    }
}

/// How much of a Windows path names the drive or the share that it is on.
pub open spec fn prefix_len(p: Seq<char>) -> int {
    if has_drive(p) {
        2
    } else {
        share_len(p)
    }
}

/// How much of a Windows path is behind its drive or share when it is taken from
/// the root there: one separator, where it is written.
pub open spec fn root_len(p: Seq<char>) -> int {
    if prefix_len(p) < p.len() && is_sep(p[prefix_len(p)]) {
        prefix_len(p) + 1
    } else {
        prefix_len(p)
    }
}

/// A path that does not depend on the working directory. On Windows that takes
/// a drive too, or a share.
pub open spec fn absolute(p: Seq<char>, windows: bool) -> bool {
    if windows {
        share_len(p) > 0 || (has_drive(p) && p.len() >= 3 && is_sep(p[2]))
    } else {
        p.len() > 0 && p[0] == '/'
    }
}

fn is_separator(c: char) -> (r: bool)
    ensures
        r == is_sep(c),
{
    c == '/' || c == '\\'
}

fn find_sep(v: &Vec<char>, from: usize) -> (r: usize)
    requires
        from <= v@.len(),
    ensures
        r == sep_at(v@, from as int),
        from <= r <= v@.len(),
{
    let mut i: usize = from;
    while i < v.len() && !is_separator(v[i])
        invariant
            from <= i <= v@.len(),
            sep_at(v@, i as int) == sep_at(v@, from as int),
        decreases v@.len() - i,
    {
        i = i + 1;
    }
    i
}

fn starts_with_drive(v: &Vec<char>) -> (r: bool)
    ensures
        r == has_drive(v@),
{
    v.len() >= 2 && v[1] == ':' && (('a' <= v[0] && v[0] <= 'z') || ('A' <= v[0] && v[0] <= 'Z'))
}

fn find_share(v: &Vec<char>) -> (r: usize)
    ensures
        r == share_len(v@),
        r <= v@.len(),
{
    if v.len() < 2 || !is_separator(v[0]) || !is_separator(v[1]) {
        return 0;
    }
    let server: usize = find_sep(v, 2);
    if server == 2 || server >= v.len() {
        return 0;
    }
    let share: usize = find_sep(v, server + 1);
    if share == server + 1 {
        0
    } else {
        share
    }
}

fn find_prefix(v: &Vec<char>) -> (r: usize)
    ensures
        r == prefix_len(v@),
        r <= v@.len(),
{
    if starts_with_drive(v) {
        2
    } else {
        find_share(v)
    }
}

fn find_root(v: &Vec<char>) -> (r: usize)
    ensures
        r == root_len(v@),
        r <= v@.len(),
{
    let n: usize = find_prefix(v);
    if n < v.len() && is_separator(v[n]) {
        n + 1
    } else {
        n
    }
}

pub fn is_absolute(p: &str, windows: bool) -> (r: bool)
    ensures
        r == absolute(p@, windows),
{
    let v = chars_of(p);
    if windows {
        find_share(&v) > 0 || (starts_with_drive(&v) && v.len() >= 3 && is_separator(v[2]))
    } else {
        v.len() > 0 && v[0] == '/'
    }
}

/// `name` below `base` on a machine. On Windows a name with a drive or a share
/// stands for itself, and one that begins at the root keeps the drive of `base`.
pub open spec fn joined_local(base: Seq<char>, name: Seq<char>, windows: bool) -> Seq<char> {
    if !windows {
        joined_path(base, name)
    } else if prefix_len(name) > 0 {
        name
    } else if name.len() > 0 && is_sep(name[0]) {
        base.take(prefix_len(base)) + name
    } else if base.len() == 0 || is_sep(base.last()) || (has_drive(base) && base.len() == 2) {
        base + name
    } else {
        base + "/"@ + name
    }
}

pub fn join_local(base: &str, name: &str, windows: bool) -> (r: String)
    ensures
        r@ == joined_local(base@, name@, windows),
{
    if !windows {
        return join_path(base, name);
    }
    let b = chars_of(base);
    let n = chars_of(name);
    if find_prefix(&n) > 0 {
        name.to_owned()
    } else if n.len() > 0 && is_separator(n[0]) {
        let at: usize = find_prefix(&b);
        let drive = string_of(&b, 0, at);
        assert(drive@ =~= base@.take(at as int));
        joined2(drive.as_str(), name)
    } else if b.len() == 0 || is_separator(b[b.len() - 1]) || (starts_with_drive(&b) && b.len()
        == 2) {
        joined2(base, name)
    } else {
        joined3(base, "/", name)
    }
}

/// `name` below `base`. An absolute name stands for itself.
pub open spec fn joined_path(base: Seq<char>, name: Seq<char>) -> Seq<char> {
    if name.len() > 0 && name[0] == '/' {
        name
    } else if base.len() == 0 {
        name
    } else if base.last() == '/' {
        base + name
    } else {
        base + "/"@ + name
    }
}

pub fn join_path(base: &str, name: &str) -> (r: String)
    ensures
        r@ == joined_path(base@, name@),
{
    let b = chars_of(base);
    let n = chars_of(name);
    if n.len() > 0 && n[0] == '/' {
        name.to_owned()
    } else if b.len() == 0 {
        name.to_owned()
    } else if b[b.len() - 1] == '/' {
        joined2(base, name)
    } else {
        joined3(base, "/", name)
    }
}

// ---------------------------------------------------------------------------
// Resolving `.` and `..`
// ---------------------------------------------------------------------------

/// The names that are left of a path's parts: nothing and `.` name nothing, and
/// `..` takes the name before it away, where there is one.
pub open spec fn walked(parts: Seq<Seq<char>>) -> Seq<Seq<char>>
    decreases parts.len(),
{
    if parts.len() == 0 {
        Seq::empty()
    } else {
        let before = walked(parts.drop_last());
        let part = parts.last();
        if part.len() == 0 || part == "."@ {
            before
        } else if part == ".."@ {
            if before.len() > 0 {
                before.drop_last()
            } else {
                before
            }
        } else {
            before.push(part)
        }
    }
}

/// A path without `.` and `..`. Popping past the root stays at the root.
pub open spec fn normalized(p: Seq<char>) -> Seq<char> {
    let names = join_with(walked(split_on(p, '/')), '/');
    if p.len() > 0 && p[0] == '/' {
        "/"@ + names
    } else {
        names
    }
}

fn walk_names(p: &str) -> (r: Vec<String>)
    ensures
        views(r@) == walked(split_on(p@, '/')),
{
    let parts = split(p, '/');
    let ghost all = split_on(p@, '/');
    let mut out: Vec<String> = Vec::new();
    assert(views(out@) =~= walked(all.take(0)));
    let mut i: usize = 0;
    while i < parts.len()
        invariant
            i <= parts@.len(),
            all == views(parts@),
            views(out@) == walked(all.take(i as int)),
        decreases parts@.len() - i,
    {
        let part = parts[i].as_str();
        let ghost before = views(out@);
        proof {
            assert(all.take(i + 1).drop_last() =~= all.take(i as int));
            assert(all.take(i + 1).last() == part@);
            lemma_views_push(out@, parts@[i as int]);
        }
        if part.is_empty() || same(part, ".") {
        } else if same(part, "..") {
            let _ = out.pop();
            proof {
                if before.len() > 0 {
                    assert(views(out@) =~= before.drop_last());
                } else {
                    assert(views(out@) =~= before);
                }
            }
        } else {
            out.push(parts[i].clone());
            assert(views(out@) =~= before.push(part@));
        }
        i = i + 1;
    }
    assert(all.take(i as int) =~= all);
    out
}

/// Resolve `.` and `..` without touching the filesystem. Used for the tail of
/// a path whose parent does not exist yet.
pub fn lexical_normalize(p: &str) -> (r: String)
    ensures
        r@ == normalized(p@),
{
    let out = walk_names(p);
    let names = join(&out, '/');
    if starts_with(p, "/") {
        proof {
            reveal_strlit("/");
            assert(p@.take(1)[0] == '/');
        }
        joined2("/", names.as_str())
    } else {
        proof {
            reveal_strlit("/");
            if p@.len() > 0 && p@[0] == '/' {
                assert(p@.take(1) =~= "/"@);
            }
        }
        names
    }
}

/// The names of a path on a machine, without `.` and `..`. On Windows its drive
/// or share is none of them.
pub open spec fn local_names(p: Seq<char>, windows: bool) -> Seq<Seq<char>> {
    if windows {
        walked(split_on(p.skip(root_len(p)), '/'))
    } else {
        walked(split_on(p, '/'))
    }
}

/// What a path on a machine begins with: the root, and on Windows its drive or
/// share.
pub open spec fn local_root(p: Seq<char>, windows: bool) -> Seq<char> {
    if windows {
        p.take(prefix_len(p)) + (if root_len(p) > prefix_len(p) || share_len(p) > 0 {
            "/"@
        } else {
            Seq::empty()
        })
    } else if p.len() > 0 && p[0] == '/' {
        "/"@
    } else {
        Seq::empty()
    }
}

/// A path on a machine without `.` and `..`. Popping past the root stays at the
/// root, on the drive that it is on.
pub open spec fn normalized_local(p: Seq<char>, windows: bool) -> Seq<char> {
    local_root(p, windows) + join_with(local_names(p, windows), '/')
}

/// A path that names a whole filesystem: a root, a drive or a share. It has no
/// directory above it.
pub open spec fn is_filesystem_root(p: Seq<char>, windows: bool) -> bool {
    local_names(p, windows).len() == 0
}

fn find_names(p: &str, windows: bool) -> (r: Vec<String>)
    ensures
        views(r@) == local_names(p@, windows),
{
    if !windows {
        return walk_names(p);
    }
    let v = chars_of(p);
    let at: usize = find_root(&v);
    let n: usize = v.len();
    let rest = string_of(&v, at, n);
    assert(rest@ =~= p@.skip(at as int));
    walk_names(rest.as_str())
}

/// Resolve `.` and `..` in a path on this machine.
pub fn normalize_local(p: &str, windows: bool) -> (r: String)
    ensures
        r@ == normalized_local(p@, windows),
{
    if !windows {
        let r = lexical_normalize(p);
        assert(Seq::<char>::empty() + join_with(walked(split_on(p@, '/')), '/') =~= join_with(
            walked(split_on(p@, '/')),
            '/',
        ));
        return r;
    }
    let v = chars_of(p);
    let at: usize = find_prefix(&v);
    let mut out = string_of(&v, 0, at);
    assert(out@ =~= p@.take(at as int));
    if find_root(&v) > at || find_share(&v) > 0 {
        out.push_str("/");
    } else {
        assert(out@ =~= p@.take(at as int) + Seq::<char>::empty());
    }
    let names = join(&find_names(p, windows), '/');
    out.push_str(names.as_str());
    out
}

/// Whether a path names a whole filesystem.
pub fn names_filesystem(p: &str, windows: bool) -> (r: bool)
    ensures
        r == is_filesystem_root(p@, windows),
{
    find_names(p, windows).len() == 0
}

/// A name that a resolved path can hold.
pub open spec fn plain_name(s: Seq<char>) -> bool {
    s.len() > 0 && s != "."@ && s != ".."@ && !s.contains('/')
}

proof fn lemma_walked_names(parts: Seq<Seq<char>>)
    requires
        forall|i: int| 0 <= i < parts.len() ==> !(#[trigger] parts[i]).contains('/'),
    ensures
        forall|i: int| 0 <= i < walked(parts).len() ==> plain_name(#[trigger] walked(parts)[i]),
    decreases parts.len(),
{
    if parts.len() > 0 {
        let rest = parts.drop_last();
        assert forall|i: int| 0 <= i < rest.len() implies !(#[trigger] rest[i]).contains('/') by {
            assert(rest[i] == parts[i]);
        }
        lemma_walked_names(rest);
        let w = walked(rest);
        assert(!parts[parts.len() - 1].contains('/'));
        assert forall|i: int| 0 <= i < walked(parts).len() implies plain_name(
            #[trigger] walked(parts)[i],
        ) by {
            if i < w.len() {
                assert(plain_name(w[i]));
            }
        }
    }
}

proof fn lemma_walked_plain(names: Seq<Seq<char>>)
    requires
        forall|i: int| 0 <= i < names.len() ==> plain_name(#[trigger] names[i]),
    ensures
        walked(names) == names,
    decreases names.len(),
{
    if names.len() > 0 {
        let rest = names.drop_last();
        assert forall|i: int| 0 <= i < rest.len() implies plain_name(#[trigger] rest[i]) by {
            assert(rest[i] == names[i]);
        }
        lemma_walked_plain(rest);
        assert(plain_name(names[names.len() - 1]));
        assert(names =~= rest.push(names.last()));
    } else {
        assert(walked(names) =~= names);
    }
}

proof fn lemma_walked_behind_nothing(names: Seq<Seq<char>>)
    ensures
        walked(seq![Seq::<char>::empty()] + names) == walked(names),
    decreases names.len(),
{
    let all = seq![Seq::<char>::empty()] + names;
    if names.len() == 0 {
        assert(all.drop_last() =~= Seq::empty());
        assert(all.last().len() == 0);
        assert(walked(all.drop_last()) =~= Seq::empty());
        assert(walked(names) =~= Seq::empty());
    } else {
        lemma_walked_behind_nothing(names.drop_last());
        assert(all.drop_last() =~= seq![Seq::<char>::empty()] + names.drop_last());
        assert(all.last() == names.last());
    }
}

/// What is left of a resolved path are plain names: no `..` is in it, so it
/// cannot climb out of the directory that it names.
pub proof fn law_normalized_has_no_traversal(p: Seq<char>)
    ensures
        forall|i: int|
            0 <= i < walked(split_on(p, '/')).len() ==> plain_name(
                #[trigger] walked(split_on(p, '/'))[i],
            ),
{
    lemma_split_parts(p, '/');
    lemma_walked_names(split_on(p, '/'));
}

/// Resolving a resolved path changes nothing.
pub proof fn law_normalize_is_idempotent(p: Seq<char>)
    ensures
        normalized(normalized(p)) == normalized(p),
{
    law_normalized_has_no_traversal(p);
    reveal_strlit("/");
    let names = walked(split_on(p, '/'));
    let text = join_with(names, '/');
    let q = normalized(p);
    if names.len() == 0 {
        assert(text =~= Seq::empty());
        if p.len() > 0 && p[0] == '/' {
            assert(q =~= seq!['/']);
            lemma_until_is(q, '/', 0);
            assert(q.take(0) =~= Seq::empty());
            assert(q.skip(1) =~= Seq::empty());
            lemma_until(Seq::<char>::empty(), '/');
            assert(split_on(Seq::<char>::empty(), '/') =~= seq![Seq::<char>::empty()]);
            assert(split_on(q, '/') =~= seq![Seq::<char>::empty()] + seq![Seq::<char>::empty()]);
            lemma_walked_behind_nothing(seq![Seq::<char>::empty()]);
            lemma_walked_behind_nothing(Seq::empty());
            assert(seq![Seq::<char>::empty()] + Seq::<Seq<char>>::empty() =~= seq![
                Seq::<char>::empty(),
            ]);
            assert(walked(split_on(q, '/')) =~= Seq::empty());
            assert(normalized(q) =~= q);
        } else {
            lemma_until(q, '/');
            assert(split_on(q, '/') =~= seq![Seq::<char>::empty()]);
            lemma_walked_behind_nothing(Seq::empty());
            assert(seq![Seq::<char>::empty()] + Seq::<Seq<char>>::empty() =~= seq![
                Seq::<char>::empty(),
            ]);
            assert(normalized(q) =~= q);
        }
    } else {
        assert forall|i: int| 0 <= i < names.len() implies !(#[trigger] names[i]).contains('/') by {
            assert(plain_name(names[i]));
        }
        lemma_split_join(names, '/');
        lemma_walked_plain(names);
        if p.len() > 0 && p[0] == '/' {
            assert(q[0] == '/');
            lemma_until_is(q, '/', 0);
            assert(q.take(0) =~= Seq::empty());
            assert(q.skip(1) =~= text);
            assert(split_on(q, '/') =~= seq![Seq::<char>::empty()] + names);
            lemma_walked_behind_nothing(names);
        } else {
            lemma_join_first(names);
            assert(plain_name(names[0]));
            assert(names[0].contains(names[0][0]));
            assert(q[0] == names[0][0]);
        }
    }
}

proof fn lemma_join_first(names: Seq<Seq<char>>)
    requires
        names.len() > 0,
        names[0].len() > 0,
    ensures
        join_with(names, '/').len() > 0,
        join_with(names, '/')[0] == names[0][0],
    decreases names.len(),
{
    if names.len() > 1 {
        lemma_join_first(names.drop_last());
    }
}

// ---------------------------------------------------------------------------
// The last name of a path
// ---------------------------------------------------------------------------

/// `p` without the slashes at its end.
pub open spec fn without_last_slashes(p: Seq<char>) -> Seq<char>
    decreases p.len(),
{
    if p.len() > 0 && p.last() == '/' {
        without_last_slashes(p.drop_last())
    } else {
        p
    }
}

pub fn strip_last_slashes(p: &str) -> (r: String)
    ensures
        r@ == without_last_slashes(p@),
{
    let v = chars_of(p);
    let mut n: usize = v.len();
    assert(v@.subrange(0, n as int) =~= v@);
    while n > 0 && v[n - 1] == '/'
        invariant
            n <= v@.len(),
            v@ == p@,
            without_last_slashes(v@.subrange(0, n as int)) == without_last_slashes(p@),
        decreases n,
    {
        assert(v@.subrange(0, n as int).drop_last() =~= v@.subrange(0, n - 1));
        n = n - 1;
    }
    string_of(&v, 0, n)
}

/// Where the last part of a path begins.
pub open spec fn last_part_at(p: Seq<char>) -> int
    decreases p.len(),
{
    if p.len() == 0 || p.last() == '/' {
        p.len() as int
    } else {
        last_part_at(p.drop_last())
    }
}

pub proof fn lemma_last_part_at(p: Seq<char>)
    ensures
        0 <= last_part_at(p) <= p.len(),
        last_part_at(p) > 0 ==> p[last_part_at(p) - 1] == '/',
        forall|i: int| last_part_at(p) <= i < p.len() ==> p[i] != '/',
    decreases p.len(),
{
    if p.len() == 0 || p.last() == '/' {
    } else {
        lemma_last_part_at(p.drop_last());
        assert forall|i: int| last_part_at(p) <= i < p.len() implies p[i] != '/' by {
            if i < p.len() - 1 {
                assert(p.drop_last()[i] != '/');
            }
        }
    }
}

pub(crate) fn find_last_part(v: &Vec<char>) -> (r: usize)
    ensures
        r == last_part_at(v@),
        r <= v@.len(),
{
    let mut n: usize = v.len();
    assert(v@.subrange(0, n as int) =~= v@);
    while n > 0 && v[n - 1] != '/'
        invariant
            n <= v@.len(),
            last_part_at(v@.subrange(0, n as int)) == last_part_at(v@),
        decreases n,
    {
        assert(v@.subrange(0, n as int).drop_last() =~= v@.subrange(0, n - 1));
        n = n - 1;
    }
    n
}

/// The name that a path ends with, and the path of the directory that holds it.
/// A path that ends with the root or with `..` has no such name.
pub open spec fn directory_and_name(p: Seq<char>) -> Option<(Seq<char>, Seq<char>)> {
    let t = without_last_dots(p);
    let name = t.skip(last_part_at(t));
    if name.len() == 0 || name == ".."@ {
        None
    } else {
        Some((t.take(last_part_at(t)), name))
    }
}

/// `p` without slashes and `.` parts at its end: they name nothing.
pub open spec fn without_last_dots(p: Seq<char>) -> Seq<char>
    decreases p.len(),
    via without_last_dots_decreases
{
    let t = without_last_slashes(p);
    if t.len() > 0 && t.skip(last_part_at(t)) == "."@ {
        without_last_dots(t.take(last_part_at(t)))
    } else {
        t
    }
}

#[via_fn]
proof fn without_last_dots_decreases(p: Seq<char>) {
    let t = without_last_slashes(p);
    lemma_without_last_slashes(p);
    lemma_last_part_at(t);
    reveal_strlit(".");
    assert(t.skip(last_part_at(t)).len() == t.len() - last_part_at(t));
}

proof fn lemma_without_last_slashes(p: Seq<char>)
    ensures
        without_last_slashes(p).len() <= p.len(),
    decreases p.len(),
{
    if p.len() > 0 && p.last() == '/' {
        lemma_without_last_slashes(p.drop_last());
    }
}

fn strip_last_dots(p: &str) -> (r: String)
    ensures
        r@ == without_last_dots(p@),
    decreases p@.len(),
{
    let t = strip_last_slashes(p);
    let v = chars_of(t.as_str());
    let at: usize = find_last_part(&v);
    let n: usize = v.len();
    let name = string_of(&v, at, n);
    assert(name@ =~= t@.skip(at as int));
    if same(name.as_str(), ".") {
        proof {
            reveal_strlit(".");
            assert(name@.len() == 1);
            lemma_without_last_slashes(p@);
        }
        let dir = string_of(&v, 0, at);
        assert(dir@ =~= t@.take(at as int));
        strip_last_dots(dir.as_str())
    } else {
        proof {
            reveal_strlit(".");
        }
        t
    }
}

/// The name that a path ends with, and the directory that holds it.
pub fn split_last_name(p: &str) -> (r: Option<(String, String)>)
    ensures
        match r {
            Some(x) => directory_and_name(p@) == Some((x.0@, x.1@)),
            None => directory_and_name(p@) is None,
        },
{
    let t = strip_last_dots(p);
    let v = chars_of(t.as_str());
    let at: usize = find_last_part(&v);
    let n: usize = v.len();
    let name = string_of(&v, at, n);
    assert(name@ =~= t@.skip(at as int));
    if name.as_str().is_empty() || same(name.as_str(), "..") {
        return None;
    }
    let dir = string_of(&v, 0, at);
    assert(dir@ =~= t@.take(at as int));
    Some((dir, name))
}

// ---------------------------------------------------------------------------
// Forms for comparison
// ---------------------------------------------------------------------------

pub open spec fn with_slashes(p: Seq<char>) -> Seq<char> {
    Seq::new(
        p.len(),
        |i: int|
            if p[i] == '\\' {
                '/'
            } else {
                p[i]
            },
    )
}

/// Forward-slash view of a path, with the Windows `\\?\` verbatim prefix that
/// canonical paths carry stripped, so one regex covers both platforms.
pub open spec fn slashed_text(p: Seq<char>) -> Seq<char> {
    let s = with_slashes(p);
    if s.len() >= 4 && s.take(4) == "//?/"@ {
        s.skip(4)
    } else {
        s
    }
}

pub fn slashed(p: &str) -> (r: String)
    ensures
        r@ == slashed_text(p@),
{
    let v = chars_of(p);
    let mut out = String::new();
    let mut i: usize = 0;
    while i < v.len()
        invariant
            i <= v@.len(),
            v@ == p@,
            out@ == with_slashes(p@).take(i as int),
        decreases v@.len() - i,
    {
        out.push(
            if v[i] == '\\' {
                '/'
            } else {
                v[i]
            },
        );
        i = i + 1;
        assert(out@ =~= with_slashes(p@).take(i as int));
    }
    assert(out@ =~= with_slashes(p@));
    proof {
        reveal_strlit("//?/");
        assert("//?/"@.len() == 4);
    }
    if starts_with(out.as_str(), "//?/") {
        let w = chars_of(out.as_str());
        let n: usize = w.len();
        let r = string_of(&w, 4, n);
        assert(r@ =~= out@.skip(4));
        r
    } else {
        out
    }
}

/// Comparison form of a path: forward slashes, no trailing slash, case-folded
/// on Windows only. Folding on Linux would let an entry match a sibling
/// directory that differs by case, and an allowlist must never be looser than
/// what the operator wrote.
pub open spec fn folded(p: Seq<char>, windows: bool) -> Seq<char> {
    let s = without_last_slashes(slashed_text(p));
    if windows {
        lower(s)
    } else {
        s
    }
}

pub fn fold_path(p: &str, windows: bool) -> (r: String)
    ensures
        r@ == folded(p@, windows),
{
    let s = slashed(p);
    let s = strip_last_slashes(s.as_str());
    if windows {
        to_lower(s.as_str())
    } else {
        s
    }
}

/// `p` is `e` itself, or lies below it.
pub open spec fn covered_by(p: Seq<char>, e: Seq<char>) -> bool {
    p == e || (p.len() > e.len() && p.take(e.len() as int) == e && p[e.len() as int] == '/')
}

/// Whether `p` is `e` itself or lies below it.
pub fn is_covered_by(p: &str, e: &str) -> (r: bool)
    ensures
        r == covered_by(p@, e@),
{
    if same(p, e) {
        return true;
    }
    let v = chars_of(p);
    let w = chars_of(e);
    starts_with(p, e) && v.len() > w.len() && v[w.len()] == '/'
}

// ---------------------------------------------------------------------------
// Paths that are the same
// ---------------------------------------------------------------------------

/// What a path is made of, however it is written: the drive or share that it is
/// on, whether it begins at the root there, and its parts.
#[verifier::ext_equal]
pub struct PathView {
    pub prefix: Seq<char>,
    pub rooted: bool,
    pub parts: Seq<Seq<char>>,
}

/// The parts that count: an empty one names nothing, and neither does a `.` but
/// where a path begins with it. `..` is a part like any other.
pub open spec fn counted(parts: Seq<Seq<char>>, rooted: bool) -> Seq<Seq<char>>
    decreases parts.len(),
{
    if parts.len() == 0 {
        Seq::empty()
    } else {
        let before = counted(parts.drop_last(), rooted);
        let part = parts.last();
        if part.len() == 0 || (part == "."@ && (rooted || parts.len() > 1)) {
            before
        } else {
            before.push(part)
        }
    }
}

/// A drive or share in the form that it is compared in: the letter of a drive
/// has no case.
pub open spec fn prefix_text(p: Seq<char>) -> Seq<char> {
    if has_drive(p) {
        lower(p.take(2))
    } else {
        with_slashes(p.take(share_len(p)))
    }
}

/// The components of a path.
pub open spec fn components(p: Seq<char>, windows: bool) -> PathView {
    if windows {
        let rooted = root_len(p) > prefix_len(p) || share_len(p) > 0;
        PathView {
            prefix: prefix_text(p),
            rooted,
            parts: counted(split_on(with_slashes(p.skip(root_len(p))), '/'), rooted),
        }
    } else {
        let rooted = p.len() > 0 && p[0] == '/';
        PathView {
            prefix: Seq::empty(),
            rooted,
            parts: counted(split_on(p, '/'), rooted),
        }
    }
}

/// Two texts that write the same path: `/a//b/./c/` is `/a/b/c`.
pub open spec fn same_path(a: Seq<char>, b: Seq<char>, windows: bool) -> bool {
    components(a, windows) == components(b, windows)
}

/// A path of a list that is this one.
pub open spec fn holds_path(list: Seq<Seq<char>>, p: Seq<char>, windows: bool) -> bool {
    exists|i: int| 0 <= i < list.len() && same_path(#[trigger] list[i], p, windows)
}

/// No two paths of a list are the same.
pub open spec fn distinct_paths(list: Seq<Seq<char>>, windows: bool) -> bool {
    forall|i: int, j: int|
        0 <= i < j < list.len() ==> !same_path(#[trigger] list[i], #[trigger] list[j], windows)
}

struct Components {
    prefix: String,
    rooted: bool,
    parts: Vec<String>,
}

fn count_parts(p: &str, rooted: bool) -> (r: Vec<String>)
    ensures
        views(r@) == counted(split_on(p@, '/'), rooted),
{
    let parts = split(p, '/');
    let ghost all = split_on(p@, '/');
    let mut out: Vec<String> = Vec::new();
    assert(views(out@) =~= counted(all.take(0), rooted));
    let mut i: usize = 0;
    while i < parts.len()
        invariant
            i <= parts@.len(),
            all == views(parts@),
            views(out@) == counted(all.take(i as int), rooted),
        decreases parts@.len() - i,
    {
        let part = parts[i].as_str();
        proof {
            assert(all.take(i + 1).drop_last() =~= all.take(i as int));
            assert(all.take(i + 1).last() == part@);
            lemma_views_push(out@, parts@[i as int]);
        }
        if !(part.is_empty() || (same(part, ".") && (rooted || i > 0))) {
            out.push(parts[i].clone());
        }
        i = i + 1;
    }
    assert(all.take(i as int) =~= all);
    out
}

fn with_forward_slashes(v: &Vec<char>, from: usize, to: usize) -> (r: String)
    requires
        from <= to <= v@.len(),
    ensures
        r@ == with_slashes(v@.subrange(from as int, to as int)),
{
    let mut out = String::new();
    let ghost all = with_slashes(v@.subrange(from as int, to as int));
    let mut i: usize = from;
    assert(out@ =~= all.take(0));
    while i < to
        invariant
            from <= i <= to <= v@.len(),
            all == with_slashes(v@.subrange(from as int, to as int)),
            out@ == all.take(i - from),
        decreases to - i,
    {
        out.push(
            if v[i] == '\\' {
                '/'
            } else {
                v[i]
            },
        );
        i = i + 1;
        assert(out@ =~= all.take(i - from));
    }
    assert(out@ =~= all);
    out
}

impl Components {
    spec fn view(&self) -> PathView {
        PathView { prefix: self.prefix@, rooted: self.rooted, parts: views(self.parts@) }
    }

    fn of(p: &str, windows: bool) -> (r: Self)
        ensures
            r.view() == components(p@, windows),
    {
        let v = chars_of(p);
        if !windows {
            let rooted = v.len() > 0 && v[0] == '/';
            let r = Components { prefix: String::new(), rooted, parts: count_parts(p, rooted) };
            assert(r.prefix@ =~= Seq::empty());
            return r;
        }
        let n: usize = v.len();
        let at: usize = find_prefix(&v);
        let root: usize = find_root(&v);
        let share: usize = find_share(&v);
        let prefix = if starts_with_drive(&v) {
            let drive = string_of(&v, 0, 2);
            assert(drive@ =~= p@.take(2));
            to_lower(drive.as_str())
        } else {
            assert(v@.subrange(0, share as int) =~= p@.take(share as int));
            with_forward_slashes(&v, 0, share)
        };
        let rest = with_forward_slashes(&v, root, n);
        assert(v@.subrange(root as int, n as int) =~= p@.skip(root as int));
        let rooted = root > at || share > 0;
        Components { prefix, rooted, parts: count_parts(rest.as_str(), rooted) }
    }

    fn is(&self, other: &Components) -> (r: bool)
        ensures
            r == (self.view() == other.view()),
    {
        same(self.prefix.as_str(), other.prefix.as_str()) && self.rooted == other.rooted
            && same_texts(&self.parts, &other.parts)
    }
}

/// Whether two lists hold the same texts.
fn same_texts(a: &Vec<String>, b: &Vec<String>) -> (r: bool)
    ensures
        r == (views(a@) == views(b@)),
{
    if a.len() != b.len() {
        assert(views(a@).len() != views(b@).len());
        return false;
    }
    let mut i: usize = 0;
    while i < a.len()
        invariant
            a@.len() == b@.len(),
            i <= a@.len(),
            forall|j: int| 0 <= j < i ==> views(a@)[j] == views(b@)[j],
        decreases a@.len() - i,
    {
        if !same(a[i].as_str(), b[i].as_str()) {
            assert(views(a@)[i as int] != views(b@)[i as int]);
            return false;
        }
        i = i + 1;
    }
    assert(views(a@) =~= views(b@));
    true
}

/// Whether two texts write the same path.
pub fn is_same_path(a: &str, b: &str, windows: bool) -> (r: bool)
    ensures
        r == same_path(a@, b@, windows),
{
    Components::of(a, windows).is(&Components::of(b, windows))
}

/// Two lists of the same paths, in the same order.
pub open spec fn same_paths(a: Seq<Seq<char>>, b: Seq<Seq<char>>, windows: bool) -> bool {
    &&& a.len() == b.len()
    &&& forall|i: int| 0 <= i < a.len() ==> same_path(#[trigger] a[i], b[i], windows)
}

/// Whether two lists hold the same paths, in the same order.
pub fn are_same_paths(a: &Vec<String>, b: &Vec<String>, windows: bool) -> (r: bool)
    ensures
        r == same_paths(views(a@), views(b@), windows),
{
    if a.len() != b.len() {
        return false;
    }
    let mut i: usize = 0;
    while i < a.len()
        invariant
            a@.len() == b@.len(),
            i <= a@.len(),
            forall|j: int|
                0 <= j < i ==> same_path(#[trigger] views(a@)[j], views(b@)[j], windows),
        decreases a@.len() - i,
    {
        if !is_same_path(a[i].as_str(), b[i].as_str(), windows) {
            assert(!same_path(views(a@)[i as int], views(b@)[i as int], windows));
            return false;
        }
        i = i + 1;
    }
    true
}

/// Whether a list holds a path, however it is written there.
pub fn lists_path(list: &Vec<String>, p: &str, windows: bool) -> (r: bool)
    ensures
        r == holds_path(views(list@), p@, windows),
{
    let mut i: usize = 0;
    while i < list.len()
        invariant
            i <= list@.len(),
            forall|j: int| 0 <= j < i ==> !same_path(#[trigger] views(list@)[j], p@, windows),
        decreases list@.len() - i,
    {
        if is_same_path(list[i].as_str(), p, windows) {
            assert(same_path(views(list@)[i as int], p@, windows));
            return true;
        }
        i = i + 1;
    }
    false
}

// ---------------------------------------------------------------------------
// The operator's machine
// ---------------------------------------------------------------------------

/// Where a directory really is, once its links are followed.
#[derive(Debug, Clone)]
pub struct RealDir {
    pub dir: String,
    pub target: String,
}

/// What resolving a local path needs to know of the machine: the home and
/// working directory, and where the directories that were asked for really are.
#[derive(Debug, Clone)]
pub struct LocalEnv {
    pub home: Option<String>,
    pub cwd: Option<String>,
    pub windows: bool,
    /// A directory that does not exist is not listed.
    pub real_dirs: Vec<RealDir>,
}

/// The mathematical content of a [`LocalEnv`].
#[verifier::ext_equal]
pub struct LocalView {
    pub home: Option<Seq<char>>,
    pub cwd: Option<Seq<char>>,
    pub windows: bool,
    pub real_dirs: Seq<(Seq<char>, Seq<char>)>,
}

impl View for LocalEnv {
    type V = LocalView;

    open spec fn view(&self) -> LocalView {
        LocalView {
            home: match self.home {
                Some(h) => Some(h@),
                None => None,
            },
            cwd: match self.cwd {
                Some(c) => Some(c@),
                None => None,
            },
            windows: self.windows,
            real_dirs: Seq::new(
                self.real_dirs@.len(),
                |i: int| (self.real_dirs@[i].dir@, self.real_dirs@[i].target@),
            ),
        }
    }
}

/// `raw` with a leading `~` replaced by the home directory. Only a `~` that is
/// a whole path part stands for it.
pub open spec fn tilde_text(raw: Seq<char>, home: Option<Seq<char>>, windows: bool) -> Seq<char> {
    if raw.len() > 0 && raw[0] == '~' && (raw.len() == 1 || raw[1] == '/' || (windows && raw[1]
        == '\\')) && home is Some {
        home->0 + raw.skip(1)
    } else {
        raw
    }
}

pub fn expand_tilde(raw: &str, home: &Option<String>, windows: bool) -> (r: String)
    ensures
        r@ == tilde_text(
            raw@,
            match *home {
                Some(h) => Some(h@),
                None => None,
            },
            windows,
        ),
{
    let v = chars_of(raw);
    let n: usize = v.len();
    if n > 0 && v[0] == '~' && (n == 1 || v[1] == '/' || (windows && v[1] == '\\')) {
        match home {
            Some(h) => {
                let mut s = h.clone();
                push_chars(&mut s, &v, 1, n);
                assert(v@.subrange(1, n as int) =~= raw@.skip(1));
                s
            },
            None => raw.to_owned(),
        }
    } else {
        raw.to_owned()
    }
}

/// Where a directory really is, as far as it was found.
pub open spec fn real_of(dirs: Seq<(Seq<char>, Seq<char>)>, dir: Seq<char>) -> Option<Seq<char>>
    decreases dirs.len(),
{
    if dirs.len() == 0 {
        None
    } else if dirs[0].0 == dir {
        Some(dirs[0].1)
    } else {
        real_of(dirs.skip(1), dir)
    }
}

/// How a machine's own paths are read: on Windows with forward slashes.
pub open spec fn machine_text(p: Seq<char>, windows: bool) -> Seq<char> {
    if windows {
        slashed_text(p)
    } else {
        p
    }
}

pub(crate) fn machine_path(p: &str, windows: bool) -> (r: String)
    ensures
        r@ == machine_text(p@, windows),
{
    if windows {
        slashed(p)
    } else {
        p.to_owned()
    }
}

/// A local path made absolute: `~` expanded, and below the working directory
/// where it is relative.
pub open spec fn absolute_text(raw: Seq<char>, env: LocalView) -> Seq<char> {
    let p = machine_text(tilde_text(raw, env.home, env.windows), env.windows);
    if !absolute(p, env.windows) && env.cwd is Some {
        joined_local(machine_text(env.cwd->0, env.windows), p, env.windows)
    } else {
        p
    }
}

/// The name that a path on a machine ends with, and the directory that holds it.
/// On Windows a drive or a share is no such name.
pub open spec fn local_directory(p: Seq<char>, windows: bool) -> Option<(Seq<char>, Seq<char>)> {
    if windows {
        match directory_and_name(p.skip(root_len(p))) {
            Some((dir, name)) => Some((p.take(root_len(p)) + dir, name)),
            None => None,
        }
    } else {
        directory_and_name(p)
    }
}

pub(crate) fn split_local(p: &str, windows: bool) -> (r: Option<(String, String)>)
    ensures
        match r {
            Some(x) => local_directory(p@, windows) == Some((x.0@, x.1@)),
            None => local_directory(p@, windows) is None,
        },
{
    if !windows {
        return split_last_name(p);
    }
    let v = chars_of(p);
    let at: usize = find_root(&v);
    let n: usize = v.len();
    let root = string_of(&v, 0, at);
    let rest = string_of(&v, at, n);
    assert(root@ =~= p@.take(at as int));
    assert(rest@ =~= p@.skip(at as int));
    match split_last_name(rest.as_str()) {
        Some((dir, name)) => Some((joined2(root.as_str(), dir.as_str()), name)),
        None => None,
    }
}

/// A local path with the directory that holds it taken for what it really is,
/// where it exists.
pub open spec fn real_text(raw: Seq<char>, env: LocalView) -> Seq<char> {
    let p = absolute_text(raw, env);
    match local_directory(p, env.windows) {
        Some((dir, name)) => match real_of(env.real_dirs, dir) {
            Some(target) => joined_local(machine_text(target, env.windows), name, env.windows),
            None => p,
        },
        None => p,
    }
}

/// Where a local path points: the directory that holds it is taken for what it
/// really is, and `.` and `..` that are left are resolved as text.
pub open spec fn resolved_local(raw: Seq<char>, env: LocalView) -> Seq<char> {
    normalized_local(real_text(raw, env), env.windows)
}

impl LocalEnv {
    fn lookup_dir(&self, dir: &str) -> (r: Option<String>)
        ensures
            match r {
                Some(s) => real_of(self@.real_dirs, dir@) == Some(s@),
                None => real_of(self@.real_dirs, dir@) is None,
            },
    {
        let ghost all = self@.real_dirs;
        assert(all.skip(0) =~= all);
        let mut i: usize = 0;
        while i < self.real_dirs.len()
            invariant
                i <= self.real_dirs@.len(),
                all == self@.real_dirs,
                real_of(all, dir@) == real_of(all.skip(i as int), dir@),
            decreases self.real_dirs@.len() - i,
        {
            assert(all.skip(i as int)[0] == (
                self.real_dirs@[i as int].dir@,
                self.real_dirs@[i as int].target@,
            ));
            if same(self.real_dirs[i].dir.as_str(), dir) {
                return Some(self.real_dirs[i].target.clone());
            }
            assert(all.skip(i as int).skip(1) =~= all.skip(i + 1));
            i = i + 1;
        }
        None
    }

    /// `raw` made absolute.
    pub fn absolute_path(&self, raw: &str) -> (r: String)
        ensures
            r@ == absolute_text(raw@, self@),
    {
        let p = expand_tilde(raw, &self.home, self.windows);
        let q = machine_path(p.as_str(), self.windows);
        if is_absolute(q.as_str(), self.windows) {
            return q;
        }
        match &self.cwd {
            Some(c) => {
                let base = machine_path(c.as_str(), self.windows);
                join_local(base.as_str(), q.as_str(), self.windows)
            },
            None => q,
        }
    }

    /// The directory whose real place decides where `raw` points.
    pub fn directory_of(&self, raw: &str) -> (r: Option<String>)
        ensures
            match local_directory(absolute_text(raw@, self@), self@.windows) {
                Some((dir, _)) => r is Some && r->0@ == dir,
                None => r is None,
            },
    {
        let p = self.absolute_path(raw);
        match split_local(p.as_str(), self.windows) {
            Some((dir, _)) => Some(dir),
            None => None,
        }
    }
}

/// Expand `~`, make absolute, then resolve the parent through the real
/// filesystem. Matching the raw string would let `~/x/../.bashrc` or a
/// symlinked directory land on a protected file the argument never named.
/// The parent may not exist yet (`dn` creates it), so fall back to a lexical
/// resolve rather than skipping the guard.
pub fn resolve_local_path(raw: &str, env: &LocalEnv) -> (r: String)
    ensures
        r@ == resolved_local(raw@, env@),
{
    let p = env.absolute_path(raw);
    if let Some((dir, name)) = split_local(p.as_str(), env.windows) {
        if let Some(target) = env.lookup_dir(dir.as_str()) {
            let target = machine_path(target.as_str(), env.windows);
            let q = join_local(target.as_str(), name.as_str(), env.windows);
            return normalize_local(q.as_str(), env.windows);
        }
    }
    normalize_local(p.as_str(), env.windows)
}

/// Whatever a caller writes, the path that a guard sees is its root and plain
/// names: no `..` is among them, so walking out of a directory and back in
/// cannot hide where it points. Where there are no drives, resolving it again
/// changes nothing.
pub proof fn law_resolved_path_is_normal(raw: Seq<char>, env: LocalView)
    ensures
        ({
            let p = real_text(raw, env);
            let names = local_names(p, env.windows);
            &&& resolved_local(raw, env) == local_root(p, env.windows) + join_with(names, '/')
            &&& forall|i: int| 0 <= i < names.len() ==> plain_name(#[trigger] names[i])
        }),
        !env.windows ==> normalized(resolved_local(raw, env)) == resolved_local(raw, env),
{
    let p = real_text(raw, env);
    if env.windows {
        law_normalized_has_no_traversal(p.skip(root_len(p)));
    } else {
        law_normalized_has_no_traversal(p);
        law_normalize_is_idempotent(p);
        assert(normalized_local(p, false) =~= normalized(p));
    }
}

/// A path that begins at the root of a Windows drive stays on it, however many
/// `..` it holds.
pub proof fn law_drive_is_kept(p: Seq<char>)
    requires
        has_drive(p),
        p.len() >= 3,
        is_sep(p[2]),
    ensures
        normalized_local(p, true).len() >= 3,
        normalized_local(p, true).take(2) == p.take(2),
        normalized_local(p, true)[2] == '/',
{
    reveal_strlit("/");
    assert(normalized_local(p, true).take(2) =~= p.take(2));
}

// ---------------------------------------------------------------------------
// Laws
// ---------------------------------------------------------------------------

proof fn lemma_last_part_is(dir: Seq<char>, name: Seq<char>)
    requires
        !name.contains('/'),
        dir.len() == 0 || dir.last() == '/',
    ensures
        last_part_at(dir + name) == dir.len(),
    decreases name.len(),
{
    let p = dir + name;
    if name.len() == 0 {
        assert(p =~= dir);
    } else {
        assert(p.last() == name.last());
        assert(name.contains(name.last()));
        let less = name.drop_last();
        assert forall|i: int| 0 <= i < less.len() implies less[i] != '/' by {
            assert(name.contains(name[i]));
        }
        lemma_last_part_is(dir, less);
        assert(p.drop_last() =~= dir + less);
    }
}

/// A path is split before its last name, and the two parts make it up again.
/// Slashes and dots behind the name do not count.
pub proof fn law_directory_and_name_make_the_path(dir: Seq<char>, name: Seq<char>)
    requires
        name.len() > 0,
        !name.contains('/'),
        name != seq!['.'],
        name != seq!['.', '.'],
        dir.len() == 0 || dir.last() == '/',
    ensures
        directory_and_name(dir + name) == Some((dir, name)),
        directory_and_name((dir + name).push('/')) == Some((dir, name)),
        directory_and_name((dir + name).push('/').push('.')) == Some((dir, name)),
{
    reveal_strlit(".");
    reveal_strlit("..");
    assert("."@ =~= seq!['.']);
    assert(".."@ =~= seq!['.', '.']);
    let p = dir + name;
    lemma_last_part_is(dir, name);
    assert(p.skip(dir.len() as int) =~= name);
    assert(p.take(dir.len() as int) =~= dir);
    assert(p.last() == name.last());
    assert(name.contains(name.last()));
    assert(without_last_slashes(p) == p);
    assert(without_last_dots(p) == p);
    let q = p.push('/');
    assert(q.drop_last() =~= p);
    assert(without_last_slashes(q) == without_last_slashes(p));
    assert(without_last_dots(q) == p);
    let r = q.push('.');
    assert(r.last() == '.');
    assert(without_last_slashes(r) == r);
    let dot = seq!['.'];
    assert(!dot.contains('/'));
    lemma_last_part_is(q, dot);
    assert(q + dot =~= r);
    assert(r.skip(q.len() as int) =~= dot);
    assert(r.take(q.len() as int) =~= q);
    assert(without_last_dots(r) == without_last_dots(q));
}

proof fn lemma_walked_push(parts: Seq<Seq<char>>, part: Seq<char>)
    ensures
        walked(parts.push(part)) == (if part.len() == 0 || part == "."@ {
            walked(parts)
        } else if part == ".."@ {
            if walked(parts).len() > 0 {
                walked(parts).drop_last()
            } else {
                walked(parts)
            }
        } else {
            walked(parts).push(part)
        }),
{
    assert(parts.push(part).drop_last() =~= parts);
}

/// A path that goes nowhere, or into a directory and out of it again, points
/// where it did: `.`, empty parts and `name/..` change nothing, and one name more
/// is one name more.
pub proof fn law_normalized_takes_steps_back(p: Seq<char>, name: Seq<char>)
    requires
        p.len() > 0,
        name.len() > 0,
        !name.contains('/'),
        name != seq!['.'],
        name != seq!['.', '.'],
    ensures
        normalized(p.push('/')) == normalized(p),
        normalized(p + seq!['/', '.']) == normalized(p),
        normalized(p.push('/') + name + seq!['/', '.', '.']) == normalized(p),
        walked(split_on(p.push('/') + name, '/')) == walked(split_on(p, '/')).push(name),
{
    reveal_strlit(".");
    reveal_strlit("..");
    let dot = seq!['.'];
    let dots = seq!['.', '.'];
    let none = Seq::<char>::empty();
    assert("."@ =~= dot);
    assert(".."@ =~= dots);
    assert(!dot.contains('/') && !dots.contains('/') && !none.contains('/'));
    let parts = split_on(p, '/');
    lemma_split_on_push(p, none, '/');
    assert(p.push('/') + none =~= p.push('/'));
    lemma_walked_push(parts, none);
    lemma_split_on_push(p, dot, '/');
    assert(p.push('/') + dot =~= p + seq!['/', '.']);
    lemma_walked_push(parts, dot);
    let q = p.push('/') + name;
    lemma_split_on_push(p, name, '/');
    lemma_walked_push(parts, name);
    lemma_split_on_push(q, dots, '/');
    assert(q.push('/') + dots =~= q + seq!['/', '.', '.']);
    lemma_walked_push(parts.push(name), dots);
    assert(walked(parts).push(name).drop_last() =~= walked(parts));
}

/// Walking up from the root stays there.
pub proof fn law_root_has_nothing_above(p: Seq<char>)
    requires
        p.len() > 0,
        walked(split_on(p, '/')).len() == 0,
    ensures
        walked(split_on(p + seq!['/', '.', '.'], '/')).len() == 0,
{
    reveal_strlit(".");
    reveal_strlit("..");
    let dots = seq!['.', '.'];
    assert(".."@ =~= dots);
    assert(!dots.contains('/'));
    lemma_split_on_push(p, dots, '/');
    assert(p.push('/') + dots =~= p + seq!['/', '.', '.']);
    lemma_walked_push(split_on(p, '/'), dots);
}

proof fn lemma_counted_add(x: Seq<Seq<char>>, y: Seq<Seq<char>>, rooted: bool)
    requires
        x.len() > 0,
    ensures
        counted(x + y, rooted) == counted(x, rooted) + counted(y, true),
    decreases y.len(),
{
    if y.len() == 0 {
        assert(x + y =~= x);
        assert(counted(x, rooted) + counted(y, true) =~= counted(x, rooted));
    } else {
        lemma_counted_add(x, y.drop_last(), rooted);
        assert((x + y).drop_last() =~= x + y.drop_last());
        assert(counted(x + y, rooted) =~= counted(x, rooted) + counted(y, true));
    }
}

/// However often a slash is written, and wherever a dot stands behind one, the
/// path is the same; one more name, or a step up, makes another.
pub proof fn law_slashes_and_dots_do_not_count(a: Seq<char>, b: Seq<char>, name: Seq<char>)
    requires
        a.len() > 0,
        name.len() > 0,
        !name.contains('/'),
        name != seq!['.'],
    ensures
        same_path(a + seq!['/'] + b, a + seq!['/', '/'] + b, false),
        same_path(a + seq!['/'] + b, a + seq!['/', '.', '/'] + b, false),
        same_path(a.push('/'), a, false),
        !same_path(a + seq!['/'] + name, a, false),
{
    reveal_strlit(".");
    let none = Seq::<char>::empty();
    let dot = seq!['.'];
    assert("."@ =~= dot);
    let rooted = a[0] == '/';
    let x = split_on(a, '/');
    lemma_split_parts(a, '/');
    lemma_split_on_one(none, '/');
    assert(!dot.contains('/'));
    lemma_split_on_one(dot, '/');
    let y = split_on(b, '/');
    let one = a + seq!['/'] + b;
    assert(one =~= a.push('/') + b);
    lemma_split_on_add(a, b, '/');
    lemma_counted_add(x, y, rooted);
    let two = a + seq!['/', '/'] + b;
    let later = none.push('/') + b;
    assert(two =~= a.push('/') + later);
    lemma_split_on_add(a, later, '/');
    lemma_split_on_add(none, b, '/');
    let skipped = seq![none] + y;
    lemma_counted_add(x, skipped, rooted);
    lemma_counted_add(seq![none], y, true);
    assert(seq![none].drop_last() =~= Seq::<Seq<char>>::empty());
    reveal_with_fuel(counted, 2);
    assert(counted(seq![none], true) =~= Seq::<Seq<char>>::empty());
    assert(counted(skipped, true) =~= counted(y, true));
    assert(two[0] == a[0] && one[0] == a[0]);
    let three = a + seq!['/', '.', '/'] + b;
    let dotted = dot.push('/') + b;
    assert(three =~= a.push('/') + dotted);
    lemma_split_on_add(a, dotted, '/');
    lemma_split_on_add(dot, b, '/');
    let with_dot = seq![dot] + y;
    lemma_counted_add(x, with_dot, rooted);
    lemma_counted_add(seq![dot], y, true);
    assert(seq![dot].drop_last() =~= Seq::<Seq<char>>::empty());
    assert(counted(seq![dot], true) =~= Seq::<Seq<char>>::empty());
    assert(counted(with_dot, true) =~= counted(y, true));
    assert(three[0] == a[0]);
    let ended = a.push('/');
    assert(ended =~= a.push('/') + none);
    lemma_split_on_add(a, none, '/');
    lemma_counted_add(x, seq![none], rooted);
    assert(counted(x, rooted) + Seq::<Seq<char>>::empty() =~= counted(x, rooted));
    assert(ended[0] == a[0]);
    let more = a + seq!['/'] + name;
    assert(more =~= a.push('/') + name);
    lemma_split_on_add(a, name, '/');
    lemma_split_on_one(name, '/');
    lemma_counted_add(x, seq![name], rooted);
    assert(seq![name].drop_last() =~= Seq::<Seq<char>>::empty());
    assert(counted(seq![name], true).len() == 1);
    assert(more[0] == a[0]);
    assert(components(more, false).parts.len() == components(a, false).parts.len() + 1);
}

/// A name is put below a directory with one slash between the two; an absolute
/// one stands for itself.
pub proof fn law_joined_path_is_below(base: Seq<char>, name: Seq<char>)
    requires
        base.len() > 0,
        name.len() > 0,
    ensures
        name[0] == '/' ==> joined_path(base, name) == name,
        name[0] != '/' && base.last() != '/' ==> joined_path(base, name) == base + seq!['/'] + name,
        name[0] != '/' && base.last() == '/' ==> joined_path(base, name) == base + name,
{
    reveal_strlit("/");
    assert("/"@ =~= seq!['/']);
}

/// A tilde stands for the home directory where it is a whole part of the path,
/// and nowhere else.
pub proof fn law_tilde_is_the_home_directory(home: Seq<char>, rest: Seq<char>, windows: bool)
    ensures
        tilde_text(seq!['~'], Some(home), windows) == home,
        tilde_text(seq!['~', '/'] + rest, Some(home), windows) == home + seq!['/'] + rest,
        rest.len() > 0 && rest[0] != '/' && rest[0] != '\\' ==> tilde_text(
            seq!['~'] + rest,
            Some(home),
            windows,
        ) == seq!['~'] + rest,
        rest.len() > 0 && rest[0] != '~' ==> tilde_text(rest, Some(home), windows) == rest,
{
    assert(seq!['~'].skip(1) =~= Seq::<char>::empty());
    assert(home + Seq::<char>::empty() =~= home);
    let p = seq!['~', '/'] + rest;
    assert(p.skip(1) =~= seq!['/'] + rest);
    assert(home + (seq!['/'] + rest) =~= home + seq!['/'] + rest);
    if rest.len() > 0 {
        assert((seq!['~'] + rest)[1] == rest[0]);
    }
}

/// A path is absolute where it begins with a slash; on Windows it takes a drive
/// and a separator behind it, and a separator alone or a drive alone is not
/// enough.
pub proof fn law_absolute_paths(rest: Seq<char>, drive: char, sep: char)
    requires
        sep == '/' || sep == '\\',
        'a' <= drive <= 'z' || 'A' <= drive <= 'Z',
    ensures
        absolute(seq!['/'] + rest, false),
        rest.len() == 0 || rest[0] != '/' ==> !absolute(rest, false),
        absolute(seq![drive, ':', sep] + rest, true),
        rest.len() == 0 || rest[0] != '/' && rest[0] != '\\' ==> !absolute(
            seq![drive, ':'] + rest,
            true,
        ),
        rest.len() == 0 || rest[0] != '/' && rest[0] != '\\' ==> !absolute(seq![sep] + rest, true),
{
    let p = seq![drive, ':', sep] + rest;
    assert(p[0] == drive && p[1] == ':' && p[2] == sep);
    let q = seq![drive, ':'] + rest;
    assert(q[0] == drive && q[1] == ':');
    if rest.len() > 0 {
        assert(q[2] == rest[0]);
        assert((seq![sep] + rest)[1] == rest[0]);
    }
}

/// In the form that paths are compared in there is no backslash, every other
/// character stays what it is, and a path without backslashes stays as it is.
pub proof fn law_backslashes_become_slashes(p: Seq<char>)
    ensures
        with_slashes(p).len() == p.len(),
        !with_slashes(p).contains('\\'),
        !slashed_text(p).contains('\\'),
        forall|i: int|
            0 <= i < p.len() ==> (#[trigger] with_slashes(p)[i] == '/' <==> p[i] == '/' || p[i]
                == '\\'),
        forall|i: int|
            0 <= i < p.len() && p[i] != '\\' ==> #[trigger] with_slashes(p)[i] == p[i],
        !p.contains('\\') && (p.len() < 2 || p[1] != '/') ==> slashed_text(p) == p,
{
    reveal_strlit("//?/");
    let s = with_slashes(p);
    if !p.contains('\\') {
        assert forall|i: int| 0 <= i < p.len() implies s[i] == p[i] by {
            assert(p.contains(p[i]));
        }
        assert(s =~= p);
        if s.len() >= 4 && s.take(4) == "//?/"@ {
            assert(s.take(4)[1] == '/');
        }
    }
}

/// Slashes at the end of a path do not count, and nothing but those is dropped.
pub proof fn law_last_slashes_do_not_count(p: Seq<char>)
    ensures
        without_last_slashes(p.push('/')) == without_last_slashes(p),
        without_last_slashes(p).len() == 0 || without_last_slashes(p).last() != '/',
        without_last_slashes(p).is_prefix_of(p),
        forall|i: int| without_last_slashes(p).len() <= i < p.len() ==> #[trigger] p[i] == '/',
    decreases p.len(),
{
    assert(p.push('/').drop_last() =~= p);
    if p.len() > 0 && p.last() == '/' {
        law_last_slashes_do_not_count(p.drop_last());
        let w = without_last_slashes(p);
        assert forall|i: int| w.len() <= i < p.len() implies #[trigger] p[i] == '/' by {
            if i < p.len() - 1 {
                assert(p.drop_last()[i] == '/');
            }
        }
    }
}

} // verus!

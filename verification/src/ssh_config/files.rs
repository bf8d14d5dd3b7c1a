//! Reading a config with the files that it includes.
//!
//! Nothing here touches the disk. What is known of the disk is handed in; where
//! something else has to be known, the reading says what, and is done again once
//! it is.

use vstd::prelude::*;
use vstd::string::*;

use crate::paths::{
    absolute, distinct_paths, holds_path, is_absolute, join_local, joined_local,
    law_directory_and_name_make_the_path, lists_path, local_directory, machine_path, machine_text,
    same_path, split_local,
};
use crate::ssh_config::{
    after_line, after_lines, flushed, glob, glob_match, key_value, law_comment_ends_the_line,
    law_line_is_keyword_and_value, law_tokens_are_between_spaces, lemma_after_lines_add, opening,
    opt_view, parsed, split_kv, split_tokens, strip_comment, tokens_of, uncommented, BlockView,
    Parser, ParserView, SshConfig,
};
use crate::text::{
    chars_of, has_char, has_prefix, is_space, law_white_space, lemma_lines_add, lemma_until_is,
    lemma_views_push, lines, lines_of, lower, same, sort_strings, sorted_of, starts_with,
    string_of, to_lower, views, without_cr,
};

verus! {

/// Include recursion cap. OpenSSH uses 16; 8 is more than any real config
/// needs and keeps a pathological tree cheap.
pub const MAX_INCLUDE_DEPTH: usize = 8;

/// Safety valve for the include fan-out, so a directory of thousands of
/// globbed files can't stall startup.
pub const MAX_INCLUDE_FILES: usize = 256;

// ---------------------------------------------------------------------------
// What is known of the disk
// ---------------------------------------------------------------------------

/// What is known of a path.
#[derive(Debug, Clone)]
pub struct FileInfo {
    pub path: String,
    /// The path without links; the path itself where it cannot be resolved.
    pub canon: String,
    pub is_file: bool,
    /// Nothing where it cannot be read.
    pub text: Option<String>,
}

#[verifier::ext_equal]
pub struct FileView {
    pub path: Seq<char>,
    pub canon: Seq<char>,
    pub is_file: bool,
    pub text: Option<Seq<char>>,
}

impl View for FileInfo {
    type V = FileView;

    open spec fn view(&self) -> FileView {
        FileView {
            path: self.path@,
            canon: self.canon@,
            is_file: self.is_file,
            text: opt_view(self.text),
        }
    }
}

/// An entry of a directory.
#[derive(Debug, Clone)]
pub struct DirName {
    pub name: String,
    pub is_file: bool,
}

/// What is known of a directory. One that cannot be read has no entries.
#[derive(Debug, Clone)]
pub struct DirInfo {
    pub path: String,
    pub entries: Vec<DirName>,
}

#[verifier::ext_equal]
pub struct DirView {
    pub path: Seq<char>,
    pub entries: Seq<(Seq<char>, bool)>,
}

impl View for DirInfo {
    type V = DirView;

    open spec fn view(&self) -> DirView {
        DirView { path: self.path@, entries: name_views(self.entries@) }
    }
}

pub open spec fn name_views(s: Seq<DirName>) -> Seq<(Seq<char>, bool)> {
    Seq::new(s.len(), |i: int| (s[i].name@, s[i].is_file))
}

/// What is known of the disk.
#[derive(Debug)]
pub struct KnownFiles {
    pub files: Vec<FileInfo>,
    pub dirs: Vec<DirInfo>,
    pub home: Option<String>,
    pub windows: bool,
}

#[verifier::ext_equal]
pub struct KnownView {
    pub files: Seq<FileView>,
    pub dirs: Seq<DirView>,
    pub home: Option<Seq<char>>,
    pub windows: bool,
}

impl View for KnownFiles {
    type V = KnownView;

    open spec fn view(&self) -> KnownView {
        KnownView {
            files: Seq::new(self.files@.len(), |i: int| self.files@[i]@),
            dirs: Seq::new(self.dirs@.len(), |i: int| self.dirs@[i]@),
            home: opt_view(self.home),
            windows: self.windows,
        }
    }
}

pub open spec fn find_file(files: Seq<FileView>, path: Seq<char>) -> Option<FileView>
    decreases files.len(),
{
    if files.len() == 0 {
        None
    } else if files[0].path == path {
        Some(files[0])
    } else {
        find_file(files.skip(1), path)
    }
}

pub open spec fn find_dir(dirs: Seq<DirView>, path: Seq<char>) -> Option<DirView>
    decreases dirs.len(),
{
    if dirs.len() == 0 {
        None
    } else if dirs[0].path == path {
        Some(dirs[0])
    } else {
        find_dir(dirs.skip(1), path)
    }
}

impl KnownFiles {
    fn file(&self, path: &str) -> (r: Option<&FileInfo>)
        ensures
            match r {
                Some(f) => find_file(self@.files, path@) == Some(f@),
                None => find_file(self@.files, path@) is None,
            },
    {
        let ghost all = self@.files;
        let mut i: usize = 0;
        assert(all.skip(0) =~= all);
        while i < self.files.len()
            invariant
                i <= self.files@.len(),
                all == self@.files,
                find_file(all.skip(i as int), path@) == find_file(all, path@),
            decreases self.files@.len() - i,
        {
            proof {
                assert(all.skip(i as int)[0] == self.files@[i as int]@);
                assert(all.skip(i as int).skip(1) =~= all.skip(i + 1));
            }
            if same(self.files[i].path.as_str(), path) {
                return Some(&self.files[i]);
            }
            i = i + 1;
        }
        None
    }

    fn dir(&self, path: &str) -> (r: Option<&DirInfo>)
        ensures
            match r {
                Some(d) => find_dir(self@.dirs, path@) == Some(d@),
                None => find_dir(self@.dirs, path@) is None,
            },
    {
        let ghost all = self@.dirs;
        let mut i: usize = 0;
        assert(all.skip(0) =~= all);
        while i < self.dirs.len()
            invariant
                i <= self.dirs@.len(),
                all == self@.dirs,
                find_dir(all.skip(i as int), path@) == find_dir(all, path@),
            decreases self.dirs@.len() - i,
        {
            proof {
                assert(all.skip(i as int)[0] == self.dirs@[i as int]@);
                assert(all.skip(i as int).skip(1) =~= all.skip(i + 1));
            }
            if same(self.dirs[i].path.as_str(), path) {
                return Some(&self.dirs[i]);
            }
            i = i + 1;
        }
        None
    }
}

/// What has to be known before the reading can go on.
#[derive(Debug, Clone)]
pub enum Need {
    File(String),
    Dir(String),
}

pub enum NeedView {
    File(Seq<char>),
    Dir(Seq<char>),
}

impl View for Need {
    type V = NeedView;

    open spec fn view(&self) -> NeedView {
        match self {
            Need::File(p) => NeedView::File(p@),
            Need::Dir(p) => NeedView::Dir(p@),
        }
    }
}

// ---------------------------------------------------------------------------
// What a token stands for
// ---------------------------------------------------------------------------

/// A token with `~` replaced by the home directory.
pub open spec fn at_home(tok: Seq<char>, home: Option<Seq<char>>, windows: bool) -> Seq<char> {
    match home {
        None => tok,
        Some(h) => if tok == "~"@ {
            h
        } else if has_prefix(tok, "~/"@) || has_prefix(tok, "~\\"@) {
            joined_local(h, tok.skip(2), windows)
        } else {
            tok
        },
    }
}

fn expand_tilde(tok: &str, home: &Option<String>, windows: bool) -> (r: String)
    ensures
        r@ == at_home(tok@, opt_view(*home), windows),
{
    match home {
        None => tok.to_owned(),
        Some(h) => {
            if same(tok, "~") {
                return h.clone();
            }
            if starts_with(tok, "~/") || starts_with(tok, "~\\") {
                proof {
                    reveal_strlit("~/");
                    reveal_strlit("~\\");
                }
                let v = chars_of(tok);
                let rest = string_of(&v, 2, v.len());
                assert(rest@ =~= tok@.skip(2));
                return join_local(h.as_str(), rest.as_str(), windows);
            }
            tok.to_owned()
        },
    }
}

/// The paths that a token may stand for: absolute as written, relative against
/// the containing file's directory and against `~/.ssh/`. On Windows they are
/// written with `/`.
pub open spec fn candidates_of(
    tok: Seq<char>,
    dir: Option<Seq<char>>,
    home: Option<Seq<char>>,
    windows: bool,
) -> Seq<Seq<char>> {
    let home = match home {
        Some(h) => Some(machine_text(h, windows)),
        None => None,
    };
    let p = at_home(machine_text(tok, windows), home, windows);
    if absolute(p, windows) {
        seq![p]
    } else {
        (match dir {
            Some(d) => seq![joined_local(machine_text(d, windows), p, windows)],
            None => Seq::empty(),
        }) + (match home {
            Some(h) => seq![joined_local(joined_local(h, ".ssh"@, windows), p, windows)],
            None => Seq::empty(),
        })
    }
}

fn candidates(tok: &str, dir: &Option<String>, known: &KnownFiles) -> (r: Vec<String>)
    ensures
        views(r@) == candidates_of(tok@, opt_view(*dir), known@.home, known@.windows),
{
    let home = match &known.home {
        Some(h) => Some(machine_path(h.as_str(), known.windows)),
        None => None,
    };
    let token = machine_path(tok, known.windows);
    let p = expand_tilde(token.as_str(), &home, known.windows);
    let mut out: Vec<String> = Vec::new();
    if is_absolute(p.as_str(), known.windows) {
        out.push(p);
        assert(views(out@) =~= candidates_of(tok@, opt_view(*dir), known@.home, known@.windows));
        return out;
    }
    if let Some(d) = dir {
        let d = machine_path(d.as_str(), known.windows);
        out.push(join_local(d.as_str(), p.as_str(), known.windows));
    }
    if let Some(h) = &home {
        let base = join_local(h.as_str(), ".ssh", known.windows);
        out.push(join_local(base.as_str(), p.as_str(), known.windows));
    }
    assert(views(out@) =~= candidates_of(tok@, opt_view(*dir), known@.home, known@.windows));
    out
}

/// The files of a directory that a pattern stands for. Dotfiles never match a
/// glob, same as a shell.
pub open spec fn globbed(entries: Seq<(Seq<char>, bool)>, pattern: Seq<char>) -> Seq<Seq<char>>
    decreases entries.len(),
{
    if entries.len() == 0 {
        Seq::empty()
    } else {
        let before = globbed(entries.drop_last(), pattern);
        let (name, is_file) = entries.last();
        if is_file && !has_prefix(name, "."@) && glob(pattern, name) {
            before.push(name)
        } else {
            before
        }
    }
}

pub open spec fn is_glob(name: Seq<char>) -> bool {
    name.contains('*') || name.contains('?')
}

pub open spec fn below(dir: Seq<char>, names: Seq<Seq<char>>, windows: bool) -> Seq<Seq<char>> {
    Seq::new(names.len(), |i: int| joined_local(dir, names[i], windows))
}

/// The files that a path stands for: `*` and `?` in its last part are globbed,
/// anything else is the path itself where it is a file. What a directory holds
/// is sorted, so includes are stable.
pub open spec fn files_of(path: Seq<char>, known: KnownView) -> core::result::Result<
    Seq<Seq<char>>,
    NeedView,
> {
    match local_directory(path, known.windows) {
        None => Ok(Seq::empty()),
        Some((dir, name)) => if is_glob(name) {
            let d = if dir.len() == 0 {
                "."@
            } else {
                dir
            };
            match find_dir(known.dirs, d) {
                None => Err(NeedView::Dir(d)),
                Some(info) => Ok(
                    below(d, sorted_of(globbed(info.entries, name)), known.windows),
                ),
            }
        } else {
            match find_file(known.files, path) {
                None => Err(NeedView::File(path)),
                Some(f) => Ok(
                    if f.is_file {
                        seq![path]
                    } else {
                        Seq::empty()
                    },
                ),
            }
        },
    }
}

fn select(entries: &Vec<DirName>, pattern: &str) -> (r: Vec<String>)
    ensures
        views(r@) == globbed(name_views(entries@), pattern@),
{
    let ghost all = name_views(entries@);
    let mut out: Vec<String> = Vec::new();
    let mut i: usize = 0;
    assert(views(out@) =~= globbed(all.take(0), pattern@));
    while i < entries.len()
        invariant
            i <= entries@.len(),
            all == name_views(entries@),
            views(out@) == globbed(all.take(i as int), pattern@),
        decreases entries@.len() - i,
    {
        proof {
            assert(all.take(i + 1).drop_last() =~= all.take(i as int));
            assert(all.take(i + 1).last() == all[i as int]);
        }
        let name = entries[i].name.as_str();
        if entries[i].is_file && !starts_with(name, ".") && glob_match(pattern, name) {
            let found = name.to_owned();
            proof {
                lemma_views_push(out@, found);
            }
            out.push(found);
        }
        i = i + 1;
    }
    assert(all.take(i as int) =~= all);
    out
}

/// Expands `*`/`?` in the final component of `path`. Anything else is returned
/// as-is when it exists as a file.
fn expand_glob(path: &str, known: &KnownFiles) -> (r: core::result::Result<Vec<String>, Need>)
    ensures
        match r {
            Ok(v) => files_of(path@, known@) == core::result::Result::<
                Seq<Seq<char>>,
                NeedView,
            >::Ok(views(v@)),
            Err(n) => files_of(path@, known@) == core::result::Result::<
                Seq<Seq<char>>,
                NeedView,
            >::Err(n@),
        },
{
    let mut out: Vec<String> = Vec::new();
    match split_local(path, known.windows) {
        None => {
            assert(views(out@) =~= Seq::empty());
            Ok(out)
        },
        Some((dir, name)) => {
            if has_char(name.as_str(), '*') || has_char(name.as_str(), '?') {
                let d = if dir.as_str().is_empty() {
                    ".".to_owned()
                } else {
                    dir
                };
                match known.dir(d.as_str()) {
                    None => Err(Need::Dir(d)),
                    Some(info) => {
                        let names = sort_strings(select(&info.entries, name.as_str()));
                        let ghost ns = views(names@);
                        let mut i: usize = 0;
                        while i < names.len()
                            invariant
                                i <= names@.len(),
                                ns == views(names@),
                                views(out@) == below(d@, ns, known.windows).take(i as int),
                            decreases names@.len() - i,
                        {
                            let p = join_local(d.as_str(), names[i].as_str(), known.windows);
                            proof {
                                lemma_views_push(out@, p);
                                assert(below(d@, ns, known.windows).take(i + 1) =~= below(
                                    d@,
                                    ns,
                                    known.windows,
                                ).take(i as int).push(p@));
                            }
                            out.push(p);
                            i = i + 1;
                        }
                        assert(views(out@) =~= below(d@, ns, known.windows));
                        Ok(out)
                    },
                }
            } else {
                match known.file(path) {
                    None => Err(Need::File(path.to_owned())),
                    Some(f) => {
                        if f.is_file {
                            out.push(path.to_owned());
                            assert(views(out@) =~= seq![path@]);
                        } else {
                            assert(views(out@) =~= Seq::empty());
                        }
                        Ok(out)
                    },
                }
            }
        },
    }
}

/// The files that several paths stand for, in order.
pub open spec fn all_files_of(paths: Seq<Seq<char>>, known: KnownView) -> core::result::Result<
    Seq<Seq<char>>,
    NeedView,
>
    decreases paths.len(),
{
    if paths.len() == 0 {
        Ok(Seq::empty())
    } else {
        match all_files_of(paths.drop_last(), known) {
            Err(n) => Err(n),
            Ok(before) => match files_of(paths.last(), known) {
                Err(n) => Err(n),
                Ok(more) => Ok(before + more),
            },
        }
    }
}

/// The files that a token stands for.
pub open spec fn resolved(tok: Seq<char>, dir: Option<Seq<char>>, known: KnownView) -> core::result::Result<
    Seq<Seq<char>>,
    NeedView,
> {
    all_files_of(candidates_of(tok, dir, known.home, known.windows), known)
}

proof fn lemma_need_stays(paths: Seq<Seq<char>>, known: KnownView, i: int)
    requires
        0 <= i <= paths.len(),
        all_files_of(paths.take(i), known) is Err,
    ensures
        all_files_of(paths, known) == all_files_of(paths.take(i), known),
    decreases paths.len() - i,
{
    if i < paths.len() {
        assert(paths.take(i + 1).drop_last() =~= paths.take(i));
        lemma_need_stays(paths, known, i + 1);
    } else {
        assert(paths.take(i) =~= paths);
    }
}

/// Resolves one `Include` token to concrete files: absolute as written,
/// relative against the containing file's directory then against `~/.ssh/`,
/// with `*`/`?` globbing on the final path component only.
fn resolve_include(tok: &str, dir: &Option<String>, known: &KnownFiles) -> (r: core::result::Result<
    Vec<String>,
    Need,
>)
    ensures
        match r {
            Ok(v) => resolved(tok@, opt_view(*dir), known@) == core::result::Result::<
                Seq<Seq<char>>,
                NeedView,
            >::Ok(views(v@)),
            Err(n) => resolved(tok@, opt_view(*dir), known@) == core::result::Result::<
                Seq<Seq<char>>,
                NeedView,
            >::Err(n@),
        },
{
    let paths = candidates(tok, dir, known);
    let ghost all = views(paths@);
    let mut out: Vec<String> = Vec::new();
    let mut i: usize = 0;
    assert(views(out@) =~= Seq::empty());
    assert(all.take(0) =~= Seq::empty());
    while i < paths.len()
        invariant
            i <= paths@.len(),
            all == views(paths@),
            all == candidates_of(tok@, opt_view(*dir), known@.home, known@.windows),
            all_files_of(all.take(i as int), known@) == core::result::Result::<
                Seq<Seq<char>>,
                NeedView,
            >::Ok(views(out@)),
        decreases paths@.len() - i,
    {
        proof {
            assert(all.take(i + 1).drop_last() =~= all.take(i as int));
            assert(all.take(i + 1).last() == paths@[i as int]@);
        }
        match expand_glob(paths[i].as_str(), known) {
            Err(n) => {
                proof {
                    lemma_need_stays(all, known@, i + 1);
                }
                return Err(n);
            },
            Ok(more) => {
                let ghost before = views(out@);
                let ghost ms = views(more@);
                let mut k: usize = 0;
                assert(before + ms.take(0) =~= before);
                while k < more.len()
                    invariant
                        k <= more@.len(),
                        ms == views(more@),
                        views(out@) == before + ms.take(k as int),
                    decreases more@.len() - k,
                {
                    let p = more[k].clone();
                    proof {
                        lemma_views_push(out@, p);
                        assert(ms.take(k + 1) =~= ms.take(k as int).push(p@));
                        assert((before + ms.take(k as int)).push(p@) =~= before + ms.take(k + 1));
                    }
                    out.push(p);
                    k = k + 1;
                }
                assert(ms.take(k as int) =~= ms);
            },
        }
        i = i + 1;
    }
    assert(all.take(i as int) =~= all);
    Ok(out)
}

// ---------------------------------------------------------------------------
// Reading
// ---------------------------------------------------------------------------

/// How far a reading has come.
#[verifier::ext_equal]
pub struct ReadView {
    pub parser: ParserView,
    /// The files that were read, without links, so an include cycle ends.
    pub visited: Seq<Seq<char>>,
    pub included: nat,
}

/// What an `Include` line names; nothing for any other line.
pub open spec fn include_value(raw: Seq<char>) -> Option<Seq<char>> {
    match key_value(uncommented(raw)) {
        Some((kw, value)) => if lower(kw) == "include"@ {
            Some(value)
        } else {
            None
        },
        None => None,
    }
}

/// The directory that holds a file.
pub open spec fn directory_of(path: Seq<char>, windows: bool) -> Option<Seq<char>> {
    match local_directory(machine_text(path, windows), windows) {
        Some((dir, _)) => Some(dir),
        None => None,
    }
}

/// What lines do, with what they include spliced in where they stand.
pub open spec fn read_lines(
    s: ReadView,
    known: KnownView,
    ls: Seq<Seq<char>>,
    dir: Option<Seq<char>>,
    depth: nat,
) -> core::result::Result<ReadView, NeedView>
    decreases MAX_INCLUDE_DEPTH - depth, 2int, ls.len(),
{
    if ls.len() == 0 {
        Ok(s)
    } else {
        match read_lines(s, known, ls.drop_last(), dir, depth) {
            Err(n) => Err(n),
            Ok(t) => match include_value(ls.last()) {
                None => Ok(ReadView { parser: after_line(t.parser, ls.last()), ..t }),
                Some(value) => if depth >= MAX_INCLUDE_DEPTH {
                    Ok(t)
                } else {
                    read_tokens(t, known, tokens_of(value), dir, depth)
                },
            },
        }
    }
}

/// What the tokens of an `Include` line do.
pub open spec fn read_tokens(
    s: ReadView,
    known: KnownView,
    tokens: Seq<Seq<char>>,
    dir: Option<Seq<char>>,
    depth: nat,
) -> core::result::Result<ReadView, NeedView>
    decreases MAX_INCLUDE_DEPTH - depth, 1int, tokens.len(),
{
    if tokens.len() == 0 || depth >= MAX_INCLUDE_DEPTH {
        Ok(s)
    } else {
        match read_tokens(s, known, tokens.drop_last(), dir, depth) {
            Err(n) => Err(n),
            Ok(t) => match resolved(tokens.last(), dir, known) {
                Err(n) => Err(n),
                Ok(paths) => read_paths(t, known, paths, depth),
            },
        }
    }
}

/// What included files do. Each is read once, and no more than so many.
pub open spec fn read_paths(
    s: ReadView,
    known: KnownView,
    paths: Seq<Seq<char>>,
    depth: nat,
) -> core::result::Result<ReadView, NeedView>
    decreases MAX_INCLUDE_DEPTH - depth, 0int, paths.len(),
{
    if paths.len() == 0 || depth >= MAX_INCLUDE_DEPTH {
        Ok(s)
    } else {
        match read_paths(s, known, paths.drop_last(), depth) {
            Err(n) => Err(n),
            Ok(t) => if t.included >= MAX_INCLUDE_FILES {
                Ok(t)
            } else {
                match find_file(known.files, paths.last()) {
                    None => Err(NeedView::File(paths.last())),
                    Some(f) => if holds_path(t.visited, f.canon, known.windows) {
                        Ok(t)
                    } else {
                        let seen = ReadView { visited: t.visited.push(f.canon), ..t };
                        match f.text {
                            None => Ok(seen),
                            Some(text) => read_lines(
                                ReadView { included: t.included + 1, ..seen },
                                known,
                                lines_of(text),
                                directory_of(paths.last(), known.windows),
                                depth + 1,
                            ),
                        }
                    },
                }
            },
        }
    }
}

/// The blocks that a file describes, with the files that it includes.
pub open spec fn parsed_file(
    path: Seq<char>,
    canon: Seq<char>,
    text: Seq<char>,
    known: KnownView,
) -> core::result::Result<Seq<BlockView>, NeedView> {
    match read_lines(
        ReadView { parser: opening(), visited: seq![canon], included: 0 },
        known,
        lines_of(text),
        directory_of(path, known.windows),
        0,
    ) {
        Err(n) => Err(n),
        Ok(t) => Ok(flushed(t.parser)),
    }
}

struct Reader {
    parser: Parser,
    visited: Vec<String>,
    included: usize,
}

impl View for Reader {
    type V = ReadView;

    closed spec fn view(&self) -> ReadView {
        ReadView {
            parser: self.parser@,
            visited: views(self.visited@),
            included: self.included as nat,
        }
    }
}

proof fn lemma_lines_need(
    s: ReadView,
    known: KnownView,
    ls: Seq<Seq<char>>,
    dir: Option<Seq<char>>,
    depth: nat,
    i: int,
)
    requires
        0 <= i <= ls.len(),
        read_lines(s, known, ls.take(i), dir, depth) is Err,
    ensures
        read_lines(s, known, ls, dir, depth) == read_lines(s, known, ls.take(i), dir, depth),
    decreases ls.len() - i,
{
    if i < ls.len() {
        assert(ls.take(i + 1).drop_last() =~= ls.take(i));
        lemma_lines_need(s, known, ls, dir, depth, i + 1);
    } else {
        assert(ls.take(i) =~= ls);
    }
}

proof fn lemma_tokens_need(
    s: ReadView,
    known: KnownView,
    tokens: Seq<Seq<char>>,
    dir: Option<Seq<char>>,
    depth: nat,
    i: int,
)
    requires
        0 <= i <= tokens.len(),
        depth < MAX_INCLUDE_DEPTH,
        read_tokens(s, known, tokens.take(i), dir, depth) is Err,
    ensures
        read_tokens(s, known, tokens, dir, depth) == read_tokens(
            s,
            known,
            tokens.take(i),
            dir,
            depth,
        ),
    decreases tokens.len() - i,
{
    if i < tokens.len() {
        assert(tokens.take(i + 1).drop_last() =~= tokens.take(i));
        lemma_tokens_need(s, known, tokens, dir, depth, i + 1);
    } else {
        assert(tokens.take(i) =~= tokens);
    }
}

proof fn lemma_paths_need(
    s: ReadView,
    known: KnownView,
    paths: Seq<Seq<char>>,
    depth: nat,
    i: int,
)
    requires
        0 <= i <= paths.len(),
        depth < MAX_INCLUDE_DEPTH,
        read_paths(s, known, paths.take(i), depth) is Err,
    ensures
        read_paths(s, known, paths, depth) == read_paths(s, known, paths.take(i), depth),
    decreases paths.len() - i,
{
    if i < paths.len() {
        assert(paths.take(i + 1).drop_last() =~= paths.take(i));
        lemma_paths_need(s, known, paths, depth, i + 1);
    } else {
        assert(paths.take(i) =~= paths);
    }
}

fn included_in(raw: &str) -> (r: Option<String>)
    ensures
        opt_view(r) == include_value(raw@),
{
    let line = strip_comment(raw);
    match split_kv(line.as_str()) {
        None => None,
        Some((kw, value)) => {
            let key = to_lower(kw.as_str());
            if same(key.as_str(), "include") {
                Some(value)
            } else {
                None
            }
        },
    }
}

fn parent_of(path: &str, windows: bool) -> (r: Option<String>)
    ensures
        opt_view(r) == directory_of(path@, windows),
{
    let p = machine_path(path, windows);
    match split_local(p.as_str(), windows) {
        Some((dir, _)) => Some(dir),
        None => None,
    }
}

impl Reader {
    fn feed(self, known: &KnownFiles, text: &str, dir: &Option<String>, depth: usize) -> (r:
        core::result::Result<Reader, Need>)
        ensures
            match r {
                Ok(t) => read_lines(
                    self@,
                    known@,
                    lines_of(text@),
                    opt_view(*dir),
                    depth as nat,
                ) == core::result::Result::<ReadView, NeedView>::Ok(t@),
                Err(n) => read_lines(
                    self@,
                    known@,
                    lines_of(text@),
                    opt_view(*dir),
                    depth as nat,
                ) == core::result::Result::<ReadView, NeedView>::Err(n@),
            },
        decreases MAX_INCLUDE_DEPTH - depth, 2int,
    {
        let ghost start = self@;
        let ghost all = lines_of(text@);
        let ghost from = opt_view(*dir);
        let ls = lines(text);
        let mut t = self;
        let mut i: usize = 0;
        assert(all.take(0) =~= Seq::empty());
        while i < ls.len()
            invariant
                i <= ls@.len(),
                all == views(ls@),
                all == lines_of(text@),
                from == opt_view(*dir),
                start == self@,
                read_lines(start, known@, all.take(i as int), from, depth as nat)
                    == core::result::Result::<ReadView, NeedView>::Ok(t@),
            decreases ls@.len() - i,
        {
            proof {
                assert(all.take(i + 1).drop_last() =~= all.take(i as int));
                assert(all.take(i + 1).last() == ls@[i as int]@);
            }
            match included_in(ls[i].as_str()) {
                None => {
                    let ghost before = t@;
                    let Reader { parser, visited, included } = t;
                    let mut parser = parser;
                    parser.line(ls[i].as_str());
                    t = Reader { parser, visited, included };
                    assert(t@ =~= ReadView {
                        parser: after_line(before.parser, ls@[i as int]@),
                        ..before
                    });
                },
                Some(value) => {
                    if depth < MAX_INCLUDE_DEPTH {
                        match t.splice(known, value.as_str(), dir, depth) {
                            Ok(next) => {
                                t = next;
                            },
                            Err(n) => {
                                proof {
                                    lemma_lines_need(
                                        start,
                                        known@,
                                        all,
                                        from,
                                        depth as nat,
                                        i + 1,
                                    );
                                }
                                return Err(n);
                            },
                        }
                    }
                },
            }
            i = i + 1;
        }
        assert(all.take(i as int) =~= all);
        Ok(t)
    }

    fn splice(self, known: &KnownFiles, value: &str, dir: &Option<String>, depth: usize) -> (r:
        core::result::Result<Reader, Need>)
        requires
            depth < MAX_INCLUDE_DEPTH,
        ensures
            match r {
                Ok(t) => read_tokens(
                    self@,
                    known@,
                    tokens_of(value@),
                    opt_view(*dir),
                    depth as nat,
                ) == core::result::Result::<ReadView, NeedView>::Ok(t@),
                Err(n) => read_tokens(
                    self@,
                    known@,
                    tokens_of(value@),
                    opt_view(*dir),
                    depth as nat,
                ) == core::result::Result::<ReadView, NeedView>::Err(n@),
            },
        decreases MAX_INCLUDE_DEPTH - depth, 1int,
    {
        let ghost start = self@;
        let ghost from = opt_view(*dir);
        let tokens = split_tokens(value);
        let ghost all = tokens_of(value@);
        let mut t = self;
        let mut i: usize = 0;
        assert(all.take(0) =~= Seq::empty());
        while i < tokens.len()
            invariant
                i <= tokens@.len(),
                all == views(tokens@),
                all == tokens_of(value@),
                from == opt_view(*dir),
                start == self@,
                depth < MAX_INCLUDE_DEPTH,
                read_tokens(start, known@, all.take(i as int), from, depth as nat)
                    == core::result::Result::<ReadView, NeedView>::Ok(t@),
            decreases tokens@.len() - i,
        {
            proof {
                assert(all.take(i + 1).drop_last() =~= all.take(i as int));
                assert(all.take(i + 1).last() == tokens@[i as int]@);
            }
            match resolve_include(tokens[i].as_str(), dir, known) {
                Err(n) => {
                    proof {
                        lemma_tokens_need(start, known@, all, from, depth as nat, i + 1);
                    }
                    return Err(n);
                },
                Ok(paths) => match t.visit(known, &paths, depth) {
                    Ok(next) => {
                        t = next;
                    },
                    Err(n) => {
                        proof {
                            lemma_tokens_need(start, known@, all, from, depth as nat, i + 1);
                        }
                        return Err(n);
                    },
                },
            }
            i = i + 1;
        }
        assert(all.take(i as int) =~= all);
        Ok(t)
    }

    fn visit(self, known: &KnownFiles, paths: &Vec<String>, depth: usize) -> (r:
        core::result::Result<Reader, Need>)
        requires
            depth < MAX_INCLUDE_DEPTH,
        ensures
            match r {
                Ok(t) => read_paths(self@, known@, views(paths@), depth as nat)
                    == core::result::Result::<ReadView, NeedView>::Ok(t@),
                Err(n) => read_paths(self@, known@, views(paths@), depth as nat)
                    == core::result::Result::<ReadView, NeedView>::Err(n@),
            },
        decreases MAX_INCLUDE_DEPTH - depth, 0int,
    {
        let ghost start = self@;
        let ghost all = views(paths@);
        let mut t = self;
        let mut i: usize = 0;
        assert(all.take(0) =~= Seq::empty());
        while i < paths.len()
            invariant
                i <= paths@.len(),
                all == views(paths@),
                start == self@,
                depth < MAX_INCLUDE_DEPTH,
                read_paths(start, known@, all.take(i as int), depth as nat)
                    == core::result::Result::<ReadView, NeedView>::Ok(t@),
            decreases paths@.len() - i,
        {
            proof {
                assert(all.take(i + 1).drop_last() =~= all.take(i as int));
                assert(all.take(i + 1).last() == paths@[i as int]@);
            }
            let path = paths[i].as_str();
            if t.included < MAX_INCLUDE_FILES {
                match known.file(path) {
                    None => {
                        proof {
                            lemma_paths_need(start, known@, all, depth as nat, i + 1);
                        }
                        return Err(Need::File(path.to_owned()));
                    },
                    Some(f) => {
                        if !lists_path(&t.visited, f.canon.as_str(), known.windows) {
                            let ghost before = t@;
                            let Reader { parser, visited, included } = t;
                            let mut visited = visited;
                            let canon = f.canon.clone();
                            proof {
                                lemma_views_push(visited@, canon);
                            }
                            visited.push(canon);
                            match &f.text {
                                None => {
                                    t = Reader { parser, visited, included };
                                    assert(t@ =~= ReadView {
                                        visited: before.visited.push(f.canon@),
                                        ..before
                                    });
                                },
                                Some(text) => {
                                    let seen = Reader { parser, visited, included: included + 1 };
                                    assert(seen@ =~= ReadView {
                                        visited: before.visited.push(f.canon@),
                                        included: before.included + 1,
                                        ..before
                                    });
                                    let here = parent_of(path, known.windows);
                                    match seen.feed(known, text.as_str(), &here, depth + 1) {
                                        Ok(next) => {
                                            t = next;
                                        },
                                        Err(n) => {
                                            proof {
                                                lemma_paths_need(
                                                    start,
                                                    known@,
                                                    all,
                                                    depth as nat,
                                                    i + 1,
                                                );
                                            }
                                            return Err(n);
                                        },
                                    }
                                },
                            }
                        }
                    },
                }
            }
            i = i + 1;
        }
        assert(all.take(i as int) =~= all);
        Ok(t)
    }
}

impl SshConfig {
    /// Parses the config file at `path`, resolving `Include` directives
    /// relative to the containing file's directory and to `~/.ssh/`. Included
    /// files that are missing or unreadable are skipped. Where something of the
    /// disk has to be known first, it says what.
    pub fn parse_file(path: &str, canon: &str, text: &str, known: &KnownFiles) -> (r:
        core::result::Result<SshConfig, Need>)
        ensures
            match r {
                Ok(c) => parsed_file(path@, canon@, text@, known@) == core::result::Result::<
                    Seq<BlockView>,
                    NeedView,
                >::Ok(c@),
                Err(n) => parsed_file(path@, canon@, text@, known@) == core::result::Result::<
                    Seq<BlockView>,
                    NeedView,
                >::Err(n@),
            },
    {
        let mut visited: Vec<String> = Vec::new();
        visited.push(canon.to_owned());
        let reader = Reader { parser: Parser::new(), visited, included: 0 };
        assert(reader@ =~= ReadView {
            parser: opening(),
            visited: seq![canon@],
            included: 0,
        });
        let dir = parent_of(path, known.windows);
        match reader.feed(known, text, &dir, 0) {
            Ok(t) => Ok(t.parser.finish()),
            Err(n) => Err(n),
        }
    }
}

// ---------------------------------------------------------------------------
// Laws
// ---------------------------------------------------------------------------

/// No file was read twice, and no more than the budget.
pub open spec fn is_bounded(s: ReadView, windows: bool) -> bool {
    distinct_paths(s.visited, windows) && s.included <= MAX_INCLUDE_FILES
}

proof fn lemma_lines_bounded(
    s: ReadView,
    known: KnownView,
    ls: Seq<Seq<char>>,
    dir: Option<Seq<char>>,
    depth: nat,
)
    requires
        is_bounded(s, known.windows),
    ensures
        read_lines(s, known, ls, dir, depth) matches Ok(t) ==> is_bounded(t, known.windows),
    decreases MAX_INCLUDE_DEPTH - depth, 2int, ls.len(),
{
    if ls.len() > 0 {
        lemma_lines_bounded(s, known, ls.drop_last(), dir, depth);
        if let Ok(t) = read_lines(s, known, ls.drop_last(), dir, depth) {
            if let Some(value) = include_value(ls.last()) {
                if depth < MAX_INCLUDE_DEPTH {
                    lemma_tokens_bounded(t, known, tokens_of(value), dir, depth);
                }
            }
        }
    }
}

proof fn lemma_tokens_bounded(
    s: ReadView,
    known: KnownView,
    tokens: Seq<Seq<char>>,
    dir: Option<Seq<char>>,
    depth: nat,
)
    requires
        is_bounded(s, known.windows),
    ensures
        read_tokens(s, known, tokens, dir, depth) matches Ok(t) ==> is_bounded(t, known.windows),
    decreases MAX_INCLUDE_DEPTH - depth, 1int, tokens.len(),
{
    if tokens.len() > 0 && depth < MAX_INCLUDE_DEPTH {
        lemma_tokens_bounded(s, known, tokens.drop_last(), dir, depth);
        if let Ok(t) = read_tokens(s, known, tokens.drop_last(), dir, depth) {
            if let Ok(paths) = resolved(tokens.last(), dir, known) {
                lemma_paths_bounded(t, known, paths, depth);
            }
        }
    }
}

proof fn lemma_paths_bounded(s: ReadView, known: KnownView, paths: Seq<Seq<char>>, depth: nat)
    requires
        is_bounded(s, known.windows),
    ensures
        read_paths(s, known, paths, depth) matches Ok(t) ==> is_bounded(t, known.windows),
    decreases MAX_INCLUDE_DEPTH - depth, 0int, paths.len(),
{
    if paths.len() > 0 && depth < MAX_INCLUDE_DEPTH {
        lemma_paths_bounded(s, known, paths.drop_last(), depth);
        if let Ok(t) = read_paths(s, known, paths.drop_last(), depth) {
            if let Some(f) = find_file(known.files, paths.last()) {
                if t.included < MAX_INCLUDE_FILES && !holds_path(
                    t.visited,
                    f.canon,
                    known.windows,
                ) {
                    let seen = ReadView { visited: t.visited.push(f.canon), ..t };
                    assert forall|i: int, j: int|
                        0 <= i < j < seen.visited.len() implies !same_path(
                        #[trigger] seen.visited[i],
                        #[trigger] seen.visited[j],
                        known.windows,
                    ) by {
                        assert(seen.visited[i] == t.visited[i]);
                    }
                    if let Some(text) = f.text {
                        lemma_lines_bounded(
                            ReadView { included: t.included + 1, ..seen },
                            known,
                            lines_of(text),
                            directory_of(paths.last(), known.windows),
                            depth + 1,
                        );
                    }
                }
            }
        }
    }
}

/// Whatever includes whatever, a reading ends: no file is read twice, and no
/// more than [`MAX_INCLUDE_FILES`] are.
pub proof fn law_includes_are_bounded(canon: Seq<char>, text: Seq<char>, known: KnownView, dir:
    Option<Seq<char>>)
    ensures
        read_lines(
            ReadView { parser: opening(), visited: seq![canon], included: 0 },
            known,
            lines_of(text),
            dir,
            0,
        ) matches Ok(t) ==> is_bounded(t, known.windows),
{
    let s = ReadView { parser: opening(), visited: seq![canon], included: 0 };
    assert(is_bounded(s, known.windows));
    lemma_lines_bounded(s, known, lines_of(text), dir, 0);
}

proof fn lemma_plain_lines(
    s: ReadView,
    known: KnownView,
    ls: Seq<Seq<char>>,
    dir: Option<Seq<char>>,
    depth: nat,
)
    requires
        forall|i: int| 0 <= i < ls.len() ==> include_value(#[trigger] ls[i]) is None,
    ensures
        read_lines(s, known, ls, dir, depth) == core::result::Result::<ReadView, NeedView>::Ok(
            ReadView { parser: after_lines(s.parser, ls), ..s },
        ),
    decreases ls.len(),
{
    if ls.len() > 0 {
        assert forall|i: int| 0 <= i < ls.drop_last().len() implies include_value(
            #[trigger] ls.drop_last()[i],
        ) is None by {
            assert(ls.drop_last()[i] == ls[i]);
        }
        lemma_plain_lines(s, known, ls.drop_last(), dir, depth);
        assert(include_value(ls[ls.len() - 1]) is None);
    }
}

/// A file that includes nothing is parsed as its text is, whatever the disk
/// holds.
pub proof fn law_plain_file_is_its_text(
    path: Seq<char>,
    canon: Seq<char>,
    text: Seq<char>,
    known: KnownView,
)
    requires
        forall|i: int|
            0 <= i < lines_of(text).len() ==> include_value(#[trigger] lines_of(text)[i]) is None,
    ensures
        parsed_file(path, canon, text, known) == core::result::Result::<
            Seq<BlockView>,
            NeedView,
        >::Ok(parsed(text)),
{
    lemma_plain_lines(
        ReadView { parser: opening(), visited: seq![canon], included: 0 },
        known,
        lines_of(text),
        directory_of(path, known.windows),
        0,
    );
}

proof fn lemma_read_lines_add(
    s: ReadView,
    known: KnownView,
    x: Seq<Seq<char>>,
    y: Seq<Seq<char>>,
    dir: Option<Seq<char>>,
    depth: nat,
)
    ensures
        read_lines(s, known, x + y, dir, depth) == (match read_lines(s, known, x, dir, depth) {
            Ok(t) => read_lines(t, known, y, dir, depth),
            Err(n) => Err(n),
        }),
    decreases y.len(),
{
    if y.len() == 0 {
        assert(x + y =~= x);
    } else {
        lemma_read_lines_add(s, known, x, y.drop_last(), dir, depth);
        assert((x + y).drop_last() =~= x + y.drop_last());
        assert((x + y).last() == y.last());
    }
}

/// A line that includes one file by its absolute path.
proof fn lemma_include_line(path: Seq<char>, dir: Seq<char>, name: Seq<char>, known: KnownView)
    requires
        !known.windows,
        path == dir + name,
        dir.len() > 0 && dir[0] == '/' && dir.last() == '/',
        name.len() > 0 && !name.contains('/') && name != seq!['.'] && name != seq!['.', '.'],
        !name.contains('*') && !name.contains('?'),
        forall|i: int|
            0 <= i < path.len() ==> !is_space(#[trigger] path[i]) && path[i] != '"' && path[i]
                != '#',
        find_file(known.files, path) is Some,
        find_file(known.files, path)->0.is_file,
    ensures
        include_value("Include "@ + path) == Some(path),
        tokens_of(path) == seq![path],
        forall|from: Option<Seq<char>>| #[trigger]
            resolved(path, from, known) == core::result::Result::<Seq<Seq<char>>, NeedView>::Ok(
                seq![path],
            ),
{
    reveal_strlit("Include");
    reveal_strlit("Include ");
    reveal_strlit("include");
    reveal_strlit("~");
    reveal_strlit("~/");
    reveal_strlit("~\\");
    law_white_space();
    let kw = "Include"@;
    let line = "Include "@ + path;
    assert(line =~= kw + seq![' '] + path);
    assert(path[0] == '/');
    assert(!is_space(path[0]) && !is_space(path[path.len() - 1]));
    assert forall|i: int| 0 <= i < line.len() implies line[i] != '"' && line[i] != '#' by {
        if i >= 8 {
            assert(line[i] == path[i - 8]);
            assert(path[i - 8] != '"' && path[i - 8] != '#');
        }
    }
    law_comment_ends_the_line(line, Seq::empty(), Seq::empty());
    law_line_is_keyword_and_value(kw, path);
    assert(lower(kw) =~= "include"@);
    law_tokens_are_between_spaces(path, Seq::empty(), ' ', Seq::empty());
    law_directory_and_name_make_the_path(dir, name);
    assert(path.take(2)[0] == '/' || path.len() < 2);
    let none = Seq::<Seq<char>>::empty();
    assert forall|from: Option<Seq<char>>| #[trigger]
        resolved(path, from, known) == core::result::Result::<Seq<Seq<char>>, NeedView>::Ok(
            seq![path],
        ) by {
        let home = match known.home {
            Some(h) => Some(machine_text(h, false)),
            None => None,
        };
        assert(at_home(path, home, false) == path) by {
            if path == "~"@ {
                assert(path[0] == '~');
            }
        }
        let c = candidates_of(path, from, known.home, known.windows);
        assert(c =~= seq![path]);
        assert(c.drop_last() =~= none);
        assert(all_files_of(none, known) == core::result::Result::<Seq<Seq<char>>, NeedView>::Ok(
            none,
        ));
        assert(!is_glob(name));
        assert(files_of(path, known) == core::result::Result::<Seq<Seq<char>>, NeedView>::Ok(
            seq![path],
        ));
        assert(none + seq![path] =~= seq![path]);
    }
}

/// An included file is read where the line that includes it stands: the file and
/// the text around it describe what the whole would with the file's text in
/// place of the line.
pub proof fn law_included_file_stands_in_place(
    top: Seq<char>,
    canon: Seq<char>,
    known: KnownView,
    above: Seq<char>,
    dir: Seq<char>,
    name: Seq<char>,
    below: Seq<char>,
)
    requires
        !known.windows,
        dir.len() > 0 && dir[0] == '/' && dir.last() == '/',
        name.len() > 0 && !name.contains('/') && name != seq!['.'] && name != seq!['.', '.'],
        !name.contains('*') && !name.contains('?'),
        forall|i: int|
            0 <= i < (dir + name).len() ==> !is_space(#[trigger] (dir + name)[i]) && (dir + name)[i]
                != '"' && (dir + name)[i] != '#',
        find_file(known.files, dir + name) is Some,
        find_file(known.files, dir + name)->0.is_file,
        find_file(known.files, dir + name)->0.text is Some,
        !same_path(canon, find_file(known.files, dir + name)->0.canon, false),
        above.len() == 0 || above.last() == '\n',
        ({
            let text = find_file(known.files, dir + name)->0.text->0;
            &&& text.len() == 0 || text.last() == '\n'
            &&& forall|i: int|
                0 <= i < lines_of(text).len() ==> include_value(#[trigger] lines_of(text)[i]) is None
        }),
        forall|i: int|
            0 <= i < lines_of(above).len() ==> include_value(#[trigger] lines_of(above)[i]) is None,
        forall|i: int|
            0 <= i < lines_of(below).len() ==> include_value(#[trigger] lines_of(below)[i]) is None,
    ensures
        parsed_file(
            top,
            canon,
            above + ("Include "@ + (dir + name)).push('\n') + below,
            known,
        ) == core::result::Result::<Seq<BlockView>, NeedView>::Ok(
            parsed(above + find_file(known.files, dir + name)->0.text->0 + below),
        ),
{
    let path = dir + name;
    let f = find_file(known.files, path)->0;
    let text = f.text->0;
    let line = "Include "@ + path;
    reveal_strlit("Include ");
    law_white_space();
    lemma_include_line(path, dir, name, known);
    let here = directory_of(top, false);
    let s0 = ReadView { parser: opening(), visited: seq![canon], included: 0 };
    // The text in lines.
    assert forall|i: int| 0 <= i < line.len() implies line[i] != '\n' && line[i] != '\r' by {
        if i >= 8 {
            assert(line[i] == path[i - 8]);
            assert(is_space('\n') && is_space('\r'));
            assert(!is_space(path[i - 8]));
        }
    }
    let ended = line.push('\n');
    lemma_lines_add(above, ended + below);
    lemma_lines_add(ended, below);
    assert(above + ended + below =~= above + (ended + below));
    lemma_until_is(ended, '\n', line.len() as int);
    assert(ended.take(line.len() as int) =~= line);
    assert(ended.skip(line.len() as int + 1) =~= Seq::empty());
    assert(lines_of(Seq::<char>::empty()) =~= Seq::empty());
    assert(without_cr(line) == line) by {
        assert(line[line.len() - 1] != '\r');
    }
    assert(lines_of(ended) =~= seq![line]);
    let u = lines_of(above);
    let v = lines_of(below);
    let w = lines_of(text);
    assert(lines_of(above + ended + below) =~= u + (seq![line] + v));
    // Above the line.
    lemma_plain_lines(s0, known, u, here, 0);
    let s1 = ReadView { parser: after_lines(opening(), u), ..s0 };
    // The line itself.
    lemma_read_lines_add(s0, known, u, seq![line] + v, here, 0);
    lemma_read_lines_add(s1, known, seq![line], v, here, 0);
    assert(seq![line].drop_last() =~= Seq::<Seq<char>>::empty());
    assert(seq![path].drop_last() =~= Seq::<Seq<char>>::empty());
    let s2 = ReadView { included: 1, visited: s1.visited.push(f.canon), ..s1 };
    assert(!holds_path(s1.visited, f.canon, false)) by {
        if holds_path(s1.visited, f.canon, false) {
            let k = choose|k: int|
                0 <= k < s1.visited.len() && same_path(#[trigger] s1.visited[k], f.canon, false);
            assert(s1.visited[k] == canon);
        }
    }
    lemma_plain_lines(s2, known, w, directory_of(path, false), 1);
    let s3 = ReadView { parser: after_lines(s1.parser, w), ..s2 };
    let none = Seq::<Seq<char>>::empty();
    assert(read_paths(s1, known, none, 0) == core::result::Result::<ReadView, NeedView>::Ok(s1));
    assert(read_paths(s1, known, seq![path], 0) == core::result::Result::<ReadView, NeedView>::Ok(
        s3,
    ));
    assert(read_tokens(s1, known, none, here, 0) == core::result::Result::<
        ReadView,
        NeedView,
    >::Ok(s1));
    assert(read_tokens(s1, known, seq![path], here, 0) == core::result::Result::<
        ReadView,
        NeedView,
    >::Ok(s3));
    assert(read_lines(s1, known, none, here, 0) == core::result::Result::<ReadView, NeedView>::Ok(
        s1,
    ));
    assert(read_lines(s1, known, seq![line], here, 0) == core::result::Result::<
        ReadView,
        NeedView,
    >::Ok(s3));
    // Below it.
    lemma_plain_lines(s3, known, v, here, 0);
    lemma_lines_add(above, text + below);
    lemma_lines_add(text, below);
    assert(above + text + below =~= above + (text + below));
    lemma_after_lines_add(opening(), u, w + v);
    lemma_after_lines_add(after_lines(opening(), u), w, v);
}

/// A pattern takes the files that it matches, and no directory, no hidden file
/// and nothing else.
pub proof fn law_glob_takes_matching_files(
    entries: Seq<(Seq<char>, bool)>,
    pattern: Seq<char>,
    name: Seq<char>,
)
    requires
        name.len() > 0,
    ensures
        globbed(entries, pattern).contains(name) <==> entries.contains((name, true)) && name[0]
            != '.' && glob(pattern, name),
    decreases entries.len(),
{
    reveal_strlit(".");
    let all = globbed(entries, pattern);
    if entries.len() > 0 {
        let less = entries.drop_last();
        let before = globbed(less, pattern);
        let (last, is_file) = entries.last();
        law_glob_takes_matching_files(less, pattern, name);
        assert(has_prefix(name, "."@) <==> name[0] == '.') by {
            assert(name.take(1)[0] == name[0]);
            if name[0] == '.' {
                assert(name.take(1) =~= "."@);
            }
        }
        if before.contains(name) {
            let k = choose|k: int| 0 <= k < before.len() && before[k] == name;
            assert(all[k] == name);
        }
        if less.contains((name, true)) {
            let k = choose|k: int| 0 <= k < less.len() && less[k] == (name, true);
            assert(entries[k] == (name, true));
        }
        if entries.contains((name, true)) && !less.contains((name, true)) {
            let k = choose|k: int| 0 <= k < entries.len() && entries[k] == (name, true);
            if k < less.len() {
                assert(less[k] == (name, true));
            }
            assert(entries.last() == (name, true));
            if name[0] != '.' && glob(pattern, name) {
                assert(all[all.len() - 1] == name);
            }
        }
        if all.contains(name) && !before.contains(name) {
            let k = choose|k: int| 0 <= k < all.len() && all[k] == name;
            if k < before.len() {
                assert(before[k] == name);
            }
            assert(last == name && is_file);
            assert(entries[entries.len() - 1] == (name, true));
        }
    }
}

} // verus!
